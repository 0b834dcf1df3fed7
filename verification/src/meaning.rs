//! What expressions and stats come to, said of their parts.
//!
//! Each law takes what an evaluation came to and says how that goes together
//! with what its operands, arguments, modifiers and references come to.

use crate::entity::Entity;
use crate::error::Fault;
use crate::eval::{
    contributions, formula_value, formula_values, got, got_all, largest, right_value, smallest, stat_value, with_base,
    Context, Scene,
};
use crate::expr::{all_compiled, compiled, first_unknown, Link, Rule};
use crate::parser::{Reference, Term};
use crate::require::checked;
use crate::scalar::{
    at_most, below, custom_value, equals, literal_value, plus_value, power_value, sqrt_value, times_value,
    Arithmetic, Scalar,
};
use crate::state::{evaluated, scene_of, State};
use crate::stats::{last_segment, multiplied, reduced, reduction_of, summed, Reduction, Rules, Source, Stored};
use crate::tags::{lemma_subset_bits, resolved, subset};
use crate::tree::{refs, BinaryOp, Formula, Func, UnaryOp};
use crate::world::{consistent, Query};
use vstd::prelude::*;

verus! {

// -- numbers ----------------------------------------------------------------

/// Whether a pattern is a number: what is left without the sign is at most
/// infinity.
pub open spec fn number(v: Scalar) -> bool {
    v % 0x8000_0000 <= 0x7F80_0000
}

/// Whether a pattern is a number below infinity in size.
pub open spec fn bounded(v: Scalar) -> bool {
    v % 0x8000_0000 < 0x7F80_0000
}

/// Where a number stands: positive patterns in their order, negative ones
/// mirrored.
pub open spec fn rank(v: Scalar) -> int {
    if v < 0x8000_0000 {
        v as int
    } else {
        0x8000_0000 - v
    }
}

/// The pattern of one or of zero.
pub open spec fn flag(b: bool) -> Scalar {
    if b {
        0x3F80_0000
    } else {
        0
    }
}

/// Numbers compare by where they stand; what is not a number compares with
/// nothing.
pub proof fn law_numbers_compare_by_rank(a: Scalar, b: Scalar)
    ensures
        below(a, b) <==> number(a) && number(b) && rank(a) < rank(b),
        at_most(a, b) <==> number(a) && number(b) && rank(a) <= rank(b),
        equals(a, b) <==> number(a) && number(b) && rank(a) == rank(b),
{
}

proof fn lemma_smallest(vals: Seq<Scalar>)
    ensures
        number(smallest(vals)),
        forall|i: int| 0 <= i < vals.len() && number(vals[i]) ==> rank(smallest(vals)) <= rank(#[trigger] vals[i]),
        smallest(vals) == 0x7F80_0000 || exists|i: int| 0 <= i < vals.len() && #[trigger] vals[i] == smallest(vals),
    decreases vals.len(),
{
    if vals.len() > 0 {
        let rest = vals.drop_last();
        lemma_smallest(rest);
        assert forall|i: int| 0 <= i < vals.len() && number(vals[i]) implies rank(smallest(vals)) <= rank(
            #[trigger] vals[i],
        ) by {
            if i < rest.len() {
                assert(rest[i] == vals[i]);
            }
        }
        if smallest(vals) == smallest(rest) {
            if smallest(rest) != 0x7F80_0000 {
                let i = choose|i: int| 0 <= i < rest.len() && #[trigger] rest[i] == smallest(rest);
                assert(vals[i] == smallest(vals));
            }
        } else {
            assert(vals[vals.len() - 1] == smallest(vals));
        }
    }
}

proof fn lemma_largest(vals: Seq<Scalar>)
    ensures
        number(largest(vals)),
        forall|i: int| 0 <= i < vals.len() && number(vals[i]) ==> rank(largest(vals)) >= rank(#[trigger] vals[i]),
        largest(vals) == 0xFF80_0000 || exists|i: int| 0 <= i < vals.len() && #[trigger] vals[i] == largest(vals),
    decreases vals.len(),
{
    if vals.len() > 0 {
        let rest = vals.drop_last();
        lemma_largest(rest);
        assert forall|i: int| 0 <= i < vals.len() && number(vals[i]) implies rank(largest(vals)) >= rank(
            #[trigger] vals[i],
        ) by {
            if i < rest.len() {
                assert(rest[i] == vals[i]);
            }
        }
        if largest(vals) == largest(rest) {
            if largest(rest) != 0xFF80_0000 {
                let i = choose|i: int| 0 <= i < rest.len() && #[trigger] rest[i] == largest(rest);
                assert(vals[i] == largest(vals));
            }
        } else {
            assert(vals[vals.len() - 1] == largest(vals));
        }
    }
}

// -- formulas ---------------------------------------------------------------

/// A number comes to itself.
pub proof fn law_numbers_come_to_themselves<A: Arithmetic>(
    sc: Scene<A>,
    path: Seq<Query>,
    context: Context,
    n: Scalar,
    v: Scalar,
)
    requires
        consistent(sc.world),
        formula_value(sc, path, context, Formula::Num(n), v),
    ensures
        v == n,
{
}

/// A reference comes to the stat that it names: on the owner if it has no
/// source, else on the entity that the role of that name is bound to, else on
/// the one that the link of that name on the owner leads to. It asks under its
/// own tag filter if it has one, and under the tags of the enclosing query if
/// it has none. If its source leads nowhere, it comes to what its stat reduces
/// nothing to.
pub proof fn law_references_read_their_target<A: Arithmetic>(
    sc: Scene<A>,
    path: Seq<Query>,
    context: Context,
    link: Link,
    v: Scalar,
)
    requires
        consistent(sc.world),
        formula_value(sc, path, context, Formula::Stat(link), v),
    ensures
        ({
            let tags = match link.tags {
                Some(own) => own,
                None => context.tags,
            };
            match link.source {
                None => stat_value(sc, path, Query { key: (context.owner, link.stat), tags }, v),
                Some(name) => {
                    &&& context.roles.contains_key(name) ==> stat_value(
                        sc,
                        path,
                        Query { key: (context.roles[name], link.stat), tags },
                        v,
                    )
                    &&& !context.roles.contains_key(name) && sc.world.links.contains_key((context.owner, name))
                        ==> stat_value(
                        sc,
                        path,
                        Query { key: (sc.world.links[(context.owner, name)], link.stat), tags },
                        v,
                    )
                    &&& !context.roles.contains_key(name) && !sc.world.links.contains_key((context.owner, name))
                        ==> totalled(sc.host, reduction_of(sc.rules, link.stat), Seq::empty(), v)
                },
            }
        }),
{
    if let Some(name) = link.source {
        if !context.roles.contains_key(name) && !sc.world.links.contains_key((context.owner, name)) {
            lemma_totalled(sc.host, reduction_of(sc.rules, link.stat), Seq::empty(), v);
        }
    }
}

/// `-e` comes to what `e` comes to with the other sign; `!e` to one if `e`
/// comes to zero of either sign, else to zero.
pub proof fn law_prefix_operators<A: Arithmetic>(
    sc: Scene<A>,
    path: Seq<Query>,
    context: Context,
    op: UnaryOp,
    e: Rule,
    v: Scalar,
)
    requires
        consistent(sc.world),
        formula_value(sc, path, context, Formula::Unary(op, Box::new(e)), v),
    ensures
        exists|x: Scalar| #[trigger]
            formula_value(sc, path, context, e, x) && match op {
                UnaryOp::Neg => v != x && v % 0x8000_0000 == x % 0x8000_0000,
                UnaryOp::Not => v == flag(x == 0 || x == 0x8000_0000),
            },
{
    let x = choose|x: Scalar|
        #[trigger] got(x) && formula_value(sc, path, context, e, x) && crate::eval::unary_value(op, x, v);
    assert(formula_value(sc, path, context, e, x));
}

/// Whether an operator is `&&` or `||`.
pub open spec fn connective(op: BinaryOp) -> bool {
    op == BinaryOp::And || op == BinaryOp::Or
}

/// An infix operator other than `&&` and `||` works on what its left and its
/// right side come to, in this order: arithmetic is what the host makes of
/// them, a divisor smaller than a billionth gives zero, and so does a power
/// that is not finite; a comparison gives one if it holds and zero if not.
pub proof fn law_infix_operators<A: Arithmetic>(
    sc: Scene<A>,
    path: Seq<Query>,
    context: Context,
    op: BinaryOp,
    a: Rule,
    b: Rule,
    v: Scalar,
)
    requires
        consistent(sc.world),
        !connective(op),
        formula_value(sc, path, context, Formula::Binary(op, Box::new(a), Box::new(b)), v),
    ensures
        exists|x: Scalar, y: Scalar|
            #![trigger formula_value(sc, path, context, a, x), formula_value(sc, path, context, b, y)]
            formula_value(sc, path, context, a, x) && formula_value(sc, path, context, b, y) && match op {
                BinaryOp::Add => call_ensures(A::plus, (&sc.host, x, y), v),
                BinaryOp::Sub => call_ensures(A::minus, (&sc.host, x, y), v),
                BinaryOp::Mul => call_ensures(A::times, (&sc.host, x, y), v),
                BinaryOp::Div => if y % 0x8000_0000 < 0x3089_705F {
                    v == 0
                } else {
                    call_ensures(A::over, (&sc.host, x, y), v)
                },
                BinaryOp::Rem => if y % 0x8000_0000 < 0x3089_705F {
                    v == 0
                } else {
                    call_ensures(A::modulo, (&sc.host, x, y), v)
                },
                BinaryOp::Pow => exists|r: Scalar| #[trigger]
                    call_ensures(A::power, (&sc.host, x, y), r) && v == (if bounded(r) {
                        r
                    } else {
                        0
                    }),
                BinaryOp::Lt => v == flag(number(x) && number(y) && rank(x) < rank(y)),
                BinaryOp::Le => v == flag(number(x) && number(y) && rank(x) <= rank(y)),
                BinaryOp::Gt => v == flag(number(x) && number(y) && rank(x) > rank(y)),
                BinaryOp::Ge => v == flag(number(x) && number(y) && rank(x) >= rank(y)),
                BinaryOp::Eq => exists|d: Scalar| #[trigger]
                    call_ensures(A::minus, (&sc.host, x, y), d) && v == flag(d % 0x8000_0000 < 0x3586_37BD),
                BinaryOp::Ne => exists|d: Scalar| #[trigger]
                    call_ensures(A::minus, (&sc.host, x, y), d) && v == flag(
                        number(d) && d % 0x8000_0000 >= 0x3586_37BD,
                    ),
                BinaryOp::And | BinaryOp::Or => false,
            },
{
    let x = choose|x: Scalar| #[trigger]
        got(x) && formula_value(sc, path, context, a, x) && right_value(sc, path, context, op, x, b, v);
    assert(right_value(sc, path, context, op, x, b, v));
    let y = choose|y: Scalar|
        #[trigger] got(y) && formula_value(sc, path, context, b, y) && crate::eval::binary_value(sc.host, op, x, y, v);
    assert(formula_value(sc, path, context, a, x) && formula_value(sc, path, context, b, y));
    assert(crate::eval::binary_value(sc.host, op, x, y, v));
    match op {
        BinaryOp::Pow => {
            let r = choose|r: Scalar|
                #[trigger] power_value(sc.host, x, y, r) && v == (if crate::scalar::finite(r) {
                    r
                } else {
                    crate::scalar::ZERO
                });
            assert(call_ensures(A::power, (&sc.host, x, y), r));
        },
        BinaryOp::Eq => {
            let d = choose|d: Scalar| #[trigger]
                crate::scalar::minus_value(sc.host, x, y, d) && v == crate::scalar::truth(
                    below(crate::scalar::absolute(d), crate::scalar::EQ_EPSILON),
                );
            assert(call_ensures(A::minus, (&sc.host, x, y), d));
        },
        BinaryOp::Ne => {
            let d = choose|d: Scalar| #[trigger]
                crate::scalar::minus_value(sc.host, x, y, d) && v == crate::scalar::truth(
                    at_most(crate::scalar::EQ_EPSILON, crate::scalar::absolute(d)),
                );
            assert(call_ensures(A::minus, (&sc.host, x, y), d));
        },
        _ => {},
    }
}

/// Whether a pattern is zero, of either sign.
pub open spec fn zero(v: Scalar) -> bool {
    v == 0 || v == 0x8000_0000
}

/// `a && b` comes to one if both sides come to something other than zero, else
/// to zero; `a || b` to one if one of them does, else to zero. The right side
/// is looked at only if the left one does not decide.
pub proof fn law_connectives<A: Arithmetic>(
    sc: Scene<A>,
    path: Seq<Query>,
    context: Context,
    op: BinaryOp,
    a: Rule,
    b: Rule,
    v: Scalar,
)
    requires
        consistent(sc.world),
        connective(op),
        formula_value(sc, path, context, Formula::Binary(op, Box::new(a), Box::new(b)), v),
    ensures
        exists|x: Scalar| #[trigger]
            formula_value(sc, path, context, a, x) && if zero(x) == (op == BinaryOp::And) {
                v == flag(!zero(x))
            } else {
                exists|y: Scalar| #[trigger] formula_value(sc, path, context, b, y) && v == flag(!zero(y))
            },
{
    let x = choose|x: Scalar| #[trigger]
        got(x) && formula_value(sc, path, context, a, x) && right_value(sc, path, context, op, x, b, v);
    assert(right_value(sc, path, context, op, x, b, v));
    assert(equals(x, 0) == zero(x));
    if zero(x) != (op == BinaryOp::And) {
        let y = choose|y: Scalar|
            #[trigger] got(y) && formula_value(sc, path, context, b, y) && v == crate::scalar::truth(!equals(y, 0));
        assert(formula_value(sc, path, context, b, y));
        assert(equals(y, 0) == zero(y));
    }
}

proof fn lemma_arguments<A: Arithmetic>(
    sc: Scene<A>,
    path: Seq<Query>,
    context: Context,
    rules: Seq<Rule>,
    vals: Seq<Scalar>,
)
    requires
        consistent(sc.world),
        formula_values(sc, path, context, rules, vals),
    ensures
        vals.len() == rules.len(),
        forall|i: int| 0 <= i < rules.len() ==> formula_value(sc, path, context, #[trigger] rules[i], vals[i]),
    decreases rules.len(),
{
    if rules.len() > 0 {
        lemma_arguments(sc, path, context, rules.drop_last(), vals.drop_last());
        assert forall|i: int| 0 <= i < rules.len() implies formula_value(
            sc,
            path,
            context,
            #[trigger] rules[i],
            vals[i],
        ) by {
            if i < rules.len() - 1 {
                assert(rules.drop_last()[i] == rules[i]);
                assert(vals.drop_last()[i] == vals[i]);
            }
        }
    }
}

/// A function works on what its arguments come to, each at its place. `min` is
/// one of them and at most each of them, `max` one of them and at least each
/// of them; arguments that are not numbers are passed over. `abs` drops the
/// sign. `clamp` gives its first argument where that lies between the other
/// two, else the nearer of these, and the lower one where they are not in
/// order. The rest are what the host makes of the argument, a root that is not
/// finite being zero.
pub proof fn law_functions<A: Arithmetic>(
    sc: Scene<A>,
    path: Seq<Query>,
    context: Context,
    f: Func,
    args: Seq<Rule>,
    v: Scalar,
)
    requires
        consistent(sc.world),
        args.len() > 0,
        f == Func::Clamp ==> args.len() == 3,
        formula_value(sc, path, context, Formula::Call(f, args), v),
    ensures
        exists|vals: Seq<Scalar>| #[trigger]
            got_all(vals) && vals.len() == args.len() && (forall|i: int|
                0 <= i < args.len() ==> formula_value(sc, path, context, #[trigger] args[i], vals[i])) && match f {
                Func::Min => {
                    &&& forall|i: int| 0 <= i < vals.len() && number(vals[i]) ==> rank(v) <= rank(#[trigger] vals[i])
                    &&& number(v)
                    &&& v == 0x7F80_0000 || exists|i: int| 0 <= i < vals.len() && #[trigger] vals[i] == v
                    &&& forall|k: int|
                        0 <= k < vals.len() && number(#[trigger] vals[k]) ==> exists|i: int|
                            0 <= i < vals.len() && #[trigger] vals[i] == v
                },
                Func::Max => {
                    &&& forall|i: int| 0 <= i < vals.len() && number(vals[i]) ==> rank(v) >= rank(#[trigger] vals[i])
                    &&& number(v)
                    &&& v == 0xFF80_0000 || exists|i: int| 0 <= i < vals.len() && #[trigger] vals[i] == v
                    &&& forall|k: int|
                        0 <= k < vals.len() && number(#[trigger] vals[k]) ==> exists|i: int|
                            0 <= i < vals.len() && #[trigger] vals[i] == v
                },
                Func::Abs => v < 0x8000_0000 && v == vals[0] % 0x8000_0000,
                Func::Clamp => {
                    let (x, lo, hi) = (vals[0], vals[1], vals[2]);
                    if number(lo) && number(hi) && rank(lo) <= rank(hi) {
                        if !number(x) || rank(lo) <= rank(x) <= rank(hi) {
                            v == x
                        } else if rank(x) < rank(lo) {
                            v == lo
                        } else {
                            v == hi
                        }
                    } else {
                        v == lo
                    }
                },
                Func::Floor => call_ensures(A::floor, (&sc.host, vals[0]), v),
                Func::Ceil => call_ensures(A::ceil, (&sc.host, vals[0]), v),
                Func::Round => call_ensures(A::round, (&sc.host, vals[0]), v),
                Func::Sqrt => exists|r: Scalar| #[trigger]
                    call_ensures(A::sqrt, (&sc.host, vals[0]), r) && v == (if bounded(r) {
                        r
                    } else {
                        0
                    }),
            },
{
    let vals = choose|vals: Seq<Scalar>| #[trigger]
        got_all(vals) && formula_values(sc, path, context, args, vals) && crate::eval::call_value(
            sc.host,
            f,
            vals,
            v,
        );
    lemma_arguments(sc, path, context, args, vals);
    lemma_smallest(vals);
    lemma_largest(vals);
    assert forall|k: int| 0 <= k < vals.len() && number(#[trigger] vals[k]) && f == Func::Min implies exists|i: int|
        0 <= i < vals.len() && #[trigger] vals[i] == v by {
        if v == 0x7F80_0000 {
            assert(vals[k] == v);
        }
    }
    assert forall|k: int| 0 <= k < vals.len() && number(#[trigger] vals[k]) && f == Func::Max implies exists|i: int|
        0 <= i < vals.len() && #[trigger] vals[i] == v by {
        if v == 0xFF80_0000 {
            assert(vals[k] == v);
        }
    }
    assert(crate::eval::call_value(sc.host, f, vals, v));
    if f == Func::Sqrt {
        let r = choose|r: Scalar|
            #[trigger] sqrt_value(sc.host, vals[0], r) && v == (if crate::scalar::finite(r) {
                r
            } else {
                crate::scalar::ZERO
            });
        assert(call_ensures(A::sqrt, (&sc.host, vals[0]), r));
    }
    assert(got_all(vals));
}

// -- reductions -------------------------------------------------------------

/// `run` are the running totals of a sum: from zero, each the host's sum of the
/// one before it and the next value.
pub open spec fn running_sum<A: Arithmetic>(host: A, values: Seq<Scalar>, run: Seq<Scalar>) -> bool {
    &&& run.len() == values.len() + 1
    &&& run[0] == 0
    &&& forall|i: int|
        0 <= i < values.len() ==> call_ensures(A::plus, (&host, run[i], #[trigger] values[i]), run[i + 1])
}

/// `run` are the running totals of a product: from one, each the host's product
/// of the one before it and of one plus the next value.
pub open spec fn running_product<A: Arithmetic>(host: A, values: Seq<Scalar>, run: Seq<Scalar>) -> bool {
    &&& run.len() == values.len() + 1
    &&& run[0] == 0x3F80_0000
    &&& forall|i: int|
        0 <= i < values.len() ==> scaled(host, run[i], #[trigger] values[i], run[i + 1])
}

/// `r` is the host's product of `x` and of one plus `v`.
pub open spec fn scaled<A: Arithmetic>(host: A, x: Scalar, v: Scalar, r: Scalar) -> bool {
    exists|factor: Scalar|
        call_ensures(A::plus, (&host, 0x3F80_0000u32, v), factor) && #[trigger] call_ensures(
            A::times,
            (&host, x, factor),
            r,
        )
}

/// `r` is what a reduction makes of values, taken in order.
pub open spec fn totalled<A: Arithmetic>(host: A, reduction: Reduction, values: Seq<Scalar>, r: Scalar) -> bool {
    match reduction {
        Reduction::Sum => exists|run: Seq<Scalar>| #[trigger] running_sum(host, values, run) && run.last() == r,
        Reduction::Product => exists|run: Seq<Scalar>| #[trigger]
            running_product(host, values, run) && run.last() == r,
        Reduction::Custom(key) => exists|list: Vec<Scalar>|
            list@ == values && #[trigger] call_ensures(A::custom, (&host, key, &list), r),
    }
}

proof fn lemma_running_sum<A: Arithmetic>(host: A, values: Seq<Scalar>, r: Scalar) -> (run: Seq<Scalar>)
    requires
        summed(host, values, r),
    ensures
        running_sum(host, values, run),
        run.last() == r,
    decreases values.len(),
{
    if values.len() == 0 {
        seq![r]
    } else {
        let acc = choose|acc: Scalar|
            #[trigger] plus_value(host, acc, values.last(), r) && summed(host, values.drop_last(), acc);
        let before = lemma_running_sum(host, values.drop_last(), acc);
        let run = before.push(r);
        assert forall|i: int| 0 <= i < values.len() implies call_ensures(
            A::plus,
            (&host, run[i], #[trigger] values[i]),
            run[i + 1],
        ) by {
            if i < values.len() - 1 {
                assert(values.drop_last()[i] == values[i]);
            } else {
                assert(run[i] == acc);
            }
        }
        run
    }
}

proof fn lemma_running_product<A: Arithmetic>(host: A, values: Seq<Scalar>, r: Scalar) -> (run: Seq<Scalar>)
    requires
        multiplied(host, values, r),
    ensures
        running_product(host, values, run),
        run.last() == r,
    decreases values.len(),
{
    if values.len() == 0 {
        seq![r]
    } else {
        let (acc, factor) = choose|acc: Scalar, factor: Scalar|
            plus_value(host, crate::scalar::ONE, values.last(), factor) && #[trigger] times_value(host, acc, factor, r)
                && multiplied(host, values.drop_last(), acc);
        let before = lemma_running_product(host, values.drop_last(), acc);
        let run = before.push(r);
        assert forall|i: int| 0 <= i < values.len() implies scaled(
            host,
            run[i],
            #[trigger] values[i],
            run[i + 1],
        ) by {
            if i < values.len() - 1 {
                assert(values.drop_last()[i] == values[i]);
            } else {
                assert(run[i] == acc);
                assert(call_ensures(A::times, (&host, acc, factor), r));
            }
        }
        run
    }
}

/// A sum adds the values up in order from zero, a product multiplies one plus
/// each of them in order from one, and any other reduction is what the host
/// makes of the list.
pub proof fn lemma_totalled<A: Arithmetic>(host: A, reduction: Reduction, values: Seq<Scalar>, r: Scalar)
    requires
        reduced(host, reduction, values, r),
    ensures
        totalled(host, reduction, values, r),
{
    match reduction {
        Reduction::Sum => {
            let run = lemma_running_sum(host, values, r);
            assert(running_sum(host, values, run));
        },
        Reduction::Product => {
            let run = lemma_running_product(host, values, r);
            assert(running_product(host, values, run));
        },
        Reduction::Custom(key) => {
            assert(custom_value(host, key, values, r));
        },
    }
}

proof fn lemma_segment(prefix: Seq<char>, segment: Seq<char>)
    requires
        forall|i: int| 0 <= i < segment.len() ==> #[trigger] segment[i] != '.',
    ensures
        last_segment(segment) == segment,
        last_segment(prefix.push('.') + segment) == segment,
    decreases segment.len(),
{
    let name = prefix.push('.') + segment;
    if segment.len() == 0 {
        assert(name =~= prefix.push('.'));
        assert(last_segment(segment) =~= segment);
        assert(last_segment(name) =~= segment);
    } else {
        let rest = segment.drop_last();
        assert forall|i: int| 0 <= i < rest.len() implies #[trigger] rest[i] != '.' by {
            assert(rest[i] == segment[i]);
        }
        lemma_segment(prefix, rest);
        assert(name.drop_last() =~= prefix.push('.') + rest);
        assert(segment[segment.len() - 1] == segment.last());
        assert(rest.push(segment.last()) =~= segment);
    }
}

/// A stat uses the reduction that its name has; else the one that what follows
/// its last dot has, or all of a name without dots; else the default.
pub proof fn law_names_go_before_segments(rules: Rules, stat: Seq<char>, prefix: Seq<char>, segment: Seq<char>)
    requires
        stat == segment || stat == prefix.push('.') + segment,
        forall|i: int| 0 <= i < segment.len() ==> #[trigger] segment[i] != '.',
    ensures
        rules.exact.contains_key(stat) ==> reduction_of(rules, stat) == rules.exact[stat],
        !rules.exact.contains_key(stat) && rules.segment.contains_key(segment) ==> reduction_of(rules, stat)
            == rules.segment[segment],
        !rules.exact.contains_key(stat) && !rules.segment.contains_key(segment) ==> reduction_of(rules, stat)
            == rules.default,
{
    lemma_segment(prefix, segment);
}

// -- stats ------------------------------------------------------------------

/// `picked` are the places of the modifiers whose tags are all among `tags`, in
/// order.
pub open spec fn taking_part(mods: Seq<Stored>, tags: u64, picked: Seq<int>) -> bool {
    &&& forall|j: int| 0 <= j < picked.len() ==> 0 <= #[trigger] picked[j] < mods.len()
    &&& forall|j: int, k: int| 0 <= j < k < picked.len() ==> #[trigger] picked[j] < #[trigger] picked[k]
    &&& forall|i: int|
        #![trigger mods[i]]
        0 <= i < mods.len() ==> (picked.contains(i) <==> tags & mods[i].tags == mods[i].tags)
}

/// Each of `vals` is what the modifier at its place contributes to a query: a
/// literal itself, an expression what it comes to on the entity of the query
/// under the tags of the query.
pub open spec fn contributed<A: Arithmetic>(
    sc: Scene<A>,
    path: Seq<Query>,
    q: Query,
    mods: Seq<Stored>,
    picked: Seq<int>,
    vals: Seq<Scalar>,
) -> bool {
    &&& vals.len() == picked.len()
    &&& forall|j: int|
        0 <= j < picked.len() ==> match mods[#[trigger] picked[j]].value {
            Source::Literal(n) => vals[j] == n,
            Source::Expr(rule) => formula_value(
                sc,
                path,
                Context { owner: q.key.0, roles: Map::empty(), tags: q.tags },
                rule,
                vals[j],
            ),
        }
}

proof fn lemma_contributed<A: Arithmetic>(
    sc: Scene<A>,
    path: Seq<Query>,
    q: Query,
    mods: Seq<Stored>,
    vals: Seq<Scalar>,
) -> (picked: Seq<int>)
    requires
        consistent(sc.world),
        contributions(sc, path, q, mods, vals),
    ensures
        taking_part(mods, q.tags, picked),
        contributed(sc, path, q, mods, picked, vals),
    decreases mods.len(),
{
    if mods.len() == 0 {
        Seq::empty()
    } else {
        let rest = mods.drop_last();
        let last = mods.len() - 1;
        lemma_subset_bits(mods.last().tags, q.tags);
        if subset(mods.last().tags, q.tags) {
            let before = lemma_contributed(sc, path, q, rest, vals.drop_last());
            let picked = before.push(last);
            assert forall|i: int|
                #![trigger mods[i]]
                0 <= i < mods.len() implies (picked.contains(i) <==> q.tags & mods[i].tags == mods[i].tags) by {
                if i < last {
                    assert(rest[i] == mods[i]);
                    if before.contains(i) {
                        let j = choose|j: int| 0 <= j < before.len() && before[j] == i;
                        assert(picked[j] == i);
                    }
                    if picked.contains(i) {
                        let j = choose|j: int| 0 <= j < picked.len() && picked[j] == i;
                        assert(before[j] == i);
                    }
                } else {
                    assert(picked[before.len() as int] == last);
                }
            }
            assert forall|j: int| 0 <= j < picked.len() implies match mods[#[trigger] picked[j]].value {
                Source::Literal(n) => vals[j] == n,
                Source::Expr(rule) => formula_value(
                    sc,
                    path,
                    Context { owner: q.key.0, roles: Map::empty(), tags: q.tags },
                    rule,
                    vals[j],
                ),
            } by {
                if j < before.len() {
                    assert(picked[j] == before[j]);
                    assert(rest[before[j]] == mods[before[j]]);
                    assert(vals.drop_last()[j] == vals[j]);
                }
            }
            assert forall|j: int, k: int| 0 <= j < k < picked.len() implies #[trigger] picked[j]
                < #[trigger] picked[k] by {
                if k < before.len() {
                    assert(before[j] < before[k]);
                } else {
                    assert(before[j] < rest.len());
                }
            }
            picked
        } else {
            let picked = lemma_contributed(sc, path, q, rest, vals);
            assert forall|i: int|
                #![trigger mods[i]]
                0 <= i < mods.len() implies (picked.contains(i) <==> q.tags & mods[i].tags == mods[i].tags) by {
                if i < last {
                    assert(rest[i] == mods[i]);
                }
            }
            assert forall|j: int| 0 <= j < picked.len() implies match mods[#[trigger] picked[j]].value {
                Source::Literal(n) => vals[j] == n,
                Source::Expr(rule) => formula_value(
                    sc,
                    path,
                    Context { owner: q.key.0, roles: Map::empty(), tags: q.tags },
                    rule,
                    vals[j],
                ),
            } by {
                assert(rest[picked[j]] == mods[picked[j]]);
            }
            picked
        }
    }
}

/// A stat that is neither cached nor being evaluated comes to the reduction of
/// its base value, if it has one, and of what those of its modifiers contribute
/// whose tags are all among those asked for, in the order in which they were
/// added.
pub proof fn law_stats_reduce_what_takes_part<A: Arithmetic>(sc: Scene<A>, path: Seq<Query>, q: Query, v: Scalar)
    requires
        consistent(sc.world),
        sc.world.nodes.contains_key(q.key),
        !sc.world.cache.contains_key(q),
        !path.contains(q),
        stat_value(sc, path, q, v),
    ensures
        exists|picked: Seq<int>, vals: Seq<Scalar>|
            taking_part(sc.world.nodes[q.key].modifiers, q.tags, picked) && #[trigger] contributed(
                sc,
                path.push(q),
                q,
                sc.world.nodes[q.key].modifiers,
                picked,
                vals,
            ) && totalled(
                sc.host,
                reduction_of(sc.rules, q.key.1),
                match sc.world.nodes[q.key].base {
                    Some(base) => seq![base] + vals,
                    None => vals,
                },
                v,
            ),
{
    let node = sc.world.nodes[q.key];
    let vals = choose|vals: Seq<Scalar>|
        #[trigger] reduced(sc.host, reduction_of(sc.rules, q.key.1), with_base(node.base, vals), v) && contributions(
            sc,
            path.push(q),
            q,
            node.modifiers,
            vals,
        );
    let picked = lemma_contributed(sc, path.push(q), q, node.modifiers, vals);
    lemma_totalled(sc.host, reduction_of(sc.rules, q.key.1), with_base(node.base, vals), v);
    assert(contributed(sc, path.push(q), q, node.modifiers, picked, vals));
}

/// A stat that does not exist comes to the reduction of nothing, a cached query
/// to its cached value, and a query that is being evaluated to zero.
pub proof fn law_other_reads<A: Arithmetic>(sc: Scene<A>, path: Seq<Query>, q: Query, v: Scalar)
    requires
        consistent(sc.world),
        stat_value(sc, path, q, v),
    ensures
        !sc.world.nodes.contains_key(q.key) ==> totalled(
            sc.host,
            reduction_of(sc.rules, q.key.1),
            Seq::empty(),
            v,
        ),
        sc.world.nodes.contains_key(q.key) && sc.world.cache.contains_key(q) ==> v == sc.world.cache[q],
        sc.world.nodes.contains_key(q.key) && !sc.world.cache.contains_key(q) && path.contains(q) ==> v == 0,
{
    if !sc.world.nodes.contains_key(q.key) {
        lemma_totalled(sc.host, reduction_of(sc.rules, q.key.1), Seq::empty(), v);
    }
}

// -- sources ----------------------------------------------------------------

/// A list of tag names resolves exactly if all of them are registered, and
/// then to the mask that has a bit exactly if one of theirs has it.
pub proof fn law_filters_are_unions(tags: Map<Seq<char>, u64>, list: Seq<Seq<char>>, bit: u64)
    requires
        bit < 64,
    ensures
        resolved(tags, list) is Ok <==> forall|i: int| 0 <= i < list.len() ==> tags.contains_key(#[trigger] list[i]),
        resolved(tags, list) matches Ok(mask) ==> ((mask >> bit) & 1 == 1 <==> exists|i: int|
            0 <= i < list.len() && (tags[#[trigger] list[i]] >> bit) & 1 == 1),
        resolved(tags, list) matches Err(name) ==> exists|i: int|
            0 <= i < list.len() && #[trigger] list[i] == name && !tags.contains_key(name) && forall|j: int|
                0 <= j < i ==> tags.contains_key(#[trigger] list[j]),
    decreases list.len(),
{
    if list.len() == 0 {
        assert((0u64 >> bit) & 1 != 1) by (bit_vector)
            requires
                bit < 64,
        ;
    } else {
        let rest = list.drop_last();
        law_filters_are_unions(tags, rest, bit);
        let last = list.len() - 1;
        assert(list[last] == list.last());
        match resolved(tags, rest) {
            Err(name) => {
                let i = choose|i: int|
                    0 <= i < rest.len() && #[trigger] rest[i] == name && !tags.contains_key(name) && forall|j: int|
                        0 <= j < i ==> tags.contains_key(#[trigger] rest[j]);
                assert(list[i] == name);
                assert forall|j: int| 0 <= j < i implies tags.contains_key(#[trigger] list[j]) by {
                    assert(rest[j] == list[j]);
                }
            },
            Ok(mask) => {
                assert forall|j: int| 0 <= j < last implies tags.contains_key(#[trigger] list[j]) by {
                    assert(rest[j] == list[j]);
                }
                if tags.contains_key(list.last()) {
                    let more = tags[list.last()];
                    assert(((mask | more) >> bit) & 1 == 1 <==> (mask >> bit) & 1 == 1 || (more >> bit) & 1 == 1)
                        by (bit_vector)
                        requires
                            bit < 64,
                    ;
                    if (mask >> bit) & 1 == 1 {
                        let i = choose|i: int| 0 <= i < rest.len() && (tags[#[trigger] rest[i]] >> bit) & 1 == 1;
                        assert(rest[i] == list[i]);
                    }
                    if exists|i: int| 0 <= i < list.len() && (tags[#[trigger] list[i]] >> bit) & 1 == 1 {
                        let i = choose|i: int| 0 <= i < list.len() && (tags[#[trigger] list[i]] >> bit) & 1 == 1;
                        if i < last {
                            assert(rest[i] == list[i]);
                        }
                    }
                }
            },
        }
    }
}

/// Making an expression ready keeps its shape: numbers are what the host reads
/// in their text, references keep their source and stat, and get the mask of
/// their tag filter exactly if they have one.
pub proof fn law_readying_keeps_the_shape<A: Arithmetic>(
    host: A,
    tags: Map<Seq<char>, u64>,
    term: Term,
    rule: Rule,
)
    requires
        compiled(host, tags, term, rule),
    ensures
        match term {
            Formula::Num(text) => rule matches Formula::Num(v) && exists|t: &str|
                t@ == text && #[trigger] call_ensures(A::literal, (&host, t), v),
            Formula::Stat(r) => rule matches Formula::Stat(link) && link.source == r.source && link.stat == r.stat && (
            r.tags is None ==> link.tags is None) && (r.tags matches Some(filter) ==> (resolved(tags, filter) matches Ok(
                mask,
            ) ==> link.tags == Some(mask))),
            Formula::Unary(op, e) => rule matches Formula::Unary(o, x) && o == op && compiled(host, tags, *e, *x),
            Formula::Binary(op, a, b) => rule matches Formula::Binary(o, x, y) && o == op && compiled(
                host,
                tags,
                *a,
                *x,
            ) && compiled(host, tags, *b, *y),
            Formula::Call(f, args) => rule matches Formula::Call(g, list) && g == f && list.len() == args.len()
                && forall|i: int| 0 <= i < args.len() ==> compiled(host, tags, #[trigger] args[i], list[i]),
        },
{
    match term {
        Formula::Num(text) => {
            if let Formula::Num(v) = rule {
                assert(literal_value(host, text, v));
            }
        },
        Formula::Call(f, args) => {
            if let Formula::Call(g, list) = rule {
                lemma_all_compiled(host, tags, args, list);
            }
        },
        _ => {},
    }
}

proof fn lemma_all_compiled<A: Arithmetic>(
    host: A,
    tags: Map<Seq<char>, u64>,
    terms: Seq<Term>,
    rules: Seq<Rule>,
)
    requires
        all_compiled(host, tags, terms, rules),
    ensures
        terms.len() == rules.len(),
        forall|i: int| 0 <= i < terms.len() ==> compiled(host, tags, #[trigger] terms[i], rules[i]),
    decreases terms.len(),
{
    if terms.len() > 0 {
        lemma_all_compiled(host, tags, terms.drop_last(), rules.drop_last());
        assert forall|i: int| 0 <= i < terms.len() implies compiled(host, tags, #[trigger] terms[i], rules[i]) by {
            if i < terms.len() - 1 {
                assert(terms.drop_last()[i] == terms[i]);
                assert(rules.drop_last()[i] == rules[i]);
            }
        }
    }
}

/// A bare stat name, evaluated on an entity, comes to what that stat of the
/// entity comes to without tags; one with a source to that stat of the entity
/// that the source leads to.
pub proof fn law_names_read_their_stat<A: Arithmetic>(
    host: A,
    s: State,
    entity: Entity,
    roles: Map<Seq<char>, Entity>,
    source: Option<Seq<char>>,
    stat: Seq<char>,
    v: Scalar,
)
    requires
        consistent(s.world),
        evaluated(host, s, entity, roles, Formula::Stat(Reference { source, stat, tags: None }), Ok(v)),
    ensures
        source is None ==> stat_value(scene_of(host, s), Seq::empty(), Query { key: (entity, stat), tags: 0 }, v),
        source matches Some(name) ==> (roles.contains_key(name) ==> stat_value(
            scene_of(host, s),
            Seq::empty(),
            Query { key: (roles[name], stat), tags: 0 },
            v,
        )),
        source matches Some(name) ==> (!roles.contains_key(name) && s.world.links.contains_key((entity, name))
            ==> stat_value(
            scene_of(host, s),
            Seq::empty(),
            Query { key: (s.world.links[(entity, name)], stat), tags: 0 },
            v,
        )),
{
    let term = Formula::Stat(Reference { source, stat, tags: None });
    let context = Context { owner: entity, roles, tags: 0 };
    let rule = choose|rule: Rule| #[trigger]
        compiled(host, s.tags.tags, term, rule) && formula_value(scene_of(host, s), Seq::empty(), context, rule, v);
    law_readying_keeps_the_shape(host, s.tags.tags, term, rule);
    if let Formula::Stat(link) = rule {
        law_references_read_their_target(scene_of(host, s), Seq::empty(), context, link, v);
    }
}

/// An expression evaluated on an entity comes to what it comes to once ready,
/// read from that entity, with the given roles and without tags; it is refused
/// exactly if a tag filter names a tag that is not registered.
pub proof fn law_evaluation_reads_from_the_entity<A: Arithmetic>(
    host: A,
    s: State,
    entity: Entity,
    roles: Map<Seq<char>, Entity>,
    term: Term,
    r: Result<Scalar, Fault>,
)
    requires
        evaluated(host, s, entity, roles, term, r),
    ensures
        r matches Ok(v) ==> exists|rule: Rule| #[trigger]
            compiled(host, s.tags.tags, term, rule) && formula_value(
                Scene { host, rules: s.rules, world: s.world },
                Seq::empty(),
                Context { owner: entity, roles, tags: 0 },
                rule,
                v,
            ),
        r is Ok ==> forall|i: int, j: int|
            #![trigger refs(term)[i].tags->0[j]]
            0 <= i < refs(term).len() && refs(term)[i].tags is Some && 0 <= j < refs(term)[i].tags->0.len()
                ==> s.tags.tags.contains_key(refs(term)[i].tags->0[j]),
        r matches Err(fault) ==> exists|i: int, j: int|
            #![trigger refs(term)[i].tags->0[j]]
            0 <= i < refs(term).len() && refs(term)[i].tags is Some && 0 <= j < refs(term)[i].tags->0.len()
                && !s.tags.tags.contains_key(refs(term)[i].tags->0[j]) && fault == Fault::UnknownTag(
                refs(term)[i].tags->0[j],
            ),
{
    lemma_unknown(s.tags.tags, refs(term));
    if let Ok(v) = r {
        let rule = choose|rule: Rule| #[trigger]
            compiled(host, s.tags.tags, term, rule) && formula_value(
                scene_of(host, s),
                Seq::empty(),
                (Context { owner: entity, roles, tags: 0 }),
                rule,
                v,
            );
        assert(compiled(host, s.tags.tags, term, rule));
    }
}

/// The first unknown tag of some references is in one of their filters.
pub proof fn lemma_unknown(tags: Map<Seq<char>, u64>, list: Seq<Reference>)
    ensures
        first_unknown(tags, list) is None ==> forall|i: int, j: int|
            #![trigger list[i].tags->0[j]]
            0 <= i < list.len() && list[i].tags is Some && 0 <= j < list[i].tags->0.len() ==> tags.contains_key(
                list[i].tags->0[j],
            ),
        first_unknown(tags, list) matches Some(name) ==> exists|i: int, j: int|
            #![trigger list[i].tags->0[j]]
            0 <= i < list.len() && list[i].tags is Some && 0 <= j < list[i].tags->0.len() && !tags.contains_key(
                list[i].tags->0[j],
            ) && name == list[i].tags->0[j],
    decreases list.len(),
{
    if list.len() > 0 {
        let rest = list.drop_last();
        let last = list.len() - 1;
        lemma_unknown(tags, rest);
        assert(list[last] == list.last());
        if let Some(filter) = list.last().tags {
            law_filters_are_unions(tags, filter, 0);
        }
        match first_unknown(tags, rest) {
            Some(name) => {
                let (i, j) = choose|i: int, j: int|
                    #![trigger rest[i].tags->0[j]]
                    0 <= i < rest.len() && rest[i].tags is Some && 0 <= j < rest[i].tags->0.len()
                        && !tags.contains_key(rest[i].tags->0[j]) && name == rest[i].tags->0[j];
                assert(rest[i] == list[i]);
                assert(list[i].tags->0[j] == name);
            },
            None => {
                if let Some(filter) = list.last().tags {
                    match resolved(tags, filter) {
                        Err(name) => {
                            let j = choose|j: int|
                                0 <= j < filter.len() && #[trigger] filter[j] == name && !tags.contains_key(name);
                            assert(list[last].tags->0[j] == name);
                        },
                        Ok(_) => {},
                    }
                }
                if first_unknown(tags, list) is None {
                    assert forall|i: int, j: int|
                        #![trigger list[i].tags->0[j]]
                        0 <= i < list.len() && list[i].tags is Some && 0 <= j < list[i].tags->0.len() implies
                        tags.contains_key(list[i].tags->0[j]) by {
                        if i < last {
                            assert(rest[i].tags->0[j] == list[i].tags->0[j]);
                        } else {
                            assert(list.last().tags->0[j] == list[i].tags->0[j]);
                        }
                    }
                }
            },
        }
    }
}

/// A requirement holds exactly if its expression comes to something other than
/// zero.
pub proof fn law_requirements_hold_unless_zero<A: Arithmetic>(
    host: A,
    s: State,
    entity: Entity,
    roles: Map<Seq<char>, Entity>,
    term: Term,
    r: Result<bool, Fault>,
)
    requires
        checked(host, s, entity, roles, term, r),
    ensures
        r matches Ok(holds) ==> exists|v: Scalar| #[trigger]
            evaluated(host, s, entity, roles, term, Ok(v)) && holds == !zero(v),
        r matches Err(fault) ==> evaluated(host, s, entity, roles, term, Err(fault)),
{
    if let Ok(holds) = r {
        let v = choose|v: Scalar| #[trigger]
            evaluated(host, s, entity, roles, term, Ok(v)) && holds == !equals(v, 0);
        assert(equals(v, 0) == zero(v));
    }
}

// -- references -------------------------------------------------------------

proof fn lemma_refs_flatten<N, R>(args: Seq<Formula<N, R>>)
    ensures
        crate::tree::refs_of(args) == args.map_values(|a: Formula<N, R>| refs(a)).flatten(),
    decreases args.len(),
{
    let lists = args.map_values(|a: Formula<N, R>| refs(a));
    if args.len() > 0 {
        let rest = args.drop_last();
        lemma_refs_flatten(rest);
        assert(lists.drop_last() =~= rest.map_values(|a: Formula<N, R>| refs(a)));
        assert(lists =~= lists.drop_last().push(lists.last()));
        lists.lemma_flatten_and_flatten_alt_are_equivalent();
        lists.drop_last().lemma_flatten_and_flatten_alt_are_equivalent();
    } else {
        assert(lists =~= Seq::empty());
    }
}

/// The references of an expression are those of its operands or arguments, one
/// after the other; a number has none.
pub proof fn law_references_come_from_left_to_right<N, R>(f: Formula<N, R>)
    ensures
        match f {
            Formula::Num(_) => refs(f).len() == 0,
            Formula::Stat(r) => refs(f) == seq![r],
            Formula::Unary(_, e) => refs(f) == refs(*e),
            Formula::Binary(_, a, b) => refs(f) == refs(*a) + refs(*b),
            Formula::Call(_, args) => refs(f) == args.map_values(|a: Formula<N, R>| refs(a)).flatten(),
        },
{
    if let Formula::Call(_, args) = f {
        lemma_refs_flatten(args);
    }
}

} // verus!
