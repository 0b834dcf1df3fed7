//! With an arithmetic whose operations have one result each, every read has
//! one value.

use crate::coherence::{
    coherent, fresh, law_apply_keeps_coherence, law_reads_are_fresh, law_relink_keeps_coherence,
    law_remove_keeps_coherence, lemma_still_coherent,
};
use crate::effect::{outcomes, previewed, step_outcome, writable, Outcome, Step};
use crate::entity::Entity;
use crate::eval::{
    asked, binary_value, budget, call_value, contributions, formula_value, formula_values, got, got_all, lemma_budget,
    owned, right_value, stat_value, target_of, unary_value, with_base, Context, Scene,
};
use crate::expr::{all_compiled, compiled, Rule};
use crate::graph::linked;
use crate::laws::{
    law_apply_then_remove, law_last_link_decides, law_link_then_clear, lemma_applied_rules, lemma_removed_rules,
    same_makeup,
};
use crate::modifier::{Amount, Contribution};
use crate::parser::Term;
use crate::scalar::{
    absolute, below, ceil_value, custom_value, equals, floor_value, literal_value, minus_value, modulo_value, nan, over_value, plus_value,
    power_value, round_value, sqrt_value, times_value, truth, Arithmetic, Scalar, EQ_EPSILON, ONE, ZERO,
};
use crate::state::{evaluated, numbered, relinked, scene_of, set_applied, set_removed, State};
use crate::stats::{multiplied, reduced, reduction_of, summed, Reduction, Source, Stored};
use crate::tags::subset;
use crate::transfer::{grounded, lemma_grounded_same};
use crate::tree::{BinaryOp, Formula, UnaryOp};
use crate::world::{consistent, node_in, Key, Query};
use vstd::prelude::*;

verus! {

/// Every operation of the arithmetic has at most one result for given
/// operands.
pub open spec fn exact<A: Arithmetic>(host: A) -> bool {
    &&& forall|t: Seq<char>, r: Scalar, s: Scalar|
        #[trigger] literal_value(host, t, r) && #[trigger] literal_value(host, t, s) ==> r == s
    &&& forall|a: Scalar, b: Scalar, r: Scalar, s: Scalar|
        #[trigger] plus_value(host, a, b, r) && #[trigger] plus_value(host, a, b, s) ==> r == s
    &&& forall|a: Scalar, b: Scalar, r: Scalar, s: Scalar|
        #[trigger] minus_value(host, a, b, r) && #[trigger] minus_value(host, a, b, s) ==> r == s
    &&& forall|a: Scalar, b: Scalar, r: Scalar, s: Scalar|
        #[trigger] times_value(host, a, b, r) && #[trigger] times_value(host, a, b, s) ==> r == s
    &&& forall|a: Scalar, b: Scalar, r: Scalar, s: Scalar|
        #[trigger] over_value(host, a, b, r) && #[trigger] over_value(host, a, b, s) ==> r == s
    &&& forall|a: Scalar, b: Scalar, r: Scalar, s: Scalar|
        #[trigger] modulo_value(host, a, b, r) && #[trigger] modulo_value(host, a, b, s) ==> r == s
    &&& forall|a: Scalar, b: Scalar, r: Scalar, s: Scalar|
        #[trigger] power_value(host, a, b, r) && #[trigger] power_value(host, a, b, s) ==> r == s
    &&& forall|a: Scalar, r: Scalar, s: Scalar|
        #[trigger] floor_value(host, a, r) && #[trigger] floor_value(host, a, s) ==> r == s
    &&& forall|a: Scalar, r: Scalar, s: Scalar|
        #[trigger] ceil_value(host, a, r) && #[trigger] ceil_value(host, a, s) ==> r == s
    &&& forall|a: Scalar, r: Scalar, s: Scalar|
        #[trigger] round_value(host, a, r) && #[trigger] round_value(host, a, s) ==> r == s
    &&& forall|a: Scalar, r: Scalar, s: Scalar|
        #[trigger] sqrt_value(host, a, r) && #[trigger] sqrt_value(host, a, s) ==> r == s
    &&& forall|key: u64, values: Seq<Scalar>, r: Scalar, s: Scalar|
        #[trigger] custom_value(host, key, values, r) && #[trigger] custom_value(host, key, values, s) ==> r == s
}

proof fn lemma_summed<A: Arithmetic>(host: A, values: Seq<Scalar>, r: Scalar, s: Scalar)
    requires
        exact(host),
        summed(host, values, r),
        summed(host, values, s),
    ensures
        r == s,
    decreases values.len(),
{
    if values.len() > 0 {
        let a = choose|a: Scalar|
            #[trigger] plus_value(host, a, values.last(), r) && summed(host, values.drop_last(), a);
        let b = choose|b: Scalar|
            #[trigger] plus_value(host, b, values.last(), s) && summed(host, values.drop_last(), b);
        lemma_summed(host, values.drop_last(), a, b);
    }
}

proof fn lemma_multiplied<A: Arithmetic>(host: A, values: Seq<Scalar>, r: Scalar, s: Scalar)
    requires
        exact(host),
        multiplied(host, values, r),
        multiplied(host, values, s),
    ensures
        r == s,
    decreases values.len(),
{
    if values.len() > 0 {
        let rest = values.drop_last();
        let last = values.last();
        let (a, f) = choose|a: Scalar, f: Scalar|
            plus_value(host, ONE, last, f) && #[trigger] times_value(host, a, f, r) && multiplied(
                host,
                rest,
                a,
            );
        let (b, g) = choose|b: Scalar, g: Scalar|
            plus_value(host, ONE, last, g) && #[trigger] times_value(host, b, g, s) && multiplied(
                host,
                rest,
                b,
            );
        lemma_multiplied(host, rest, a, b);
        assert(f == g);
    }
}

proof fn lemma_reduced<A: Arithmetic>(host: A, reduction: Reduction, values: Seq<Scalar>, r: Scalar, s: Scalar)
    requires
        exact(host),
        reduced(host, reduction, values, r),
        reduced(host, reduction, values, s),
    ensures
        r == s,
{
    match reduction {
        Reduction::Sum => lemma_summed(host, values, r, s),
        Reduction::Product => lemma_multiplied(host, values, r, s),
        Reduction::Custom(_) => {},
    }
}

proof fn lemma_compiled<A: Arithmetic>(host: A, tags: Map<Seq<char>, u64>, term: Term, r: Rule, s: Rule)
    requires
        exact(host),
        compiled(host, tags, term, r),
        compiled(host, tags, term, s),
    ensures
        r == s,
    decreases term,
{
    match term {
        Formula::Num(_) => {},
        Formula::Stat(_) => {},
        Formula::Unary(_, e) => {
            if let Formula::Unary(_, e1) = r {
                if let Formula::Unary(_, e2) = s {
                    lemma_compiled(host, tags, *e, *e1, *e2);
                }
            }
        },
        Formula::Binary(_, a, b) => {
            if let Formula::Binary(_, a1, b1) = r {
                if let Formula::Binary(_, a2, b2) = s {
                    lemma_compiled(host, tags, *a, *a1, *a2);
                    lemma_compiled(host, tags, *b, *b1, *b2);
                }
            }
        },
        Formula::Call(_, args) => {
            if let Formula::Call(_, args1) = r {
                if let Formula::Call(_, args2) = s {
                    lemma_all_compiled(host, tags, args, args1, args2);
                }
            }
        },
    }
}

proof fn lemma_all_compiled<A: Arithmetic>(
    host: A,
    tags: Map<Seq<char>, u64>,
    terms: Seq<Term>,
    r: Seq<Rule>,
    s: Seq<Rule>,
)
    requires
        exact(host),
        all_compiled(host, tags, terms, r),
        all_compiled(host, tags, terms, s),
    ensures
        r == s,
    decreases terms,
{
    if terms.len() > 0 {
        lemma_all_compiled(host, tags, terms.drop_last(), r.drop_last(), s.drop_last());
        lemma_compiled(host, tags, terms.last(), r.last(), s.last());
        assert(r =~= r.drop_last().push(r.last()));
        assert(s =~= s.drop_last().push(s.last()));
    } else {
        assert(r =~= s);
    }
}

proof fn lemma_stat_exact<A: Arithmetic>(sc: Scene<A>, path: Seq<Query>, q: Query, v: Scalar, w: Scalar)
    requires
        exact(sc.host),
        sc.world.nodes.dom().finite(),
        stat_value(sc, path, q, v),
        stat_value(sc, path, q, w),
    ensures
        v == w,
    decreases budget(sc.world, path), 0int, q,
{
    let reduction = reduction_of(sc.rules, q.key.1);
    if !sc.world.nodes.contains_key(q.key) {
        lemma_reduced(sc.host, reduction, Seq::empty(), v, w);
    } else if !sc.world.cache.contains_key(q) && !path.contains(q) {
        lemma_budget(sc.world, path, q);
        let node = sc.world.nodes[q.key];
        let xs = choose|xs: Seq<Scalar>|
            #[trigger] reduced(sc.host, reduction, with_base(node.base, xs), v) && contributions(
                sc,
                path.push(q),
                q,
                node.modifiers,
                xs,
            );
        let ys = choose|ys: Seq<Scalar>|
            #[trigger] reduced(sc.host, reduction, with_base(node.base, ys), w) && contributions(
                sc,
                path.push(q),
                q,
                node.modifiers,
                ys,
            );
        lemma_contributions_exact(sc, path.push(q), q, node.modifiers, xs, ys);
        lemma_reduced(sc.host, reduction, with_base(node.base, xs), v, w);
    }
}

proof fn lemma_contributions_exact<A: Arithmetic>(
    sc: Scene<A>,
    path: Seq<Query>,
    q: Query,
    mods: Seq<Stored>,
    xs: Seq<Scalar>,
    ys: Seq<Scalar>,
)
    requires
        exact(sc.host),
        sc.world.nodes.dom().finite(),
        contributions(sc, path, q, mods, xs),
        contributions(sc, path, q, mods, ys),
    ensures
        xs == ys,
    decreases budget(sc.world, path), 2int, mods,
{
    if mods.len() == 0 {
        assert(xs =~= ys);
    } else if !subset(mods.last().tags, q.tags) {
        lemma_contributions_exact(sc, path, q, mods.drop_last(), xs, ys);
    } else {
        lemma_contributions_exact(sc, path, q, mods.drop_last(), xs.drop_last(), ys.drop_last());
        if let Source::Expr(rule) = mods.last().value {
            lemma_formula_exact(sc, path, owned(q), rule, xs.last(), ys.last());
        }
        assert(xs =~= xs.drop_last().push(xs.last()));
        assert(ys =~= ys.drop_last().push(ys.last()));
    }
}

proof fn lemma_formula_exact<A: Arithmetic>(
    sc: Scene<A>,
    path: Seq<Query>,
    context: Context,
    rule: Rule,
    v: Scalar,
    w: Scalar,
)
    requires
        exact(sc.host),
        sc.world.nodes.dom().finite(),
        formula_value(sc, path, context, rule, v),
        formula_value(sc, path, context, rule, w),
    ensures
        v == w,
    decreases budget(sc.world, path), 1int, rule,
{
    match rule {
        Formula::Num(_) => {},
        Formula::Stat(link) => {
            match target_of(sc.world, context, link.source) {
                None => lemma_reduced(sc.host, reduction_of(sc.rules, link.stat), Seq::empty(), v, w),
                Some(target) => lemma_stat_exact(sc, path, asked(target, link, context.tags), v, w),
            }
        },
        Formula::Unary(op, e) => {
            let x = choose|x: Scalar|
                #[trigger] got(x) && formula_value(sc, path, context, *e, x) && unary_value(op, x, v);
            let y = choose|y: Scalar|
                #[trigger] got(y) && formula_value(sc, path, context, *e, y) && unary_value(op, y, w);
            lemma_formula_exact(sc, path, context, *e, x, y);
        },
        Formula::Binary(op, a, b) => {
            assert forall|x: Scalar, y: Scalar|
                #[trigger] formula_value(sc, path, context, *a, x) && #[trigger] formula_value(
                    sc,
                    path,
                    context,
                    *a,
                    y,
                ) implies x == y by {
                lemma_formula_exact(sc, path, context, *a, x, y);
            }
            assert forall|x: Scalar, y: Scalar|
                #[trigger] formula_value(sc, path, context, *b, x) && #[trigger] formula_value(
                    sc,
                    path,
                    context,
                    *b,
                    y,
                ) implies x == y by {
                lemma_formula_exact(sc, path, context, *b, x, y);
            }
            let x = choose|x: Scalar| #[trigger]
                got(x) && formula_value(sc, path, context, *a, x) && right_value(sc, path, context, op, x, *b, v);
            let y = choose|y: Scalar| #[trigger]
                got(y) && formula_value(sc, path, context, *a, y) && right_value(sc, path, context, op, y, *b, w);
            assert(x == y);
            lemma_right_exact(sc, path, context, op, x, *b, v, w);
        },
        Formula::Call(f, args) => {
            let xs = choose|xs: Seq<Scalar>|
                #[trigger] got_all(xs) && formula_values(sc, path, context, args, xs) && call_value(sc.host, f, xs, v);
            let ys = choose|ys: Seq<Scalar>|
                #[trigger] got_all(ys) && formula_values(sc, path, context, args, ys) && call_value(sc.host, f, ys, w);
            lemma_formulas_exact(sc, path, context, args, xs, ys);
        },
    }
}

proof fn lemma_right_exact<A: Arithmetic>(
    sc: Scene<A>,
    path: Seq<Query>,
    context: Context,
    op: BinaryOp,
    x: Scalar,
    b: Rule,
    v: Scalar,
    w: Scalar,
)
    requires
        exact(sc.host),
        forall|y: Scalar, z: Scalar|
            #[trigger] formula_value(sc, path, context, b, y) && #[trigger] formula_value(sc, path, context, b, z)
                ==> y == z,
        right_value(sc, path, context, op, x, b, v),
        right_value(sc, path, context, op, x, b, w),
    ensures
        v == w,
{
    match op {
        BinaryOp::And => {
            if !equals(x, ZERO) {
                let y = choose|y: Scalar|
                    #[trigger] got(y) && formula_value(sc, path, context, b, y) && v == truth(!equals(y, ZERO));
                let z = choose|z: Scalar|
                    #[trigger] got(z) && formula_value(sc, path, context, b, z) && w == truth(!equals(z, ZERO));
                assert(y == z);
            }
        },
        BinaryOp::Or => {
            if equals(x, ZERO) {
                let y = choose|y: Scalar|
                    #[trigger] got(y) && formula_value(sc, path, context, b, y) && v == truth(!equals(y, ZERO));
                let z = choose|z: Scalar|
                    #[trigger] got(z) && formula_value(sc, path, context, b, z) && w == truth(!equals(z, ZERO));
                assert(y == z);
            }
        },
        _ => {
            let y = choose|y: Scalar|
                #[trigger] got(y) && formula_value(sc, path, context, b, y) && binary_value(sc.host, op, x, y, v);
            let z = choose|z: Scalar|
                #[trigger] got(z) && formula_value(sc, path, context, b, z) && binary_value(sc.host, op, x, z, w);
            assert(y == z);
        },
    }
}

proof fn lemma_formulas_exact<A: Arithmetic>(
    sc: Scene<A>,
    path: Seq<Query>,
    context: Context,
    rules: Seq<Rule>,
    xs: Seq<Scalar>,
    ys: Seq<Scalar>,
)
    requires
        exact(sc.host),
        sc.world.nodes.dom().finite(),
        formula_values(sc, path, context, rules, xs),
        formula_values(sc, path, context, rules, ys),
    ensures
        xs == ys,
    decreases budget(sc.world, path), 1int, rules,
{
    if rules.len() == 0 {
        assert(xs =~= ys);
    } else {
        lemma_formulas_exact(sc, path, context, rules.drop_last(), xs.drop_last(), ys.drop_last());
        lemma_formula_exact(sc, path, context, rules.last(), xs.last(), ys.last());
        assert(xs =~= xs.drop_last().push(xs.last()));
        assert(ys =~= ys.drop_last().push(ys.last()));
    }
}

/// A read has one value.
pub proof fn law_reads_agree<A: Arithmetic>(host: A, s: State, q: Query, v: Scalar, w: Scalar)
    requires
        exact(host),
        consistent(s.world),
        stat_value(scene_of(host, s), Seq::empty(), q, v),
        stat_value(scene_of(host, s), Seq::empty(), q, w),
    ensures
        v == w,
{
    lemma_stat_exact(scene_of(host, s), Seq::empty(), q, v, w);
}

/// A read of a stat that does not depend on a cycle gives, in a coherent
/// state, the value that evaluating from scratch gives: caching is not
/// observable.
pub proof fn law_caching_is_not_observable<A: Arithmetic>(host: A, s: State, q: Query, v: Scalar, w: Scalar)
    requires
        exact(host),
        consistent(s.world),
        grounded(s.world, q.key),
        coherent(scene_of(host, s)),
        stat_value(scene_of(host, s), Seq::empty(), q, v),
        stat_value(fresh(scene_of(host, s)), Seq::empty(), q, w),
    ensures
        v == w,
{
    law_reads_are_fresh(host, s, q, v);
    lemma_stat_exact(fresh(scene_of(host, s)), Seq::empty(), q, v, w);
}

/// In coherent states with the same makeup, a stat that does not depend on a
/// cycle reads the same.
pub proof fn law_same_makeup_same_reads<A: Arithmetic>(
    host: A,
    s: State,
    after: State,
    q: Query,
    v: Scalar,
    w: Scalar,
)
    requires
        exact(host),
        consistent(s.world),
        consistent(after.world),
        after.rules == s.rules,
        same_makeup(after.world, s.world),
        coherent(scene_of(host, s)),
        coherent(scene_of(host, after)),
        grounded(s.world, q.key),
        stat_value(scene_of(host, s), Seq::empty(), q, v),
        stat_value(scene_of(host, after), Seq::empty(), q, w),
    ensures
        v == w,
{
    assert forall|k: Key| #[trigger] node_in(s.world, k).modifiers == node_in(after.world, k).modifiers by {
        assert(node_in(after.world, k) == node_in(s.world, k));
    }
    lemma_grounded_same(s.world, after.world, q.key);
    law_reads_are_fresh(host, s, q, v);
    law_reads_are_fresh(host, after, q, w);
    assert forall|k: Key| #[trigger] node_in(s.world, k) == node_in(after.world, k) by {
        assert(node_in(after.world, k) == node_in(s.world, k));
    }
    lemma_still_coherent(scene_of(host, s), scene_of(host, after), q, v);
    lemma_stat_exact(fresh(scene_of(host, after)), Seq::empty(), q, v, w);
}

/// Applying a set of modifiers and removing it again leaves every stat that
/// does not depend on a cycle reading what it read.
pub proof fn law_reads_survive_apply_and_remove<A: Arithmetic>(
    host: A,
    s: State,
    entity: Entity,
    set: Seq<(Seq<char>, Contribution)>,
    handles: Seq<(Seq<char>, u64)>,
    applied: State,
    after: State,
    q: Query,
    v: Scalar,
    w: Scalar,
)
    requires
        exact(host),
        consistent(s.world),
        consistent(applied.world),
        consistent(after.world),
        s.world.carriers.contains(entity),
        numbered(s.world, s.last_id),
        s.last_id + set.len() <= u64::MAX,
        coherent(scene_of(host, s)),
        set_applied(host, s, entity, set, handles, applied),
        set_removed(host, applied, entity, handles, after),
        grounded(s.world, q.key),
        stat_value(scene_of(host, s), Seq::empty(), q, v),
        stat_value(scene_of(host, after), Seq::empty(), q, w),
    ensures
        v == w,
{
    law_apply_then_remove(host, s, entity, set, handles, applied, after);
    law_apply_keeps_coherence(host, s, entity, set, handles, applied);
    law_remove_keeps_coherence(host, applied, entity, handles, after);
    lemma_applied_rules(host, s, entity, set, handles, applied);
    lemma_removed_rules(host, applied, entity, handles, after);
    law_same_makeup_same_reads(host, s, after, q, v, w);
}

/// Setting a link that was not set and clearing it again leaves every stat
/// that does not depend on a cycle reading what it read.
pub proof fn law_reads_survive_link_and_clear<A: Arithmetic>(
    host: A,
    s: State,
    entity: Entity,
    name: Seq<char>,
    target: Entity,
    set: State,
    after: State,
    q: Query,
    v: Scalar,
    w: Scalar,
)
    requires
        exact(host),
        consistent(s.world),
        consistent(set.world),
        consistent(after.world),
        coherent(scene_of(host, s)),
        linked(s.world, entity, Some(name)) is None,
        relinked(host, s, entity, name, Some(target), set),
        relinked(host, set, entity, name, None, after),
        grounded(s.world, q.key),
        stat_value(scene_of(host, s), Seq::empty(), q, v),
        stat_value(scene_of(host, after), Seq::empty(), q, w),
    ensures
        v == w,
{
    law_link_then_clear(host, s, entity, name, target, set, after);
    law_relink_keeps_coherence(host, s, entity, name, Some(target), set);
    law_relink_keeps_coherence(host, set, entity, name, None, after);
    law_same_makeup_same_reads(host, s, after, q, v, w);
}

/// Pointing a link at one target and then at another leaves every stat that
/// does not depend on a cycle reading what it reads if the link is pointed at
/// the second alone.
pub proof fn law_last_link_decides_reads<A: Arithmetic>(
    host: A,
    s: State,
    entity: Entity,
    name: Seq<char>,
    first: Option<Entity>,
    second: Option<Entity>,
    between: State,
    after: State,
    alone: State,
    q: Query,
    v: Scalar,
    w: Scalar,
)
    requires
        exact(host),
        consistent(s.world),
        consistent(between.world),
        consistent(after.world),
        consistent(alone.world),
        coherent(scene_of(host, s)),
        relinked(host, s, entity, name, first, between),
        relinked(host, between, entity, name, second, after),
        relinked(host, s, entity, name, second, alone),
        grounded(alone.world, q.key),
        stat_value(scene_of(host, alone), Seq::empty(), q, v),
        stat_value(scene_of(host, after), Seq::empty(), q, w),
    ensures
        v == w,
{
    law_last_link_decides(host, s, entity, name, first, second, between, after, alone);
    law_relink_keeps_coherence(host, s, entity, name, first, between);
    law_relink_keeps_coherence(host, between, entity, name, second, after);
    law_relink_keeps_coherence(host, s, entity, name, second, alone);
    law_same_makeup_same_reads(host, alone, after, q, v, w);
}

/// A formula comes to `x`, and to nothing else.
pub open spec fn comes_to<A: Arithmetic>(sc: Scene<A>, path: Seq<Query>, context: Context, rule: Rule, x: Scalar) -> bool {
    &&& formula_value(sc, path, context, rule, x)
    &&& forall|v: Scalar| #[trigger] formula_value(sc, path, context, rule, v) ==> v == x
}

/// A formula comes to one value.
pub proof fn law_formulas_agree<A: Arithmetic>(
    host: A,
    s: State,
    path: Seq<Query>,
    context: Context,
    rule: Rule,
    x: Scalar,
)
    requires
        exact(host),
        consistent(s.world),
        formula_value(scene_of(host, s), path, context, rule, x),
    ensures
        comes_to(scene_of(host, s), path, context, rule, x),
{
    let sc = scene_of(host, s);
    assert forall|v: Scalar| #[trigger] formula_value(sc, path, context, rule, v) implies v == x by {
        lemma_formula_exact(sc, path, context, rule, x, v);
    }
}

/// `v` is what an operator other than `&&` and `||` makes of what its sides
/// come to.
proof fn lemma_sides<A: Arithmetic>(
    sc: Scene<A>,
    path: Seq<Query>,
    context: Context,
    op: BinaryOp,
    a: Rule,
    b: Rule,
    x: Scalar,
    y: Scalar,
    v: Scalar,
)
    requires
        sc.world.nodes.dom().finite(),
        op != BinaryOp::And && op != BinaryOp::Or,
        comes_to(sc, path, context, a, x),
        comes_to(sc, path, context, b, y),
        between(sc, path, context, op, a, b, v),
    ensures
        binary_value(sc.host, op, x, y, v),
{
    let x1 = choose|x1: Scalar| #[trigger]
        got(x1) && formula_value(sc, path, context, a, x1) && right_value(sc, path, context, op, x1, b, v);
    assert(x1 == x);
    assert(right_value(sc, path, context, op, x, b, v));
    let y1 = choose|y1: Scalar|
        #[trigger] got(y1) && formula_value(sc, path, context, b, y1) && binary_value(sc.host, op, x, y1, v);
    assert(y1 == y);
}

/// `v` is what an infix operator between two formulas comes to.
pub open spec fn between<A: Arithmetic>(
    sc: Scene<A>,
    path: Seq<Query>,
    context: Context,
    op: BinaryOp,
    a: Rule,
    b: Rule,
    v: Scalar,
) -> bool {
    formula_value(sc, path, context, Formula::Binary(op, Box::new(a), Box::new(b)), v)
}

/// Where the sides come to one value each, and their difference is one value,
/// `==` holds exactly where they differ by less than a millionth. Where the
/// difference is a number, `!=` holds exactly where `==` does not.
pub proof fn law_equality_is_complementary<A: Arithmetic>(
    sc: Scene<A>,
    path: Seq<Query>,
    context: Context,
    a: Rule,
    b: Rule,
    x: Scalar,
    y: Scalar,
    difference: Scalar,
    same: Scalar,
    other: Scalar,
)
    requires
        consistent(sc.world),
        comes_to(sc, path, context, a, x),
        comes_to(sc, path, context, b, y),
        forall|d: Scalar| #[trigger] minus_value(sc.host, x, y, d) ==> d == difference,
        between(sc, path, context, BinaryOp::Eq, a, b, same),
        between(sc, path, context, BinaryOp::Ne, a, b, other),
    ensures
        same == truth(below(absolute(difference), EQ_EPSILON)),
        !nan(difference) ==> other == truth(!below(absolute(difference), EQ_EPSILON)),
{
    lemma_sides(sc, path, context, BinaryOp::Eq, a, b, x, y, same);
    lemma_sides(sc, path, context, BinaryOp::Ne, a, b, x, y, other);
}

/// Where the sides come to one number each, `<` holds exactly where `>=` does
/// not, and `>` exactly where `<=` does not.
pub proof fn law_order_is_complementary<A: Arithmetic>(
    sc: Scene<A>,
    path: Seq<Query>,
    context: Context,
    a: Rule,
    b: Rule,
    x: Scalar,
    y: Scalar,
    less: Scalar,
    at_least: Scalar,
    more: Scalar,
    at_most: Scalar,
)
    requires
        consistent(sc.world),
        comes_to(sc, path, context, a, x),
        comes_to(sc, path, context, b, y),
        !nan(x),
        !nan(y),
        between(sc, path, context, BinaryOp::Lt, a, b, less),
        between(sc, path, context, BinaryOp::Ge, a, b, at_least),
        between(sc, path, context, BinaryOp::Gt, a, b, more),
        between(sc, path, context, BinaryOp::Le, a, b, at_most),
    ensures
        less == truth(below(x, y)),
        at_least == truth(!below(x, y)),
        more == truth(below(y, x)),
        at_most == truth(!below(y, x)),
{
    lemma_sides(sc, path, context, BinaryOp::Lt, a, b, x, y, less);
    lemma_sides(sc, path, context, BinaryOp::Ge, a, b, x, y, at_least);
    lemma_sides(sc, path, context, BinaryOp::Gt, a, b, x, y, more);
    lemma_sides(sc, path, context, BinaryOp::Le, a, b, x, y, at_most);
}

/// `!e`.
pub open spec fn not(e: Rule) -> Rule {
    Formula::Unary(UnaryOp::Not, Box::new(e))
}

/// `v` is what a prefix operator makes of what its operand comes to.
proof fn lemma_operand<A: Arithmetic>(
    sc: Scene<A>,
    path: Seq<Query>,
    context: Context,
    e: Rule,
    v: Scalar,
) -> (x: Scalar)
    requires
        sc.world.nodes.dom().finite(),
        formula_value(sc, path, context, not(e), v),
    ensures
        formula_value(sc, path, context, e, x),
        v == truth(equals(x, ZERO)),
{
    choose|x: Scalar|
        #[trigger] got(x) && formula_value(sc, path, context, e, x) && unary_value(UnaryOp::Not, x, v)
}

/// Where `a` and `b` come to one value each, `!(a || b)` comes to what
/// `!a && !b` comes to.
pub proof fn law_neither_is_not_one_and_not_the_other<A: Arithmetic>(
    sc: Scene<A>,
    path: Seq<Query>,
    context: Context,
    a: Rule,
    b: Rule,
    x: Scalar,
    y: Scalar,
    v: Scalar,
    w: Scalar,
)
    requires
        consistent(sc.world),
        comes_to(sc, path, context, a, x),
        comes_to(sc, path, context, b, y),
        formula_value(sc, path, context, not(Formula::Binary(BinaryOp::Or, Box::new(a), Box::new(b))), v),
        between(sc, path, context, BinaryOp::And, not(a), not(b), w),
    ensures
        v == w,
{
    let either = Formula::Binary(BinaryOp::Or, Box::new(a), Box::new(b));
    let o = lemma_operand(sc, path, context, either, v);
    let x1 = choose|x1: Scalar| #[trigger]
        got(x1) && formula_value(sc, path, context, a, x1) && right_value(sc, path, context, BinaryOp::Or, x1, b, o);
    let n = choose|n: Scalar| #[trigger]
        got(n) && formula_value(sc, path, context, not(a), n) && right_value(
            sc,
            path,
            context,
            BinaryOp::And,
            n,
            not(b),
            w,
        );
    let x2 = lemma_operand(sc, path, context, a, n);
    assert(x1 == x && x2 == x);
    if equals(x, ZERO) {
        let y1 = choose|y1: Scalar|
            #[trigger] got(y1) && formula_value(sc, path, context, b, y1) && o == truth(!equals(y1, ZERO));
        let m = choose|m: Scalar|
            #[trigger] got(m) && formula_value(sc, path, context, not(b), m) && w == truth(!equals(m, ZERO));
        let y2 = lemma_operand(sc, path, context, b, m);
        assert(y1 == y && y2 == y);
    }
}

/// An expression comes to one value.
pub proof fn law_evaluations_agree<A: Arithmetic>(
    host: A,
    s: State,
    entity: Entity,
    roles: Map<Seq<char>, Entity>,
    term: Term,
    v: Scalar,
    w: Scalar,
)
    requires
        exact(host),
        consistent(s.world),
        evaluated(host, s, entity, roles, term, Ok(v)),
        evaluated(host, s, entity, roles, term, Ok(w)),
    ensures
        v == w,
{
    let context = Context { owner: entity, roles, tags: 0 };
    let sc = scene_of(host, s);
    let r1 = choose|rule: Rule| #[trigger]
        compiled(host, s.tags.tags, term, rule) && formula_value(sc, Seq::empty(), context, rule, v);
    let r2 = choose|rule: Rule| #[trigger]
        compiled(host, s.tags.tags, term, rule) && formula_value(sc, Seq::empty(), context, rule, w);
    lemma_compiled(host, s.tags.tags, term, r1, r2);
    lemma_formula_exact(sc, Seq::empty(), context, r1, v, w);
}

proof fn lemma_outcomes_exact<A: Arithmetic>(
    host: A,
    s: State,
    roles: Map<Seq<char>, Entity>,
    steps: Seq<Step>,
    a: Seq<Outcome>,
    b: Seq<Outcome>,
    n: int,
)
    requires
        exact(host),
        consistent(s.world),
        outcomes(host, s, roles, steps, a),
        outcomes(host, s, roles, steps, b),
        0 <= n <= steps.len(),
    ensures
        a.take(n) == b.take(n),
    decreases n,
{
    if n > 0 {
        lemma_outcomes_exact(host, s, roles, steps, a, b, n - 1);
        let i = n - 1;
        assert(step_outcome(host, s, roles, steps[i], a.take(i), a[i]));
        assert(step_outcome(host, s, roles, steps[i], b.take(i), b[i]));
        if let Amount::Expression(_, term) = steps[i].value {
            law_evaluations_agree(host, s, a[i].key.0, roles, term, a[i].amount, b[i].amount);
        }
        assert(a[i] == b[i]);
        assert(a.take(n) =~= a.take(i).push(a[i]));
        assert(b.take(n) =~= b.take(i).push(b[i]));
    } else {
        assert(a.take(0) =~= b.take(0));
    }
}

/// A preview of an effect gives exactly the outcomes that applying it in the
/// same state gives.
pub proof fn law_previews_agree<A: Arithmetic>(
    host: A,
    s: State,
    roles: Map<Seq<char>, Entity>,
    steps: Seq<Step>,
    preview: Seq<Outcome>,
    applied: Seq<Outcome>,
)
    requires
        exact(host),
        consistent(s.world),
        previewed(host, s, roles, steps, preview),
        previewed(host, s, roles, steps, applied),
    ensures
        preview == applied,
{
    let a = choose|all: Seq<Outcome>| #[trigger]
        outcomes(host, s, roles, steps, all) && preview == writable(s.world, all);
    let b = choose|all: Seq<Outcome>| #[trigger]
        outcomes(host, s, roles, steps, all) && applied == writable(s.world, all);
    lemma_outcomes_exact(host, s, roles, steps, a, b, steps.len() as int);
    assert(a.take(steps.len() as int) =~= a);
    assert(b.take(steps.len() as int) =~= b);
}

} // verus!
