//! Evaluation of stats and expressions.
//!
//! Well-defined edge cases:
//! - division (or `%`) by a divisor smaller than `1e-9` evaluates to `0`
//! - powers and square roots that are not finite evaluate to `0`
//! - missing stats read as their reduction identity
//! - comparisons and logical operators evaluate to `1.0` or `0.0`; any
//!   non-zero value is truthy; `&&` and `||` short-circuit
//! - `==` and `!=` compare with tolerance `1e-6`
//! - a stat that is asked for while it is being evaluated reads as `0`

use crate::entity::Entity;
use crate::expr::{CExpr, Link, Rule};
use crate::scalar::{
    abs, absolute, at_most, below, bool_val, ceil_value, clamp, clamped, equals, finite, floor_value, greater,
    is_at_most, is_below, is_equal, is_finite, lesser, max, min, minus_value, modulo_value, negate, negated, over_value,
    plus_value, power_value, round_value, sqrt_value, times_value, truth, Arithmetic, Scalar, DIV_EPSILON, EQ_EPSILON,
    INFINITY, NEG_INFINITY, ONE, ZERO,
};
use crate::stats::{reduced, reduction_of, stored_list, Rules, Source, StatConfig, Stored, StoredValue};
use crate::table::{Index, NameIndex};
use crate::tags::{subset, TagSet};
use crate::tree::{formulas, BinaryOp, Formula, Func, Tree, UnaryOp};
use crate::world::{Key, Query, Store, World};
use vstd::prelude::*;

verus! {

/// What evaluation goes by: the arithmetic, the reductions, and the stats.
pub struct Scene<A> {
    pub host: A,
    pub rules: Rules,
    pub world: World,
}

/// Where a formula is evaluated: the entity that bare references and links
/// are read from, role bindings that go before links, and the tags of the
/// enclosing query.
pub struct Context {
    pub owner: Entity,
    pub roles: Map<Seq<char>, Entity>,
    pub tags: u64,
}

/// The entity that a reference reads from. A link that is not set leads
/// nowhere.
pub open spec fn target_of(world: World, context: Context, source: Option<Seq<char>>) -> Option<Entity> {
    match source {
        None => Some(context.owner),
        Some(name) => if context.roles.contains_key(name) {
            Some(context.roles[name])
        } else if world.links.contains_key((context.owner, name)) {
            Some(world.links[(context.owner, name)])
        } else {
            None
        },
    }
}

/// The queries that evaluation can pass through.
pub open spec fn queries(world: World) -> Set<Query> {
    Set::new(|q: Query| world.nodes.contains_key(q.key))
}

/// How many queries are not on the path.
pub open spec fn budget(world: World, path: Seq<Query>) -> nat {
    queries(world).difference(path.to_set()).len()
}

proof fn lemma_finite_queries(keys: Set<Key>)
    requires
        keys.finite(),
    ensures
        Set::new(|q: Query| keys.contains(q.key)).finite(),
    decreases keys.len(),
{
    let all = Set::new(|q: Query| keys.contains(q.key));
    if keys.len() == 0 {
        assert(all =~= Set::empty());
    } else {
        let k = keys.choose();
        let rest = keys.remove(k);
        lemma_finite_queries(rest);
        let before = Set::new(|q: Query| rest.contains(q.key));
        <u64 as vstd::set_lib::FiniteFull>::full_properties();
        let tags = Set::<u64>::full();
        tags.lemma_map_finite(|t: u64| Query { key: k, tags: t });
        let mine = tags.map(|t: u64| Query { key: k, tags: t });
        assert forall|q: Query| all.contains(q) implies before.union(mine).contains(q) by {
            if q.key == k {
                assert(tags.contains(q.tags));
                assert(mine.contains(q));
            }
        }
        vstd::set_lib::lemma_set_subset_finite(before.union(mine), all);
    }
}

/// Each query that is put on the path lessens the budget.
pub proof fn lemma_budget(world: World, path: Seq<Query>, q: Query)
    requires
        world.nodes.dom().finite(),
        world.nodes.contains_key(q.key),
        !path.contains(q),
    ensures
        budget(world, path.push(q)) < budget(world, path),
{
    lemma_finite_queries(world.nodes.dom());
    assert(queries(world) =~= Set::new(|q: Query| world.nodes.dom().contains(q.key)));
    let left = queries(world).difference(path.to_set());
    assert(left.contains(q));
    assert(queries(world).difference(path.push(q).to_set()) =~= left.remove(q)) by {
        assert forall|x: Query| path.push(q).contains(x) <==> path.contains(x) || x == q by {
            if path.contains(x) {
                let i = choose|i: int| 0 <= i < path.len() && path[i] == x;
                assert(path.push(q)[i] == x);
            }
            if x == q {
                assert(path.push(q)[path.len() as int] == q);
            }
        }
    }
}

/// Names a value that evaluation comes by.
pub open spec fn got(v: Scalar) -> bool {
    true
}

/// Names a list of values that evaluation comes by.
pub open spec fn got_all(vals: Seq<Scalar>) -> bool {
    true
}

/// `v` is what an infix operator other than `&&` and `||` makes of `x` and
/// `y`.
pub open spec fn binary_value<A: Arithmetic>(host: A, op: BinaryOp, x: Scalar, y: Scalar, v: Scalar) -> bool {
    match op {
        BinaryOp::Add => plus_value(host, x, y, v),
        BinaryOp::Sub => minus_value(host, x, y, v),
        BinaryOp::Mul => times_value(host, x, y, v),
        BinaryOp::Div => if below(absolute(y), DIV_EPSILON) {
            v == ZERO
        } else {
            over_value(host, x, y, v)
        },
        BinaryOp::Rem => if below(absolute(y), DIV_EPSILON) {
            v == ZERO
        } else {
            modulo_value(host, x, y, v)
        },
        BinaryOp::Pow => exists|r: Scalar|
            #[trigger] power_value(host, x, y, r) && v == (if finite(r) {
                r
            } else {
                ZERO
            }),
        BinaryOp::Lt => v == truth(below(x, y)),
        BinaryOp::Le => v == truth(at_most(x, y)),
        BinaryOp::Gt => v == truth(below(y, x)),
        BinaryOp::Ge => v == truth(at_most(y, x)),
        BinaryOp::Eq => exists|d: Scalar|
            #[trigger] minus_value(host, x, y, d) && v == truth(below(absolute(d), EQ_EPSILON)),
        BinaryOp::Ne => exists|d: Scalar|
            #[trigger] minus_value(host, x, y, d) && v == truth(at_most(EQ_EPSILON, absolute(d))),
        BinaryOp::And | BinaryOp::Or => false,
    }
}

/// `v` is what a prefix operator makes of `x`.
pub open spec fn unary_value(op: UnaryOp, x: Scalar, v: Scalar) -> bool {
    match op {
        UnaryOp::Neg => v == negated(x),
        UnaryOp::Not => v == truth(equals(x, ZERO)),
    }
}

/// The smallest of the values; infinity if there are none.
pub open spec fn smallest(vals: Seq<Scalar>) -> Scalar
    decreases vals.len(),
{
    if vals.len() == 0 {
        INFINITY
    } else {
        lesser(smallest(vals.drop_last()), vals.last())
    }
}

/// The largest of the values; negative infinity if there are none.
pub open spec fn largest(vals: Seq<Scalar>) -> Scalar
    decreases vals.len(),
{
    if vals.len() == 0 {
        NEG_INFINITY
    } else {
        greater(largest(vals.drop_last()), vals.last())
    }
}

/// The value at a place; zero beyond the end.
pub open spec fn argument(vals: Seq<Scalar>, i: int) -> Scalar {
    if 0 <= i < vals.len() {
        vals[i]
    } else {
        ZERO
    }
}

/// `v` is what a function makes of its arguments.
pub open spec fn call_value<A: Arithmetic>(host: A, f: Func, vals: Seq<Scalar>, v: Scalar) -> bool {
    match f {
        Func::Min => v == smallest(vals),
        Func::Max => v == largest(vals),
        Func::Abs => v == absolute(argument(vals, 0)),
        Func::Clamp => v == clamped(argument(vals, 0), argument(vals, 1), argument(vals, 2)),
        Func::Floor => floor_value(host, argument(vals, 0), v),
        Func::Ceil => ceil_value(host, argument(vals, 0), v),
        Func::Round => round_value(host, argument(vals, 0), v),
        Func::Sqrt => exists|r: Scalar|
            #[trigger] sqrt_value(host, argument(vals, 0), r) && v == (if finite(r) {
                r
            } else {
                ZERO
            }),
    }
}

/// The values that a stat reduces: its base value first, if it has one.
pub open spec fn with_base(base: Option<Scalar>, vals: Seq<Scalar>) -> Seq<Scalar> {
    match base {
        Some(b) => seq![b] + vals,
        None => vals,
    }
}

/// `v` is what a query comes to, while the queries on `path` are being
/// evaluated: the identity of the reduction for a stat that does not exist,
/// the cached value if there is one, zero for a query that is on the path
/// already, else the reduction of the base value and of what the modifiers
/// contribute whose tags are all among those asked for.
pub open spec fn stat_value<A: Arithmetic>(sc: Scene<A>, path: Seq<Query>, q: Query, v: Scalar) -> bool
    decreases budget(sc.world, path), 0int, q,
    when sc.world.nodes.dom().finite()
{
    if !sc.world.nodes.contains_key(q.key) {
        reduced(sc.host, reduction_of(sc.rules, q.key.1), Seq::empty(), v)
    } else if sc.world.cache.contains_key(q) {
        v == sc.world.cache[q]
    } else if path.contains(q) {
        v == ZERO
    } else {
        proof {
            lemma_budget(sc.world, path, q);
        }
        let node = sc.world.nodes[q.key];
        exists|vals: Seq<Scalar>|
            #[trigger] reduced(sc.host, reduction_of(sc.rules, q.key.1), with_base(node.base, vals), v)
                && contributions(sc, path.push(q), q, node.modifiers, vals)
    }
}

/// `vals` are the contributions of those modifiers that take part in a
/// query.
pub open spec fn contributions<A: Arithmetic>(
    sc: Scene<A>,
    path: Seq<Query>,
    q: Query,
    mods: Seq<Stored>,
    vals: Seq<Scalar>,
) -> bool
    decreases budget(sc.world, path), 2int, mods,
    when sc.world.nodes.dom().finite()
{
    if mods.len() == 0 {
        vals.len() == 0
    } else if !subset(mods.last().tags, q.tags) {
        contributions(sc, path, q, mods.drop_last(), vals)
    } else {
        &&& vals.len() > 0
        &&& contributions(sc, path, q, mods.drop_last(), vals.drop_last())
        &&& match mods.last().value {
            Source::Literal(v) => vals.last() == v,
            Source::Expr(rule) => formula_value(sc, path, owned(q), rule, vals.last()),
        }
    }
}

/// The context of the modifiers of a stat.
pub open spec fn owned(q: Query) -> Context {
    Context { owner: q.key.0, roles: Map::empty(), tags: q.tags }
}

/// The query that a reference makes of an entity.
pub open spec fn asked(target: Entity, link: Link, tags: u64) -> Query {
    Query {
        key: (target, link.stat),
        tags: match link.tags {
            Some(t) => t,
            None => tags,
        },
    }
}

/// `v` is what a formula comes to.
pub open spec fn formula_value<A: Arithmetic>(
    sc: Scene<A>,
    path: Seq<Query>,
    context: Context,
    rule: Rule,
    v: Scalar,
) -> bool
    decreases budget(sc.world, path), 1int, rule,
    when sc.world.nodes.dom().finite()
{
    match rule {
        Formula::Num(n) => v == n,
        Formula::Stat(link) => match target_of(sc.world, context, link.source) {
            None => reduced(sc.host, reduction_of(sc.rules, link.stat), Seq::empty(), v),
            Some(target) => stat_value(sc, path, asked(target, link, context.tags), v),
        },
        Formula::Unary(op, e) => exists|x: Scalar|
            #[trigger] got(x) && formula_value(sc, path, context, *e, x) && unary_value(op, x, v),
        Formula::Binary(op, a, b) => exists|x: Scalar| #[trigger]
            got(x) && formula_value(sc, path, context, *a, x) && match op {
                BinaryOp::And => if equals(x, ZERO) {
                    v == ZERO
                } else {
                    exists|y: Scalar|
                        #[trigger] got(y) && formula_value(sc, path, context, *b, y) && v == truth(!equals(y, ZERO))
                },
                BinaryOp::Or => if !equals(x, ZERO) {
                    v == ONE
                } else {
                    exists|y: Scalar|
                        #[trigger] got(y) && formula_value(sc, path, context, *b, y) && v == truth(!equals(y, ZERO))
                },
                _ => exists|y: Scalar|
                    #[trigger] got(y) && formula_value(sc, path, context, *b, y) && binary_value(sc.host, op, x, y, v),
            },
        Formula::Call(f, args) => exists|vals: Seq<Scalar>|
            #[trigger] got_all(vals) && formula_values(sc, path, context, args, vals) && call_value(
                sc.host,
                f,
                vals,
                v,
            ),
    }
}

/// `v` is what an infix operator makes of `x` and the formula on its right.
pub open spec fn right_value<A: Arithmetic>(
    sc: Scene<A>,
    path: Seq<Query>,
    context: Context,
    op: BinaryOp,
    x: Scalar,
    b: Rule,
    v: Scalar,
) -> bool {
    match op {
        BinaryOp::And => if equals(x, ZERO) {
            v == ZERO
        } else {
            exists|y: Scalar|
                #[trigger] got(y) && formula_value(sc, path, context, b, y) && v == truth(
                    !equals(y, ZERO),
                )
        },
        BinaryOp::Or => if !equals(x, ZERO) {
            v == ONE
        } else {
            exists|y: Scalar|
                #[trigger] got(y) && formula_value(sc, path, context, b, y) && v == truth(
                    !equals(y, ZERO),
                )
        },
        _ => exists|y: Scalar|
            #[trigger] got(y) && formula_value(sc, path, context, b, y) && binary_value(
                sc.host,
                op,
                x,
                y,
                v,
            ),
    }
}

/// `vals` are what the formulas come to.
pub open spec fn formula_values<A: Arithmetic>(
    sc: Scene<A>,
    path: Seq<Query>,
    context: Context,
    rules: Seq<Rule>,
    vals: Seq<Scalar>,
) -> bool
    decreases budget(sc.world, path), 1int, rules,
    when sc.world.nodes.dom().finite()
{
    if rules.len() == 0 {
        vals.len() == 0
    } else {
        &&& vals.len() > 0
        &&& formula_values(sc, path, context, rules.drop_last(), vals.drop_last())
        &&& formula_value(sc, path, context, rules.last(), vals.last())
    }
}

/// The queries of a stack of frames.
pub open spec fn trail(path: Seq<(Entity, String, TagSet)>) -> Seq<Query> {
    path.map_values(|f: (Entity, String, TagSet)| Query { key: (f.0, f.1@), tags: f.2@ })
}

/// The role bindings in force.
pub open spec fn bindings(roles: Option<&NameIndex>) -> Map<Seq<char>, Entity> {
    match roles {
        Some(index) => index.slots(),
        None => Map::empty(),
    }
}

/// Everything evaluation needs.
pub struct Evaluator<'a, A: Arithmetic> {
    pub host: &'a A,
    pub config: &'a StatConfig,
    pub store: &'a Store,
}

impl<'a, A: Arithmetic> Evaluator<'a, A> {
    /// The lookup tables are in order.
    pub open spec fn wf(&self) -> bool {
        self.config.wf() && self.store.wf()
    }

    /// What the evaluator goes by.
    pub open spec fn scene(&self) -> Scene<A> {
        Scene { host: *self.host, rules: self.config@, world: self.store@ }
    }

    /// What a stat without modifiers comes to.
    pub fn missing(&self, stat: &String) -> (v: Scalar)
        requires
            self.wf(),
        ensures
            reduced(*self.host, reduction_of(self.config@, stat@), Seq::empty(), v),
    {
        let none: Vec<Scalar> = Vec::new();
        assert(none@ =~= Seq::empty());
        self.config.reduction_for(stat.as_str()).reduce(self.host, &none)
    }

    /// The entity that a reference reads from.
    fn target(&self, owner: Entity, roles: Option<&NameIndex>, source: &Option<String>) -> (target: Option<Entity>)
        requires
            self.wf(),
        ensures
            forall|tags: u64|
                target == #[trigger] target_of(
                    self.store@,
                    Context { owner, roles: bindings(roles), tags },
                    crate::parser::maybe_name(*source),
                ),
    {
        match source {
            None => Some(owner),
            Some(name) => {
                if let Some(index) = roles {
                    if let Some(e) = index.find(name) {
                        return Some(e);
                    }
                }
                proof {
                    self.store.lemma_consistent();
                }
                match self.store.stats(owner) {
                    Some(stats) => stats.link(name.as_str()),
                    None => None,
                }
            },
        }
    }

    /// Evaluates one stat on one entity under a tag query, using caches where
    /// they exist. `path` holds the queries that are being evaluated.
    pub fn eval_stat(
        &self,
        path: &mut Vec<(Entity, String, TagSet)>,
        entity: Entity,
        stat: &String,
        tags: TagSet,
    ) -> (v: Scalar)
        requires
            self.wf(),
        ensures
            trail(final(path)@) == trail(old(path)@),
            stat_value(self.scene(), trail(old(path)@), Query { key: (entity, stat@), tags: tags@ }, v),
        decreases budget(self.store@, trail(old(path)@)), 0int, stat,
    {
        proof {
            self.store.lemma_consistent();
        }
        let ghost q = Query { key: (entity, stat@), tags: tags@ };
        let ghost before = trail(path@);
        let node = match self.store.node(entity, stat) {
            Some(node) => node,
            None => {
                return self.missing(stat);
            },
        };
        if let Some(v) = node.cache.get(&tags.bits()) {
            assert(self.store@.cache.contains_key(Query { key: (entity, stat@), tags: tags@ }));
            return *v;
        }
        assert(!self.store@.cache.contains_key(Query { key: (entity, stat@), tags: tags@ }));
        let mut i: usize = 0;
        while i < path.len()
            invariant
                i <= path@.len(),
                trail(path@) == before,
                before == trail(old(path)@),
                forall|k: int| 0 <= k < i ==> before[k] != q,
                q == (Query { key: (entity, stat@), tags: tags@ }),
                self.store@.nodes.dom().finite(),
                self.store@.nodes.contains_key(q.key),
                !self.store@.cache.contains_key(q),
            decreases path@.len() - i,
        {
            let frame = &path[i];
            assert(trail(path@)[i as int] == (Query { key: (frame.0, frame.1@), tags: frame.2@ }));
            if frame.0 == entity && frame.2.bits() == tags.bits() && frame.1 == *stat {
                assert(before.contains(q)) by {
                    assert(before[i as int] == q);
                }
                self.host.cycle(stat.as_str());
                return ZERO;
            }
            i = i + 1;
        }
        assert(!before.contains(q));
        path.push((entity, stat.clone(), tags));
        let ghost inner = before.push(q);
        proof {
            assert(trail(path@) =~= inner);
            lemma_budget(self.store@, before, q);
        }
        let mut values: Vec<Scalar> = Vec::new();
        if let Some(base) = node.base {
            values.push(base);
        }
        let ghost base = node.base;
        let ghost mods = stored_list(node.modifiers@);
        let ghost mut vals: Seq<Scalar> = Seq::empty();
        assert(values@ =~= with_base(base, vals));
        let mut i: usize = 0;
        assert(mods.take(0) =~= Seq::empty());
        while i < node.modifiers.len()
            invariant
                i <= node.modifiers@.len(),
                mods == stored_list(node.modifiers@),
                self.wf(),
                self.store@.nodes.dom().finite(),
                trail(path@) == inner,
                budget(self.store@, inner) < budget(self.store@, trail(old(path)@)),
                values@ == with_base(base, vals),
                contributions(self.scene(), inner, q, mods.take(i as int), vals),
                q == (Query { key: (entity, stat@), tags: tags@ }),
            decreases node.modifiers@.len() - i,
        {
            let modifier = &node.modifiers[i];
            let ghost more = mods.take(i + 1);
            assert(more.drop_last() =~= mods.take(i as int));
            assert(more.last() == modifier@);
            if modifier.tags.applies_to(tags) {
                let v = match &modifier.value {
                    StoredValue::Literal(v) => *v,
                    StoredValue::Expr(expr) => self.eval(path, entity, None, tags, expr),
                };
                values.push(v);
                proof {
                    let longer = vals.push(v);
                    assert(longer.drop_last() =~= vals);
                    assert(values@ =~= with_base(base, longer));
                    vals = longer;
                }
            }
            i = i + 1;
        }
        assert(mods.take(i as int) =~= mods);
        let v = self.config.reduction_for(stat.as_str()).reduce(self.host, &values);
        assert(reduced(*self.host, reduction_of(self.config@, stat@), with_base(base, vals), v));
        let ghost full = path@;
        path.pop();
        assert(trail(path@) =~= trail(full).drop_last());
        assert(inner.drop_last() =~= before);
        assert(reduced(self.scene().host, reduction_of(self.scene().rules, q.key.1), with_base(node.body().base, vals), v));
        v
    }

    /// Evaluates an expression, applying the documented edge-case rules.
    pub fn eval(
        &self,
        path: &mut Vec<(Entity, String, TagSet)>,
        owner: Entity,
        roles: Option<&NameIndex>,
        tags: TagSet,
        expr: &CExpr,
    ) -> (v: Scalar)
        requires
            self.wf(),
        ensures
            trail(final(path)@) == trail(old(path)@),
            formula_value(
                self.scene(),
                trail(old(path)@),
                (Context { owner, roles: bindings(roles), tags: tags@ }),
                expr@,
                v,
            ),
        decreases budget(self.store@, trail(old(path)@)), 1int, expr,
    {
        proof {
            self.store.lemma_consistent();
        }
        let ghost context = Context { owner, roles: bindings(roles), tags: tags@ };
        match expr {
            Tree::Num(n) => *n,
            Tree::Stat(r) => match self.target(owner, roles, &r.source) {
                Some(target) => {
                    let asked_tags = match r.tags {
                        Some(own) => own,
                        None => tags,
                    };
                    assert(target_of(self.store@, context, r@.source) == Some(target));
                    self.eval_stat(path, target, &r.stat, asked_tags)
                },
                None => {
                    assert(target_of(self.store@, context, r@.source) is None);
                    self.missing(&r.stat)
                },
            },
            Tree::Unary(op, e) => {
                let x = self.eval(path, owner, roles, tags, e);
                assert(got(x));
                match op {
                    UnaryOp::Neg => negate(x),
                    UnaryOp::Not => bool_val(is_equal(x, ZERO)),
                }
            },
            Tree::Binary(op, a, b) => {
                let x = self.eval(path, owner, roles, tags, a);
                assert(got(x));
                match op {
                    BinaryOp::And => {
                        if is_equal(x, ZERO) {
                            return ZERO;
                        }
                        let y = self.eval(path, owner, roles, tags, b);
                        assert(got(y));
                        bool_val(!is_equal(y, ZERO))
                    },
                    BinaryOp::Or => {
                        if !is_equal(x, ZERO) {
                            return ONE;
                        }
                        let y = self.eval(path, owner, roles, tags, b);
                        assert(got(y));
                        bool_val(!is_equal(y, ZERO))
                    },
                    _ => {
                        let y = self.eval(path, owner, roles, tags, b);
                        assert(got(y));
                        self.combine(*op, x, y)
                    },
                }
            },
            Tree::Call(f, args) => {
                let mut vals: Vec<Scalar> = Vec::new();
                let mut i: usize = 0;
                assert(formulas(args@.take(0)) =~= Seq::empty());
                while i < args.len()
                    invariant
                        i <= args@.len(),
                        self.wf(),
                        self.store@.nodes.dom().finite(),
                        trail(path@) == trail(old(path)@),
                        context == (Context { owner, roles: bindings(roles), tags: tags@ }),
                        formula_values(self.scene(), trail(path@), context, formulas(args@.take(i as int)), vals@),
                        decreases_to!(expr => args),
                    decreases args@.len() - i,
                {
                    let ghost now = args@.take(i as int);
                    let ghost next = args@.take(i + 1);
                    proof {
                        assert(next.drop_last() =~= now);
                        assert(formulas(next) == formulas(now).push(args@[i as int]@));
                        assert(formulas(next).drop_last() =~= formulas(now));
                        assert(decreases_to!(args => args@));
                        assert(decreases_to!(args@ => args@[i as int]));
                    }
                    let v = self.eval(path, owner, roles, tags, &args[i]);
                    let ghost before = vals@;
                    vals.push(v);
                    assert(vals@.drop_last() =~= before);
                    i = i + 1;
                }
                assert(args@.take(i as int) =~= args@);
                assert(got_all(vals@));
                self.call(*f, &vals)
            },
        }
    }

    /// What an infix operator makes of two values.
    fn combine(&self, op: BinaryOp, x: Scalar, y: Scalar) -> (v: Scalar)
        requires
            op != BinaryOp::And && op != BinaryOp::Or,
        ensures
            binary_value(*self.host, op, x, y, v),
    {
        match op {
            BinaryOp::Add => self.host.plus(x, y),
            BinaryOp::Sub => self.host.minus(x, y),
            BinaryOp::Mul => self.host.times(x, y),
            BinaryOp::Div => {
                if is_below(abs(y), DIV_EPSILON) {
                    ZERO
                } else {
                    self.host.over(x, y)
                }
            },
            BinaryOp::Rem => {
                if is_below(abs(y), DIV_EPSILON) {
                    ZERO
                } else {
                    self.host.modulo(x, y)
                }
            },
            BinaryOp::Pow => {
                let r = self.host.power(x, y);
                assert(power_value(*self.host, x, y, r));
                if is_finite(r) {
                    r
                } else {
                    ZERO
                }
            },
            BinaryOp::Lt => bool_val(is_below(x, y)),
            BinaryOp::Le => bool_val(is_at_most(x, y)),
            BinaryOp::Gt => bool_val(is_below(y, x)),
            BinaryOp::Ge => bool_val(is_at_most(y, x)),
            BinaryOp::Eq => {
                let d = self.host.minus(x, y);
                assert(minus_value(*self.host, x, y, d));
                bool_val(is_below(abs(d), EQ_EPSILON))
            },
            _ => {
                let d = self.host.minus(x, y);
                assert(minus_value(*self.host, x, y, d));
                bool_val(is_at_most(EQ_EPSILON, abs(d)))
            },
        }
    }

    /// What a function makes of its arguments.
    fn call(&self, f: Func, vals: &Vec<Scalar>) -> (v: Scalar)
        ensures
            call_value(*self.host, f, vals@, v),
    {
        let x = nth(vals, 0);
        match f {
            Func::Min => {
                let mut acc: Scalar = INFINITY;
                let mut i: usize = 0;
                while i < vals.len()
                    invariant
                        i <= vals@.len(),
                        acc == smallest(vals@.take(i as int)),
                    decreases vals@.len() - i,
                {
                    assert(vals@.take(i + 1).drop_last() =~= vals@.take(i as int));
                    acc = min(acc, vals[i]);
                    i = i + 1;
                }
                assert(vals@.take(i as int) =~= vals@);
                acc
            },
            Func::Max => {
                let mut acc: Scalar = NEG_INFINITY;
                let mut i: usize = 0;
                while i < vals.len()
                    invariant
                        i <= vals@.len(),
                        acc == largest(vals@.take(i as int)),
                    decreases vals@.len() - i,
                {
                    assert(vals@.take(i + 1).drop_last() =~= vals@.take(i as int));
                    acc = max(acc, vals[i]);
                    i = i + 1;
                }
                assert(vals@.take(i as int) =~= vals@);
                acc
            },
            Func::Abs => abs(x),
            Func::Clamp => clamp(x, nth(vals, 1), nth(vals, 2)),
            Func::Floor => self.host.floor(x),
            Func::Ceil => self.host.ceil(x),
            Func::Round => self.host.round(x),
            Func::Sqrt => {
                let r = self.host.sqrt(x);
                assert(sqrt_value(*self.host, x, r));
                if is_finite(r) {
                    r
                } else {
                    ZERO
                }
            },
        }
    }
}

/// The value at a place; zero beyond the end.
fn nth(vals: &Vec<Scalar>, i: usize) -> (v: Scalar)
    ensures
        v == argument(vals@, i as int),
{
    if i < vals.len() {
        vals[i]
    } else {
        ZERO
    }
}

} // verus!
