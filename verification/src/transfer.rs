//! Evaluation in one scene carried over to another.
//!
//! A stat is *grounded* if it does not depend on itself, nor on a stat that
//! does. Two scenes in which a grounded stat and all that it depends on are
//! made of the same give it the same values.

use crate::entity::Entity;
use crate::eval::{
    asked, binary_value, call_value, contributions, formula_value, formula_values, got, got_all, owned, right_value,
    stat_value, target_of, unary_value, with_base, Context, Scene,
};
use crate::expr::{Link, Rule};
use crate::graph::{feeds, lemma_same_modifier_sources, link_sources, linked, modifier_sources, references, sources};
use crate::scalar::{equals, truth, Arithmetic, Scalar, ZERO};
use crate::stats::{reduced, reduction_of, Source, Stored};
use crate::tags::subset;
use crate::tree::{refs, refs_of, BinaryOp, Formula};
use crate::world::{node_in, Key, Query, World};
use vstd::prelude::*;

verus! {

/// With a stat, `within` holds every stat that it reads, and each ranks below
/// the stats that read it.
pub open spec fn layered(world: World, within: Set<Key>, rank: spec_fn(Key) -> nat) -> bool {
    forall|a: Key, d: Key|
        within.contains(d) && #[trigger] feeds(world, a, d) ==> within.contains(a) && rank(a) < rank(d)
}

/// Neither the stat nor any that it depends on depends on itself.
pub open spec fn grounded(world: World, k: Key) -> bool {
    exists|within: Set<Key>, rank: spec_fn(Key) -> nat| #[trigger] layered(world, within, rank) && within.contains(k)
}

/// Whether a modifier of a stat makes a reference.
pub open spec fn refers(world: World, k: Key, r: Link) -> bool {
    exists|i: int|
        0 <= i < node_in(world, k).modifiers.len() && references(
            #[trigger] node_in(world, k).modifiers[i].value,
        ).contains(r)
}

/// Every query on the path is of a stat that ranks at least `n`.
pub open spec fn at_least(path: Seq<Query>, rank: spec_fn(Key) -> nat, n: nat) -> bool {
    forall|i: int| 0 <= i < path.len() ==> rank((#[trigger] path[i]).key) >= n
}

/// The stats of `within` are made of the same in two scenes and read the same,
/// and what `from` has cached of them, `to`, which has nothing cached, comes
/// to.
pub open spec fn bridge<A: Arithmetic>(
    from: Scene<A>,
    to: Scene<A>,
    within: Set<Key>,
    rank: spec_fn(Key) -> nat,
) -> bool {
    &&& from.host == to.host
    &&& from.rules == to.rules
    &&& from.world.nodes.dom().finite()
    &&& to.world.nodes.dom().finite()
    &&& to.world.cache == Map::<Query, Scalar>::empty()
    &&& layered(to.world, within, rank)
    &&& forall|k: Key| within.contains(k) ==> #[trigger] node_in(from.world, k) == node_in(to.world, k)
    &&& forall|k: Key, r: Link|
        within.contains(k) && #[trigger] refers(to.world, k, r) ==> linked(from.world, k.0, r.source) == linked(
            to.world,
            k.0,
            r.source,
        )
    &&& forall|q: Query, path: Seq<Query>|
        #![trigger stat_value(to, path, q, from.world.cache[q])]
        from.world.cache.contains_key(q) && within.contains(q.key) && at_least(path, rank, rank(q.key) + 1)
            ==> stat_value(to, path, q, from.world.cache[q])
}

/// A reference leads to the same stat in both scenes, and what that comes to
/// in the one, it comes to in the other.
pub open spec fn agrees<A: Arithmetic>(
    from: Scene<A>,
    to: Scene<A>,
    p0: Seq<Query>,
    p1: Seq<Query>,
    context: Context,
    r: Link,
) -> bool {
    &&& target_of(from.world, context, r.source) == target_of(to.world, context, r.source)
    &&& target_of(to.world, context, r.source) matches Some(t) ==> forall|v: Scalar|
        stat_value(from, p0, asked(t, r, context.tags), v) ==> #[trigger] stat_value(
            to,
            p1,
            asked(t, r, context.tags),
            v,
        )
}

proof fn lemma_link_source(world: World, owner: Entity, links: Seq<Link>, r: Link, t: Entity)
    requires
        links.contains(r),
        linked(world, owner, r.source) == Some(t),
    ensures
        link_sources(world, owner, links).contains((t, r.stat)),
    decreases links.len(),
{
    let rest = links.drop_last();
    let before = link_sources(world, owner, rest);
    let all = link_sources(world, owner, links);
    if links.last() == r {
        assert(all[before.len() as int] == (t, r.stat));
    } else {
        let i = choose|i: int| 0 <= i < links.len() && links[i] == r;
        assert(rest[i] == r);
        lemma_link_source(world, owner, rest, r, t);
        let j = choose|j: int| 0 <= j < before.len() && before[j] == (t, r.stat);
        assert(all[j] == (t, r.stat));
    }
}

proof fn lemma_modifier_source(world: World, owner: Entity, mods: Seq<Stored>, i: int, r: Link, t: Entity)
    requires
        0 <= i < mods.len(),
        references(mods[i].value).contains(r),
        linked(world, owner, r.source) == Some(t),
    ensures
        modifier_sources(world, owner, mods).contains((t, r.stat)),
    decreases mods.len(),
{
    let before = modifier_sources(world, owner, mods.drop_last());
    let last = link_sources(world, owner, references(mods.last().value));
    if i == mods.len() - 1 {
        lemma_link_source(world, owner, references(mods[i].value), r, t);
        let j = choose|j: int| 0 <= j < last.len() && last[j] == (t, r.stat);
        assert((before + last)[before.len() + j] == (t, r.stat));
    } else {
        lemma_modifier_source(world, owner, mods.drop_last(), i, r, t);
        let j = choose|j: int| 0 <= j < before.len() && before[j] == (t, r.stat);
        assert((before + last)[j] == (t, r.stat));
    }
}

proof fn lemma_contains_left<T>(a: Seq<T>, b: Seq<T>, x: T)
    requires
        a.contains(x),
    ensures
        (a + b).contains(x),
{
    let i = choose|i: int| 0 <= i < a.len() && a[i] == x;
    assert((a + b)[i] == x);
}

proof fn lemma_contains_right<T>(a: Seq<T>, b: Seq<T>, x: T)
    requires
        b.contains(x),
    ensures
        (a + b).contains(x),
{
    let i = choose|i: int| 0 <= i < b.len() && b[i] == x;
    assert((a + b)[a.len() + i] == x);
}

/// What a formula comes to in one scene, it comes to in the other, if that
/// holds of its references.
pub proof fn lemma_formula<A: Arithmetic>(
    from: Scene<A>,
    to: Scene<A>,
    p0: Seq<Query>,
    p1: Seq<Query>,
    context: Context,
    rule: Rule,
    v: Scalar,
)
    requires
        from.host == to.host,
        from.rules == to.rules,
        from.world.nodes.dom().finite(),
        to.world.nodes.dom().finite(),
        forall|r: Link| #[trigger] refs(rule).contains(r) ==> agrees(from, to, p0, p1, context, r),
        formula_value(from, p0, context, rule, v),
    ensures
        formula_value(to, p1, context, rule, v),
    decreases rule,
{
    match rule {
        Formula::Num(_) => {},
        Formula::Stat(link) => {
            assert(refs(rule)[0] == link);
            assert(refs(rule).contains(link));
            assert(agrees(from, to, p0, p1, context, link));
            if let Some(t) = target_of(to.world, context, link.source) {
                assert(stat_value(to, p1, asked(t, link, context.tags), v));
            }
        },
        Formula::Unary(op, e) => {
            let x = choose|x: Scalar|
                #[trigger] got(x) && formula_value(from, p0, context, *e, x) && unary_value(op, x, v);
            lemma_formula(from, to, p0, p1, context, *e, x);
            assert(got(x));
        },
        Formula::Binary(op, a, b) => {
            assert forall|r: Link| #[trigger] refs(*a).contains(r) implies agrees(from, to, p0, p1, context, r) by {
                lemma_contains_left(refs(*a), refs(*b), r);
                assert(refs(rule).contains(r));
            }
            assert forall|r: Link| #[trigger] refs(*b).contains(r) implies agrees(from, to, p0, p1, context, r) by {
                lemma_contains_right(refs(*a), refs(*b), r);
                assert(refs(rule).contains(r));
            }
            let x = choose|x: Scalar| #[trigger]
                got(x) && formula_value(from, p0, context, *a, x) && right_value(from, p0, context, op, x, *b, v);
            assert(right_value(from, p0, context, op, x, *b, v));
            lemma_formula(from, to, p0, p1, context, *a, x);
            assert forall|y: Scalar| formula_value(from, p0, context, *b, y) implies #[trigger] formula_value(
                to,
                p1,
                context,
                *b,
                y,
            ) by {
                lemma_formula(from, to, p0, p1, context, *b, y);
            }
            lemma_right(from, to, p0, p1, context, op, x, *b, v);
            assert(got(x));
        },
        Formula::Call(f, args) => {
            let vals = choose|vals: Seq<Scalar>|
                #[trigger] got_all(vals) && formula_values(from, p0, context, args, vals) && call_value(
                    from.host,
                    f,
                    vals,
                    v,
                );
            lemma_formulas_value(from, to, p0, p1, context, args, vals);
            assert(got_all(vals));
        },
    }
}

proof fn lemma_right<A: Arithmetic>(
    from: Scene<A>,
    to: Scene<A>,
    p0: Seq<Query>,
    p1: Seq<Query>,
    context: Context,
    op: BinaryOp,
    x: Scalar,
    b: Rule,
    v: Scalar,
)
    requires
        from.host == to.host,
        forall|y: Scalar|
            formula_value(from, p0, context, b, y) ==> #[trigger] formula_value(to, p1, context, b, y),
        right_value(from, p0, context, op, x, b, v),
    ensures
        right_value(to, p1, context, op, x, b, v),
{
    match op {
        BinaryOp::And => {
            if !equals(x, ZERO) {
                let y = choose|y: Scalar|
                    #[trigger] got(y) && formula_value(from, p0, context, b, y) && v == truth(!equals(y, ZERO));
                assert(got(y) && formula_value(to, p1, context, b, y));
            }
        },
        BinaryOp::Or => {
            if equals(x, ZERO) {
                let y = choose|y: Scalar|
                    #[trigger] got(y) && formula_value(from, p0, context, b, y) && v == truth(!equals(y, ZERO));
                assert(got(y) && formula_value(to, p1, context, b, y));
            }
        },
        _ => {
            let y = choose|y: Scalar|
                #[trigger] got(y) && formula_value(from, p0, context, b, y) && binary_value(from.host, op, x, y, v);
            assert(got(y) && formula_value(to, p1, context, b, y));
        },
    }
}

proof fn lemma_formulas_value<A: Arithmetic>(
    from: Scene<A>,
    to: Scene<A>,
    p0: Seq<Query>,
    p1: Seq<Query>,
    context: Context,
    rules: Seq<Rule>,
    vals: Seq<Scalar>,
)
    requires
        from.host == to.host,
        from.rules == to.rules,
        from.world.nodes.dom().finite(),
        to.world.nodes.dom().finite(),
        forall|r: Link| #[trigger] refs_of(rules).contains(r) ==> agrees(from, to, p0, p1, context, r),
        formula_values(from, p0, context, rules, vals),
    ensures
        formula_values(to, p1, context, rules, vals),
    decreases rules,
{
    if rules.len() > 0 {
        let rest = rules.drop_last();
        assert forall|r: Link| #[trigger] refs_of(rest).contains(r) implies agrees(from, to, p0, p1, context, r) by {
            lemma_contains_left(refs_of(rest), refs(rules.last()), r);
            assert(refs_of(rules).contains(r));
        }
        assert forall|r: Link| #[trigger] refs(rules.last()).contains(r) implies agrees(
            from,
            to,
            p0,
            p1,
            context,
            r,
        ) by {
            lemma_contains_right(refs_of(rest), refs(rules.last()), r);
            assert(refs_of(rules).contains(r));
        }
        lemma_formulas_value(from, to, p0, p1, context, rest, vals.drop_last());
        lemma_formula(from, to, p0, p1, context, rules.last(), vals.last());
    }
}

proof fn lemma_contributions<A: Arithmetic>(
    from: Scene<A>,
    to: Scene<A>,
    p0: Seq<Query>,
    p1: Seq<Query>,
    q: Query,
    mods: Seq<Stored>,
    vals: Seq<Scalar>,
)
    requires
        from.host == to.host,
        from.rules == to.rules,
        from.world.nodes.dom().finite(),
        to.world.nodes.dom().finite(),
        forall|i: int, r: Link|
            0 <= i < mods.len() && #[trigger] references(mods[i].value).contains(r) ==> agrees(
                from,
                to,
                p0,
                p1,
                owned(q),
                r,
            ),
        contributions(from, p0, q, mods, vals),
    ensures
        contributions(to, p1, q, mods, vals),
    decreases mods.len(),
{
    if mods.len() > 0 {
        let rest = mods.drop_last();
        assert forall|i: int, r: Link|
            0 <= i < rest.len() && #[trigger] references(rest[i].value).contains(r) implies agrees(
            from,
            to,
            p0,
            p1,
            owned(q),
            r,
        ) by {
            assert(references(mods[i].value).contains(r));
        }
        if !subset(mods.last().tags, q.tags) {
            lemma_contributions(from, to, p0, p1, q, rest, vals);
        } else {
            lemma_contributions(from, to, p0, p1, q, rest, vals.drop_last());
            if let Source::Expr(rule) = mods.last().value {
                assert forall|r: Link| #[trigger] refs(rule).contains(r) implies agrees(
                    from,
                    to,
                    p0,
                    p1,
                    owned(q),
                    r,
                ) by {
                    assert(references(mods[mods.len() - 1].value).contains(r));
                }
                lemma_formula(from, to, p0, p1, owned(q), rule, vals.last());
            }
        }
    }
}

/// What a query of a stat of `within` comes to in one scene, it comes to in
/// the other, while stats of higher rank are being evaluated.
pub proof fn lemma_stat<A: Arithmetic>(
    from: Scene<A>,
    to: Scene<A>,
    within: Set<Key>,
    rank: spec_fn(Key) -> nat,
    p0: Seq<Query>,
    p1: Seq<Query>,
    q: Query,
    v: Scalar,
)
    requires
        bridge(from, to, within, rank),
        within.contains(q.key),
        at_least(p0, rank, rank(q.key) + 1),
        at_least(p1, rank, rank(q.key) + 1),
        stat_value(from, p0, q, v),
    ensures
        stat_value(to, p1, q, v),
    decreases rank(q.key),
{
    let k = q.key;
    let reduction = reduction_of(to.rules, k.1);
    assert(node_in(from.world, k) == node_in(to.world, k));
    assert(!p0.contains(q)) by {
        if p0.contains(q) {
            let i = choose|i: int| 0 <= i < p0.len() && p0[i] == q;
            assert(rank(p0[i].key) >= rank(k) + 1);
        }
    }
    assert(!p1.contains(q)) by {
        if p1.contains(q) {
            let i = choose|i: int| 0 <= i < p1.len() && p1[i] == q;
            assert(rank(p1[i].key) >= rank(k) + 1);
        }
    }
    let none = Seq::<Scalar>::empty();
    if !from.world.nodes.contains_key(k) {
        if to.world.nodes.contains_key(k) {
            assert(reduced(to.host, reduction, with_base(to.world.nodes[k].base, none), v));
            assert(contributions(to, p1.push(q), q, to.world.nodes[k].modifiers, none));
        }
    } else if from.world.cache.contains_key(q) {
        assert(stat_value(to, p1, q, from.world.cache[q]));
    } else {
        let node = from.world.nodes[k];
        let vals = choose|vals: Seq<Scalar>|
            #[trigger] reduced(from.host, reduction_of(from.rules, k.1), with_base(node.base, vals), v)
                && contributions(from, p0.push(q), q, node.modifiers, vals);
        if to.world.nodes.contains_key(k) {
            let q0 = p0.push(q);
            let q1 = p1.push(q);
            assert forall|i: int, r: Link|
                0 <= i < node.modifiers.len() && #[trigger] references(node.modifiers[i].value).contains(
                    r,
                ) implies agrees(from, to, q0, q1, owned(q), r) by {
                assert(references(node_in(to.world, k).modifiers[i].value).contains(r));
                assert(refers(to.world, k, r));
                if let Some(t) = linked(to.world, k.0, r.source) {
                    lemma_modifier_source(to.world, k.0, node.modifiers, i, r, t);
                    let a: Key = (t, r.stat);
                    assert(feeds(to.world, a, k));
                    let next = asked(t, r, q.tags);
                    assert forall|x: Scalar| stat_value(from, q0, next, x) implies #[trigger] stat_value(
                        to,
                        q1,
                        next,
                        x,
                    ) by {
                        assert(at_least(q0, rank, rank(a) + 1));
                        assert(at_least(q1, rank, rank(a) + 1));
                        lemma_stat(from, to, within, rank, q0, q1, next, x);
                    }
                }
            }
            lemma_contributions(from, to, q0, q1, q, node.modifiers, vals);
            assert(reduced(to.host, reduction, with_base(node.base, vals), v));
        } else {
            assert(node.modifiers.len() == 0);
            assert(vals =~= none);
            assert(with_base(node.base, vals) =~= none);
        }
    }
}

/// What stats read depends on what they are made of and on the links.
pub proof fn lemma_same_sources(w1: World, w2: World, k: Key)
    requires
        node_in(w1, k).modifiers == node_in(w2, k).modifiers,
        w1.links == w2.links,
    ensures
        sources(w1, k) == sources(w2, k),
{
    lemma_same_modifier_sources(w1, w2, k.0, node_in(w1, k).modifiers);
}

proof fn lemma_links_resolved(w1: World, w2: World, owner: Entity, links: Seq<Link>)
    requires
        forall|r: Link| #[trigger] links.contains(r) ==> linked(w1, owner, r.source) == linked(w2, owner, r.source),
    ensures
        link_sources(w1, owner, links) == link_sources(w2, owner, links),
    decreases links.len(),
{
    if links.len() > 0 {
        let rest = links.drop_last();
        assert forall|r: Link| #[trigger] rest.contains(r) implies linked(w1, owner, r.source) == linked(
            w2,
            owner,
            r.source,
        ) by {
            let i = choose|i: int| 0 <= i < rest.len() && rest[i] == r;
            assert(links[i] == r);
            assert(links.contains(r));
        }
        lemma_links_resolved(w1, w2, owner, rest);
        assert(links[links.len() - 1] == links.last());
        assert(links.contains(links.last()));
    }
}

proof fn lemma_modifiers_resolved(w1: World, w2: World, owner: Entity, mods: Seq<Stored>)
    requires
        forall|i: int, r: Link|
            0 <= i < mods.len() && #[trigger] references(mods[i].value).contains(r) ==> linked(w1, owner, r.source)
                == linked(w2, owner, r.source),
    ensures
        modifier_sources(w1, owner, mods) == modifier_sources(w2, owner, mods),
    decreases mods.len(),
{
    if mods.len() > 0 {
        let rest = mods.drop_last();
        assert forall|i: int, r: Link|
            0 <= i < rest.len() && #[trigger] references(rest[i].value).contains(r) implies linked(
            w1,
            owner,
            r.source,
        ) == linked(w2, owner, r.source) by {
            assert(references(mods[i].value).contains(r));
        }
        lemma_modifiers_resolved(w1, w2, owner, rest);
        let last = references(mods.last().value);
        assert forall|r: Link| #[trigger] last.contains(r) implies linked(w1, owner, r.source) == linked(
            w2,
            owner,
            r.source,
        ) by {
            assert(references(mods[mods.len() - 1].value).contains(r));
        }
        lemma_links_resolved(w1, w2, owner, last);
    }
}

/// What a stat reads depends on what it is made of and on where its own
/// references lead.
pub proof fn lemma_sources_by_references(w1: World, w2: World, k: Key)
    requires
        node_in(w1, k).modifiers == node_in(w2, k).modifiers,
        forall|r: Link| #[trigger] refers(w2, k, r) ==> linked(w1, k.0, r.source) == linked(w2, k.0, r.source),
    ensures
        sources(w1, k) == sources(w2, k),
{
    let mods = node_in(w2, k).modifiers;
    assert forall|i: int, r: Link|
        0 <= i < mods.len() && #[trigger] references(mods[i].value).contains(r) implies linked(w1, k.0, r.source)
        == linked(w2, k.0, r.source) by {
        assert(references(node_in(w2, k).modifiers[i].value).contains(r));
        assert(refers(w2, k, r));
    }
    lemma_modifiers_resolved(w1, w2, k.0, mods);
}

/// Worlds that differ in other things have the same grounded stats.
pub proof fn lemma_layered_same(w1: World, w2: World, within: Set<Key>, rank: spec_fn(Key) -> nat)
    requires
        layered(w1, within, rank),
        forall|k: Key| #[trigger] node_in(w1, k).modifiers == node_in(w2, k).modifiers,
        w1.links == w2.links,
    ensures
        layered(w2, within, rank),
{
    assert forall|a: Key, d: Key| within.contains(d) && #[trigger] feeds(w2, a, d) implies within.contains(a) && rank(
        a,
    ) < rank(d) by {
        assert(node_in(w1, d).modifiers == node_in(w2, d).modifiers);
        lemma_same_sources(w1, w2, d);
        assert(feeds(w1, a, d));
    }
}

/// Worlds that differ in other things have the same grounded stats.
pub proof fn lemma_grounded_same(w1: World, w2: World, k: Key)
    requires
        grounded(w1, k),
        forall|x: Key| #[trigger] node_in(w1, x).modifiers == node_in(w2, x).modifiers,
        w1.links == w2.links,
    ensures
        grounded(w2, k),
{
    let (within, rank) = choose|within: Set<Key>, rank: spec_fn(Key) -> nat| #[trigger]
        layered(w1, within, rank) && within.contains(k);
    lemma_layered_same(w1, w2, within, rank);
}

} // verus!
