//! Cached values are never stale.
//!
//! A state is [`coherent`] if every cached value of a stat that does not
//! depend on a cycle is one that evaluating its query from scratch, with no
//! caches at all, comes to. Every operation keeps a state coherent.

use crate::effect::{effect_applied, written, written_seeds, Outcome, Step};
use crate::entity::Entity;
use crate::error::Fault;
use crate::eval::{asked, formula_value, stat_value, target_of, Context, Scene};
use crate::expr::{all_compiled, compiled, Link, Rule};
use crate::graph::{
    feeds, lemma_same_modifier_sources, link_uses, linked, modifier_uses, reads_through, references,
};
use crate::modifier::Contribution;
use crate::parser::Term;
use crate::recompute::{
    forget, has_moved, lemma_refreshed_frame, lemma_settled_frame, refreshed, renewed, settled,
};
use crate::scalar::{Arithmetic, Scalar};
use crate::schedule::{leads, lemma_reached_step, reached, scheduled};
use crate::state::{
    attached, base_equals, base_set, based, carried, detached, detached_seeds, drained, drained_entry, entries_parts,
    evaluated, installed, lemma_with_seed, modifier_added, modifier_fault, modifier_part, owners, part_handles,
    part_seeds, relinked, remembered, scene_of, set_applied, set_removed, stat_removed, stats_inserted, torn_down,
    uninstalled, with_carrier, with_seed, Drained, Part, State,
};
use crate::stats::{Pending, Rules, Stored};
use crate::transfer::{
    agrees, at_least, bridge, grounded, layered, lemma_formula, lemma_grounded_same, lemma_layered_same,
    lemma_sources_by_references, lemma_stat, refers,
};
use crate::tree::{refs, refs_of, Formula};
use crate::world::{consistent, node_in, with_link, without_entity, without_node, Key, Query, World};
use vstd::prelude::*;

verus! {

/// The world without cached values.
pub open spec fn uncached(world: World) -> World {
    World { cache: Map::empty(), ..world }
}

/// The scene without cached values.
pub open spec fn fresh<A>(sc: Scene<A>) -> Scene<A> {
    Scene { world: uncached(sc.world), ..sc }
}

/// Every cached value of a grounded stat is one that its query comes to when
/// it is evaluated from scratch.
pub open spec fn coherent<A: Arithmetic>(sc: Scene<A>) -> bool {
    forall|q: Query| #[trigger]
        sc.world.cache.contains_key(q) && grounded(sc.world, q.key) ==> stat_value(
            fresh(sc),
            Seq::empty(),
            q,
            sc.world.cache[q],
        )
}

/// From scratch, what a query comes to does not depend on which stats of
/// higher rank are being evaluated.
proof fn lemma_any_path<A: Arithmetic>(
    sc: Scene<A>,
    within: Set<Key>,
    rank: spec_fn(Key) -> nat,
    path: Seq<Query>,
    q: Query,
    v: Scalar,
)
    requires
        sc.world.nodes.dom().finite(),
        sc.world.cache == Map::<Query, Scalar>::empty(),
        layered(sc.world, within, rank),
        within.contains(q.key),
        at_least(path, rank, rank(q.key) + 1),
        stat_value(sc, Seq::empty(), q, v),
    ensures
        stat_value(sc, path, q, v),
{
    assert(bridge(sc, sc, within, rank));
    lemma_stat(sc, sc, within, rank, Seq::empty(), path, q, v);
}

/// What a read of a grounded stat of a coherent scene gives, evaluating from
/// scratch gives too.
proof fn lemma_read<A: Arithmetic>(sc: Scene<A>, q: Query, v: Scalar)
    requires
        sc.world.nodes.dom().finite(),
        grounded(sc.world, q.key),
        coherent(sc),
        stat_value(sc, Seq::empty(), q, v),
    ensures
        stat_value(fresh(sc), Seq::empty(), q, v),
{
    let to = fresh(sc);
    let (within, rank) = choose|within: Set<Key>, rank: spec_fn(Key) -> nat| #[trigger]
        layered(sc.world, within, rank) && within.contains(q.key);
    lemma_layered_same(sc.world, to.world, within, rank);
    assert forall|x: Query, path: Seq<Query>|
        #![trigger stat_value(to, path, x, sc.world.cache[x])]
        sc.world.cache.contains_key(x) && within.contains(x.key) && at_least(
            path,
            rank,
            rank(x.key) + 1,
        ) implies stat_value(to, path, x, sc.world.cache[x]) by {
        assert(grounded(sc.world, x.key));
        lemma_any_path(to, within, rank, path, x, sc.world.cache[x]);
    }
    assert(bridge(sc, to, within, rank));
    lemma_stat(sc, to, within, rank, Seq::empty(), Seq::empty(), q, v);
}

/// What a read of a stat that does not depend on a cycle gives in a coherent
/// state, evaluating from scratch gives too.
pub proof fn law_reads_are_fresh<A: Arithmetic>(host: A, s: State, q: Query, v: Scalar)
    requires
        consistent(s.world),
        grounded(s.world, q.key),
        coherent(scene_of(host, s)),
        stat_value(scene_of(host, s), Seq::empty(), q, v),
    ensures
        stat_value(fresh(scene_of(host, s)), Seq::empty(), q, v),
{
    lemma_read(scene_of(host, s), q, v);
}

/// What evaluating an expression over stats that do not depend on a cycle
/// gives in a coherent state, evaluating it from scratch gives too.
pub proof fn law_evaluations_are_fresh<A: Arithmetic>(
    host: A,
    s: State,
    entity: Entity,
    roles: Map<Seq<char>, Entity>,
    term: Term,
    r: Result<Scalar, Fault>,
)
    requires
        consistent(s.world),
        coherent(scene_of(host, s)),
        forall|k: Key| #[trigger] asks_for(s.world, entity, roles, term, k) ==> grounded(s.world, k),
        evaluated(host, s, entity, roles, term, r),
    ensures
        evaluated(host, State { world: uncached(s.world), ..s }, entity, roles, term, r),
{
    if let Ok(v) = r {
        let sc = scene_of(host, s);
        let context = Context { owner: entity, roles, tags: 0 };
        let none = Seq::<Query>::empty();
        let rule = choose|rule: Rule| #[trigger]
            compiled(host, s.tags.tags, term, rule) && formula_value(sc, none, context, rule, v);
        assert forall|link: Link| #[trigger] refs(rule).contains(link) implies agrees(
            sc,
            fresh(sc),
            none,
            none,
            context,
            link,
        ) by {
            if let Some(t) = target_of(sc.world, context, link.source) {
                let i = choose|i: int| 0 <= i < refs(rule).len() && refs(rule)[i] == link;
                lemma_compiled_refs(host, s.tags.tags, term, rule);
                assert(refs(term)[i].source == link.source && refs(term)[i].stat == link.stat);
                assert(asks_for(s.world, entity, roles, term, (t, link.stat)));
                let next = asked(t, link, 0);
                assert forall|x: Scalar| stat_value(sc, none, next, x) implies #[trigger] stat_value(
                    fresh(sc),
                    none,
                    next,
                    x,
                ) by {
                    lemma_read(sc, next, x);
                }
            }
        }
        lemma_formula(sc, fresh(sc), none, none, context, rule, v);
        let after = State { world: uncached(s.world), ..s };
        assert(scene_of(host, after) == fresh(sc));
        assert(compiled(host, after.tags.tags, term, rule));
    }
}

/// Whether an expression on an entity reads a stat.
pub open spec fn asks_for(
    world: World,
    entity: Entity,
    roles: Map<Seq<char>, Entity>,
    term: Term,
    k: Key,
) -> bool {
    exists|i: int|
        0 <= i < refs(term).len() && (#[trigger] refs(term)[i]).stat == k.1 && target_of(
            world,
            Context { owner: entity, roles, tags: 0 },
            refs(term)[i].source,
        ) == Some(k.0)
}

/// Compiling an expression keeps what its references read.
proof fn lemma_compiled_refs<A: Arithmetic>(host: A, tags: Map<Seq<char>, u64>, term: Term, rule: Rule)
    requires
        compiled(host, tags, term, rule),
    ensures
        refs(rule).len() == refs(term).len(),
        forall|i: int|
            0 <= i < refs(term).len() ==> (#[trigger] refs(rule)[i]).source == refs(term)[i].source
                && refs(rule)[i].stat == refs(term)[i].stat,
    decreases term,
{
    match term {
        Formula::Num(_) => {},
        Formula::Stat(_) => {},
        Formula::Unary(_, e) => {
            if let Formula::Unary(_, e1) = rule {
                lemma_compiled_refs(host, tags, *e, *e1);
            }
        },
        Formula::Binary(_, a, b) => {
            if let Formula::Binary(_, a1, b1) = rule {
                lemma_compiled_refs(host, tags, *a, *a1);
                lemma_compiled_refs(host, tags, *b, *b1);
            }
        },
        Formula::Call(_, args) => {
            if let Formula::Call(_, args1) = rule {
                lemma_compiled_refs_of(host, tags, args, args1);
            }
        },
    }
}

proof fn lemma_compiled_refs_of<A: Arithmetic>(
    host: A,
    tags: Map<Seq<char>, u64>,
    terms: Seq<Term>,
    rules: Seq<Rule>,
)
    requires
        all_compiled(host, tags, terms, rules),
    ensures
        refs_of(rules).len() == refs_of(terms).len(),
        forall|i: int|
            0 <= i < refs_of(terms).len() ==> (#[trigger] refs_of(rules)[i]).source == refs_of(terms)[i].source
                && refs_of(rules)[i].stat == refs_of(terms)[i].stat,
    decreases terms,
{
    if terms.len() > 0 {
        lemma_compiled_refs_of(host, tags, terms.drop_last(), rules.drop_last());
        lemma_compiled_refs(host, tags, terms.last(), rules.last());
    }
}

/// `w1` is `w0` with only the stats in `seeds`, and those in `gone`, changed.
/// Those in `gone` have no cached values, and what reads one of them is a
/// seed.
pub open spec fn altered(w0: World, w1: World, seeds: Seq<Key>, gone: Set<Key>) -> bool {
    &&& w0.nodes.dom().finite() ==> w1.nodes.dom().finite()
    &&& forall|k: Key|
        !seeds.contains(k) && !gone.contains(k) ==> #[trigger] node_in(w0, k) == node_in(w1, k)
    &&& forall|k: Key, r: Link|
        !seeds.contains(k) && !gone.contains(k) && #[trigger] refers(w1, k, r) ==> linked(w0, k.0, r.source) == linked(
            w1,
            k.0,
            r.source,
        )
    &&& forall|q: Query| #[trigger]
        w1.cache.contains_key(q) ==> w0.cache.contains_key(q) && w0.cache[q] == w1.cache[q] && !gone.contains(q.key)
    &&& forall|a: Key, d: Key|
        gone.contains(a) && #[trigger] feeds(w1, a, d) ==> seeds.contains(d) || gone.contains(d)
}

/// The stats that a change of `seeds` and `gone` can affect.
spec fn affected(world: World, seeds: Seq<Key>, gone: Set<Key>) -> Set<Key> {
    Set::new(|k: Key| reached(world, seeds, k) || gone.contains(k))
}

/// A cached value of a stat that a change does not affect stays good.
proof fn lemma_unaffected<A: Arithmetic>(
    host: A,
    rules: Rules,
    w0: World,
    w1: World,
    seeds: Seq<Key>,
    gone: Set<Key>,
    q: Query,
)
    requires
        w0.nodes.dom().finite(),
        altered(w0, w1, seeds, gone),
        grounded(w1, q.key),
        coherent(Scene { host, rules, world: w0 }),
        w0.cache.contains_key(q),
        !affected(w1, seeds, gone).contains(q.key),
    ensures
        stat_value(Scene { host, rules, world: uncached(w1) }, Seq::empty(), q, w0.cache[q]),
{
    let from = Scene { host, rules, world: uncached(w0) };
    let to = Scene { host, rules, world: uncached(w1) };
    let changed = affected(w1, seeds, gone);
    let (all, rank) = choose|all: Set<Key>, rank: spec_fn(Key) -> nat| #[trigger]
        layered(w1, all, rank) && all.contains(q.key);
    let within = all.difference(changed);
    assert forall|k: Key| seeds.contains(k) implies reached(w1, seeds, k) by {
        assert(leads(w1, seeds, seq![k]));
    }
    assert forall|a: Key, k: Key| within.contains(k) && #[trigger] feeds(w1, a, k) implies within.contains(a) && rank(
        a,
    ) < rank(k) by {
        if reached(w1, seeds, a) {
            lemma_reached_step(w1, seeds, a, k);
        }
    }
    lemma_layered_same(w1, to.world, within, rank);
    assert forall|a: Key, k: Key| within.contains(k) && #[trigger] feeds(w0, a, k) implies within.contains(a) && rank(
        a,
    ) < rank(k) by {
        assert(node_in(w0, k) == node_in(w1, k));
        lemma_sources_by_references(w0, w1, k);
        assert(feeds(w1, a, k));
    }
    assert(layered(w0, within, rank));
    assert(grounded(w0, q.key));
    assert forall|k: Key| within.contains(k) implies #[trigger] node_in(from.world, k) == node_in(to.world, k) by {
        assert(node_in(w0, k) == node_in(w1, k));
    }
    assert forall|k: Key, r: Link| within.contains(k) && #[trigger] refers(to.world, k, r) implies linked(
        from.world,
        k.0,
        r.source,
    ) == linked(to.world, k.0, r.source) by {
        let i = choose|i: int|
            0 <= i < node_in(to.world, k).modifiers.len() && references(
                #[trigger] node_in(to.world, k).modifiers[i].value,
            ).contains(r);
        assert(references(node_in(w1, k).modifiers[i].value).contains(r));
        assert(refers(w1, k, r));
    }
    assert(bridge(from, to, within, rank));
    assert(fresh(Scene { host, rules, world: w0 }) == from);
    lemma_stat(from, to, within, rank, Seq::empty(), Seq::empty(), q, w0.cache[q]);
}

/// Renewing stats one after the other keeps a coherent world coherent.
proof fn lemma_refreshed_coherent<A: Arithmetic>(
    host: A,
    rules: Rules,
    before: World,
    cleared: World,
    order: Seq<Key>,
    after: World,
    moved: Seq<Key>,
)
    requires
        cleared.nodes.dom().finite(),
        coherent(Scene { host, rules, world: cleared }),
        forall|q: Query| #[trigger] cleared.cache.contains_key(q) ==> !order.contains(q.key),
        refreshed(host, rules, before, cleared, order, after, moved),
    ensures
        coherent(Scene { host, rules, world: after }),
    decreases order.len(),
{
    if order.len() > 0 {
        let k = order.last();
        let rest = order.drop_last();
        let mid = choose|mid: World| #[trigger]
            renewed(host, rules, before, k, mid, after) && if has_moved(before, after, k) {
                &&& moved.len() > 0
                &&& moved.last() == k
                &&& refreshed(host, rules, before, cleared, rest, mid, moved.drop_last())
            } else {
                refreshed(host, rules, before, cleared, rest, mid, moved)
            };
        let m = if has_moved(before, after, k) {
            moved.drop_last()
        } else {
            moved
        };
        assert forall|q: Query| #[trigger] cleared.cache.contains_key(q) implies !rest.contains(q.key) by {
            if rest.contains(q.key) {
                let i = choose|i: int| 0 <= i < rest.len() && rest[i] == q.key;
                assert(order[i] == q.key);
            }
        }
        lemma_refreshed_coherent(host, rules, before, cleared, rest, mid, m);
        lemma_refreshed_frame(host, rules, before, cleared, rest, mid, m);
        let sc = Scene { host, rules, world: mid };
        let end = Scene { host, rules, world: after };
        assert(fresh(end) == fresh(sc));
        assert forall|q: Query| #[trigger]
            after.cache.contains_key(q) && grounded(after, q.key) implies stat_value(
            fresh(end),
            Seq::empty(),
            q,
            after.cache[q],
        ) by {
            lemma_grounded_same(after, mid, q.key);
            if q.key == k && before.cache.contains_key(q) {
                assert(stat_value(sc, Seq::empty(), q, after.cache[q]));
                lemma_read(sc, q, after.cache[q]);
            } else {
                assert(mid.cache.contains_key(q));
                if q.key != k {
                    assert(after.cache[q] == mid.cache[q]);
                } else {
                    assert(order[order.len() - 1] == k);
                    assert(order.contains(k));
                    assert(cleared.cache.contains_key(q));
                }
            }
        }
    }
}

/// Recomputing what depends on `seeds` makes a world coherent whose other
/// cached values are good.
pub proof fn law_recompute_restores_coherence<A: Arithmetic>(host: A, mid: State, seeds: Seq<Key>, after: State)
    requires
        consistent(mid.world),
        forall|q: Query| #[trigger]
            mid.world.cache.contains_key(q) && grounded(mid.world, q.key) && !reached(mid.world, seeds, q.key)
                ==> stat_value(fresh(scene_of(host, mid)), Seq::empty(), q, mid.world.cache[q]),
        carried(host, mid, seeds, after),
    ensures
        coherent(scene_of(host, after)),
        after.world.cache.dom() == mid.world.cache.dom(),
{
    lemma_carried_coherent(host, mid, seeds, after);
    let moved = choose|moved: Seq<Key>| #[trigger]
        settled(host, mid.rules, mid.world, seeds, after.world, moved) && after == (State {
            world: World { cache: after.world.cache, ..mid.world },
            events: mid.events + moved,
            dirty: mid.dirty.union(owners(moved)),
            ..mid
        });
    lemma_settled_frame(host, mid.rules, mid.world, seeds, after.world, moved);
}

proof fn lemma_carried_coherent<A: Arithmetic>(host: A, mid: State, seeds: Seq<Key>, after: State)
    requires
        mid.world.nodes.dom().finite(),
        forall|q: Query| #[trigger]
            mid.world.cache.contains_key(q) && grounded(mid.world, q.key) && !reached(mid.world, seeds, q.key)
                ==> stat_value(fresh(scene_of(host, mid)), Seq::empty(), q, mid.world.cache[q]),
        carried(host, mid, seeds, after),
    ensures
        coherent(scene_of(host, after)),
{
    let world = mid.world;
    let moved = choose|moved: Seq<Key>| #[trigger]
        settled(host, mid.rules, world, seeds, after.world, moved) && after == (State {
            world: World { cache: after.world.cache, ..world },
            events: mid.events + moved,
            dirty: mid.dirty.union(owners(moved)),
            ..mid
        });
    let (order, free) = choose|order: Seq<Key>, free: int|
        #[trigger] scheduled(world, seeds, order, free) && refreshed(
            host,
            mid.rules,
            world,
            forget(world, order),
            order,
            after.world,
            moved,
        );
    let cleared = forget(world, order);
    let sc = Scene { host, rules: mid.rules, world: cleared };
    assert forall|q: Query| #[trigger]
        cleared.cache.contains_key(q) && grounded(cleared, q.key) implies stat_value(
        fresh(sc),
        Seq::empty(),
        q,
        cleared.cache[q],
    ) by {
        assert(world.cache.contains_key(q));
        lemma_grounded_same(cleared, world, q.key);
        assert(fresh(sc) == fresh(scene_of(host, mid)));
    }
    lemma_refreshed_coherent(host, mid.rules, world, cleared, order, after.world, moved);
}

/// A change followed by a recomputation of what it affects keeps a coherent
/// state coherent.
proof fn lemma_changed_coherent<A: Arithmetic>(
    host: A,
    s: State,
    mid: State,
    seeds: Seq<Key>,
    gone: Set<Key>,
    after: State,
)
    requires
        s.world.nodes.dom().finite(),
        coherent(scene_of(host, s)),
        mid.rules == s.rules,
        altered(s.world, mid.world, seeds, gone),
        carried(host, mid, seeds, after),
    ensures
        coherent(scene_of(host, after)),
{
    assert forall|q: Query| #[trigger]
        mid.world.cache.contains_key(q) && grounded(mid.world, q.key) && !reached(
            mid.world,
            seeds,
            q.key,
        ) implies stat_value(fresh(scene_of(host, mid)), Seq::empty(), q, mid.world.cache[q]) by {
        assert(!affected(mid.world, seeds, gone).contains(q.key));
        lemma_unaffected(host, s.rules, s.world, mid.world, seeds, gone, q);
    }
    lemma_carried_coherent(host, mid, seeds, after);
}

/// `w1` is `w0` with only the stats in `seeds` rewritten.
pub open spec fn rewritten(w0: World, w1: World, seeds: Seq<Key>) -> bool {
    &&& w1.links == w0.links
    &&& w1.cache == w0.cache
    &&& w0.nodes.dom().finite() ==> w1.nodes.dom().finite()
    &&& forall|k: Key| !seeds.contains(k) ==> #[trigger] node_in(w0, k) == node_in(w1, k)
}

proof fn lemma_rewritten(w0: World, w1: World, seeds: Seq<Key>)
    requires
        rewritten(w0, w1, seeds),
    ensures
        altered(w0, w1, seeds, Set::empty()),
{
}

/// Bringing a stat into being, and nothing else, keeps cached values good.
pub proof fn lemma_still_coherent<A: Arithmetic>(from: Scene<A>, to: Scene<A>, q: Query, v: Scalar)
    requires
        from.host == to.host,
        from.rules == to.rules,
        from.world.nodes.dom().finite(),
        to.world.nodes.dom().finite(),
        from.world.links == to.world.links,
        forall|k: Key| #[trigger] node_in(from.world, k) == node_in(to.world, k),
        grounded(to.world, q.key),
        stat_value(fresh(from), Seq::empty(), q, v),
    ensures
        stat_value(fresh(to), Seq::empty(), q, v),
{
    let (within, rank) = choose|within: Set<Key>, rank: spec_fn(Key) -> nat| #[trigger]
        layered(to.world, within, rank) && within.contains(q.key);
    lemma_layered_same(to.world, fresh(to).world, within, rank);
    assert forall|k: Key| #[trigger] node_in(fresh(from).world, k) == node_in(fresh(to).world, k) by {
        assert(node_in(from.world, k) == node_in(to.world, k));
    }
    assert(bridge(fresh(from), fresh(to), within, rank));
    lemma_stat(fresh(from), fresh(to), within, rank, Seq::empty(), Seq::empty(), q, v);
}

/// A first cached value of a query does not spoil the others.
pub proof fn law_get_keeps_coherence<A: Arithmetic>(host: A, s: State, q: Query, v: Scalar)
    requires
        consistent(s.world),
        coherent(scene_of(host, s)),
        stat_value(scene_of(host, s), Seq::empty(), q, v),
    ensures
        coherent(scene_of(host, State { world: remembered(s.world, q, v), ..s })),
{
    let after = State { world: remembered(s.world, q, v), ..s };
    let sc = scene_of(host, s);
    let end = scene_of(host, after);
    assert forall|x: Query| #[trigger]
        after.world.cache.contains_key(x) && grounded(after.world, x.key) implies stat_value(
        fresh(end),
        Seq::empty(),
        x,
        after.world.cache[x],
    ) by {
        lemma_grounded_same(after.world, s.world, x.key);
        if x == q && !s.world.cache.contains_key(q) {
            lemma_read(sc, q, v);
        }
        lemma_still_coherent(sc, end, x, after.world.cache[x]);
    }
}

/// Setting a base value keeps the cached values good.
pub proof fn law_set_keeps_coherence<A: Arithmetic>(host: A, s: State, k: Key, value: Scalar, after: State)
    requires
        consistent(s.world),
        coherent(scene_of(host, s)),
        base_set(host, s, k, value, after),
    ensures
        coherent(scene_of(host, after)),
{
    if !base_equals(s.world, k, value) {
        assert(seq![k][0] == k);
        assert(seq![k].contains(k));
        lemma_rewritten(s.world, based(s, k, value).world, seq![k]);
        lemma_changed_coherent(host, s, based(s, k, value), seq![k], Set::empty(), after);
    }
}

/// Adding a modifier keeps the cached values good.
pub proof fn law_add_keeps_coherence<A: Arithmetic>(
    host: A,
    s: State,
    entity: Entity,
    path: Seq<char>,
    m: Contribution,
    after: State,
)
    requires
        consistent(s.world),
        coherent(scene_of(host, s)),
        modifier_added(host, s, entity, path, m, after),
    ensures
        coherent(scene_of(host, after)),
{
    let part = choose|part: Part| #[trigger]
        modifier_part(host, s.tags.tags, path, m, part) && carried(
            host,
            installed(s, entity, part),
            seq![(entity, part.stat)],
            after,
        );
    let seeds = seq![(entity, part.stat)];
    assert(seeds[0] == (entity, part.stat));
    assert(seeds.contains((entity, part.stat)));
    lemma_rewritten(s.world, installed(s, entity, part).world, seeds);
    lemma_changed_coherent(host, s, installed(s, entity, part), seeds, Set::empty(), after);
}

/// Taking a modifier out keeps the cached values good.
pub proof fn law_remove_modifier_keeps_coherence<A: Arithmetic>(host: A, s: State, k: Key, id: u64, after: State)
    requires
        consistent(s.world),
        coherent(scene_of(host, s)),
        carried(host, uninstalled(s, k, id), seq![k], after),
    ensures
        coherent(scene_of(host, after)),
{
    assert(seq![k][0] == k);
    assert(seq![k].contains(k));
    lemma_rewritten(s.world, uninstalled(s, k, id).world, seq![k]);
    lemma_changed_coherent(host, s, uninstalled(s, k, id), seq![k], Set::empty(), after);
}

/// Adding modifiers rewrites the stats that they are for.
pub proof fn lemma_attached(s: State, entity: Entity, parts: Seq<Part>)
    ensures
        rewritten(s.world, attached(s, entity, parts).world, part_seeds(entity, parts)),
        attached(s, entity, parts).rules == s.rules,
    decreases parts.len(),
{
    if parts.len() > 0 {
        lemma_attached(s, entity, parts.drop_last());
        lemma_with_seed(part_seeds(entity, parts.drop_last()), (entity, parts.last().stat));
    }
}

/// Applying a set of modifiers keeps the cached values good.
pub proof fn law_apply_keeps_coherence<A: Arithmetic>(
    host: A,
    s: State,
    entity: Entity,
    set: Seq<(Seq<char>, Contribution)>,
    handles: Seq<(Seq<char>, u64)>,
    after: State,
)
    requires
        consistent(s.world),
        coherent(scene_of(host, s)),
        set_applied(host, s, entity, set, handles, after),
    ensures
        coherent(scene_of(host, after)),
{
    let parts = choose|parts: Seq<Part>| #[trigger]
        entries_parts(host, s.tags.tags, set, parts) && handles == part_handles(s.last_id, parts) && carried(
            host,
            attached(s, entity, parts),
            part_seeds(entity, parts),
            after,
        );
    lemma_attached(s, entity, parts);
    let mid = attached(s, entity, parts);
    lemma_rewritten(s.world, mid.world, part_seeds(entity, parts));
    lemma_changed_coherent(host, s, mid, part_seeds(entity, parts), Set::empty(), after);
}

/// Taking modifiers out rewrites the stats that they are taken out of.
pub proof fn lemma_detached(s: State, entity: Entity, handles: Seq<(Seq<char>, u64)>)
    requires
        s.world.carriers.contains(entity),
    ensures
        rewritten(s.world, detached(s, entity, handles).world, detached_seeds(s, entity, handles)),
        detached(s, entity, handles).rules == s.rules,
        detached(s, entity, handles).world.carriers == s.world.carriers,
    decreases handles.len(),
{
    if handles.len() > 0 {
        lemma_detached(s, entity, handles.drop_last());
        lemma_with_seed(detached_seeds(s, entity, handles.drop_last()), (entity, handles.last().0));
    }
}

/// Taking an applied set of modifiers out keeps the cached values good.
pub proof fn law_remove_keeps_coherence<A: Arithmetic>(
    host: A,
    s: State,
    entity: Entity,
    handles: Seq<(Seq<char>, u64)>,
    after: State,
)
    requires
        consistent(s.world),
        coherent(scene_of(host, s)),
        set_removed(host, s, entity, handles, after),
    ensures
        coherent(scene_of(host, after)),
{
    if s.world.carriers.contains(entity) {
        let mid = detached(s, entity, handles);
        let seeds = detached_seeds(s, entity, handles);
        lemma_detached(s, entity, handles);
        lemma_rewritten(s.world, mid.world, seeds);
        lemma_changed_coherent(host, s, mid, seeds, Set::empty(), after);
    }
}

/// Taking a stat out keeps the cached values good.
pub proof fn law_remove_stat_keeps_coherence<A: Arithmetic>(host: A, s: State, k: Key, after: State)
    requires
        consistent(s.world),
        coherent(scene_of(host, s)),
        stat_removed(host, s, k, after),
    ensures
        coherent(scene_of(host, after)),
{
    if s.world.nodes.contains_key(k) {
        let mid = State { world: without_node(s.world, k), ..s };
        assert(seq![k][0] == k);
        assert(seq![k].contains(k));
        lemma_changed_coherent(host, s, mid, seq![k], Set::empty(), after);
    }
}

/// Pointing a link elsewhere keeps the cached values good.
pub proof fn law_relink_keeps_coherence<A: Arithmetic>(
    host: A,
    s: State,
    entity: Entity,
    name: Seq<char>,
    target: Option<Entity>,
    after: State,
)
    requires
        consistent(s.world),
        coherent(scene_of(host, s)),
        relinked(host, s, entity, name, target, after),
    ensures
        coherent(scene_of(host, after)),
{
    if linked(s.world, entity, Some(name)) != target {
        let mid = State { world: with_link(s.world, entity, name, target), ..s };
        let seeds = choose|seeds: Seq<Key>| #[trigger]
            carried(host, mid, seeds, after) && seeds.no_duplicates() && forall|k: Key| #[trigger]
                seeds.contains(k) <==> k.0 == entity && reads_through(s.world, k, name);
        assert forall|k: Key, r: Link| !seeds.contains(k) && #[trigger] refers(mid.world, k, r) implies linked(
            s.world,
            k.0,
            r.source,
        ) == linked(mid.world, k.0, r.source) by {
            if k.0 == entity && r.source == Some(name) {
                let mods = node_in(mid.world, k).modifiers;
                let i = choose|i: int| 0 <= i < mods.len() && references(#[trigger] mods[i].value).contains(r);
                lemma_modifier_use(mods, i, r, name);
                assert(node_in(s.world, k).modifiers == mods);
            }
        }
        lemma_changed_coherent(host, s, mid, seeds, Set::empty(), after);
    }
}

proof fn lemma_link_use(links: Seq<Link>, r: Link, name: Seq<char>)
    requires
        links.contains(r),
        r.source == Some(name),
    ensures
        link_uses(links, name).len() > 0,
    decreases links.len(),
{
    if links.last() != r {
        let i = choose|i: int| 0 <= i < links.len() && links[i] == r;
        assert(links.drop_last()[i] == r);
        lemma_link_use(links.drop_last(), r, name);
    }
}

proof fn lemma_modifier_use(mods: Seq<Stored>, i: int, r: Link, name: Seq<char>)
    requires
        0 <= i < mods.len(),
        references(mods[i].value).contains(r),
        r.source == Some(name),
    ensures
        modifier_uses(mods, name).len() > 0,
    decreases mods.len(),
{
    if i == mods.len() - 1 {
        lemma_link_use(references(mods[i].value), r, name);
    } else {
        lemma_modifier_use(mods.drop_last(), i, r, name);
    }
}

/// Taking the stats of an entity out keeps the cached values good.
pub proof fn law_teardown_keeps_coherence<A: Arithmetic>(host: A, s: State, entity: Entity, after: State)
    requires
        consistent(s.world),
        coherent(scene_of(host, s)),
        torn_down(host, s, entity, after),
    ensures
        coherent(scene_of(host, after)),
{
    if s.world.carriers.contains(entity) {
        let mid = State { world: without_entity(s.world, entity), ..s };
        let seeds = choose|seeds: Seq<Key>| #[trigger]
            carried(host, mid, seeds, after) && seeds.no_duplicates() && forall|d: Key| #[trigger]
                seeds.contains(d) <==> d.0 != entity && exists|name: Seq<char>| #[trigger]
                    feeds(s.world, (entity, name), d);
        let gone = Set::new(|k: Key| k.0 == entity);
        assert(mid.world.nodes.dom().subset_of(s.world.nodes.dom()));
        vstd::set_lib::lemma_set_subset_finite(s.world.nodes.dom(), mid.world.nodes.dom());
        assert forall|a: Key, d: Key| gone.contains(a) && #[trigger] feeds(mid.world, a, d) implies seeds.contains(d)
            || gone.contains(d) by {
            if d.0 != entity {
                lemma_same_modifier_sources(s.world, mid.world, d.0, node_in(s.world, d).modifiers);
                assert(feeds(s.world, (entity, a.1), d));
            }
        }
        lemma_changed_coherent(host, s, mid, seeds, gone, after);
    }
}

/// Installing starting entries writes stats of their entity only, each of
/// which is a seed.
pub proof fn lemma_drained<A: Arithmetic>(host: A, s: State, entity: Entity, pending: Seq<Pending>, done: Drained)
    requires
        drained(host, s, entity, pending, done),
    ensures
        rewritten(s.world, done.state.world, done.seeds),
        done.state.world.carriers == s.world.carriers,
        done.state.rules == s.rules,
        forall|k: Key| #[trigger] done.seeds.contains(k) ==> k.0 == entity,
        forall|k: Key| k.0 != entity ==> #[trigger] node_in(done.state.world, k) == node_in(s.world, k),
    decreases pending.len(),
{
    if pending.len() > 0 {
        let mid = choose|mid: Drained| #[trigger]
            drained_entry(host, entity, pending.last(), mid, done) && drained(host, s, entity, pending.drop_last(), mid);
        lemma_drained(host, s, entity, pending.drop_last(), mid);
        match pending.last() {
            Pending::Base(stat, _) => {
                lemma_with_seed(mid.seeds, (entity, stat));
            },
            Pending::Modifier(path, m) => {
                if modifier_fault(mid.state.tags.tags, path, m) is None {
                    let part = choose|part: Part| #[trigger]
                        modifier_part(host, mid.state.tags.tags, path, m, part) && done == (Drained {
                            state: installed(mid.state, entity, part),
                            seeds: with_seed(mid.seeds, (entity, part.stat)),
                            faults: mid.faults,
                        });
                    lemma_with_seed(mid.seeds, (entity, part.stat));
                }
            },
        }
    }
}

/// Putting stats on an entity keeps the cached values good.
pub proof fn law_insert_keeps_coherence<A: Arithmetic>(
    host: A,
    s: State,
    entity: Entity,
    pending: Seq<Pending>,
    faults: Seq<Fault>,
    after: State,
)
    requires
        consistent(s.world),
        coherent(scene_of(host, s)),
        stats_inserted(host, s, entity, pending, faults, after),
    ensures
        coherent(scene_of(host, after)),
{
    let (mid, done) = choose|mid: State, done: Drained|
        #![trigger torn_down(host, s, entity, mid), carried(host, done.state, done.seeds, after)]
        torn_down(host, s, entity, mid) && drained(host, with_carrier(mid, entity), entity, pending, done) && carried(
            host,
            done.state,
            done.seeds,
            after,
        ) && faults == done.faults;
    lemma_drained(host, with_carrier(mid, entity), entity, pending, done);
    lemma_torn_down_frame(host, s, entity, mid);
    law_teardown_keeps_coherence(host, s, entity, mid);
    let start = with_carrier(mid, entity);
    assert(coherent(scene_of(host, start))) by {
        assert forall|q: Query| #[trigger]
            start.world.cache.contains_key(q) && grounded(start.world, q.key) implies stat_value(
            fresh(scene_of(host, start)),
            Seq::empty(),
            q,
            start.world.cache[q],
        ) by {
            assert(mid.world.cache.contains_key(q));
            lemma_grounded_same(start.world, mid.world, q.key);
            lemma_still_coherent(scene_of(host, mid), scene_of(host, start), q, mid.world.cache[q]);
        }
    }
    lemma_rewritten(start.world, done.state.world, done.seeds);
    lemma_changed_coherent(host, start, done.state, done.seeds, Set::empty(), after);
}

/// Tearing an entity down leaves none of its stats, and all others as they
/// were.
pub proof fn lemma_torn_down_frame<A: Arithmetic>(host: A, s: State, entity: Entity, after: State)
    requires
        consistent(s.world),
        torn_down(host, s, entity, after),
    ensures
        after.world == (World { cache: after.world.cache, ..without_entity(s.world, entity) }),
        after.world.nodes.dom().finite(),
        forall|name: Seq<char>| !after.world.nodes.contains_key((entity, name)),
        after.tags == s.tags,
        after.rules == s.rules,
        after.last_id == s.last_id,
{
    let gone = without_entity(s.world, entity);
    assert(gone.nodes.dom().subset_of(s.world.nodes.dom()));
    vstd::set_lib::lemma_set_subset_finite(s.world.nodes.dom(), gone.nodes.dom());
    if s.world.carriers.contains(entity) {
        let mid = State { world: gone, ..s };
        let seeds = choose|seeds: Seq<Key>| #[trigger]
            carried(host, mid, seeds, after) && seeds.no_duplicates() && forall|d: Key| #[trigger]
                seeds.contains(d) <==> d.0 != entity && exists|name: Seq<char>| #[trigger]
                    feeds(s.world, (entity, name), d);
        let moved = choose|moved: Seq<Key>| #[trigger]
            settled(host, mid.rules, mid.world, seeds, after.world, moved) && after == (State {
                world: World { cache: after.world.cache, ..mid.world },
                events: mid.events + moved,
                dirty: mid.dirty.union(owners(moved)),
                ..mid
            });
        lemma_settled_frame(host, mid.rules, mid.world, seeds, after.world, moved);
    } else {
        assert forall|name: Seq<char>| !after.world.nodes.contains_key((entity, name)) by {
            if s.world.nodes.contains_key((entity, name)) {
                assert(s.world.carriers.contains((entity, name).0));
            }
        }
        assert(s.world =~= (World { cache: s.world.cache, ..gone })) by {
            assert(s.world.nodes =~= gone.nodes);
            assert(s.world.links =~= gone.links);
            assert(s.world.carriers =~= gone.carriers);
        }
    }
}

proof fn lemma_written(s: State, outs: Seq<Outcome>)
    ensures
        rewritten(s.world, written(s, outs).world, written_seeds(s, outs)),
        written(s, outs).rules == s.rules,
    decreases outs.len(),
{
    if outs.len() > 0 {
        lemma_written(s, outs.drop_last());
        lemma_with_seed(written_seeds(s, outs.drop_last()), outs.last().key);
    }
}

/// Applying an instant effect keeps the cached values good.
pub proof fn law_effect_keeps_coherence<A: Arithmetic>(
    host: A,
    s: State,
    roles: Map<Seq<char>, Entity>,
    steps: Seq<Step>,
    outs: Seq<Outcome>,
    after: State,
)
    requires
        consistent(s.world),
        coherent(scene_of(host, s)),
        effect_applied(host, s, roles, steps, outs, after),
    ensures
        coherent(scene_of(host, after)),
{
    lemma_written(s, outs);
    lemma_rewritten(s.world, written(s, outs).world, written_seeds(s, outs));
    lemma_changed_coherent(host, s, written(s, outs), written_seeds(s, outs), Set::empty(), after);
}

} // verus!
