//! What the operations on a stat graph promise of each other.

use crate::coherence::{lemma_attached, lemma_detached, lemma_drained, lemma_torn_down_frame};
use crate::effect::{effect_applied, latest, starting, written, written_seeds, Outcome, Step};
use crate::entity::Entity;
use crate::error::Fault;
use crate::eval::{
    binary_value, call_value, contributions, formula_value, got, right_value, stat_value, target_of, with_base, Context,
};
use crate::expr::{Link, Rule};
use crate::graph::{dependents, feeds, lemma_same_modifier_sources, linked, reads_through, sources};
use crate::modifier::Contribution;
use crate::recompute::{
    forget, has_moved, lemma_refreshed_frame, lemma_settled_frame, refreshed, renewed, settled,
};
use crate::scalar::{absolute, below, equals, finite, nan, Arithmetic, Scalar, DIV_EPSILON, ONE, ZERO};
use crate::schedule::{leads, reached, scheduled, waits};
use crate::state::{
    attached, base_equals, base_set, based, carried, detached, detached_seeds, drained, entries_parts, installed,
    numbered, owners, part_handles, part_seeds, place_of, relinked, remembered, scene_of, set_applied, set_removed,
    stats_inserted, torn_down, uninstalled, with_carrier, Drained, Part, State,
};
use crate::stats::{empty_node, reduced, reduction_of, Pending, Reduction, Rules, Stored};
use crate::tags::subset;
use crate::transfer::{grounded, layered};
use crate::tree::{BinaryOp, Formula, Func, UnaryOp};
use crate::world::{consistent, node_in, with_link, Key, Query, World};
use vstd::prelude::*;

verus! {

// -- recomputation ----------------------------------------------------------

/// A grounded stat does not wait for a cycle.
#[verifier::spinoff_prover]
proof fn lemma_not_waiting(
    world: World,
    seeds: Seq<Key>,
    order: Seq<Key>,
    free: int,
    within: Set<Key>,
    rank: spec_fn(Key) -> nat,
    j: int,
)
    requires
        scheduled(world, seeds, order, free),
        layered(world, within, rank),
        0 <= j < order.len(),
        within.contains(order[j]),
    ensures
        j < free,
    decreases rank(order[j]),
{
    if j >= free {
        assert(waits(world, order, free, order[j]));
        let i = choose|i: int| free <= i < order.len() && feeds(world, #[trigger] order[i], order[j]);
        assert(feeds(world, order[i], order[j]));
        lemma_not_waiting(world, seeds, order, free, within, rank, i);
    }
}

/// A stat that does not depend on a cycle is recomputed after all that it
/// reads.
pub proof fn law_dependency_order(world: World, seeds: Seq<Key>, order: Seq<Key>, free: int)
    requires
        scheduled(world, seeds, order, free),
    ensures
        forall|j: int| 0 <= j < order.len() && grounded(world, #[trigger] order[j]) ==> j < free,
        forall|i: int, j: int|
            #![trigger feeds(world, order[i], order[j])]
            0 <= i < order.len() && 0 <= j < order.len() && grounded(world, order[j]) && feeds(
                world,
                order[i],
                order[j],
            ) ==> i < j,
{
    assert forall|j: int| 0 <= j < order.len() && grounded(world, #[trigger] order[j]) implies j < free by {
        let (within, rank) = choose|within: Set<Key>, rank: spec_fn(Key) -> nat| #[trigger]
            layered(world, within, rank) && within.contains(order[j]);
        lemma_not_waiting(world, seeds, order, free, within, rank, j);
    }
}

/// The value that a refreshed stat ends with is the one it was given.
proof fn lemma_refreshed_moved<A: Arithmetic>(
    host: A,
    rules: Rules,
    before: World,
    cleared: World,
    order: Seq<Key>,
    after: World,
    moved: Seq<Key>,
)
    requires
        refreshed(host, rules, before, cleared, order, after, moved),
        order.no_duplicates(),
    ensures
        moved.no_duplicates(),
        forall|k: Key| #[trigger] moved.contains(k) <==> order.contains(k) && has_moved(before, after, k),
    decreases order.len(),
{
    if order.len() > 0 {
        let last = order.last();
        let rest = order.drop_last();
        let mid = choose|mid: World| #[trigger]
            renewed(host, rules, before, last, mid, after) && if has_moved(before, after, last) {
                &&& moved.len() > 0
                &&& moved.last() == last
                &&& refreshed(host, rules, before, cleared, rest, mid, moved.drop_last())
            } else {
                refreshed(host, rules, before, cleared, rest, mid, moved)
            };
        let m = if has_moved(before, after, last) {
            moved.drop_last()
        } else {
            moved
        };
        lemma_refreshed_moved(host, rules, before, cleared, rest, mid, m);
        lemma_refreshed_frame(host, rules, before, cleared, rest, mid, m);
        assert(!rest.contains(last)) by {
            if rest.contains(last) {
                let i = choose|i: int| 0 <= i < rest.len() && rest[i] == last;
                assert(order[i] == order[order.len() - 1]);
            }
        }
        assert forall|k: Key| #[trigger] order.contains(k) <==> rest.contains(k) || k == last by {
            if order.contains(k) {
                let i = choose|i: int| 0 <= i < order.len() && order[i] == k;
                if i < rest.len() {
                    assert(rest[i] == k);
                }
            }
            if rest.contains(k) {
                let i = choose|i: int| 0 <= i < rest.len() && rest[i] == k;
                assert(order[i] == k);
            }
            assert(order[order.len() - 1] == last);
        }
        assert forall|k: Key| rest.contains(k) implies has_moved(before, mid, k) == has_moved(before, after, k) by {
            if has_moved(before, mid, k) {
                let q = choose|q: Query|
                    q.key == k && #[trigger] before.cache.contains_key(q) && !equals(before.cache[q], mid.cache[q]);
                assert(mid.cache.contains_key(q));
                assert(after.cache[q] == mid.cache[q]);
            }
            if has_moved(before, after, k) {
                let q = choose|q: Query|
                    q.key == k && #[trigger] before.cache.contains_key(q) && !equals(before.cache[q], after.cache[q]);
                assert(mid.cache.contains_key(q));
                assert(after.cache[q] == mid.cache[q]);
            }
        }
        if has_moved(before, after, last) {
            assert(moved =~= m.push(last));
            assert(!m.contains(last));
            assert forall|k: Key| #[trigger] moved.contains(k) <==> m.contains(k) || k == last by {
                if m.contains(k) {
                    let i = choose|i: int| 0 <= i < m.len() && m[i] == k;
                    assert(moved[i] == k);
                }
                assert(moved[m.len() as int] == last);
            }
        }
    }
}

/// A recomputation leaves the stats, the links and which queries are cached as
/// they are. Cached values of stats that do not depend on the seeds stay. An
/// event is recorded for each stat that depends on the seeds and had a cached
/// value that is now another, once, and for no other.
pub proof fn law_recompute_is_exact<A: Arithmetic>(host: A, mid: State, seeds: Seq<Key>, after: State)
    requires
        carried(host, mid, seeds, after),
    ensures
        after.world == (World { cache: after.world.cache, ..mid.world }),
        after.world.cache.dom() == mid.world.cache.dom(),
        forall|q: Query|
            mid.world.cache.contains_key(q) && !reached(mid.world, seeds, q.key) ==> #[trigger] after.world.cache[q]
                == mid.world.cache[q],
        exists|moved: Seq<Key>| #[trigger]
            moved.no_duplicates() && after.events == mid.events + moved && after.dirty == mid.dirty.union(
                owners(moved),
            ) && forall|k: Key| #[trigger]
                moved.contains(k) <==> reached(mid.world, seeds, k) && has_moved(mid.world, after.world, k),
{
    let moved = choose|moved: Seq<Key>| #[trigger]
        settled(host, mid.rules, mid.world, seeds, after.world, moved) && after == (State {
            world: World { cache: after.world.cache, ..mid.world },
            events: mid.events + moved,
            dirty: mid.dirty.union(owners(moved)),
            ..mid
        });
    lemma_settled_frame(host, mid.rules, mid.world, seeds, after.world, moved);
    let (order, free) = choose|order: Seq<Key>, free: int|
        #[trigger] scheduled(mid.world, seeds, order, free) && refreshed(
            host,
            mid.rules,
            mid.world,
            forget(mid.world, order),
            order,
            after.world,
            moved,
        );
    lemma_refreshed_frame(host, mid.rules, mid.world, forget(mid.world, order), order, after.world, moved);
    lemma_refreshed_moved(host, mid.rules, mid.world, forget(mid.world, order), order, after.world, moved);
    assert forall|q: Query|
        mid.world.cache.contains_key(q) && !reached(mid.world, seeds, q.key) implies #[trigger] after.world.cache[q]
        == mid.world.cache[q] by {
        assert(!order.contains(q.key));
        assert(forget(mid.world, order).cache.contains_key(q));
    }
}

/// Recomputing nothing changes nothing.
pub proof fn law_recompute_nothing<A: Arithmetic>(host: A, mid: State, after: State)
    requires
        carried(host, mid, Seq::empty(), after),
    ensures
        after == mid,
{
    let seeds = Seq::<Key>::empty();
    law_recompute_is_exact(host, mid, seeds, after);
    assert forall|k: Key| !reached(mid.world, seeds, k) by {
        if reached(mid.world, seeds, k) {
            let chain = choose|chain: Seq<Key>| #[trigger] leads(mid.world, seeds, chain) && chain.last() == k;
            assert(seeds.contains(chain[0]));
        }
    }
    assert(after.world.cache =~= mid.world.cache);
    let moved = choose|moved: Seq<Key>| #[trigger]
        moved.no_duplicates() && after.events == mid.events + moved && after.dirty == mid.dirty.union(owners(moved))
            && forall|k: Key| #[trigger]
            moved.contains(k) <==> reached(mid.world, seeds, k) && has_moved(mid.world, after.world, k);
    assert(moved.len() == 0) by {
        if moved.len() > 0 {
            assert(moved.contains(moved[0]));
        }
    }
    assert(after.events =~= mid.events);
    assert(after.dirty =~= mid.dirty);
    lemma_carried_parts(host, mid, seeds, after);
    assert(after =~= mid);
}

/// A recomputation changes only cached values and what is recorded of changes.
pub proof fn lemma_carried_parts<A: Arithmetic>(host: A, mid: State, seeds: Seq<Key>, after: State)
    requires
        carried(host, mid, seeds, after),
    ensures
        after.tags == mid.tags,
        after.rules == mid.rules,
        after.last_id == mid.last_id,
        after.world == (World { cache: after.world.cache, ..mid.world }),
{
    law_recompute_is_exact(host, mid, seeds, after);
}

// -- base values ------------------------------------------------------------

/// Setting the value that was just set is a no-op. A value that is not a
/// number equals nothing, itself included.
pub proof fn law_set_again_is_quiet<A: Arithmetic>(host: A, s: State, k: Key, value: Scalar, once: State, twice: State)
    requires
        !nan(value),
        base_set(host, s, k, value, once),
        base_set(host, once, k, value, twice),
    ensures
        twice == once,
{
    if !base_equals(s.world, k, value) {
        lemma_carried_parts(host, based(s, k, value), seq![k], once);
        assert(node_in(once.world, k).base == Some(value));
        assert(equals(value, value));
    }
}

/// Setting a base value replaces the base value of that stat. Its modifiers,
/// all other stats and all links stay.
pub proof fn law_set_replaces_the_base<A: Arithmetic>(host: A, s: State, k: Key, value: Scalar, after: State)
    requires
        base_set(host, s, k, value, after),
    ensures
        node_in(after.world, k).modifiers == node_in(s.world, k).modifiers,
        node_in(after.world, k).base == Some(value) || base_equals(s.world, k, value) && after == s,
        forall|other: Key| other != k ==> #[trigger] node_in(after.world, other) == node_in(s.world, other),
        after.world.links == s.world.links,
        after.world.carriers == s.world.carriers,
{
    if !base_equals(s.world, k, value) {
        lemma_carried_parts(host, based(s, k, value), seq![k], after);
        assert forall|other: Key| other != k implies #[trigger] node_in(after.world, other) == node_in(
            s.world,
            other,
        ) by {
            assert(node_in(based(s, k, value).world, other) == node_in(s.world, other));
        }
    }
}

// -- modifiers --------------------------------------------------------------

/// The modifiers of two worlds are the same, and so are the base values, the
/// links and the entities that carry stats.
pub open spec fn same_makeup(w1: World, w2: World) -> bool {
    &&& w1.carriers == w2.carriers
    &&& w1.links == w2.links
    &&& forall|k: Key| #[trigger] node_in(w1, k) == node_in(w2, k)
}

/// No modifier of this number is in the list.
pub open spec fn unused(mods: Seq<Stored>, id: u64) -> bool {
    forall|i: int| 0 <= i < mods.len() ==> (#[trigger] mods[i]).id != id
}

proof fn lemma_unused(mods: Seq<Stored>, id: u64)
    requires
        unused(mods, id),
    ensures
        place_of(mods, id) is None,
    decreases mods.len(),
{
    if mods.len() > 0 {
        assert(unused(mods.drop_last(), id)) by {
            assert forall|i: int| 0 <= i < mods.len() - 1 implies (#[trigger] mods.drop_last()[i]).id != id by {
                assert(mods[i].id != id);
            }
        }
        lemma_unused(mods.drop_last(), id);
        assert(mods[mods.len() - 1].id != id);
    }
}

/// A modifier that follows others of other numbers is found at its place.
proof fn lemma_place_at(mods: Seq<Stored>, id: u64, i: int)
    requires
        0 <= i < mods.len(),
        mods[i].id == id,
        forall|j: int| 0 <= j < i ==> (#[trigger] mods[j]).id != id,
    ensures
        place_of(mods, id) == Some(i),
    decreases mods.len(),
{
    if i == mods.len() - 1 {
        assert(unused(mods.drop_last(), id)) by {
            assert forall|j: int| 0 <= j < i implies (#[trigger] mods.drop_last()[j]).id != id by {
                assert(mods[j].id != id);
            }
        }
        lemma_unused(mods.drop_last(), id);
    } else {
        assert forall|j: int| 0 <= j < i implies (#[trigger] mods.drop_last()[j]).id != id by {
            assert(mods[j].id != id);
        }
        lemma_place_at(mods.drop_last(), id, i);
    }
}

/// Adding a modifier and taking it out again leaves the stats as they were.
pub proof fn law_add_then_remove<A: Arithmetic>(
    host: A,
    s: State,
    entity: Entity,
    part: Part,
    added: State,
    after: State,
)
    requires
        numbered(s.world, s.last_id),
        s.last_id < u64::MAX,
        carried(host, installed(s, entity, part), seq![(entity, part.stat)], added),
        carried(
            host,
            uninstalled(added, (entity, part.stat), (s.last_id + 1) as u64),
            seq![(entity, part.stat)],
            after,
        ),
    ensures
        same_makeup(after.world, s.world),
{
    let k: Key = (entity, part.stat);
    let id = (s.last_id + 1) as u64;
    lemma_carried_parts(host, installed(s, entity, part), seq![k], added);
    lemma_carried_parts(host, uninstalled(added, k, id), seq![k], after);
    let mods = node_in(s.world, k).modifiers;
    let more = node_in(added.world, k).modifiers;
    assert(more == mods.push(Stored { id, tags: part.tags, value: part.value }));
    assert forall|j: int| 0 <= j < mods.len() implies (#[trigger] more[j]).id != id by {
        assert(s.world.nodes[k].modifiers[j].id <= s.last_id);
    }
    lemma_place_at(more, id, mods.len() as int);
    assert(more.remove(mods.len() as int) =~= mods);
    assert forall|x: Key| #[trigger] node_in(after.world, x) == node_in(s.world, x) by {
        if x == k {
            assert(node_in(after.world, k) =~= node_in(s.world, k));
        }
    }
}

/// The modifiers that `parts` leave on a stat, numbered after `last_id`.
pub open spec fn gained(last_id: u64, stat: Seq<char>, parts: Seq<Part>) -> Seq<Stored>
    decreases parts.len(),
{
    if parts.len() == 0 {
        Seq::empty()
    } else {
        let before = gained(last_id, stat, parts.drop_last());
        if parts.last().stat == stat {
            before.push(
                Stored {
                    id: (last_id + parts.len()) as u64,
                    tags: parts.last().tags,
                    value: parts.last().value,
                },
            )
        } else {
            before
        }
    }
}

proof fn lemma_gained(last_id: u64, stat: Seq<char>, parts: Seq<Part>)
    requires
        last_id + parts.len() <= u64::MAX,
    ensures
        forall|i: int|
            0 <= i < gained(last_id, stat, parts).len() ==> last_id < (#[trigger] gained(last_id, stat, parts)[i]).id
                <= last_id + parts.len(),
    decreases parts.len(),
{
    if parts.len() > 0 {
        lemma_gained(last_id, stat, parts.drop_last());
    }
}

/// Adding modifiers in turn appends them to the stats that they are for.
pub proof fn lemma_attached_makeup(s: State, entity: Entity, parts: Seq<Part>)
    requires
        s.last_id + parts.len() <= u64::MAX,
    ensures
        ({
            let after = attached(s, entity, parts);
            &&& after.last_id == s.last_id + parts.len()
            &&& after.world.carriers == s.world.carriers
            &&& after.world.links == s.world.links
            &&& forall|k: Key| k.0 != entity ==> #[trigger] node_in(after.world, k) == node_in(s.world, k)
            &&& forall|stat: Seq<char>|
                #![trigger node_in(after.world, (entity, stat))]
                node_in(after.world, (entity, stat)).base == node_in(s.world, (entity, stat)).base
            &&& forall|stat: Seq<char>|
                #![trigger node_in(after.world, (entity, stat))]
                node_in(after.world, (entity, stat)).modifiers == node_in(s.world, (entity, stat)).modifiers + gained(
                    s.last_id,
                    stat,
                    parts,
                )
        }),
    decreases parts.len(),
{
    let after = attached(s, entity, parts);
    if parts.len() == 0 {
        assert forall|stat: Seq<char>|
            #![trigger node_in(after.world, (entity, stat))]
            node_in(after.world, (entity, stat)).modifiers == node_in(s.world, (entity, stat)).modifiers + gained(
                s.last_id,
                stat,
                parts,
            ) by {
            assert(node_in(s.world, (entity, stat)).modifiers + gained(s.last_id, stat, parts) =~= node_in(
                s.world,
                (entity, stat),
            ).modifiers);
        }
    } else {
        let rest = parts.drop_last();
        let mid = attached(s, entity, rest);
        lemma_attached_makeup(s, entity, rest);
        assert forall|stat: Seq<char>|
            #![trigger node_in(after.world, (entity, stat))]
            node_in(after.world, (entity, stat)).base == node_in(s.world, (entity, stat)).base && node_in(
                after.world,
                (entity, stat),
            ).modifiers == node_in(s.world, (entity, stat)).modifiers + gained(s.last_id, stat, parts) by {
            let k: Key = (entity, stat);
            assert(node_in(mid.world, (entity, stat)).base == node_in(s.world, (entity, stat)).base);
            assert(node_in(mid.world, (entity, stat)).modifiers == node_in(s.world, (entity, stat)).modifiers + gained(
                s.last_id,
                stat,
                rest,
            ));
            if stat == parts.last().stat {
                let m = Stored {
                    id: (s.last_id + parts.len()) as u64,
                    tags: parts.last().tags,
                    value: parts.last().value,
                };
                assert(node_in(after.world, k).modifiers == node_in(mid.world, k).modifiers.push(m));
                assert((node_in(s.world, k).modifiers + gained(s.last_id, stat, rest)).push(m) =~= node_in(
                    s.world,
                    k,
                ).modifiers + gained(s.last_id, stat, rest).push(m));
            } else {
                assert(node_in(after.world, k) == node_in(mid.world, k));
            }
        }
        assert forall|k: Key| k.0 != entity implies #[trigger] node_in(after.world, k) == node_in(s.world, k) by {
            assert(node_in(mid.world, k) == node_in(s.world, k));
        }
    }
}

/// The modifiers that `parts` leave on a stat once the first `n` of them have
/// been taken out again.
spec fn left(last_id: u64, stat: Seq<char>, parts: Seq<Part>, n: int) -> Seq<Stored> {
    gained(last_id, stat, parts).skip(gained(last_id, stat, parts.take(n)).len() as int)
}

proof fn lemma_gained_prefix(last_id: u64, stat: Seq<char>, parts: Seq<Part>, n: int)
    requires
        0 <= n <= parts.len(),
    ensures
        gained(last_id, stat, parts.take(n)).len() <= gained(last_id, stat, parts).len(),
        gained(last_id, stat, parts.take(n)) == gained(last_id, stat, parts).take(
            gained(last_id, stat, parts.take(n)).len() as int,
        ),
    decreases parts.len(),
{
    let all = gained(last_id, stat, parts);
    if n == parts.len() {
        assert(parts.take(n) =~= parts);
        assert(all.take(all.len() as int) =~= all);
    } else {
        let rest = parts.drop_last();
        lemma_gained_prefix(last_id, stat, rest, n);
        assert(rest.take(n) =~= parts.take(n));
        let g = gained(last_id, stat, parts.take(n));
        assert(all.take(g.len() as int) =~= gained(last_id, stat, rest).take(g.len() as int));
    }
}

/// Taking modifiers out in the order in which they were added finds each at
/// the place after those that were there before.
proof fn lemma_detach_attached(s: State, entity: Entity, parts: Seq<Part>, from: State, n: int)
    requires
        numbered(s.world, s.last_id),
        s.last_id + parts.len() <= u64::MAX,
        from.world == (World { cache: from.world.cache, ..attached(s, entity, parts).world }),
        0 <= n <= parts.len(),
    ensures
        ({
            let after = detached(from, entity, part_handles(s.last_id, parts).take(n));
            &&& after.world.carriers == s.world.carriers
            &&& after.world.links == s.world.links
            &&& forall|k: Key| k.0 != entity ==> #[trigger] node_in(after.world, k) == node_in(s.world, k)
            &&& forall|stat: Seq<char>|
                #![trigger node_in(after.world, (entity, stat))]
                node_in(after.world, (entity, stat)).base == node_in(s.world, (entity, stat)).base
            &&& forall|stat: Seq<char>|
                #![trigger node_in(after.world, (entity, stat))]
                node_in(after.world, (entity, stat)).modifiers == node_in(s.world, (entity, stat)).modifiers + left(
                    s.last_id,
                    stat,
                    parts,
                    n,
                )
        }),
    decreases n,
{
    let handles = part_handles(s.last_id, parts);
    let after = detached(from, entity, handles.take(n));
    if n == 0 {
        lemma_attached_makeup(s, entity, parts);
        assert(handles.take(0) =~= Seq::empty());
        let mid = attached(s, entity, parts);
        assert forall|k: Key| #[trigger] node_in(after.world, k) == node_in(mid.world, k) by {}
        assert forall|stat: Seq<char>|
            #![trigger node_in(after.world, (entity, stat))]
            node_in(after.world, (entity, stat)).modifiers == node_in(s.world, (entity, stat)).modifiers + left(
                s.last_id,
                stat,
                parts,
                0,
            ) by {
            assert(parts.take(0) =~= Seq::empty());
            assert(left(s.last_id, stat, parts, 0) =~= gained(s.last_id, stat, parts));
            assert(node_in(mid.world, (entity, stat)).modifiers == node_in(s.world, (entity, stat)).modifiers + gained(
                s.last_id,
                stat,
                parts,
            ));
        }
        assert forall|stat: Seq<char>|
            #![trigger node_in(after.world, (entity, stat))]
            node_in(after.world, (entity, stat)).base == node_in(s.world, (entity, stat)).base by {
            assert(node_in(mid.world, (entity, stat)).base == node_in(s.world, (entity, stat)).base);
        }
    } else {
        lemma_detach_attached(s, entity, parts, from, n - 1);
        let mid = detached(from, entity, handles.take(n - 1));
        assert(handles.take(n).drop_last() =~= handles.take(n - 1));
        let part = parts[n - 1];
        let k: Key = (entity, part.stat);
        let id = (s.last_id + n) as u64;
        assert(handles.take(n).last() == (part.stat, id));
        assert(after == uninstalled(mid, k, id));
        let old_mods = node_in(s.world, (entity, part.stat)).modifiers;
        let rest = left(s.last_id, part.stat, parts, n - 1);
        let mods = node_in(mid.world, (entity, part.stat)).modifiers;
        assert(mods == old_mods + rest);
        let g = gained(s.last_id, part.stat, parts);
        let at = gained(s.last_id, part.stat, parts.take(n - 1)).len() as int;
        assert(parts.take(n).drop_last() =~= parts.take(n - 1));
        lemma_gained_prefix(s.last_id, part.stat, parts, n);
        lemma_gained_prefix(s.last_id, part.stat, parts, n - 1);
        assert(gained(s.last_id, part.stat, parts.take(n)).len() == at + 1);
        assert(g.take(at + 1)[at] == g[at]);
        assert(g[at].id == id);
        assert(rest[0] == g[at]);
        let place = old_mods.len() as int;
        assert(mods[place] == rest[0]);
        assert forall|j: int| 0 <= j < place implies (#[trigger] mods[j]).id != id by {
            assert(mods[j] == old_mods[j]);
            assert(s.world.nodes[k].modifiers[j].id <= s.last_id);
        }
        lemma_place_at(mods, id, place);
        assert forall|stat: Seq<char>|
            #![trigger node_in(after.world, (entity, stat))]
            node_in(after.world, (entity, stat)).base == node_in(s.world, (entity, stat)).base && node_in(
                after.world,
                (entity, stat),
            ).modifiers == node_in(s.world, (entity, stat)).modifiers + left(s.last_id, stat, parts, n) by {
            assert(node_in(mid.world, (entity, stat)).base == node_in(s.world, (entity, stat)).base);
            if stat == part.stat {
                assert(left(s.last_id, stat, parts, n) =~= rest.skip(1));
                assert(mods.remove(place) =~= old_mods + rest.skip(1));
            } else {
                assert(gained(s.last_id, stat, parts.take(n)) == gained(s.last_id, stat, parts.take(n - 1)));
                assert(node_in(mid.world, (entity, stat)).modifiers == node_in(s.world, (entity, stat)).modifiers
                    + left(s.last_id, stat, parts, n - 1));
                assert(node_in(after.world, (entity, stat)) == node_in(mid.world, (entity, stat)));
            }
        }
        assert forall|x: Key| x.0 != entity implies #[trigger] node_in(after.world, x) == node_in(s.world, x) by {
            assert(node_in(mid.world, x) == node_in(s.world, x));
        }
    }
}

/// Applying a set of modifiers and removing it again leaves the stats as they
/// were.
pub proof fn law_apply_then_remove<A: Arithmetic>(
    host: A,
    s: State,
    entity: Entity,
    set: Seq<(Seq<char>, Contribution)>,
    handles: Seq<(Seq<char>, u64)>,
    applied: State,
    after: State,
)
    requires
        s.world.carriers.contains(entity),
        numbered(s.world, s.last_id),
        s.last_id + set.len() <= u64::MAX,
        set_applied(host, s, entity, set, handles, applied),
        set_removed(host, applied, entity, handles, after),
    ensures
        same_makeup(after.world, s.world),
{
    let parts = choose|parts: Seq<Part>| #[trigger]
        entries_parts(host, s.tags.tags, set, parts) && handles == part_handles(s.last_id, parts) && carried(
            host,
            attached(s, entity, parts),
            part_seeds(entity, parts),
            applied,
        );
    lemma_carried_parts(host, attached(s, entity, parts), part_seeds(entity, parts), applied);
    lemma_attached_makeup(s, entity, parts);
    let n = parts.len() as int;
    lemma_detach_attached(s, entity, parts, applied, n);
    assert(handles.take(n) =~= handles);
    let mid = detached(applied, entity, handles);
    lemma_carried_parts(host, mid, detached_seeds(applied, entity, handles), after);
    assert forall|k: Key| #[trigger] node_in(after.world, k) == node_in(s.world, k) by {
        assert(node_in(after.world, k) == node_in(mid.world, k));
        if k.0 == entity {
            let stat = k.1;
            assert(k == (entity, stat));
            assert(parts.take(n) =~= parts);
            assert(left(s.last_id, stat, parts, n) =~= Seq::empty());
            assert(node_in(mid.world, (entity, stat)).base == node_in(s.world, (entity, stat)).base);
            assert(node_in(mid.world, (entity, stat)).modifiers == node_in(s.world, (entity, stat)).modifiers + left(
                s.last_id,
                stat,
                parts,
                n,
            ));
            assert(node_in(s.world, (entity, stat)).modifiers + Seq::<Stored>::empty() =~= node_in(
                s.world,
                (entity, stat),
            ).modifiers);
            assert(node_in(mid.world, k) =~= node_in(s.world, k));
        }
    }
}

/// The modifiers of a list are in the order of their numbers.
pub open spec fn ascending(mods: Seq<Stored>) -> bool {
    forall|i: int, j: int| 0 <= i < j < mods.len() ==> (#[trigger] mods[i]).id < (#[trigger] mods[j]).id
}

/// Where a modifier of a number is found.
pub proof fn lemma_place_some(mods: Seq<Stored>, id: u64)
    ensures
        match place_of(mods, id) {
            Some(i) => 0 <= i < mods.len() && mods[i].id == id,
            None => unused(mods, id),
        },
    decreases mods.len(),
{
    if mods.len() > 0 {
        lemma_place_some(mods.drop_last(), id);
        if place_of(mods, id) is None {
            assert forall|i: int| 0 <= i < mods.len() implies (#[trigger] mods[i]).id != id by {
                if i < mods.len() - 1 {
                    assert(mods.drop_last()[i].id != id);
                }
            }
        }
    }
}

/// Taking modifiers out leaves those of a stat in order, and brings none in.
pub proof fn lemma_uninstalled(s: State, k: Key, id: u64)
    requires
        forall|x: Key| ascending(#[trigger] node_in(s.world, x).modifiers),
    ensures
        forall|x: Key| ascending(#[trigger] node_in(uninstalled(s, k, id).world, x).modifiers),
        unused(node_in(uninstalled(s, k, id).world, k).modifiers, id),
        forall|x: Key, other: u64|
            unused(node_in(s.world, x).modifiers, other) ==> #[trigger] unused(
                node_in(uninstalled(s, k, id).world, x).modifiers,
                other,
            ),
{
    let after = uninstalled(s, k, id);
    let mods = node_in(s.world, k).modifiers;
    lemma_place_some(mods, id);
    assert(ascending(mods));
    if let Some(i) = place_of(mods, id) {
        let rest = mods.remove(i);
        assert(node_in(after.world, k).modifiers == rest);
        assert forall|a: int, b: int| 0 <= a < b < rest.len() implies (#[trigger] rest[a]).id < (#[trigger] rest[b]).id
        by {
            let a1 = if a < i { a } else { a + 1 };
            let b1 = if b < i { b } else { b + 1 };
            assert(mods[a1].id < mods[b1].id);
        }
        assert forall|a: int| 0 <= a < rest.len() implies (#[trigger] rest[a]).id != id by {
            if a < i {
                assert(mods[a].id < mods[i].id);
            } else {
                assert(mods[i].id < mods[a + 1].id);
            }
        }
        assert forall|x: Key| ascending(#[trigger] node_in(after.world, x).modifiers) by {
            if x != k {
                assert(node_in(after.world, x) == node_in(s.world, x));
            }
        }
        assert forall|x: Key, other: u64| unused(node_in(s.world, x).modifiers, other) implies #[trigger] unused(
            node_in(after.world, x).modifiers,
            other,
        ) by {
            if x == k {
                assert forall|a: int| 0 <= a < rest.len() implies (#[trigger] rest[a]).id != other by {
                    let a1 = if a < i { a } else { a + 1 };
                    assert(mods[a1].id != other);
                }
            } else {
                assert(node_in(after.world, x) == node_in(s.world, x));
            }
        }
    }
}

proof fn lemma_detached_unused(s: State, entity: Entity, handles: Seq<(Seq<char>, u64)>)
    requires
        forall|x: Key| ascending(#[trigger] node_in(s.world, x).modifiers),
    ensures
        forall|x: Key| ascending(#[trigger] node_in(detached(s, entity, handles).world, x).modifiers),
        forall|i: int|
            0 <= i < handles.len() ==> unused(
                node_in(detached(s, entity, handles).world, (entity, (#[trigger] handles[i]).0)).modifiers,
                handles[i].1,
            ),
        detached(s, entity, handles).world.carriers == s.world.carriers,
    decreases handles.len(),
{
    if handles.len() > 0 {
        let rest = handles.drop_last();
        let mid = detached(s, entity, rest);
        let last = handles.last();
        lemma_detached_unused(s, entity, rest);
        lemma_uninstalled(mid, (entity, last.0), last.1);
        assert forall|i: int| 0 <= i < handles.len() implies unused(
            node_in(detached(s, entity, handles).world, (entity, (#[trigger] handles[i]).0)).modifiers,
            handles[i].1,
        ) by {
            if i < rest.len() {
                assert(rest[i] == handles[i]);
                assert(unused(node_in(mid.world, (entity, rest[i].0)).modifiers, rest[i].1));
            }
        }
    }
}

proof fn lemma_detach_nothing(s: State, entity: Entity, handles: Seq<(Seq<char>, u64)>)
    requires
        s.world.carriers.contains(entity),
        forall|i: int|
            0 <= i < handles.len() ==> unused(
                node_in(s.world, (entity, (#[trigger] handles[i]).0)).modifiers,
                handles[i].1,
            ),
    ensures
        detached(s, entity, handles) == s,
        detached_seeds(s, entity, handles) == Seq::<Key>::empty(),
    decreases handles.len(),
{
    if handles.len() > 0 {
        let rest = handles.drop_last();
        assert forall|i: int| 0 <= i < rest.len() implies unused(
            node_in(s.world, (entity, (#[trigger] rest[i]).0)).modifiers,
            rest[i].1,
        ) by {
            assert(rest[i] == handles[i]);
        }
        lemma_detach_nothing(s, entity, rest);
        let last = handles[handles.len() - 1];
        assert(unused(node_in(s.world, (entity, last.0)).modifiers, last.1));
        lemma_unused(node_in(s.world, (entity, last.0)).modifiers, last.1);
    }
}

/// Removing an applied set a second time changes nothing.
pub proof fn law_remove_is_idempotent<A: Arithmetic>(
    host: A,
    s: State,
    entity: Entity,
    handles: Seq<(Seq<char>, u64)>,
    once: State,
    twice: State,
)
    requires
        numbered(s.world, s.last_id),
        set_removed(host, s, entity, handles, once),
        set_removed(host, once, entity, handles, twice),
    ensures
        twice == once,
{
    if s.world.carriers.contains(entity) {
        let mid = detached(s, entity, handles);
        assert forall|x: Key| ascending(#[trigger] node_in(s.world, x).modifiers) by {
            if s.world.nodes.contains_key(x) {
                assert forall|i: int, j: int| 0 <= i < j < node_in(s.world, x).modifiers.len() implies (
                #[trigger] node_in(s.world, x).modifiers[i]).id < (#[trigger] node_in(s.world, x).modifiers[j]).id by {
                    assert(s.world.nodes[x].modifiers[i].id < s.world.nodes[x].modifiers[j].id);
                }
            }
        }
        lemma_detached_unused(s, entity, handles);
        lemma_carried_parts(host, mid, detached_seeds(s, entity, handles), once);
        assert forall|i: int| 0 <= i < handles.len() implies unused(
            node_in(once.world, (entity, (#[trigger] handles[i]).0)).modifiers,
            handles[i].1,
        ) by {
            assert(node_in(once.world, (entity, handles[i].0)) == node_in(mid.world, (entity, handles[i].0)));
        }
        lemma_detach_nothing(once, entity, handles);
        law_recompute_nothing(host, once, twice);
    }
}

/// Removing a set from an entity that carries no stats changes nothing.
pub proof fn law_remove_from_a_gone_entity_is_quiet<A: Arithmetic>(
    host: A,
    s: State,
    entity: Entity,
    handles: Seq<(Seq<char>, u64)>,
    after: State,
)
    requires
        !s.world.carriers.contains(entity),
        set_removed(host, s, entity, handles, after),
    ensures
        after == s,
{
}

/// Worlds with the same makeup have the same dependency edges.
pub proof fn law_same_makeup_same_edges(w1: World, w2: World, k: Key)
    requires
        same_makeup(w1, w2),
    ensures
        sources(w1, k) == sources(w2, k),
        dependents(w1, k) == dependents(w2, k),
{
    assert forall|d: Key| #[trigger] sources(w1, d) == sources(w2, d) by {
        assert(node_in(w1, d) == node_in(w2, d));
        lemma_same_modifier_sources(w1, w2, d.0, node_in(w1, d).modifiers);
    }
    assert forall|d: Key| dependents(w1, k).contains(d) <==> dependents(w2, k).contains(d) by {
        assert(sources(w1, d) == sources(w2, d));
    }
    assert(dependents(w1, k) =~= dependents(w2, k));
}

/// Applying a set of modifiers leaves the reductions alone.
pub proof fn lemma_applied_rules<A: Arithmetic>(
    host: A,
    s: State,
    entity: Entity,
    set: Seq<(Seq<char>, Contribution)>,
    handles: Seq<(Seq<char>, u64)>,
    after: State,
)
    requires
        set_applied(host, s, entity, set, handles, after),
    ensures
        after.rules == s.rules,
{
    let parts = choose|parts: Seq<Part>| #[trigger]
        entries_parts(host, s.tags.tags, set, parts) && handles == part_handles(s.last_id, parts) && carried(
            host,
            attached(s, entity, parts),
            part_seeds(entity, parts),
            after,
        );
    lemma_attached(s, entity, parts);
}

/// Removing an applied set leaves the reductions alone.
pub proof fn lemma_removed_rules<A: Arithmetic>(
    host: A,
    s: State,
    entity: Entity,
    handles: Seq<(Seq<char>, u64)>,
    after: State,
)
    requires
        set_removed(host, s, entity, handles, after),
    ensures
        after.rules == s.rules,
{
    if s.world.carriers.contains(entity) {
        lemma_detached(s, entity, handles);
    }
}

/// Removing an applied set gives out no numbers.
pub proof fn lemma_removed_ids<A: Arithmetic>(
    host: A,
    s: State,
    entity: Entity,
    handles: Seq<(Seq<char>, u64)>,
    after: State,
)
    requires
        set_removed(host, s, entity, handles, after),
    ensures
        after.last_id == s.last_id,
{
    if s.world.carriers.contains(entity) {
        lemma_detached_ids(s, entity, handles);
        lemma_carried_parts(host, detached(s, entity, handles), detached_seeds(s, entity, handles), after);
    }
}

proof fn lemma_detached_ids(s: State, entity: Entity, handles: Seq<(Seq<char>, u64)>)
    ensures
        detached(s, entity, handles).last_id == s.last_id,
    decreases handles.len(),
{
    if handles.len() > 0 {
        lemma_detached_ids(s, entity, handles.drop_last());
    }
}

// -- links and entities -----------------------------------------------------

/// Pointing a link elsewhere changes where it points, and no stat.
pub proof fn law_relink_moves_the_link<A: Arithmetic>(
    host: A,
    s: State,
    entity: Entity,
    name: Seq<char>,
    target: Option<Entity>,
    after: State,
)
    requires
        relinked(host, s, entity, name, target, after),
    ensures
        after.world.nodes == s.world.nodes,
        after.world.carriers == s.world.carriers,
        linked(after.world, entity, Some(name)) == target,
        forall|k: Key| k != (entity, name) ==> (#[trigger] after.world.links.contains_key(k)
            <==> s.world.links.contains_key(k)) && (s.world.links.contains_key(k) ==> after.world.links[k]
            == s.world.links[k]),
{
    if linked(s.world, entity, Some(name)) != target {
        let mid = State { world: with_link(s.world, entity, name, target), ..s };
        let seeds = choose|seeds: Seq<Key>| #[trigger]
            carried(host, mid, seeds, after) && seeds.no_duplicates() && forall|k: Key| #[trigger]
                seeds.contains(k) <==> k.0 == entity && reads_through(s.world, k, name);
        lemma_carried_parts(host, mid, seeds, after);
    }
}

/// Pointing a link at where it points changes nothing.
pub proof fn law_relink_to_current_is_quiet<A: Arithmetic>(
    host: A,
    s: State,
    entity: Entity,
    name: Seq<char>,
    after: State,
)
    requires
        relinked(host, s, entity, name, linked(s.world, entity, Some(name)), after),
    ensures
        after == s,
{
}

/// Pointing a link at one target and then at another leaves the stats as
/// pointing it at the second alone does.
pub proof fn law_last_link_decides<A: Arithmetic>(
    host: A,
    s: State,
    entity: Entity,
    name: Seq<char>,
    first: Option<Entity>,
    second: Option<Entity>,
    between: State,
    after: State,
    alone: State,
)
    requires
        relinked(host, s, entity, name, first, between),
        relinked(host, between, entity, name, second, after),
        relinked(host, s, entity, name, second, alone),
    ensures
        same_makeup(after.world, alone.world),
{
    law_relink_moves_the_link(host, s, entity, name, first, between);
    law_relink_moves_the_link(host, between, entity, name, second, after);
    law_relink_moves_the_link(host, s, entity, name, second, alone);
    assert(after.world.links =~= alone.world.links) by {
        assert(linked(after.world, entity, Some(name)) == linked(alone.world, entity, Some(name)));
    }
}

/// Setting a link that was not set and clearing it again leaves the stats as
/// they were.
pub proof fn law_link_then_clear<A: Arithmetic>(
    host: A,
    s: State,
    entity: Entity,
    name: Seq<char>,
    target: Entity,
    set: State,
    after: State,
)
    requires
        linked(s.world, entity, Some(name)) is None,
        relinked(host, s, entity, name, Some(target), set),
        relinked(host, set, entity, name, None, after),
    ensures
        same_makeup(after.world, s.world),
{
    law_relink_moves_the_link(host, s, entity, name, Some(target), set);
    law_relink_moves_the_link(host, set, entity, name, None, after);
    assert(after.world.links =~= s.world.links);
}

/// Taking the stats of an entity out releases every edge that they made, and
/// leaves what the stats of other entities read.
pub proof fn law_teardown_releases_edges<A: Arithmetic>(host: A, s: State, entity: Entity, after: State)
    requires
        consistent(s.world),
        torn_down(host, s, entity, after),
    ensures
        forall|a: Key, d: Key| d.0 == entity ==> !#[trigger] feeds(after.world, a, d),
        forall|d: Key| d.0 != entity ==> #[trigger] sources(after.world, d) == sources(s.world, d),
{
    lemma_torn_down_frame(host, s, entity, after);
    assert forall|a: Key, d: Key| d.0 == entity implies !#[trigger] feeds(after.world, a, d) by {
        assert(d == (entity, d.1));
        assert(!after.world.nodes.contains_key((entity, d.1)));
        assert(node_in(after.world, d).modifiers.len() == 0);
    }
    assert forall|d: Key| d.0 != entity implies #[trigger] sources(after.world, d) == sources(s.world, d) by {
        assert(node_in(after.world, d) == node_in(s.world, d));
        lemma_same_modifier_sources(after.world, s.world, d.0, node_in(s.world, d).modifiers);
    }
}

/// Putting stats on an entity that carried none and taking them out again
/// leaves all stats as they were.
pub proof fn law_insert_then_teardown<A: Arithmetic>(
    host: A,
    s: State,
    entity: Entity,
    pending: Seq<Pending>,
    faults: Seq<Fault>,
    inserted: State,
    after: State,
)
    requires
        consistent(s.world),
        consistent(inserted.world),
        !s.world.carriers.contains(entity),
        stats_inserted(host, s, entity, pending, faults, inserted),
        torn_down(host, inserted, entity, after),
    ensures
        same_makeup(after.world, s.world),
{
    let (mid, done) = choose|mid: State, done: Drained|
        #![trigger torn_down(host, s, entity, mid), carried(host, done.state, done.seeds, inserted)]
        torn_down(host, s, entity, mid) && drained(host, with_carrier(mid, entity), entity, pending, done) && carried(
            host,
            done.state,
            done.seeds,
            inserted,
        ) && faults == done.faults;
    lemma_drained(host, with_carrier(mid, entity), entity, pending, done);
    lemma_carried_parts(host, done.state, done.seeds, inserted);
    lemma_torn_down_frame(host, inserted, entity, after);
    assert forall|k: Key| #[trigger] node_in(after.world, k) == node_in(s.world, k) by {
        if k.0 == entity {
            assert(k == (entity, k.1));
            assert(!after.world.nodes.contains_key((entity, k.1)));
            if s.world.nodes.contains_key(k) {
                assert(s.world.carriers.contains(k.0));
            }
        } else {
            assert(node_in(done.state.world, k) == node_in(with_carrier(mid, entity).world, k));
        }
    }
    assert(after.world.links =~= s.world.links) by {
        assert forall|k: Key| after.world.links.contains_key(k) <==> s.world.links.contains_key(k) by {
            if s.world.links.contains_key(k) {
                assert(s.world.carriers.contains(k.0));
            }
        }
    }
    assert(after.world.carriers =~= s.world.carriers);
}

// -- reads ------------------------------------------------------------------

/// The modifiers whose tags are all among those of a query.
pub open spec fn admitted(mods: Seq<Stored>, tags: u64) -> Seq<Stored>
    decreases mods.len(),
{
    if mods.len() == 0 {
        Seq::empty()
    } else if subset(mods.last().tags, tags) {
        admitted(mods.drop_last(), tags).push(mods.last())
    } else {
        admitted(mods.drop_last(), tags)
    }
}

/// What the modifiers of a stat contribute to a query is what those contribute
/// whose tags are all among those of the query.
pub proof fn law_only_admitted_modifiers_take_part<A: Arithmetic>(
    host: A,
    s: State,
    path: Seq<Query>,
    q: Query,
    mods: Seq<Stored>,
    vals: Seq<Scalar>,
)
    requires
        consistent(s.world),
    ensures
        contributions(scene_of(host, s), path, q, mods, vals) <==> contributions(
            scene_of(host, s),
            path,
            q,
            admitted(mods, q.tags),
            vals,
        ),
    decreases mods.len(),
{
    if mods.len() > 0 {
        let rest = mods.drop_last();
        if subset(mods.last().tags, q.tags) {
            assert(admitted(mods, q.tags).drop_last() =~= admitted(rest, q.tags));
            if vals.len() > 0 {
                law_only_admitted_modifiers_take_part(host, s, path, q, rest, vals.drop_last());
            }
        } else {
            law_only_admitted_modifiers_take_part(host, s, path, q, rest, vals);
        }
    }
}

/// A stat that does not exist reads as the identity of its reduction: zero
/// for a sum, one for a product.
pub proof fn law_missing_stats_read_as_identity<A: Arithmetic>(
    host: A,
    s: State,
    path: Seq<Query>,
    q: Query,
    v: Scalar,
)
    requires
        consistent(s.world),
        !s.world.nodes.contains_key(q.key),
        stat_value(scene_of(host, s), path, q, v),
    ensures
        reduction_of(s.rules, q.key.1) == Reduction::Sum ==> v == ZERO,
        reduction_of(s.rules, q.key.1) == Reduction::Product ==> v == ONE,
{
}

/// A stat without a base value and without modifiers reads as the identity of
/// its reduction too.
pub proof fn law_empty_stats_read_as_identity<A: Arithmetic>(host: A, s: State, q: Query, v: Scalar)
    requires
        consistent(s.world),
        node_in(s.world, q.key) == empty_node(),
        !s.world.cache.contains_key(q),
        stat_value(scene_of(host, s), Seq::empty(), q, v),
    ensures
        reduction_of(s.rules, q.key.1) == Reduction::Sum ==> v == ZERO,
        reduction_of(s.rules, q.key.1) == Reduction::Product ==> v == ONE,
{
    if s.world.nodes.contains_key(q.key) {
        let sc = scene_of(host, s);
        let path = Seq::<Query>::empty();
        let vals = choose|vals: Seq<Scalar>|
            #[trigger] reduced(host, reduction_of(s.rules, q.key.1), with_base(None, vals), v) && contributions(
                sc,
                path.push(q),
                q,
                Seq::empty(),
                vals,
            );
        assert(vals.len() == 0);
    }
}

/// Reading again gives the value that was read.
pub proof fn law_repeated_reads_agree<A: Arithmetic>(host: A, s: State, q: Query, v: Scalar, again: Scalar)
    requires
        consistent(s.world),
        s.world.carriers.contains(q.key.0),
        stat_value(scene_of(host, s), Seq::empty(), q, v),
        stat_value(
            scene_of(host, State { world: remembered(s.world, q, v), ..s }),
            Seq::empty(),
            q,
            again,
        ),
    ensures
        again == v,
{
}

/// A reference through a link that is not set reads as the identity of the
/// reduction of its stat.
pub proof fn law_dangling_links_read_as_identity<A: Arithmetic>(
    host: A,
    s: State,
    context: Context,
    link: Link,
    v: Scalar,
)
    requires
        consistent(s.world),
        target_of(s.world, context, link.source) is None,
        formula_value(scene_of(host, s), Seq::empty(), context, Formula::Stat(link), v),
    ensures
        reduction_of(s.rules, link.stat) == Reduction::Sum ==> v == ZERO,
        reduction_of(s.rules, link.stat) == Reduction::Product ==> v == ONE,
{
}

// -- expressions ------------------------------------------------------------

/// Dividing by next to nothing gives zero.
pub proof fn law_division_by_nothing_is_zero<A: Arithmetic>(
    host: A,
    op: BinaryOp,
    x: Scalar,
    y: Scalar,
    v: Scalar,
)
    requires
        op == BinaryOp::Div || op == BinaryOp::Rem,
        below(absolute(y), DIV_EPSILON),
        binary_value(host, op, x, y, v),
    ensures
        v == ZERO,
{
}

/// Powers and square roots are finite.
pub proof fn law_powers_and_roots_are_finite<A: Arithmetic>(
    host: A,
    x: Scalar,
    y: Scalar,
    power: Scalar,
    args: Seq<Scalar>,
    root: Scalar,
)
    requires
        binary_value(host, BinaryOp::Pow, x, y, power),
        call_value(host, Func::Sqrt, args, root),
    ensures
        finite(power),
        finite(root),
{
}

/// Whether an operator compares or combines truth values.
pub open spec fn decides(op: BinaryOp) -> bool {
    match op {
        BinaryOp::Add | BinaryOp::Sub | BinaryOp::Mul | BinaryOp::Div | BinaryOp::Rem | BinaryOp::Pow => false,
        _ => true,
    }
}

/// Comparisons, `&&`, `||` and `!` come to one or zero.
pub proof fn law_decisions_are_one_or_zero<A: Arithmetic>(
    host: A,
    s: State,
    path: Seq<Query>,
    context: Context,
    rule: Rule,
    v: Scalar,
)
    requires
        consistent(s.world),
        formula_value(scene_of(host, s), path, context, rule, v),
        match rule {
            Formula::Unary(op, _) => op == UnaryOp::Not,
            Formula::Binary(op, _, _) => decides(op),
            _ => false,
        },
    ensures
        v == ONE || v == ZERO,
{
    let sc = scene_of(host, s);
    if let Formula::Binary(op, a, b) = rule {
        let x = choose|x: Scalar| #[trigger]
            got(x) && formula_value(sc, path, context, *a, x) && right_value(sc, path, context, op, x, *b, v);
        assert(right_value(sc, path, context, op, x, *b, v));
    }
}

// -- instant effects --------------------------------------------------------

/// Operations of one effect on the same base value stack: a later one starts
/// from what the one before it leaves.
pub proof fn law_operations_stack(world: World, outs: Seq<Outcome>, i: int, j: int)
    requires
        0 <= i < j <= outs.len(),
        forall|m: int| i < m < j ==> (#[trigger] outs[m]).key != outs[i].key,
    ensures
        starting(world, outs.take(j), outs[i].key) == outs[i].new_base,
    decreases j,
{
    let front = outs.take(j);
    if i == j - 1 {
        assert(front.last() == outs[i]);
    } else {
        assert(front.last() == outs[j - 1]);
        assert(outs[j - 1].key != outs[i].key);
        assert(front.drop_last() =~= outs.take(j - 1));
        law_operations_stack(world, outs, i, j - 1);
    }
}

/// Writing outcomes changes base values alone.
pub proof fn lemma_written_makeup(s: State, outs: Seq<Outcome>)
    ensures
        written(s, outs).world.carriers == s.world.carriers,
        written(s, outs).world.links == s.world.links,
        forall|k: Key| #[trigger] node_in(written(s, outs).world, k).modifiers == node_in(s.world, k).modifiers,
        forall|k: Key|
            latest(outs, k) is None ==> #[trigger] node_in(written(s, outs).world, k) == node_in(s.world, k),
        forall|k: Key|
            latest(outs, k) matches Some(v) ==> (#[trigger] node_in(written(s, outs).world, k).base matches Some(base)
                && (base == v || equals(base, v))),
    decreases outs.len(),
{
    if outs.len() > 0 {
        let before = written(s, outs.drop_last());
        let out = outs.last();
        lemma_written_makeup(s, outs.drop_last());
        assert forall|k: Key| #[trigger]
            node_in(written(s, outs).world, k).modifiers == node_in(s.world, k).modifiers by {
            assert(node_in(before.world, k).modifiers == node_in(s.world, k).modifiers);
        }
        assert forall|k: Key| latest(outs, k) is None implies #[trigger] node_in(written(s, outs).world, k) == node_in(
            s.world,
            k,
        ) by {
            assert(node_in(before.world, k) == node_in(s.world, k));
        }
        assert forall|k: Key|
            latest(outs, k) matches Some(v) ==> (#[trigger] node_in(written(s, outs).world, k).base matches Some(base)
                && (base == v || equals(base, v))) by {
            if k != out.key {
                assert(node_in(written(s, outs).world, k) == node_in(before.world, k));
            }
        }
    }
}

/// An instant effect writes base values and leaves no modifiers: each stat
/// that it addresses ends with the base value of its last outcome there, and
/// all else stays.
pub proof fn law_effects_write_bases_only<A: Arithmetic>(
    host: A,
    s: State,
    roles: Map<Seq<char>, Entity>,
    steps: Seq<Step>,
    outs: Seq<Outcome>,
    after: State,
)
    requires
        effect_applied(host, s, roles, steps, outs, after),
    ensures
        after.world.carriers == s.world.carriers,
        after.world.links == s.world.links,
        forall|k: Key| #[trigger] node_in(after.world, k).modifiers == node_in(s.world, k).modifiers,
        forall|k: Key| latest(outs, k) is None ==> #[trigger] node_in(after.world, k) == node_in(s.world, k),
        forall|k: Key|
            latest(outs, k) matches Some(v) ==> (#[trigger] node_in(after.world, k).base matches Some(base) && (base
                == v || equals(base, v))),
{
    let mid = written(s, outs);
    lemma_written_makeup(s, outs);
    lemma_carried_parts(host, mid, written_seeds(s, outs), after);
    assert forall|k: Key| #[trigger] node_in(after.world, k) == node_in(mid.world, k) by {}
}

} // verus!
