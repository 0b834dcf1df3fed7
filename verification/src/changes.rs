//! What is recomputed and reported after a change, what a read leaves behind,
//! and how starting stats come to an entity.

use crate::entity::Entity;
use crate::error::Fault;
use crate::faults::{law_modifiers_are_owed, ready};
use crate::graph::{dependents, feeds};
use crate::laws::{law_recompute_is_exact, lemma_carried_parts};
use crate::meaning::{law_numbers_compare_by_rank, number, rank};
use crate::modifier::{Amount, Contribution};
use crate::parser::path_parsed;
use crate::recompute::{forget, has_moved, refreshed, renewed, settled};
use crate::scalar::{Arithmetic, Scalar};
use crate::schedule::{appended, discovered, distinct, leads, precedes, reached, scheduled, waits};
use crate::state::{
    carried, drained, drained_entry, installed, modifier_fault, modifier_part, owners, remembered, stats_inserted,
    torn_down, with_carrier, with_seed, Drained, Part, State,
};
use crate::stats::{queued, seeded, Pending, Rules, Stored};
use crate::world::{consistent, Key, Query, World};
use crate::writes::{
    base_at, law_stats_depend_on_what_they_mention, law_torn_down_entities_are_gone, made_of, mentions, modifiers_at,
    untouched,
};
use vstd::prelude::*;

verus! {

// -- recomputation ----------------------------------------------------------

/// Whether one of the modifiers of stat `d` has a reference to stat `a`.
pub open spec fn reads(world: World, a: Key, d: Key) -> bool {
    exists|i: int|
        0 <= i < modifiers_at(world, d).len() && mentions(world, d.0, #[trigger] modifiers_at(world, d)[i], a)
}

/// A chain of stats from one of `seeds` to `k`, in which each is read by the
/// next.
pub open spec fn chained(world: World, seeds: Seq<Key>, chain: Seq<Key>, k: Key) -> bool {
    &&& chain.len() > 0
    &&& seeds.contains(chain[0])
    &&& chain[chain.len() - 1] == k
    &&& forall|i: int| #![trigger chain[i]] 0 < i < chain.len() ==> reads(world, chain[i - 1], chain[i])
}

/// Whether a stat is one of `seeds`, or reads one of them, itself or through
/// others.
pub open spec fn downstream(world: World, seeds: Seq<Key>, k: Key) -> bool {
    exists|chain: Seq<Key>| #[trigger] chained(world, seeds, chain, k)
}

/// Whether a cached value of stat `k` is another number after than it was
/// before; what is not a number is no number again.
pub open spec fn displaced(before: World, after: World, k: Key) -> bool {
    exists|q: Query|
        q.key == k && #[trigger] before.cache.contains_key(q) && !(number(before.cache[q]) && number(after.cache[q])
            && rank(before.cache[q]) == rank(after.cache[q]))
}

proof fn lemma_downstream(world: World, seeds: Seq<Key>, k: Key)
    ensures
        reached(world, seeds, k) <==> downstream(world, seeds, k),
{
    if reached(world, seeds, k) {
        let chain = choose|chain: Seq<Key>| #[trigger] leads(world, seeds, chain) && chain.last() == k;
        assert forall|i: int| #![trigger chain[i]] 0 < i < chain.len() implies reads(world, chain[i - 1], chain[i]) by {
            assert(feeds(world, chain[i - 1], chain[i]));
            law_stats_depend_on_what_they_mention(world, chain[i - 1], chain[i]);
        }
        assert(chained(world, seeds, chain, k));
    }
    if downstream(world, seeds, k) {
        let chain = choose|chain: Seq<Key>| #[trigger] chained(world, seeds, chain, k);
        assert forall|i: int| 0 < i < chain.len() implies feeds(world, chain[i - 1], #[trigger] chain[i]) by {
            law_stats_depend_on_what_they_mention(world, chain[i - 1], chain[i]);
        }
        assert(leads(world, seeds, chain));
    }
}

proof fn lemma_displaced(before: World, after: World, k: Key)
    ensures
        has_moved(before, after, k) <==> displaced(before, after, k),
{
    assert forall|q: Query| #[trigger] before.cache.contains_key(q) implies (crate::scalar::equals(
        before.cache[q],
        after.cache[q],
    ) <==> number(before.cache[q]) && number(after.cache[q]) && rank(before.cache[q]) == rank(after.cache[q])) by {
        law_numbers_compare_by_rank(before.cache[q], after.cache[q]);
    }
}

/// A recomputation reports each stat that is downstream of a seed and has a
/// cached value that is another number than before, once, after what was
/// reported earlier; and it marks the entities of these, and no others. Other
/// cached values stay, and what is cached stays cached.
pub proof fn law_changes_are_reported<A: Arithmetic>(host: A, mid: State, seeds: Seq<Key>, after: State)
    requires
        carried(host, mid, seeds, after),
    ensures
        mid.events.len() <= after.events.len(),
        after.events.take(mid.events.len() as int) == mid.events,
        after.events.skip(mid.events.len() as int).no_duplicates(),
        forall|k: Key| #[trigger]
            after.events.skip(mid.events.len() as int).contains(k) <==> downstream(mid.world, seeds, k) && displaced(
                mid.world,
                after.world,
                k,
            ),
        forall|e: Entity| #[trigger]
            after.dirty.contains(e) <==> mid.dirty.contains(e) || exists|i: int|
                mid.events.len() <= i < after.events.len() && (#[trigger] after.events[i]).0 == e,
        forall|q: Query| #[trigger] after.world.cache.contains_key(q) <==> mid.world.cache.contains_key(q),
        forall|q: Query|
            mid.world.cache.contains_key(q) && !downstream(mid.world, seeds, q.key)
                ==> #[trigger] after.world.cache[q] == mid.world.cache[q],
        after.world.nodes == mid.world.nodes,
        after.world.links == mid.world.links,
        after.world.carriers == mid.world.carriers,
        after.tags == mid.tags,
        after.rules == mid.rules,
        after.last_id == mid.last_id,
{
    law_recompute_is_exact(host, mid, seeds, after);
    lemma_carried_parts(host, mid, seeds, after);
    let moved = choose|moved: Seq<Key>| #[trigger]
        moved.no_duplicates() && after.events == mid.events + moved && after.dirty == mid.dirty.union(owners(moved))
            && forall|k: Key| #[trigger]
            moved.contains(k) <==> reached(mid.world, seeds, k) && has_moved(mid.world, after.world, k);
    let n = mid.events.len() as int;
    assert(after.events.take(n) =~= mid.events);
    assert(after.events.skip(n) =~= moved);
    assert forall|k: Key| #[trigger] moved.contains(k) <==> downstream(mid.world, seeds, k) && displaced(
        mid.world,
        after.world,
        k,
    ) by {
        lemma_downstream(mid.world, seeds, k);
        lemma_displaced(mid.world, after.world, k);
    }
    assert forall|e: Entity| #[trigger] after.dirty.contains(e) <==> mid.dirty.contains(e) || exists|i: int|
        n <= i < after.events.len() && (#[trigger] after.events[i]).0 == e by {
        if owners(moved).contains(e) {
            let i = choose|i: int| 0 <= i < moved.len() && (#[trigger] moved[i]).0 == e;
            assert(after.events[n + i].0 == e);
        }
        if exists|i: int| n <= i < after.events.len() && (#[trigger] after.events[i]).0 == e {
            let i = choose|i: int| n <= i < after.events.len() && (#[trigger] after.events[i]).0 == e;
            assert(moved[i - n].0 == e);
        }
    }
    assert forall|q: Query|
        mid.world.cache.contains_key(q) && !downstream(mid.world, seeds, q.key) implies #[trigger] after.world.cache[q]
        == mid.world.cache[q] by {
        lemma_downstream(mid.world, seeds, q.key);
    }
    assert forall|q: Query| #[trigger] after.world.cache.contains_key(q) <==> mid.world.cache.contains_key(q) by {
        assert(after.world.cache.dom().contains(q) <==> mid.world.cache.dom().contains(q));
    }
}

/// Whether the stats of a world can be put on levels, each above those that it
/// reads.
pub open spec fn levelled(world: World, level: spec_fn(Key) -> nat) -> bool {
    forall|a: Key, d: Key| #[trigger] reads(world, a, d) ==> level(a) < level(d)
}

/// Whether `part` is a list of members of `whole`, in its order.
spec fn within(part: Seq<Key>, whole: Seq<Key>, places: Seq<int>) -> bool {
    &&& places.len() == part.len()
    &&& forall|i: int| 0 <= i < part.len() ==> 0 <= #[trigger] places[i] < whole.len() && whole[places[i]] == part[i]
    &&& forall|i: int, j: int| 0 <= i < j < part.len() ==> #[trigger] places[i] < #[trigger] places[j]
}

proof fn lemma_moved_places<A: Arithmetic>(
    host: A,
    rules: Rules,
    before: World,
    cleared: World,
    order: Seq<Key>,
    after: World,
    moved: Seq<Key>,
) -> (places: Seq<int>)
    requires
        refreshed(host, rules, before, cleared, order, after, moved),
    ensures
        within(moved, order, places),
    decreases order.len(),
{
    if order.len() == 0 {
        Seq::empty()
    } else {
        let last = order.last();
        let rest = order.drop_last();
        let mid = choose|mid: World| #[trigger]
            renewed(host, rules, before, last, mid, after) && if has_moved(before, after, last) {
                &&& moved.len() > 0
                &&& moved.last() == last
                &&& refreshed(host, rules, before, cleared, rest, mid, moved.drop_last())
            } else {
                refreshed(host, rules, before, cleared, rest, mid, moved)
            };
        if has_moved(before, after, last) {
            let m = moved.drop_last();
            let places = lemma_moved_places(host, rules, before, cleared, rest, mid, m);
            let all = places.push(order.len() - 1);
            assert forall|i: int| 0 <= i < moved.len() implies 0 <= #[trigger] all[i] < order.len() && order[all[i]]
                == moved[i] by {
                if i < m.len() {
                    assert(0 <= places[i] < rest.len() && rest[places[i]] == m[i]);
                }
            }
            assert forall|i: int, j: int| 0 <= i < j < moved.len() implies #[trigger] all[i] < #[trigger] all[j] by {
                assert(0 <= places[i] < rest.len());
                if j < m.len() {
                    assert(places[i] < places[j]);
                }
            }
            all
        } else {
            let places = lemma_moved_places(host, rules, before, cleared, rest, mid, moved);
            assert forall|i: int| 0 <= i < moved.len() implies 0 <= #[trigger] places[i] < order.len()
                && order[places[i]] == moved[i] by {
                assert(0 <= places[i] < rest.len() && rest[places[i]] == moved[i]);
            }
            places
        }
    }
}

proof fn lemma_levels_come_first(
    world: World,
    seeds: Seq<Key>,
    order: Seq<Key>,
    free: int,
    level: spec_fn(Key) -> nat,
    j: int,
)
    requires
        scheduled(world, seeds, order, free),
        levelled(world, level),
        0 <= j < order.len(),
    ensures
        j < free,
    decreases level(order[j]),
{
    if j >= free {
        assert(waits(world, order, free, order[j]));
        let i = choose|i: int| free <= i < order.len() && feeds(world, #[trigger] order[i], order[j]);
        law_stats_depend_on_what_they_mention(world, order[i], order[j]);
        assert(reads(world, order[i], order[j]));
        lemma_levels_come_first(world, seeds, order, free, level, i);
    }
}

/// Where no stat reads itself, in a circle or directly, changes are reported in
/// the order of reading: a stat after those that it reads.
pub proof fn law_changes_come_in_the_order_of_reading<A: Arithmetic>(
    host: A,
    mid: State,
    seeds: Seq<Key>,
    after: State,
    level: spec_fn(Key) -> nat,
)
    requires
        carried(host, mid, seeds, after),
        levelled(mid.world, level),
    ensures
        forall|i: int, j: int|
            #![trigger reads(mid.world, after.events[i], after.events[j])]
            mid.events.len() <= i < after.events.len() && mid.events.len() <= j < after.events.len() && reads(
                mid.world,
                after.events[i],
                after.events[j],
            ) ==> i < j,
{
    let moved = choose|moved: Seq<Key>| #[trigger]
        settled(host, mid.rules, mid.world, seeds, after.world, moved) && after == (State {
            world: World { cache: after.world.cache, ..mid.world },
            events: mid.events + moved,
            dirty: mid.dirty.union(owners(moved)),
            ..mid
        });
    let (order, free) = choose|order: Seq<Key>, free: int|
        #[trigger] scheduled(mid.world, seeds, order, free) && refreshed(
            host,
            mid.rules,
            mid.world,
            forget(mid.world, order),
            order,
            after.world,
            moved,
        );
    let places = lemma_moved_places(
        host,
        mid.rules,
        mid.world,
        forget(mid.world, order),
        order,
        after.world,
        moved,
    );
    let n = mid.events.len() as int;
    assert forall|i: int, j: int|
        #![trigger reads(mid.world, after.events[i], after.events[j])]
        n <= i < after.events.len() && n <= j < after.events.len() && reads(
            mid.world,
            after.events[i],
            after.events[j],
        ) implies i < j by {
        let a = places[i - n];
        let b = places[j - n];
        assert(moved[i - n] == after.events[i] && moved[j - n] == after.events[j]);
        lemma_levels_come_first(mid.world, seeds, order, free, level, b);
        law_stats_depend_on_what_they_mention(mid.world, order[a], order[b]);
        assert(feeds(mid.world, order[a], order[b]));
        assert(a < b);
        if j < i {
            assert(places[j - n] < places[i - n]);
        }
    }
}

/// Whether a stat reads none that is downstream of `seeds`.
pub open spec fn unaffected(world: World, seeds: Seq<Key>, k: Key) -> bool {
    forall|a: Key| #[trigger] downstream(world, seeds, a) ==> !reads(world, a, k)
}

proof fn lemma_distinct(list: Seq<Key>, i: int, j: int)
    requires
        0 <= i < j < list.len(),
        forall|k: int| 0 <= k < j ==> #[trigger] list[k] != list[j],
    ensures
        exists|p: int, q: int|
            0 <= p < q < distinct(list).len() && #[trigger] distinct(list)[p] == list[i] && #[trigger] distinct(list)[q]
                == list[j],
    decreases list.len(),
{
    let rest = list.drop_last();
    let some = distinct(rest);
    if j < rest.len() {
        assert forall|k: int| 0 <= k < j implies #[trigger] rest[k] != rest[j] by {
            assert(rest[k] == list[k] && rest[j] == list[j]);
        }
        lemma_distinct(rest, i, j);
        let (p, q) = choose|p: int, q: int|
            0 <= p < q < some.len() && #[trigger] some[p] == rest[i] && #[trigger] some[q] == rest[j];
        assert(distinct(list)[p] == list[i] && distinct(list)[q] == list[j]);
    } else {
        lemma_distinct_members(rest, rest[i]);
        lemma_distinct_members(rest, list[j]);
        assert(rest[i] == list[i]);
        assert(!rest.contains(list.last())) by {
            if rest.contains(list.last()) {
                let k = choose|k: int| 0 <= k < rest.len() && rest[k] == list.last();
                assert(list[k] == list[j]);
            }
        }
        assert(rest.contains(rest[i]));
        let p = choose|p: int| 0 <= p < some.len() && some[p] == rest[i];
        let q = some.len() as int;
        assert(distinct(list)[p] == list[i] && distinct(list)[q] == list[j]);
    }
}

proof fn lemma_distinct_members(list: Seq<Key>, k: Key)
    ensures
        distinct(list).contains(k) <==> list.contains(k),
    decreases list.len(),
{
    if list.len() > 0 {
        let rest = list.drop_last();
        let some = distinct(rest);
        lemma_distinct_members(rest, k);
        lemma_distinct_members(rest, list.last());
        assert(list =~= rest.push(list.last()));
        if list.contains(k) {
            let i = choose|i: int| 0 <= i < list.len() && list[i] == k;
            if i < rest.len() {
                assert(rest[i] == k);
                let p = choose|p: int| 0 <= p < some.len() && some[p] == k;
                assert(distinct(list)[p] == k);
            } else if !some.contains(k) {
                assert(distinct(list)[some.len() as int] == k);
            }
        }
        if distinct(list).contains(k) {
            let p = choose|p: int| 0 <= p < distinct(list).len() && distinct(list)[p] == k;
            if p < some.len() {
                assert(some[p] == k);
                let i = choose|i: int| 0 <= i < rest.len() && rest[i] == k;
                assert(list[i] == k);
            } else {
                assert(list[list.len() - 1] == k);
            }
        }
    }
}

/// Two seeds that are not affected themselves are recomputed in their order.
proof fn lemma_seeds_in_order(world: World, seeds: Seq<Key>, order: Seq<Key>, free: int, i: int, j: int, p: int, q: int)
    requires
        scheduled(world, seeds, order, free),
        0 <= i < j < seeds.len(),
        forall|k: int| 0 <= k < j ==> #[trigger] seeds[k] != seeds[j],
        unaffected(world, seeds, seeds[i]),
        unaffected(world, seeds, seeds[j]),
        0 <= p < order.len(),
        0 <= q < order.len(),
        order[p] == seeds[i],
        order[q] == seeds[j],
    ensures
        p < q,
{
    let found = choose|found: Seq<Key>| #[trigger]
        discovered(world, seeds, found) && crate::schedule::queued(world, found, order, free) && appended(
            found,
            order,
            free,
        );
    lemma_distinct(seeds, i, j);
    let (a, b) = choose|a: int, b: int|
        0 <= a < b < distinct(seeds).len() && #[trigger] distinct(seeds)[a] == seeds[i] && #[trigger] distinct(
            seeds,
        )[b] == seeds[j];
    let m = distinct(seeds).len() as int;
    assert(found.take(m)[a] == found[a] && found.take(m)[b] == found[b]);
    assert(found.index_of(seeds[i]) == a) by {
        assert(found.contains(seeds[i]));
    }
    assert(found.index_of(seeds[j]) == b) by {
        assert(found.contains(seeds[j]));
    }
    lemma_unaffected_free(world, seeds, order, free, p);
    lemma_unaffected_free(world, seeds, order, free, q);
    if q < p {
        assert(!waits(world, order, 0, order[p]));
        assert(precedes(found, order[q], order[p]));
    }
}

proof fn lemma_unaffected_free(world: World, seeds: Seq<Key>, order: Seq<Key>, free: int, p: int)
    requires
        scheduled(world, seeds, order, free),
        0 <= p < order.len(),
        unaffected(world, seeds, order[p]),
    ensures
        p < free,
        !waits(world, order, 0, order[p]),
{
    if waits(world, order, 0, order[p]) {
        let i = choose|i: int| 0 <= i < order.len() && feeds(world, #[trigger] order[i], order[p]);
        assert(order.contains(order[i]));
        lemma_downstream(world, seeds, order[i]);
        law_stats_depend_on_what_they_mention(world, order[i], order[p]);
        assert(reads(world, order[i], order[p]));
    }
    if p >= free {
        assert(waits(world, order, free, order[p]));
        let i = choose|i: int| free <= i < order.len() && feeds(world, #[trigger] order[i], order[p]);
        assert(feeds(world, order[i], order[p]));
    }
}

/// Of the seeds of a recomputation, those that read nothing that is affected are
/// reported in the order in which they are given.
pub proof fn law_changes_of_seeds_come_in_their_order<A: Arithmetic>(
    host: A,
    mid: State,
    seeds: Seq<Key>,
    after: State,
    i: int,
    j: int,
)
    requires
        carried(host, mid, seeds, after),
        0 <= i < j < seeds.len(),
        forall|k: int| 0 <= k < j ==> #[trigger] seeds[k] != seeds[j],
        unaffected(mid.world, seeds, seeds[i]),
        unaffected(mid.world, seeds, seeds[j]),
    ensures
        forall|p: int, q: int|
            #![trigger after.events[p], after.events[q]]
            mid.events.len() <= p < after.events.len() && mid.events.len() <= q < after.events.len() && after.events[p]
                == seeds[i] && after.events[q] == seeds[j] ==> p < q,
{
    let moved = choose|moved: Seq<Key>| #[trigger]
        settled(host, mid.rules, mid.world, seeds, after.world, moved) && after == (State {
            world: World { cache: after.world.cache, ..mid.world },
            events: mid.events + moved,
            dirty: mid.dirty.union(owners(moved)),
            ..mid
        });
    let (order, free) = choose|order: Seq<Key>, free: int|
        #[trigger] scheduled(mid.world, seeds, order, free) && refreshed(
            host,
            mid.rules,
            mid.world,
            forget(mid.world, order),
            order,
            after.world,
            moved,
        );
    let places = lemma_moved_places(
        host,
        mid.rules,
        mid.world,
        forget(mid.world, order),
        order,
        after.world,
        moved,
    );
    let n = mid.events.len() as int;
    assert forall|p: int, q: int|
        #![trigger after.events[p], after.events[q]]
        n <= p < after.events.len() && n <= q < after.events.len() && after.events[p] == seeds[i] && after.events[q]
            == seeds[j] implies p < q by {
        let a = places[p - n];
        let b = places[q - n];
        assert(moved[p - n] == after.events[p] && moved[q - n] == after.events[q]);
        lemma_seeds_in_order(mid.world, seeds, order, free, i, j, a, b);
        if q < p {
            assert(places[q - n] < places[p - n]);
        } else if q == p {
            assert(seeds[i] == seeds[j]);
        }
    }
}

/// The stats that depend on a stat are those that read it.
pub proof fn law_dependents_are_readers(world: World, k: Key)
    ensures
        forall|d: Key| #[trigger] dependents(world, k).contains(d) <==> reads(world, k, d),
{
    assert forall|d: Key| #[trigger] dependents(world, k).contains(d) <==> reads(world, k, d) by {
        law_stats_depend_on_what_they_mention(world, k, d);
    }
}

// -- reads ------------------------------------------------------------------

/// A read keeps the value of its query for the next one, unless there is a
/// value already or the entity carries no stats; all else stays.
pub proof fn law_reads_are_kept(world: World, q: Query, v: Scalar)
    ensures
        ({
            let after = remembered(world, q, v);
            &&& after.carriers == world.carriers
            &&& after.links == world.links
            &&& forall|k: Key| #[trigger] untouched(world, after, k)
            &&& forall|p: Query|
                p != q ==> (#[trigger] after.cache.contains_key(p) <==> world.cache.contains_key(p)) && (
                world.cache.contains_key(p) ==> after.cache[p] == world.cache[p])
            &&& after.cache.contains_key(q) <==> world.cache.contains_key(q) || world.carriers.contains(q.key.0)
            &&& world.cache.contains_key(q) ==> after.cache[q] == world.cache[q]
            &&& !world.cache.contains_key(q) && world.carriers.contains(q.key.0) ==> after.cache[q] == v
        }),
{
}

// -- starting stats ---------------------------------------------------------

/// A starting stat with a number and no tags is a base value; one with tags or
/// with an expression is a modifier.
pub proof fn law_untagged_numbers_are_base_values(stat: Seq<char>, tags: Seq<Seq<char>>, value: Amount)
    ensures
        match seeded(stat, tags, value) {
            Pending::Base(name, v) => name == stat && value == Amount::Literal(v) && tags.len() == 0,
            Pending::Modifier(name, m) => name == stat && m.value == value && m.tags == tags && (tags.len() > 0
                || value is Expression),
        },
{
}

/// The entries of a set become starting stats one for one, as modifiers.
pub proof fn law_sets_are_queued_entry_by_entry(set: Seq<(Seq<char>, Contribution)>)
    ensures
        queued(set).len() == set.len(),
        forall|i: int| 0 <= i < set.len() ==> #[trigger] queued(set)[i] == Pending::Modifier(set[i].0, set[i].1),
{
}

/// The base value that a list of starting stats gives a stat: the last one.
pub open spec fn last_base(pending: Seq<Pending>, stat: Seq<char>, i: int) -> bool {
    &&& 0 <= i < pending.len()
    &&& pending[i] matches Pending::Base(name, _) && name == stat
    &&& forall|j: int| i < j < pending.len() ==> !((#[trigger] pending[j]) matches Pending::Base(name, _) && name == stat)
}

/// Whether a starting stat is a modifier for `stat` that can be made ready.
pub open spec fn accepted(tags: Map<Seq<char>, u64>, entry: Pending, stat: Seq<char>) -> bool {
    entry matches Pending::Modifier(path, m) && ready(tags, path, m) && path_parsed(path)->Ok_0.0 == stat
}

/// Whether a starting stat is a modifier that cannot be made ready.
pub open spec fn rejected(tags: Map<Seq<char>, u64>, entry: Pending) -> bool {
    entry matches Pending::Modifier(path, m) && !ready(tags, path, m)
}

/// The places of a list, in order, at which a starting stat is accepted for
/// `stat`.
pub open spec fn accepted_places(tags: Map<Seq<char>, u64>, pending: Seq<Pending>, stat: Seq<char>) -> Seq<int>
    decreases pending.len(),
{
    if pending.len() == 0 {
        Seq::empty()
    } else {
        let rest = accepted_places(tags, pending.drop_last(), stat);
        if accepted(tags, pending.last(), stat) {
            rest.push(pending.len() - 1)
        } else {
            rest
        }
    }
}

/// The places of a list, in order, at which a starting stat is rejected.
pub open spec fn rejected_places(tags: Map<Seq<char>, u64>, pending: Seq<Pending>) -> Seq<int>
    decreases pending.len(),
{
    if pending.len() == 0 {
        Seq::empty()
    } else {
        let rest = rejected_places(tags, pending.drop_last());
        if rejected(tags, pending.last()) {
            rest.push(pending.len() - 1)
        } else {
            rest
        }
    }
}

/// `x` is a starting stat, made into a modifier for `stat`.
pub open spec fn mod_of<A: Arithmetic>(
    host: A,
    tags: Map<Seq<char>, u64>,
    entry: Pending,
    stat: Seq<char>,
    x: Stored,
) -> bool {
    entry matches Pending::Modifier(path, m) && made_of(host, tags, path, m, stat, x)
}

/// `fault` is what keeps a starting stat from being made into a modifier.
pub open spec fn fault_of(tags: Map<Seq<char>, u64>, entry: Pending, fault: Fault) -> bool {
    entry matches Pending::Modifier(path, m) && modifier_fault(tags, path, m) == Some(fault)
}

/// `mods` are the modifiers that a list of starting stats has for `stat`, in
/// its order.
pub open spec fn mods_of<A: Arithmetic>(
    host: A,
    tags: Map<Seq<char>, u64>,
    pending: Seq<Pending>,
    stat: Seq<char>,
    mods: Seq<Stored>,
) -> bool {
    let places = accepted_places(tags, pending, stat);
    &&& mods.len() == places.len()
    &&& forall|p: int|
        #![trigger mods[p]]
        0 <= p < mods.len() ==> 0 <= places[p] < pending.len() && mod_of(host, tags, pending[places[p]], stat, mods[p])
}

/// `faults` are those of the starting stats that are rejected, in their order.
pub open spec fn faults_of(tags: Map<Seq<char>, u64>, pending: Seq<Pending>, faults: Seq<Fault>) -> bool {
    let places = rejected_places(tags, pending);
    &&& faults.len() == places.len()
    &&& forall|p: int|
        #![trigger faults[p]]
        0 <= p < faults.len() ==> 0 <= places[p] < pending.len() && fault_of(tags, pending[places[p]], faults[p])
}

/// What an entity without stats holds after its starting stats are installed.
spec fn filled<A: Arithmetic>(host: A, start: State, entity: Entity, pending: Seq<Pending>, done: Drained) -> bool {
    let tags = start.tags.tags;
    &&& done.state.tags == start.tags
    &&& done.state.rules == start.rules
    &&& done.state.world.carriers == start.world.carriers
    &&& done.state.world.links == start.world.links
    &&& forall|k: Key| k.0 != entity ==> #[trigger] untouched(start.world, done.state.world, k)
    &&& forall|stat: Seq<char>, i: int| #[trigger]
        last_base(pending, stat, i) ==> base_at(done.state.world, (entity, stat)) == Some(pending[i]->Base_1)
    &&& forall|stat: Seq<char>|
        (forall|i: int| !last_base(pending, stat, i)) ==> #[trigger] base_at(done.state.world, (entity, stat)) is None
    &&& forall|stat: Seq<char>|
        mods_of(host, tags, pending, stat, #[trigger] modifiers_at(done.state.world, (entity, stat)))
    &&& faults_of(tags, pending, done.faults)
}

proof fn lemma_last_base(pending: Seq<Pending>, stat: Seq<char>)
    requires
        pending.len() > 0,
    ensures
        pending.last() matches Pending::Base(name, _) && name == stat ==> last_base(pending, stat, pending.len() - 1),
        !(pending.last() matches Pending::Base(name, _) && name == stat) ==> forall|i: int|
            last_base(pending, stat, i) <==> #[trigger] last_base(pending.drop_last(), stat, i),
        pending.last() matches Pending::Base(name, _) && name == stat ==> forall|i: int| #[trigger]
            last_base(pending, stat, i) ==> i == pending.len() - 1,
{
    let rest = pending.drop_last();
    assert forall|i: int|
        !(pending.last() matches Pending::Base(name, _) && name == stat) implies (last_base(pending, stat, i)
        <==> #[trigger] last_base(rest, stat, i)) by {
        if last_base(pending, stat, i) {
            assert(i < rest.len()) by {
                if i == rest.len() {
                    assert(pending[i] == pending.last());
                }
            }
            assert forall|j: int| i < j < rest.len() implies !((#[trigger] rest[j]) matches Pending::Base(name, _) && name
                == stat) by {
                assert(rest[j] == pending[j]);
            }
            assert(rest[i] == pending[i]);
        }
        if last_base(rest, stat, i) {
            assert(rest[i] == pending[i]);
            assert forall|j: int| i < j < pending.len() implies !((#[trigger] pending[j]) matches Pending::Base(name, _)
                && name == stat) by {
                if j < rest.len() {
                    assert(rest[j] == pending[j]);
                }
            }
        }
    }
    assert forall|i: int|
        (pending.last() matches Pending::Base(name, _) && name == stat) && #[trigger] last_base(
            pending,
            stat,
            i,
        ) implies i == pending.len() - 1 by {
        if i < pending.len() - 1 {
            let j = pending.len() - 1;
            assert(pending[j] == pending.last());
        }
    }
}

/// What one more entry adds to the modifiers of a stat.
proof fn lemma_mods_step<A: Arithmetic>(
    host: A,
    tags: Map<Seq<char>, u64>,
    pending: Seq<Pending>,
    stat: Seq<char>,
    mods: Seq<Stored>,
    now: Seq<Stored>,
)
    requires
        pending.len() > 0,
        mods_of(host, tags, pending.drop_last(), stat, mods),
        if accepted(tags, pending.last(), stat) {
            &&& now.len() == mods.len() + 1
            &&& now.drop_last() == mods
            &&& mod_of(host, tags, pending.last(), stat, now.last())
        } else {
            now == mods
        },
    ensures
        mods_of(host, tags, pending, stat, now),
{
    let rest = pending.drop_last();
    let places = accepted_places(tags, rest, stat);
    let all = accepted_places(tags, pending, stat);
    assert forall|p: int|
        #![trigger now[p]]
        #![trigger all[p]]
        0 <= p < now.len() implies 0 <= all[p] < pending.len() && mod_of(host, tags, pending[all[p]], stat, now[p]) by {
        if p < mods.len() {
            assert(now[p] == mods[p]);
            assert(all[p] == places[p]);
            assert(rest[places[p]] == pending[all[p]]);
        } else {
            assert(all[p] == pending.len() - 1);
            assert(pending[all[p]] == pending.last());
            assert(now[p] == now.last());
        }
    }
}

proof fn lemma_faults_step(tags: Map<Seq<char>, u64>, pending: Seq<Pending>, faults: Seq<Fault>, now: Seq<Fault>)
    requires
        pending.len() > 0,
        faults_of(tags, pending.drop_last(), faults),
        if rejected(tags, pending.last()) {
            &&& now.len() == faults.len() + 1
            &&& now.drop_last() == faults
            &&& fault_of(tags, pending.last(), now.last())
        } else {
            now == faults
        },
    ensures
        faults_of(tags, pending, now),
{
    let rest = pending.drop_last();
    let places = rejected_places(tags, rest);
    let all = rejected_places(tags, pending);
    assert forall|p: int|
        #![trigger now[p]]
        #![trigger all[p]]
        0 <= p < now.len() implies 0 <= all[p] < pending.len() && fault_of(tags, pending[all[p]], now[p]) by {
        if p < faults.len() {
            assert(now[p] == faults[p]);
            assert(all[p] == places[p]);
            assert(rest[places[p]] == pending[all[p]]);
        } else {
            assert(all[p] == pending.len() - 1);
            assert(pending[all[p]] == pending.last());
            assert(now[p] == now.last());
        }
    }
}

proof fn lemma_filled_base<A: Arithmetic>(
    host: A,
    start: State,
    entity: Entity,
    pending: Seq<Pending>,
    mid: Drained,
    done: Drained,
)
    requires
        pending.len() > 0,
        filled(host, start, entity, pending.drop_last(), mid),
        pending.last() is Base,
        drained_entry(host, entity, pending.last(), mid, done),
    ensures
        filled(host, start, entity, pending, done),
{
    let rest = pending.drop_last();
    let tags = start.tags.tags;
    if let Pending::Base(name, value) = pending.last() {
        assert forall|k: Key| k.0 != entity implies #[trigger] untouched(start.world, done.state.world, k) by {
            assert(untouched(start.world, mid.state.world, k));
        }
        assert forall|stat: Seq<char>, i: int| #[trigger] last_base(pending, stat, i) implies base_at(
            done.state.world,
            (entity, stat),
        ) == Some(pending[i]->Base_1) by {
            lemma_last_base(pending, stat);
            if name != stat {
                assert(last_base(rest, stat, i));
                assert(rest[i] == pending[i]);
            }
        }
        assert forall|stat: Seq<char>|
            (forall|i: int| !last_base(pending, stat, i)) implies #[trigger] base_at(
            done.state.world,
            (entity, stat),
        ) is None by {
            lemma_last_base(pending, stat);
            assert forall|i: int| !last_base(rest, stat, i) by {
                assert(!last_base(pending, stat, i));
            }
            assert(base_at(mid.state.world, (entity, stat)) is None);
        }
        assert forall|stat: Seq<char>|
            mods_of(host, tags, pending, stat, #[trigger] modifiers_at(done.state.world, (entity, stat))) by {
            let mods = modifiers_at(mid.state.world, (entity, stat));
            let now = modifiers_at(done.state.world, (entity, stat));
            assert(now == mods);
            lemma_mods_step(host, tags, pending, stat, mods, now);
        }
        lemma_faults_step(tags, pending, mid.faults, done.faults);
    }
}

proof fn lemma_filled_rejected<A: Arithmetic>(
    host: A,
    start: State,
    entity: Entity,
    pending: Seq<Pending>,
    mid: Drained,
    done: Drained,
)
    requires
        pending.len() > 0,
        filled(host, start, entity, pending.drop_last(), mid),
        rejected(start.tags.tags, pending.last()),
        drained_entry(host, entity, pending.last(), mid, done),
    ensures
        filled(host, start, entity, pending, done),
{
    let rest = pending.drop_last();
    let tags = start.tags.tags;
    if let Pending::Modifier(path, m) = pending.last() {
        law_modifiers_are_owed(tags, path, m);
        lemma_unbased(host, start, entity, pending, mid, done.state.world);
        assert forall|stat: Seq<char>|
            mods_of(host, tags, pending, stat, #[trigger] modifiers_at(done.state.world, (entity, stat))) by {
            let mods = modifiers_at(mid.state.world, (entity, stat));
            lemma_mods_step(host, tags, pending, stat, mods, mods);
        }
        assert(done.faults.drop_last() =~= mid.faults);
        lemma_faults_step(tags, pending, mid.faults, done.faults);
    }
}

/// An entry that is no base value leaves the base values as they are.
proof fn lemma_unbased<A: Arithmetic>(
    host: A,
    start: State,
    entity: Entity,
    pending: Seq<Pending>,
    mid: Drained,
    world: World,
)
    requires
        pending.len() > 0,
        filled(host, start, entity, pending.drop_last(), mid),
        pending.last() is Modifier,
        forall|stat: Seq<char>| #[trigger]
            base_at(world, (entity, stat)) == base_at(mid.state.world, (entity, stat)),
    ensures
        forall|stat: Seq<char>, i: int| #[trigger]
            last_base(pending, stat, i) ==> base_at(world, (entity, stat)) == Some(pending[i]->Base_1),
        forall|stat: Seq<char>|
            (forall|i: int| !last_base(pending, stat, i)) ==> #[trigger] base_at(world, (entity, stat)) is None,
{
    let rest = pending.drop_last();
    assert forall|stat: Seq<char>, i: int| #[trigger] last_base(pending, stat, i) implies base_at(
        world,
        (entity, stat),
    ) == Some(pending[i]->Base_1) by {
        lemma_last_base(pending, stat);
        assert(last_base(rest, stat, i));
        assert(rest[i] == pending[i]);
        assert(base_at(mid.state.world, (entity, stat)) == Some(rest[i]->Base_1));
    }
    assert forall|stat: Seq<char>|
        (forall|i: int| !last_base(pending, stat, i)) implies #[trigger] base_at(world, (entity, stat)) is None by {
        lemma_last_base(pending, stat);
        assert forall|i: int| !last_base(rest, stat, i) by {
            assert(!last_base(pending, stat, i));
        }
        assert(base_at(mid.state.world, (entity, stat)) is None);
    }
}

proof fn lemma_filled_accepted<A: Arithmetic>(
    host: A,
    start: State,
    entity: Entity,
    pending: Seq<Pending>,
    mid: Drained,
    done: Drained,
)
    requires
        pending.len() > 0,
        filled(host, start, entity, pending.drop_last(), mid),
        pending.last() is Modifier,
        !rejected(start.tags.tags, pending.last()),
        drained_entry(host, entity, pending.last(), mid, done),
    ensures
        filled(host, start, entity, pending, done),
{
    let rest = pending.drop_last();
    let tags = start.tags.tags;
    if let Pending::Modifier(path, m) = pending.last() {
        law_modifiers_are_owed(tags, path, m);
        let part = choose|part: Part| #[trigger]
            modifier_part(host, tags, path, m, part) && done == (Drained {
                state: installed(mid.state, entity, part),
                seeds: with_seed(mid.seeds, (entity, part.stat)),
                faults: mid.faults,
            });
        assert forall|k: Key| k.0 != entity implies #[trigger] untouched(start.world, done.state.world, k) by {
            assert(untouched(start.world, mid.state.world, k));
        }
        lemma_unbased(host, start, entity, pending, mid, done.state.world);
        assert forall|stat: Seq<char>|
            mods_of(host, tags, pending, stat, #[trigger] modifiers_at(done.state.world, (entity, stat))) by {
            let mods = modifiers_at(mid.state.world, (entity, stat));
            let now = modifiers_at(done.state.world, (entity, stat));
            if stat == part.stat {
                assert(now.drop_last() =~= mods);
                assert(accepted(tags, pending.last(), stat));
                assert(made_of(host, tags, path, m, stat, now.last()));
            } else {
                assert(now == mods);
                assert(!accepted(tags, pending.last(), stat));
            }
            lemma_mods_step(host, tags, pending, stat, mods, now);
        }
        lemma_faults_step(tags, pending, mid.faults, done.faults);
    }
}

proof fn lemma_filled<A: Arithmetic>(host: A, start: State, entity: Entity, pending: Seq<Pending>, done: Drained)
    requires
        drained(host, start, entity, pending, done),
        forall|k: Key| k.0 == entity ==> !#[trigger] start.world.nodes.contains_key(k),
    ensures
        filled(host, start, entity, pending, done),
    decreases pending.len(),
{
    if pending.len() > 0 {
        let mid = choose|mid: Drained| #[trigger]
            drained_entry(host, entity, pending.last(), mid, done) && drained(
                host,
                start,
                entity,
                pending.drop_last(),
                mid,
            );
        lemma_filled(host, start, entity, pending.drop_last(), mid);
        if pending.last() is Base {
            lemma_filled_base(host, start, entity, pending, mid, done);
        } else if rejected(start.tags.tags, pending.last()) {
            lemma_filled_rejected(host, start, entity, pending, mid, done);
        } else {
            lemma_filled_accepted(host, start, entity, pending, mid, done);
        }
    }
}

/// Starting stats come in place of what an entity carried: it carries stats and
/// has no links; each stat has the last base value that the list gives it, and
/// the modifiers that the list has for it and that can be made ready, in the
/// order of the list. The faults are those of the others, in the order of the
/// list. Other entities keep their stats and links.
pub proof fn law_starting_stats_are_installed<A: Arithmetic>(
    host: A,
    s: State,
    entity: Entity,
    pending: Seq<Pending>,
    faults: Seq<Fault>,
    after: State,
)
    requires
        consistent(s.world),
        stats_inserted(host, s, entity, pending, faults, after),
    ensures
        after.world.carriers.contains(entity),
        forall|other: Entity|
            other != entity ==> (#[trigger] after.world.carriers.contains(other) <==> s.world.carriers.contains(other)),
        forall|k: Key| k.0 == entity ==> !#[trigger] after.world.links.contains_key(k),
        forall|stat: Seq<char>, i: int| #[trigger]
            last_base(pending, stat, i) ==> base_at(after.world, (entity, stat)) == Some(pending[i]->Base_1),
        forall|stat: Seq<char>|
            (forall|i: int| !last_base(pending, stat, i)) ==> #[trigger] base_at(after.world, (entity, stat)) is None,
        forall|stat: Seq<char>|
            mods_of(host, s.tags.tags, pending, stat, #[trigger] modifiers_at(after.world, (entity, stat))),
        faults_of(s.tags.tags, pending, faults),
        forall|k: Key| k.0 != entity ==> #[trigger] untouched(s.world, after.world, k),
        forall|k: Key|
            k.0 != entity ==> (#[trigger] after.world.links.contains_key(k) <==> s.world.links.contains_key(k)) && (
            s.world.links.contains_key(k) ==> after.world.links[k] == s.world.links[k]),
{
    let (mid, done) = choose|mid: State, done: Drained|
        #![trigger torn_down(host, s, entity, mid), carried(host, done.state, done.seeds, after)]
        torn_down(host, s, entity, mid) && drained(host, with_carrier(mid, entity), entity, pending, done) && carried(
            host,
            done.state,
            done.seeds,
            after,
        ) && faults == done.faults;
    law_torn_down_entities_are_gone(host, s, entity, mid);
    assert(mid.tags == s.tags) by {
        if s.world.carriers.contains(entity) {
            let start = State { world: crate::world::without_entity(s.world, entity), ..s };
            let seeds = choose|seeds: Seq<Key>| #[trigger]
                carried(host, start, seeds, mid) && seeds.no_duplicates() && forall|d: Key| #[trigger]
                    seeds.contains(d) <==> d.0 != entity && exists|name: Seq<char>| #[trigger]
                        feeds(s.world, (entity, name), d);
            lemma_carried_parts(host, start, seeds, mid);
        }
    }
    let start = with_carrier(mid, entity);
    lemma_filled(host, start, entity, pending, done);
    lemma_carried_parts(host, done.state, done.seeds, after);
    assert forall|k: Key| k.0 != entity implies #[trigger] untouched(s.world, after.world, k) by {
        assert(untouched(s.world, mid.world, k));
        assert(untouched(start.world, done.state.world, k));
    }
    assert forall|stat: Seq<char>|
        (forall|i: int| !last_base(pending, stat, i)) implies #[trigger] base_at(
        after.world,
        (entity, stat),
    ) is None by {
        assert(base_at(done.state.world, (entity, stat)) is None);
    }
    assert forall|stat: Seq<char>|
        mods_of(host, s.tags.tags, pending, stat, #[trigger] modifiers_at(after.world, (entity, stat))) by {
        assert(modifiers_at(after.world, (entity, stat)) == modifiers_at(done.state.world, (entity, stat)));
    }
}

} // verus!
