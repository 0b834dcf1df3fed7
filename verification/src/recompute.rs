//! Recomputation: refreshing the cached values that a change affects.

use crate::entity::Entity;
use crate::eval::{stat_value, trail, Evaluator, Scene};
use crate::graph::{keys_of, wired, StatGraph};
use crate::scalar::{equals, is_equal, Arithmetic, Scalar};
use crate::schedule::{plan, scheduled};
use crate::stats::{Rules, StatConfig};
use crate::table::IdTable;
use crate::tags::TagSet;
use crate::world::{Key, Query, Store, World};
use vstd::prelude::*;

verus! {

/// The world with the cached values of some stats forgotten.
pub open spec fn forget(world: World, keys: Seq<Key>) -> World {
    World {
        cache: Map::new(|q: Query| world.cache.contains_key(q) && !keys.contains(q.key), |q: Query| world.cache[q]),
        ..world
    }
}

/// `after` is `mid` with every query of stat `k` that was cached in `before`
/// resolved in `mid`.
pub open spec fn renewed<A: Arithmetic>(
    host: A,
    rules: Rules,
    before: World,
    k: Key,
    mid: World,
    after: World,
) -> bool {
    &&& after == World { cache: after.cache, ..mid }
    &&& forall|q: Query| #[trigger]
        after.cache.contains_key(q) <==> mid.cache.contains_key(q) || (q.key == k && before.cache.contains_key(q))
    &&& forall|q: Query|
        q.key != k && mid.cache.contains_key(q) ==> #[trigger] after.cache[q] == mid.cache[q]
    &&& forall|q: Query|
        q.key == k && before.cache.contains_key(q) ==> stat_value(
            Scene { host, rules, world: mid },
            Seq::empty(),
            q,
            #[trigger] after.cache[q],
        )
}

/// Whether a query of stat `k` that was cached in `before` has another value
/// in `after`.
pub open spec fn has_moved(before: World, after: World, k: Key) -> bool {
    exists|q: Query|
        q.key == k && #[trigger] before.cache.contains_key(q) && !equals(before.cache[q], after.cache[q])
}

/// `after` is `cleared` with the stats of `order` renewed one after the
/// other, and `moved` those of them whose value moved.
pub open spec fn refreshed<A: Arithmetic>(
    host: A,
    rules: Rules,
    before: World,
    cleared: World,
    order: Seq<Key>,
    after: World,
    moved: Seq<Key>,
) -> bool
    decreases order.len(),
{
    if order.len() == 0 {
        after == cleared && moved.len() == 0
    } else {
        exists|mid: World| #[trigger]
            renewed(host, rules, before, order.last(), mid, after) && if has_moved(before, after, order.last()) {
                &&& moved.len() > 0
                &&& moved.last() == order.last()
                &&& refreshed(host, rules, before, cleared, order.drop_last(), mid, moved.drop_last())
            } else {
                refreshed(host, rules, before, cleared, order.drop_last(), mid, moved)
            }
    }
}

/// `after` is `before` with the cached values of everything that depends on
/// `seeds` forgotten and then renewed, each stat once, in dependency order;
/// `moved` are the stats whose value moved.
pub open spec fn settled<A: Arithmetic>(
    host: A,
    rules: Rules,
    before: World,
    seeds: Seq<Key>,
    after: World,
    moved: Seq<Key>,
) -> bool {
    exists|order: Seq<Key>, free: int|
        #[trigger] scheduled(before, seeds, order, free) && refreshed(
            host,
            rules,
            before,
            forget(before, order),
            order,
            after,
            moved,
        )
}

/// `list` holds the cached queries of a stat, by tag set.
spec fn live(world: World, k: Key, list: Seq<(u64, Scalar)>) -> bool {
    &&& forall|i: int, j: int| 0 <= i < j < list.len() ==> (#[trigger] list[i]).0 != (#[trigger] list[j]).0
    &&& forall|i: int|
        0 <= i < list.len() ==> world.cache.contains_key(Query { key: k, tags: (#[trigger] list[i]).0 })
            && world.cache[Query { key: k, tags: list[i].0 }] == list[i].1
    &&& forall|t: u64| #[trigger]
        world.cache.contains_key(Query { key: k, tags: t }) ==> exists|i: int|
            0 <= i < list.len() && (#[trigger] list[i]).0 == t
}

/// Forgets the cached values of a stat, and gives them back.
fn take_cache(store: &mut Store, entity: Entity, stat: &String) -> (list: Vec<(u64, Scalar)>)
    requires
        old(store).wf(),
    ensures
        final(store).wf(),
        final(store)@ == forget(old(store)@, seq![(entity, stat@)]),
        live(old(store)@, (entity, stat@), list@),
{
    let ghost k: Key = (entity, stat@);
    let ghost before = store@;
    let mut list: Vec<(u64, Scalar)> = Vec::new();
    proof {
        store.lemma_consistent();
        assert(seq![k].contains(k)) by {
            assert(seq![k][0] == k);
        }
    }
    match store.node(entity, stat) {
        Some(node) => {
            let ghost tags = node.cache.keys();
            let n: usize = node.cache.len();
            let mut i: usize = 0;
            while i < n
                invariant
                    n == tags.len(),
                    tags == node.cache.keys(),
                    node.cache.wf(),
                    i <= n,
                    list@.len() == i,
                    forall|p: int|
                        0 <= p < i ==> (#[trigger] list@[p]).0 == tags[p] && node.cache@.contains_key(tags[p])
                            && list@[p].1 == node.cache@[tags[p]],
                decreases n - i,
            {
                list.push((*node.cache.key_at(i), *node.cache.value_at(i)));
                i = i + 1;
            }
            proof {
                node.cache.lemma_keys();
                assert forall|t: u64| #[trigger] before.cache.contains_key(Query { key: k, tags: t }) implies exists|
                    p: int,
                |
                    0 <= p < list@.len() && (#[trigger] list@[p]).0 == t by {
                    assert(tags.contains(t));
                    let p = choose|p: int| 0 <= p < tags.len() && tags[p] == t;
                    assert(list@[p].0 == t);
                }
                assert forall|p: int| 0 <= p < list@.len() implies before.cache.contains_key(
                    Query { key: k, tags: (#[trigger] list@[p]).0 },
                ) && before.cache[Query { key: k, tags: list@[p].0 }] == list@[p].1 by {
                    assert(node.cache@[tags[p]] == before.cache[Query { key: k, tags: tags[p] }]);
                }
            }
        },
        None => {
            proof {
                assert forall|t: u64| !#[trigger] before.cache.contains_key(Query { key: k, tags: t }) by {}
                assert(forget(before, seq![k]) =~= before);
            }
            return list;
        },
    }
    if let Some(node) = store.node_mut(entity, stat) {
        node.cache = IdTable::new();
    }
    assert(store@ =~= forget(before, seq![k]));
    list
}

/// Resolves every live query of a stat, and caches the values. Says whether
/// one of them moved.
fn renew<A: Arithmetic>(
    host: &A,
    config: &StatConfig,
    store: &mut Store,
    entity: Entity,
    stat: &String,
    list: &Vec<(u64, Scalar)>,
    Ghost(before): Ghost<World>,
) -> (moved: bool)
    requires
        config.wf(),
        old(store).wf(),
        live(before, (entity, stat@), list@),
        before.nodes == old(store)@.nodes,
        forall|q: Query| #[trigger] before.cache.contains_key(q) ==> before.nodes.contains_key(q.key),
        forall|q: Query| #[trigger] old(store)@.cache.contains_key(q) ==> q.key != (entity, stat@),
    ensures
        final(store).wf(),
        renewed(*host, config@, before, (entity, stat@), old(store)@, final(store)@),
        moved == has_moved(before, final(store)@, (entity, stat@)),
{
    let ghost k: Key = (entity, stat@);
    let ghost mid = store@;
    let ghost sc = Scene { host: *host, rules: config@, world: mid };
    if list.len() == 0 {
        assert forall|q: Query| q.key == k implies !#[trigger] before.cache.contains_key(q) by {
            if before.cache.contains_key(q) {
                assert(before.cache.contains_key(Query { key: k, tags: q.tags }));
            }
        }
        return false;
    }
    let mut cache: IdTable<Scalar> = IdTable::new();
    let mut moved = false;
    let mut i: usize = 0;
    {
        let env = Evaluator { host, config, store: &*store };
        while i < list.len()
            invariant
                i <= list@.len(),
                env.wf(),
                env.scene() == sc,
                k == (entity, stat@),
                live(before, k, list@),
                cache.wf(),
                forall|t: u64| #[trigger]
                    cache@.contains_key(t) <==> exists|p: int| 0 <= p < i && (#[trigger] list@[p]).0 == t,
                forall|p: int|
                    0 <= p < i ==> stat_value(
                        sc,
                        Seq::empty(),
                        Query { key: k, tags: (#[trigger] list@[p]).0 },
                        cache@[list@[p].0],
                    ),
                moved == exists|p: int| 0 <= p < i && !equals((#[trigger] list@[p]).1, cache@[list@[p].0]),
            decreases list@.len() - i,
        {
            let tags = list[i].0;
            let mut path: Vec<(Entity, String, TagSet)> = Vec::new();
            assert(trail(path@) =~= Seq::empty());
            let v = env.eval_stat(&mut path, entity, stat, TagSet::from_bits(tags));
            let ghost was = cache@;
            let ghost had = moved;
            cache.insert(tags, v);
            if !is_equal(list[i].1, v) {
                moved = true;
            }
            proof {
                assert(list@[i as int].0 == tags);
                assert forall|p: int| 0 <= p < i implies cache@[(#[trigger] list@[p]).0] == was[list@[p].0] by {
                    assert(list@[p].0 != list@[i as int].0);
                }
                assert forall|t: u64| #[trigger] cache@.contains_key(t) <==> exists|p: int|
                    0 <= p < i + 1 && (#[trigger] list@[p]).0 == t by {
                    if was.contains_key(t) {
                        let p = choose|p: int| 0 <= p < i && (#[trigger] list@[p]).0 == t;
                        assert(list@[p].0 == t);
                    }
                }
                assert(moved == exists|p: int| 0 <= p < i + 1 && !equals((#[trigger] list@[p]).1, cache@[list@[p].0]))
                by {
                    if had {
                        let p = choose|p: int| 0 <= p < i && !equals((#[trigger] list@[p]).1, was[list@[p].0]);
                        assert(!equals(list@[p].1, cache@[list@[p].0]));
                    }
                    if moved && !had {
                        assert(!equals(list@[i as int].1, cache@[list@[i as int].0]));
                    }
                }
            }
            i = i + 1;
        }
    }
    proof {
        assert(before.cache.contains_key(Query { key: k, tags: list@[0].0 }));
        assert(mid.nodes.contains_key(k));
    }
    let ghost values = cache@;
    if let Some(node) = store.node_mut(entity, stat) {
        node.cache = cache;
    }
    proof {
        let after = store@;
        assert(after.nodes =~= mid.nodes);
        assert(after =~= (World { cache: after.cache, ..mid }));
        assert forall|q: Query| q.key == k implies (#[trigger] after.cache.contains_key(q)
            <==> before.cache.contains_key(q)) by {
            assert(q == (Query { key: k, tags: q.tags }));
            if before.cache.contains_key(q) {
                let p = choose|p: int| 0 <= p < list@.len() && (#[trigger] list@[p]).0 == q.tags;
                assert(values.contains_key(q.tags));
            }
        }
        assert forall|q: Query| q.key == k && before.cache.contains_key(q) implies stat_value(
            sc,
            Seq::empty(),
            q,
            #[trigger] after.cache[q],
        ) by {
            assert(before.cache.contains_key(Query { key: k, tags: q.tags }));
            let p = choose|p: int| 0 <= p < list@.len() && (#[trigger] list@[p]).0 == q.tags;
            assert(q == (Query { key: k, tags: list@[p].0 }));
        }
        if moved {
            let p = choose|p: int| 0 <= p < list@.len() && !equals((#[trigger] list@[p]).1, values[list@[p].0]);
            let q = Query { key: k, tags: list@[p].0 };
            assert(before.cache.contains_key(q) && !equals(before.cache[q], after.cache[q]));
        }
        if has_moved(before, after, k) {
            let q = choose|q: Query|
                q.key == k && #[trigger] before.cache.contains_key(q) && !equals(before.cache[q], after.cache[q]);
            assert(before.cache.contains_key(Query { key: k, tags: q.tags }));
            let p = choose|p: int| 0 <= p < list@.len() && (#[trigger] list@[p]).0 == q.tags;
            assert(q == (Query { key: k, tags: list@[p].0 }));
            assert(!equals(list@[p].1, values[list@[p].0]));
        }
    }
    moved
}

/// Refreshing leaves all but the cached values alone.
pub proof fn lemma_refreshed_frame<A: Arithmetic>(
    host: A,
    rules: Rules,
    before: World,
    cleared: World,
    order: Seq<Key>,
    after: World,
    moved: Seq<Key>,
)
    requires
        refreshed(host, rules, before, cleared, order, after, moved),
    ensures
        after == (World { cache: after.cache, ..cleared }),
        forall|q: Query| #[trigger]
            after.cache.contains_key(q) <==> cleared.cache.contains_key(q) || (order.contains(q.key)
                && before.cache.contains_key(q)),
        forall|q: Query|
            !order.contains(q.key) && cleared.cache.contains_key(q) ==> #[trigger] after.cache[q] == cleared.cache[q],
    decreases order.len(),
{
    if order.len() > 0 {
        let rest = order.drop_last();
        let mid = choose|mid: World| #[trigger]
            renewed(host, rules, before, order.last(), mid, after) && if has_moved(before, after, order.last()) {
                &&& moved.len() > 0
                &&& moved.last() == order.last()
                &&& refreshed(host, rules, before, cleared, rest, mid, moved.drop_last())
            } else {
                refreshed(host, rules, before, cleared, rest, mid, moved)
            };
        if has_moved(before, after, order.last()) {
            lemma_refreshed_frame(host, rules, before, cleared, rest, mid, moved.drop_last());
        } else {
            lemma_refreshed_frame(host, rules, before, cleared, rest, mid, moved);
        }
        assert forall|k: Key| #[trigger] order.contains(k) <==> rest.contains(k) || k == order.last() by {
            if order.contains(k) {
                let i = choose|i: int| 0 <= i < order.len() && order[i] == k;
                if i < rest.len() {
                    assert(rest[i] == k);
                }
            }
            if rest.contains(k) {
                let i = choose|i: int| 0 <= i < rest.len() && rest[i] == k;
                assert(order[i] == k);
            }
            assert(order[order.len() - 1] == order.last());
        }
    }
}

/// Settling leaves all but the values of cached queries alone.
pub proof fn lemma_settled_frame<A: Arithmetic>(
    host: A,
    rules: Rules,
    before: World,
    seeds: Seq<Key>,
    after: World,
    moved: Seq<Key>,
)
    requires
        settled(host, rules, before, seeds, after, moved),
    ensures
        after == (World { cache: after.cache, ..before }),
        after.cache.dom() == before.cache.dom(),
{
    let (order, free) = choose|order: Seq<Key>, free: int|
        #[trigger] scheduled(before, seeds, order, free) && refreshed(
            host,
            rules,
            before,
            forget(before, order),
            order,
            after,
            moved,
        );
    lemma_refreshed_frame(host, rules, before, forget(before, order), order, after, moved);
    assert(after.cache.dom() =~= before.cache.dom());
}

/// Recomputes the transitive dependents of `seeds`, once each, in dependency
/// order, refreshing every cached tag query. Gives back the stats whose value
/// moved.
pub(crate) fn recompute<A: Arithmetic>(
    host: &A,
    config: &StatConfig,
    store: &mut Store,
    graph: &StatGraph,
    seeds: &Vec<(Entity, String)>,
) -> (moved: Vec<(Entity, String)>)
    requires
        config.wf(),
        old(store).wf(),
        graph.wf(),
        wired(old(store)@, *graph),
    ensures
        final(store).wf(),
        settled(*host, config@, old(store)@, keys_of(seeds@), final(store)@, keys_of(moved@)),
{
    let ghost before = store@;
    proof {
        store.lemma_consistent();
    }
    let (plan, free) = plan(graph, seeds, Ghost(before));
    let ghost order = keys_of(plan@);
    let mut lives: Vec<Vec<(u64, Scalar)>> = Vec::new();
    let mut i: usize = 0;
    assert(store@ =~= forget(before, order.take(0)));
    while i < plan.len()
        invariant
            i <= plan@.len(),
            order == keys_of(plan@),
            order.no_duplicates(),
            store.wf(),
            store@ == forget(before, order.take(i as int)),
            lives@.len() == i,
            forall|p: int| 0 <= p < i ==> live(before, order[p], #[trigger] lives@[p]@),
        decreases plan@.len() - i,
    {
        let ghost mid = store@;
        let list = take_cache(store, plan[i].0, &plan[i].1);
        proof {
            let k = order[i as int];
            let now = order.take(i as int);
            let next = order.take(i + 1);
            assert(next =~= now.push(k));
            assert(!now.contains(k)) by {
                if now.contains(k) {
                    let p = choose|p: int| 0 <= p < now.len() && now[p] == k;
                    assert(order[p] == order[i as int]);
                }
            }
            lemma_push_contains(now, k);
            assert(seq![k][0] == k);
            assert(store@ =~= forget(before, next));
            assert forall|t: u64| mid.cache.contains_key(Query { key: k, tags: t }) <==> before.cache.contains_key(
                Query { key: k, tags: t },
            ) by {}
            assert(live(mid, k, list@));
            assert(live(before, k, list@)) by {
                assert forall|t: u64| #[trigger]
                    before.cache.contains_key(Query { key: k, tags: t }) implies exists|p: int|
                    0 <= p < list@.len() && (#[trigger] list@[p]).0 == t by {
                    assert(mid.cache.contains_key(Query { key: k, tags: t }));
                }
            }
        }
        lives.push(list);
        i = i + 1;
    }
    assert(order.take(i as int) =~= order);
    let ghost cleared = forget(before, order);
    let mut moved: Vec<(Entity, String)> = Vec::new();
    let mut i: usize = 0;
    assert(keys_of(moved@) =~= Seq::empty());
    assert(order.take(0) =~= Seq::empty());
    while i < plan.len()
        invariant
            i <= plan@.len(),
            order == keys_of(plan@),
            order.no_duplicates(),
            config.wf(),
            store.wf(),
            lives@.len() == order.len(),
            forall|p: int| 0 <= p < order.len() ==> live(before, order[p], #[trigger] lives@[p]@),
            cleared == forget(before, order),
            forall|q: Query| #[trigger] before.cache.contains_key(q) ==> before.nodes.contains_key(q.key),
            refreshed(*host, config@, before, cleared, order.take(i as int), store@, keys_of(moved@)),
        decreases plan@.len() - i,
    {
        let ghost mid = store@;
        let ghost k = order[i as int];
        let ghost now = order.take(i as int);
        let ghost next = order.take(i + 1);
        proof {
            lemma_refreshed_frame(*host, config@, before, cleared, now, mid, keys_of(moved@));
            assert(next.drop_last() =~= now);
            assert(order.contains(k));
            assert forall|q: Query| #[trigger] mid.cache.contains_key(q) implies q.key != k by {
                if now.contains(k) {
                    let p = choose|p: int| 0 <= p < now.len() && now[p] == k;
                    assert(order[p] == order[i as int]);
                }
            }
            assert(live(before, order[i as int], lives@[i as int]@));
        }
        let ghost was = keys_of(moved@);
        if renew(host, config, store, plan[i].0, &plan[i].1, &lives[i], Ghost(before)) {
            moved.push((plan[i].0, plan[i].1.clone()));
            assert(keys_of(moved@) =~= was.push(k));
            assert(keys_of(moved@).drop_last() =~= was);
        }
        proof {
            assert(renewed(*host, config@, before, next.last(), mid, store@));
        }
        i = i + 1;
    }
    assert(order.take(i as int) =~= order);
    assert(scheduled(before, keys_of(seeds@), order, free@));
    moved
}

proof fn lemma_push_contains(list: Seq<Key>, k: Key)
    ensures
        forall|x: Key| #[trigger] list.push(k).contains(x) <==> list.contains(x) || x == k,
{
    assert forall|x: Key| #[trigger] list.push(k).contains(x) <==> list.contains(x) || x == k by {
        if list.contains(x) {
            let i = choose|i: int| 0 <= i < list.len() && list[i] == x;
            assert(list.push(k)[i] == x);
        }
        assert(list.push(k)[list.len() as int] == k);
    }
}

} // verus!
