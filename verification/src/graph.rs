//! The dependency graph between stats.
//!
//! A stat depends on every stat that one of its modifier expressions reads.
//! [`sources`] says so of a [`World`]; a [`StatGraph`] holds the same edges
//! the other way round, from the stat that is read to those that read it.

use crate::entity::Entity;
use crate::expr::{CExpr, CStatRef, Link};
use crate::stats::{stored_list, Source, StatNode, Stats, Stored, StoredValue};
use crate::table::{IdTable, NameTable, PairTable};
use crate::tree::{borrowed, collect_refs, refs};
use crate::world::{node_in, Key, Store, World};
use vstd::prelude::*;

verus! {

/// How often `x` occurs in a list.
pub open spec fn tally<T>(list: Seq<T>, x: T) -> nat
    decreases list.len(),
{
    if list.len() == 0 {
        0
    } else {
        tally(list.drop_last(), x) + (if list.last() == x {
            1nat
        } else {
            0nat
        })
    }
}

pub proof fn lemma_tally_push<T>(list: Seq<T>, y: T, x: T)
    ensures
        tally(list.push(y), x) == tally(list, x) + (if y == x {
            1nat
        } else {
            0nat
        }),
{
    assert(list.push(y).drop_last() =~= list);
}

pub proof fn lemma_tally_add<T>(a: Seq<T>, b: Seq<T>, x: T)
    ensures
        tally(a + b, x) == tally(a, x) + tally(b, x),
    decreases b.len(),
{
    if b.len() == 0 {
        assert(a + b =~= a);
    } else {
        assert((a + b).drop_last() =~= a + b.drop_last());
        lemma_tally_add(a, b.drop_last(), x);
    }
}

pub proof fn lemma_tally_contains<T>(list: Seq<T>, x: T)
    ensures
        tally(list, x) > 0 <==> list.contains(x),
    decreases list.len(),
{
    if list.len() > 0 {
        lemma_tally_contains(list.drop_last(), x);
        if list.contains(x) {
            let i = choose|i: int| 0 <= i < list.len() && list[i] == x;
            if i < list.len() - 1 {
                assert(list.drop_last()[i] == x);
            }
        }
        if list.drop_last().contains(x) {
            let i = choose|i: int| 0 <= i < list.len() - 1 && list.drop_last()[i] == x;
            assert(list[i] == x);
        }
        if list.last() == x {
            assert(list[list.len() - 1] == x);
        }
    }
}

pub proof fn lemma_tally_remove<T>(list: Seq<T>, i: int, x: T)
    requires
        0 <= i < list.len(),
    ensures
        tally(list, x) == tally(list.remove(i), x) + (if list[i] == x {
            1nat
        } else {
            0nat
        }),
{
    let a = list.take(i);
    let b = list.skip(i + 1);
    lemma_tally_add(a.push(list[i]), b, x);
    lemma_tally_add(a, b, x);
    lemma_tally_push(a, list[i], x);
    assert(a.push(list[i]) + b =~= list);
    assert(a + b =~= list.remove(i));
}

/// The entity that a reference on `owner` reads from.
pub open spec fn linked(world: World, owner: Entity, source: Option<Seq<char>>) -> Option<Entity> {
    match source {
        None => Some(owner),
        Some(name) => if world.links.contains_key((owner, name)) {
            Some(world.links[(owner, name)])
        } else {
            None
        },
    }
}

/// The stats that references on `owner` read, one for each; those through a
/// link that is not set are left out.
pub open spec fn link_sources(world: World, owner: Entity, links: Seq<Link>) -> Seq<Key>
    decreases links.len(),
{
    if links.len() == 0 {
        Seq::empty()
    } else {
        let before = link_sources(world, owner, links.drop_last());
        match linked(world, owner, links.last().source) {
            Some(target) => before.push((target, links.last().stat)),
            None => before,
        }
    }
}

/// The references of a modifier.
pub open spec fn references(value: Source) -> Seq<Link> {
    match value {
        Source::Literal(_) => Seq::empty(),
        Source::Expr(rule) => refs(rule),
    }
}

/// The stats that modifiers on `owner` read, one for each reference.
pub open spec fn modifier_sources(world: World, owner: Entity, mods: Seq<Stored>) -> Seq<Key>
    decreases mods.len(),
{
    if mods.len() == 0 {
        Seq::empty()
    } else {
        modifier_sources(world, owner, mods.drop_last()) + link_sources(world, owner, references(mods.last().value))
    }
}

/// The stats that a stat reads, one for each reference in its modifiers.
pub open spec fn sources(world: World, key: Key) -> Seq<Key> {
    modifier_sources(world, key.0, node_in(world, key).modifiers)
}

/// Whether stat `dependent` reads stat `source`.
pub open spec fn feeds(world: World, source: Key, dependent: Key) -> bool {
    sources(world, dependent).contains(source)
}

/// The stats that read `source`.
pub open spec fn dependents(world: World, source: Key) -> Set<Key> {
    Set::new(|d: Key| feeds(world, source, d))
}

/// What references read depends on the links of their owner alone.
pub proof fn lemma_same_link_sources(w1: World, w2: World, owner: Entity, links: Seq<Link>)
    requires
        forall|name: Seq<char>|
            linked(w1, owner, Some(name)) == #[trigger] linked(w2, owner, Some(name)),
    ensures
        link_sources(w1, owner, links) == link_sources(w2, owner, links),
    decreases links.len(),
{
    if links.len() > 0 {
        lemma_same_link_sources(w1, w2, owner, links.drop_last());
        if let Some(name) = links.last().source {
            assert(linked(w1, owner, Some(name)) == linked(w2, owner, Some(name)));
        }
    }
}

/// What modifiers read depends on the links of their owner alone.
pub proof fn lemma_same_modifier_sources(w1: World, w2: World, owner: Entity, mods: Seq<Stored>)
    requires
        forall|name: Seq<char>|
            linked(w1, owner, Some(name)) == #[trigger] linked(w2, owner, Some(name)),
    ensures
        modifier_sources(w1, owner, mods) == modifier_sources(w2, owner, mods),
    decreases mods.len(),
{
    if mods.len() > 0 {
        lemma_same_modifier_sources(w1, w2, owner, mods.drop_last());
        lemma_same_link_sources(w1, w2, owner, references(mods.last().value));
    }
}

/// What a list of keys says.
pub open spec fn keys_of(list: Seq<(Entity, String)>) -> Seq<Key> {
    list.map_values(|k: (Entity, String)| (k.0, k.1@))
}

/// A dependent of a stat: `stat` on `entity` has a modifier expression that
/// reads the stat this edge points away from.
#[derive(Clone, Debug, PartialEq, Eq, Hash)]
pub struct Dependent {
    /// The entity owning the dependent stat.
    pub entity: Entity,
    /// The name of the dependent stat.
    pub stat: String,
}

impl View for Dependent {
    type V = Key;

    open spec fn view(&self) -> Key {
        (self.entity, self.stat@)
    }
}

/// What a list of dependents says.
pub open spec fn dependent_list(list: Seq<Dependent>) -> Seq<Key> {
    list.map_values(|d: Dependent| d@)
}

/// The reverse dependency edges of the stat graph, stored globally so they
/// survive the replacement of an entity's stats (an edge is owned by the
/// *dependent's* modifier, not by the source entity).
///
/// An edge is held once for each reference that makes it.
#[derive(Debug)]
pub struct StatGraph {
    edges: IdTable<NameTable<Vec<Dependent>>>,
}

/// The readers of a stat in a table of edges.
spec fn readers(edges: Map<u64, NameTable<Vec<Dependent>>>, source: Key) -> Seq<Key> {
    if edges.contains_key(source.0) && edges[source.0]@.contains_key(source.1) {
        dependent_list(edges[source.0]@[source.1]@)
    } else {
        Seq::empty()
    }
}

impl StatGraph {
    /// The lookup tables are in order, and hold no empty levels.
    pub closed spec fn wf(&self) -> bool {
        &&& self.edges.wf()
        &&& forall|e: u64| #[trigger]
            self.edges@.contains_key(e) ==> self.edges@[e].wf() && self.edges@[e].keys().len() > 0
        &&& forall|e: u64, s: Seq<char>|
            #![trigger self.edges@[e]@.contains_key(s)]
            self.edges@.contains_key(e) && self.edges@[e]@.contains_key(s) ==> self.edges@[e]@[s]@.len() > 0
    }

    /// The stats that read `source`, one for each reference.
    pub closed spec fn list(&self, source: Key) -> Seq<Key> {
        readers(self.edges@, source)
    }

    /// A graph without edges.
    pub fn new() -> (graph: StatGraph)
        ensures
            graph.wf(),
            forall|k: Key| #[trigger] graph.list(k) == Seq::<Key>::empty(),
    {
        StatGraph { edges: IdTable::new() }
    }

    /// Adds one edge.
    pub fn link(&mut self, source: (Entity, &String), dependent: (Entity, &String))
        requires
            old(self).wf(),
        ensures
            final(self).wf(),
            forall|k: Key| #[trigger]
                final(self).list(k) == (if k == (source.0, source.1@) {
                    old(self).list(k).push((dependent.0, dependent.1@))
                } else {
                    old(self).list(k)
                }),
    {
        let ghost s: Key = (source.0, source.1@);
        if !self.edges.contains(&source.0) {
            self.edges.insert(source.0, NameTable::new());
        }
        if let Some(by_stat) = self.edges.get_mut(&source.0) {
            if !by_stat.contains(source.1) {
                by_stat.insert(source.1.clone(), Vec::new());
            }
            if let Some(list) = by_stat.get_mut(source.1) {
                let ghost before = list@;
                list.push(Dependent { entity: dependent.0, stat: dependent.1.clone() });
                assert(dependent_list(list@) =~= dependent_list(before).push((dependent.0, dependent.1@)));
                assert(dependent_list(before) =~= old(self).list(s));
            }
        }
        assert forall|k: Key| #[trigger]
            self.list(k) == (if k == (source.0, source.1@) {
                old(self).list(k).push((dependent.0, dependent.1@))
            } else {
                old(self).list(k)
            }) by {}
    }

    /// Takes one edge out, if it is there.
    pub fn unlink(&mut self, source: (Entity, &String), dependent: (Entity, &String))
        requires
            old(self).wf(),
        ensures
            final(self).wf(),
            forall|k: Key|
                k != (source.0, source.1@) ==> #[trigger] final(self).list(k) == old(self).list(k),
            forall|d: Key| #[trigger]
                tally(final(self).list((source.0, source.1@)), d) == (if d == (dependent.0, dependent.1@) && tally(
                    old(self).list((source.0, source.1@)),
                    d,
                ) > 0 {
                    (tally(old(self).list((source.0, source.1@)), d) - 1) as nat
                } else {
                    tally(old(self).list((source.0, source.1@)), d)
                }),
    {
        let ghost s: Key = (source.0, source.1@);
        let ghost x: Key = (dependent.0, dependent.1@);
        let mut level_empty = false;
        let mut list_empty = false;
        let ghost mut level: Map<Seq<char>, Vec<Dependent>> = Map::empty();
        if let Some(by_stat) = self.edges.get_mut(&source.0) {
            if let Some(list) = by_stat.get_mut(source.1) {
                let ghost before = list@;
                let mut i: usize = 0;
                while i < list.len() && !(list[i].entity == dependent.0 && list[i].stat == *dependent.1)
                    invariant
                        i <= list@.len(),
                        list@ == before,
                        x == (dependent.0, dependent.1@),
                        forall|k: int| 0 <= k < i ==> dependent_list(before)[k] != x,
                    decreases list@.len() - i,
                {
                    i = i + 1;
                }
                if i < list.len() {
                    proof {
                        assert(dependent_list(before)[i as int] == x);
                        assert forall|d: Key| #[trigger]
                            tally(dependent_list(before), d) == tally(dependent_list(before).remove(i as int), d) + (if d == x {
                                1nat
                            } else {
                                0nat
                            }) by {
                            lemma_tally_remove(dependent_list(before), i as int, d);
                        }
                    }
                    list.remove(i);
                    assert(dependent_list(list@) =~= dependent_list(before).remove(i as int));
                } else {
                    proof {
                        lemma_tally_contains(dependent_list(before), x);
                    }
                }
                list_empty = list.len() == 0;
            }
            if list_empty {
                by_stat.remove(source.1);
                level_empty = by_stat.len() == 0;
                proof {
                    by_stat.lemma_keys();
                    if level_empty {
                        assert forall|name: Seq<char>| !by_stat@.contains_key(name) by {
                            assert(!by_stat.keys().contains(name));
                        }
                    }
                }
            }
            proof {
                level = by_stat@;
            }
        }
        if level_empty {
            self.edges.remove(&source.0);
        }
        assert forall|k: Key| k != s implies #[trigger] self.list(k) == old(self).list(k) by {
            if k.0 == s.0 && old(self).edges@.contains_key(k.0) && level_empty {
                assert(!level.contains_key(k.1));
                assert(!old(self).edges@[k.0]@.contains_key(k.1));
            }
        }
    }
}

/// The graph holds an edge for each reference that a modifier makes, and no
/// other.
pub open spec fn wired(world: World, graph: StatGraph) -> bool {
    forall|a: Key, d: Key| #[trigger] tally(graph.list(a), d) == tally(sources(world, d), a)
}

/// In a wired graph, the readers of a stat are those that read it.
pub proof fn lemma_wired(world: World, graph: StatGraph, a: Key, d: Key)
    requires
        wired(world, graph),
    ensures
        graph.list(a).contains(d) <==> feeds(world, a, d),
{
    lemma_tally_contains(graph.list(a), d);
    lemma_tally_contains(sources(world, d), a);
}

impl Default for StatGraph {
    fn default() -> (graph: StatGraph)
        ensures
            graph.wf(),
            forall|k: Key| #[trigger] graph.list(k) == Seq::<Key>::empty(),
    {
        StatGraph::new()
    }
}

impl StatGraph {
    /// The stats that read `stat` on `entity`, one for each reference.
    pub fn dependents_of(&self, entity: Entity, stat: &String) -> (list: Option<&Vec<Dependent>>)
        requires
            self.wf(),
        ensures
            match list {
                Some(list) => dependent_list(list@) == self.list((entity, stat@)),
                None => self.list((entity, stat@)).len() == 0,
            },
    {
        match self.edges.get(&entity) {
            Some(by_stat) => by_stat.get(stat),
            None => None,
        }
    }

    /// The number of distinct stats (on any entity) whose modifier
    /// expressions currently read `stat` on `entity`. Introspection for
    /// debugging and tests.
    pub fn dependent_count(&self, entity: Entity, stat: &str) -> (n: usize)
        requires
            self.wf(),
        ensures
            n == self.list((entity, stat@)).to_set().len(),
    {
        let key = stat.to_owned();
        let mut seen: PairTable<()> = PairTable::new();
        if let Some(list) = self.dependents_of(entity, &key) {
            let ghost all = dependent_list(list@);
            let mut i: usize = 0;
            while i < list.len()
                invariant
                    i <= list@.len(),
                    all == dependent_list(list@),
                    seen.wf(),
                    forall|k: Key| #[trigger] seen@.contains_key(k) <==> all.take(i as int).contains(k),
                decreases list@.len() - i,
            {
                seen.insert((list[i].entity, list[i].stat.clone()), ());
                proof {
                    let next = all.take(i + 1);
                    assert(next =~= all.take(i as int).push(all[i as int]));
                    assert(next[i as int] == all[i as int]);
                    assert forall|k: Key| #[trigger] seen@.contains_key(k) <==> next.contains(k) by {
                        if all.take(i as int).contains(k) {
                            let j = choose|j: int| 0 <= j < i && all.take(i as int)[j] == k;
                            assert(next[j] == k);
                        }
                    }
                }
                i = i + 1;
            }
            assert(all.take(i as int) =~= all);
        }
        proof {
            seen.lemma_keys();
            seen.keys().unique_seq_to_set();
            assert(seen.keys().to_set() =~= self.list((entity, stat@)).to_set());
        }
        seen.len()
    }

    /// Adds an edge to `dependent` for each stat in `list`.
    fn link_list(&mut self, list: &Vec<(Entity, String)>, entity: Entity, stat: &String)
        requires
            old(self).wf(),
        ensures
            final(self).wf(),
            forall|a: Key, d: Key| #[trigger]
                tally(final(self).list(a), d) == tally(old(self).list(a), d) + (if d == (entity, stat@) {
                    tally(keys_of(list@), a)
                } else {
                    0
                }),
    {
        let ghost all = keys_of(list@);
        let ghost x: Key = (entity, stat@);
        let mut i: usize = 0;
        while i < list.len()
            invariant
                i <= list@.len(),
                all == keys_of(list@),
                x == (entity, stat@),
                self.wf(),
                forall|a: Key, d: Key| #[trigger]
                    tally(self.list(a), d) == tally(old(self).list(a), d) + (if d == x {
                        tally(all.take(i as int), a)
                    } else {
                        0
                    }),
            decreases list@.len() - i,
        {
            let ghost before = *self;
            self.link((list[i].0, &list[i].1), (entity, stat));
            proof {
                assert(all.take(i + 1) =~= all.take(i as int).push(all[i as int]));
                assert forall|a: Key, d: Key| #[trigger]
                    tally(self.list(a), d) == tally(old(self).list(a), d) + (if d == x {
                        tally(all.take(i + 1), a)
                    } else {
                        0
                    }) by {
                    lemma_tally_push(all.take(i as int), all[i as int], a);
                    lemma_tally_push(before.list(a), x, d);
                    assert(tally(before.list(a), d) == tally(old(self).list(a), d) + (if d == x {
                        tally(all.take(i as int), a)
                    } else {
                        0
                    }));
                }
            }
            i = i + 1;
        }
        assert(all.take(i as int) =~= all);
    }

    /// Takes an edge to `dependent` out for each stat in `list`.
    fn unlink_list(&mut self, list: &Vec<(Entity, String)>, entity: Entity, stat: &String)
        requires
            old(self).wf(),
            forall|a: Key| #[trigger] tally(keys_of(list@), a) <= tally(old(self).list(a), (entity, stat@)),
        ensures
            final(self).wf(),
            forall|a: Key, d: Key| #[trigger]
                tally(final(self).list(a), d) == tally(old(self).list(a), d) - (if d == (entity, stat@) {
                    tally(keys_of(list@), a)
                } else {
                    0
                }),
    {
        let ghost all = keys_of(list@);
        let ghost x: Key = (entity, stat@);
        let mut i: usize = 0;
        while i < list.len()
            invariant
                i <= list@.len(),
                all == keys_of(list@),
                x == (entity, stat@),
                self.wf(),
                forall|a: Key| #[trigger] tally(all, a) <= tally(old(self).list(a), x),
                forall|a: Key, d: Key| #[trigger]
                    tally(self.list(a), d) == tally(old(self).list(a), d) - (if d == x {
                        tally(all.take(i as int), a)
                    } else {
                        0
                    }),
            decreases list@.len() - i,
        {
            let ghost before = *self;
            self.unlink((list[i].0, &list[i].1), (entity, stat));
            proof {
                let now = all.take(i as int);
                let k = all[i as int];
                assert(all.take(i + 1) =~= now.push(k));
                assert(all =~= now.push(k) + all.skip(i + 1));
                lemma_tally_add(now.push(k), all.skip(i + 1), k);
                lemma_tally_push(now, k, k);
                assert(tally(all, k) <= tally(old(self).list(k), x));
                assert(tally(before.list(k), x) > 0);
                assert forall|a: Key, d: Key| #[trigger]
                    tally(self.list(a), d) == tally(old(self).list(a), d) - (if d == x {
                        tally(all.take(i + 1), a)
                    } else {
                        0
                    }) by {
                    lemma_tally_push(now, k, a);
                    assert(tally(before.list(a), d) == tally(old(self).list(a), d) - (if d == x {
                        tally(now, a)
                    } else {
                        0
                    }));
                    if a == k {
                        assert(tally(self.list(k), d) == (if d == x {
                            (tally(before.list(k), d) - 1) as nat
                        } else {
                            tally(before.list(k), d)
                        }));
                    } else {
                        assert(self.list(a) == before.list(a));
                    }
                }
            }
            i = i + 1;
        }
        assert(all.take(i as int) =~= all);
    }

    /// Adds the edges that an expression on `stat` of `owner` makes.
    pub fn link_expr(&mut self, store: &Store, owner: Entity, stat: &String, expr: &CExpr)
        requires
            old(self).wf(),
            store.wf(),
        ensures
            final(self).wf(),
            forall|a: Key, d: Key| #[trigger]
                tally(final(self).list(a), d) == tally(old(self).list(a), d) + (if d == (owner, stat@) {
                    tally(link_sources(store@, owner, refs(expr@)), a)
                } else {
                    0
                }),
    {
        let list = sources_of(store, owner, expr);
        self.link_list(&list, owner, stat);
    }

    /// Takes the edges out that an expression on `stat` of `owner` makes.
    pub fn unlink_expr(&mut self, store: &Store, owner: Entity, stat: &String, expr: &CExpr)
        requires
            old(self).wf(),
            store.wf(),
            forall|a: Key|
                #[trigger] tally(link_sources(store@, owner, refs(expr@)), a) <= tally(
                    old(self).list(a),
                    (owner, stat@),
                ),
        ensures
            final(self).wf(),
            forall|a: Key, d: Key| #[trigger]
                tally(final(self).list(a), d) == tally(old(self).list(a), d) - (if d == (owner, stat@) {
                    tally(link_sources(store@, owner, refs(expr@)), a)
                } else {
                    0
                }),
    {
        let list = sources_of(store, owner, expr);
        self.unlink_list(&list, owner, stat);
    }
}

/// The stats that the references of an expression on `owner` read.
fn sources_of(store: &Store, owner: Entity, expr: &CExpr) -> (list: Vec<(Entity, String)>)
    requires
        store.wf(),
    ensures
        keys_of(list@) == link_sources(store@, owner, refs(expr@)),
{
    let mut found: Vec<&CStatRef> = Vec::new();
    assert(borrowed(found@) =~= Seq::empty());
    collect_refs(expr, &mut found);
    let ghost all = refs(expr@);
    assert(borrowed(found@) =~= all);
    let mut list: Vec<(Entity, String)> = Vec::new();
    let mut i: usize = 0;
    assert(keys_of(list@) =~= Seq::empty());
    assert(all.take(0) =~= Seq::empty());
    while i < found.len()
        invariant
            i <= found@.len(),
            store.wf(),
            all == borrowed(found@),
            keys_of(list@) == link_sources(store@, owner, all.take(i as int)),
        decreases found@.len() - i,
    {
        let r = found[i];
        assert(all[i as int] == r@);
        assert(all.take(i + 1).drop_last() =~= all.take(i as int));
        let target = match &r.source {
            None => Some(owner),
            Some(name) => {
                proof {
                    store.lemma_consistent();
                }
                match store.stats(owner) {
                    Some(stats) => stats.link(name.as_str()),
                    None => None,
                }
            },
        };
        assert(target == linked(store@, owner, r@.source));
        if let Some(t) = target {
            let ghost before = list@;
            list.push((t, r.stat.clone()));
            assert(keys_of(list@) =~= keys_of(before).push((t, r.stat@)));
        }
        i = i + 1;
    }
    assert(all.take(i as int) =~= all);
    list
}

impl StatGraph {
    /// Takes the edges out that the modifiers of a stat make.
    pub fn unlink_node(&mut self, store: &Store, owner: Entity, stat: &String, node: &StatNode)
        requires
            old(self).wf(),
            store.wf(),
            forall|a: Key|
                #[trigger] tally(modifier_sources(store@, owner, node.body().modifiers), a) <= tally(
                    old(self).list(a),
                    (owner, stat@),
                ),
        ensures
            final(self).wf(),
            forall|a: Key, d: Key| #[trigger]
                tally(final(self).list(a), d) == tally(old(self).list(a), d) - (if d == (owner, stat@) {
                    tally(modifier_sources(store@, owner, node.body().modifiers), a)
                } else {
                    0
                }),
    {
        let ghost mods = node.body().modifiers;
        let ghost k: Key = (owner, stat@);
        let mut i: usize = 0;
        assert(mods.take(0) =~= Seq::empty());
        while i < node.modifiers.len()
            invariant
                i <= node.modifiers@.len(),
                mods == stored_list(node.modifiers@),
                k == (owner, stat@),
                self.wf(),
                store.wf(),
                forall|a: Key|
                    #[trigger] tally(modifier_sources(store@, owner, mods), a) <= tally(old(self).list(a), k),
                forall|a: Key, d: Key| #[trigger]
                    tally(self.list(a), d) == tally(old(self).list(a), d) - (if d == k {
                        tally(modifier_sources(store@, owner, mods.take(i as int)), a)
                    } else {
                        0
                    }),
            decreases node.modifiers@.len() - i,
        {
            let modifier = &node.modifiers[i];
            let ghost now = mods.take(i as int);
            let ghost next = mods.take(i + 1);
            let ghost before = *self;
            let ghost part = link_sources(store@, owner, references(modifier@.value));
            proof {
                assert(next.drop_last() =~= now);
                assert(next.last() == modifier@);
                assert forall|a: Key| tally(modifier_sources(store@, owner, next), a) == tally(
                    modifier_sources(store@, owner, now),
                    a,
                ) + #[trigger] tally(part, a) by {
                    lemma_tally_add(modifier_sources(store@, owner, now), part, a);
                }
                assert forall|a: Key| #[trigger] tally(part, a) <= tally(before.list(a), k) by {
                    lemma_sources_prefix(store@, owner, mods, i + 1, a);
                    assert(tally(modifier_sources(store@, owner, mods), a) <= tally(old(self).list(a), k));
                    assert(tally(before.list(a), k) == tally(old(self).list(a), k) - tally(
                        modifier_sources(store@, owner, now),
                        a,
                    ));
                }
            }
            if let StoredValue::Expr(expr) = &modifier.value {
                assert(references(modifier@.value) == refs(expr@));
                self.unlink_expr(store, owner, stat, expr);
            }
            proof {
                assert forall|a: Key, d: Key| #[trigger]
                    tally(self.list(a), d) == tally(old(self).list(a), d) - (if d == k {
                        tally(modifier_sources(store@, owner, next), a)
                    } else {
                        0
                    }) by {
                    assert(tally(before.list(a), d) == tally(old(self).list(a), d) - (if d == k {
                        tally(modifier_sources(store@, owner, now), a)
                    } else {
                        0
                    }));
                    assert(tally(modifier_sources(store@, owner, next), a) == tally(
                        modifier_sources(store@, owner, now),
                        a,
                    ) + tally(part, a));
                }
            }
            i = i + 1;
        }
        assert(mods.take(i as int) =~= mods);
    }

    /// The stats on other entities that read a stat of `entity`, each once.
    pub fn outside_readers(&self, entity: Entity) -> (list: Vec<(Entity, String)>)
        requires
            self.wf(),
        ensures
            keys_of(list@).no_duplicates(),
            forall|d: Key| #[trigger]
                keys_of(list@).contains(d) <==> d.0 != entity && exists|s: Seq<char>| #[trigger]
                    self.list((entity, s)).contains(d),
    {
        let mut seen: PairTable<()> = PairTable::new();
        if let Some(by_stat) = self.edges.get(&entity) {
            let ghost stats = by_stat.keys();
            let n: usize = by_stat.len();
            let mut i: usize = 0;
            while i < n
                invariant
                    self.wf(),
                    self.edges@.contains_key(entity),
                    self.edges@[entity] == *by_stat,
                    by_stat.wf(),
                    stats == by_stat.keys(),
                    n == stats.len(),
                    i <= n,
                    seen.wf(),
                    forall|d: Key| #[trigger]
                        seen@.contains_key(d) <==> d.0 != entity && exists|p: int|
                            0 <= p < i && self.list((entity, #[trigger] stats[p])).contains(d),
                decreases n - i,
            {
                let list = by_stat.value_at(i);
                let ghost all = dependent_list(list@);
                let ghost before = seen@;
                assert(all == self.list((entity, stats[i as int])));
                let mut t: usize = 0;
                while t < list.len()
                    invariant
                        t <= list@.len(),
                        all == dependent_list(list@),
                        seen.wf(),
                        forall|d: Key| #[trigger]
                            seen@.contains_key(d) <==> before.contains_key(d) || (d.0 != entity && all.take(
                                t as int,
                            ).contains(d)),
                    decreases list@.len() - t,
                {
                    let ghost x = all[t as int];
                    assert(x == list@[t as int]@);
                    if list[t].entity != entity {
                        seen.insert((list[t].entity, list[t].stat.clone()), ());
                    }
                    proof {
                        let now = all.take(t as int);
                        let next = all.take(t + 1);
                        assert(next =~= now.push(x));
                        assert forall|d: Key| #[trigger] next.contains(d) <==> now.contains(d) || d == x by {
                            if now.contains(d) {
                                let p = choose|p: int| 0 <= p < now.len() && now[p] == d;
                                assert(next[p] == d);
                            }
                            assert(next[t as int] == x);
                        }
                    }
                    t = t + 1;
                }
                proof {
                    assert(all.take(t as int) =~= all);
                    assert forall|d: Key| #[trigger] seen@.contains_key(d) <==> d.0 != entity && exists|p: int|
                        0 <= p < i + 1 && self.list((entity, #[trigger] stats[p])).contains(d) by {
                        if before.contains_key(d) {
                            let p = choose|p: int|
                                0 <= p < i && self.list((entity, #[trigger] stats[p])).contains(d);
                            assert(self.list((entity, stats[p])).contains(d));
                        }
                        if d.0 != entity && all.contains(d) {
                            assert(self.list((entity, stats[i as int])).contains(d));
                        }
                    }
                }
                i = i + 1;
            }
            proof {
                by_stat.lemma_keys();
                assert forall|d: Key, s: Seq<char>| #[trigger] self.list((entity, s)).contains(d) implies exists|p: int|
                    0 <= p < n && self.list((entity, #[trigger] stats[p])).contains(d) by {
                    assert(by_stat@.contains_key(s));
                    assert(stats.contains(s));
                    let p = choose|p: int| 0 <= p < stats.len() && stats[p] == s;
                    assert(self.list((entity, stats[p])).contains(d));
                }
            }
        }
        let n: usize = seen.len();
        let mut list: Vec<(Entity, String)> = Vec::new();
        let mut i: usize = 0;
        while i < n
            invariant
                n == seen.keys().len(),
                i <= n,
                keys_of(list@) =~= seen.keys().take(i as int),
            decreases n - i,
        {
            let ghost before = keys_of(list@);
            let key = seen.key_at(i);
            list.push((key.0, key.1.clone()));
            assert(keys_of(list@) =~= before.push(seen.keys()[i as int]));
            i = i + 1;
        }
        proof {
            seen.lemma_keys();
            assert(keys_of(list@) =~= seen.keys());
        }
        list
    }
}

/// What the modifiers at the front of a list read, all of them read.
proof fn lemma_sources_prefix(world: World, owner: Entity, mods: Seq<Stored>, n: int, a: Key)
    requires
        0 <= n <= mods.len(),
    ensures
        tally(modifier_sources(world, owner, mods.take(n)), a) <= tally(modifier_sources(world, owner, mods), a),
    decreases mods.len(),
{
    if n < mods.len() {
        assert(mods.drop_last().take(n) =~= mods.take(n));
        lemma_sources_prefix(world, owner, mods.drop_last(), n, a);
        lemma_tally_add(
            modifier_sources(world, owner, mods.drop_last()),
            link_sources(world, owner, references(mods.last().value)),
            a,
        );
    } else {
        assert(mods.take(n) =~= mods);
    }
}

/// The stats that references read through a link.
pub open spec fn link_uses(links: Seq<Link>, name: Seq<char>) -> Seq<Seq<char>>
    decreases links.len(),
{
    if links.len() == 0 {
        Seq::empty()
    } else {
        let before = link_uses(links.drop_last(), name);
        if links.last().source == Some(name) {
            before.push(links.last().stat)
        } else {
            before
        }
    }
}

/// The stats that modifiers read through a link, one for each reference.
pub open spec fn modifier_uses(mods: Seq<Stored>, name: Seq<char>) -> Seq<Seq<char>>
    decreases mods.len(),
{
    if mods.len() == 0 {
        Seq::empty()
    } else {
        modifier_uses(mods.drop_last(), name) + link_uses(references(mods.last().value), name)
    }
}

/// Whether a stat reads through a link of its entity.
pub open spec fn reads_through(world: World, k: Key, name: Seq<char>) -> bool {
    modifier_uses(node_in(world, k).modifiers, name).len() > 0
}

/// How often references read `a` through a link that points at `target`.
pub open spec fn through(target: Option<Entity>, uses: Seq<Seq<char>>, a: Key) -> nat {
    if target == Some(a.0) {
        tally(uses, a.1)
    } else {
        0
    }
}

/// Pointing a link elsewhere moves what is read through it, and nothing else.
proof fn lemma_relinked_links(w1: World, w2: World, owner: Entity, name: Seq<char>, links: Seq<Link>, a: Key)
    requires
        forall|other: Seq<char>|
            other != name ==> linked(w1, owner, Some(other)) == #[trigger] linked(w2, owner, Some(other)),
    ensures
        tally(link_sources(w1, owner, links), a) + through(
            linked(w2, owner, Some(name)),
            link_uses(links, name),
            a,
        ) == tally(link_sources(w2, owner, links), a) + through(
            linked(w1, owner, Some(name)),
            link_uses(links, name),
            a,
        ),
    decreases links.len(),
{
    if links.len() > 0 {
        let rest = links.drop_last();
        let last = links.last();
        lemma_relinked_links(w1, w2, owner, name, rest, a);
        if let Some(target) = linked(w1, owner, last.source) {
            lemma_tally_push(link_sources(w1, owner, rest), (target, last.stat), a);
        }
        if let Some(target) = linked(w2, owner, last.source) {
            lemma_tally_push(link_sources(w2, owner, rest), (target, last.stat), a);
        }
        if last.source == Some(name) {
            lemma_tally_push(link_uses(rest, name), last.stat, a.1);
        } else if let Some(other) = last.source {
            assert(linked(w1, owner, Some(other)) == linked(w2, owner, Some(other)));
        }
    }
}

/// Pointing a link elsewhere moves what is read through it, and nothing else.
pub proof fn lemma_relinked(w1: World, w2: World, owner: Entity, name: Seq<char>, mods: Seq<Stored>, a: Key)
    requires
        forall|other: Seq<char>|
            other != name ==> linked(w1, owner, Some(other)) == #[trigger] linked(w2, owner, Some(other)),
    ensures
        tally(modifier_sources(w1, owner, mods), a) + through(
            linked(w2, owner, Some(name)),
            modifier_uses(mods, name),
            a,
        ) == tally(modifier_sources(w2, owner, mods), a) + through(
            linked(w1, owner, Some(name)),
            modifier_uses(mods, name),
            a,
        ),
    decreases mods.len(),
{
    if mods.len() > 0 {
        let rest = mods.drop_last();
        let links = references(mods.last().value);
        lemma_relinked(w1, w2, owner, name, rest, a);
        lemma_relinked_links(w1, w2, owner, name, links, a);
        lemma_tally_add(modifier_sources(w1, owner, rest), link_sources(w1, owner, links), a);
        lemma_tally_add(modifier_sources(w2, owner, rest), link_sources(w2, owner, links), a);
        lemma_tally_add(modifier_uses(rest, name), link_uses(links, name), a.1);
    }
}

/// What is read through a link is among what is read.
pub proof fn lemma_through_bound(world: World, owner: Entity, name: Seq<char>, mods: Seq<Stored>, a: Key)
    ensures
        through(linked(world, owner, Some(name)), modifier_uses(mods, name), a) <= tally(
            modifier_sources(world, owner, mods),
            a,
        ),
{
    let without = World { links: world.links.remove((owner, name)), ..world };
    lemma_relinked(world, without, owner, name, mods, a);
}

/// What a list of uses says: for each, the stat that is read and the stat
/// that reads it.
pub open spec fn pair_list(list: Seq<(String, String)>) -> Seq<(Seq<char>, Seq<char>)> {
    list.map_values(|p: (String, String)| (p.0@, p.1@))
}

/// Appends the uses of a link in one stat.
fn collect_uses(node: &StatNode, local: &String, link: &String, uses: &mut Vec<(String, String)>)
    ensures
        forall|r: Seq<char>, l: Seq<char>| #[trigger]
            tally(pair_list(final(uses)@), (r, l)) == tally(pair_list(old(uses)@), (r, l)) + (if l == local@ {
                tally(modifier_uses(node.body().modifiers, link@), r)
            } else {
                0
            }),
{
    let ghost mods = node.body().modifiers;
    let mut i: usize = 0;
    assert(mods.take(0) =~= Seq::empty());
    while i < node.modifiers.len()
        invariant
            i <= node.modifiers@.len(),
            mods == stored_list(node.modifiers@),
            forall|r: Seq<char>, l: Seq<char>| #[trigger]
                tally(pair_list(uses@), (r, l)) == tally(pair_list(old(uses)@), (r, l)) + (if l == local@ {
                    tally(modifier_uses(mods.take(i as int), link@), r)
                } else {
                    0
                }),
        decreases node.modifiers@.len() - i,
    {
        let modifier = &node.modifiers[i];
        let ghost now = mods.take(i as int);
        let ghost next = mods.take(i + 1);
        let ghost before = uses@;
        proof {
            assert(next.drop_last() =~= now);
            assert(next.last() == modifier@);
        }
        if let StoredValue::Expr(expr) = &modifier.value {
            let mut found: Vec<&CStatRef> = Vec::new();
            assert(borrowed(found@) =~= Seq::empty());
            collect_refs(expr, &mut found);
            let ghost all = refs(expr@);
            assert(borrowed(found@) =~= all);
            assert(references(modifier@.value) == all);
            let mut t: usize = 0;
            assert(all.take(0) =~= Seq::empty());
            while t < found.len()
                invariant
                    t <= found@.len(),
                    all == borrowed(found@),
                    forall|r: Seq<char>, l: Seq<char>| #[trigger]
                        tally(pair_list(uses@), (r, l)) == tally(pair_list(before), (r, l)) + (if l == local@ {
                            tally(link_uses(all.take(t as int), link@), r)
                        } else {
                            0
                        }),
                decreases found@.len() - t,
            {
                let reference = found[t];
                let ghost was = uses@;
                let ghost short = all.take(t as int);
                let ghost long = all.take(t + 1);
                proof {
                    assert(all[t as int] == reference@);
                    assert(long.drop_last() =~= short);
                }
                let hit = match &reference.source {
                    Some(name) => *name == *link,
                    None => false,
                };
                assert(hit == (reference@.source == Some(link@)));
                if hit {
                    uses.push((reference.stat.clone(), local.clone()));
                    assert(pair_list(uses@) =~= pair_list(was).push((reference.stat@, local@)));
                }
                proof {
                    assert forall|r: Seq<char>, l: Seq<char>| #[trigger]
                        tally(pair_list(uses@), (r, l)) == tally(pair_list(before), (r, l)) + (if l == local@ {
                            tally(link_uses(long, link@), r)
                        } else {
                            0
                        }) by {
                        assert(tally(pair_list(was), (r, l)) == tally(pair_list(before), (r, l)) + (if l == local@ {
                            tally(link_uses(short, link@), r)
                        } else {
                            0
                        }));
                        if hit {
                            lemma_tally_push(pair_list(was), (reference.stat@, local@), (r, l));
                            lemma_tally_push(link_uses(short, link@), reference.stat@, r);
                        }
                    }
                }
                t = t + 1;
            }
            assert(all.take(t as int) =~= all);
        }
        proof {
            assert forall|r: Seq<char>, l: Seq<char>| #[trigger]
                tally(pair_list(uses@), (r, l)) == tally(pair_list(old(uses)@), (r, l)) + (if l == local@ {
                    tally(modifier_uses(next, link@), r)
                } else {
                    0
                }) by {
                assert(tally(pair_list(before), (r, l)) == tally(pair_list(old(uses)@), (r, l)) + (if l == local@ {
                    tally(modifier_uses(now, link@), r)
                } else {
                    0
                }));
                lemma_tally_add(modifier_uses(now, link@), link_uses(references(modifier@.value), link@), r);
            }
        }
        i = i + 1;
    }
    assert(mods.take(i as int) =~= mods);
}

/// Every use of a link in the stats of an entity.
pub fn uses_of(stats: &Stats, link: &String) -> (uses: Vec<(String, String)>)
    requires
        stats.wf(),
    ensures
        forall|r: Seq<char>, l: Seq<char>| #[trigger]
            tally(pair_list(uses@), (r, l)) == (if stats@.nodes.contains_key(l) {
                tally(modifier_uses(stats@.nodes[l].modifiers, link@), r)
            } else {
                0
            }),
{
    let ghost locals = stats.names();
    proof {
        stats.lemma_names();
    }
    let n: usize = stats.len();
    let mut uses: Vec<(String, String)> = Vec::new();
    let mut i: usize = 0;
    while i < n
        invariant
            stats.wf(),
            locals == stats.names(),
            locals.no_duplicates(),
            n == locals.len(),
            i <= n,
            forall|r: Seq<char>, l: Seq<char>| #[trigger]
                tally(pair_list(uses@), (r, l)) == (if locals.take(i as int).contains(l) {
                    tally(modifier_uses(stats@.nodes[l].modifiers, link@), r)
                } else {
                    0
                }),
        decreases n - i,
    {
        let (local, node) = stats.node_at(i);
        let ghost before = uses@;
        collect_uses(node, local, link, &mut uses);
        proof {
            let now = locals.take(i as int);
            let next = locals.take(i + 1);
            assert(next =~= now.push(local@));
            assert(!now.contains(local@)) by {
                if now.contains(local@) {
                    let p = choose|p: int| 0 <= p < now.len() && now[p] == local@;
                    assert(locals[p] == locals[i as int]);
                }
            }
            assert forall|l: Seq<char>| #[trigger] next.contains(l) <==> now.contains(l) || l == local@ by {
                if now.contains(l) {
                    let p = choose|p: int| 0 <= p < now.len() && now[p] == l;
                    assert(next[p] == l);
                }
                assert(next[i as int] == local@);
            }
            assert forall|r: Seq<char>, l: Seq<char>| #[trigger]
                tally(pair_list(uses@), (r, l)) == (if next.contains(l) {
                    tally(modifier_uses(stats@.nodes[l].modifiers, link@), r)
                } else {
                    0
                }) by {
                assert(tally(pair_list(before), (r, l)) == (if now.contains(l) {
                    tally(modifier_uses(stats@.nodes[l].modifiers, link@), r)
                } else {
                    0
                }));
            }
        }
        i = i + 1;
    }
    proof {
        assert(locals.take(n as int) =~= locals);
        assert forall|l: Seq<char>| stats@.nodes.contains_key(l) <==> #[trigger] locals.contains(l) by {}
    }
    uses
}

impl StatGraph {
    /// Adds an edge for each of the uses, from the stat of `remote` that is
    /// read to the stat of `owner` that reads it.
    pub fn link_uses(&mut self, remote: Entity, owner: Entity, uses: &Vec<(String, String)>)
        requires
            old(self).wf(),
        ensures
            final(self).wf(),
            forall|a: Key, d: Key| #[trigger]
                tally(final(self).list(a), d) == tally(old(self).list(a), d) + (if a.0 == remote && d.0 == owner {
                    tally(pair_list(uses@), (a.1, d.1))
                } else {
                    0
                }),
    {
        let ghost all = pair_list(uses@);
        let mut i: usize = 0;
        while i < uses.len()
            invariant
                i <= uses@.len(),
                all == pair_list(uses@),
                self.wf(),
                forall|a: Key, d: Key| #[trigger]
                    tally(self.list(a), d) == tally(old(self).list(a), d) + (if a.0 == remote && d.0 == owner {
                        tally(all.take(i as int), (a.1, d.1))
                    } else {
                        0
                    }),
            decreases uses@.len() - i,
        {
            let ghost before = *self;
            self.link((remote, &uses[i].0), (owner, &uses[i].1));
            proof {
                let x = all[i as int];
                let now = all.take(i as int);
                assert(x == (uses@[i as int].0@, uses@[i as int].1@));
                assert(all.take(i + 1) =~= now.push(x));
                assert forall|a: Key, d: Key| #[trigger]
                    tally(self.list(a), d) == tally(old(self).list(a), d) + (if a.0 == remote && d.0 == owner {
                        tally(all.take(i + 1), (a.1, d.1))
                    } else {
                        0
                    }) by {
                    lemma_tally_push(now, x, (a.1, d.1));
                    lemma_tally_push(before.list(a), (owner, x.1), d);
                    assert(tally(before.list(a), d) == tally(old(self).list(a), d) + (if a.0 == remote && d.0
                        == owner {
                        tally(now, (a.1, d.1))
                    } else {
                        0
                    }));
                }
            }
            i = i + 1;
        }
        assert(all.take(i as int) =~= all);
    }

    /// Takes an edge out for each of the uses.
    pub fn unlink_uses(&mut self, remote: Entity, owner: Entity, uses: &Vec<(String, String)>)
        requires
            old(self).wf(),
            forall|r: Seq<char>, l: Seq<char>|
                #[trigger] tally(pair_list(uses@), (r, l)) <= tally(old(self).list((remote, r)), (owner, l)),
        ensures
            final(self).wf(),
            forall|a: Key, d: Key| #[trigger]
                tally(final(self).list(a), d) == tally(old(self).list(a), d) - (if a.0 == remote && d.0 == owner {
                    tally(pair_list(uses@), (a.1, d.1))
                } else {
                    0
                }),
    {
        let ghost all = pair_list(uses@);
        let mut i: usize = 0;
        while i < uses.len()
            invariant
                i <= uses@.len(),
                all == pair_list(uses@),
                self.wf(),
                forall|r: Seq<char>, l: Seq<char>|
                    #[trigger] tally(all, (r, l)) <= tally(old(self).list((remote, r)), (owner, l)),
                forall|a: Key, d: Key| #[trigger]
                    tally(self.list(a), d) == tally(old(self).list(a), d) - (if a.0 == remote && d.0 == owner {
                        tally(all.take(i as int), (a.1, d.1))
                    } else {
                        0
                    }),
            decreases uses@.len() - i,
        {
            let ghost before = *self;
            self.unlink((remote, &uses[i].0), (owner, &uses[i].1));
            proof {
                let x = all[i as int];
                let now = all.take(i as int);
                let k: Key = (remote, x.0);
                let y: Key = (owner, x.1);
                assert(x == (uses@[i as int].0@, uses@[i as int].1@));
                assert(all.take(i + 1) =~= now.push(x));
                assert(all =~= now.push(x) + all.skip(i + 1));
                lemma_tally_add(now.push(x), all.skip(i + 1), x);
                lemma_tally_push(now, x, x);
                assert(tally(all, (x.0, x.1)) <= tally(old(self).list(k), y));
                assert(tally(before.list(k), y) > 0);
                assert forall|a: Key, d: Key| #[trigger]
                    tally(self.list(a), d) == tally(old(self).list(a), d) - (if a.0 == remote && d.0 == owner {
                        tally(all.take(i + 1), (a.1, d.1))
                    } else {
                        0
                    }) by {
                    lemma_tally_push(now, x, (a.1, d.1));
                    assert(tally(before.list(a), d) == tally(old(self).list(a), d) - (if a.0 == remote && d.0
                        == owner {
                        tally(now, (a.1, d.1))
                    } else {
                        0
                    }));
                    if a == k {
                        assert(tally(self.list(k), d) == (if d == y {
                            (tally(before.list(k), d) - 1) as nat
                        } else {
                            tally(before.list(k), d)
                        }));
                    } else {
                        assert(self.list(a) == before.list(a));
                    }
                }
            }
            i = i + 1;
        }
        assert(all.take(i as int) =~= all);
    }
}

} // verus!
