//! All stats of all entities, as one state.

use crate::entity::Entity;
use crate::scalar::Scalar;
use crate::stats::{empty_node, Container, Node, StatNode, Stats};
use crate::table::IdTable;
use vstd::prelude::*;

verus! {

/// A stat of an entity.
pub type Key = (Entity, Seq<char>);

/// A stat of an entity, asked for under a tag set.
#[verifier::ext_equal]
pub struct Query {
    pub key: Key,
    pub tags: u64,
}

/// The stats of all entities.
#[verifier::ext_equal]
pub struct World {
    /// The entities that carry stats.
    pub carriers: Set<Entity>,
    /// What each stat is made of.
    pub nodes: Map<Key, Node>,
    /// Where the named links of each entity point.
    pub links: Map<Key, Entity>,
    /// The values that have been resolved and are still good.
    pub cache: Map<Query, Scalar>,
}

/// The stats on `entity`.
pub open spec fn nodes_of(world: World, entity: Entity) -> Map<Seq<char>, Node> {
    Map::new(|s: Seq<char>| world.nodes.contains_key((entity, s)), |s: Seq<char>| world.nodes[(entity, s)])
}

/// The links of `entity`.
pub open spec fn links_of(world: World, entity: Entity) -> Map<Seq<char>, Entity> {
    Map::new(|s: Seq<char>| world.links.contains_key((entity, s)), |s: Seq<char>| world.links[(entity, s)])
}

/// The cached values of `entity`.
pub open spec fn cache_of(world: World, entity: Entity) -> Map<(Seq<char>, u64), Scalar> {
    Map::new(
        |q: (Seq<char>, u64)| world.cache.contains_key(Query { key: (entity, q.0), tags: q.1 }),
        |q: (Seq<char>, u64)| world.cache[Query { key: (entity, q.0), tags: q.1 }],
    )
}

/// `container` holds what the world says of `entity`.
pub open spec fn container_of(world: World, entity: Entity, container: Container) -> bool {
    &&& container.nodes == nodes_of(world, entity)
    &&& container.links == links_of(world, entity)
    &&& container.cache == cache_of(world, entity)
}

/// The cached values with those of one stat replaced.
pub open spec fn with_cache(cache: Map<Query, Scalar>, key: Key, part: Map<u64, Scalar>) -> Map<Query, Scalar> {
    Map::new(
        |q: Query|
            if q.key == key {
                part.contains_key(q.tags)
            } else {
                cache.contains_key(q)
            },
        |q: Query|
            if q.key == key {
                part[q.tags]
            } else {
                cache[q]
            },
    )
}

/// The world with one stat replaced.
pub open spec fn with_node(world: World, key: Key, node: Node) -> World {
    World { nodes: world.nodes.insert(key, node), ..world }
}

/// What a stat is made of; nothing, where it does not exist.
pub open spec fn node_in(world: World, key: Key) -> Node {
    if world.nodes.contains_key(key) {
        world.nodes[key]
    } else {
        empty_node()
    }
}

/// The world in which the stat exists.
pub open spec fn touched(world: World, key: Key) -> World {
    with_node(world, key, node_in(world, key))
}

/// The world without the stat.
pub open spec fn without_node(world: World, key: Key) -> World {
    World { nodes: world.nodes.remove(key), cache: with_cache(world.cache, key, Map::empty()), ..world }
}

/// The world with a link pointed at `target`, or cleared.
pub open spec fn with_link(world: World, entity: Entity, name: Seq<char>, target: Option<Entity>) -> World {
    World {
        links: match target {
            Some(t) => world.links.insert((entity, name), t),
            None => world.links.remove((entity, name)),
        },
        ..world
    }
}

/// The world in which `entity` carries no stats.
pub open spec fn without_entity(world: World, entity: Entity) -> World {
    World {
        carriers: world.carriers.remove(entity),
        nodes: Map::new(|k: Key| k.0 != entity && world.nodes.contains_key(k), |k: Key| world.nodes[k]),
        links: Map::new(|k: Key| k.0 != entity && world.links.contains_key(k), |k: Key| world.links[k]),
        cache: Map::new(|q: Query| q.key.0 != entity && world.cache.contains_key(q), |q: Query| world.cache[q]),
    }
}

/// Only entities that carry stats have any, and only stats that exist have
/// cached values. There are finitely many stats.
pub open spec fn consistent(world: World) -> bool {
    &&& world.nodes.dom().finite()
    &&& forall|k: Key| #[trigger] world.nodes.contains_key(k) ==> world.carriers.contains(k.0)
    &&& forall|k: Key| #[trigger] world.links.contains_key(k) ==> world.carriers.contains(k.0)
    &&& forall|q: Query| #[trigger] world.cache.contains_key(q) ==> world.nodes.contains_key(q.key)
}

/// The stats of all entities.
pub struct Store {
    table: IdTable<Stats>,
}

/// What a table of containers holds.
spec fn flat(table: Map<u64, Stats>) -> World {
    World {
        carriers: table.dom(),
        nodes: Map::new(
            |k: Key| table.contains_key(k.0) && table[k.0]@.nodes.contains_key(k.1),
            |k: Key| table[k.0]@.nodes[k.1],
        ),
        links: Map::new(
            |k: Key| table.contains_key(k.0) && table[k.0]@.links.contains_key(k.1),
            |k: Key| table[k.0]@.links[k.1],
        ),
        cache: Map::new(
            |q: Query| table.contains_key(q.key.0) && table[q.key.0]@.cache.contains_key((q.key.1, q.tags)),
            |q: Query| table[q.key.0]@.cache[(q.key.1, q.tags)],
        ),
    }
}

impl View for Store {
    type V = World;

    closed spec fn view(&self) -> World {
        flat(self.table@)
    }
}

/// The keys of stats on the entities of a list are finitely many.
proof fn lemma_finite_nodes(table: Map<u64, Stats>, list: Seq<u64>)
    requires
        forall|e: u64| #[trigger] table.contains_key(e) ==> table[e].wf(),
        forall|i: int| 0 <= i < list.len() ==> #[trigger] table.contains_key(list[i]),
    ensures
        Set::new(|k: Key| list.contains(k.0) && flat(table).nodes.contains_key(k)).finite(),
    decreases list.len(),
{
    let all = Set::new(|k: Key| list.contains(k.0) && flat(table).nodes.contains_key(k));
    if list.len() == 0 {
        assert(all =~= Set::empty());
    } else {
        let rest = list.drop_last();
        lemma_finite_nodes(table, rest);
        let before = Set::new(|k: Key| rest.contains(k.0) && flat(table).nodes.contains_key(k));
        let e = list.last();
        assert(table.contains_key(list[list.len() - 1]));
        table[e].lemma_names();
        let own = table[e]@.nodes.dom();
        own.lemma_map_finite(|s: Seq<char>| (e, s));
        let mine = own.map(|s: Seq<char>| (e, s));
        assert forall|k: Key| all.contains(k) implies before.union(mine).contains(k) by {
            if k.0 == e {
                assert(own.contains(k.1));
                assert(mine.contains(k));
            } else {
                let i = choose|i: int| 0 <= i < list.len() && list[i] == k.0;
                assert(rest[i] == k.0);
            }
        }
        vstd::set_lib::lemma_set_subset_finite(before.union(mine), all);
    }
}

impl Store {
    /// The lookup tables are in order.
    pub closed spec fn wf(&self) -> bool {
        &&& self.table.wf()
        &&& forall|e: u64| #[trigger] self.table@.contains_key(e) ==> self.table@[e].wf()
        &&& forall|e: u64, q: (Seq<char>, u64)|
            #![trigger self.table@[e]@.cache.contains_key(q)]
            self.table@.contains_key(e) && self.table@[e]@.cache.contains_key(q) ==> self.table@[e]@.nodes.contains_key(
                q.0,
            )
    }

    /// What the store holds is consistent.
    pub proof fn lemma_consistent(&self)
        requires
            self.wf(),
        ensures
            consistent(self@),
    {
        self.table.lemma_keys();
        let list = self.table.keys();
        assert forall|i: int| 0 <= i < list.len() implies #[trigger] self.table@.contains_key(list[i]) by {
            assert(list.contains(list[i]));
        }
        lemma_finite_nodes(self.table@, list);
        assert forall|k: Key| self@.nodes.contains_key(k) implies list.contains(k.0) by {}
        assert(self@.nodes.dom() =~= Set::new(
            |k: Key| list.contains(k.0) && flat(self.table@).nodes.contains_key(k),
        ));
    }

    /// A store without entities.
    pub fn new() -> (store: Store)
        ensures
            store.wf(),
            store@ == (World {
                carriers: Set::empty(),
                nodes: Map::empty(),
                links: Map::empty(),
                cache: Map::empty(),
            }),
    {
        let store = Store { table: IdTable::new() };
        assert(store@ =~= (World {
            carriers: Set::empty(),
            nodes: Map::empty(),
            links: Map::empty(),
            cache: Map::empty(),
        }));
        store
    }

    /// Whether an entity carries stats.
    pub fn carries(&self, entity: Entity) -> (r: bool)
        ensures
            r == self@.carriers.contains(entity),
    {
        self.table.contains(&entity)
    }

    /// The container of an entity.
    pub fn stats(&self, entity: Entity) -> (stats: Option<&Stats>)
        requires
            self.wf(),
        ensures
            match stats {
                Some(stats) => {
                    &&& stats.wf()
                    &&& self@.carriers.contains(entity)
                    &&& container_of(self@, entity, stats@)
                },
                None => !self@.carriers.contains(entity),
            },
    {
        let found = self.table.get(&entity);
        proof {
            if let Some(stats) = found {
                assert(stats@.nodes =~= nodes_of(self@, entity));
                assert(stats@.links =~= links_of(self@, entity));
                assert(stats@.cache =~= cache_of(self@, entity));
            }
        }
        found
    }

    /// A stat of an entity.
    pub(crate) fn node(&self, entity: Entity, stat: &String) -> (node: Option<&StatNode>)
        requires
            self.wf(),
        ensures
            match node {
                Some(node) => {
                    &&& node.wf()
                    &&& self@.nodes.contains_key((entity, stat@))
                    &&& self@.nodes[(entity, stat@)] == node.body()
                    &&& forall|t: u64| #[trigger]
                        self@.cache.contains_key(Query { key: (entity, stat@), tags: t }) <==> node.cache@.contains_key(t)
                    &&& forall|t: u64|
                        node.cache@.contains_key(t) ==> #[trigger] node.cache@[t] == self@.cache[Query {
                            key: (entity, stat@),
                            tags: t,
                        }]
                },
                None => !self@.nodes.contains_key((entity, stat@)),
            },
    {
        match self.table.get(&entity) {
            Some(stats) => {
                let node = stats.node(stat);
                proof {
                    if let Some(n) = node {
                        assert forall|t: u64| #[trigger]
                            self@.cache.contains_key(Query { key: (entity, stat@), tags: t }) <==> n.cache@.contains_key(
                                t,
                            ) by {
                            assert(stats@.cache.contains_key((stat@, t)) <==> n.cache@.contains_key(t));
                        }
                    }
                }
                node
            },
            None => None,
        }
    }

    /// A stat of an entity, for writing.
    pub(crate) fn node_mut(&mut self, entity: Entity, stat: &String) -> (node: Option<&mut StatNode>)
        requires
            old(self).wf(),
        ensures
            match node {
                Some(node) => {
                    &&& node.wf()
                    &&& old(self)@.nodes.contains_key((entity, stat@))
                    &&& old(self)@.nodes[(entity, stat@)] == node.body()
                    &&& forall|t: u64| #[trigger]
                        old(self)@.cache.contains_key(Query { key: (entity, stat@), tags: t })
                            <==> node.cache@.contains_key(t)
                    &&& forall|t: u64|
                        node.cache@.contains_key(t) ==> #[trigger] node.cache@[t] == old(self)@.cache[Query {
                            key: (entity, stat@),
                            tags: t,
                        }]
                    &&& final(node).wf() ==> final(self).wf()
                    &&& final(self)@ =~= (World {
                        nodes: old(self)@.nodes.insert((entity, stat@), final(node).body()),
                        cache: with_cache(old(self)@.cache, (entity, stat@), final(node).cache@),
                        ..old(self)@
                    })
                },
                None => {
                    &&& !old(self)@.nodes.contains_key((entity, stat@))
                    &&& final(self).wf()
                    &&& final(self)@ =~= old(self)@
                },
            },
    {
        match self.table.get_mut(&entity) {
            Some(stats) => stats.node_mut(stat),
            None => None,
        }
    }

    /// Makes sure that a stat of an entity exists.
    pub(crate) fn ensure_node(&mut self, entity: Entity, stat: &String)
        requires
            old(self).wf(),
            old(self)@.carriers.contains(entity),
        ensures
            final(self).wf(),
            final(self)@ =~= touched(old(self)@, (entity, stat@)),
    {
        if let Some(stats) = self.table.get_mut(&entity) {
            stats.ensure_node(stat);
        }
    }

    /// Takes a stat of an entity out.
    pub(crate) fn remove_node(&mut self, entity: Entity, stat: &String)
        requires
            old(self).wf(),
        ensures
            final(self).wf(),
            final(self)@ =~= without_node(old(self)@, (entity, stat@)),
    {
        if let Some(stats) = self.table.get_mut(&entity) {
            stats.remove_node(stat);
        }
    }

    /// Points a link of an entity at `target`, or clears it.
    pub(crate) fn set_link(&mut self, entity: Entity, name: &String, target: Option<Entity>)
        requires
            old(self).wf(),
            old(self)@.carriers.contains(entity),
        ensures
            final(self).wf(),
            final(self)@ =~= with_link(old(self)@, entity, name@, target),
    {
        if let Some(stats) = self.table.get_mut(&entity) {
            stats.set_link(name, target);
        }
    }

    /// Takes the stats of an entity out.
    pub(crate) fn remove(&mut self, entity: Entity)
        requires
            old(self).wf(),
        ensures
            final(self).wf(),
            final(self)@ =~= without_entity(old(self)@, entity),
    {
        self.table.remove(&entity);
    }

    /// Gives an entity that carries no stats an empty container.
    pub(crate) fn add_carrier(&mut self, entity: Entity)
        requires
            old(self).wf(),
            !old(self)@.carriers.contains(entity),
        ensures
            final(self).wf(),
            final(self)@ =~= (World { carriers: old(self)@.carriers.insert(entity), ..old(self)@ }),
    {
        self.table.insert(entity, Stats::new());
    }
}

} // verus!
