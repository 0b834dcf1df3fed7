//! [`StatsMutator`] and [`StatsReader`]: the ways in which stats are read and
//! written.
//!
//! All mutation goes through [`StatsMutator`], which keeps the dependency
//! graph consistent: when a value changes, exactly the stats that (directly
//! or transitively) depend on it are recomputed, once each, in dependency
//! order, across entity boundaries through named links too.

use crate::entity::Entity;
use crate::error::{Fault, StatError};
use crate::eval::{stat_value, trail, Evaluator};
use crate::expr::{compile, compiled, Expression};
use crate::graph::{
    dependents, feeds, keys_of, lemma_same_link_sources, lemma_same_modifier_sources, lemma_tally_add, lemma_tally_contains,
    lemma_relinked, lemma_through_bound, lemma_wired, link_sources, linked, modifier_sources, modifier_uses, pair_list,
    reads_through, references, sources, tally, uses_of, wired, StatGraph,
};
use crate::modifier::{
    append_names, entry_list, handle_list, AppliedModifiers, Contribution, IntoModifierValue, Modifier,
    ModifierHandle, ModifierSet, ModifierValue,
};
use crate::parser::{names, parse_stat_path, path_parsed};
use crate::recompute::{lemma_settled_frame, recompute, settled};
use crate::scalar::{is_equal, Arithmetic, Scalar};
use crate::state::{
    add_fault, apply_fault, attached, base_equals, base_set, based, carried, detached, detached_seeds, drained,
    drained_entry, entries_fault, entries_parts, evaluated, installed, lemma_with_seed, modifier_added, modifier_fault, modifier_part,
    numbered, outcome, owners, part_handles, part_seeds, place_of, relinked, remembered, remove_fault, scene_of,
    set_applied, set_fault, set_removed, stat_removed, stats_inserted, torn_down, uninstalled, with_carrier, with_seed,
    Drained, Part, State,
};
use crate::stats::{
    pending_list, stored_list, PendingEntry, StatConfig, Stats, Stored, StoredModifier, StoredValue,
};
use crate::table::{IdTable, NameIndex};
use crate::tags::{fields, listed, resolved, sound, TagRegistry, TagSet};
use crate::tree::refs;
use crate::world::{consistent, container_of, node_in, nodes_of, touched, with_link, without_entity, Key, Query, Store, World};
use vstd::prelude::*;

verus! {

/// Allocates unique ids for [`ModifierHandle`](crate::ModifierHandle)s.
#[derive(Debug)]
pub struct ModifierIdGen(u64);

impl ModifierIdGen {
    /// The last number given out.
    pub closed spec fn last(&self) -> u64 {
        self.0
    }

    /// A generator that has given out nothing.
    pub fn new() -> (ids: ModifierIdGen)
        ensures
            ids.last() == 0,
    {
        ModifierIdGen(0)
    }

    /// The last number given out.
    pub fn last_id(&self) -> (id: u64)
        ensures
            id == self.last(),
    {
        self.0
    }

    /// The next number.
    pub fn next_id(&mut self) -> (id: u64)
        requires
            old(self).last() < u64::MAX,
        ensures
            id == old(self).last() + 1,
            final(self).last() == id,
    {
        self.0 = self.0 + 1;
        self.0
    }
}

impl Default for ModifierIdGen {
    fn default() -> (ids: ModifierIdGen)
        ensures
            ids.last() == 0,
    {
        ModifierIdGen::new()
    }
}

/// The entities whose resolved stat values changed since the last sweep. Fed
/// by [`StatsMutator`]'s recomputation.
#[derive(Debug)]
pub struct DirtyStats {
    table: IdTable<()>,
}

impl DirtyStats {
    /// The lookup table is in order.
    pub closed spec fn wf(&self) -> bool {
        self.table.wf()
    }

    /// The entities, in the order in which they were first marked.
    pub closed spec fn list(&self) -> Seq<Entity> {
        self.table.keys()
    }

    /// No entity is marked.
    pub fn new() -> (dirty: DirtyStats)
        ensures
            dirty.wf(),
            dirty@ == Set::<Entity>::empty(),
    {
        let dirty = DirtyStats { table: IdTable::new() };
        assert(dirty@ =~= Set::<Entity>::empty());
        dirty
    }

    /// Marks an entity.
    pub fn mark(&mut self, entity: Entity)
        requires
            old(self).wf(),
        ensures
            final(self).wf(),
            final(self)@ == old(self)@.insert(entity),
    {
        self.table.insert(entity, ());
        assert(self@ =~= old(self)@.insert(entity));
    }

    /// The marked entities, each once.
    pub fn entities(&self) -> (list: Vec<Entity>)
        requires
            self.wf(),
        ensures
            list@.no_duplicates(),
            list@.to_set() == self@,
    {
        let n: usize = self.table.len();
        let mut list: Vec<Entity> = Vec::new();
        let mut i: usize = 0;
        while i < n
            invariant
                n == self.table.keys().len(),
                i <= n,
                list@ =~= self.table.keys().take(i as int),
            decreases n - i,
        {
            list.push(*self.table.key_at(i));
            i = i + 1;
        }
        proof {
            self.table.lemma_keys();
            assert(list@ =~= self.table.keys());
            assert(list@.to_set() =~= self@);
        }
        list
    }
}

impl Default for DirtyStats {
    fn default() -> (dirty: DirtyStats)
        ensures
            dirty.wf(),
            dirty@ == Set::<Entity>::empty(),
    {
        DirtyStats::new()
    }
}

impl View for DirtyStats {
    type V = Set<Entity>;

    closed spec fn view(&self) -> Set<Entity> {
        self.table@.dom()
    }
}

/// Recorded whenever a resolved stat value on an entity actually changes.
/// Only stats that have been evaluated at least once (and are therefore
/// cached) produce events.
#[derive(Clone, Debug, PartialEq)]
pub struct StatChanged {
    /// The entity whose stat changed.
    pub entity: Entity,
    /// The name of the stat that changed.
    pub stat: String,
}

impl View for StatChanged {
    type V = Key;

    open spec fn view(&self) -> Key {
        (self.entity, self.stat@)
    }
}

/// What a list of events says.
pub open spec fn event_list(list: Seq<StatChanged>) -> Seq<Key> {
    list.map_values(|e: StatChanged| e@)
}

/// Full read/write access to the stat graph.
///
/// Every mutation recomputes exactly the (transitively) affected stats, once
/// each, in dependency order, and marks the affected entities as changed only
/// when a resolved value actually moved, so change tracking and
/// [`StatChanged`] events stay quiet for no-op writes.
pub struct StatsMutator<A: Arithmetic> {
    host: A,
    tags: TagRegistry,
    config: StatConfig,
    store: Store,
    graph: StatGraph,
    ids: ModifierIdGen,
    dirty: DirtyStats,
    events: Vec<StatChanged>,
}

impl<A: Arithmetic> StatsMutator<A> {
    /// The parts are in order: the lookup tables are, the graph holds an edge
    /// for each reference of a modifier and no other, and every modifier has
    /// a number that was given out.
    pub closed spec fn wf(&self) -> bool {
        &&& sound(self.tags@)
        &&& self.config.wf()
        &&& self.store.wf()
        &&& self.graph.wf()
        &&& self.dirty.wf()
        &&& wired(self.store@, self.graph)
        &&& numbered(self.store@, self.ids.last())
    }

    /// The arithmetic in use.
    pub closed spec fn host(&self) -> A {
        self.host
    }

    /// What holds of every state.
    pub proof fn lemma_valid(&self)
        requires
            self.wf(),
        ensures
            consistent(self@.world),
            numbered(self@.world, self@.last_id),
            sound(self@.tags),
    {
        self.store.lemma_consistent();
    }

    /// The last number given to a modifier.
    pub fn last_id(&self) -> (id: u64)
        ensures
            id == self@.last_id,
    {
        self.ids.last_id()
    }

    /// An empty stat graph.
    pub fn new(host: A, tags: TagRegistry, config: StatConfig) -> (mutator: StatsMutator<A>)
        requires
            sound(tags@),
            config.wf(),
        ensures
            mutator.wf(),
            mutator.host() == host,
            mutator@ == (State {
                tags: tags@,
                rules: config@,
                world: World {
                    carriers: Set::empty(),
                    nodes: Map::empty(),
                    links: Map::empty(),
                    cache: Map::empty(),
                },
                last_id: 0,
                dirty: Set::empty(),
                events: Seq::empty(),
            }),
    {
        let mutator = StatsMutator {
            host,
            tags,
            config,
            store: Store::new(),
            graph: StatGraph::new(),
            ids: ModifierIdGen::new(),
            dirty: DirtyStats::new(),
            events: Vec::new(),
        };
        assert(mutator@.events =~= Seq::empty());
        mutator
    }

    // -- reads --------------------------------------------------------------

    /// Resolves a stat's value with no tag filter. Missing entities, stats,
    /// or modifiers evaluate to the stat's reduction identity (`0` for sum,
    /// `1` for product). The result is cached, making repeated reads cheap.
    pub fn get(&mut self, entity: Entity, stat: &str) -> (v: Scalar)
        requires
            old(self).wf(),
        ensures
            final(self).wf(),
            final(self).host() == old(self).host(),
            stat_value(
                scene_of(old(self).host(), old(self)@),
                Seq::empty(),
                (Query { key: (entity, stat@), tags: 0 }),
                v,
            ),
            final(self)@ == (State {
                world: remembered(old(self)@.world, (Query { key: (entity, stat@), tags: 0 }), v),
                ..old(self)@
            }),
    {
        self.get_filtered(entity, stat, TagSet::none())
    }

    /// Resolves a stat's value under a tag query: only modifiers whose tags
    /// are a subset of `tags` participate. A new tag combination is resolved
    /// and cached on first use.
    pub fn get_filtered(&mut self, entity: Entity, stat: &str, tags: TagSet) -> (v: Scalar)
        requires
            old(self).wf(),
        ensures
            final(self).wf(),
            final(self).host() == old(self).host(),
            stat_value(
                scene_of(old(self).host(), old(self)@),
                Seq::empty(),
                (Query { key: (entity, stat@), tags: tags@ }),
                v,
            ),
            final(self)@ == (State {
                world: remembered(old(self)@.world, (Query { key: (entity, stat@), tags: tags@ }), v),
                ..old(self)@
            }),
    {
        let name = stat.to_owned();
        let ghost k: Key = (entity, stat@);
        let ghost q = Query { key: k, tags: tags@ };
        let ghost before = self.store@;
        proof {
            self.store.lemma_consistent();
        }
        let v = self.resolve(entity, &name, tags);
        if let Some(node) = self.store.node(entity, &name) {
            if node.cache.contains(&tags.bits()) {
                assert(before.cache.contains_key(Query { key: k, tags: tags@ }));
                return v;
            }
            assert(!before.cache.contains_key(Query { key: k, tags: tags@ }));
        }
        if self.store.carries(entity) {
            self.store.ensure_node(entity, &name);
            if let Some(node) = self.store.node_mut(entity, &name) {
                node.cache.insert(tags.bits(), v);
            }
            proof {
                assert(!before.cache.contains_key(q));
                assert(self.store@ =~= remembered(before, q, v));
                lemma_wired_touched(before, self.store@, self.graph, k);
            }
        }
        v
    }

    /// Resolves a query without caching its value.
    pub(crate) fn resolve(&self, entity: Entity, stat: &String, tags: TagSet) -> (v: Scalar)
        requires
            self.wf(),
        ensures
            stat_value(
                scene_of(self.host(), self@),
                Seq::empty(),
                (Query { key: (entity, stat@), tags: tags@ }),
                v,
            ),
    {
        let mut path: Vec<(Entity, String, TagSet)> = Vec::new();
        assert(trail(path@) =~= Seq::empty());
        let env = Evaluator { host: &self.host, config: &self.config, store: &self.store };
        env.eval_stat(&mut path, entity, stat, tags)
    }

    /// Like [`get_filtered`](Self::get_filtered), with the tag query given as
    /// a name list such as `"fire, sword"`. Fails on unregistered tag names.
    pub fn get_with_tags(&mut self, entity: Entity, stat: &str, tags: &str) -> (r: Result<Scalar, StatError>)
        requires
            old(self).wf(),
        ensures
            final(self).wf(),
            final(self).host() == old(self).host(),
            match resolved(old(self)@.tags.tags, listed(fields(tags@))) {
                Ok(mask) => {
                    let q = Query { key: (entity, stat@), tags: mask };
                    &&& r matches Ok(v) && stat_value(scene_of(old(self).host(), old(self)@), Seq::empty(), q, v)
                        && final(self)@ == (State { world: remembered(old(self)@.world, q, v), ..old(self)@ })
                },
                Err(name) => {
                    &&& r matches Err(e) && e@ == Fault::UnknownTag(name)
                    &&& final(self)@ == old(self)@
                },
            },
    {
        match self.tags.parse(tags) {
            Ok(set) => Ok(self.get_filtered(entity, stat, set)),
            Err(e) => Err(e),
        }
    }

    /// Evaluates an ad-hoc expression against an entity's stats (bare
    /// references and `link@Stat` sources resolve exactly as they would in a
    /// modifier owned by `entity`).
    pub fn eval(&self, entity: Entity, expression: &Expression) -> (r: Result<Scalar, StatError>)
        requires
            self.wf(),
        ensures
            evaluated(self.host(), self@, entity, Map::empty(), expression.term(), outcome(r)),
    {
        self.eval_bound(entity, expression, None)
    }

    /// Evaluates an ad-hoc expression with named bindings taking precedence
    /// over the entity's links for `name@Stat` references.
    pub(crate) fn eval_bound(
        &self,
        entity: Entity,
        expression: &Expression,
        roles: Option<&NameIndex>,
    ) -> (r: Result<Scalar, StatError>)
        requires
            self.wf(),
        ensures
            evaluated(
                self.host(),
                self@,
                entity,
                crate::eval::bindings(roles),
                expression.term(),
                outcome(r),
            ),
    {
        let rule = match compile(expression.root(), &self.tags, &self.host) {
            Ok(rule) => rule,
            Err(e) => {
                return Err(e);
            },
        };
        let mut path: Vec<(Entity, String, TagSet)> = Vec::new();
        assert(trail(path@) =~= Seq::empty());
        let env = Evaluator { host: &self.host, config: &self.config, store: &self.store };
        let v = env.eval(&mut path, entity, roles, TagSet::none(), &rule);
        assert(compiled(self.host, self.tags@.tags, expression.term(), rule@));
        Ok(v)
    }

    /// Whether an entity carries stats.
    pub(crate) fn carries(&self, entity: Entity) -> (r: bool)
        ensures
            r == self@.world.carriers.contains(entity),
    {
        self.store.carries(entity)
    }

    /// The base value of a stat, if it has one.
    pub(crate) fn base_of(&self, entity: Entity, stat: &String) -> (base: Option<Scalar>)
        requires
            self.wf(),
        ensures
            base == node_in(self@.world, (entity, stat@)).base,
    {
        match self.store.node(entity, stat) {
            Some(node) => node.base,
            None => None,
        }
    }

    /// The arithmetic in use.
    pub fn arithmetic(&self) -> (host: &A)
        ensures
            *host == self.host(),
    {
        &self.host
    }

    /// The [`TagRegistry`], for registering tags.
    pub fn tag_registry_mut(&mut self) -> (reg: &mut TagRegistry)
        requires
            old(self).wf(),
        ensures
            sound(reg@),
            reg@ == old(self)@.tags,
            sound(final(reg)@) ==> final(self).wf(),
            final(self).host() == old(self).host(),
            final(self)@ == (State { tags: final(reg)@, ..old(self)@ }),
    {
        &mut self.tags
    }

    /// The [`StatConfig`], for choosing reductions. Values that are cached
    /// already stay as they are until they are next recomputed.
    pub fn config_mut(&mut self) -> (config: &mut StatConfig)
        requires
            old(self).wf(),
        ensures
            config.wf(),
            config@ == old(self)@.rules,
            final(config).wf() ==> final(self).wf(),
            final(self).host() == old(self).host(),
            final(self)@ == (State { rules: final(config)@, ..old(self)@ }),
    {
        &mut self.config
    }

    /// The [`TagRegistry`], for resolving tag names to [`TagSet`]s.
    pub fn tag_registry(&self) -> (reg: &TagRegistry)
        ensures
            reg@ == self@.tags,
    {
        &self.tags
    }

    /// The stats of an entity.
    pub fn stats(&self, entity: Entity) -> (stats: Option<&Stats>)
        requires
            self.wf(),
        ensures
            match stats {
                Some(stats) => {
                    &&& stats.wf()
                    &&& self@.world.carriers.contains(entity)
                    &&& container_of(self@.world, entity, stats@)
                },
                None => !self@.world.carriers.contains(entity),
            },
    {
        self.store.stats(entity)
    }

    /// The number of distinct stats currently depending on `stat` of
    /// `entity`.
    pub fn dependent_count(&self, entity: Entity, stat: &str) -> (n: usize)
        requires
            self.wf(),
        ensures
            dependents(self@.world, (entity, stat@)).finite(),
            n == dependents(self@.world, (entity, stat@)).len(),
    {
        proof {
            let k: Key = (entity, stat@);
            let list = self.graph.list(k);
            vstd::seq_lib::seq_to_set_is_finite(list);
            assert forall|d: Key| list.contains(d) <==> #[trigger] dependents(self.store@, k).contains(d) by {
                lemma_wired(self.store@, self.graph, k, d);
            }
            assert(list.to_set() =~= dependents(self.store@, k));
        }
        self.graph.dependent_count(entity, stat)
    }

    /// The entities whose resolved values changed since the last sweep.
    pub fn dirty_entities(&self) -> (list: Vec<Entity>)
        requires
            self.wf(),
        ensures
            list@.no_duplicates(),
            list@.to_set() == self@.dirty,
    {
        self.dirty.entities()
    }
}

impl<A: Arithmetic> StatsMutator<A> {
    // -- writes -------------------------------------------------------------

    /// Sets a stat's replaceable *base* value, creating the stat if needed.
    ///
    /// The base is a single untagged slot that participates in the reduction
    /// like a modifier but is **replaced** (not accumulated) by subsequent
    /// `set` calls; formula-based and tagged contributions on the same stat
    /// are unaffected. Setting the same value again is a no-op that triggers
    /// no recomputation or change tracking.
    pub fn set(&mut self, entity: Entity, stat: &str, value: Scalar) -> (r: Result<(), StatError>)
        requires
            old(self).wf(),
        ensures
            final(self).wf(),
            final(self).host() == old(self).host(),
            match r {
                Ok(_) => {
                    &&& set_fault(old(self)@, entity, stat@) is None
                    &&& path_parsed(stat@) matches Ok((name, _)) && base_set(
                        old(self).host(),
                        old(self)@,
                        (entity, name),
                        value,
                        final(self)@,
                    )
                },
                Err(e) => set_fault(old(self)@, entity, stat@) == Some(e@) && final(self)@ == old(self)@,
            },
    {
        let (name, tag_names) = match parse_stat_path(stat) {
            Ok(found) => found,
            Err(e) => {
                return Err(StatError::Parse(e));
            },
        };
        assert(names(tag_names@).len() == tag_names@.len());
        if tag_names.len() > 0 {
            return Err(
                StatError::InvalidPath {
                    path: stat.to_owned(),
                    reason: "base values are untagged; tag the modifiers instead",
                },
            );
        }
        if !self.store.carries(entity) {
            return Err(StatError::NoStats(entity));
        }
        if self.write_base(entity, &name, value) {
            let seeds = vec![(entity, name)];
            assert(keys_of(seeds@) =~= seq![(entity, name@)]);
            self.recompute(&seeds);
        }
        Ok(())
    }

    /// Adds one modifier to `path` (optionally tag-filtered, e.g.
    /// `"Damage.added{fire}"`). The value may be a number or an expression
    /// string. Returns a handle for later removal.
    pub fn add_modifier<V: IntoModifierValue>(
        &mut self,
        entity: Entity,
        path: &str,
        value: V,
    ) -> (r: Result<ModifierHandle, StatError>)
        requires
            old(self).wf(),
            old(self)@.last_id < u64::MAX,
        ensures
            final(self).wf(),
            final(self).host() == old(self).host(),
            match r {
                Ok(handle) => {
                    &&& add_fault(old(self)@, entity, path@, value.amount()) is None
                    &&& handle.id() == old(self)@.last_id + 1
                    &&& value.amount() matches Ok(amount) && modifier_added(
                        old(self).host(),
                        old(self)@,
                        entity,
                        path@,
                        (Contribution { value: amount, tags: Seq::empty() }),
                        final(self)@,
                    )
                },
                Err(e) => {
                    &&& add_fault(old(self)@, entity, path@, value.amount()) == Some(e@)
                    &&& final(self)@ == old(self)@
                },
            },
    {
        let value = match value.into_modifier_value() {
            Ok(value) => value,
            Err(e) => {
                return Err(e);
            },
        };
        let modifier = Modifier { value, tags: Vec::new() };
        assert(modifier@.tags =~= Seq::empty());
        let (stat, tags, stored) = match self.compile_modifier(path, &modifier) {
            Ok(found) => found,
            Err(e) => {
                return Err(e);
            },
        };
        if !self.store.carries(entity) {
            return Err(StatError::NoStats(entity));
        }
        let ghost part = Part { stat: stat@, tags: tags@, value: stored@ };
        let handle = self.install_modifier(entity, &stat, tags, stored);
        let seeds = vec![(entity, stat)];
        assert(keys_of(seeds@) =~= seq![(entity, stat@)]);
        self.recompute(&seeds);
        assert(modifier_part(old(self).host(), old(self)@.tags.tags, path@, modifier@, part));
        Ok(handle)
    }

    /// Removes a modifier previously added with
    /// [`add_modifier`](Self::add_modifier).
    pub fn remove_modifier(&mut self, entity: Entity, stat: &str, handle: ModifierHandle) -> (r: Result<(), StatError>)
        requires
            old(self).wf(),
        ensures
            final(self).wf(),
            final(self).host() == old(self).host(),
            match r {
                Ok(_) => {
                    &&& remove_fault(old(self)@.world, (entity, stat@), handle.id()) is None
                    &&& carried(
                        old(self).host(),
                        uninstalled(old(self)@, (entity, stat@), handle.id()),
                        seq![(entity, stat@)],
                        final(self)@,
                    )
                },
                Err(e) => {
                    &&& remove_fault(old(self)@.world, (entity, stat@), handle.id()) == Some(e@)
                    &&& final(self)@ == old(self)@
                },
            },
    {
        let name = stat.to_owned();
        match self.uninstall_modifier(entity, &name, handle) {
            Ok(_) => {
                let seeds = vec![(entity, name)];
                assert(keys_of(seeds@) =~= seq![(entity, name@)]);
                self.recompute(&seeds);
                Ok(())
            },
            Err(e) => Err(e),
        }
    }

    /// Applies a whole [`ModifierSet`] to an entity, returning a receipt
    /// that [`remove`](Self::remove) uses to detach exactly what was applied.
    ///
    /// Validation (paths, tag names, expressions) happens up front: on error
    /// nothing is applied.
    pub fn apply(&mut self, entity: Entity, set: &ModifierSet) -> (r: Result<AppliedModifiers, StatError>)
        requires
            old(self).wf(),
            old(self)@.last_id + set@.len() <= u64::MAX,
        ensures
            final(self).wf(),
            final(self).host() == old(self).host(),
            match r {
                Ok(receipt) => {
                    &&& apply_fault(old(self)@, entity, set@) is None
                    &&& receipt@.target == entity
                    &&& set_applied(
                        old(self).host(),
                        old(self)@,
                        entity,
                        set@,
                        receipt@.handles,
                        final(self)@,
                    )
                },
                Err(e) => {
                    &&& apply_fault(old(self)@, entity, set@) == Some(e@)
                    &&& final(self)@ == old(self)@
                },
            },
    {
        let ghost tags = self@.tags.tags;
        let ghost all = set@;
        let entries = set.entries();
        let mut compiled: Vec<(String, TagSet, StoredValue)> = Vec::new();
        let ghost mut parts: Seq<Part> = Seq::empty();
        let mut i: usize = 0;
        assert(all.take(0) =~= Seq::empty());
        while i < entries.len()
            invariant
                i <= entries@.len(),
                entry_list(entries@) == all,
                all == set@,
                *self == *old(self),
                self.wf(),
                tags == self@.tags.tags,
                entries_fault(tags, all.take(i as int)) is None,
                parts == part_list(compiled@),
                entries_parts(self.host(), tags, all.take(i as int), parts),
            decreases entries@.len() - i,
        {
            proof {
                assert(all.take(i + 1).drop_last() =~= all.take(i as int));
                assert(all.take(i + 1).last() == (entries@[i as int].0@, entries@[i as int].1@));
            }
            match self.compile_modifier(entries[i].0.as_str(), &entries[i].1) {
                Ok((stat, set_tags, value)) => {
                    let ghost part = Part { stat: stat@, tags: set_tags@, value: value@ };
                    compiled.push((stat, set_tags, value));
                    proof {
                        let longer = parts.push(part);
                        assert(part_list(compiled@) =~= longer);
                        assert forall|j: int| 0 <= j < i + 1 implies modifier_part(
                            self.host(),
                            tags,
                            all.take(i + 1)[j].0,
                            all.take(i + 1)[j].1,
                            #[trigger] longer[j],
                        ) by {
                            if j < i {
                                assert(all.take(i as int)[j] == all.take(i + 1)[j]);
                                assert(longer[j] == parts[j]);
                            }
                        }
                        parts = longer;
                    }
                },
                Err(e) => {
                    proof {
                        lemma_fault_prefix(tags, all, i + 1);
                    }
                    return Err(e);
                },
            }
            i = i + 1;
        }
        assert(all.take(i as int) =~= all);
        if !self.store.carries(entity) {
            return Err(StatError::NoStats(entity));
        }
        let mut handles: Vec<(String, ModifierHandle)> = Vec::new();
        let mut seeds: Vec<(Entity, String)> = Vec::new();
        let ghost list = compiled@;
        proof {
            assert(parts.take(0) =~= Seq::empty());
            assert(keys_of(seeds@) =~= Seq::empty());
            assert(handle_list(handles@) =~= part_handles(self@.last_id, parts.take(0)));
        }
        for item in it: compiled
            invariant
                it.seq() == list,
                parts == part_list(list),
                parts.len() == all.len(),
                old(self)@.last_id + all.len() <= u64::MAX,
                self.wf(),
                self.host() == old(self).host(),
                self@.world.carriers.contains(entity),
                self@ == attached(old(self)@, entity, parts.take(it.index())),
                self@.last_id == old(self)@.last_id + it.index(),
                keys_of(seeds@) == part_seeds(entity, parts.take(it.index())),
                handle_list(handles@) == part_handles(old(self)@.last_id, parts.take(it.index())),
        {
            let ghost count = it.index();
            let ghost before = handle_list(handles@);
            let (stat, tags, value) = item;
            proof {
                assert(parts[count] == (Part { stat: stat@, tags: tags@, value: value@ }));
                assert(parts.take(count + 1).drop_last() =~= parts.take(count));
            }
            let handle = self.install_modifier(entity, &stat, tags, value);
            push_seed(&mut seeds, entity, &stat);
            handles.push((stat, handle));
            proof {
                assert(handle_list(handles@) =~= before.push((stat@, handle.id())));
                assert(handle_list(handles@) =~= part_handles(old(self)@.last_id, parts.take(count + 1)));
            }
        }
        assert(parts.take(list.len() as int) =~= parts);
        self.recompute(&seeds);
        assert(entries_parts(old(self).host(), old(self)@.tags.tags, set@, parts));
        Ok(AppliedModifiers::new(entity, handles))
    }

    /// Detaches a previously applied [`ModifierSet`]. Idempotent: modifiers
    /// that no longer exist (already removed, or the target despawned) are
    /// skipped.
    pub fn remove(&mut self, applied: &AppliedModifiers)
        requires
            old(self).wf(),
        ensures
            final(self).wf(),
            final(self).host() == old(self).host(),
            set_removed(old(self).host(), old(self)@, applied@.target, applied@.handles, final(self)@),
    {
        let entity = applied.target();
        if !self.store.carries(entity) {
            return;
        }
        let handles = applied.handles();
        let ghost all = applied@.handles;
        let mut seeds: Vec<(Entity, String)> = Vec::new();
        let mut i: usize = 0;
        proof {
            assert(all.take(0) =~= Seq::empty());
            assert(keys_of(seeds@) =~= Seq::empty());
        }
        while i < handles.len()
            invariant
                i <= handles@.len(),
                all == handle_list(handles@),
                self.wf(),
                self.host() == old(self).host(),
                self@.world.carriers.contains(entity),
                self@ == detached(old(self)@, entity, all.take(i as int)),
                keys_of(seeds@) == detached_seeds(old(self)@, entity, all.take(i as int)),
            decreases handles@.len() - i,
        {
            proof {
                assert(all.take(i + 1).drop_last() =~= all.take(i as int));
                assert(all[i as int] == (handles@[i as int].0@, handles@[i as int].1.id()));
            }
            let stat = &handles[i].0;
            match self.uninstall_modifier(entity, stat, handles[i].1) {
                Ok(_) => push_seed(&mut seeds, entity, stat),
                Err(_) => {},
            }
            i = i + 1;
        }
        assert(all.take(i as int) =~= all);
        self.recompute(&seeds);
    }

    /// Removes a stat node entirely: its base, all its modifiers, and its
    /// caches. Dependents remain and now see the stat's reduction identity.
    pub fn remove_stat(&mut self, entity: Entity, stat: &str) -> (r: Result<(), StatError>)
        requires
            old(self).wf(),
        ensures
            final(self).wf(),
            final(self).host() == old(self).host(),
            match r {
                Ok(_) => {
                    &&& old(self)@.world.carriers.contains(entity)
                    &&& stat_removed(old(self).host(), old(self)@, (entity, stat@), final(self)@)
                },
                Err(e) => {
                    &&& !old(self)@.world.carriers.contains(entity)
                    &&& e@ == Fault::NoStats(entity)
                    &&& final(self)@ == old(self)@
                },
            },
    {
        let ghost k: Key = (entity, stat@);
        let ghost before = self.store@;
        let ghost graph = self.graph;
        if !self.store.carries(entity) {
            return Err(StatError::NoStats(entity));
        }
        let name = stat.to_owned();
        match self.store.node(entity, &name) {
            Some(node) => {
                proof {
                    assert forall|a: Key| #[trigger]
                        tally(modifier_sources(before, entity, node.body().modifiers), a) <= tally(graph.list(a), k) by {
                        assert(tally(graph.list(a), k) == tally(sources(before, k), a));
                    }
                }
                self.graph.unlink_node(&self.store, entity, &name, node);
            },
            None => {
                return Ok(());
            },
        }
        self.store.remove_node(entity, &name);
        proof {
            let after = self.store@;
            assert forall|a: Key, d: Key| #[trigger] tally(self.graph.list(a), d) == tally(sources(after, d), a) by {
                assert(tally(graph.list(a), d) == tally(sources(before, d), a));
                lemma_same_modifier_sources(before, after, d.0, node_in(after, d).modifiers);
            }
        }
        let seeds = vec![(entity, name)];
        assert(keys_of(seeds@) =~= seq![(entity, name@)]);
        self.recompute(&seeds);
        Ok(())
    }

    // -- links --------------------------------------------------------------

    /// Points a named cross-entity link at `target`, rewiring and recomputing
    /// every stat (on this entity and downstream, across any number of hops)
    /// whose modifier expressions read through the link.
    pub fn set_link(&mut self, entity: Entity, link: &str, target: Entity) -> (r: Result<(), StatError>)
        requires
            old(self).wf(),
        ensures
            final(self).wf(),
            final(self).host() == old(self).host(),
            match r {
                Ok(_) => {
                    &&& old(self)@.world.carriers.contains(entity)
                    &&& relinked(old(self).host(), old(self)@, entity, link@, Some(target), final(self)@)
                },
                Err(e) => {
                    &&& !old(self)@.world.carriers.contains(entity)
                    &&& e@ == Fault::NoStats(entity)
                    &&& final(self)@ == old(self)@
                },
            },
    {
        self.relink(entity, link, Some(target))
    }

    /// Removes a named link. Expressions reading through it now see missing
    /// stats (reduction identities) until it is set again.
    pub fn clear_link(&mut self, entity: Entity, link: &str) -> (r: Result<(), StatError>)
        requires
            old(self).wf(),
        ensures
            final(self).wf(),
            final(self).host() == old(self).host(),
            match r {
                Ok(_) => {
                    &&& old(self)@.world.carriers.contains(entity)
                    &&& relinked(old(self).host(), old(self)@, entity, link@, None, final(self)@)
                },
                Err(e) => {
                    &&& !old(self)@.world.carriers.contains(entity)
                    &&& e@ == Fault::NoStats(entity)
                    &&& final(self)@ == old(self)@
                },
            },
    {
        self.relink(entity, link, None)
    }

    fn relink(&mut self, entity: Entity, link: &str, target: Option<Entity>) -> (r: Result<(), StatError>)
        requires
            old(self).wf(),
        ensures
            final(self).wf(),
            final(self).host() == old(self).host(),
            match r {
                Ok(_) => {
                    &&& old(self)@.world.carriers.contains(entity)
                    &&& relinked(old(self).host(), old(self)@, entity, link@, target, final(self)@)
                },
                Err(e) => {
                    &&& !old(self)@.world.carriers.contains(entity)
                    &&& e@ == Fault::NoStats(entity)
                    &&& final(self)@ == old(self)@
                },
            },
    {
        let ghost before = self.store@;
        let ghost graph = self.graph;
        let name = link.to_owned();
        let (old_target, uses) = match self.store.stats(entity) {
            Some(stats) => {
                let current = stats.link(link);
                if current == target {
                    return Ok(());
                }
                (current, uses_of(stats, &name))
            },
            None => {
                return Err(StatError::NoStats(entity));
            },
        };
        assert(old_target == linked(before, entity, Some(link@)));
        let ghost pairs = pair_list(uses@);
        proof {
            assert forall|r: Seq<char>, l: Seq<char>| #[trigger]
                tally(pairs, (r, l)) == tally(modifier_uses(node_in(before, (entity, l)).modifiers, link@), r) by {
                let nodes = nodes_of(before, entity);
                assert(nodes.contains_key(l) <==> before.nodes.contains_key((entity, l)));
            }
            if let Some(t) = old_target {
                assert forall|r: Seq<char>, l: Seq<char>| #[trigger]
                    tally(pairs, (r, l)) <= tally(graph.list((t, r)), (entity, l)) by {
                    let mods = node_in(before, (entity, l)).modifiers;
                    lemma_through_bound(before, entity, link@, mods, (t, r));
                    assert(tally(graph.list((t, r)), (entity, l)) == tally(sources(before, (entity, l)), (t, r)));
                }
            }
        }
        if let Some(t) = old_target {
            self.graph.unlink_uses(t, entity, &uses);
        }
        self.store.set_link(entity, &name, target);
        if let Some(t) = target {
            self.graph.link_uses(t, entity, &uses);
        }
        proof {
            let after = self.store@;
            assert forall|a: Key, d: Key| #[trigger] tally(self.graph.list(a), d) == tally(sources(after, d), a) by {
                assert(tally(graph.list(a), d) == tally(sources(before, d), a));
                let mods = node_in(before, d).modifiers;
                assert(node_in(after, d).modifiers == mods);
                if d.0 == entity {
                    lemma_relinked(before, after, entity, link@, mods, a);
                    assert(tally(pairs, (a.1, d.1)) == tally(modifier_uses(mods, link@), a.1));
                } else {
                    lemma_same_modifier_sources(before, after, d.0, mods);
                }
            }
        }
        let mut seeds: Vec<(Entity, String)> = Vec::new();
        let mut i: usize = 0;
        while i < uses.len()
            invariant
                i <= uses@.len(),
                pairs == pair_list(uses@),
                keys_of(seeds@).no_duplicates(),
                forall|k: Key| #[trigger]
                    keys_of(seeds@).contains(k) <==> k.0 == entity && exists|p: int|
                        0 <= p < i && (#[trigger] pairs[p]).1 == k.1,
            decreases uses@.len() - i,
        {
            let ghost was = keys_of(seeds@);
            let ghost x: Key = (entity, pairs[i as int].1);
            push_seed(&mut seeds, entity, &uses[i].1);
            proof {
                assert(x.1 == uses@[i as int].1@);
                lemma_with_seed(was, x);
                assert forall|k: Key| #[trigger]
                    keys_of(seeds@).contains(k) <==> k.0 == entity && exists|p: int|
                        0 <= p < i + 1 && (#[trigger] pairs[p]).1 == k.1 by {
                    if was.contains(k) {
                        let p = choose|p: int| 0 <= p < i && (#[trigger] pairs[p]).1 == k.1;
                        assert(pairs[p].1 == k.1);
                    }
                    assert(pairs[i as int].1 == x.1);
                }
            }
            i = i + 1;
        }
        proof {
            assert forall|k: Key| #[trigger]
                keys_of(seeds@).contains(k) <==> k.0 == entity && reads_through(before, k, link@) by {
                let reads = modifier_uses(node_in(before, k).modifiers, link@);
                if k.0 == entity {
                    if keys_of(seeds@).contains(k) {
                        let p = choose|p: int| 0 <= p < pairs.len() && (#[trigger] pairs[p]).1 == k.1;
                        lemma_tally_contains(pairs, pairs[p]);
                        assert(pairs.contains(pairs[p]));
                        assert(tally(pairs, (pairs[p].0, k.1)) == tally(reads, pairs[p].0));
                    }
                    if reads.len() > 0 {
                        lemma_tally_contains(reads, reads[0]);
                        assert(tally(pairs, (reads[0], k.1)) == tally(reads, reads[0]));
                        lemma_tally_contains(pairs, (reads[0], k.1));
                        let p = choose|p: int| 0 <= p < pairs.len() && pairs[p] == (reads[0], k.1);
                        assert(pairs[p].1 == k.1);
                    }
                }
            }
        }
        let ghost mid = self@;
        self.recompute(&seeds);
        assert(mid =~= (State { world: with_link(before, entity, link@, target), ..old(self)@ }));
        assert(carried(
            old(self).host(),
            (State { world: with_link(old(self)@.world, entity, link@, target), ..old(self)@ }),
            keys_of(seeds@),
            self@,
        ));
        Ok(())
    }

    // -- entities -----------------------------------------------------------

    /// Puts `stats` on an entity, in place of the stats that it carries, and
    /// installs the starting entries that are queued on it. Entries that fail
    /// to install are skipped; their errors are returned.
    pub fn insert(&mut self, entity: Entity, stats: Stats) -> (errors: Vec<StatError>)
        requires
            old(self).wf(),
            old(self)@.last_id + stats@.pending.len() <= u64::MAX,
        ensures
            final(self).wf(),
            final(self).host() == old(self).host(),
            final(self)@.world.carriers == old(self)@.world.carriers.insert(entity),
            stats_inserted(
                old(self).host(),
                old(self)@,
                entity,
                stats@.pending,
                fault_list(errors@),
                final(self)@,
            ),
    {
        self.teardown(entity);
        let ghost mid = self@;
        proof {
            lemma_torn_down(old(self).host(), old(self)@, entity, mid);
        }
        let ghost before = self.store@;
        self.store.add_carrier(entity);
        proof {
            lemma_wired_same(before, self.store@, self.graph);
            assert(self@ =~= with_carrier(mid, entity));
        }
        let pending = stats.into_pending();
        let (seeds, errors) = self.drain_pending(entity, pending);
        let ghost done = Drained { state: self@, seeds: keys_of(seeds@), faults: fault_list(errors@) };
        self.recompute(&seeds);
        proof {
            assert(carried(old(self).host(), done.state, done.seeds, self@));
            assert(torn_down(old(self).host(), old(self)@, entity, mid));
            assert(self@.world.carriers =~= old(self)@.world.carriers.insert(entity));
        }
        errors
    }

    /// Takes the stats of an entity out, with all graph edges they make, and
    /// recomputes downstream.
    pub fn teardown(&mut self, entity: Entity)
        requires
            old(self).wf(),
        ensures
            final(self).wf(),
            final(self).host() == old(self).host(),
            torn_down(old(self).host(), old(self)@, entity, final(self)@),
    {
        let ghost before = self.store@;
        let ghost graph = self.graph;
        let seeds = self.graph.outside_readers(entity);
        match self.store.stats(entity) {
            Some(stats) => {
                let ghost locals = stats.names();
                proof {
                    stats.lemma_names();
                }
                let n: usize = stats.len();
                let mut i: usize = 0;
                while i < n
                    invariant
                        stats.wf(),
                        locals == stats.names(),
                        locals.no_duplicates(),
                        n == locals.len(),
                        i <= n,
                        self.store == old(self).store,
                        self.store.wf(),
                        before == self.store@,
                        container_of(before, entity, stats@),
                        self.graph.wf(),
                        self.host == old(self).host,
                        self.tags == old(self).tags,
                        self.config == old(self).config,
                        self.ids == old(self).ids,
                        self.dirty == old(self).dirty,
                        self.events == old(self).events,
                        forall|a: Key, d: Key| #[trigger]
                            tally(self.graph.list(a), d) == (if d.0 == entity && locals.take(i as int).contains(d.1) {
                                0
                            } else {
                                tally(sources(before, d), a)
                            }),
                    decreases n - i,
                {
                    let (local, node) = stats.node_at(i);
                    let ghost k: Key = (entity, local@);
                    let ghost was = self.graph;
                    proof {
                        let now = locals.take(i as int);
                        assert(!now.contains(local@)) by {
                            if now.contains(local@) {
                                let p = choose|p: int| 0 <= p < now.len() && now[p] == local@;
                                assert(locals[p] == locals[i as int]);
                            }
                        }
                        assert(nodes_of(before, entity).contains_key(local@));
                        assert(before.nodes[k] == node.body());
                        assert forall|a: Key| #[trigger]
                            tally(modifier_sources(before, entity, node.body().modifiers), a) <= tally(was.list(a), k)
                        by {
                            assert(tally(was.list(a), k) == tally(sources(before, k), a));
                        }
                    }
                    self.graph.unlink_node(&self.store, entity, local, node);
                    proof {
                        let now = locals.take(i as int);
                        let next = locals.take(i + 1);
                        assert(next =~= now.push(local@));
                        assert forall|l: Seq<char>| #[trigger] next.contains(l) <==> now.contains(l) || l == local@ by {
                            if now.contains(l) {
                                let p = choose|p: int| 0 <= p < now.len() && now[p] == l;
                                assert(next[p] == l);
                            }
                            assert(next[i as int] == local@);
                        }
                        assert forall|a: Key, d: Key| #[trigger]
                            tally(self.graph.list(a), d) == (if d.0 == entity && next.contains(d.1) {
                                0
                            } else {
                                tally(sources(before, d), a)
                            }) by {
                            assert(tally(was.list(a), d) == (if d.0 == entity && now.contains(d.1) {
                                0
                            } else {
                                tally(sources(before, d), a)
                            }));
                        }
                    }
                    i = i + 1;
                }
                proof {
                    assert(locals.take(n as int) =~= locals);
                    assert forall|l: Seq<char>| before.nodes.contains_key((entity, l)) <==> #[trigger] locals.contains(
                        l,
                    ) by {
                        assert(nodes_of(before, entity).contains_key(l) <==> before.nodes.contains_key((entity, l)));
                    }
                }
            },
            None => {
                return;
            },
        }
        self.store.remove(entity);
        proof {
            let after = self.store@;
            assert forall|a: Key, d: Key| #[trigger] tally(self.graph.list(a), d) == tally(sources(after, d), a) by {
                if d.0 != entity {
                    lemma_same_modifier_sources(before, after, d.0, node_in(after, d).modifiers);
                }
            }
            assert forall|d: Key| #[trigger] keys_of(seeds@).contains(d) <==> d.0 != entity && exists|name: Seq<char>|
                #[trigger] feeds(before, (entity, name), d) by {
                if keys_of(seeds@).contains(d) {
                    let name = choose|name: Seq<char>| #[trigger] graph.list((entity, name)).contains(d);
                    lemma_wired(before, graph, (entity, name), d);
                    assert(feeds(before, (entity, name), d));
                }
                if exists|name: Seq<char>| #[trigger] feeds(before, (entity, name), d) {
                    let name = choose|name: Seq<char>| #[trigger] feeds(before, (entity, name), d);
                    lemma_wired(before, graph, (entity, name), d);
                    assert(graph.list((entity, name)).contains(d));
                }
            }
        }
        let ghost mid = self@;
        self.recompute(&seeds);
        assert(mid =~= (State { world: without_entity(before, entity), ..old(self)@ }));
        assert(carried(
            old(self).host(),
            (State { world: without_entity(old(self)@.world, entity), ..old(self)@ }),
            keys_of(seeds@),
            self@,
        ));
    }

    // -- change tracking ----------------------------------------------------

    /// Forgets which entities changed: the sweep is over.
    pub fn clear_dirty(&mut self)
        requires
            old(self).wf(),
        ensures
            final(self).wf(),
            final(self).host() == old(self).host(),
            final(self)@ == (State { dirty: Set::empty(), ..old(self)@ }),
    {
        self.dirty = DirtyStats::new();
    }

    /// Takes out the recorded changes, oldest first.
    pub fn take_events(&mut self) -> (events: Vec<StatChanged>)
        requires
            old(self).wf(),
        ensures
            final(self).wf(),
            final(self).host() == old(self).host(),
            event_list(events@) == old(self)@.events,
            final(self)@ == (State { events: Seq::empty(), ..old(self)@ }),
    {
        let mut events: Vec<StatChanged> = Vec::new();
        events.append(&mut self.events);
        assert(events@ =~= old(self).events@);
        assert(self@.events =~= Seq::empty());
        events
    }

    // -- internals ----------------------------------------------------------

    /// Writes a base value, unless the stat has an equal one. Does not
    /// recompute.
    pub(crate) fn write_base(&mut self, entity: Entity, stat: &String, value: Scalar) -> (written: bool)
        requires
            old(self).wf(),
            old(self)@.world.carriers.contains(entity),
        ensures
            final(self).wf(),
            final(self).host() == old(self).host(),
            written == !base_equals(old(self)@.world, (entity, stat@), value),
            final(self)@ == (if written {
                based(old(self)@, (entity, stat@), value)
            } else {
                old(self)@
            }),
    {
        if let Some(node) = self.store.node(entity, stat) {
            if let Some(base) = node.base {
                if is_equal(base, value) {
                    return false;
                }
            }
        }
        self.force_base(entity, stat, value);
        true
    }

    /// Writes a base value. Does not recompute.
    fn force_base(&mut self, entity: Entity, stat: &String, value: Scalar)
        requires
            old(self).wf(),
            old(self)@.world.carriers.contains(entity),
        ensures
            final(self).wf(),
            final(self).host() == old(self).host(),
            final(self)@ == based(old(self)@, (entity, stat@), value),
    {
        let ghost k: Key = (entity, stat@);
        let ghost before = self.store@;
        self.store.ensure_node(entity, stat);
        if let Some(node) = self.store.node_mut(entity, stat) {
            node.base = Some(value);
        }
        proof {
            let after = self.store@;
            assert(after =~= based(old(self)@, k, value).world);
            lemma_wired_same(before, after, self.graph);
        }
    }

    /// Installs starting entries on an entity. Does not recompute. Gives back
    /// the stats that were written, and the errors of the entries that were
    /// skipped.
    fn drain_pending(&mut self, entity: Entity, pending: Vec<PendingEntry>) -> (r: (
        Vec<(Entity, String)>,
        Vec<StatError>,
    ))
        requires
            old(self).wf(),
            old(self)@.world.carriers.contains(entity),
            old(self)@.last_id + pending@.len() <= u64::MAX,
        ensures
            final(self).wf(),
            final(self).host() == old(self).host(),
            final(self)@.world.carriers == old(self)@.world.carriers,
            drained(
                old(self).host(),
                old(self)@,
                entity,
                pending_list(pending@),
                (Drained { state: final(self)@, seeds: keys_of(r.0@), faults: fault_list(r.1@) }),
            ),
    {
        let ghost list = pending@;
        let ghost all = pending_list(list);
        let mut seeds: Vec<(Entity, String)> = Vec::new();
        let mut errors: Vec<StatError> = Vec::new();
        proof {
            assert(all.take(0) =~= Seq::empty());
            assert(keys_of(seeds@) =~= Seq::empty());
            assert(fault_list(errors@) =~= Seq::empty());
        }
        for entry in it: pending
            invariant
                it.seq() == list,
                all == pending_list(list),
                old(self)@.last_id + list.len() <= u64::MAX,
                self.wf(),
                self.host() == old(self).host(),
                self@.world.carriers.contains(entity),
                self@.world.carriers == old(self)@.world.carriers,
                self@.last_id <= old(self)@.last_id + it.index(),
                drained(
                    self.host(),
                    old(self)@,
                    entity,
                    all.take(it.index()),
                    (Drained { state: self@, seeds: keys_of(seeds@), faults: fault_list(errors@) }),
                ),
        {
            let ghost mid = Drained { state: self@, seeds: keys_of(seeds@), faults: fault_list(errors@) };
            let ghost next = all.take(it.index() + 1);
            let ghost said = entry@;
            proof {
                assert(next.drop_last() =~= all.take(it.index()));
                assert(next.last() == said);
            }
            match entry {
                PendingEntry::Base(stat, value) => {
                    self.force_base(entity, &stat, value);
                    push_seed(&mut seeds, entity, &stat);
                },
                PendingEntry::Modifier(path, modifier) => {
                    match self.compile_modifier(path.as_str(), &modifier) {
                        Ok((stat, tags, value)) => {
                            let ghost part = Part { stat: stat@, tags: tags@, value: value@ };
                            self.install_modifier(entity, &stat, tags, value);
                            push_seed(&mut seeds, entity, &stat);
                            assert(modifier_part(self.host(), mid.state.tags.tags, path@, modifier@, part));
                        },
                        Err(e) => {
                            let ghost was = errors@;
                            errors.push(e);
                            assert(fault_list(errors@) =~= fault_list(was).push(e@));
                        },
                    }
                },
            }
            proof {
                let done = Drained { state: self@, seeds: keys_of(seeds@), faults: fault_list(errors@) };
                assert(drained_entry(self.host(), entity, said, mid, done));
            }
        }
        assert(all.take(list.len() as int) =~= all);
        (seeds, errors)
    }

    /// Parses, tag-resolves, and compiles a modifier for `path`.
    fn compile_modifier(&self, path: &str, modifier: &Modifier) -> (r: Result<
        (String, TagSet, StoredValue),
        StatError,
    >)
        ensures
            match r {
                Ok((stat, tags, value)) => {
                    &&& modifier_fault(self@.tags.tags, path@, modifier@) is None
                    &&& modifier_part(
                        self.host(),
                        self@.tags.tags,
                        path@,
                        modifier@,
                        (Part { stat: stat@, tags: tags@, value: value@ }),
                    )
                },
                Err(e) => modifier_fault(self@.tags.tags, path@, modifier@) == Some(e@),
            },
    {
        let (stat, own) = match parse_stat_path(path) {
            Ok(found) => found,
            Err(e) => {
                return Err(StatError::Parse(e));
            },
        };
        let mut tag_names = own;
        append_names(&mut tag_names, &modifier.tags);
        let tags = match self.tags.resolve_all(&tag_names) {
            Ok(tags) => tags,
            Err(e) => {
                return Err(e);
            },
        };
        let value = match &modifier.value {
            ModifierValue::Literal(v) => StoredValue::Literal(*v),
            ModifierValue::Expression(e) => match compile(e.root(), &self.tags, &self.host) {
                Ok(rule) => StoredValue::Expr(rule),
                Err(e) => {
                    return Err(e);
                },
            },
        };
        Ok((stat, tags, value))
    }

    /// Installs a compiled modifier and registers its dependency edges. Does
    /// not recompute.
    fn install_modifier(&mut self, entity: Entity, stat: &String, tags: TagSet, value: StoredValue) -> (handle:
        ModifierHandle)
        requires
            old(self).wf(),
            old(self)@.last_id < u64::MAX,
            old(self)@.world.carriers.contains(entity),
        ensures
            final(self).wf(),
            final(self).host() == old(self).host(),
            handle.id() == old(self)@.last_id + 1,
            final(self)@ == installed(old(self)@, entity, (Part { stat: stat@, tags: tags@, value: value@ })),
    {
        let ghost k: Key = (entity, stat@);
        let ghost before = self.store@;
        let ghost graph = self.graph;
        let ghost source = value@;
        let id = self.ids.next_id();
        if let StoredValue::Expr(expr) = &value {
            self.graph.link_expr(&self.store, entity, stat, expr);
        }
        self.store.ensure_node(entity, stat);
        if let Some(node) = self.store.node_mut(entity, stat) {
            let ghost mods = node.modifiers@;
            node.modifiers.push(StoredModifier { id, tags, value });
            assert(stored_list(node.modifiers@) =~= stored_list(mods).push(
                Stored { id, tags: tags@, value: source },
            ));
        }
        proof {
            let after = self.store@;
            let stored = Stored { id, tags: tags@, value: source };
            assert(after =~= installed(old(self)@, entity, Part { stat: stat@, tags: tags@, value: source }).world);
            assert forall|a: Key, d: Key| #[trigger] tally(self.graph.list(a), d) == tally(sources(after, d), a) by {
                assert(tally(graph.list(a), d) == tally(sources(before, d), a));
                lemma_same_modifier_sources(before, after, d.0, node_in(after, d).modifiers);
                if d == k {
                    let mods = node_in(before, k).modifiers;
                    assert(mods.push(stored).drop_last() =~= mods);
                    lemma_tally_add(sources(before, k), link_sources(before, entity, references(source)), a);
                }
            }
        }
        ModifierHandle::new(id)
    }

    /// Removes a modifier and releases its dependency edges. Does not
    /// recompute.
    fn uninstall_modifier(&mut self, entity: Entity, stat: &String, handle: ModifierHandle) -> (r: Result<
        (),
        StatError,
    >)
        requires
            old(self).wf(),
        ensures
            final(self).wf(),
            final(self).host() == old(self).host(),
            match r {
                Ok(_) => {
                    &&& remove_fault(old(self)@.world, (entity, stat@), handle.id()) is None
                    &&& final(self)@ == uninstalled(old(self)@, (entity, stat@), handle.id())
                },
                Err(e) => {
                    &&& remove_fault(old(self)@.world, (entity, stat@), handle.id()) == Some(e@)
                    &&& final(self)@ == old(self)@
                },
            },
    {
        let ghost k: Key = (entity, stat@);
        let ghost before = self.store@;
        let ghost graph = self.graph;
        if !self.store.carries(entity) {
            return Err(StatError::NoStats(entity));
        }
        let ghost mods = node_in(before, k).modifiers;
        let index = match self.store.node(entity, stat) {
            Some(node) => {
                let n: usize = node.modifiers.len();
                let mut i: usize = 0;
                assert(mods.take(0) =~= Seq::empty());
                while i < n && node.modifiers[i].id != handle.number()
                    invariant
                        i <= n,
                        n == node.modifiers@.len(),
                        mods == stored_list(node.modifiers@),
                        place_of(mods.take(i as int), handle.id()) is None,
                    decreases n - i,
                {
                    assert(mods.take(i + 1).drop_last() =~= mods.take(i as int));
                    i = i + 1;
                }
                if i == n {
                    assert(mods.take(i as int) =~= mods);
                    return Err(StatError::UnknownModifier { stat: stat.clone() });
                }
                proof {
                    assert(mods.take(i + 1).drop_last() =~= mods.take(i as int));
                    lemma_place_prefix(mods, handle.id(), i + 1);
                }
                i
            },
            None => {
                return Err(StatError::UnknownModifier { stat: stat.clone() });
            },
        };
        proof {
            assert forall|a: Key| tally(modifier_sources(before, entity, mods), a) == tally(
                modifier_sources(before, entity, mods.remove(index as int)),
                a,
            ) + #[trigger] tally(link_sources(before, entity, references(mods[index as int].value)), a) by {
                lemma_sources_remove(before, entity, mods, index as int, a);
            }
        }
        if let Some(node) = self.store.node_mut(entity, stat) {
            let ghost list = node.modifiers@;
            let removed = node.modifiers.remove(index);
            assert(stored_list(node.modifiers@) =~= stored_list(list).remove(index as int));
            assert(removed@ == mods[index as int]);
            proof {
                assert forall|a: Key| #[trigger]
                    tally(link_sources(before, entity, references(removed@.value)), a) <= tally(graph.list(a), k) by {
                    assert(tally(graph.list(a), k) == tally(sources(before, k), a));
                }
                assert forall|name: Seq<char>|
                    linked(before, entity, Some(name)) == #[trigger] linked(self.store@, entity, Some(name)) by {}
            }
            if let StoredValue::Expr(expr) = &removed.value {
                proof {
                    lemma_same_link_sources(before, self.store@, entity, refs(expr@));
                    assert(references(removed@.value) == refs(expr@));
                    assert forall|a: Key| #[trigger]
                        tally(link_sources(self.store@, entity, refs(expr@)), a) <= tally(self.graph.list(a), k) by {
                        assert(tally(link_sources(before, entity, references(removed@.value)), a) <= tally(
                            graph.list(a),
                            k,
                        ));
                    }
                }
                self.graph.unlink_expr(&self.store, entity, stat, expr);
            }
        }
        proof {
            let after = self.store@;
            assert(after =~= uninstalled(old(self)@, k, handle.id()).world);
            assert forall|a: Key, d: Key| #[trigger] tally(self.graph.list(a), d) == tally(sources(after, d), a) by {
                assert(tally(graph.list(a), d) == tally(sources(before, d), a));
                lemma_same_modifier_sources(before, after, d.0, node_in(after, d).modifiers);
                if d == k {
                    assert(node_in(after, k).modifiers == mods.remove(index as int));
                    assert(tally(modifier_sources(before, entity, mods), a) == tally(
                        modifier_sources(before, entity, mods.remove(index as int)),
                        a,
                    ) + tally(link_sources(before, entity, references(mods[index as int].value)), a));
                }
            }
        }
        Ok(())
    }

    /// Recomputes the transitive dependents of `seeds`, once each, in
    /// dependency order, refreshing every cached tag query and marking
    /// entities changed only where a value actually moved.
    pub(crate) fn recompute(&mut self, seeds: &Vec<(Entity, String)>)
        requires
            old(self).wf(),
        ensures
            final(self).wf(),
            final(self).host() == old(self).host(),
            carried(old(self).host(), old(self)@, keys_of(seeds@), final(self)@),
    {
        let ghost before = self@;
        let moved = recompute(&self.host, &self.config, &mut self.store, &self.graph, seeds);
        let ghost all = keys_of(moved@);
        proof {
            lemma_settled_frame(self.host, self.config@, before.world, keys_of(seeds@), self.store@, all);
            lemma_wired_same(before.world, self.store@, self.graph);
        }
        let ghost world = self.store@;
        let mut i: usize = 0;
        assert(before.events + all.take(0) =~= before.events);
        assert(before.dirty.union(owners(all.take(0))) =~= before.dirty);
        while i < moved.len()
            invariant
                i <= moved@.len(),
                all == keys_of(moved@),
                self.wf(),
                self.host() == old(self).host(),
                self@ =~= (State {
                    world,
                    events: before.events + all.take(i as int),
                    dirty: before.dirty.union(owners(all.take(i as int))),
                    ..before
                }),
            decreases moved@.len() - i,
        {
            let ghost events = self@.events;
            let ghost dirty = self@.dirty;
            let key = &moved[i];
            self.dirty.mark(key.0);
            self.events.push(StatChanged { entity: key.0, stat: key.1.clone() });
            proof {
                let now = all.take(i as int);
                let next = all.take(i + 1);
                assert(next =~= now.push(all[i as int]));
                assert(self@.events =~= events.push(all[i as int]));
                assert(before.events + next =~= (before.events + now).push(all[i as int]));
                assert(owners(next) =~= owners(now).insert(key.0)) by {
                    assert forall|e: Entity| owners(next).contains(e) <==> owners(now).insert(key.0).contains(e) by {
                        if owners(now).contains(e) {
                            let j = choose|j: int| 0 <= j < now.len() && (#[trigger] now[j]).0 == e;
                            assert(next[j].0 == e);
                        }
                        if owners(next).contains(e) {
                            let j = choose|j: int| 0 <= j < next.len() && (#[trigger] next[j]).0 == e;
                            if j < now.len() {
                                assert(now[j].0 == e);
                            }
                        }
                        assert(next[i as int].0 == key.0);
                    }
                }
                assert(self@.dirty =~= before.dirty.union(owners(next)));
            }
            i = i + 1;
        }
        assert(all.take(i as int) =~= all);
    }
}

impl<A: Arithmetic> View for StatsMutator<A> {
    type V = State;

    closed spec fn view(&self) -> State {
        State {
            tags: self.tags@,
            rules: self.config@,
            world: self.store@,
            last_id: self.ids.last(),
            dirty: self.dirty@,
            events: event_list(self.events@),
        }
    }
}

/// Stats that have the same modifiers and links make the same edges.
proof fn lemma_wired_same(before: World, after: World, graph: StatGraph)
    requires
        wired(before, graph),
        forall|k: Key| #[trigger] node_in(before, k).modifiers == node_in(after, k).modifiers,
        forall|e: Entity, name: Seq<char>|
            linked(before, e, Some(name)) == #[trigger] linked(after, e, Some(name)),
    ensures
        wired(after, graph),
{
    assert forall|a: Key, d: Key| #[trigger] tally(graph.list(a), d) == tally(sources(after, d), a) by {
        assert(node_in(before, d).modifiers == node_in(after, d).modifiers);
        lemma_same_modifier_sources(before, after, d.0, node_in(after, d).modifiers);
    }
}

/// Bringing a stat into being makes no edges.
proof fn lemma_wired_touched(before: World, after: World, graph: StatGraph, k: Key)
    requires
        wired(before, graph),
        after.nodes == touched(before, k).nodes,
        after.links == before.links,
    ensures
        wired(after, graph),
{
    lemma_wired_same(before, after, graph);
}

/// A modifier found in the front part of a list is the one found in all of
/// it.
proof fn lemma_place_prefix(mods: Seq<Stored>, id: u64, n: int)
    requires
        0 <= n <= mods.len(),
        place_of(mods.take(n), id) is Some,
    ensures
        place_of(mods, id) == place_of(mods.take(n), id),
    decreases mods.len(),
{
    if n < mods.len() {
        assert(mods.drop_last().take(n) =~= mods.take(n));
        lemma_place_prefix(mods.drop_last(), id, n);
    } else {
        assert(mods.take(n) =~= mods);
    }
}

/// Taking a modifier out takes out what it reads.
proof fn lemma_sources_remove(world: World, owner: Entity, mods: Seq<Stored>, i: int, a: Key)
    requires
        0 <= i < mods.len(),
    ensures
        tally(modifier_sources(world, owner, mods), a) == tally(modifier_sources(world, owner, mods.remove(i)), a)
            + tally(link_sources(world, owner, references(mods[i].value)), a),
    decreases mods.len(),
{
    let last = link_sources(world, owner, references(mods.last().value));
    lemma_tally_add(modifier_sources(world, owner, mods.drop_last()), last, a);
    if i < mods.len() - 1 {
        lemma_sources_remove(world, owner, mods.drop_last(), i, a);
        assert(mods.remove(i).drop_last() =~= mods.drop_last().remove(i));
        lemma_tally_add(modifier_sources(world, owner, mods.drop_last().remove(i)), last, a);
    } else {
        assert(mods.remove(i) =~= mods.drop_last());
    }
}

/// What a list of compiled modifiers says.
spec fn part_list(list: Seq<(String, TagSet, StoredValue)>) -> Seq<Part> {
    list.map_values(|p: (String, TagSet, StoredValue)| Part { stat: p.0@, tags: p.1@, value: p.2@ })
}

/// The first fault in the front part of a set is the first fault of it.
proof fn lemma_fault_prefix(tags: Map<Seq<char>, u64>, set: Seq<(Seq<char>, Contribution)>, n: int)
    requires
        0 <= n <= set.len(),
        entries_fault(tags, set.take(n)) is Some,
    ensures
        entries_fault(tags, set) == entries_fault(tags, set.take(n)),
    decreases set.len(),
{
    if n < set.len() {
        assert(set.drop_last().take(n) =~= set.take(n));
        lemma_fault_prefix(tags, set.drop_last(), n);
    } else {
        assert(set.take(n) =~= set);
    }
}

/// Appends a stat to a list of seeds, unless it is there.
pub(crate) fn push_seed(seeds: &mut Vec<(Entity, String)>, entity: Entity, stat: &String)
    ensures
        keys_of(final(seeds)@) == with_seed(keys_of(old(seeds)@), (entity, stat@)),
{
    let ghost all = keys_of(seeds@);
    let ghost k: Key = (entity, stat@);
    let mut i: usize = 0;
    while i < seeds.len()
        invariant
            i <= seeds@.len(),
            seeds@ == old(seeds)@,
            all == keys_of(seeds@),
            k == (entity, stat@),
            forall|p: int| 0 <= p < i ==> #[trigger] all[p] != k,
        decreases seeds@.len() - i,
    {
        assert(all[i as int] == (seeds@[i as int].0, seeds@[i as int].1@));
        if seeds[i].0 == entity && seeds[i].1 == *stat {
            assert(all.contains(k));
            return;
        }
        i = i + 1;
    }
    seeds.push((entity, stat.clone()));
    assert(keys_of(seeds@) =~= all.push(k));
}

/// What a list of errors says.
pub open spec fn fault_list(list: Seq<StatError>) -> Seq<Fault> {
    list.map_values(|e: StatError| e@)
}

/// Tearing an entity down leaves it without stats.
proof fn lemma_torn_down<A: Arithmetic>(host: A, s: State, entity: Entity, after: State)
    requires
        torn_down(host, s, entity, after),
    ensures
        !after.world.carriers.contains(entity),
        after.last_id == s.last_id,
        after.tags == s.tags,
        after.rules == s.rules,
{
    if s.world.carriers.contains(entity) {
        let mid = State { world: without_entity(s.world, entity), ..s };
        let seeds = choose|seeds: Seq<Key>| #[trigger]
            carried(host, mid, seeds, after) && seeds.no_duplicates() && forall|d: Key| #[trigger]
                seeds.contains(d) <==> d.0 != entity && exists|name: Seq<char>| #[trigger]
                    feeds(s.world, (entity, name), d);
        let moved = choose|moved: Seq<Key>| #[trigger]
            settled(host, mid.rules, mid.world, seeds, after.world, moved) && after == (State {
                world: World { cache: after.world.cache, ..mid.world },
                events: mid.events + moved,
                dirty: mid.dirty.union(owners(moved)),
                ..mid
            });
        lemma_settled_frame(host, mid.rules, mid.world, seeds, after.world, moved);
    }
}

/// Read-only access to resolved stat values.
///
/// Reads hit the cache when the value has been computed before; otherwise the
/// value is computed on the fly (without being cached, since a reader holds
/// no write access). Use [`StatsMutator`] where warm caches matter.
pub struct StatsReader<'a, A: Arithmetic> {
    source: &'a StatsMutator<A>,
}

impl<'a, A: Arithmetic> View for StatsReader<'a, A> {
    type V = State;

    closed spec fn view(&self) -> State {
        self.source@
    }
}

impl<'a, A: Arithmetic> StatsReader<'a, A> {
    /// The parts are in order.
    pub closed spec fn wf(&self) -> bool {
        self.source.wf()
    }

    /// The arithmetic in use.
    pub closed spec fn host(&self) -> A {
        self.source.host()
    }

    /// A reader of what `source` holds.
    pub fn new(source: &'a StatsMutator<A>) -> (reader: StatsReader<'a, A>)
        requires
            source.wf(),
        ensures
            reader.wf(),
            reader.host() == source.host(),
            reader@ == source@,
    {
        StatsReader { source }
    }

    /// Resolves a stat's value with no tag filter.
    pub fn get(&self, entity: Entity, stat: &str) -> (v: Scalar)
        requires
            self.wf(),
        ensures
            stat_value(
                scene_of(self.host(), self@),
                Seq::empty(),
                (Query { key: (entity, stat@), tags: 0 }),
                v,
            ),
    {
        self.get_filtered(entity, stat, TagSet::none())
    }

    /// Resolves a stat's value under a tag query (subset rule).
    pub fn get_filtered(&self, entity: Entity, stat: &str, tags: TagSet) -> (v: Scalar)
        requires
            self.wf(),
        ensures
            stat_value(
                scene_of(self.host(), self@),
                Seq::empty(),
                (Query { key: (entity, stat@), tags: tags@ }),
                v,
            ),
    {
        self.source.resolve(entity, &stat.to_owned(), tags)
    }

    /// Resolves a stat under a tag query given as a name list (`"fire, sword"`).
    pub fn get_with_tags(&self, entity: Entity, stat: &str, tags: &str) -> (r: Result<Scalar, StatError>)
        requires
            self.wf(),
        ensures
            match resolved(self@.tags.tags, listed(fields(tags@))) {
                Ok(mask) => r matches Ok(v) && stat_value(
                    scene_of(self.host(), self@),
                    Seq::empty(),
                    (Query { key: (entity, stat@), tags: mask }),
                    v,
                ),
                Err(name) => r matches Err(e) && e@ == Fault::UnknownTag(name),
            },
    {
        match self.source.tag_registry().parse(tags) {
            Ok(set) => Ok(self.get_filtered(entity, stat, set)),
            Err(e) => Err(e),
        }
    }

    /// Evaluates an ad-hoc expression against an entity's stats.
    pub fn eval(&self, entity: Entity, expression: &Expression) -> (r: Result<Scalar, StatError>)
        requires
            self.wf(),
        ensures
            evaluated(self.host(), self@, entity, Map::empty(), expression.term(), outcome(r)),
    {
        self.source.eval(entity, expression)
    }

    /// The [`TagRegistry`], for resolving tag names to [`TagSet`]s.
    pub fn tag_registry(&self) -> (reg: &TagRegistry)
        ensures
            reg@ == self@.tags,
    {
        self.source.tag_registry()
    }
}

} // verus!
