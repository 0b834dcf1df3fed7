//! What holds of every state that operations lead to.
//!
//! A [`history`] starts with an empty stat graph and goes on by operations.
//! The reductions are fixed when it starts: changing them later leaves values
//! in the caches that were resolved with the old ones.

use crate::coherence::{
    coherent, law_add_keeps_coherence, law_apply_keeps_coherence, law_effect_keeps_coherence, law_get_keeps_coherence,
    law_insert_keeps_coherence, law_relink_keeps_coherence, law_remove_keeps_coherence,
    law_remove_modifier_keeps_coherence, law_remove_stat_keeps_coherence, law_set_keeps_coherence,
    law_teardown_keeps_coherence,
};
use crate::effect::{effect_applied, Outcome, Step};
use crate::entity::Entity;
use crate::error::Fault;
use crate::eval::stat_value;
use crate::exact::{
    exact, law_last_link_decides_reads, law_reads_survive_apply_and_remove, law_reads_survive_link_and_clear,
};
use crate::graph::{dependents, linked};
use crate::laws::{
    law_apply_then_remove, law_last_link_decides, law_link_then_clear, law_remove_from_a_gone_entity_is_quiet,
    law_relink_moves_the_link, law_remove_is_idempotent, law_same_makeup_same_edges, same_makeup,
};
use crate::modifier::Contribution;
use crate::scalar::{Arithmetic, Scalar};
use crate::state::{
    base_set, carried, modifier_added, numbered, relinked, remembered, scene_of, set_applied, set_removed,
    stat_removed, stats_inserted, torn_down, uninstalled, State,
};
use crate::stats::{Pending, Rules};
use crate::tags::Registry;
use crate::transfer::grounded;
use crate::world::{consistent, Key, Query, World};
use vstd::prelude::*;

verus! {

/// An operation on a stat graph.
pub enum Operation {
    /// A query is read, and comes to a value.
    Read(Query, Scalar),
    /// A base value is set.
    Assign(Key, Scalar),
    /// A modifier is added.
    Add(Entity, Seq<char>, Contribution),
    /// A modifier is removed.
    Remove(Key, u64),
    /// A set of modifiers is applied.
    Apply(Entity, Seq<(Seq<char>, Contribution)>, Seq<(Seq<char>, u64)>),
    /// An applied set is removed.
    Unapply(Entity, Seq<(Seq<char>, u64)>),
    /// A stat is removed.
    RemoveStat(Key),
    /// A link is pointed at an entity, or cleared.
    Relink(Entity, Seq<char>, Option<Entity>),
    /// Starting stats are put in.
    Insert(Entity, Seq<Pending>, Seq<Fault>),
    /// The stats of an entity are taken out.
    Teardown(Entity),
    /// An effect is applied.
    Effect(Map<Seq<char>, Entity>, Seq<Step>, Seq<Outcome>),
    /// Tags are registered.
    Register(Registry),
    /// What has been recorded of changes is taken out.
    Sweep,
}

/// `after` is the state that an operation leads to.
pub open spec fn performed<A: Arithmetic>(host: A, s: State, op: Operation, after: State) -> bool {
    match op {
        Operation::Read(q, v) => stat_value(scene_of(host, s), Seq::empty(), q, v) && after == (State {
            world: remembered(s.world, q, v),
            ..s
        }),
        Operation::Assign(k, value) => base_set(host, s, k, value, after),
        Operation::Add(entity, path, m) => modifier_added(host, s, entity, path, m, after),
        Operation::Remove(k, id) => carried(host, uninstalled(s, k, id), seq![k], after),
        Operation::Apply(entity, set, handles) => set_applied(host, s, entity, set, handles, after),
        Operation::Unapply(entity, handles) => set_removed(host, s, entity, handles, after),
        Operation::RemoveStat(k) => stat_removed(host, s, k, after),
        Operation::Relink(entity, name, target) => relinked(host, s, entity, name, target, after),
        Operation::Insert(entity, pending, faults) => stats_inserted(host, s, entity, pending, faults, after),
        Operation::Teardown(entity) => torn_down(host, s, entity, after),
        Operation::Effect(roles, steps, outs) => effect_applied(host, s, roles, steps, outs, after),
        Operation::Register(tags) => after == (State { tags, ..s }),
        Operation::Sweep => after == (State { dirty: after.dirty, events: after.events, ..s }),
    }
}

/// The state of an empty stat graph.
pub open spec fn beginning(tags: Registry, rules: Rules) -> State {
    State {
        tags,
        rules,
        world: World { carriers: Set::empty(), nodes: Map::empty(), links: Map::empty(), cache: Map::empty() },
        last_id: 0,
        dirty: Set::empty(),
        events: Seq::empty(),
    }
}

/// `states` starts with an empty stat graph, and each operation leads from one
/// state to the next.
pub open spec fn history<A: Arithmetic>(host: A, states: Seq<State>, ops: Seq<Operation>) -> bool {
    &&& states.len() == ops.len() + 1
    &&& states[0] == beginning(states[0].tags, states[0].rules)
    &&& forall|i: int| 0 <= i < ops.len() ==> performed(host, states[i], #[trigger] ops[i], states[i + 1])
    &&& forall|i: int| 0 <= i < states.len() ==> consistent((#[trigger] states[i]).world)
}

/// Whether operations on an empty stat graph lead to a state.
pub open spec fn reachable<A: Arithmetic>(host: A, s: State) -> bool {
    exists|states: Seq<State>, ops: Seq<Operation>| #[trigger] history(host, states, ops) && states.last() == s
}

/// No operation leaves a stale value behind.
pub proof fn law_operations_keep_coherence<A: Arithmetic>(host: A, s: State, op: Operation, after: State)
    requires
        consistent(s.world),
        coherent(scene_of(host, s)),
        performed(host, s, op, after),
    ensures
        coherent(scene_of(host, after)),
{
    match op {
        Operation::Read(q, v) => law_get_keeps_coherence(host, s, q, v),
        Operation::Assign(k, value) => law_set_keeps_coherence(host, s, k, value, after),
        Operation::Add(entity, path, m) => law_add_keeps_coherence(host, s, entity, path, m, after),
        Operation::Remove(k, id) => law_remove_modifier_keeps_coherence(host, s, k, id, after),
        Operation::Apply(entity, set, handles) => law_apply_keeps_coherence(host, s, entity, set, handles, after),
        Operation::Unapply(entity, handles) => law_remove_keeps_coherence(host, s, entity, handles, after),
        Operation::RemoveStat(k) => law_remove_stat_keeps_coherence(host, s, k, after),
        Operation::Relink(entity, name, target) => law_relink_keeps_coherence(host, s, entity, name, target, after),
        Operation::Insert(entity, pending, faults) => law_insert_keeps_coherence(
            host,
            s,
            entity,
            pending,
            faults,
            after,
        ),
        Operation::Teardown(entity) => law_teardown_keeps_coherence(host, s, entity, after),
        Operation::Effect(roles, steps, outs) => law_effect_keeps_coherence(host, s, roles, steps, outs, after),
        Operation::Register(_) => {
            assert(scene_of(host, after) == scene_of(host, s));
        },
        Operation::Sweep => {
            assert(scene_of(host, after) == scene_of(host, s));
        },
    }
}

proof fn lemma_history<A: Arithmetic>(host: A, states: Seq<State>, ops: Seq<Operation>, i: int)
    requires
        history(host, states, ops),
        0 <= i < states.len(),
    ensures
        coherent(scene_of(host, states[i])),
    decreases i,
{
    if i > 0 {
        lemma_history(host, states, ops, i - 1);
        assert(consistent(states[i - 1].world));
        assert(performed(host, states[i - 1], ops[i - 1], states[i]));
        law_operations_keep_coherence(host, states[i - 1], ops[i - 1], states[i]);
    }
}

/// In every state that operations lead to, no cached value of a stat that does
/// not depend on a cycle is stale.
pub proof fn law_caches_are_never_stale<A: Arithmetic>(host: A, s: State)
    requires
        reachable(host, s),
    ensures
        coherent(scene_of(host, s)),
        consistent(s.world),
{
    let (states, ops) = choose|states: Seq<State>, ops: Seq<Operation>| #[trigger]
        history(host, states, ops) && states.last() == s;
    lemma_history(host, states, ops, states.len() - 1);
    assert(consistent(states[states.len() - 1].world));
}

/// Two states have the same links, base values, modifiers and dependents, and
/// every stat that does not depend on a cycle reads the same in both, under
/// every tag query.
pub open spec fn alike<A: Arithmetic>(host: A, s: State, after: State) -> bool {
    &&& same_makeup(after.world, s.world)
    &&& forall|k: Key| #[trigger] dependents(after.world, k) == dependents(s.world, k)
    &&& forall|q: Query, v: Scalar, w: Scalar|
        #![trigger stat_value(scene_of(host, s), Seq::empty(), q, v), stat_value(scene_of(host, after), Seq::empty(), q, w)]
        grounded(s.world, q.key) && stat_value(scene_of(host, s), Seq::empty(), q, v) && stat_value(
            scene_of(host, after),
            Seq::empty(),
            q,
            w,
        ) ==> v == w
}

/// Applying a set of modifiers and removing it again restores every link, base
/// value, modifier, dependent and read. Removing it once more changes nothing
/// and records no change; so does removing it from an entity that has lost its
/// stats.
pub proof fn law_removing_restores<A: Arithmetic>(
    host: A,
    s: State,
    entity: Entity,
    set: Seq<(Seq<char>, Contribution)>,
    handles: Seq<(Seq<char>, u64)>,
    applied: State,
    after: State,
)
    requires
        exact(host),
        reachable(host, s),
        numbered(s.world, s.last_id),
        numbered(applied.world, applied.last_id),
        consistent(applied.world),
        consistent(after.world),
        s.world.carriers.contains(entity),
        s.last_id + set.len() <= u64::MAX,
        set_applied(host, s, entity, set, handles, applied),
        set_removed(host, applied, entity, handles, after),
    ensures
        alike(host, s, after),
        forall|again: State| #[trigger] set_removed(host, after, entity, handles, again) ==> again == after,
        forall|gone: State, again: State| #[trigger]
            set_removed(host, gone, entity, handles, again) && !gone.world.carriers.contains(entity) ==> again == gone,
{
    law_caches_are_never_stale(host, s);
    law_apply_then_remove(host, s, entity, set, handles, applied, after);
    assert forall|k: Key| #[trigger] dependents(after.world, k) == dependents(s.world, k) by {
        law_same_makeup_same_edges(after.world, s.world, k);
    }
    assert forall|q: Query, v: Scalar, w: Scalar|
        #![trigger stat_value(scene_of(host, s), Seq::empty(), q, v), stat_value(scene_of(host, after), Seq::empty(), q, w)]
        grounded(s.world, q.key) && stat_value(scene_of(host, s), Seq::empty(), q, v) && stat_value(
            scene_of(host, after),
            Seq::empty(),
            q,
            w,
        ) implies v == w by {
        law_reads_survive_apply_and_remove(host, s, entity, set, handles, applied, after, q, v, w);
    }
    assert forall|again: State| #[trigger] set_removed(host, after, entity, handles, again) implies again == after by {
        law_remove_is_idempotent(host, applied, entity, handles, after, again);
    }
    assert forall|gone: State, again: State| #[trigger]
        set_removed(host, gone, entity, handles, again) && !gone.world.carriers.contains(entity) implies again
        == gone by {
        law_remove_from_a_gone_entity_is_quiet(host, gone, entity, handles, again);
    }
}

/// Setting a link that was not set and clearing it again restores every link,
/// base value, modifier, dependent and read.
pub proof fn law_clearing_restores<A: Arithmetic>(
    host: A,
    s: State,
    entity: Entity,
    name: Seq<char>,
    target: Entity,
    set: State,
    after: State,
)
    requires
        exact(host),
        reachable(host, s),
        consistent(set.world),
        consistent(after.world),
        linked(s.world, entity, Some(name)) is None,
        relinked(host, s, entity, name, Some(target), set),
        relinked(host, set, entity, name, None, after),
    ensures
        alike(host, s, after),
{
    law_caches_are_never_stale(host, s);
    law_link_then_clear(host, s, entity, name, target, set, after);
    assert forall|k: Key| #[trigger] dependents(after.world, k) == dependents(s.world, k) by {
        law_same_makeup_same_edges(after.world, s.world, k);
    }
    assert forall|q: Query, v: Scalar, w: Scalar|
        #![trigger stat_value(scene_of(host, s), Seq::empty(), q, v), stat_value(scene_of(host, after), Seq::empty(), q, w)]
        grounded(s.world, q.key) && stat_value(scene_of(host, s), Seq::empty(), q, v) && stat_value(
            scene_of(host, after),
            Seq::empty(),
            q,
            w,
        ) implies v == w by {
        law_reads_survive_link_and_clear(host, s, entity, name, target, set, after, q, v, w);
    }
}

/// Pointing a link at one target and then at another leaves every link, base
/// value, modifier, dependent and read as pointing it at the second alone
/// does. Pointing it there once more changes nothing and records no change.
pub proof fn law_relinking_replaces<A: Arithmetic>(
    host: A,
    s: State,
    entity: Entity,
    name: Seq<char>,
    first: Option<Entity>,
    second: Option<Entity>,
    mid: State,
    after: State,
    alone: State,
)
    requires
        exact(host),
        reachable(host, s),
        consistent(mid.world),
        consistent(after.world),
        consistent(alone.world),
        relinked(host, s, entity, name, first, mid),
        relinked(host, mid, entity, name, second, after),
        relinked(host, s, entity, name, second, alone),
    ensures
        alike(host, alone, after),
        forall|again: State| #[trigger] relinked(host, after, entity, name, second, again) ==> again == after,
{
    law_caches_are_never_stale(host, s);
    law_last_link_decides(host, s, entity, name, first, second, mid, after, alone);
    law_relink_moves_the_link(host, mid, entity, name, second, after);
    assert forall|k: Key| #[trigger] dependents(after.world, k) == dependents(alone.world, k) by {
        law_same_makeup_same_edges(after.world, alone.world, k);
    }
    assert forall|q: Query, v: Scalar, w: Scalar|
        #![trigger stat_value(scene_of(host, alone), Seq::empty(), q, v), stat_value(scene_of(host, after), Seq::empty(), q, w)]
        grounded(alone.world, q.key) && stat_value(scene_of(host, alone), Seq::empty(), q, v) && stat_value(
            scene_of(host, after),
            Seq::empty(),
            q,
            w,
        ) implies v == w by {
        law_last_link_decides_reads(host, s, entity, name, first, second, mid, after, alone, q, v, w);
    }
}

} // verus!
