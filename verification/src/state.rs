//! The state of a stat graph, and what the operations on it do to it.

use crate::entity::Entity;
use crate::error::{Fault, StatError};
use crate::eval::{formula_value, Context, Scene};
use crate::expr::{compiled, first_unknown, Rule};
use crate::graph::{feeds, linked, reads_through};
use crate::modifier::{Amount, Contribution};
use crate::parser::{path_parsed, Term};
use crate::recompute::settled;
use crate::scalar::{equals, Arithmetic, Scalar};
use crate::stats::{Node, Pending, Rules, Source, Stored};
use crate::tags::{resolved, Registry};
use crate::tree::refs;
use crate::world::{node_in, touched, with_link, with_node, without_entity, without_node, Key, Query, World};
use vstd::prelude::*;

verus! {

/// What a [`StatsMutator`](crate::StatsMutator) holds.
#[verifier::ext_equal]
pub struct State {
    /// The registered tags.
    pub tags: Registry,
    /// Which reduction each stat uses.
    pub rules: Rules,
    /// The stats of all entities.
    pub world: World,
    /// The last number given to a modifier.
    pub last_id: u64,
    /// The entities whose values changed since the last sweep.
    pub dirty: Set<Entity>,
    /// The changes that have not been taken out yet.
    pub events: Seq<Key>,
}

/// Every modifier has a number that was given out, and the modifiers of a
/// stat are in the order of their numbers.
pub open spec fn numbered(world: World, last_id: u64) -> bool {
    &&& forall|k: Key, i: int|
        #![trigger world.nodes[k].modifiers[i]]
        world.nodes.contains_key(k) && 0 <= i < world.nodes[k].modifiers.len() ==> world.nodes[k].modifiers[i].id
            <= last_id
    &&& forall|k: Key, i: int, j: int|
        #![trigger world.nodes[k].modifiers[i], world.nodes[k].modifiers[j]]
        world.nodes.contains_key(k) && 0 <= i < j < world.nodes[k].modifiers.len() ==> world.nodes[k].modifiers[i].id
            < world.nodes[k].modifiers[j].id
}

/// The entities of a list of stats.
pub open spec fn owners(list: Seq<Key>) -> Set<Entity> {
    Set::new(|e: Entity| exists|i: int| 0 <= i < list.len() && (#[trigger] list[i]).0 == e)
}

/// `after` is `mid` with everything that depends on `seeds` recomputed, and
/// what moved recorded. Only cached values change.
pub open spec fn carried<A: Arithmetic>(host: A, mid: State, seeds: Seq<Key>, after: State) -> bool {
    exists|moved: Seq<Key>| #[trigger]
        settled(host, mid.rules, mid.world, seeds, after.world, moved) && after == State {
            world: World { cache: after.world.cache, ..mid.world },
            events: mid.events + moved,
            dirty: mid.dirty.union(owners(moved)),
            ..mid
        }
}

/// What evaluation goes by in a state.
pub open spec fn scene_of<A>(host: A, state: State) -> Scene<A> {
    Scene { host, rules: state.rules, world: state.world }
}

/// The world with the value of a query cached, where its entity carries
/// stats.
pub open spec fn remembered(world: World, q: Query, v: Scalar) -> World {
    if world.cache.contains_key(q) || !world.carriers.contains(q.key.0) {
        world
    } else {
        World { cache: world.cache.insert(q, v), ..touched(world, q.key) }
    }
}

/// `v` is what an expression comes to on an entity; or the fault in its tag
/// filters.
pub open spec fn evaluated<A: Arithmetic>(
    host: A,
    state: State,
    entity: Entity,
    roles: Map<Seq<char>, Entity>,
    term: Term,
    r: Result<Scalar, Fault>,
) -> bool {
    match r {
        Err(fault) => first_unknown(state.tags.tags, refs(term)) matches Some(name) && fault == Fault::UnknownTag(name),
        Ok(v) => first_unknown(state.tags.tags, refs(term)) is None && exists|rule: Rule| #[trigger]
            compiled(host, state.tags.tags, term, rule) && formula_value(
                scene_of(host, state),
                Seq::empty(),
                (Context { owner: entity, roles, tags: 0 }),
                rule,
                v,
            ),
    }
}

/// The result of a fallible call, as a specification speaks of it.
pub open spec fn outcome<T>(r: Result<T, StatError>) -> Result<T, Fault> {
    match r {
        Ok(v) => Ok(v),
        Err(e) => Err(e@),
    }
}


// -- base values ------------------------------------------------------------

/// The state with the base value of a stat replaced.
pub open spec fn based(s: State, k: Key, value: Scalar) -> State {
    State { world: with_node(s.world, k, Node { base: Some(value), ..node_in(s.world, k) }), ..s }
}

/// What keeps a base value from being set.
pub open spec fn set_fault(s: State, entity: Entity, stat: Seq<char>) -> Option<Fault> {
    match path_parsed(stat) {
        Err(fault) => Some(Fault::Parse(fault)),
        Ok((_, tags)) => if tags.len() > 0 {
            Some(Fault::InvalidPath(stat, "base values are untagged; tag the modifiers instead"@))
        } else if !s.world.carriers.contains(entity) {
            Some(Fault::NoStats(entity))
        } else {
            None
        },
    }
}

/// Whether the base value of a stat equals `value` already.
pub open spec fn base_equals(world: World, k: Key, value: Scalar) -> bool {
    node_in(world, k).base matches Some(base) && equals(base, value)
}

/// `after` is the state with a base value set: the same state if the stat has
/// an equal one.
pub open spec fn base_set<A: Arithmetic>(host: A, s: State, k: Key, value: Scalar, after: State) -> bool {
    if base_equals(s.world, k, value) {
        after == s
    } else {
        carried(host, based(s, k, value), seq![k], after)
    }
}

// -- modifiers --------------------------------------------------------------

/// What keeps a modifier from being compiled.
pub open spec fn modifier_fault(tags: Map<Seq<char>, u64>, path: Seq<char>, m: Contribution) -> Option<Fault> {
    match path_parsed(path) {
        Err(fault) => Some(Fault::Parse(fault)),
        Ok((_, own)) => match resolved(tags, own + m.tags) {
            Err(name) => Some(Fault::UnknownTag(name)),
            Ok(_) => match m.value {
                Amount::Literal(_) => None,
                Amount::Expression(_, term) => match first_unknown(tags, refs(term)) {
                    Some(name) => Some(Fault::UnknownTag(name)),
                    None => None,
                },
            },
        },
    }
}

/// A compiled modifier, and the stat that it is for.
pub struct Part {
    pub stat: Seq<char>,
    pub tags: u64,
    pub value: Source,
}

/// `part` is a modifier for `path`, compiled.
pub open spec fn modifier_part<A: Arithmetic>(
    host: A,
    tags: Map<Seq<char>, u64>,
    path: Seq<char>,
    m: Contribution,
    part: Part,
) -> bool {
    &&& path_parsed(path) matches Ok((stat, own)) && part.stat == stat && resolved(tags, own + m.tags) == Ok::<
        u64,
        Seq<char>,
    >(part.tags)
    &&& match m.value {
        Amount::Literal(v) => part.value == Source::Literal(v),
        Amount::Expression(_, term) => part.value matches Source::Expr(rule) && compiled(host, tags, term, rule),
    }
}

/// The state with a compiled modifier added under the next number.
pub open spec fn installed(s: State, entity: Entity, part: Part) -> State {
    let k: Key = (entity, part.stat);
    let id = (s.last_id + 1) as u64;
    let node = node_in(s.world, k);
    State {
        world: with_node(
            s.world,
            k,
            Node { modifiers: node.modifiers.push(Stored { id, tags: part.tags, value: part.value }), ..node },
        ),
        last_id: id,
        ..s
    }
}

/// What keeps a modifier from being added to an entity.
pub open spec fn add_fault(s: State, entity: Entity, path: Seq<char>, amount: Result<Amount, Fault>) -> Option<Fault> {
    match amount {
        Err(fault) => Some(fault),
        Ok(value) => match modifier_fault(s.tags.tags, path, Contribution { value, tags: Seq::empty() }) {
            Some(fault) => Some(fault),
            None => if !s.world.carriers.contains(entity) {
                Some(Fault::NoStats(entity))
            } else {
                None
            },
        },
    }
}

/// `after` is the state with a modifier added.
pub open spec fn modifier_added<A: Arithmetic>(
    host: A,
    s: State,
    entity: Entity,
    path: Seq<char>,
    m: Contribution,
    after: State,
) -> bool {
    exists|part: Part| #[trigger]
        modifier_part(host, s.tags.tags, path, m, part) && carried(
            host,
            installed(s, entity, part),
            seq![(entity, part.stat)],
            after,
        )
}

/// The first place in a list of modifiers at which there is one of this
/// number.
pub open spec fn place_of(mods: Seq<Stored>, id: u64) -> Option<int>
    decreases mods.len(),
{
    if mods.len() == 0 {
        None
    } else {
        match place_of(mods.drop_last(), id) {
            Some(i) => Some(i),
            None => if mods.last().id == id {
                Some(mods.len() - 1)
            } else {
                None
            },
        }
    }
}

/// What keeps a modifier from being taken out.
pub open spec fn remove_fault(world: World, k: Key, id: u64) -> Option<Fault> {
    if !world.carriers.contains(k.0) {
        Some(Fault::NoStats(k.0))
    } else if place_of(node_in(world, k).modifiers, id) is None {
        Some(Fault::UnknownModifier(k.1))
    } else {
        None
    }
}

/// The state with the modifier of a number taken out; the same state if there
/// is none.
pub open spec fn uninstalled(s: State, k: Key, id: u64) -> State {
    let node = node_in(s.world, k);
    match place_of(node.modifiers, id) {
        Some(i) => State { world: with_node(s.world, k, Node { modifiers: node.modifiers.remove(i), ..node }), ..s },
        None => s,
    }
}

// -- sets of modifiers ------------------------------------------------------

/// What keeps a set of modifiers from being compiled: the first fault.
pub open spec fn entries_fault(tags: Map<Seq<char>, u64>, set: Seq<(Seq<char>, Contribution)>) -> Option<Fault>
    decreases set.len(),
{
    if set.len() == 0 {
        None
    } else {
        match entries_fault(tags, set.drop_last()) {
            Some(fault) => Some(fault),
            None => modifier_fault(tags, set.last().0, set.last().1),
        }
    }
}

/// What keeps a set of modifiers from being applied to an entity.
pub open spec fn apply_fault(s: State, entity: Entity, set: Seq<(Seq<char>, Contribution)>) -> Option<Fault> {
    match entries_fault(s.tags.tags, set) {
        Some(fault) => Some(fault),
        None => if !s.world.carriers.contains(entity) {
            Some(Fault::NoStats(entity))
        } else {
            None
        },
    }
}

/// `parts` are the modifiers of a set, compiled.
pub open spec fn entries_parts<A: Arithmetic>(
    host: A,
    tags: Map<Seq<char>, u64>,
    set: Seq<(Seq<char>, Contribution)>,
    parts: Seq<Part>,
) -> bool {
    &&& parts.len() == set.len()
    &&& forall|i: int|
        0 <= i < set.len() ==> modifier_part(host, tags, set[i].0, set[i].1, #[trigger] parts[i])
}

/// The state with compiled modifiers added in turn.
pub open spec fn attached(s: State, entity: Entity, parts: Seq<Part>) -> State
    decreases parts.len(),
{
    if parts.len() == 0 {
        s
    } else {
        installed(attached(s, entity, parts.drop_last()), entity, parts.last())
    }
}

/// The list with `k` at its end, if it does not hold it yet.
pub open spec fn with_seed(seeds: Seq<Key>, k: Key) -> Seq<Key> {
    if seeds.contains(k) {
        seeds
    } else {
        seeds.push(k)
    }
}

/// A list with one more seed holds what it held and the seed, each once.
pub proof fn lemma_with_seed(seeds: Seq<Key>, k: Key)
    ensures
        seeds.no_duplicates() ==> with_seed(seeds, k).no_duplicates(),
        forall|x: Key| #[trigger] with_seed(seeds, k).contains(x) <==> seeds.contains(x) || x == k,
{
    assert forall|x: Key| #[trigger] with_seed(seeds, k).contains(x) <==> seeds.contains(x) || x == k by {
        if !seeds.contains(k) {
            if seeds.contains(x) {
                let i = choose|i: int| 0 <= i < seeds.len() && seeds[i] == x;
                assert(seeds.push(k)[i] == x);
            }
            assert(seeds.push(k)[seeds.len() as int] == k);
        }
    }
}

/// The stats that compiled modifiers are for, each once.
pub open spec fn part_seeds(entity: Entity, parts: Seq<Part>) -> Seq<Key>
    decreases parts.len(),
{
    if parts.len() == 0 {
        Seq::empty()
    } else {
        with_seed(part_seeds(entity, parts.drop_last()), (entity, parts.last().stat))
    }
}

/// The stats and numbers of compiled modifiers that are added after number
/// `last_id`.
pub open spec fn part_handles(last_id: u64, parts: Seq<Part>) -> Seq<(Seq<char>, u64)> {
    Seq::new(parts.len(), |i: int| (parts[i].stat, (last_id + 1 + i) as u64))
}

/// `after` is the state with a set of modifiers applied, and `handles` their
/// stats and numbers.
pub open spec fn set_applied<A: Arithmetic>(
    host: A,
    s: State,
    entity: Entity,
    set: Seq<(Seq<char>, Contribution)>,
    handles: Seq<(Seq<char>, u64)>,
    after: State,
) -> bool {
    exists|parts: Seq<Part>| #[trigger]
        entries_parts(host, s.tags.tags, set, parts) && handles == part_handles(s.last_id, parts) && carried(
            host,
            attached(s, entity, parts),
            part_seeds(entity, parts),
            after,
        )
}

/// The state with modifiers taken out in turn; those that are not there are
/// passed over.
pub open spec fn detached(s: State, entity: Entity, handles: Seq<(Seq<char>, u64)>) -> State
    decreases handles.len(),
{
    if handles.len() == 0 {
        s
    } else {
        uninstalled(detached(s, entity, handles.drop_last()), (entity, handles.last().0), handles.last().1)
    }
}

/// The stats that modifiers are taken out of, each once.
pub open spec fn detached_seeds(s: State, entity: Entity, handles: Seq<(Seq<char>, u64)>) -> Seq<Key>
    decreases handles.len(),
{
    if handles.len() == 0 {
        Seq::empty()
    } else {
        let before = detached_seeds(s, entity, handles.drop_last());
        let mid = detached(s, entity, handles.drop_last());
        let k: Key = (entity, handles.last().0);
        if remove_fault(mid.world, k, handles.last().1) is None {
            with_seed(before, k)
        } else {
            before
        }
    }
}

/// `after` is the state with an applied set of modifiers taken out.
pub open spec fn set_removed<A: Arithmetic>(
    host: A,
    s: State,
    entity: Entity,
    handles: Seq<(Seq<char>, u64)>,
    after: State,
) -> bool {
    if s.world.carriers.contains(entity) {
        carried(host, detached(s, entity, handles), detached_seeds(s, entity, handles), after)
    } else {
        after == s
    }
}

/// `after` is the state with a stat taken out, if it exists.
pub open spec fn stat_removed<A: Arithmetic>(host: A, s: State, k: Key, after: State) -> bool {
    if s.world.nodes.contains_key(k) {
        carried(host, State { world: without_node(s.world, k), ..s }, seq![k], after)
    } else {
        after == s
    }
}

// -- links ------------------------------------------------------------------

/// `after` is the state with a link pointed at `target`, or cleared, and
/// every stat that reads through it recomputed.
pub open spec fn relinked<A: Arithmetic>(
    host: A,
    s: State,
    entity: Entity,
    name: Seq<char>,
    target: Option<Entity>,
    after: State,
) -> bool {
    if linked(s.world, entity, Some(name)) == target {
        after == s
    } else {
        exists|seeds: Seq<Key>| #[trigger]
            carried(host, State { world: with_link(s.world, entity, name, target), ..s }, seeds, after)
                && seeds.no_duplicates() && forall|k: Key| #[trigger]
                seeds.contains(k) <==> k.0 == entity && reads_through(s.world, k, name)
    }
}

// -- entities ---------------------------------------------------------------

/// `after` is the state in which an entity carries no stats any more, and
/// every stat that read one of its stats is recomputed.
pub open spec fn torn_down<A: Arithmetic>(host: A, s: State, entity: Entity, after: State) -> bool {
    if s.world.carriers.contains(entity) {
        exists|seeds: Seq<Key>| #[trigger]
            carried(host, State { world: without_entity(s.world, entity), ..s }, seeds, after)
                && seeds.no_duplicates() && forall|d: Key| #[trigger]
                seeds.contains(d) <==> d.0 != entity && exists|name: Seq<char>| #[trigger]
                    feeds(s.world, (entity, name), d)
    } else {
        after == s
    }
}

/// What installing starting stats has come to: the state, the stats that were
/// written, and the faults of the entries that were passed over.
pub struct Drained {
    pub state: State,
    pub seeds: Seq<Key>,
    pub faults: Seq<Fault>,
}

/// `done` is what installing `pending` on an entity comes to. Base values are
/// written, modifiers are compiled and added, and those that do not compile
/// are passed over.
pub open spec fn drained<A: Arithmetic>(
    host: A,
    s: State,
    entity: Entity,
    pending: Seq<Pending>,
    done: Drained,
) -> bool
    decreases pending.len(),
{
    if pending.len() == 0 {
        done == Drained { state: s, seeds: Seq::empty(), faults: Seq::empty() }
    } else {
        exists|mid: Drained| #[trigger]
            drained_entry(host, entity, pending.last(), mid, done) && drained(host, s, entity, pending.drop_last(), mid)
    }
}

/// `done` is `mid` with one more entry installed.
pub open spec fn drained_entry<A: Arithmetic>(
    host: A,
    entity: Entity,
    entry: Pending,
    mid: Drained,
    done: Drained,
) -> bool {
    match entry {
        Pending::Base(stat, value) => done == Drained {
            state: based(mid.state, (entity, stat), value),
            seeds: with_seed(mid.seeds, (entity, stat)),
            faults: mid.faults,
        },
        Pending::Modifier(path, m) => match modifier_fault(mid.state.tags.tags, path, m) {
            Some(fault) => done == Drained { faults: mid.faults.push(fault), ..mid },
            None => exists|part: Part| #[trigger]
                modifier_part(host, mid.state.tags.tags, path, m, part) && done == Drained {
                    state: installed(mid.state, entity, part),
                    seeds: with_seed(mid.seeds, (entity, part.stat)),
                    faults: mid.faults,
                },
        },
    }
}

/// The state in which an entity carries an empty container.
pub open spec fn with_carrier(s: State, entity: Entity) -> State {
    State { world: World { carriers: s.world.carriers.insert(entity), ..s.world }, ..s }
}

/// `after` is the state with the starting stats of an entity installed on it,
/// in place of the stats that it carried, and `faults` are those of the
/// entries that were passed over.
pub open spec fn stats_inserted<A: Arithmetic>(
    host: A,
    s: State,
    entity: Entity,
    pending: Seq<Pending>,
    faults: Seq<Fault>,
    after: State,
) -> bool {
    exists|mid: State, done: Drained|
        #![trigger torn_down(host, s, entity, mid), carried(host, done.state, done.seeds, after)]
        torn_down(host, s, entity, mid) && drained(host, with_carrier(mid, entity), entity, pending, done)
            && carried(host, done.state, done.seeds, after) && faults == done.faults
}

} // verus!
