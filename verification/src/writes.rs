//! What the operations leave behind, said of their inputs and of what the
//! state holds before and after.

use crate::effect::{
    effect_applied, latest, operand, outcomes, previewed, starting, step_outcome, writable, written, written_seeds,
    InstantOp, Outcome, Step,
};
use crate::entity::Entity;
use crate::eval::stat_value;
use crate::expr::{compiled, Link};
use crate::graph::{feeds, link_sources, modifier_sources, references, sources};
use crate::laws::{
    ascending, gained, law_recompute_is_exact, lemma_attached_makeup, lemma_carried_parts, lemma_place_some, lemma_uninstalled,
    lemma_written_makeup, unused,
};
use crate::meaning::{number, rank};
use crate::modifier::{Amount, Contribution};
use crate::parser::path_parsed;
use crate::scalar::{Arithmetic, Scalar};
use crate::state::{
    attached, base_set, based, carried, detached, detached_seeds, entries_parts, evaluated, installed, modifier_added,
    modifier_part, numbered, part_handles, part_seeds, place_of, relinked, remembered, remove_fault, scene_of,
    set_applied, set_fault, set_removed, stat_removed, torn_down, uninstalled, Part, State,
};
use crate::stats::{Source, Stored};
use crate::sync::{field_read, field_written, fields_read, fields_written, Mirror};
use crate::tags::resolved;
use crate::tree::refs;
use crate::world::{consistent, node_in, without_entity, without_node, Key, Query, World};
use vstd::prelude::*;

verus! {

/// The base value of a stat, if the stat exists and has one.
pub open spec fn base_at(world: World, k: Key) -> Option<Scalar> {
    if world.nodes.contains_key(k) {
        world.nodes[k].base
    } else {
        None
    }
}

/// The modifiers of a stat; none, where it does not exist.
pub open spec fn modifiers_at(world: World, k: Key) -> Seq<Stored> {
    if world.nodes.contains_key(k) {
        world.nodes[k].modifiers
    } else {
        Seq::empty()
    }
}

/// Whether two patterns are the same, or the same number.
pub open spec fn same(a: Scalar, b: Scalar) -> bool {
    a == b || number(a) && number(b) && rank(a) == rank(b)
}

/// Whether a stat has a base value that is `v`.
pub open spec fn holds(world: World, k: Key, v: Scalar) -> bool {
    base_at(world, k) matches Some(base) && same(base, v)
}

/// Whether a stat has the base value and the modifiers in one world that it
/// has in another.
pub open spec fn untouched(before: World, after: World, k: Key) -> bool {
    base_at(after, k) == base_at(before, k) && modifiers_at(after, k) == modifiers_at(before, k)
}

// -- base values ------------------------------------------------------------

/// Setting a base value leaves the stat with that value, and all else as it
/// was: its modifiers, the other stats, the links, and who carries stats.
pub proof fn law_set_leaves_the_value<A: Arithmetic>(host: A, s: State, k: Key, value: Scalar, after: State)
    requires
        base_set(host, s, k, value, after),
    ensures
        holds(after.world, k, value),
        modifiers_at(after.world, k) == modifiers_at(s.world, k),
        forall|other: Key| other != k ==> #[trigger] untouched(s.world, after.world, other),
        after.world.links == s.world.links,
        after.world.carriers == s.world.carriers,
        after.last_id == s.last_id,
        after.tags == s.tags,
        after.rules == s.rules,
{
    if !crate::state::base_equals(s.world, k, value) {
        lemma_carried_parts(host, based(s, k, value), seq![k], after);
    }
}

// -- instant effects --------------------------------------------------------

/// `to` is the base value that an operation makes of `from` and an amount.
pub open spec fn moved<A: Arithmetic>(host: A, op: InstantOp, from: Scalar, amount: Scalar, to: Scalar) -> bool {
    match op {
        InstantOp::Assign => to == amount,
        InstantOp::Add => call_ensures(A::plus, (&host, from, amount), to),
        InstantOp::Sub => call_ensures(A::minus, (&host, from, amount), to),
    }
}

/// `out` is for the stat and by the operation of a step, on the entity that its
/// role is bound to, with what its value comes to before the effect.
pub open spec fn addressed<A: Arithmetic>(
    host: A,
    s: State,
    roles: Map<Seq<char>, Entity>,
    step: Step,
    out: Outcome,
) -> bool {
    &&& roles.contains_key(step.role)
    &&& out.key == (roles[step.role], step.stat)
    &&& out.op == step.op
    &&& match step.value {
        Amount::Literal(n) => out.amount == n,
        Amount::Expression(_, term) => evaluated(host, s, roles[step.role], roles, term, Ok(out.amount)),
    }
}

/// Whether outcome `j` is the latest before outcome `i` for the same stat.
pub open spec fn latest_before(all: Seq<Outcome>, i: int, j: int) -> bool {
    &&& 0 <= j < i < all.len()
    &&& all[j].key == all[i].key
    &&& forall|m: int| j < m < i ==> (#[trigger] all[m]).key != all[i].key
}

/// Whether no outcome before outcome `i` is for the same stat.
pub open spec fn first_for(all: Seq<Outcome>, i: int) -> bool {
    &&& 0 <= i < all.len()
    &&& forall|m: int| 0 <= m < i ==> (#[trigger] all[m]).key != all[i].key
}

/// Whether no outcome after outcome `i` is for the same stat.
pub open spec fn last_for(all: Seq<Outcome>, i: int) -> bool {
    &&& 0 <= i < all.len()
    &&& forall|m: int| i < m < all.len() ==> (#[trigger] all[m]).key != all[i].key
}

/// `all` has an outcome for each step. Each starts from what the latest outcome
/// before it for the same stat leaves; the first for a stat starts from its base
/// value, or from zero.
pub open spec fn accumulated<A: Arithmetic>(
    host: A,
    s: State,
    roles: Map<Seq<char>, Entity>,
    steps: Seq<Step>,
    all: Seq<Outcome>,
) -> bool {
    &&& all.len() == steps.len()
    &&& forall|i: int| 0 <= i < all.len() ==> addressed(host, s, roles, steps[i], #[trigger] all[i])
    &&& forall|i: int, j: int| #[trigger]
        latest_before(all, i, j) ==> moved(host, all[i].op, all[j].new_base, all[i].amount, all[i].new_base)
    &&& forall|i: int| #[trigger]
        first_for(all, i) ==> moved(
            host,
            all[i].op,
            match base_at(s.world, all[i].key) {
                Some(base) => base,
                None => 0,
            },
            all[i].amount,
            all[i].new_base,
        )
}

/// `outs` are those of `all`, in order, whose entities are among `carriers`.
pub open spec fn sifted(carriers: Set<Entity>, all: Seq<Outcome>, picked: Seq<int>, outs: Seq<Outcome>) -> bool {
    &&& outs.len() == picked.len()
    &&& forall|j: int| 0 <= j < picked.len() ==> 0 <= #[trigger] picked[j] < all.len() && outs[j] == all[picked[j]]
    &&& forall|j: int, k: int| 0 <= j < k < picked.len() ==> #[trigger] picked[j] < #[trigger] picked[k]
    &&& forall|i: int|
        #![trigger all[i]]
        0 <= i < all.len() ==> (picked.contains(i) <==> carriers.contains(all[i].key.0))
}

proof fn lemma_latest_at(outs: Seq<Outcome>, i: int, k: Key)
    requires
        0 <= i < outs.len(),
        outs[i].key == k,
        forall|m: int| i < m < outs.len() ==> (#[trigger] outs[m]).key != k,
    ensures
        latest(outs, k) == Some(outs[i].new_base),
    decreases outs.len(),
{
    if i < outs.len() - 1 {
        assert(outs[outs.len() - 1].key != k);
        let rest = outs.drop_last();
        assert forall|m: int| i < m < rest.len() implies (#[trigger] rest[m]).key != k by {
            assert(outs[m].key != k);
        }
        lemma_latest_at(rest, i, k);
    }
}

proof fn lemma_latest_none(outs: Seq<Outcome>, k: Key)
    requires
        forall|m: int| 0 <= m < outs.len() ==> (#[trigger] outs[m]).key != k,
    ensures
        latest(outs, k) is None,
    decreases outs.len(),
{
    if outs.len() > 0 {
        assert(outs[outs.len() - 1].key != k);
        let rest = outs.drop_last();
        assert forall|m: int| 0 <= m < rest.len() implies (#[trigger] rest[m]).key != k by {
            assert(outs[m].key != k);
        }
        lemma_latest_none(rest, k);
    }
}

proof fn lemma_sifted(world: World, all: Seq<Outcome>) -> (picked: Seq<int>)
    ensures
        sifted(world.carriers, all, picked, writable(world, all)),
    decreases all.len(),
{
    if all.len() == 0 {
        Seq::empty()
    } else {
        let rest = all.drop_last();
        let last = all.len() - 1;
        let before = lemma_sifted(world, rest);
        if world.carriers.contains(all.last().key.0) {
            let picked = before.push(last);
            let outs = writable(world, all);
            assert forall|i: int|
                #![trigger all[i]]
                0 <= i < all.len() implies (picked.contains(i) <==> world.carriers.contains(all[i].key.0)) by {
                if i < last {
                    assert(rest[i] == all[i]);
                    if before.contains(i) {
                        let j = choose|j: int| 0 <= j < before.len() && before[j] == i;
                        assert(picked[j] == i);
                    }
                    if picked.contains(i) {
                        let j = choose|j: int| 0 <= j < picked.len() && picked[j] == i;
                        assert(before[j] == i);
                    }
                } else {
                    assert(picked[before.len() as int] == last);
                }
            }
            assert forall|j: int| 0 <= j < picked.len() implies 0 <= #[trigger] picked[j] < all.len() && outs[j]
                == all[picked[j]] by {
                if j < before.len() {
                    assert(picked[j] == before[j]);
                }
            }
            assert forall|j: int, k: int| 0 <= j < k < picked.len() implies #[trigger] picked[j]
                < #[trigger] picked[k] by {
                if k < before.len() {
                    assert(before[j] < before[k]);
                } else {
                    assert(before[j] < rest.len());
                }
            }
            picked
        } else {
            assert forall|i: int|
                #![trigger all[i]]
                0 <= i < all.len() implies (before.contains(i) <==> world.carriers.contains(all[i].key.0)) by {
                if i < last {
                    assert(rest[i] == all[i]);
                }
            }
            before
        }
    }
}

proof fn lemma_follows<A: Arithmetic>(
    host: A,
    s: State,
    roles: Map<Seq<char>, Entity>,
    steps: Seq<Step>,
    all: Seq<Outcome>,
    i: int,
    j: int,
)
    requires
        outcomes(host, s, roles, steps, all),
        latest_before(all, i, j),
    ensures
        moved(host, all[i].op, all[j].new_base, all[i].amount, all[i].new_base),
{
    let front = all.take(i);
    assert(front[j] == all[j]);
    assert forall|m: int| j < m < front.len() implies (#[trigger] front[m]).key != all[i].key by {
        assert(front[m] == all[m]);
    }
    lemma_latest_at(front, j, all[i].key);
    assert(starting(s.world, front, all[i].key) == all[j].new_base);
    assert(step_outcome(host, s, roles, steps[i], front, all[i]));
}

proof fn lemma_leads<A: Arithmetic>(
    host: A,
    s: State,
    roles: Map<Seq<char>, Entity>,
    steps: Seq<Step>,
    all: Seq<Outcome>,
    i: int,
)
    requires
        outcomes(host, s, roles, steps, all),
        first_for(all, i),
    ensures
        moved(
            host,
            all[i].op,
            match base_at(s.world, all[i].key) {
                Some(base) => base,
                None => 0,
            },
            all[i].amount,
            all[i].new_base,
        ),
{
    let front = all.take(i);
    assert forall|m: int| 0 <= m < front.len() implies (#[trigger] front[m]).key != all[i].key by {
        assert(front[m] == all[m]);
    }
    lemma_latest_none(front, all[i].key);
    assert(step_outcome(host, s, roles, steps[i], front, all[i]));
}

proof fn lemma_accumulated<A: Arithmetic>(
    host: A,
    s: State,
    roles: Map<Seq<char>, Entity>,
    steps: Seq<Step>,
    all: Seq<Outcome>,
)
    requires
        outcomes(host, s, roles, steps, all),
    ensures
        accumulated(host, s, roles, steps, all),
{
    assert forall|i: int| 0 <= i < all.len() implies addressed(host, s, roles, steps[i], #[trigger] all[i]) by {
        assert(step_outcome(host, s, roles, steps[i], all.take(i), all[i]));
        assert(operand(host, s, roles, all[i].key.0, steps[i].value, all[i].amount));
    }
    assert forall|i: int, j: int| #[trigger] latest_before(all, i, j) implies moved(
        host,
        all[i].op,
        all[j].new_base,
        all[i].amount,
        all[i].new_base,
    ) by {
        lemma_follows(host, s, roles, steps, all, i, j);
    }
    assert forall|i: int| #[trigger] first_for(all, i) implies moved(
        host,
        all[i].op,
        match base_at(s.world, all[i].key) {
            Some(base) => base,
            None => 0,
        },
        all[i].amount,
        all[i].new_base,
    ) by {
        lemma_leads(host, s, roles, steps, all, i);
    }
}

/// The operations of an effect stack: each works on what the latest one before
/// it leaves on the same stat of the same entity, and the first on the base
/// value in the state, or on zero. Their amounts are what their values come to
/// before the effect. What is reported is what is for entities that carry stats,
/// in order.
pub proof fn law_outcomes_accumulate<A: Arithmetic>(
    host: A,
    s: State,
    roles: Map<Seq<char>, Entity>,
    steps: Seq<Step>,
    outs: Seq<Outcome>,
)
    requires
        previewed(host, s, roles, steps, outs),
    ensures
        exists|all: Seq<Outcome>, picked: Seq<int>| #[trigger]
            sifted(s.world.carriers, all, picked, outs) && accumulated(host, s, roles, steps, all),
{
    let all = choose|all: Seq<Outcome>| #[trigger]
        outcomes(host, s, roles, steps, all) && outs == writable(s.world, all);
    let picked = lemma_sifted(s.world, all);
    lemma_accumulated(host, s, roles, steps, all);
    assert(sifted(s.world.carriers, all, picked, outs));
}

/// An effect leaves each stat that it reports on with the base value of the
/// last outcome for it, and all else as it was: all modifiers, the stats that it
/// does not report on, the links, and who carries stats.
pub proof fn law_effects_leave_the_last_outcome<A: Arithmetic>(
    host: A,
    s: State,
    roles: Map<Seq<char>, Entity>,
    steps: Seq<Step>,
    outs: Seq<Outcome>,
    after: State,
)
    requires
        effect_applied(host, s, roles, steps, outs, after),
    ensures
        previewed(host, s, roles, steps, outs),
        forall|i: int| #[trigger] last_for(outs, i) ==> holds(after.world, outs[i].key, outs[i].new_base),
        forall|k: Key|
            (forall|m: int| 0 <= m < outs.len() ==> (#[trigger] outs[m]).key != k) ==> #[trigger] untouched(
                s.world,
                after.world,
                k,
            ),
        forall|k: Key| #[trigger] modifiers_at(after.world, k) == modifiers_at(s.world, k),
        after.world.carriers == s.world.carriers,
        after.world.links == s.world.links,
{
    let mid = written(s, outs);
    lemma_written_makeup(s, outs);
    lemma_carried_parts(host, mid, written_seeds(s, outs), after);
    assert forall|k: Key| #[trigger] modifiers_at(after.world, k) == modifiers_at(s.world, k) by {
        assert(node_in(mid.world, k).modifiers == node_in(s.world, k).modifiers);
    }
    assert forall|i: int| #[trigger] last_for(outs, i) implies holds(after.world, outs[i].key, outs[i].new_base) by {
        lemma_latest_at(outs, i, outs[i].key);
        assert(node_in(mid.world, outs[i].key).base is Some);
    }
    assert forall|k: Key|
        (forall|m: int| 0 <= m < outs.len() ==> (#[trigger] outs[m]).key != k) implies #[trigger] untouched(
        s.world,
        after.world,
        k,
    ) by {
        lemma_latest_none(outs, k);
        assert(node_in(mid.world, k) == node_in(s.world, k));
    }
}

// -- synchronization --------------------------------------------------------

/// Whether an authoritative field names a stat: a plain path to it.
pub open spec fn writes(field: Mirror, stat: Seq<char>) -> bool {
    field.write && (path_parsed(field.stat) matches Ok((name, tags)) && name == stat && tags.len() == 0)
}

/// After the fields of a component are written, each stat of the entity that an
/// authoritative field names holds the value of the last such field. No other
/// stat is touched, no modifier changes, and a component on an entity without
/// stats changes nothing.
pub proof fn law_every_authoritative_field_is_written<A: Arithmetic>(
    host: A,
    s: State,
    entity: Entity,
    fields: Seq<Mirror>,
    values: Seq<Scalar>,
    after: State,
)
    requires
        values.len() >= fields.len(),
        fields_written(host, s, entity, fields, values, after),
    ensures
        s.world.carriers.contains(entity) ==> forall|i: int, stat: Seq<char>|
            #![trigger writes(fields[i], stat)]
            0 <= i < fields.len() && writes(fields[i], stat) && (forall|j: int|
                i < j < fields.len() ==> !writes(#[trigger] fields[j], stat)) ==> holds(
                after.world,
                (entity, stat),
                values[i],
            ),
        forall|k: Key|
            (k.0 != entity || forall|j: int| 0 <= j < fields.len() ==> !writes(#[trigger] fields[j], k.1))
                ==> #[trigger] untouched(s.world, after.world, k),
        forall|k: Key| #[trigger] modifiers_at(after.world, k) == modifiers_at(s.world, k),
        after.world.links == s.world.links,
        after.world.carriers == s.world.carriers,
        !s.world.carriers.contains(entity) ==> after == s,
    decreases fields.len(),
{
    if fields.len() > 0 {
        let rest = fields.drop_last();
        let last = fields.len() - 1;
        let field = fields.last();
        let value = values[last];
        let mid = choose|mid: State| #[trigger]
            field_written(host, mid, entity, field, value, after) && fields_written(
                host,
                s,
                entity,
                rest,
                values,
                mid,
            );
        law_every_authoritative_field_is_written(host, s, entity, rest, values, mid);
        assert(fields[last] == field);
        let put = field.write && set_fault(mid, entity, field.stat) is None;
        if put {
            let name = path_parsed(field.stat)->Ok_0.0;
            law_set_leaves_the_value(host, mid, (entity, name), value, after);
            assert(writes(field, name));
        }
        assert forall|k: Key|
            (k.0 != entity || forall|j: int| 0 <= j < fields.len() ==> !writes(#[trigger] fields[j], k.1))
            implies #[trigger] untouched(s.world, after.world, k) by {
            if k.0 == entity {
                assert(!writes(fields[last], k.1));
                assert forall|j: int| 0 <= j < rest.len() implies !writes(#[trigger] rest[j], k.1) by {
                    assert(!writes(fields[j], k.1));
                }
            }
            assert(untouched(s.world, mid.world, k));
            if put {
                assert(untouched(mid.world, after.world, k));
            }
        }
        assert forall|k: Key| #[trigger] modifiers_at(after.world, k) == modifiers_at(s.world, k) by {
            assert(modifiers_at(mid.world, k) == modifiers_at(s.world, k));
            if put && k != (entity, path_parsed(field.stat)->Ok_0.0) {
                assert(untouched(mid.world, after.world, k));
            }
        }
        if s.world.carriers.contains(entity) {
            assert forall|i: int, stat: Seq<char>|
                #![trigger writes(fields[i], stat)]
                0 <= i < fields.len() && writes(fields[i], stat) && (forall|j: int|
                    i < j < fields.len() ==> !writes(#[trigger] fields[j], stat)) implies holds(
                after.world,
                (entity, stat),
                values[i],
            ) by {
                if i < last {
                    assert(!writes(fields[last], stat));
                    assert(writes(rest[i], stat));
                    assert forall|j: int| i < j < rest.len() implies !writes(#[trigger] rest[j], stat) by {
                        assert(!writes(fields[j], stat));
                    }
                    assert(holds(mid.world, (entity, stat), values[i]));
                    if put {
                        assert(untouched(mid.world, after.world, (entity, stat)));
                    }
                } else {
                    assert(put);
                }
            }
        }
    }
}

/// `states` are those that reading the fields one after the other passes
/// through: each value is what the stat of its field comes to without tags, and
/// is cached before the next is read.
pub open spec fn read_in_turn<A: Arithmetic>(
    host: A,
    states: Seq<State>,
    entity: Entity,
    fields: Seq<Mirror>,
    values: Seq<Scalar>,
) -> bool {
    &&& states.len() == fields.len() + 1
    &&& values.len() == fields.len()
    &&& forall|i: int|
        0 <= i < fields.len() ==> stat_value(
            scene_of(host, states[i]),
            Seq::empty(),
            Query { key: (entity, (#[trigger] fields[i]).stat), tags: 0 },
            values[i],
        ) && states[i + 1] == (State {
            world: remembered(states[i].world, Query { key: (entity, fields[i].stat), tags: 0 }, values[i]),
            ..states[i]
        })
}

/// Every field, authoritative or not, is refreshed from its own stat.
pub proof fn law_every_field_is_read<A: Arithmetic>(
    host: A,
    s: State,
    entity: Entity,
    fields: Seq<Mirror>,
    values: Seq<Scalar>,
    after: State,
)
    requires
        fields_read(host, s, entity, fields, values, after),
    ensures
        exists|states: Seq<State>| #[trigger]
            read_in_turn(host, states, entity, fields, values) && states[0] == s && states.last() == after,
{
    let states = lemma_read_in_turn(host, s, entity, fields, values, after);
    assert(read_in_turn(host, states, entity, fields, values));
}

proof fn lemma_read_in_turn<A: Arithmetic>(
    host: A,
    s: State,
    entity: Entity,
    fields: Seq<Mirror>,
    values: Seq<Scalar>,
    after: State,
) -> (states: Seq<State>)
    requires
        fields_read(host, s, entity, fields, values, after),
    ensures
        read_in_turn(host, states, entity, fields, values),
        states[0] == s,
        states.last() == after,
    decreases fields.len(),
{
    if fields.len() == 0 {
        seq![s]
    } else {
        let rest = fields.drop_last();
        let mid = choose|mid: State| #[trigger]
            field_read(host, mid, entity, fields.last(), values.last(), after) && values.len() > 0 && fields_read(
                host,
                s,
                entity,
                rest,
                values.drop_last(),
                mid,
            );
        let before = lemma_read_in_turn(host, s, entity, rest, values.drop_last(), mid);
        let states = before.push(after);
        assert forall|i: int| 0 <= i < fields.len() implies stat_value(
            scene_of(host, states[i]),
            Seq::empty(),
            Query { key: (entity, (#[trigger] fields[i]).stat), tags: 0 },
            values[i],
        ) && states[i + 1] == (State {
            world: remembered(states[i].world, Query { key: (entity, fields[i].stat), tags: 0 }, values[i]),
            ..states[i]
        }) by {
            if i < rest.len() {
                assert(rest[i] == fields[i]);
                assert(values.drop_last()[i] == values[i]);
                assert(states[i] == before[i] && states[i + 1] == before[i + 1]);
            } else {
                assert(states[i] == mid);
            }
        }
        states
    }
}

// -- modifiers --------------------------------------------------------------

/// `x` is a modifier for `stat` made of an entry: tagged with the tags of its
/// path and its own, and worth its literal or its expression.
pub open spec fn made_of<A: Arithmetic>(
    host: A,
    tags: Map<Seq<char>, u64>,
    path: Seq<char>,
    m: Contribution,
    stat: Seq<char>,
    x: Stored,
) -> bool {
    &&& path_parsed(path) matches Ok((name, own)) && name == stat && resolved(tags, own + m.tags) == Ok::<
        u64,
        Seq<char>,
    >(x.tags)
    &&& match m.value {
        Amount::Literal(n) => x.value == Source::Literal(n),
        Amount::Expression(_, term) => x.value matches Source::Expr(rule) && compiled(host, tags, term, rule),
    }
}

/// Adding a modifier appends it, under the next number, to the modifiers of the
/// stat that its path names, and leaves all else as it was.
pub proof fn law_add_appends<A: Arithmetic>(
    host: A,
    s: State,
    entity: Entity,
    path: Seq<char>,
    m: Contribution,
    after: State,
)
    requires
        s.last_id < u64::MAX,
        modifier_added(host, s, entity, path, m, after),
    ensures
        exists|stat: Seq<char>, x: Stored| #[trigger]
            made_of(host, s.tags.tags, path, m, stat, x) && x.id == s.last_id + 1 && modifiers_at(
                after.world,
                (entity, stat),
            ) == modifiers_at(s.world, (entity, stat)).push(x) && base_at(after.world, (entity, stat)) == base_at(
                s.world,
                (entity, stat),
            ) && forall|k: Key| k != (entity, stat) ==> #[trigger] untouched(s.world, after.world, k),
        after.last_id == s.last_id + 1,
        after.world.links == s.world.links,
        after.world.carriers == s.world.carriers,
{
    let part = choose|part: Part| #[trigger]
        modifier_part(host, s.tags.tags, path, m, part) && carried(
            host,
            installed(s, entity, part),
            seq![(entity, part.stat)],
            after,
        );
    lemma_carried_parts(host, installed(s, entity, part), seq![(entity, part.stat)], after);
    let x = Stored { id: (s.last_id + 1) as u64, tags: part.tags, value: part.value };
    assert(made_of(host, s.tags.tags, path, m, part.stat, x));
}

/// A modifier can be taken out exactly where the entity carries stats and the
/// stat has a modifier of that number.
pub proof fn law_only_live_modifiers_can_be_removed(world: World, k: Key, id: u64)
    ensures
        remove_fault(world, k, id) is None <==> world.carriers.contains(k.0) && exists|i: int|
            0 <= i < modifiers_at(world, k).len() && (#[trigger] modifiers_at(world, k)[i]).id == id,
{
    lemma_place_some(node_in(world, k).modifiers, id);
    assert(node_in(world, k).modifiers == modifiers_at(world, k));
    if let Some(i) = place_of(node_in(world, k).modifiers, id) {
        assert(modifiers_at(world, k)[i].id == id);
    }
}

/// Taking a modifier out leaves the others of its stat in their order, and all
/// else as it was.
pub proof fn law_remove_takes_one_out<A: Arithmetic>(host: A, s: State, k: Key, i: int, after: State)
    requires
        numbered(s.world, s.last_id),
        0 <= i < modifiers_at(s.world, k).len(),
        carried(host, uninstalled(s, k, modifiers_at(s.world, k)[i].id), seq![k], after),
    ensures
        modifiers_at(after.world, k) == modifiers_at(s.world, k).remove(i),
        base_at(after.world, k) == base_at(s.world, k),
        forall|other: Key| other != k ==> #[trigger] untouched(s.world, after.world, other),
        after.world.links == s.world.links,
        after.world.carriers == s.world.carriers,
{
    let mods = node_in(s.world, k).modifiers;
    let id = mods[i].id;
    lemma_place_some(mods, id);
    lemma_carried_parts(host, uninstalled(s, k, id), seq![k], after);
    match place_of(mods, id) {
        Some(p) => {
            if p < i {
                assert(s.world.nodes[k].modifiers[p].id < s.world.nodes[k].modifiers[i].id);
            } else if i < p {
                assert(s.world.nodes[k].modifiers[i].id < s.world.nodes[k].modifiers[p].id);
            }
        },
        None => {
            assert(mods[i].id != id);
        },
    }
}

#[verifier::spinoff_prover]
#[verifier::rlimit(40)]
proof fn lemma_gained_at(last_id: u64, stat: Seq<char>, parts: Seq<Part>)
    requires
        last_id + parts.len() <= u64::MAX,
    ensures
        ({
            let g = gained(last_id, stat, parts);
            &&& ascending(g)
            &&& forall|p: int|
                0 <= p < g.len() ==> last_id < (#[trigger] g[p]).id <= last_id + parts.len() && parts[g[p].id - last_id
                    - 1].stat == stat && g[p].tags == parts[g[p].id - last_id - 1].tags && g[p].value == parts[g[p].id
                    - last_id - 1].value
            &&& forall|i: int|
                #![trigger parts[i]]
                0 <= i < parts.len() && parts[i].stat == stat ==> exists|p: int|
                    0 <= p < g.len() && (#[trigger] g[p]).id == last_id + 1 + i
        }),
    decreases parts.len(),
{
    if parts.len() > 0 {
        let rest = parts.drop_last();
        lemma_gained_at(last_id, stat, rest);
        let before = gained(last_id, stat, rest);
        let g = gained(last_id, stat, parts);
        assert forall|p: int| 0 <= p < g.len() implies last_id < (#[trigger] g[p]).id <= last_id + parts.len()
            && parts[g[p].id - last_id - 1].stat == stat && g[p].tags == parts[g[p].id - last_id - 1].tags && g[p].value
            == parts[g[p].id - last_id - 1].value by {
            if p < before.len() {
                assert(g[p] == before[p]);
                let i = before[p].id - last_id - 1;
                assert(0 <= i < rest.len());
                assert(rest[i] == parts[i]);
            } else {
                let i = parts.len() - 1;
                assert(g[p].id == last_id + 1 + i);
                assert(parts[i] == parts.last());
            }
        }
        assert forall|i: int, j: int| 0 <= i < j < g.len() implies (#[trigger] g[i]).id < (#[trigger] g[j]).id by {
            assert(g[i] == before[i]);
            if j < before.len() {
                assert(g[j] == before[j]);
            }
        }
        assert forall|i: int|
            #![trigger parts[i]]
            0 <= i < parts.len() && parts[i].stat == stat implies exists|p: int|
            0 <= p < g.len() && (#[trigger] g[p]).id == last_id + 1 + i by {
            if i < rest.len() {
                assert(rest[i] == parts[i]);
                let p = choose|p: int| 0 <= p < before.len() && (#[trigger] before[p]).id == last_id + 1 + i;
                assert(g[p] == before[p]);
            } else {
                assert(parts[i] == parts.last());
                assert(g[before.len() as int].id == last_id + 1 + i);
            }
        }
    }
}

/// `x` is what the entry of a set that its number stands for is made into.
pub open spec fn entered<A: Arithmetic>(
    host: A,
    s: State,
    set: Seq<(Seq<char>, Contribution)>,
    stat: Seq<char>,
    x: Stored,
) -> bool {
    let i = x.id - s.last_id - 1;
    0 <= i < set.len() && made_of(host, s.tags.tags, set[i].0, set[i].1, stat, x)
}

/// Applying a set numbers its entries in order from the next number on. Each
/// stat keeps the modifiers that it has and gets after them, in the order of
/// their numbers, those of the entries that are for it, every one and no other.
/// The receipt names the stat and the number of each entry. All else stays.
pub proof fn law_apply_appends_every_entry<A: Arithmetic>(
    host: A,
    s: State,
    entity: Entity,
    set: Seq<(Seq<char>, Contribution)>,
    handles: Seq<(Seq<char>, u64)>,
    after: State,
)
    requires
        s.last_id + set.len() <= u64::MAX,
        set_applied(host, s, entity, set, handles, after),
    ensures
        handles.len() == set.len(),
        forall|i: int|
            0 <= i < set.len() ==> (#[trigger] handles[i]).1 == s.last_id + 1 + i && (path_parsed(set[i].0) matches Ok(
                (name, _),
            ) && handles[i].0 == name),
        forall|stat: Seq<char>|
            ({
                let before = modifiers_at(s.world, (entity, stat));
                let now = #[trigger] modifiers_at(after.world, (entity, stat));
                &&& before.len() <= now.len()
                &&& now.take(before.len() as int) == before
                &&& ascending(now.skip(before.len() as int))
                &&& forall|p: int|
                    before.len() <= p < now.len() ==> entered(host, s, set, stat, #[trigger] now[p])
                &&& forall|i: int|
                    #![trigger handles[i]]
                    0 <= i < set.len() && handles[i].0 == stat ==> exists|p: int|
                        before.len() <= p < now.len() && (#[trigger] now[p]).id == handles[i].1
            }),
        forall|k: Key| #[trigger] base_at(after.world, k) == base_at(s.world, k),
        forall|k: Key| k.0 != entity ==> #[trigger] untouched(s.world, after.world, k),
        after.last_id == s.last_id + set.len(),
        after.world.links == s.world.links,
        after.world.carriers == s.world.carriers,
{
    let parts = choose|parts: Seq<Part>| #[trigger]
        entries_parts(host, s.tags.tags, set, parts) && handles == part_handles(s.last_id, parts) && carried(
            host,
            attached(s, entity, parts),
            part_seeds(entity, parts),
            after,
        );
    let mid = attached(s, entity, parts);
    lemma_attached_makeup(s, entity, parts);
    lemma_carried_parts(host, mid, part_seeds(entity, parts), after);
    assert forall|i: int| 0 <= i < set.len() implies (#[trigger] handles[i]).1 == s.last_id + 1 + i && (path_parsed(
        set[i].0,
    ) matches Ok((name, _)) && handles[i].0 == name) by {
        assert(modifier_part(host, s.tags.tags, set[i].0, set[i].1, parts[i]));
    }
    assert forall|stat: Seq<char>|
        ({
            let before = modifiers_at(s.world, (entity, stat));
            let now = #[trigger] modifiers_at(after.world, (entity, stat));
            &&& before.len() <= now.len()
            &&& now.take(before.len() as int) == before
            &&& ascending(now.skip(before.len() as int))
            &&& forall|p: int|
                before.len() <= p < now.len() ==> entered(host, s, set, stat, #[trigger] now[p])
            &&& forall|i: int|
                #![trigger handles[i]]
                0 <= i < set.len() && handles[i].0 == stat ==> exists|p: int|
                    before.len() <= p < now.len() && (#[trigger] now[p]).id == handles[i].1
        }) by {
        let before = modifiers_at(s.world, (entity, stat));
        let now = modifiers_at(after.world, (entity, stat));
        let g = gained(s.last_id, stat, parts);
        assert(node_in(mid.world, (entity, stat)).modifiers == node_in(s.world, (entity, stat)).modifiers + g);
        assert(now == before + g);
        lemma_gained_at(s.last_id, stat, parts);
        assert(now.take(before.len() as int) =~= before);
        assert(now.skip(before.len() as int) =~= g);
        assert forall|p: int| before.len() <= p < now.len() implies entered(host, s, set, stat, #[trigger] now[p]) by {
            let x = g[p - before.len()];
            assert(now[p] == x);
            let i = x.id - s.last_id - 1;
            assert(modifier_part(host, s.tags.tags, set[i].0, set[i].1, parts[i]));
        }
        assert forall|i: int|
            #![trigger handles[i]]
            0 <= i < set.len() && handles[i].0 == stat implies exists|p: int|
            before.len() <= p < now.len() && (#[trigger] now[p]).id == handles[i].1 by {
            assert(parts[i].stat == stat);
            let p = choose|p: int| 0 <= p < g.len() && (#[trigger] g[p]).id == s.last_id + 1 + i;
            assert(now[before.len() + p] == g[p]);
        }
    }
    assert forall|k: Key| #[trigger] base_at(after.world, k) == base_at(s.world, k) by {
        if k.0 == entity {
            assert(node_in(mid.world, (entity, k.1)).base == node_in(s.world, (entity, k.1)).base);
        } else {
            assert(node_in(mid.world, k) == node_in(s.world, k));
        }
    }
    assert forall|k: Key| k.0 != entity implies #[trigger] untouched(s.world, after.world, k) by {
        assert(node_in(mid.world, k) == node_in(s.world, k));
    }
}

proof fn lemma_detached_members(s: State, entity: Entity, handles: Seq<(Seq<char>, u64)>)
    requires
        forall|x: Key| ascending(#[trigger] node_in(s.world, x).modifiers),
    ensures
        ({
            let after = detached(s, entity, handles);
            &&& forall|x: Key| ascending(#[trigger] node_in(after.world, x).modifiers)
            &&& forall|x: Key| #[trigger] node_in(after.world, x).base == node_in(s.world, x).base
            &&& forall|x: Key, m: Stored| #[trigger]
                node_in(after.world, x).modifiers.contains(m) <==> node_in(s.world, x).modifiers.contains(m) && !(x.0
                    == entity && handles.contains((x.1, m.id)))
            &&& after.world.carriers == s.world.carriers
            &&& after.world.links == s.world.links
        }),
    decreases handles.len(),
{
    if handles.len() > 0 {
        let rest = handles.drop_last();
        let last = handles.last();
        let mid = detached(s, entity, rest);
        let after = detached(s, entity, handles);
        let k: Key = (entity, last.0);
        lemma_detached_members(s, entity, rest);
        lemma_uninstalled(mid, k, last.1);
        let mods = node_in(mid.world, k).modifiers;
        lemma_place_some(mods, last.1);
        assert(ascending(mods));
        assert forall|h: (Seq<char>, u64)| handles.contains(h) <==> rest.contains(h) || h == last by {
            if rest.contains(h) {
                let i = choose|i: int| 0 <= i < rest.len() && rest[i] == h;
                assert(handles[i] == h);
            }
            if handles.contains(h) {
                let i = choose|i: int| 0 <= i < handles.len() && handles[i] == h;
                if i < rest.len() {
                    assert(rest[i] == h);
                }
            }
            assert(handles[handles.len() - 1] == last);
        }
        assert forall|x: Key| #[trigger] node_in(after.world, x).base == node_in(s.world, x).base by {
            assert(node_in(mid.world, x).base == node_in(s.world, x).base);
        }
        assert forall|x: Key, m: Stored| #[trigger] node_in(after.world, x).modifiers.contains(m) <==> node_in(
            s.world,
            x,
        ).modifiers.contains(m) && !(x.0 == entity && handles.contains((x.1, m.id))) by {
            let old_mods = node_in(mid.world, x).modifiers;
            let new_mods = node_in(after.world, x).modifiers;
            assert(old_mods.contains(m) <==> node_in(s.world, x).modifiers.contains(m) && !(x.0 == entity
                && rest.contains((x.1, m.id))));
            if x == k {
                match place_of(mods, last.1) {
                    Some(i) => {
                        assert(new_mods == mods.remove(i));
                        if new_mods.contains(m) {
                            let p = choose|p: int| 0 <= p < new_mods.len() && new_mods[p] == m;
                            let p1 = if p < i { p } else { p + 1 };
                            assert(mods[p1] == m);
                            if p1 < i {
                                assert(mods[p1].id < mods[i].id);
                            } else {
                                assert(mods[i].id < mods[p1].id);
                            }
                        }
                        if mods.contains(m) && m.id != last.1 {
                            let p = choose|p: int| 0 <= p < mods.len() && mods[p] == m;
                            let p1 = if p < i { p } else { p - 1 };
                            assert(new_mods[p1] == m);
                        }
                    },
                    None => {
                        assert(unused(mods, last.1));
                        if mods.contains(m) {
                            let p = choose|p: int| 0 <= p < mods.len() && mods[p] == m;
                            assert(mods[p].id != last.1);
                        }
                    },
                }
                assert((x.1, m.id) == last <==> m.id == last.1);
            } else {
                assert(node_in(after.world, x) == node_in(mid.world, x));
                assert(x.0 == entity ==> (x.1, m.id) != last);
            }
        }
    }
}

/// Removing an applied set takes out the modifiers that the receipt names, every
/// one and no other, and keeps the rest in their order.
pub proof fn law_remove_takes_out_what_was_applied<A: Arithmetic>(
    host: A,
    s: State,
    entity: Entity,
    handles: Seq<(Seq<char>, u64)>,
    after: State,
)
    requires
        numbered(s.world, s.last_id),
        s.world.carriers.contains(entity),
        set_removed(host, s, entity, handles, after),
    ensures
        forall|k: Key, m: Stored| #[trigger]
            modifiers_at(after.world, k).contains(m) <==> modifiers_at(s.world, k).contains(m) && !(k.0 == entity
                && handles.contains((k.1, m.id))),
        forall|k: Key| ascending(#[trigger] modifiers_at(after.world, k)),
        forall|k: Key| #[trigger] base_at(after.world, k) == base_at(s.world, k),
        after.world.links == s.world.links,
        after.world.carriers == s.world.carriers,
{
    assert forall|x: Key| ascending(#[trigger] node_in(s.world, x).modifiers) by {
        if s.world.nodes.contains_key(x) {
            assert forall|i: int, j: int| 0 <= i < j < node_in(s.world, x).modifiers.len() implies (#[trigger] node_in(
                s.world,
                x,
            ).modifiers[i]).id < (#[trigger] node_in(s.world, x).modifiers[j]).id by {
                assert(s.world.nodes[x].modifiers[i].id < s.world.nodes[x].modifiers[j].id);
            }
        }
    }
    let mid = detached(s, entity, handles);
    lemma_detached_members(s, entity, handles);
    lemma_carried_parts(host, mid, detached_seeds(s, entity, handles), after);
    assert forall|k: Key, m: Stored| #[trigger] modifiers_at(after.world, k).contains(m) <==> modifiers_at(
        s.world,
        k,
    ).contains(m) && !(k.0 == entity && handles.contains((k.1, m.id))) by {
        assert(node_in(mid.world, k).modifiers == modifiers_at(after.world, k));
        assert(node_in(s.world, k).modifiers == modifiers_at(s.world, k));
        assert(node_in(mid.world, k).modifiers.contains(m) <==> node_in(s.world, k).modifiers.contains(m) && !(k.0
            == entity && handles.contains((k.1, m.id))));
    }
    assert forall|k: Key| ascending(#[trigger] modifiers_at(after.world, k)) by {
        assert(node_in(mid.world, k).modifiers == modifiers_at(after.world, k));
    }
    assert forall|k: Key| #[trigger] base_at(after.world, k) == base_at(s.world, k) by {
        assert(node_in(mid.world, k).base == node_in(s.world, k).base);
    }
}

/// Removing a stat leaves neither a base value nor modifiers nor cached values
/// of it, and all else as it was; what else is cached stays cached.
pub proof fn law_removed_stats_are_gone<A: Arithmetic>(host: A, s: State, k: Key, after: State)
    requires
        consistent(s.world),
        stat_removed(host, s, k, after),
    ensures
        forall|q: Query| #[trigger]
            after.world.cache.contains_key(q) <==> s.world.cache.contains_key(q) && q.key != k,
        base_at(after.world, k) is None,
        modifiers_at(after.world, k).len() == 0,
        !after.world.nodes.contains_key(k),
        forall|other: Key| other != k ==> #[trigger] untouched(s.world, after.world, other),
        after.world.links == s.world.links,
        after.world.carriers == s.world.carriers,
{
    if s.world.nodes.contains_key(k) {
        let mid = State { world: without_node(s.world, k), ..s };
        lemma_carried_parts(host, mid, seq![k], after);
        law_recompute_is_exact(host, mid, seq![k], after);
        assert forall|q: Query| #[trigger]
            after.world.cache.contains_key(q) <==> s.world.cache.contains_key(q) && q.key != k by {
            assert(after.world.cache.dom().contains(q) <==> mid.world.cache.dom().contains(q));
        }
    }
}

// -- links and entities -----------------------------------------------------

/// Pointing a link at a target makes it lead there, and clearing it nowhere; the
/// other links, all stats and who carries stats stay.
pub proof fn law_links_lead_where_they_point<A: Arithmetic>(
    host: A,
    s: State,
    entity: Entity,
    name: Seq<char>,
    target: Option<Entity>,
    after: State,
)
    requires
        relinked(host, s, entity, name, target, after),
    ensures
        target matches Some(t) ==> after.world.links.contains_key((entity, name)) && after.world.links[(entity, name)]
            == t,
        target is None ==> !after.world.links.contains_key((entity, name)),
        forall|k: Key|
            k != (entity, name) ==> (#[trigger] after.world.links.contains_key(k) <==> s.world.links.contains_key(k))
                && (s.world.links.contains_key(k) ==> after.world.links[k] == s.world.links[k]),
        forall|k: Key| #[trigger] untouched(s.world, after.world, k),
        after.world.carriers == s.world.carriers,
{
    crate::laws::law_relink_moves_the_link(host, s, entity, name, target, after);
}

/// Taking the stats of an entity out leaves it without stats, links and cached
/// values, and all else as it was; what else is cached stays cached.
pub proof fn law_torn_down_entities_are_gone<A: Arithmetic>(host: A, s: State, entity: Entity, after: State)
    requires
        consistent(s.world),
        torn_down(host, s, entity, after),
    ensures
        forall|q: Query| #[trigger]
            after.world.cache.contains_key(q) <==> s.world.cache.contains_key(q) && q.key.0 != entity,
        !after.world.carriers.contains(entity),
        forall|other: Entity|
            other != entity ==> (#[trigger] after.world.carriers.contains(other) <==> s.world.carriers.contains(other)),
        forall|k: Key| k.0 == entity ==> !#[trigger] after.world.nodes.contains_key(k),
        forall|k: Key| k.0 == entity ==> !#[trigger] after.world.links.contains_key(k),
        forall|k: Key| k.0 != entity ==> #[trigger] untouched(s.world, after.world, k),
        forall|k: Key|
            k.0 != entity ==> (#[trigger] after.world.links.contains_key(k) <==> s.world.links.contains_key(k)) && (
            s.world.links.contains_key(k) ==> after.world.links[k] == s.world.links[k]),
{
    if s.world.carriers.contains(entity) {
        let mid = State { world: without_entity(s.world, entity), ..s };
        let seeds = choose|seeds: Seq<Key>| #[trigger]
            carried(host, mid, seeds, after) && seeds.no_duplicates() && forall|d: Key| #[trigger]
                seeds.contains(d) <==> d.0 != entity && exists|name: Seq<char>| #[trigger]
                    feeds(s.world, (entity, name), d);
        lemma_carried_parts(host, mid, seeds, after);
        law_recompute_is_exact(host, mid, seeds, after);
        assert forall|q: Query| #[trigger]
            after.world.cache.contains_key(q) <==> s.world.cache.contains_key(q) && q.key.0 != entity by {
            assert(after.world.cache.dom().contains(q) <==> mid.world.cache.dom().contains(q));
        }
    }
}

// -- dependencies -----------------------------------------------------------

/// Whether a reference on `owner` reads stat `a`.
pub open spec fn points_at(world: World, owner: Entity, link: Link, a: Key) -> bool {
    link.stat == a.1 && match link.source {
        None => owner == a.0,
        Some(name) => world.links.contains_key((owner, name)) && world.links[(owner, name)] == a.0,
    }
}

proof fn lemma_link_sources(world: World, owner: Entity, links: Seq<Link>, a: Key)
    ensures
        link_sources(world, owner, links).contains(a) <==> exists|j: int|
            0 <= j < links.len() && points_at(world, owner, #[trigger] links[j], a),
    decreases links.len(),
{
    if links.len() > 0 {
        let rest = links.drop_last();
        let before = link_sources(world, owner, rest);
        let all = link_sources(world, owner, links);
        lemma_link_sources(world, owner, rest, a);
        assert(links[links.len() - 1] == links.last());
        if all.contains(a) {
            let i = choose|i: int| 0 <= i < all.len() && all[i] == a;
            if i < before.len() {
                assert(before[i] == a);
                let j = choose|j: int| 0 <= j < rest.len() && points_at(world, owner, #[trigger] rest[j], a);
                assert(links[j] == rest[j]);
            }
        }
        if exists|j: int| 0 <= j < links.len() && points_at(world, owner, #[trigger] links[j], a) {
            let j = choose|j: int| 0 <= j < links.len() && points_at(world, owner, #[trigger] links[j], a);
            if j < rest.len() {
                assert(rest[j] == links[j]);
                let i = choose|i: int| 0 <= i < before.len() && before[i] == a;
                assert(all[i] == a);
            } else {
                assert(all[before.len() as int] == a);
            }
        }
    }
}

/// Whether a modifier on `owner` is an expression with a reference to stat `a`.
pub open spec fn mentions(world: World, owner: Entity, m: Stored, a: Key) -> bool {
    m.value matches Source::Expr(rule) && exists|j: int|
        0 <= j < refs(rule).len() && points_at(world, owner, #[trigger] refs(rule)[j], a)
}

proof fn lemma_modifier_sources(world: World, owner: Entity, mods: Seq<Stored>, a: Key)
    ensures
        modifier_sources(world, owner, mods).contains(a) <==> exists|i: int|
            0 <= i < mods.len() && mentions(world, owner, #[trigger] mods[i], a),
    decreases mods.len(),
{
    if mods.len() > 0 {
        let rest = mods.drop_last();
        let before = modifier_sources(world, owner, rest);
        let more = link_sources(world, owner, references(mods.last().value));
        let all = modifier_sources(world, owner, mods);
        lemma_modifier_sources(world, owner, rest, a);
        lemma_link_sources(world, owner, references(mods.last().value), a);
        assert(mods[mods.len() - 1] == mods.last());
        assert(all.contains(a) <==> before.contains(a) || more.contains(a)) by {
            if all.contains(a) {
                let i = choose|i: int| 0 <= i < all.len() && all[i] == a;
                if i < before.len() {
                    assert(before[i] == a);
                } else {
                    assert(more[i - before.len()] == a);
                }
            }
            if before.contains(a) {
                let i = choose|i: int| 0 <= i < before.len() && before[i] == a;
                assert(all[i] == a);
            }
            if more.contains(a) {
                let i = choose|i: int| 0 <= i < more.len() && more[i] == a;
                assert(all[before.len() + i] == a);
            }
        }
        if before.contains(a) {
            let i = choose|i: int| 0 <= i < rest.len() && mentions(world, owner, #[trigger] rest[i], a);
            assert(mods[i] == rest[i]);
        }
        if exists|i: int| 0 <= i < mods.len() && mentions(world, owner, #[trigger] mods[i], a) {
            let i = choose|i: int| 0 <= i < mods.len() && mentions(world, owner, #[trigger] mods[i], a);
            if i < rest.len() {
                assert(rest[i] == mods[i]);
            }
        }
    }
}

/// A stat depends on another exactly if one of its modifiers is an expression
/// with a reference to it: bare, on the same entity, or through a link that
/// leads to its entity.
pub proof fn law_stats_depend_on_what_they_mention(world: World, a: Key, d: Key)
    ensures
        feeds(world, a, d) <==> exists|i: int|
            0 <= i < modifiers_at(world, d).len() && mentions(world, d.0, #[trigger] modifiers_at(world, d)[i], a),
{
    assert(node_in(world, d).modifiers == modifiers_at(world, d));
    lemma_modifier_sources(world, d.0, modifiers_at(world, d), a);
    assert(sources(world, d) == modifier_sources(world, d.0, modifiers_at(world, d)));
}

} // verus!
