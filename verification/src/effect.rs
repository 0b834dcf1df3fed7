//! One-shot ("instant") effects: apply a set/add/subtract to a target once,
//! without leaving a lingering modifier.
//!
//! An [`InstantEffect`] is a list of operations, each addressed to a named
//! *role* (attacker, weapon, target, ...). At application time a [`Roles`] map
//! binds roles to entities for that single application. Operation
//! expressions may read stats from any participant via `role@Stat`.
//!
//! All operations in one effect are evaluated against the state *before* the
//! effect, then written together (so two operations never observe each
//! other's writes). Sequential phases (armor before resistance before life)
//! are expressed as separate effects applied in order.
//!
//! [`StatsMutator::preview_effect`] computes the exact outcomes without
//! committing them, for damage previews and UI.

use crate::access::StatsMutator;
use crate::entity::Entity;
use crate::error::{Fault, StatError};
use crate::expr::{first_unknown, Expression};
use crate::graph::keys_of;
use crate::modifier::{Amount, IntoModifierValue, ModifierValue};
use crate::parser::{names, parse_stat_path, path_parsed};
use crate::scalar::{minus_value, plus_value, Arithmetic, Scalar, ZERO};
use crate::state::{base_equals, based, carried, evaluated, outcome, with_seed, State};
use crate::table::{Index, NameIndex, PairTable};
use crate::tree::refs;
use crate::world::{node_in, Key, World};
use vstd::prelude::*;

verus! {

/// How an instant operation writes the target stat's base value.
#[derive(Clone, Copy, Debug, PartialEq, Eq, Structural)]
pub enum InstantOp {
    /// Replace the base value.
    Assign,
    /// Add to the base value.
    Add,
    /// Subtract from the base value.
    Sub,
}

#[derive(Debug)]
struct EffectStep {
    role: String,
    stat: String,
    op: InstantOp,
    value: ModifierValue,
}

/// One operation of an effect.
pub struct Step {
    pub role: Seq<char>,
    pub stat: Seq<char>,
    pub op: InstantOp,
    pub value: Amount,
}

impl EffectStep {
    /// What the step says.
    spec fn step(&self) -> Step {
        Step { role: self.role@, stat: self.stat@, op: self.op, value: self.value@ }
    }
}

/// A reusable one-shot effect: an ordered list of set/add/subtract
/// operations over role-addressed stats. See the [module docs](self).
#[derive(Debug)]
pub struct InstantEffect {
    steps: Vec<EffectStep>,
}

impl View for InstantEffect {
    type V = Seq<Step>;

    closed spec fn view(&self) -> Seq<Step> {
        self.steps@.map_values(|s: EffectStep| s.step())
    }
}

/// The operation that a step says, or the fault in it: one in the stat path
/// comes before one in the value.
pub open spec fn effect_step(
    role: Seq<char>,
    path: Seq<char>,
    op: InstantOp,
    amount: Result<Amount, Fault>,
) -> Result<Step, Fault> {
    match path_parsed(path) {
        Err(fault) => Err(Fault::Parse(fault)),
        Ok((stat, tags)) => if tags.len() > 0 {
            Err(Fault::InvalidPath(path, "instant effects write base values, which are untagged"@))
        } else {
            match amount {
                Err(fault) => Err(fault),
                Ok(value) => Ok(Step { role, stat, op, value }),
            }
        },
    }
}

impl InstantEffect {
    /// An empty effect.
    pub fn new() -> (effect: InstantEffect)
        ensures
            effect@ == Seq::<Step>::empty(),
    {
        let effect = InstantEffect { steps: Vec::new() };
        assert(effect@ =~= Seq::empty());
        effect
    }

    /// Adds a *set* operation: `role`'s `stat` base becomes the value.
    ///
    /// The stat and an expression value have to be free of syntax errors; use
    /// [`try_step`](Self::try_step) to handle them.
    #[must_use]
    pub fn set<V: IntoModifierValue>(self, role: &str, stat: &str, value: V) -> (effect: InstantEffect)
        requires
            effect_step(role@, stat@, InstantOp::Assign, value.amount()) is Ok,
        ensures
            effect_step(role@, stat@, InstantOp::Assign, value.amount()) matches Ok(step) && effect@ == self@.push(step),
    {
        self.step(role, stat, InstantOp::Assign, value)
    }

    /// Adds an *add* operation: the value is added to `role`'s `stat` base.
    #[must_use]
    pub fn add<V: IntoModifierValue>(self, role: &str, stat: &str, value: V) -> (effect: InstantEffect)
        requires
            effect_step(role@, stat@, InstantOp::Add, value.amount()) is Ok,
        ensures
            effect_step(role@, stat@, InstantOp::Add, value.amount()) matches Ok(step) && effect@ == self@.push(step),
    {
        self.step(role, stat, InstantOp::Add, value)
    }

    /// Adds a *subtract* operation: the value is subtracted from `role`'s
    /// `stat` base.
    #[must_use]
    pub fn sub<V: IntoModifierValue>(self, role: &str, stat: &str, value: V) -> (effect: InstantEffect)
        requires
            effect_step(role@, stat@, InstantOp::Sub, value.amount()) is Ok,
        ensures
            effect_step(role@, stat@, InstantOp::Sub, value.amount()) matches Ok(step) && effect@ == self@.push(step),
    {
        self.step(role, stat, InstantOp::Sub, value)
    }

    /// Builder core for steps that are free of errors; see
    /// [`try_step`](Self::try_step).
    #[must_use]
    pub fn step<V: IntoModifierValue>(self, role: &str, stat: &str, op: InstantOp, value: V) -> (effect: InstantEffect)
        requires
            effect_step(role@, stat@, op, value.amount()) is Ok,
        ensures
            effect_step(role@, stat@, op, value.amount()) matches Ok(step) && effect@ == self@.push(step),
    {
        match self.try_step(role, stat, op, value) {
            Ok(effect) => effect,
            Err(_) => {
                assert(false);
                InstantEffect::new()
            },
        }
    }

    /// Fallible builder: adds one operation.
    pub fn try_step<V: IntoModifierValue>(
        self,
        role: &str,
        stat: &str,
        op: InstantOp,
        value: V,
    ) -> (r: Result<InstantEffect, StatError>)
        ensures
            match r {
                Ok(effect) => effect_step(role@, stat@, op, value.amount()) matches Ok(step) && effect@ == self@.push(
                    step,
                ),
                Err(e) => effect_step(role@, stat@, op, value.amount()) == Err::<Step, Fault>(e@),
            },
    {
        let mut effect = self;
        let (name, tags) = match parse_stat_path(stat) {
            Ok(found) => found,
            Err(e) => {
                return Err(StatError::Parse(e));
            },
        };
        assert(names(tags@).len() == tags@.len());
        if tags.len() > 0 {
            return Err(
                StatError::InvalidPath {
                    path: stat.to_owned(),
                    reason: "instant effects write base values, which are untagged",
                },
            );
        }
        match value.into_modifier_value() {
            Ok(value) => {
                let step = EffectStep { role: role.to_owned(), stat: name, op, value };
                effect.steps.push(step);
                assert(effect@ =~= self@.push(step.step()));
                Ok(effect)
            },
            Err(e) => Err(e),
        }
    }
}

impl Clone for InstantEffect {
    fn clone(&self) -> (copy: InstantEffect)
        ensures
            copy@ == self@,
    {
        let mut copy = InstantEffect::new();
        let mut i: usize = 0;
        assert(copy@ =~= self@.take(0));
        while i < self.steps.len()
            invariant
                i <= self.steps@.len(),
                self@.len() == self.steps@.len(),
                forall|k: int| 0 <= k < self.steps@.len() ==> #[trigger] self@[k] == self.steps@[k].step(),
                copy@ == self@.take(i as int),
            decreases self.steps@.len() - i,
        {
            let ghost before = copy@;
            let step = &self.steps[i];
            let same = EffectStep {
                role: step.role.clone(),
                stat: step.stat.clone(),
                op: step.op,
                value: step.value.clone(),
            };
            copy.steps.push(same);
            assert(copy@ =~= before.push(self@[i as int]));
            assert(copy@ =~= self@.take(i + 1));
            i = i + 1;
        }
        assert(self@.take(i as int) =~= self@);
        copy
    }
}

impl Default for InstantEffect {
    fn default() -> (r: InstantEffect)
        ensures
            r@ == Seq::<Step>::empty(),
    {
        InstantEffect::new()
    }
}

/// Binds role names to entities for one application of an [`InstantEffect`].
#[derive(Debug)]
pub struct Roles {
    map: NameIndex,
}

impl View for Roles {
    type V = Map<Seq<char>, Entity>;

    closed spec fn view(&self) -> Map<Seq<char>, Entity> {
        self.map.slots()
    }
}

impl Roles {
    /// An empty role map.
    pub fn new() -> (roles: Roles)
        ensures
            roles@ == Map::<Seq<char>, Entity>::empty(),
    {
        Roles { map: NameIndex::empty() }
    }

    /// Binds `role` to `entity`.
    #[must_use]
    pub fn with(self, role: &str, entity: Entity) -> (roles: Roles)
        ensures
            roles@ == self@.insert(role@, entity),
    {
        let mut roles = self;
        roles.map.put(&role.to_owned(), entity);
        roles
    }

    /// The entity bound to `role`, if any.
    pub fn get(&self, role: &str) -> (entity: Option<Entity>)
        ensures
            entity == (if self@.contains_key(role@) {
                Some(self@[role@])
            } else {
                None
            }),
    {
        self.map.find(&role.to_owned())
    }
}

impl Clone for Roles {
    fn clone(&self) -> (copy: Roles)
        ensures
            copy@ == self@,
    {
        Roles { map: self.map.clone() }
    }
}

impl Default for Roles {
    fn default() -> (r: Roles)
        ensures
            r@ == Map::<Seq<char>, Entity>::empty(),
    {
        Roles::new()
    }
}

/// The computed result of one instant operation, as returned by
/// [`StatsMutator::preview_effect`] and [`StatsMutator::apply_effect`].
#[derive(Clone, Debug, PartialEq)]
pub struct InstantOutcome {
    /// The entity written to.
    pub entity: Entity,
    /// The stat written to.
    pub stat: String,
    /// The operation kind.
    pub op: InstantOp,
    /// The evaluated operand.
    pub amount: Scalar,
    /// The base value the stat will have after the write.
    pub new_base: Scalar,
}

/// What an [`InstantOutcome`] says.
pub struct Outcome {
    pub key: Key,
    pub op: InstantOp,
    pub amount: Scalar,
    pub new_base: Scalar,
}

impl View for InstantOutcome {
    type V = Outcome;

    open spec fn view(&self) -> Outcome {
        Outcome { key: (self.entity, self.stat@), op: self.op, amount: self.amount, new_base: self.new_base }
    }
}

/// What a list of outcomes says.
pub open spec fn outcome_list(list: Seq<InstantOutcome>) -> Seq<Outcome> {
    list.map_values(|o: InstantOutcome| o@)
}

/// What keeps a step from being evaluated.
pub open spec fn step_fault(s: State, roles: Map<Seq<char>, Entity>, step: Step) -> Option<Fault> {
    if !roles.contains_key(step.role) {
        Some(Fault::UnknownRole(step.role))
    } else {
        match step.value {
            Amount::Literal(_) => None,
            Amount::Expression(_, term) => match first_unknown(s.tags.tags, refs(term)) {
                Some(name) => Some(Fault::UnknownTag(name)),
                None => None,
            },
        }
    }
}

/// What keeps an effect from being evaluated: the first fault of its steps.
pub open spec fn effect_fault(s: State, roles: Map<Seq<char>, Entity>, steps: Seq<Step>) -> Option<Fault>
    decreases steps.len(),
{
    if steps.len() == 0 {
        None
    } else {
        match effect_fault(s, roles, steps.drop_last()) {
            Some(fault) => Some(fault),
            None => step_fault(s, roles, steps.last()),
        }
    }
}

/// The base value that the last outcome for a stat leaves.
pub open spec fn latest(outs: Seq<Outcome>, k: Key) -> Option<Scalar>
    decreases outs.len(),
{
    if outs.len() == 0 {
        None
    } else if outs.last().key == k {
        Some(outs.last().new_base)
    } else {
        latest(outs.drop_last(), k)
    }
}

/// The base value that a step starts from: what an earlier step leaves, else
/// the base value of the stat, else zero.
pub open spec fn starting(world: World, outs: Seq<Outcome>, k: Key) -> Scalar {
    match latest(outs, k) {
        Some(base) => base,
        None => match node_in(world, k).base {
            Some(base) => base,
            None => ZERO,
        },
    }
}

/// `v` is what the operand of a step comes to on an entity.
pub open spec fn operand<A: Arithmetic>(
    host: A,
    s: State,
    roles: Map<Seq<char>, Entity>,
    entity: Entity,
    value: Amount,
    v: Scalar,
) -> bool {
    match value {
        Amount::Literal(n) => v == n,
        Amount::Expression(_, term) => evaluated(host, s, entity, roles, term, Ok(v)),
    }
}

/// `out` is the outcome of a step that follows `outs`. Its operand is
/// evaluated in the state before the effect.
pub open spec fn step_outcome<A: Arithmetic>(
    host: A,
    s: State,
    roles: Map<Seq<char>, Entity>,
    step: Step,
    outs: Seq<Outcome>,
    out: Outcome,
) -> bool {
    &&& roles.contains_key(step.role)
    &&& out.key == (roles[step.role], step.stat)
    &&& out.op == step.op
    &&& operand(host, s, roles, out.key.0, step.value, out.amount)
    &&& match step.op {
        InstantOp::Assign => out.new_base == out.amount,
        InstantOp::Add => plus_value(host, starting(s.world, outs, out.key), out.amount, out.new_base),
        InstantOp::Sub => minus_value(host, starting(s.world, outs, out.key), out.amount, out.new_base),
    }
}

/// `outs` are the outcomes of the steps of an effect.
pub open spec fn outcomes<A: Arithmetic>(
    host: A,
    s: State,
    roles: Map<Seq<char>, Entity>,
    steps: Seq<Step>,
    outs: Seq<Outcome>,
) -> bool {
    &&& outs.len() == steps.len()
    &&& forall|i: int|
        0 <= i < steps.len() ==> step_outcome(host, s, roles, steps[i], outs.take(i), #[trigger] outs[i])
}

/// The outcomes that can be written: those for entities that carry stats.
pub open spec fn writable(world: World, outs: Seq<Outcome>) -> Seq<Outcome>
    decreases outs.len(),
{
    if outs.len() == 0 {
        Seq::empty()
    } else {
        let before = writable(world, outs.drop_last());
        if world.carriers.contains(outs.last().key.0) {
            before.push(outs.last())
        } else {
            before
        }
    }
}

/// The state with the base values of the outcomes written in turn.
pub open spec fn written(s: State, outs: Seq<Outcome>) -> State
    decreases outs.len(),
{
    if outs.len() == 0 {
        s
    } else {
        let before = written(s, outs.drop_last());
        let out = outs.last();
        if base_equals(before.world, out.key, out.new_base) {
            before
        } else {
            based(before, out.key, out.new_base)
        }
    }
}

/// The stats whose base values are written, each once.
pub open spec fn written_seeds(s: State, outs: Seq<Outcome>) -> Seq<Key>
    decreases outs.len(),
{
    if outs.len() == 0 {
        Seq::empty()
    } else {
        let before = written_seeds(s, outs.drop_last());
        let out = outs.last();
        if base_equals(written(s, outs.drop_last()).world, out.key, out.new_base) {
            before
        } else {
            with_seed(before, out.key)
        }
    }
}

/// `outs` are the outcomes of an effect that can be written.
pub open spec fn previewed<A: Arithmetic>(
    host: A,
    s: State,
    roles: Map<Seq<char>, Entity>,
    steps: Seq<Step>,
    outs: Seq<Outcome>,
) -> bool {
    exists|all: Seq<Outcome>| #[trigger] outcomes(host, s, roles, steps, all) && outs == writable(s.world, all)
}

/// `after` is the state with the outcomes of an effect written together.
pub open spec fn effect_applied<A: Arithmetic>(
    host: A,
    s: State,
    roles: Map<Seq<char>, Entity>,
    steps: Seq<Step>,
    outs: Seq<Outcome>,
    after: State,
) -> bool {
    &&& previewed(host, s, roles, steps, outs)
    &&& carried(host, written(s, outs), written_seeds(s, outs), after)
}

impl<A: Arithmetic> StatsMutator<A> {
    /// Evaluates an ad-hoc expression with named role bindings taking
    /// precedence over the entity's links for `name@Stat` references.
    pub fn eval_with_roles(&self, entity: Entity, expression: &Expression, roles: &Roles) -> (r: Result<
        Scalar,
        StatError,
    >)
        requires
            self.wf(),
        ensures
            evaluated(self.host(), self@, entity, roles@, expression.term(), outcome(r)),
    {
        self.eval_bound(entity, expression, Some(&roles.map))
    }

    /// Computes what [`apply_effect`](Self::apply_effect) would do, without
    /// committing anything.
    pub fn preview_effect(&self, effect: &InstantEffect, roles: &Roles) -> (r: Result<Vec<InstantOutcome>, StatError>)
        requires
            self.wf(),
        ensures
            match r {
                Ok(list) => {
                    &&& effect_fault(self@, roles@, effect@) is None
                    &&& previewed(self.host(), self@, roles@, effect@, outcome_list(list@))
                },
                Err(e) => effect_fault(self@, roles@, effect@) == Some(e@),
            },
    {
        self.resolve_effect(effect, roles)
    }

    /// Applies an [`InstantEffect`]: evaluates every operation against the
    /// pre-effect state, then writes all base values and recomputes
    /// downstream once. Returns the outcomes actually applied.
    pub fn apply_effect(&mut self, effect: &InstantEffect, roles: &Roles) -> (r: Result<
        Vec<InstantOutcome>,
        StatError,
    >)
        requires
            old(self).wf(),
        ensures
            final(self).wf(),
            final(self).host() == old(self).host(),
            match r {
                Ok(list) => {
                    &&& effect_fault(old(self)@, roles@, effect@) is None
                    &&& effect_applied(
                        old(self).host(),
                        old(self)@,
                        roles@,
                        effect@,
                        outcome_list(list@),
                        final(self)@,
                    )
                },
                Err(e) => effect_fault(old(self)@, roles@, effect@) == Some(e@) && final(self)@ == old(self)@,
            },
    {
        let list = match self.resolve_effect(effect, roles) {
            Ok(list) => list,
            Err(e) => {
                return Err(e);
            },
        };
        let ghost all = outcome_list(list@);
        let mut seeds: Vec<(Entity, String)> = Vec::new();
        let mut i: usize = 0;
        proof {
            assert(all.take(0) =~= Seq::empty());
            assert(keys_of(seeds@) =~= Seq::empty());
            lemma_writable(self.host(), self@, roles@, effect@, all);
        }
        while i < list.len()
            invariant
                i <= list@.len(),
                all == outcome_list(list@),
                forall|p: int| 0 <= p < all.len() ==> old(self)@.world.carriers.contains((#[trigger] all[p]).key.0),
                self.wf(),
                self.host() == old(self).host(),
                self@.world.carriers == old(self)@.world.carriers,
                self@ == written(old(self)@, all.take(i as int)),
                keys_of(seeds@) == written_seeds(old(self)@, all.take(i as int)),
            decreases list@.len() - i,
        {
            proof {
                assert(all.take(i + 1).drop_last() =~= all.take(i as int));
                assert(all[i as int] == list@[i as int]@);
            }
            let out = &list[i];
            if self.write_base(out.entity, &out.stat, out.new_base) {
                crate::access::push_seed(&mut seeds, out.entity, &out.stat);
            }
            i = i + 1;
        }
        assert(all.take(i as int) =~= all);
        self.recompute(&seeds);
        Ok(list)
    }

    fn resolve_effect(&self, effect: &InstantEffect, roles: &Roles) -> (r: Result<Vec<InstantOutcome>, StatError>)
        requires
            self.wf(),
        ensures
            match r {
                Ok(list) => {
                    &&& effect_fault(self@, roles@, effect@) is None
                    &&& previewed(self.host(), self@, roles@, effect@, outcome_list(list@))
                },
                Err(e) => effect_fault(self@, roles@, effect@) == Some(e@),
            },
    {
        let ghost steps = effect@;
        let ghost mut outs: Seq<Outcome> = Seq::empty();
        let mut pending: PairTable<Scalar> = PairTable::new();
        let mut list: Vec<InstantOutcome> = Vec::new();
        let mut i: usize = 0;
        proof {
            assert(steps.take(0) =~= Seq::empty());
            assert(outcome_list(list@) =~= Seq::empty());
        }
        while i < effect.steps.len()
            invariant
                i <= effect.steps@.len(),
                steps == effect@,
                self.wf(),
                effect_fault(self@, roles@, steps.take(i as int)) is None,
                outcomes(self.host(), self@, roles@, steps.take(i as int), outs),
                outcome_list(list@) == writable(self@.world, outs),
                pending.wf(),
                forall|k: Key| #[trigger]
                    latest(outs, k) == (if pending@.contains_key(k) {
                        Some(pending@[k])
                    } else {
                        None
                    }),
            decreases effect.steps@.len() - i,
        {
            let step = &effect.steps[i];
            let ghost said = step.step();
            proof {
                assert(steps[i as int] == said);
                assert(steps.take(i + 1).drop_last() =~= steps.take(i as int));
                if step_fault(self@, roles@, said) is Some {
                    lemma_effect_fault_prefix(self@, roles@, steps, i + 1);
                }
            }
            let target = match roles.get(step.role.as_str()) {
                Some(target) => target,
                None => {
                    return Err(StatError::UnknownRole(step.role.clone()));
                },
            };
            let amount = match &step.value {
                ModifierValue::Literal(v) => *v,
                ModifierValue::Expression(e) => match self.eval_with_roles(target, e, roles) {
                    Ok(v) => v,
                    Err(e) => {
                        return Err(e);
                    },
                },
            };
            let key = (target, step.stat.clone());
            let ghost k: Key = (target, step.stat@);
            assert(key@ == k);
            let current = match pending.get(&key) {
                Some(base) => *base,
                None => match self.base_of(target, &step.stat) {
                    Some(base) => base,
                    None => ZERO,
                },
            };
            assert(latest(outs, k) == (if pending@.contains_key(k) {
                Some(pending@[k])
            } else {
                None
            }));
            assert(current == starting(self@.world, outs, k));
            let new_base = match step.op {
                InstantOp::Assign => amount,
                InstantOp::Add => self.arithmetic().plus(current, amount),
                InstantOp::Sub => self.arithmetic().minus(current, amount),
            };
            pending.insert(key, new_base);
            let ghost out = Outcome { key: k, op: step.op, amount, new_base };
            proof {
                let longer = outs.push(out);
                assert(longer.drop_last() =~= outs);
                assert(step_outcome(self.host(), self@, roles@, said, outs, out));
                assert forall|j: int| 0 <= j < i + 1 implies step_outcome(
                    self.host(),
                    self@,
                    roles@,
                    steps.take(i + 1)[j],
                    longer.take(j),
                    #[trigger] longer[j],
                ) by {
                    if j < i {
                        assert(outs[j] == longer[j]);
                        assert(longer.take(j) =~= outs.take(j));
                        assert(steps.take(i + 1)[j] == steps.take(i as int)[j]);
                    } else {
                        assert(longer.take(j) =~= outs);
                    }
                }
            }
            if self.carries(target) {
                let ghost was = list@;
                list.push(InstantOutcome { entity: target, stat: step.stat.clone(), op: step.op, amount, new_base });
                assert(outcome_list(list@) =~= outcome_list(was).push(out));
            }
            proof {
                let before = outs;
                outs = outs.push(out);
                assert(outs.drop_last() =~= before);
                assert forall|x: Key| #[trigger]
                    latest(outs, x) == (if pending@.contains_key(x) {
                        Some(pending@[x])
                    } else {
                        None
                    }) by {
                    assert(latest(outs, x) == (if x == k {
                        Some(new_base)
                    } else {
                        latest(before, x)
                    }));
                }
            }
            i = i + 1;
        }
        assert(steps.take(i as int) =~= steps);
        assert(outcomes(self.host(), self@, roles@, effect@, outs));
        Ok(list)
    }
}

/// The first fault in the front part of an effect is the first fault of it.
proof fn lemma_effect_fault_prefix(s: State, roles: Map<Seq<char>, Entity>, steps: Seq<Step>, n: int)
    requires
        0 <= n <= steps.len(),
        effect_fault(s, roles, steps.take(n)) is Some,
    ensures
        effect_fault(s, roles, steps) == effect_fault(s, roles, steps.take(n)),
    decreases steps.len(),
{
    if n < steps.len() {
        assert(steps.drop_last().take(n) =~= steps.take(n));
        lemma_effect_fault_prefix(s, roles, steps.drop_last(), n);
    } else {
        assert(steps.take(n) =~= steps);
    }
}

proof fn lemma_writable_carried(world: World, outs: Seq<Outcome>)
    ensures
        forall|p: int|
            0 <= p < writable(world, outs).len() ==> world.carriers.contains(
                (#[trigger] writable(world, outs)[p]).key.0,
            ),
    decreases outs.len(),
{
    if outs.len() > 0 {
        lemma_writable_carried(world, outs.drop_last());
    }
}

/// Every outcome of a preview is for an entity that carries stats.
pub proof fn lemma_writable<A: Arithmetic>(
    host: A,
    s: State,
    roles: Map<Seq<char>, Entity>,
    steps: Seq<Step>,
    outs: Seq<Outcome>,
)
    requires
        previewed(host, s, roles, steps, outs),
    ensures
        forall|p: int| 0 <= p < outs.len() ==> s.world.carriers.contains((#[trigger] outs[p]).key.0),
{
    let all = choose|all: Seq<Outcome>| #[trigger]
        outcomes(host, s, roles, steps, all) && outs == writable(s.world, all);
    lemma_writable_carried(s.world, all);
}

} // verus!
