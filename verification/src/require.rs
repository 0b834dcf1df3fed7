//! Boolean requirements: expression-based gates over an entity's stats.
//!
//! Use them as equipment prerequisites, ability conditions, or state-machine
//! edge guards, e.g. `Strength >= 20 && Intelligence >= 15`.
//!
//! Check with [`StatsMutator::check`](crate::StatsMutator::check) or
//! [`StatsReader::check`](crate::StatsReader::check). Comparison and logical
//! operators evaluate to `1`/`0`; a requirement holds when the expression is
//! non-zero.

use crate::access::{StatsMutator, StatsReader};
use crate::effect::Roles;
use crate::entity::Entity;
use crate::error::{Fault, StatError, SyntaxFault};
use crate::expr::Expression;
use crate::parser::{parsed, Term};
use crate::scalar::{equals, is_equal, Arithmetic, Scalar, ZERO};
use crate::state::{evaluated, outcome, State};
use vstd::prelude::*;

verus! {

/// A parsed boolean gate over stats. See the [module docs](self).
#[derive(Debug, PartialEq)]
pub struct Requirement {
    expr: Expression,
}

/// Whether a requirement holds on an entity: whether its expression comes to
/// something other than zero.
pub open spec fn checked<A: Arithmetic>(
    host: A,
    state: State,
    entity: Entity,
    roles: Map<Seq<char>, Entity>,
    term: Term,
    r: Result<bool, Fault>,
) -> bool {
    match r {
        Ok(holds) => exists|v: Scalar| #[trigger]
            evaluated(host, state, entity, roles, term, Ok(v)) && holds == !equals(v, ZERO),
        Err(fault) => evaluated(host, state, entity, roles, term, Err(fault)),
    }
}

impl Requirement {
    /// What the requirement says.
    pub closed spec fn term(&self) -> Term {
        self.expr.term()
    }

    /// The source text the requirement was parsed from.
    pub closed spec fn text(&self) -> Seq<char> {
        self.expr.text()
    }

    /// Parses a requirement expression, e.g. `"Intelligence >= 15"`.
    pub fn parse(src: &str) -> (r: Result<Requirement, StatError>)
        ensures
            match r {
                Ok(requirement) => parsed(src@) == Ok::<Term, SyntaxFault>(requirement.term()) && requirement.text()
                    == src@,
                Err(e) => parsed(src@) matches Err(fault) && e@ == Fault::Parse(fault),
            },
    {
        match Expression::parse(src) {
            Ok(expr) => Ok(Requirement { expr }),
            Err(e) => Err(e),
        }
    }

    /// The requirement that an expression is not zero.
    pub fn new(expr: Expression) -> (requirement: Requirement)
        ensures
            requirement.term() == expr.term(),
            requirement.text() == expr.text(),
    {
        Requirement { expr }
    }

    /// The underlying expression.
    pub fn expression(&self) -> (expr: &Expression)
        ensures
            expr.term() == self.term(),
            expr.text() == self.text(),
    {
        &self.expr
    }
}

impl From<Expression> for Requirement {
    fn from(expr: Expression) -> (requirement: Requirement)
        ensures
            requirement.term() == expr.term(),
            requirement.text() == expr.text(),
    {
        Requirement { expr }
    }
}

impl vstd::std_specs::convert::FromSpecImpl<Expression> for Requirement {
    open spec fn obeys_from_spec() -> bool {
        true
    }

    closed spec fn from_spec(expr: Expression) -> Requirement {
        Requirement { expr }
    }
}

impl Clone for Requirement {
    fn clone(&self) -> (copy: Requirement)
        ensures
            copy.term() == self.term(),
            copy.text() == self.text(),
    {
        Requirement { expr: self.expr.clone() }
    }
}

/// Whether an evaluation came to something other than zero.
fn holds(r: Result<Scalar, StatError>) -> (holds: Result<bool, StatError>)
    ensures
        match r {
            Ok(v) => holds == Ok::<bool, StatError>(!equals(v, ZERO)),
            Err(e) => holds == Err::<bool, StatError>(e),
        },
{
    match r {
        Ok(v) => Ok(!is_equal(v, ZERO)),
        Err(e) => Err(e),
    }
}

impl<A: Arithmetic> StatsMutator<A> {
    /// Evaluates a requirement against an entity's current stats.
    pub fn check(&self, entity: Entity, requirement: &Requirement) -> (r: Result<bool, StatError>)
        requires
            self.wf(),
        ensures
            checked(self.host(), self@, entity, Map::empty(), requirement.term(), outcome(r)),
    {
        holds(self.eval(entity, &requirement.expr))
    }

    /// Evaluates a requirement with role bindings available as `role@Stat`.
    pub fn check_with_roles(&self, entity: Entity, requirement: &Requirement, roles: &Roles) -> (r: Result<
        bool,
        StatError,
    >)
        requires
            self.wf(),
        ensures
            checked(self.host(), self@, entity, roles@, requirement.term(), outcome(r)),
    {
        holds(self.eval_with_roles(entity, &requirement.expr, roles))
    }
}

impl<'a, A: Arithmetic> StatsReader<'a, A> {
    /// Evaluates a requirement against an entity's current stats.
    pub fn check(&self, entity: Entity, requirement: &Requirement) -> (r: Result<bool, StatError>)
        requires
            self.wf(),
        ensures
            checked(self.host(), self@, entity, Map::empty(), requirement.term(), outcome(r)),
    {
        holds(self.eval(entity, &requirement.expr))
    }
}

} // verus!
