//! When operations are refused, and with what.

use crate::effect::{effect_fault, effect_step, step_fault, InstantOp, Step};
use crate::entity::Entity;
use crate::error::{Fault, FaultKind, SyntaxFault};
use crate::expr::first_unknown;
use crate::grammar::called;
use crate::lexer::{lexed, token_text, Placed, Symbol, Token};
use crate::meaning::{law_filters_are_unions, lemma_unknown};
use crate::modifier::{set_entry, Amount, Contribution};
use crate::parser::{
    arguments, call, dotted, expression, infix_at, infixes, lemma_arguments, lemma_dotted, lemma_prefixed, lemma_progress,
    parsed, path_parsed, prefixed, primary, reference, sym, tag_list, tok, Parse, Reference, Term,
};
use crate::scalar::{Arithmetic, Scalar};
use crate::state::{add_fault, apply_fault, entries_fault, evaluated, modifier_fault, set_fault, State};
use crate::tags::resolved;
use crate::tree::{func_named, refs, Formula, Func};
use vstd::prelude::*;
use vstd::utf8::encode_utf8;

verus! {

// -- values and modifiers ---------------------------------------------------

/// A base value can be set exactly where the path is a plain stat name and the
/// entity carries stats. A path that does not parse is refused first, then one
/// with tags, then an entity without stats.
pub proof fn law_set_is_owed(s: State, entity: Entity, stat: Seq<char>)
    ensures
        match set_fault(s, entity, stat) {
            None => (path_parsed(stat) matches Ok((_, tags)) && tags.len() == 0) && s.world.carriers.contains(entity),
            Some(Fault::Parse(fault)) => path_parsed(stat) == Err::<(Seq<char>, Seq<Seq<char>>), SyntaxFault>(fault),
            Some(Fault::InvalidPath(path, reason)) => path == stat && reason
                == "base values are untagged; tag the modifiers instead"@ && (path_parsed(stat) matches Ok((_, tags))
                && tags.len() > 0),
            Some(Fault::NoStats(e)) => e == entity && !s.world.carriers.contains(entity) && (path_parsed(
                stat,
            ) matches Ok((_, tags)) && tags.len() == 0),
            _ => false,
        },
{
}

/// Whether every tag of a list is registered.
pub open spec fn known(tags: Map<Seq<char>, u64>, list: Seq<Seq<char>>) -> bool {
    forall|i: int| 0 <= i < list.len() ==> tags.contains_key(#[trigger] list[i])
}

/// Whether every tag in the filters of some references is registered.
pub open spec fn filters_known(tags: Map<Seq<char>, u64>, list: Seq<Reference>) -> bool {
    forall|i: int|
        0 <= i < list.len() ==> ((#[trigger] list[i]).tags matches Some(filter) ==> known(tags, filter))
}

/// Whether `name` is the first of a list that is not registered.
pub open spec fn first_missing(tags: Map<Seq<char>, u64>, list: Seq<Seq<char>>, name: Seq<char>) -> bool {
    exists|i: int|
        0 <= i < list.len() && #[trigger] list[i] == name && !tags.contains_key(name) && forall|j: int|
            0 <= j < i ==> tags.contains_key(#[trigger] list[j])
}

/// Whether a reference has a filter, and `name` is its first tag that is not
/// registered.
pub open spec fn missing_at(tags: Map<Seq<char>, u64>, r: Reference, name: Seq<char>) -> bool {
    r.tags matches Some(filter) && first_missing(tags, filter, name)
}

/// Whether `name` is the first tag in the filters of some references that is not
/// registered.
pub open spec fn first_missing_in(tags: Map<Seq<char>, u64>, list: Seq<Reference>, name: Seq<char>) -> bool {
    exists|i: int|
        0 <= i < list.len() && missing_at(tags, #[trigger] list[i], name) && filters_known(tags, list.take(i))
}

/// Whether a modifier can be made ready: its path parses, and all the tags of
/// its path, its own and those in its expression are registered.
pub open spec fn ready(tags: Map<Seq<char>, u64>, path: Seq<char>, m: Contribution) -> bool {
    &&& path_parsed(path) matches Ok((_, own)) && known(tags, own) && known(tags, m.tags)
    &&& m.value matches Amount::Expression(_, term) ==> filters_known(tags, refs(term))
}

proof fn lemma_filters_known(tags: Map<Seq<char>, u64>, list: Seq<Reference>)
    ensures
        first_unknown(tags, list) is None <==> filters_known(tags, list),
        first_unknown(tags, list) matches Some(name) ==> first_missing_in(tags, list, name),
{
    lemma_unknown(tags, list);
    lemma_first_missing(tags, list);
    if first_unknown(tags, list) is None {
        lemma_all_known(tags, list);
    } else if filters_known(tags, list) {
        let (i, j) = choose|i: int, j: int|
            #![trigger list[i].tags->0[j]]
            0 <= i < list.len() && list[i].tags is Some && 0 <= j < list[i].tags->0.len() && !tags.contains_key(
                list[i].tags->0[j],
            );
        let filter = list[i].tags->0;
        assert(known(tags, filter));
        assert(tags.contains_key(filter[j]));
    }
}

proof fn lemma_first_missing(tags: Map<Seq<char>, u64>, list: Seq<Reference>)
    ensures
        first_unknown(tags, list) matches Some(name) ==> first_missing_in(tags, list, name),
    decreases list.len(),
{
    if list.len() > 0 {
        let rest = list.drop_last();
        let last = list.len() - 1;
        lemma_first_missing(tags, rest);
        assert(list[last] == list.last());
        match first_unknown(tags, rest) {
            Some(name) => {
                let i = choose|i: int|
                    0 <= i < rest.len() && missing_at(tags, #[trigger] rest[i], name) && filters_known(
                        tags,
                        rest.take(i),
                    );
                assert(list[i] == rest[i]);
                assert(list.take(i) =~= rest.take(i));
            },
            None => {
                if let Some(name) = first_unknown(tags, list) {
                    let filter = list.last().tags->0;
                    law_filters_are_unions(tags, filter, 0);
                    assert(first_missing(tags, filter, name));
                    assert(missing_at(tags, list[last], name));
                    assert(list.take(last) =~= rest);
                    lemma_all_known(tags, rest);
                }
            },
        }
    }
}

proof fn lemma_all_known(tags: Map<Seq<char>, u64>, list: Seq<Reference>)
    requires
        first_unknown(tags, list) is None,
    ensures
        filters_known(tags, list),
{
    lemma_unknown(tags, list);
    assert forall|i: int| 0 <= i < list.len() implies ((#[trigger] list[i]).tags matches Some(filter) ==> known(
        tags,
        filter,
    )) by {
        if let Some(filter) = list[i].tags {
            assert forall|j: int| 0 <= j < filter.len() implies tags.contains_key(#[trigger] filter[j]) by {
                assert(list[i].tags->0[j] == filter[j]);
            }
        }
    }
}

proof fn lemma_known_both(tags: Map<Seq<char>, u64>, a: Seq<Seq<char>>, b: Seq<Seq<char>>)
    ensures
        known(tags, a + b) <==> known(tags, a) && known(tags, b),
        resolved(tags, a + b) is Ok <==> known(tags, a + b),
{
    law_filters_are_unions(tags, a + b, 0);
    if known(tags, a + b) {
        assert forall|i: int| 0 <= i < a.len() implies tags.contains_key(#[trigger] a[i]) by {
            assert((a + b)[i] == a[i]);
        }
        assert forall|i: int| 0 <= i < b.len() implies tags.contains_key(#[trigger] b[i]) by {
            assert((a + b)[a.len() + i] == b[i]);
        }
    }
    if known(tags, a) && known(tags, b) {
        assert forall|i: int| 0 <= i < (a + b).len() implies tags.contains_key(#[trigger] (a + b)[i]) by {
            if i < a.len() {
                assert((a + b)[i] == a[i]);
            } else {
                assert((a + b)[i] == b[i - a.len()]);
            }
        }
    }
}

/// A modifier is refused exactly where it cannot be made ready: with the fault
/// in its path, or with the first tag that is not registered, those of the path
/// going before its own, and these before those in its expression.
pub proof fn law_modifiers_are_owed(tags: Map<Seq<char>, u64>, path: Seq<char>, m: Contribution)
    ensures
        modifier_fault(tags, path, m) is None <==> ready(tags, path, m),
        modifier_fault(tags, path, m) matches Some(fault) ==> match fault {
            Fault::Parse(e) => path_parsed(path) == Err::<(Seq<char>, Seq<Seq<char>>), SyntaxFault>(e),
            Fault::UnknownTag(name) => path_parsed(path) matches Ok((_, own)) && (first_missing(
                tags,
                own + m.tags,
                name,
            ) || known(tags, own + m.tags) && (m.value matches Amount::Expression(_, term) && first_missing_in(
                tags,
                refs(term),
                name,
            ))),
            _ => false,
        },
{
    if let Ok((_, own)) = path_parsed(path) {
        lemma_known_both(tags, own, m.tags);
        law_filters_are_unions(tags, own + m.tags, 0);
        if let Amount::Expression(_, term) = m.value {
            lemma_filters_known(tags, refs(term));
        }
    }
}

/// A modifier can be added exactly where its value is sound, it can be made
/// ready, and the entity carries stats; a fault in the value comes first, and
/// that the entity carries no stats last.
pub proof fn law_add_is_owed(s: State, entity: Entity, path: Seq<char>, amount: Result<Amount, Fault>)
    ensures
        add_fault(s, entity, path, amount) is None <==> (amount matches Ok(value) && ready(
            s.tags.tags,
            path,
            Contribution { value, tags: Seq::empty() },
        )) && s.world.carriers.contains(entity),
        amount matches Err(fault) ==> add_fault(s, entity, path, amount) == Some(fault),
        amount matches Ok(value) ==> (ready(s.tags.tags, path, Contribution { value, tags: Seq::empty() })
            && !s.world.carriers.contains(entity) ==> add_fault(s, entity, path, amount) == Some(Fault::NoStats(entity))),
{
    if let Ok(value) = amount {
        law_modifiers_are_owed(s.tags.tags, path, Contribution { value, tags: Seq::empty() });
    }
}

proof fn lemma_entries(tags: Map<Seq<char>, u64>, set: Seq<(Seq<char>, Contribution)>)
    ensures
        entries_fault(tags, set) is None <==> forall|i: int|
            0 <= i < set.len() ==> modifier_fault(tags, (#[trigger] set[i]).0, set[i].1) is None,
        entries_fault(tags, set) matches Some(fault) ==> exists|i: int|
            0 <= i < set.len() && modifier_fault(tags, (#[trigger] set[i]).0, set[i].1) == Some(fault) && forall|
                j: int,
            | 0 <= j < i ==> modifier_fault(tags, (#[trigger] set[j]).0, set[j].1) is None,
    decreases set.len(),
{
    if set.len() > 0 {
        let rest = set.drop_last();
        let last = set.len() - 1;
        lemma_entries(tags, rest);
        assert(set[last] == set.last());
        match entries_fault(tags, rest) {
            Some(fault) => {
                let i = choose|i: int|
                    0 <= i < rest.len() && modifier_fault(tags, (#[trigger] rest[i]).0, rest[i].1) == Some(fault)
                        && forall|j: int|
                        0 <= j < i ==> modifier_fault(tags, (#[trigger] rest[j]).0, rest[j].1) is None;
                assert(set[i] == rest[i]);
                assert forall|j: int| 0 <= j < i implies modifier_fault(
                    tags,
                    (#[trigger] set[j]).0,
                    set[j].1,
                ) is None by {
                    assert(set[j] == rest[j]);
                }
            },
            None => {
                assert forall|j: int| 0 <= j < last implies modifier_fault(
                    tags,
                    (#[trigger] set[j]).0,
                    set[j].1,
                ) is None by {
                    assert(set[j] == rest[j]);
                }
            },
        }
    }
}

/// A set can be applied exactly where every entry can be made ready and the
/// entity carries stats; else it is refused with the fault of the first entry
/// that cannot, and that the entity carries no stats comes last.
pub proof fn law_apply_is_owed(s: State, entity: Entity, set: Seq<(Seq<char>, Contribution)>)
    ensures
        apply_fault(s, entity, set) is None <==> (forall|i: int|
            0 <= i < set.len() ==> ready(s.tags.tags, (#[trigger] set[i]).0, set[i].1)) && s.world.carriers.contains(
            entity,
        ),
        apply_fault(s, entity, set) matches Some(fault) ==> {
            ||| fault == Fault::NoStats(entity) && !s.world.carriers.contains(entity) && forall|i: int|
                0 <= i < set.len() ==> ready(s.tags.tags, (#[trigger] set[i]).0, set[i].1)
            ||| exists|i: int|
                0 <= i < set.len() && modifier_fault(s.tags.tags, (#[trigger] set[i]).0, set[i].1) == Some(fault)
                    && forall|j: int| 0 <= j < i ==> ready(s.tags.tags, (#[trigger] set[j]).0, set[j].1)
        },
{
    lemma_entries(s.tags.tags, set);
    assert forall|i: int| 0 <= i < set.len() implies (modifier_fault(
        s.tags.tags,
        (#[trigger] set[i]).0,
        set[i].1,
    ) is None <==> ready(s.tags.tags, set[i].0, set[i].1)) by {
        law_modifiers_are_owed(s.tags.tags, set[i].0, set[i].1);
    }
    if let Some(fault) = entries_fault(s.tags.tags, set) {
        let i = choose|i: int|
            0 <= i < set.len() && modifier_fault(s.tags.tags, (#[trigger] set[i]).0, set[i].1) == Some(fault)
                && forall|j: int|
                0 <= j < i ==> modifier_fault(s.tags.tags, (#[trigger] set[j]).0, set[j].1) is None;
        assert forall|j: int| 0 <= j < i implies ready(s.tags.tags, (#[trigger] set[j]).0, set[j].1) by {
            law_modifiers_are_owed(s.tags.tags, set[j].0, set[j].1);
        }
        assert(modifier_fault(s.tags.tags, set[i].0, set[i].1) == Some(fault));
        law_modifiers_are_owed(s.tags.tags, set[i].0, set[i].1);
    }
}

/// An entry of a set is for the stat of its path, with the tags of its path and
/// its value.
pub proof fn law_entries_hold_path_and_value(path: Seq<char>, value: Amount)
    ensures
        path_parsed(path) matches Ok((stat, tags)) ==> set_entry(path, Ok(value)) == Ok::<
            (Seq<char>, Contribution),
            Fault,
        >((stat, Contribution { value, tags })),
        path_parsed(path) matches Err(fault) ==> set_entry(path, Ok(value)) == Err::<(Seq<char>, Contribution), Fault>(
            Fault::Parse(fault),
        ),
{
}

// -- instant effects --------------------------------------------------------

/// A step is for the stat of its path, which has no tags. A fault in its path
/// goes before one in its value.
pub proof fn law_steps_hold_what_was_given(role: Seq<char>, path: Seq<char>, op: InstantOp, value: Amount)
    ensures
        match effect_step(role, path, op, Ok(value)) {
            Ok(step) => step.role == role && step.op == op && step.value == value && (path_parsed(path) matches Ok(
                (stat, tags),
            ) && tags.len() == 0 && step.stat == stat),
            Err(Fault::Parse(fault)) => path_parsed(path) == Err::<(Seq<char>, Seq<Seq<char>>), SyntaxFault>(fault),
            Err(Fault::InvalidPath(shown, reason)) => shown == path && reason
                == "instant effects write base values, which are untagged"@ && (path_parsed(path) matches Ok((_, tags))
                && tags.len() > 0),
            Err(_) => false,
        },
        forall|fault: Fault| #[trigger]
            effect_step(role, path, op, Err(fault)) == (match effect_step(role, path, op, Ok(value)) {
                Ok(_) => Err::<Step, Fault>(fault),
                Err(first) => Err(first),
            }),
{
}

/// Whether a step can be evaluated: its role is bound and the tags in its value
/// are registered.
pub open spec fn evaluable(s: State, roles: Map<Seq<char>, Entity>, step: Step) -> bool {
    &&& roles.contains_key(step.role)
    &&& step.value matches Amount::Expression(_, term) ==> filters_known(s.tags.tags, refs(term))
}

/// Whether the value of a step is an expression, and `name` is the first tag in
/// its filters that is not registered.
pub open spec fn step_misses(s: State, step: Step, name: Seq<char>) -> bool {
    step.value matches Amount::Expression(_, term) && first_missing_in(s.tags.tags, refs(term), name)
}

proof fn lemma_step(s: State, roles: Map<Seq<char>, Entity>, step: Step)
    ensures
        step_fault(s, roles, step) is None <==> evaluable(s, roles, step),
        !roles.contains_key(step.role) ==> step_fault(s, roles, step) == Some(Fault::UnknownRole(step.role)),
        step_fault(s, roles, step) matches Some(fault) ==> (roles.contains_key(step.role) ==> (
        fault matches Fault::UnknownTag(name) && step_misses(s, step, name))),
{
    if let Amount::Expression(_, term) = step.value {
        lemma_filters_known(s.tags.tags, refs(term));
    }
}

/// An effect can be evaluated exactly where all of its steps can; else it is
/// refused with the fault of the first step that cannot: the role that is not
/// bound, or the first tag in its value that is not registered.
pub proof fn law_effects_are_owed(s: State, roles: Map<Seq<char>, Entity>, steps: Seq<Step>)
    ensures
        effect_fault(s, roles, steps) is None <==> forall|i: int|
            0 <= i < steps.len() ==> evaluable(s, roles, #[trigger] steps[i]),
        effect_fault(s, roles, steps) matches Some(fault) ==> exists|i: int|
            0 <= i < steps.len() && !evaluable(s, roles, #[trigger] steps[i]) && (forall|j: int|
                0 <= j < i ==> evaluable(s, roles, #[trigger] steps[j])) && (if roles.contains_key(steps[i].role) {
                fault matches Fault::UnknownTag(name) && step_misses(s, steps[i], name)
            } else {
                fault == Fault::UnknownRole(steps[i].role)
            }),
    decreases steps.len(),
{
    if steps.len() > 0 {
        let rest = steps.drop_last();
        let last = steps.len() - 1;
        law_effects_are_owed(s, roles, rest);
        lemma_step(s, roles, steps.last());
        assert(steps[last] == steps.last());
        match effect_fault(s, roles, rest) {
            Some(fault) => {
                let i = choose|i: int|
                    0 <= i < rest.len() && !evaluable(s, roles, #[trigger] rest[i]) && (forall|j: int|
                        0 <= j < i ==> evaluable(s, roles, #[trigger] rest[j])) && (if roles.contains_key(
                        rest[i].role,
                    ) {
                        fault matches Fault::UnknownTag(name) && step_misses(s, rest[i], name)
                    } else {
                        fault == Fault::UnknownRole(rest[i].role)
                    });
                assert(steps[i] == rest[i]);
                assert forall|j: int| 0 <= j < i implies evaluable(s, roles, #[trigger] steps[j]) by {
                    assert(steps[j] == rest[j]);
                }
            },
            None => {
                assert forall|j: int| 0 <= j < last implies evaluable(s, roles, #[trigger] steps[j]) by {
                    assert(steps[j] == rest[j]);
                }
            },
        }
    }
}

/// An expression can be evaluated exactly where the tags in its filters are
/// registered; else the first that is not is named.
pub proof fn law_evaluations_are_owed<A: Arithmetic>(
    host: A,
    s: State,
    entity: Entity,
    roles: Map<Seq<char>, Entity>,
    term: Term,
    r: Result<Scalar, Fault>,
)
    requires
        evaluated(host, s, entity, roles, term, r),
    ensures
        r is Ok <==> filters_known(s.tags.tags, refs(term)),
        r matches Err(fault) ==> (fault matches Fault::UnknownTag(name) && first_missing_in(
            s.tags.tags,
            refs(term),
            name,
        )),
{
    lemma_filters_known(s.tags.tags, refs(term));
}

// -- sources ----------------------------------------------------------------

/// Whether a fault says what stands at position `p`: a token that does not fit
/// is the one there, the end is where no token is, a function that there is not
/// is called there, and an empty filter ends there.
pub open spec fn fits(kind: FaultKind, ts: Seq<Placed>, p: int) -> bool {
    match kind {
        FaultKind::UnexpectedToken(text) => 0 <= p < ts.len() && text == token_text(ts[p].0),
        FaultKind::UnexpectedEnd => p == ts.len(),
        FaultKind::UnknownFunction(name) => 0 <= p && p + 1 < ts.len() && ts[p].0 == Token::Ident(name) && ts[p + 1].0
            == Token::Sym(Symbol::LParen) && forall|f: Func| name != #[trigger] called(f),
        FaultKind::WrongArity(name, expected, n) => 0 <= p && p + 1 < ts.len() && ts[p].0 == Token::Ident(name) && ts[p
            + 1].0 == Token::Sym(Symbol::LParen) && exists|f: Func|
            name == #[trigger] called(f) && match f {
                Func::Min | Func::Max => n < 2 && expected == "2 or more"@,
                Func::Clamp => n != 3 && expected == "exactly 3"@,
                _ => n != 1 && expected == "exactly 1"@,
            },
        FaultKind::Empty => 0 < p < ts.len() && ts[p].0 == Token::Sym(Symbol::RBrace) && ts[p - 1].0 == Token::Sym(
            Symbol::LBrace,
        ),
        _ => false,
    }
}

proof fn lemma_not_called(name: Seq<char>)
    ensures
        func_named(name) is None ==> forall|f: Func| name != #[trigger] called(f),
        func_named(name) matches Some(f) ==> name == called(f),
{
    assert forall|f: Func| #[trigger] called(f) == name implies func_named(name) == Some(f) by {
        crate::grammar::lemma_called(f, name);
    }
    if let Some(f) = func_named(name) {
        crate::grammar::lemma_called(f, name);
    }
}

proof fn lemma_dotted_fault(ts: Seq<Placed>, p: int, name: Seq<char>)
    requires
        0 <= p <= ts.len(),
    ensures
        dotted(ts, p, name) matches Parse::Fail(kind, q) ==> fits(kind, ts, q),
    decreases ts.len() - p,
{
    if sym(ts, p, Symbol::Dot) {
        if let Some(Token::Ident(segment)) = tok(ts, p + 1) {
            lemma_dotted_fault(ts, p + 2, name.push('.') + segment);
        }
    }
}

proof fn lemma_tags_fault(ts: Seq<Placed>, p: int, tags: Seq<Seq<char>>)
    requires
        0 < p <= ts.len(),
        tags.len() == 0 ==> ts[p - 1].0 == Token::Sym(Symbol::LBrace),
    ensures
        tag_list(ts, p, tags) matches Parse::Fail(kind, q) ==> fits(kind, ts, q),
    decreases ts.len() - p,
{
    if let Some(Token::Ident(tag)) = tok(ts, p) {
        if sym(ts, p + 1, Symbol::Comma) || sym(ts, p + 1, Symbol::Pipe) {
            lemma_tags_fault(ts, p + 2, tags.push(tag));
        }
    }
}

proof fn lemma_reference_fault(ts: Seq<Placed>, p: int, first: Seq<char>)
    requires
        0 <= p <= ts.len(),
    ensures
        reference(ts, p, first) matches Parse::Fail(kind, q) ==> fits(kind, ts, q),
{
    lemma_dotted(ts, p, first);
    lemma_dotted_fault(ts, p, first);
    if let Parse::Done(_, q) = dotted(ts, p, first) {
        if sym(ts, q, Symbol::At) {
            if let Some(Token::Ident(segment)) = tok(ts, q + 1) {
                lemma_dotted(ts, q + 2, segment);
                lemma_dotted_fault(ts, q + 2, segment);
                if let Parse::Done(_, r) = dotted(ts, q + 2, segment) {
                    if sym(ts, r, Symbol::LBrace) {
                        lemma_tags_fault(ts, r + 1, Seq::empty());
                    }
                }
            }
        } else if sym(ts, q, Symbol::LBrace) {
            lemma_tags_fault(ts, q + 1, Seq::empty());
        }
    }
}

proof fn lemma_expression_fault(ts: Seq<Placed>, p: int, least: int)
    requires
        0 <= p <= ts.len(),
    ensures
        expression(ts, p, least) matches Parse::Fail(kind, q) ==> fits(kind, ts, q),
    decreases ts.len() - p, 3int,
{
    lemma_prefixed(ts, p);
    lemma_prefixed_fault(ts, p);
    if let Parse::Done(lhs, q) = prefixed(ts, p) {
        lemma_infixes_fault(ts, q, least, lhs);
    }
}

proof fn lemma_infixes_fault(ts: Seq<Placed>, p: int, least: int, lhs: Term)
    requires
        0 <= p <= ts.len(),
    ensures
        infixes(ts, p, least, lhs) matches Parse::Fail(kind, q) ==> fits(kind, ts, q),
    decreases ts.len() - p, 0int,
{
    if let Some((op, power)) = infix_at(ts, p, least) {
        lemma_progress(ts, p + 1, power);
        lemma_expression_fault(ts, p + 1, power);
        if let Parse::Done(rhs, q) = expression(ts, p + 1, power) {
            lemma_infixes_fault(ts, q, least, Formula::Binary(op, Box::new(lhs), Box::new(rhs)));
        }
    }
}

proof fn lemma_prefixed_fault(ts: Seq<Placed>, p: int)
    requires
        0 <= p <= ts.len(),
    ensures
        prefixed(ts, p) matches Parse::Fail(kind, q) ==> fits(kind, ts, q),
    decreases ts.len() - p, 2int,
{
    if sym(ts, p, Symbol::Minus) || sym(ts, p, Symbol::Bang) {
        lemma_expression_fault(ts, p + 1, 7);
    } else {
        lemma_primary_fault(ts, p);
    }
}

proof fn lemma_primary_fault(ts: Seq<Placed>, p: int)
    requires
        0 <= p <= ts.len(),
    ensures
        primary(ts, p) matches Parse::Fail(kind, q) ==> fits(kind, ts, q),
    decreases ts.len() - p, 1int,
{
    match tok(ts, p) {
        Some(Token::Num(_)) => {},
        Some(Token::Ident(first)) => {
            if sym(ts, p + 1, Symbol::LParen) {
                lemma_not_called(first);
                if let Some(f) = func_named(first) {
                    lemma_call_fault(ts, p, f);
                }
            } else {
                lemma_reference_fault(ts, p + 1, first);
            }
        },
        _ => {
            if sym(ts, p, Symbol::LParen) {
                lemma_progress(ts, p + 1, 0);
                lemma_expression_fault(ts, p + 1, 0);
            }
        },
    }
}

proof fn lemma_call_fault(ts: Seq<Placed>, p: int, f: Func)
    requires
        0 <= p,
        p + 2 <= ts.len(),
        ts[p].0 == Token::Ident(called(f)),
        ts[p + 1].0 == Token::Sym(Symbol::LParen),
    ensures
        call(ts, p, f) matches Parse::Fail(kind, q) ==> fits(kind, ts, q),
    decreases ts.len() - p, 0int,
{
    crate::grammar::lemma_called(f, called(f));
    crate::tree::law_function_names_lead_back(f);
    crate::grammar::lemma_called(f, crate::tree::func_name(f));
    if !sym(ts, p + 2, Symbol::RParen) {
        lemma_arguments(ts, p + 2, Seq::empty());
        lemma_arguments_fault(ts, p + 2, Seq::empty());
    }
}

proof fn lemma_arguments_fault(ts: Seq<Placed>, p: int, args: Seq<Term>)
    requires
        0 <= p <= ts.len(),
    ensures
        arguments(ts, p, args) matches Parse::Fail(kind, q) ==> fits(kind, ts, q),
    decreases ts.len() - p, 4int,
{
    lemma_progress(ts, p, 0);
    lemma_expression_fault(ts, p, 0);
    if let Parse::Done(e, q) = expression(ts, p, 0) {
        if sym(ts, q, Symbol::Comma) {
            lemma_arguments_fault(ts, q + 1, args.push(e));
        }
    }
}

/// The offset of a position: where its token starts, or the end of the source.
pub open spec fn offset_of(src: Seq<char>, ts: Seq<Placed>, p: int) -> int {
    if p < ts.len() {
        ts[p].1
    } else {
        encode_utf8(src).len() as int
    }
}

/// A source whose tokens do not spell an expression is refused with a fault that
/// says what stands at the offset that it gives: what does not fit, that more is
/// expected at the end, a function that there is not or that is given too few or
/// too many arguments, an empty filter, or the first token that is too many. An
/// empty source is refused as such.
pub proof fn law_faults_say_what_stands_there(src: Seq<char>, ts: Seq<Placed>, fault: SyntaxFault)
    requires
        lexed(encode_utf8(src), 0) matches Ok(found) && found == ts,
        parsed(src) == Err::<Term, SyntaxFault>(fault),
    ensures
        fault.src == src,
        ts.len() == 0 ==> fault.kind == FaultKind::Empty && fault.offset == encode_utf8(src).len(),
        ts.len() > 0 ==> exists|p: int|
            0 <= p <= ts.len() && fault.offset == #[trigger] offset_of(src, ts, p) && (fits(fault.kind, ts, p)
                || fault.kind == FaultKind::TrailingInput && 0 < p < ts.len() && exists|t: Term| #[trigger]
                crate::grammar::spells(t, ts, 0, p, 0, true)),
{
    if ts.len() > 0 {
        lemma_progress(ts, 0, 0);
        lemma_expression_fault(ts, 0, 0);
        match expression(ts, 0, 0) {
            Parse::Fail(kind, p) => {
                assert(fault.offset == offset_of(src, ts, p));
            },
            Parse::Done(t, p) => {
                crate::grammar::lemma_expression_read(ts, 0, 0);
                assert(crate::grammar::spells(t, ts, 0, p, 0, true));
                assert(fault.offset == offset_of(src, ts, p));
            },
        }
    }
}

/// A source that cannot be split into tokens is refused where the first piece
/// starts that is none, as a number with two dots or with the character there.
pub proof fn law_faults_in_tokens_come_first(src: Seq<char>, kind: FaultKind, offset: int)
    requires
        lexed(encode_utf8(src), 0) matches Err(found) && found == (kind, offset),
    ensures
        parsed(src) == Err::<Term, SyntaxFault>(SyntaxFault { kind, offset, src }),
        path_parsed(src) == Err::<(Seq<char>, Seq<Seq<char>>), SyntaxFault>(SyntaxFault { kind, offset, src }),
        kind is InvalidNumber || kind is UnexpectedChar,
{
    lemma_lexing_faults(encode_utf8(src), 0);
}

proof fn lemma_lexing_faults(bytes: Seq<u8>, i: int)
    requires
        0 <= i <= bytes.len(),
    ensures
        lexed(bytes, i) matches Err((kind, offset)) ==> kind is InvalidNumber || kind is UnexpectedChar,
    decreases bytes.len() - i,
{
    if i < bytes.len() {
        if crate::lexer::blank(bytes[i]) {
            lemma_lexing_faults(bytes, i + 1);
        } else {
            crate::lexer::lemma_token_end(bytes, i);
            if let Ok((_, end)) = crate::lexer::token_at(bytes, i) {
                lemma_lexing_faults(bytes, end);
            }
        }
    }
}

} // verus!
