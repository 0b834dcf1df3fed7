//! Modifiers and detachable modifier bundles.

use crate::entity::Entity;
use crate::error::{Fault, StatError};
use crate::expr::Expression;
use crate::parser::{names, parse_stat_path, parsed, path_parsed, Term};
use crate::scalar::Scalar;
use vstd::prelude::*;

verus! {

/// The value a modifier contributes: a flat constant or an expression over
/// other stats.
#[derive(Debug, PartialEq)]
pub enum ModifierValue {
    /// A flat constant.
    Literal(Scalar),
    /// An expression referencing other stats (see [`crate::expr`]).
    Expression(Expression),
}

/// What a [`ModifierValue`] says; of an expression, its source text and what
/// that says.
pub enum Amount {
    Literal(Scalar),
    Expression(Seq<char>, Term),
}

impl View for ModifierValue {
    type V = Amount;

    open spec fn view(&self) -> Amount {
        match self {
            ModifierValue::Literal(v) => Amount::Literal(*v),
            ModifierValue::Expression(e) => Amount::Expression(e.text(), e.term()),
        }
    }
}

/// The value that a source text says, or the fault found in it.
pub open spec fn source_amount(src: Seq<char>) -> Result<Amount, Fault> {
    match parsed(src) {
        Ok(term) => Ok(Amount::Expression(src, term)),
        Err(fault) => Err(Fault::Parse(fault)),
    }
}

impl ModifierValue {
    /// Parses a value from an expression source string.
    pub fn parse(src: &str) -> (r: Result<ModifierValue, StatError>)
        ensures
            match r {
                Ok(value) => source_amount(src@) == Ok::<Amount, Fault>(value@),
                Err(e) => source_amount(src@) == Err::<Amount, Fault>(e@),
            },
    {
        match Expression::parse(src) {
            Ok(e) => Ok(ModifierValue::Expression(e)),
            Err(e) => Err(e),
        }
    }
}

impl From<Expression> for ModifierValue {
    fn from(e: Expression) -> (value: ModifierValue) {
        ModifierValue::Expression(e)
    }
}

impl vstd::std_specs::convert::FromSpecImpl<Expression> for ModifierValue {
    open spec fn obeys_from_spec() -> bool {
        true
    }

    open spec fn from_spec(e: Expression) -> ModifierValue {
        ModifierValue::Expression(e)
    }
}

impl Clone for ModifierValue {
    fn clone(&self) -> (copy: ModifierValue)
        ensures
            copy@ == self@,
    {
        match self {
            ModifierValue::Literal(v) => ModifierValue::Literal(*v),
            ModifierValue::Expression(e) => ModifierValue::Expression(e.clone()),
        }
    }
}

/// Anything that can be turned into a [`ModifierValue`]: expression strings,
/// or already-built values.
///
/// String conversions parse the expression and surface syntax errors from the
/// calling API.
pub trait IntoModifierValue: Sized {
    /// What the conversion gives.
    spec fn amount(self) -> Result<Amount, Fault>;

    /// Performs the conversion.
    fn into_modifier_value(self) -> (r: Result<ModifierValue, StatError>)
        ensures
            match r {
                Ok(value) => self.amount() == Ok::<Amount, Fault>(value@),
                Err(e) => self.amount() == Err::<Amount, Fault>(e@),
            },
    ;
}

impl IntoModifierValue for ModifierValue {
    open spec fn amount(self) -> Result<Amount, Fault> {
        Ok(self@)
    }

    fn into_modifier_value(self) -> (r: Result<ModifierValue, StatError>) {
        Ok(self)
    }
}

impl IntoModifierValue for Expression {
    open spec fn amount(self) -> Result<Amount, Fault> {
        Ok(Amount::Expression(self.text(), self.term()))
    }

    fn into_modifier_value(self) -> (r: Result<ModifierValue, StatError>) {
        Ok(ModifierValue::Expression(self))
    }
}

impl IntoModifierValue for &str {
    open spec fn amount(self) -> Result<Amount, Fault> {
        source_amount(self@)
    }

    fn into_modifier_value(self) -> (r: Result<ModifierValue, StatError>) {
        ModifierValue::parse(self)
    }
}

impl IntoModifierValue for String {
    open spec fn amount(self) -> Result<Amount, Fault> {
        source_amount(self@)
    }

    fn into_modifier_value(self) -> (r: Result<ModifierValue, StatError>) {
        ModifierValue::parse(self.as_str())
    }
}

/// A single modifier: a value plus the tag names it is inserted under.
///
/// Tag names are resolved against the [`TagRegistry`](crate::TagRegistry)
/// when the modifier is applied to an entity, so a `Modifier` can be built
/// anywhere without access to one.
#[derive(Debug, PartialEq)]
pub struct Modifier {
    /// The contributed value.
    pub value: ModifierValue,
    /// Tag names this modifier is inserted under. Empty means untagged
    /// (applies to every query).
    pub tags: Vec<String>,
}

/// What a [`Modifier`] says.
pub struct Contribution {
    pub value: Amount,
    pub tags: Seq<Seq<char>>,
}

impl View for Modifier {
    type V = Contribution;

    open spec fn view(&self) -> Contribution {
        Contribution { value: self.value@, tags: names(self.tags@) }
    }
}

impl Clone for Modifier {
    fn clone(&self) -> (copy: Modifier)
        ensures
            copy@ == self@,
    {
        let tags = self.tags.clone();
        assert(names(tags@) =~= names(self.tags@));
        Modifier { value: self.value.clone(), tags }
    }
}

impl Modifier {
    /// A flat constant modifier.
    pub fn literal(v: Scalar) -> (m: Modifier)
        ensures
            m@ == (Contribution { value: Amount::Literal(v), tags: Seq::empty() }),
    {
        let m = Modifier { value: ModifierValue::Literal(v), tags: Vec::new() };
        assert(names(m.tags@) =~= Seq::empty());
        m
    }

    /// An expression modifier. Fails on syntax errors.
    pub fn expr(src: &str) -> (r: Result<Modifier, StatError>)
        ensures
            match r {
                Ok(m) => source_amount(src@) == Ok::<Amount, Fault>(m@.value) && m@.tags == Seq::<Seq<char>>::empty(),
                Err(e) => source_amount(src@) == Err::<Amount, Fault>(e@),
            },
    {
        match ModifierValue::parse(src) {
            Ok(value) => {
                let m = Modifier { value, tags: Vec::new() };
                assert(names(m.tags@) =~= Seq::empty());
                Ok(m)
            },
            Err(e) => Err(e),
        }
    }

    /// Adds a tag name to this modifier.
    #[must_use]
    pub fn with_tag(self, tag: &str) -> (m: Modifier)
        ensures
            m@ == (Contribution { value: self@.value, tags: self@.tags.push(tag@) }),
    {
        let mut m = self;
        let ghost before = names(m.tags@);
        m.tags.push(tag.to_owned());
        assert(names(m.tags@) =~= before.push(tag@));
        m
    }

    /// Adds several tag names to this modifier.
    #[must_use]
    pub fn with_tags(self, tags: &Vec<String>) -> (m: Modifier)
        ensures
            m@ == (Contribution { value: self@.value, tags: self@.tags + names(tags@) }),
    {
        let mut m = self;
        append_names(&mut m.tags, tags);
        m
    }
}

/// Appends copies of `more` to `list`.
pub fn append_names(list: &mut Vec<String>, more: &Vec<String>)
    ensures
        names(final(list)@) == names(old(list)@) + names(more@),
{
    let mut i: usize = 0;
    assert(names(list@) =~= names(old(list)@) + names(more@).take(0));
    while i < more.len()
        invariant
            i <= more@.len(),
            names(list@) == names(old(list)@) + names(more@).take(i as int),
        decreases more@.len() - i,
    {
        let ghost before = names(list@);
        list.push(more[i].clone());
        assert(names(list@) =~= before.push(more@[i as int]@));
        assert(names(list@) =~= names(old(list)@) + names(more@).take(i + 1));
        i = i + 1;
    }
    assert(names(more@).take(i as int) =~= names(more@));
}

/// A portable, detachable bundle of modifiers: the building block for
/// equipment, buffs, enchants, auras, and starting-stat templates.
///
/// A `ModifierSet` is plain data: build it anywhere, then apply it to an
/// entity with [`StatsMutator::apply`](crate::StatsMutator::apply), which
/// returns an [`AppliedModifiers`] receipt that removes exactly what was
/// applied. Or attach it as the [`ModifierCollection`](crate::ModifierCollection) of an item.
///
/// Entry paths may carry tag filters: `"Damage.added{fire}"`.
#[derive(Debug, PartialEq)]
pub struct ModifierSet {
    entries: Vec<(String, Modifier)>,
}

/// What a list of entries says.
pub open spec fn entry_list(entries: Seq<(String, Modifier)>) -> Seq<(Seq<char>, Contribution)> {
    entries.map_values(|e: (String, Modifier)| (e.0@, e.1@))
}

impl View for ModifierSet {
    type V = Seq<(Seq<char>, Contribution)>;

    closed spec fn view(&self) -> Seq<(Seq<char>, Contribution)> {
        entry_list(self.entries@)
    }
}

/// The entry that a path and a value give; a fault in the path comes first.
pub open spec fn set_entry(path: Seq<char>, amount: Result<Amount, Fault>) -> Result<(Seq<char>, Contribution), Fault> {
    match path_parsed(path) {
        Err(fault) => Err(Fault::Parse(fault)),
        Ok((stat, tags)) => match amount {
            Err(fault) => Err(fault),
            Ok(value) => Ok((stat, Contribution { value, tags })),
        },
    }
}

impl ModifierSet {
    /// An empty set.
    pub fn new() -> (set: ModifierSet)
        ensures
            set@ == Seq::<(Seq<char>, Contribution)>::empty(),
    {
        let set = ModifierSet { entries: Vec::new() };
        assert(set@ =~= Seq::empty());
        set
    }

    /// Adds a modifier for `path` (optionally tag-filtered, e.g.
    /// `"Damage.added{fire}"`), which has to be free of syntax errors, and so
    /// has the value. Use [`try_with`](Self::try_with) to handle errors.
    #[must_use]
    pub fn with<V: IntoModifierValue>(self, path: &str, value: V) -> (set: ModifierSet)
        requires
            set_entry(path@, value.amount()) is Ok,
        ensures
            set_entry(path@, value.amount()) matches Ok(entry) && set@ == self@.push(entry),
    {
        match self.try_with(path, value) {
            Ok(set) => set,
            Err(e) => {
                assert(false);
                ModifierSet::new()
            },
        }
    }

    /// Fallible version of [`with`](Self::with).
    pub fn try_with<V: IntoModifierValue>(self, path: &str, value: V) -> (r: Result<ModifierSet, StatError>)
        ensures
            match r {
                Ok(set) => set_entry(path@, value.amount()) matches Ok(entry) && set@ == self@.push(entry),
                Err(e) => set_entry(path@, value.amount()) == Err::<(Seq<char>, Contribution), Fault>(e@),
            },
    {
        let mut set = self;
        match set.try_add(path, value) {
            Ok(_) => Ok(set),
            Err(e) => Err(e),
        }
    }

    /// Adds a modifier in place. See [`with`](Self::with).
    pub fn try_add<V: IntoModifierValue>(&mut self, path: &str, value: V) -> (r: Result<(), StatError>)
        ensures
            match r {
                Ok(_) => set_entry(path@, value.amount()) matches Ok(entry) && final(self)@ == old(self)@.push(entry),
                Err(e) => {
                    &&& set_entry(path@, value.amount()) == Err::<(Seq<char>, Contribution), Fault>(e@)
                    &&& final(self)@ == old(self)@
                },
            },
    {
        let (stat, tags) = match parse_stat_path(path) {
            Ok(found) => found,
            Err(e) => {
                return Err(StatError::Parse(e));
            },
        };
        match value.into_modifier_value() {
            Ok(value) => {
                self.entries.push((stat, Modifier { value, tags }));
                assert(self@ =~= old(self)@.push((stat@, Contribution { value: value@, tags: names(tags@) })));
                Ok(())
            },
            Err(e) => Err(e),
        }
    }

    /// Adds an explicit [`Modifier`] under `path` (tags in the path and on
    /// the modifier are unioned).
    pub fn add_modifier(&mut self, path: &str, modifier: Modifier) -> (r: Result<(), StatError>)
        ensures
            match r {
                Ok(_) => path_parsed(path@) matches Ok((stat, tags)) && final(self)@ == old(self)@.push(
                    (stat, Contribution { value: modifier@.value, tags: tags + modifier@.tags }),
                ),
                Err(e) => {
                    &&& path_parsed(path@) matches Err(fault) && e@ == Fault::Parse(fault)
                    &&& final(self)@ == old(self)@
                },
            },
    {
        let (stat, found) = match parse_stat_path(path) {
            Ok(found) => found,
            Err(e) => {
                return Err(StatError::Parse(e));
            },
        };
        let mut tags = found;
        append_names(&mut tags, &modifier.tags);
        let joined = Modifier { value: modifier.value, tags };
        self.entries.push((stat, joined));
        assert(self@ =~= old(self)@.push((stat@, joined@)));
        Ok(())
    }

    /// The `(stat, modifier)` entries in the set.
    pub fn entries(&self) -> (list: &Vec<(String, Modifier)>)
        ensures
            entry_list(list@) == self@,
    {
        &self.entries
    }

    /// Whether the set contains no modifiers.
    pub fn is_empty(&self) -> (r: bool)
        ensures
            r == (self@.len() == 0),
    {
        self.entries.len() == 0
    }

    /// The number of modifiers in the set.
    pub fn len(&self) -> (n: usize)
        ensures
            n == self@.len(),
    {
        self.entries.len()
    }
}

impl Clone for ModifierSet {
    fn clone(&self) -> (copy: ModifierSet)
        ensures
            copy@ == self@,
    {
        let mut entries: Vec<(String, Modifier)> = Vec::new();
        let mut i: usize = 0;
        assert(entry_list(entries@) =~= self@.take(0));
        while i < self.entries.len()
            invariant
                i <= self.entries@.len(),
                self@ == entry_list(self.entries@),
                entry_list(entries@) == self@.take(i as int),
            decreases self.entries@.len() - i,
        {
            let ghost before = entry_list(entries@);
            let entry = (self.entries[i].0.clone(), self.entries[i].1.clone());
            entries.push(entry);
            assert(entry_list(entries@) =~= before.push(self@[i as int]));
            assert(entry_list(entries@) =~= self@.take(i + 1));
            i = i + 1;
        }
        assert(self@.take(i as int) =~= self@);
        ModifierSet { entries }
    }
}

impl Default for ModifierSet {
    fn default() -> (r: ModifierSet)
        ensures
            r@ == Seq::<(Seq<char>, Contribution)>::empty(),
    {
        ModifierSet::new()
    }
}

/// A unique handle to one applied modifier, used to remove it later.
#[derive(Clone, Copy, Debug, PartialEq, Eq, Hash, Structural)]
pub struct ModifierHandle(u64);

impl ModifierHandle {
    /// The number of the modifier.
    pub closed spec fn id(&self) -> u64 {
        self.0
    }

    /// The handle to the modifier of a number.
    pub(crate) fn new(id: u64) -> (handle: ModifierHandle)
        ensures
            handle.id() == id,
    {
        ModifierHandle(id)
    }

    /// The number of the modifier.
    pub(crate) fn number(&self) -> (id: u64)
        ensures
            id == self.id(),
    {
        self.0
    }
}

/// A receipt for an applied [`ModifierSet`]: removing it detaches exactly the
/// modifiers that were applied, leaving everything else intact.
#[derive(Debug)]
pub struct AppliedModifiers {
    /// The entity the set was applied to.
    pub(crate) target: Entity,
    /// The modifiers that were applied, each with its stat.
    pub(crate) handles: Vec<(String, ModifierHandle)>,
}

/// What a list of handles says.
pub open spec fn handle_list(handles: Seq<(String, ModifierHandle)>) -> Seq<(Seq<char>, u64)> {
    handles.map_values(|h: (String, ModifierHandle)| (h.0@, h.1.id()))
}

/// What an [`AppliedModifiers`] says.
pub struct Receipt {
    pub target: Entity,
    pub handles: Seq<(Seq<char>, u64)>,
}

impl View for AppliedModifiers {
    type V = Receipt;

    closed spec fn view(&self) -> Receipt {
        Receipt { target: self.target, handles: handle_list(self.handles@) }
    }
}

impl AppliedModifiers {
    /// A receipt for modifiers applied to `target`.
    pub(crate) fn new(target: Entity, handles: Vec<(String, ModifierHandle)>) -> (receipt: AppliedModifiers)
        ensures
            receipt@ == (Receipt { target, handles: handle_list(handles@) }),
    {
        AppliedModifiers { target, handles }
    }

    /// The modifiers that were applied, each with its stat.
    pub(crate) fn handles(&self) -> (list: &Vec<(String, ModifierHandle)>)
        ensures
            handle_list(list@) == self@.handles,
    {
        &self.handles
    }

    /// The entity the set was applied to.
    pub fn target(&self) -> (target: Entity)
        ensures
            target == self@.target,
    {
        self.target
    }

    /// Whether nothing was applied.
    pub fn is_empty(&self) -> (r: bool)
        ensures
            r == (self@.handles.len() == 0),
    {
        self.handles.len() == 0
    }
}

} // verus!
