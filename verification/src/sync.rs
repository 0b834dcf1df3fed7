//! Two-way synchronization between the fields of ordinary components and the
//! stat graph.
//!
//! Each bound field mirrors one stat. When the component changes, its
//! authoritative (`write`) fields are written into stat base values; when the
//! entity's stats change, all bound fields are refreshed from resolved values.
//! Writing the value that a stat has is a no-op, and refreshing a field
//! changes no value, so the loop neither oscillates nor churns when nothing
//! moved.
//!
//! Which fields are bound, and how, is declared with `#[stat("Name")]` and
//! `#[stat("Name", write)]` attributes; a [`SyncPlan`] collects them.

use crate::access::StatsMutator;
use crate::entity::Entity;
use crate::eval::stat_value;
use crate::parser::path_parsed;
use crate::scalar::{Arithmetic, Scalar};
use crate::state::{base_equals, base_set, remembered, scene_of, set_fault, State};
use crate::world::{node_in, Key, Query};
use vstd::prelude::*;
use vstd::string::StringExecFns;

verus! {

/// The two halves of component synchronization.
/// [`WriteToStats`](StatsSyncSet::WriteToStats) runs before
/// [`ReadFromStats`](StatsSyncSet::ReadFromStats), so same-frame component
/// writes win over stale stat values and immediately round-trip.
#[derive(Clone, Copy, Debug, PartialEq, Eq, Hash, Structural)]
pub enum StatsSyncSet {
    /// Changed components write their authoritative fields into stats.
    WriteToStats,
    /// Components on entities with changed stats refresh their fields.
    ReadFromStats,
}

/// A component field that mirrors a stat.
#[derive(Debug)]
pub struct StatField {
    /// The name of the field.
    pub field: String,
    /// The stat it mirrors.
    pub stat: String,
    /// Whether the component is authoritative.
    pub write: bool,
}

/// What a [`StatField`] says.
pub struct Mirror {
    pub field: Seq<char>,
    pub stat: Seq<char>,
    pub write: bool,
}

impl View for StatField {
    type V = Mirror;

    open spec fn view(&self) -> Mirror {
        Mirror { field: self.field@, stat: self.stat@, write: self.write }
    }
}

/// What a list of fields says.
pub open spec fn mirror_list(list: Seq<StatField>) -> Seq<Mirror> {
    list.map_values(|f: StatField| f@)
}

/// What a type that asks for synchronization is declared as.
#[derive(Clone, Copy, Debug, PartialEq, Eq, Structural)]
pub enum Shape {
    /// A struct with named fields.
    Named,
    /// A struct without named fields.
    Unnamed,
    /// Something other than a struct.
    Other,
}

/// Whether an option of a `#[stat]` attribute makes its field authoritative;
/// or none, if there is no such option.
pub open spec fn option_meaning(option: Seq<char>) -> Option<bool> {
    if option == "write"@ {
        Some(true)
    } else if option == "read"@ {
        Some(false)
    } else {
        None
    }
}

/// What is wrong with an option that there is not.
pub open spec fn option_message(option: Seq<char>) -> Seq<char> {
    "unknown `#[stat]` option `"@ + option + "`; expected `write`"@
}

/// What is wrong with the shape of a type.
pub open spec fn shape_message(shape: Shape) -> Option<Seq<char>> {
    match shape {
        Shape::Named => None,
        Shape::Unnamed => Some("`StatSync` requires named fields"@),
        Shape::Other => Some("`StatSync` can only be derived for structs"@),
    }
}

/// Whether one of the options makes a field authoritative.
pub open spec fn any_write(options: Seq<bool>) -> bool {
    exists|i: int| 0 <= i < options.len() && #[trigger] options[i]
}

/// A piece of what stands in the parentheses of a `#[stat]` attribute.
#[derive(Debug)]
pub enum Piece {
    /// A string literal.
    Text(String),
    /// An identifier.
    Word(String),
    /// A comma.
    Comma,
    /// Anything else.
    Other,
}

/// What a [`Piece`] says.
pub enum Part {
    Text(Seq<char>),
    Word(Seq<char>),
    Comma,
    Other,
}

impl View for Piece {
    type V = Part;

    open spec fn view(&self) -> Part {
        match self {
            Piece::Text(text) => Part::Text(text@),
            Piece::Word(word) => Part::Word(word@),
            Piece::Comma => Part::Comma,
            Piece::Other => Part::Other,
        }
    }
}

/// What a list of pieces says.
pub open spec fn part_list(list: Seq<Piece>) -> Seq<Part> {
    list.map_values(|piece: Piece| piece@)
}

/// What is wrong with a `#[stat]` attribute, and at which piece. The place
/// after the last piece is the end of the attribute.
#[derive(Debug)]
pub struct AttributeFault {
    /// The index of the piece.
    pub at: usize,
    /// What is wrong.
    pub message: String,
}

impl View for AttributeFault {
    type V = (int, Seq<char>);

    open spec fn view(&self) -> (int, Seq<char>) {
        (self.at as int, self.message@)
    }
}

/// What is wrong where something else was expected.
pub open spec fn missing_message(parts: Seq<Part>, i: int, expected: Seq<char>) -> Seq<char> {
    if i < parts.len() {
        "expected "@ + expected
    } else {
        "unexpected end of input, expected "@ + expected
    }
}

/// What the options from piece `i` on mean: each is a comma and an
/// identifier, and nothing follows the last.
pub open spec fn options_meaning(parts: Seq<Part>, i: int) -> Result<Seq<bool>, (int, Seq<char>)>
    decreases parts.len() - i,
{
    if i >= parts.len() {
        Ok(Seq::empty())
    } else if parts[i] is Comma {
        if i + 1 < parts.len() && parts[i + 1] is Word {
            let word = parts[i + 1]->Word_0;
            match option_meaning(word) {
                Some(write) => match options_meaning(parts, i + 2) {
                    Ok(rest) => Ok(seq![write] + rest),
                    Err(fault) => Err(fault),
                },
                None => Err((i + 1, option_message(word))),
            }
        } else {
            Err((i + 1, missing_message(parts, i + 1, "identifier"@)))
        }
    } else {
        Err((i, "unexpected token"@))
    }
}

/// What a `#[stat]` attribute means: the stat, and whether each option makes
/// the field authoritative; or its first fault.
pub open spec fn attribute_meaning(parts: Seq<Part>) -> Result<(Seq<char>, Seq<bool>), (int, Seq<char>)> {
    if parts.len() > 0 && parts[0] is Text {
        match options_meaning(parts, 1) {
            Ok(options) => Ok((parts[0]->Text_0, options)),
            Err(fault) => Err(fault),
        }
    } else {
        Err((0, missing_message(parts, 0, "string literal"@)))
    }
}

fn missing(pieces: &Vec<Piece>, at: usize, expected: &str) -> (fault: AttributeFault)
    ensures
        fault@ == (at as int, missing_message(part_list(pieces@), at as int, expected@)),
{
    let mut message = if at < pieces.len() {
        "expected ".to_owned()
    } else {
        "unexpected end of input, expected ".to_owned()
    };
    message.append(expected);
    AttributeFault { at, message }
}

/// Reads what stands in the parentheses of a `#[stat]` attribute: the stat,
/// and whether each option makes the field authoritative.
pub fn stat_attribute(pieces: &Vec<Piece>) -> (r: Result<(String, Vec<bool>), AttributeFault>)
    ensures
        match r {
            Ok((stat, options)) => attribute_meaning(part_list(pieces@)) == Ok::<_, (int, Seq<char>)>(
                (stat@, options@),
            ),
            Err(fault) => attribute_meaning(part_list(pieces@)) == Err::<(Seq<char>, Seq<bool>), _>(fault@),
        },
{
    let ghost parts = part_list(pieces@);
    if pieces.len() == 0 {
        return Err(missing(pieces, 0, "string literal"));
    }
    assert(parts[0] == pieces@[0]@);
    let stat = match &pieces[0] {
        Piece::Text(text) => text.clone(),
        _ => {
            return Err(missing(pieces, 0, "string literal"));
        },
    };
    let mut options: Vec<bool> = Vec::new();
    let mut i: usize = 1;
    assert(options_meaning(parts, 1) matches Ok(rest) ==> options@ + rest =~= rest);
    while i < pieces.len()
        invariant
            1 <= i <= pieces@.len(),
            parts == part_list(pieces@),
            parts[0] == Part::Text(stat@),
            match options_meaning(parts, i as int) {
                Ok(rest) => options_meaning(parts, 1) == Ok::<_, (int, Seq<char>)>(options@ + rest),
                Err(fault) => options_meaning(parts, 1) == Err::<Seq<bool>, _>(fault),
            },
        decreases pieces@.len() - i,
    {
        assert(parts[i as int] == pieces@[i as int]@);
        match &pieces[i] {
            Piece::Comma => {},
            _ => {
                return Err(AttributeFault { at: i, message: "unexpected token".to_owned() });
            },
        }
        if i + 1 == pieces.len() {
            return Err(missing(pieces, i + 1, "identifier"));
        }
        assert(parts[i + 1] == pieces@[i + 1]@);
        match &pieces[i + 1] {
            Piece::Word(word) => match SyncPlan::option(word.as_str()) {
                Ok(write) => {
                    let ghost before = options@;
                    options.push(write);
                    assert(options_meaning(parts, i + 2) matches Ok(rest) ==> options@ + rest =~= before + (seq![
                        write,
                    ] + rest));
                },
                Err(message) => {
                    return Err(AttributeFault { at: i + 1, message });
                },
            },
            _ => {
                return Err(missing(pieces, i + 1, "identifier"));
            },
        }
        i = i + 2;
    }
    assert(options@ + Seq::<bool>::empty() =~= options@);
    Ok((stat, options))
}

/// Collects the bound fields of a component from its declaration.
#[derive(Debug)]
pub struct SyncPlan {
    fields: Vec<StatField>,
}

impl View for SyncPlan {
    type V = Seq<Mirror>;

    closed spec fn view(&self) -> Seq<Mirror> {
        mirror_list(self.fields@)
    }
}

impl SyncPlan {
    /// A plan for a type of this shape, or what is wrong with the shape.
    pub fn new(shape: Shape) -> (r: Result<SyncPlan, &'static str>)
        ensures
            match r {
                Ok(plan) => shape_message(shape) is None && plan@ == Seq::<Mirror>::empty(),
                Err(message) => shape_message(shape) == Some(message@),
            },
    {
        match shape {
            Shape::Named => {
                let plan = SyncPlan { fields: Vec::new() };
                assert(plan@ =~= Seq::empty());
                Ok(plan)
            },
            Shape::Unnamed => Err("`StatSync` requires named fields"),
            Shape::Other => Err("`StatSync` can only be derived for structs"),
        }
    }

    /// Reads an option of a `#[stat]` attribute: whether it makes the field
    /// authoritative, or what is wrong with it.
    pub fn option(option: &str) -> (r: Result<bool, String>)
        ensures
            match r {
                Ok(write) => option_meaning(option@) == Some(write),
                Err(message) => option_meaning(option@) is None && message@ == option_message(option@),
            },
    {
        let name = option.to_owned();
        if name == "write".to_owned() {
            Ok(true)
        } else if name == "read".to_owned() {
            proof {
                reveal_strlit("read");
                reveal_strlit("write");
                assert("read"@.len() != "write"@.len());
            }
            Ok(false)
        } else {
            let mut message = "unknown `#[stat]` option `".to_owned();
            message.append(option);
            message.append("`; expected `write`");
            Err(message)
        }
    }

    /// Adds a field with the options of its `#[stat]` attribute.
    pub fn bind(&mut self, field: &str, stat: &str, options: &Vec<bool>)
        ensures
            final(self)@ == old(self)@.push(
                Mirror { field: field@, stat: stat@, write: any_write(options@) },
            ),
    {
        let mut write = false;
        let mut i: usize = 0;
        while i < options.len()
            invariant
                i <= options@.len(),
                write == exists|k: int| 0 <= k < i && #[trigger] options@[k],
            decreases options@.len() - i,
        {
            if options[i] {
                write = true;
            }
            i = i + 1;
        }
        let bound = StatField { field: field.to_owned(), stat: stat.to_owned(), write };
        self.fields.push(bound);
        assert(self@ =~= old(self)@.push(bound@));
    }

    /// The bound fields, or what is wrong if there are none.
    pub fn finish(self) -> (r: Result<Vec<StatField>, &'static str>)
        ensures
            match r {
                Ok(list) => self@.len() > 0 && mirror_list(list@) == self@,
                Err(message) => self@.len() == 0 && message@
                    == "`StatSync` requires at least one `#[stat(\"Name\")]` field"@,
            },
    {
        if self.fields.len() == 0 {
            Err("`StatSync` requires at least one `#[stat(\"Name\")]` field")
        } else {
            Ok(self.fields)
        }
    }
}

/// `after` is the state with the value of an authoritative field written. A
/// field whose stat cannot be set is passed over.
pub open spec fn field_written<A: Arithmetic>(
    host: A,
    s: State,
    entity: Entity,
    field: Mirror,
    value: Scalar,
    after: State,
) -> bool {
    if field.write && set_fault(s, entity, field.stat) is None {
        path_parsed(field.stat) matches Ok((name, _)) && base_set(host, s, (entity, name), value, after)
    } else {
        after == s
    }
}

/// `after` is the state with the values of the authoritative fields written
/// in turn.
pub open spec fn fields_written<A: Arithmetic>(
    host: A,
    s: State,
    entity: Entity,
    fields: Seq<Mirror>,
    values: Seq<Scalar>,
    after: State,
) -> bool
    decreases fields.len(),
{
    if fields.len() == 0 {
        after == s
    } else {
        exists|mid: State| #[trigger]
            field_written(host, mid, entity, fields.last(), values[fields.len() - 1], after) && fields_written(
                host,
                s,
                entity,
                fields.drop_last(),
                values,
                mid,
            )
    }
}

/// `values` are what the stats of the fields come to, read in turn, and
/// `after` is the state with them cached.
pub open spec fn fields_read<A: Arithmetic>(
    host: A,
    s: State,
    entity: Entity,
    fields: Seq<Mirror>,
    values: Seq<Scalar>,
    after: State,
) -> bool
    decreases fields.len(),
{
    if fields.len() == 0 {
        values.len() == 0 && after == s
    } else {
        exists|mid: State| #[trigger]
            field_read(host, mid, entity, fields.last(), values.last(), after) && values.len() > 0 && fields_read(
                host,
                s,
                entity,
                fields.drop_last(),
                values.drop_last(),
                mid,
            )
    }
}

/// `v` is what the stat of a field comes to, and `after` is the state with it
/// cached.
pub open spec fn field_read<A: Arithmetic>(
    host: A,
    s: State,
    entity: Entity,
    field: Mirror,
    v: Scalar,
    after: State,
) -> bool {
    let q = Query { key: (entity, field.stat), tags: 0 };
    &&& stat_value(scene_of(host, s), Seq::empty(), q, v)
    &&& after == State { world: remembered(s.world, q, v), ..s }
}

impl<A: Arithmetic> StatsMutator<A> {
    /// Writes the values of the authoritative fields into the stat graph.
    pub fn write_fields(&mut self, entity: Entity, fields: &Vec<StatField>, values: &Vec<Scalar>)
        requires
            old(self).wf(),
            values@.len() == fields@.len(),
        ensures
            final(self).wf(),
            final(self).host() == old(self).host(),
            fields_written(
                old(self).host(),
                old(self)@,
                entity,
                mirror_list(fields@),
                values@,
                final(self)@,
            ),
    {
        let ghost all = mirror_list(fields@);
        let mut i: usize = 0;
        assert(all.take(0) =~= Seq::empty());
        while i < fields.len()
            invariant
                i <= fields@.len(),
                values@.len() == fields@.len(),
                all == mirror_list(fields@),
                self.wf(),
                self.host() == old(self).host(),
                fields_written(self.host(), old(self)@, entity, all.take(i as int), values@, self@),
            decreases fields@.len() - i,
        {
            let ghost mid = self@;
            proof {
                assert(all.take(i + 1).drop_last() =~= all.take(i as int));
                assert(all.take(i + 1).last() == fields@[i as int]@);
            }
            if fields[i].write {
                let _ = self.set(entity, fields[i].stat.as_str(), values[i]);
            }
            assert(field_written(self.host(), mid, entity, all.take(i + 1).last(), values@[i as int], self@));
            i = i + 1;
        }
        assert(all.take(i as int) =~= all);
    }

    /// Reads the resolved values of the bound fields.
    pub fn read_fields(&mut self, entity: Entity, fields: &Vec<StatField>) -> (values: Vec<Scalar>)
        requires
            old(self).wf(),
        ensures
            final(self).wf(),
            final(self).host() == old(self).host(),
            values@.len() == fields@.len(),
            fields_read(
                old(self).host(),
                old(self)@,
                entity,
                mirror_list(fields@),
                values@,
                final(self)@,
            ),
    {
        let ghost all = mirror_list(fields@);
        let mut values: Vec<Scalar> = Vec::new();
        let mut i: usize = 0;
        assert(all.take(0) =~= Seq::empty());
        while i < fields.len()
            invariant
                i <= fields@.len(),
                values@.len() == i,
                all == mirror_list(fields@),
                self.wf(),
                self.host() == old(self).host(),
                fields_read(self.host(), old(self)@, entity, all.take(i as int), values@, self@),
            decreases fields@.len() - i,
        {
            let ghost mid = self@;
            let ghost before = values@;
            proof {
                assert(all.take(i + 1).drop_last() =~= all.take(i as int));
                assert(all.take(i + 1).last() == fields@[i as int]@);
            }
            let v = self.get(entity, fields[i].stat.as_str());
            values.push(v);
            assert(values@.drop_last() =~= before);
            assert(field_read(self.host(), mid, entity, all.take(i + 1).last(), values@.last(), self@));
            i = i + 1;
        }
        assert(all.take(i as int) =~= all);
        values
    }
}

/// Writing the values that the stats have changes nothing: nothing is
/// recomputed, and no entity is marked as changed.
pub proof fn law_writing_back_is_quiet<A: Arithmetic>(
    host: A,
    s: State,
    entity: Entity,
    fields: Seq<Mirror>,
    values: Seq<Scalar>,
    after: State,
)
    requires
        forall|i: int|
            0 <= i < fields.len() && (#[trigger] fields[i]).write ==> (path_parsed(fields[i].stat) matches Ok((name, _))
                ==> base_equals(s.world, (entity, name), values[i])),
        fields_written(host, s, entity, fields, values, after),
    ensures
        after == s,
    decreases fields.len(),
{
    if fields.len() > 0 {
        let mid = choose|mid: State| #[trigger]
            field_written(host, mid, entity, fields.last(), values[fields.len() - 1], after) && fields_written(
                host,
                s,
                entity,
                fields.drop_last(),
                values,
                mid,
            );
        let rest = fields.drop_last();
        assert forall|i: int| 0 <= i < rest.len() && (#[trigger] rest[i]).write implies (path_parsed(rest[i].stat)
            matches Ok((name, _)) ==> base_equals(s.world, (entity, name), values[i])) by {
            assert(rest[i] == fields[i]);
        }
        law_writing_back_is_quiet(host, s, entity, rest, values, mid);
        assert(fields.last() == fields[fields.len() - 1]);
    }
}

/// Reading fields changes no stat and marks no entity as changed.
pub proof fn law_reading_fields_is_quiet<A: Arithmetic>(
    host: A,
    s: State,
    entity: Entity,
    fields: Seq<Mirror>,
    values: Seq<Scalar>,
    after: State,
)
    requires
        fields_read(host, s, entity, fields, values, after),
    ensures
        after.dirty == s.dirty,
        after.events == s.events,
        after.world.links == s.world.links,
        forall|k: Key|
            #[trigger] node_in(after.world, k) == node_in(s.world, k),
    decreases fields.len(),
{
    if fields.len() > 0 {
        let mid = choose|mid: State| #[trigger]
            field_read(host, mid, entity, fields.last(), values.last(), after) && values.len() > 0 && fields_read(
                host,
                s,
                entity,
                fields.drop_last(),
                values.drop_last(),
                mid,
            );
        law_reading_fields_is_quiet(host, s, entity, fields.drop_last(), values.drop_last(), mid);
        assert forall|k: Key| #[trigger] node_in(after.world, k) == node_in(s.world, k) by {
            assert(node_in(after.world, k) == node_in(mid.world, k));
        }
    }
}

} // verus!
