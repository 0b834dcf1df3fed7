//! Typed errors produced by the stat system.

use crate::entity::Entity;
use crate::text::{decimal, decimal_text};
use vstd::prelude::*;
use vstd::string::StringExecFns;

verus! {

/// Any error produced by the stat system.
#[derive(Debug, Clone, PartialEq)]
pub enum StatError {
    /// An expression, stat path, or tag list failed to parse.
    Parse(ParseError),
    /// A tag name was referenced but never registered in the
    /// [`TagRegistry`](crate::TagRegistry).
    UnknownTag(String),
    /// More than 64 distinct leaf tags were registered.
    TagCapacity {
        /// The tag whose registration exceeded the capacity.
        tag: String,
    },
    /// The entity does not carry stats.
    NoStats(Entity),
    /// A [`ModifierHandle`](crate::ModifierHandle) did not correspond to a
    /// live modifier on the given stat.
    UnknownModifier {
        /// The stat the removal was attempted on.
        stat: String,
    },
    /// An effect referenced a role that was not provided in the
    /// [`Roles`](crate::Roles) map.
    UnknownRole(String),
    /// A stat path had invalid structure (for example, a tag filter passed to
    /// an API that does not accept one).
    InvalidPath {
        /// The offending path.
        path: String,
        /// Human-readable reason the path was rejected.
        reason: &'static str,
    },
}

/// A syntax error in an expression, stat path, or tag list.
#[derive(Debug, Clone, PartialEq)]
pub struct ParseError {
    /// What went wrong.
    pub kind: ParseErrorKind,
    /// Byte offset into the source string where the error occurred.
    pub offset: usize,
    /// The source text being parsed.
    pub src: String,
}

/// The specific kind of [`ParseError`].
#[derive(Debug, Clone, PartialEq)]
pub enum ParseErrorKind {
    /// A character that cannot start any token.
    UnexpectedChar(char),
    /// A numeric literal that failed to parse.
    InvalidNumber,
    /// A token that is not valid at this position, as written.
    UnexpectedToken(String),
    /// The source ended while more input was expected.
    UnexpectedEnd,
    /// A call to a function the expression language does not define.
    UnknownFunction(String),
    /// A known function called with the wrong number of arguments.
    WrongArity {
        /// The function name.
        function: &'static str,
        /// Human-readable description of the accepted arity.
        expected: &'static str,
        /// The number of arguments found.
        found: usize,
    },
    /// The whole source parsed but trailing input remained.
    TrailingInput,
    /// An empty expression, path, or tag filter.
    Empty,
}

/// What a [`StatError`] says.
pub enum Fault {
    Parse(SyntaxFault),
    UnknownTag(Seq<char>),
    TagCapacity(Seq<char>),
    NoStats(Entity),
    UnknownModifier(Seq<char>),
    UnknownRole(Seq<char>),
    InvalidPath(Seq<char>, Seq<char>),
}

/// What a [`ParseError`] says.
pub struct SyntaxFault {
    pub kind: FaultKind,
    pub offset: int,
    pub src: Seq<char>,
}

/// What a [`ParseErrorKind`] says.
pub enum FaultKind {
    UnexpectedChar(char),
    InvalidNumber,
    UnexpectedToken(Seq<char>),
    UnexpectedEnd,
    UnknownFunction(Seq<char>),
    WrongArity(Seq<char>, Seq<char>, int),
    TrailingInput,
    Empty,
}

impl View for ParseErrorKind {
    type V = FaultKind;

    open spec fn view(&self) -> FaultKind {
        match self {
            ParseErrorKind::UnexpectedChar(c) => FaultKind::UnexpectedChar(*c),
            ParseErrorKind::InvalidNumber => FaultKind::InvalidNumber,
            ParseErrorKind::UnexpectedToken(t) => FaultKind::UnexpectedToken(t@),
            ParseErrorKind::UnexpectedEnd => FaultKind::UnexpectedEnd,
            ParseErrorKind::UnknownFunction(name) => FaultKind::UnknownFunction(name@),
            ParseErrorKind::WrongArity { function, expected, found } => FaultKind::WrongArity(
                function@,
                expected@,
                *found as int,
            ),
            ParseErrorKind::TrailingInput => FaultKind::TrailingInput,
            ParseErrorKind::Empty => FaultKind::Empty,
        }
    }
}

impl View for ParseError {
    type V = SyntaxFault;

    open spec fn view(&self) -> SyntaxFault {
        SyntaxFault { kind: self.kind@, offset: self.offset as int, src: self.src@ }
    }
}

impl View for StatError {
    type V = Fault;

    open spec fn view(&self) -> Fault {
        match self {
            StatError::Parse(e) => Fault::Parse(e@),
            StatError::UnknownTag(tag) => Fault::UnknownTag(tag@),
            StatError::TagCapacity { tag } => Fault::TagCapacity(tag@),
            StatError::NoStats(entity) => Fault::NoStats(*entity),
            StatError::UnknownModifier { stat } => Fault::UnknownModifier(stat@),
            StatError::UnknownRole(role) => Fault::UnknownRole(role@),
            StatError::InvalidPath { path, reason } => Fault::InvalidPath(path@, reason@),
        }
    }
}

impl From<ParseError> for StatError {
    fn from(value: ParseError) -> (e: StatError) {
        StatError::Parse(value)
    }
}

impl vstd::std_specs::convert::FromSpecImpl<ParseError> for StatError {
    open spec fn obeys_from_spec() -> bool {
        true
    }

    open spec fn from_spec(value: ParseError) -> StatError {
        StatError::Parse(value)
    }
}

/// The message of a kind of syntax error.
pub open spec fn kind_message(kind: FaultKind) -> Seq<char> {
    match kind {
        FaultKind::UnexpectedChar(c) => "unexpected character `"@ + seq![c] + "`"@,
        FaultKind::InvalidNumber => "invalid numeric literal"@,
        FaultKind::UnexpectedToken(t) => "unexpected token `"@ + t + "`"@,
        FaultKind::UnexpectedEnd => "unexpected end of input"@,
        FaultKind::UnknownFunction(name) => "unknown function `"@ + name + "`"@,
        FaultKind::WrongArity(function, expected, found) => "function `"@ + function + "` expects "@ + expected
            + " argument(s), found "@ + decimal(found as nat),
        FaultKind::TrailingInput => "unexpected trailing input"@,
        FaultKind::Empty => "empty input"@,
    }
}

/// The message of a syntax error.
pub open spec fn syntax_message(fault: SyntaxFault) -> Seq<char> {
    kind_message(fault.kind) + " at offset "@ + decimal(fault.offset as nat) + " in `"@ + fault.src + "`"@
}

/// The message of an error; `entity` is the name of the entity it speaks of.
pub open spec fn fault_message(fault: Fault, entity: Seq<char>) -> Seq<char> {
    match fault {
        Fault::Parse(e) => "parse error: "@ + syntax_message(e),
        Fault::UnknownTag(tag) => "unknown tag `"@ + tag + "` (not registered)"@,
        Fault::TagCapacity(tag) => "cannot register tag `"@ + tag + "`: 64-tag capacity exceeded"@,
        Fault::NoStats(_) => "entity "@ + entity + " has no `Stats` component"@,
        Fault::UnknownModifier(stat) => "no such modifier on stat `"@ + stat + "`"@,
        Fault::UnknownRole(role) => "no entity bound to role `"@ + role + "`"@,
        Fault::InvalidPath(path, reason) => "invalid stat path `"@ + path + "`: "@ + reason,
    }
}

/// A text between two others.
fn wrapped(before: &str, text: &str, after: &str) -> (message: String)
    ensures
        message@ == before@ + text@ + after@,
{
    let mut message = before.to_owned();
    message.append(text);
    message.append(after);
    message
}

impl ParseErrorKind {
    /// What went wrong, in words.
    fn message(&self) -> (message: String)
        ensures
            message@ == kind_message(self@),
    {
        match self {
            ParseErrorKind::UnexpectedChar(c) => {
                let mut message = "unexpected character `".to_owned();
                message.push(*c);
                message.append("`");
                assert(message@ =~= kind_message(self@));
                message
            },
            ParseErrorKind::InvalidNumber => "invalid numeric literal".to_owned(),
            ParseErrorKind::UnexpectedToken(t) => wrapped("unexpected token `", t.as_str(), "`"),
            ParseErrorKind::UnexpectedEnd => "unexpected end of input".to_owned(),
            ParseErrorKind::UnknownFunction(name) => wrapped("unknown function `", name.as_str(), "`"),
            ParseErrorKind::WrongArity { function, expected, found } => {
                let mut message = wrapped("function `", function, "` expects ");
                message.append(expected);
                message.append(" argument(s), found ");
                message.append(decimal_text(*found).as_str());
                message
            },
            ParseErrorKind::TrailingInput => "unexpected trailing input".to_owned(),
            ParseErrorKind::Empty => "empty input".to_owned(),
        }
    }
}

impl ParseError {
    /// The error in words.
    pub fn message(&self) -> (message: String)
        ensures
            message@ == syntax_message(self@),
    {
        let mut message = self.kind.message();
        message.append(" at offset ");
        message.append(decimal_text(self.offset).as_str());
        message.append(" in `");
        message.append(self.src.as_str());
        message.append("`");
        message
    }
}

impl StatError {
    /// The error in words. `entity` is how the entity that a
    /// [`NoStats`](StatError::NoStats) error speaks of is written.
    pub fn message(&self, entity: &str) -> (message: String)
        ensures
            message@ == fault_message(self@, entity@),
    {
        match self {
            StatError::Parse(e) => {
                let mut message = "parse error: ".to_owned();
                message.append(e.message().as_str());
                message
            },
            StatError::UnknownTag(tag) => wrapped("unknown tag `", tag.as_str(), "` (not registered)"),
            StatError::TagCapacity { tag } => wrapped(
                "cannot register tag `",
                tag.as_str(),
                "`: 64-tag capacity exceeded",
            ),
            StatError::NoStats(_) => wrapped("entity ", entity, " has no `Stats` component"),
            StatError::UnknownModifier { stat } => wrapped("no such modifier on stat `", stat.as_str(), "`"),
            StatError::UnknownRole(role) => wrapped("no entity bound to role `", role.as_str(), "`"),
            StatError::InvalidPath { path, reason } => {
                let mut message = wrapped("invalid stat path `", path.as_str(), "`: ");
                message.append(reason);
                message
            },
        }
    }
}

} // verus!
