//! A dependency-graph attribute/stat system for games.
//!
//! Define interconnected stats (strength, health, damage, resistances, ...) as
//! declarative relationships instead of hand-written update code. Change one
//! value and everything derived from it, on the same entity or across linked
//! entities, recomputes automatically, exactly once, in dependency order.
//! Reads are cached; writes touch only what actually depends on them.
//!
//! # How it fits together
//!
//! Stats are string-keyed and hierarchical by a dot convention (`Damage`,
//! `Damage.added`, `Damage.increased`). Each stat combines a replaceable
//! *base* value and any number of *modifiers* with a [`Reduction`]. Modifier
//! expressions reference other stats, on the same entity or across entities
//! through named links, and those references form a dependency graph. Writes
//! recompute exactly the affected subgraph, once per stat, in dependency
//! order; reads are cache hits.
//!
//! Nothing game-specific is formalized in the type system: "equipment" is a
//! [`ModifierCollection`], "a buff" is an applied [`ModifierSet`], "an attack"
//! is an [`InstantEffect`]. Build a game's typed vocabulary on top of the
//! string-keyed core.
//!
//! # What is proved
//!
//! - [`parser`] and [`lexer`] state the expression language as a grammar, and
//!   [`eval`] what an expression and a stat come to.
//! - [`names`] proves that stat paths read back as they were written, and
//!   [`parens`] that parentheses around a source change nothing.
//! - [`state`] says what each operation of [`StatsMutator`] does to the state
//!   of a graph; the operations are proved to do that.
//! - [`schedule`] and [`recompute`] carry a change on to what depends on it.
//! - [`coherence`] proves that cached values are never stale, [`exact`] that
//!   caching is not observable, and [`laws`] how the operations go together;
//!   [`transfer`] holds the argument behind the first. [`history`] puts them
//!   together for every state that operations lead to.
//! - [`tokens`] says which tokens a source is made of, and [`grammar`] which
//!   expressions they spell; both are proved to be what is read. [`meaning`]
//!   says what an expression or a stat comes to, in terms of its parts and of
//!   bit patterns.
//! - [`writes`] says what an operation leaves behind, in terms of its inputs and
//!   of what the state holds before and after, [`changes`] what it recomputes
//!   and reports, and [`faults`] when it is refused, and with what. [`labels`]
//!   does so for tags, tag lists, field attributes and messages.
//!
//! Stat values are single-precision numbers held as bit patterns (see
//! [`scalar`]); the rounding arithmetic is asked of an [`Arithmetic`] that the
//! embedding program supplies. Entities are numbers that it assigns.

pub mod access;
pub mod attach;
pub mod changes;
pub mod coherence;
pub mod effect;
pub mod entity;
pub mod error;
pub mod eval;
pub mod exact;
pub mod expr;
pub mod faults;
pub mod grammar;
pub mod graph;
pub mod history;
pub mod labels;
pub mod laws;
pub mod lexer;
pub mod meaning;
pub mod modifier;
pub mod names;
pub mod parens;
pub mod parser;
pub mod recompute;
pub mod require;
pub mod scalar;
pub mod schedule;
pub mod state;
pub mod stats;
pub mod sync;
pub mod table;
pub mod tags;
pub mod text;
pub mod tokens;
pub mod transfer;
pub mod tree;
pub mod world;
pub mod writes;

pub use access::{DirtyStats, ModifierIdGen, StatChanged, StatsMutator, StatsReader};
pub use attach::{Attachments, ModifierCollection};
pub use effect::{InstantEffect, InstantOp, InstantOutcome, Roles};
pub use entity::Entity;
pub use error::{ParseError, ParseErrorKind, StatError};
pub use expr::Expression;
pub use graph::{Dependent, StatGraph};
pub use modifier::{AppliedModifiers, IntoModifierValue, Modifier, ModifierHandle, ModifierSet, ModifierValue};
pub use parser::StatRef;
pub use require::Requirement;
pub use scalar::{Arithmetic, Scalar};
pub use stats::{Reduction, StatConfig, Stats};
pub use sync::{StatField, StatsSyncSet, SyncPlan};
pub use tags::{TagRegistry, TagSet};
