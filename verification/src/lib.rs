//! A PEG engine that parses by leaving a trace.
//!
//! A rule is an ordered choice among alternatives; an alternative is a
//! sequence of literals and rule calls. Running a rule builds no tree. Every
//! step is written to an append-only log instead: the start of each attempt,
//! each literal that matched, and the end of each attempt, committed or
//! aborted. A table keeps, for the start of each attempt, how the attempt
//! ended and where. The concrete syntax tree is built afterwards, by a walk
//! over the log that skips what was aborted.
//!
//! - [`Input`] is the cursor: it matches literals, runs alternatives and
//!   calls rules.
//! - [`Emitter`] holds the log and the table, and builds the tree.
//! - [`Parser`] is what a rule of a grammar implements.
//! - [`run`] parses a whole text.
//!
//! The modules `trace`, `steps` and `laws` hold the mathematics: what a
//! well-formed stretch of the log is, what tree it stands for, and what holds
//! of every parse.

pub mod emitter;
pub mod event;
pub mod input;
pub mod laws;
pub mod rule;
pub mod run;
pub mod steps;
pub mod trace;
pub mod tree;

pub use emitter::Emitter;
pub use event::{Event, EventView, ParseResult};
pub use input::Input;
pub use rule::{Language, Parser};
pub use run::run;
