//! The vocabulary of a parse trace: the events written to the log and the
//! outcome recorded for every attempt.

use vstd::prelude::*;

verus! {

/// One entry of the event log.
///
/// `Start` opens an attempt of rule `kind` at input offset `position`;
/// `clause_id` is 0 for the call of the rule itself and 1, 2, ... for its
/// alternatives. `Consume` records a matched literal. `Commit` and `Abort`
/// close the innermost open attempt as succeeded or failed.
#[derive(Debug)]
pub enum Event {
    Start { kind: u16, clause_id: u16, position: usize },
    Consume { text: String },
    Commit,
    Abort,
}

/// The mathematical value of an [`Event`]: the same variants, with the text of
/// a literal as a sequence of characters.
pub ghost enum EventView {
    Start { kind: u16, clause_id: u16, position: usize },
    Consume { text: Seq<char> },
    Commit,
    Abort,
}

impl View for Event {
    type V = EventView;

    open spec fn view(&self) -> EventView {
        match self {
            Event::Start { kind, clause_id, position } => EventView::Start {
                kind: *kind,
                clause_id: *clause_id,
                position: *position,
            },
            Event::Consume { text } => EventView::Consume { text: text@ },
            Event::Commit => EventView::Commit,
            Event::Abort => EventView::Abort,
        }
    }
}

/// The state of one attempt, by log indices: where its `Start` event stands
/// and, once it has ended, where its `Commit` or `Abort` stands.
#[derive(Debug, Clone, Copy)]
pub enum ParseResult {
    Running { start_log_index: usize },
    Success { start_log_index: usize, end_log_index: usize },
    Failure { start_log_index: usize, end_log_index: usize },
}

impl ParseResult {
    /// The log index of the attempt's `Start` event.
    pub open spec fn start(self) -> usize {
        match self {
            ParseResult::Running { start_log_index } => start_log_index,
            ParseResult::Success { start_log_index, .. } => start_log_index,
            ParseResult::Failure { start_log_index, .. } => start_log_index,
        }
    }

    /// The log index of the attempt's `Start` event.
    pub fn start_log_index(&self) -> (index: usize)
        ensures
            index == self.start(),
    {
        match self {
            ParseResult::Running { start_log_index } => *start_log_index,
            ParseResult::Success { start_log_index, .. } => *start_log_index,
            ParseResult::Failure { start_log_index, .. } => *start_log_index,
        }
    }
}

} // verus!
