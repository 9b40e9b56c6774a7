//! The recorder of a parse: the append-only event log and the table of
//! outcomes.
//!
//! The table is keyed by the log index of an attempt's `Start` event. Two
//! attempts of one rule at one input position therefore keep an entry each,
//! and whoever replays the log finds for every `Start` the outcome of that
//! very attempt.

use vstd::prelude::*;
use vstd::pervasive::unreached;
use std::collections::HashMap;
use crate::event::{Event, EventView, ParseResult};
use crate::trace::{
    agree_on, balanced, closed_within, closing_event, end_of, lemma_balanced_stable,
};

verus! {

/// The event log and the outcome table of one parse run.
#[derive(Debug)]
pub struct Emitter {
    log: Vec<Event>,
    memo: HashMap<usize, ParseResult>,
}

/// The entry of the attempt that starts at `k` fits the log: it starts at `k`,
/// where the log holds a `Start`, and if it has ended, the log holds its
/// closing event and a balanced stretch in between.
pub open spec fn attempt_recorded(
    log: Seq<EventView>,
    table: Map<usize, ParseResult>,
    k: usize,
) -> bool {
    &&& k < log.len()
    &&& log[k as int] is Start
    &&& table[k].start() == k
    &&& !(table[k] is Running) ==> {
        &&& closed_within(log, table, k as int, log.len() as int)
        &&& balanced(log, table, k + 1, end_of(table[k]))
    }
}

/// Log and table belong together: the table has an entry for every `Start`
/// of the log and for nothing else, and every entry fits the log.
pub open spec fn consistent(log: Seq<EventView>, table: Map<usize, ParseResult>) -> bool {
    &&& log.len() <= usize::MAX
    &&& forall|i: int| 0 <= i < log.len() && log[i] is Start ==> table.contains_key(i as usize)
    &&& forall|k: usize| #[trigger] table.contains_key(k) ==> attempt_recorded(log, table, k)
}

/// Appending to the log, adding entries and ending attempts that were running
/// keeps log and table consistent, as long as the new entries fit.
proof fn lemma_consistent_step(
    log1: Seq<EventView>,
    table1: Map<usize, ParseResult>,
    log2: Seq<EventView>,
    table2: Map<usize, ParseResult>,
)
    requires
        consistent(log1, table1),
        log1.is_prefix_of(log2),
        forall|k: usize| #[trigger]
            table1.contains_key(k) && !(table1[k] is Running) ==> table2.contains_key(k)
                && table2[k] == table1[k],
        forall|i: int| 0 <= i < log2.len() && log2[i] is Start ==> table2.contains_key(i as usize),
        forall|k: usize| #[trigger]
            table2.contains_key(k) && !(table1.contains_key(k) && table1[k] == table2[k])
                ==> attempt_recorded(log2, table2, k),
        log2.len() <= usize::MAX,
    ensures
        consistent(log2, table2),
{
    assert forall|k: usize| #[trigger] table2.contains_key(k) implies attempt_recorded(
        log2,
        table2,
        k,
    ) by {
        if table1.contains_key(k) && table1[k] == table2[k] && !(table1[k] is Running) {
            let end = end_of(table1[k]);
            assert(agree_on(log1, table1, log2, table2, k + 1, end)) by {
                assert forall|i: int|
                    k + 1 <= i < end && #[trigger] table1.contains_key(i as usize) && !(
                    table1[i as usize] is Running) implies table2.contains_key(i as usize)
                    && table2[i as usize] == table1[i as usize] by {}
            }
            lemma_balanced_stable(log1, table1, log2, table2, k + 1, end, 0);
        }
    }
}

impl Default for Emitter {
    /// An emitter with an empty log and an empty table.
    fn default() -> (emitter: Emitter)
        ensures
            emitter.wf(),
            emitter.events() == Seq::<EventView>::empty(),
            emitter.table() == Map::<usize, ParseResult>::empty(),
    {
        let emitter = Emitter { log: Vec::new(), memo: HashMap::new() };
        emitter
    }
}

impl Emitter {
    /// The log, as the sequence of its events.
    pub closed spec fn events(&self) -> Seq<EventView> {
        self.log@.map_values(|e: Event| e@)
    }

    /// The outcome table, from the log index of a `Start` to the outcome of
    /// the attempt that it opened.
    pub closed spec fn table(&self) -> Map<usize, ParseResult> {
        self.memo@
    }

    /// Log and table belong together.
    pub open spec fn wf(&self) -> bool {
        consistent(self.events(), self.table())
    }

    /// `self` is `before` after some complete steps: the log of `before`
    /// followed by a balanced stretch, with every entry of `before` untouched.
    pub open spec fn grows_from(&self, before: Emitter) -> bool {
        &&& before.events().is_prefix_of(self.events())
        &&& forall|k: usize| #[trigger]
            before.table().contains_key(k) ==> self.table().contains_key(k) && self.table()[k]
                == before.table()[k]
        &&& balanced(
            self.events(),
            self.table(),
            before.events().len() as int,
            self.events().len() as int,
        )
    }

    /// The number of events in the log.
    pub fn len(&self) -> (len: usize)
        ensures
            len == self.events().len(),
    {
        self.log.len()
    }

    /// The event at log index `index`, if the log is that long.
    pub fn event(&self, index: usize) -> (event: Option<&Event>)
        ensures
            index < self.events().len() ==> event is Some && event->0@ == self.events()[index as int],
            index >= self.events().len() ==> event is None,
    {
        if index < self.log.len() {
            Some(&self.log[index])
        } else {
            None
        }
    }

    /// The outcome recorded for the attempt whose `Start` event stands at log
    /// index `start`, if there is such an attempt.
    pub fn outcome(&self, start: usize) -> (outcome: Option<ParseResult>)
        ensures
            outcome == if self.table().contains_key(start) {
                Some(self.table()[start])
            } else {
                None::<ParseResult>
            },
    {
        broadcast use vstd::std_specs::hash::group_hash_axioms;

        match self.memo.get(&start) {
            Some(outcome) => Some(*outcome),
            None => None,
        }
    }

    /// Appends `event` to the log.
    fn push(&mut self, event: Event)
        ensures
            final(self).events() == old(self).events().push(event@),
            final(self).events().len() <= usize::MAX,
            final(self).table() == old(self).table(),
    {
        self.log.push(event);
        assert(self.log.len() == self.log@.len());
    }

    /// Records a matched literal.
    pub(crate) fn consumed(&mut self, text: &str)
        requires
            old(self).wf(),
        ensures
            final(self).wf(),
            final(self).events() == old(self).events().push(EventView::Consume { text: text@ }),
            final(self).table() == old(self).table(),
    {
        self.push(Event::Consume { text: text.to_owned() });
        proof {
            lemma_consistent_step(
                old(self).events(),
                old(self).table(),
                self.events(),
                self.table(),
            );
        }
    }

    /// Opens an attempt of rule `kind`, alternative `clause_id`, at input
    /// offset `position`, and returns the log index of its `Start` event.
    pub(crate) fn start(&mut self, kind: u16, clause_id: u16, position: usize) -> (index: usize)
        requires
            old(self).wf(),
        ensures
            final(self).wf(),
            index == old(self).events().len(),
            began(
                old(self).events(),
                old(self).table(),
                *final(self),
                EventView::Start { kind, clause_id, position },
            ),
    {
        broadcast use vstd::std_specs::hash::group_hash_axioms;

        let start_log_index = self.log.len();
        self.memo.insert(start_log_index, ParseResult::Running { start_log_index });
        self.push(Event::Start { kind, clause_id, position });
        proof {
            lemma_consistent_step(
                old(self).events(),
                old(self).table(),
                self.events(),
                self.table(),
            );
        }
        start_log_index
    }

    /// Ends the attempt that started at log index `start` as succeeded.
    pub(crate) fn commit(&mut self, start: usize)
        requires
            old(self).wf(),
            old(self).table().contains_key(start),
            old(self).table()[start] is Running,
            balanced(
                old(self).events(),
                old(self).table(),
                start + 1,
                old(self).events().len() as int,
            ),
        ensures
            final(self).wf(),
            ended(*old(self), *final(self), start, true),
    {
        broadcast use vstd::std_specs::hash::group_hash_axioms;

        let end_log_index = self.log.len();
        let start_log_index = match self.memo.get(&start) {
            Some(running) => running.start_log_index(),
            None => unreached(),
        };
        self.memo.insert(start, ParseResult::Success { start_log_index, end_log_index });
        self.push(Event::Commit);
        proof {
            lemma_consistent_end(
                old(self).events(),
                old(self).table(),
                self.events(),
                self.table(),
                start,
            );
        }
    }

    /// Ends the attempt that started at log index `start` as failed.
    pub(crate) fn abort(&mut self, start: usize)
        requires
            old(self).wf(),
            old(self).table().contains_key(start),
            old(self).table()[start] is Running,
            balanced(
                old(self).events(),
                old(self).table(),
                start + 1,
                old(self).events().len() as int,
            ),
        ensures
            final(self).wf(),
            ended(*old(self), *final(self), start, false),
    {
        broadcast use vstd::std_specs::hash::group_hash_axioms;

        let end_log_index = self.log.len();
        let start_log_index = match self.memo.get(&start) {
            Some(running) => running.start_log_index(),
            None => unreached(),
        };
        self.memo.insert(start, ParseResult::Failure { start_log_index, end_log_index });
        self.push(Event::Abort);
        proof {
            lemma_consistent_end(
                old(self).events(),
                old(self).table(),
                self.events(),
                self.table(),
                start,
            );
        }
    }
}

/// `inner` holds `log` and `table` with one more attempt opened: `opening`
/// appended to the log, and the attempt in the table as running.
pub open spec fn began(
    log: Seq<EventView>,
    table: Map<usize, ParseResult>,
    inner: Emitter,
    opening: EventView,
) -> bool {
    &&& inner.events() == log.push(opening)
    &&& inner.table() == table.insert(
        log.len() as usize,
        ParseResult::Running { start_log_index: log.len() as usize },
    )
}

/// The outcome of an attempt that started at `start` and ended at `end`.
pub open spec fn outcome_of(start: usize, end: usize, ok: bool) -> ParseResult {
    if ok {
        ParseResult::Success { start_log_index: start, end_log_index: end }
    } else {
        ParseResult::Failure { start_log_index: start, end_log_index: end }
    }
}

/// `after` is `body` with the attempt that started at `start` ended: `Commit`
/// or `Abort` appended to the log, and the outcome in the table.
pub open spec fn ended(body: Emitter, after: Emitter, start: usize, ok: bool) -> bool {
    &&& after.events() == body.events().push(
        if ok {
            EventView::Commit
        } else {
            EventView::Abort
        },
    )
    &&& after.table() == body.table().insert(
        start,
        outcome_of(start, body.events().len() as usize, ok),
    )
}

/// Ending a running attempt whose interior is balanced keeps log and table
/// consistent.
proof fn lemma_consistent_end(
    log1: Seq<EventView>,
    table1: Map<usize, ParseResult>,
    log2: Seq<EventView>,
    table2: Map<usize, ParseResult>,
    start: usize,
)
    requires
        consistent(log1, table1),
        table1.contains_key(start),
        table1[start] is Running,
        balanced(log1, table1, start + 1, log1.len() as int),
        log2.len() == log1.len() + 1,
        log2.len() <= usize::MAX,
        log1.is_prefix_of(log2),
        table2.contains_key(start),
        !(table2[start] is Running),
        table2 == table1.insert(start, table2[start]),
        table2[start].start() == start,
        end_of(table2[start]) == log1.len(),
        log2[log1.len() as int] == closing_event(table2[start]),
    ensures
        consistent(log2, table2),
{
    lemma_balanced_stable(log1, table1, log2, table2, start + 1, log1.len() as int, 0);
    assert forall|i: int| 0 <= i < log2.len() && log2[i] is Start implies table2.contains_key(
        i as usize,
    ) by {
        if i < log1.len() {
            assert(log2[i] == log1[i]);
        }
    }
    lemma_consistent_step(log1, table1, log2, table2);
}

} // verus!
