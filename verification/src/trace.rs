//! The structure of a finished stretch of the log.
//!
//! A stretch `[lo, hi)` of the log is *balanced* when it is a sequence of
//! literals and of complete attempts, each attempt being a `Start`, a balanced
//! interior and the `Commit` or `Abort` that the table records for it. The
//! functions here say what such a stretch contributes to a syntax tree and
//! which input text survives in it.

use vstd::prelude::*;
use vstd::utf8::encode_utf8;
use crate::event::{EventView, ParseResult};
use crate::steps::{
    forest, lemma_forest_concat, lemma_forest_leaf, lemma_forest_node, lemma_steps_concat,
    lemma_steps_single, token_bytes, Step,
};

verus! {

/// Where the attempt recorded as `r` ended, for an attempt that has ended.
pub open spec fn end_of(r: ParseResult) -> int {
    match r {
        ParseResult::Running { .. } => -1,
        ParseResult::Success { end_log_index, .. } => end_log_index as int,
        ParseResult::Failure { end_log_index, .. } => end_log_index as int,
    }
}

/// The event that closes an attempt recorded as `r`.
pub open spec fn closing_event(r: ParseResult) -> EventView {
    match r {
        ParseResult::Failure { .. } => EventView::Abort,
        _ => EventView::Commit,
    }
}

/// The attempt that starts at `lo` has ended before `hi`: the table holds a
/// finished outcome for `lo`, which starts at `lo` and ends at an index
/// between `lo` and `hi` where the log holds the matching closing event.
pub open spec fn closed_within(
    log: Seq<EventView>,
    table: Map<usize, ParseResult>,
    lo: int,
    hi: int,
) -> bool {
    &&& 0 <= lo < hi <= log.len()
    &&& log[lo] is Start
    &&& table.contains_key(lo as usize)
    &&& !(table[lo as usize] is Running)
    &&& table[lo as usize].start() == lo
    &&& lo < end_of(table[lo as usize]) < hi
    &&& log[end_of(table[lo as usize])] == closing_event(table[lo as usize])
}

/// `[lo, hi)` is a sequence of literals and complete attempts.
pub open spec fn balanced(
    log: Seq<EventView>,
    table: Map<usize, ParseResult>,
    lo: int,
    hi: int,
) -> bool
    decreases hi - lo,
{
    if lo >= hi {
        lo == hi
    } else if lo < 0 || hi > log.len() {
        false
    } else if log[lo] is Consume {
        balanced(log, table, lo + 1, hi)
    } else {
        &&& closed_within(log, table, lo, hi)
        &&& balanced(log, table, lo + 1, end_of(table[lo as usize]))
        &&& balanced(log, table, end_of(table[lo as usize]) + 1, hi)
    }
}

/// The builder calls that `[lo, hi)` stands for: a leaf of kind `token_kind`
/// for each literal, a node around the interior of each successful rule call,
/// the bare interior of each successful alternative, and nothing for an
/// attempt that failed.
pub open spec fn tree_steps(
    log: Seq<EventView>,
    table: Map<usize, ParseResult>,
    lo: int,
    hi: int,
    token_kind: u16,
) -> Seq<Step>
    decreases hi - lo,
{
    if lo >= hi || lo < 0 || hi > log.len() {
        Seq::empty()
    } else if log[lo] is Consume {
        seq![Step::Token { kind: token_kind, text: log[lo]->text }] + tree_steps(
            log,
            table,
            lo + 1,
            hi,
            token_kind,
        )
    } else if !closed_within(log, table, lo, hi) {
        Seq::empty()
    } else {
        let end = end_of(table[lo as usize]);
        let inner = tree_steps(log, table, lo + 1, end, token_kind);
        let rest = tree_steps(log, table, end + 1, hi, token_kind);
        if table[lo as usize] is Failure {
            rest
        } else if log[lo]->clause_id == 0 {
            seq![Step::Open { kind: log[lo]->kind }] + inner + seq![Step::Close] + rest
        } else {
            inner + rest
        }
    }
}

/// The input bytes that `[lo, hi)` keeps: the literals of the stretch, in
/// order, without those inside an attempt that failed.
pub open spec fn surviving(
    log: Seq<EventView>,
    table: Map<usize, ParseResult>,
    lo: int,
    hi: int,
) -> Seq<u8>
    decreases hi - lo,
{
    if lo >= hi || lo < 0 || hi > log.len() {
        Seq::empty()
    } else if log[lo] is Consume {
        encode_utf8(log[lo]->text) + surviving(log, table, lo + 1, hi)
    } else if !closed_within(log, table, lo, hi) {
        Seq::empty()
    } else {
        let end = end_of(table[lo as usize]);
        if table[lo as usize] is Failure {
            surviving(log, table, end + 1, hi)
        } else {
            surviving(log, table, lo + 1, end) + surviving(log, table, end + 1, hi)
        }
    }
}

/// `(log2, table2)` holds everything that `(log1, table1)` holds about
/// `[lo, hi)`: the same events, and the same outcome for every attempt that
/// has ended.
pub open spec fn agree_on(
    log1: Seq<EventView>,
    table1: Map<usize, ParseResult>,
    log2: Seq<EventView>,
    table2: Map<usize, ParseResult>,
    lo: int,
    hi: int,
) -> bool {
    &&& hi <= log1.len() ==> hi <= log2.len()
    &&& forall|i: int| lo <= i < hi && i < log1.len() ==> i < log2.len() && log2[i] == log1[i]
    &&& forall|i: int|
        lo <= i < hi && #[trigger] table1.contains_key(i as usize) && !(table1[i as usize]
            is Running) ==> table2.contains_key(i as usize) && table2[i as usize]
            == table1[i as usize]
}

/// What a balanced stretch is and yields depends on nothing outside it.
pub proof fn lemma_balanced_stable(
    log1: Seq<EventView>,
    table1: Map<usize, ParseResult>,
    log2: Seq<EventView>,
    table2: Map<usize, ParseResult>,
    lo: int,
    hi: int,
    token_kind: u16,
)
    requires
        balanced(log1, table1, lo, hi),
        agree_on(log1, table1, log2, table2, lo, hi),
    ensures
        balanced(log2, table2, lo, hi),
        surviving(log2, table2, lo, hi) == surviving(log1, table1, lo, hi),
        tree_steps(log2, table2, lo, hi, token_kind) == tree_steps(
            log1,
            table1,
            lo,
            hi,
            token_kind,
        ),
    decreases hi - lo,
{
    if lo < hi {
        if log1[lo] is Consume {
            lemma_balanced_stable(log1, table1, log2, table2, lo + 1, hi, token_kind);
        } else {
            let end = end_of(table1[lo as usize]);
            lemma_balanced_stable(log1, table1, log2, table2, lo + 1, end, token_kind);
            lemma_balanced_stable(log1, table1, log2, table2, end + 1, hi, token_kind);
        }
    }
}

/// A balanced stretch lies inside the log.
pub proof fn lemma_balanced_bounds(
    log: Seq<EventView>,
    table: Map<usize, ParseResult>,
    lo: int,
    hi: int,
)
    requires
        balanced(log, table, lo, hi),
    ensures
        lo <= hi,
        lo < hi ==> 0 <= lo && hi <= log.len(),
{
}

/// Two balanced stretches side by side are one balanced stretch, which yields
/// what the first yields followed by what the second yields.
pub proof fn lemma_balanced_concat(
    log: Seq<EventView>,
    table: Map<usize, ParseResult>,
    lo: int,
    mid: int,
    hi: int,
    token_kind: u16,
)
    requires
        balanced(log, table, lo, mid),
        balanced(log, table, mid, hi),
    ensures
        balanced(log, table, lo, hi),
        surviving(log, table, lo, hi) == surviving(log, table, lo, mid) + surviving(
            log,
            table,
            mid,
            hi,
        ),
        tree_steps(log, table, lo, hi, token_kind) == tree_steps(log, table, lo, mid, token_kind)
            + tree_steps(log, table, mid, hi, token_kind),
    decreases mid - lo,
{
    let k = token_kind;
    lemma_balanced_bounds(log, table, mid, hi);
    if lo < mid && mid < hi {
        if log[lo] is Consume {
            lemma_balanced_concat(log, table, lo + 1, mid, hi, k);
        } else {
            let end = end_of(table[lo as usize]);
            lemma_balanced_concat(log, table, end + 1, mid, hi, k);
        }
    }
}

/// What a balanced stretch stands for is a sequence of complete nodes and
/// leaves, and the text of its leaves is the text that survives in the
/// stretch.
pub proof fn lemma_tree_of_balanced(
    log: Seq<EventView>,
    table: Map<usize, ParseResult>,
    lo: int,
    hi: int,
    token_kind: u16,
)
    requires
        balanced(log, table, lo, hi),
    ensures
        forest(tree_steps(log, table, lo, hi, token_kind)),
        token_bytes(tree_steps(log, table, lo, hi, token_kind)) == surviving(log, table, lo, hi),
    decreases hi - lo,
{
    let k = token_kind;
    lemma_forest_leaf(k, Seq::empty());
    if lo < hi {
        if log[lo] is Consume {
            let leaf = seq![Step::Token { kind: k, text: log[lo]->text }];
            let rest = tree_steps(log, table, lo + 1, hi, k);
            lemma_tree_of_balanced(log, table, lo + 1, hi, k);
            lemma_forest_leaf(k, log[lo]->text);
            lemma_forest_concat(leaf, rest);
            lemma_steps_concat(leaf, rest);
            lemma_steps_single(leaf[0]);
        } else {
            let end = end_of(table[lo as usize]);
            let inner = tree_steps(log, table, lo + 1, end, k);
            let rest = tree_steps(log, table, end + 1, hi, k);
            lemma_tree_of_balanced(log, table, lo + 1, end, k);
            lemma_tree_of_balanced(log, table, end + 1, hi, k);
            if table[lo as usize] is Success && log[lo]->clause_id == 0 {
                let open = seq![Step::Open { kind: log[lo]->kind }];
                let close = seq![Step::Close];
                lemma_forest_node(log[lo]->kind, inner);
                lemma_forest_concat(open + inner + close, rest);
                lemma_steps_single(open[0]);
                lemma_steps_single(close[0]);
                lemma_steps_concat(open, inner);
                lemma_steps_concat(open + inner, close);
                lemma_steps_concat(open + inner + close, rest);
            } else if table[lo as usize] is Success {
                lemma_forest_concat(inner, rest);
                lemma_steps_concat(inner, rest);
            }
        }
    }
}

/// Every attempt that starts inside a balanced stretch ends inside it: the
/// table holds its outcome, finished, and the log holds its closing event
/// before the end of the stretch.
pub proof fn lemma_starts_closed(
    log: Seq<EventView>,
    table: Map<usize, ParseResult>,
    lo: int,
    hi: int,
    i: int,
)
    requires
        balanced(log, table, lo, hi),
        lo <= i < hi,
        log[i] is Start,
    ensures
        closed_within(log, table, i, hi),
    decreases hi - lo,
{
    if log[lo] is Consume {
        lemma_starts_closed(log, table, lo + 1, hi, i);
    } else {
        let end = end_of(table[lo as usize]);
        if lo < i < end {
            lemma_starts_closed(log, table, lo + 1, end, i);
        } else if end < i {
            lemma_starts_closed(log, table, end + 1, hi, i);
        }
    }
}

/// No closing event ends two attempts: two attempts that start at different
/// places of a balanced stretch end at different places.
pub proof fn lemma_ends_distinct(
    log: Seq<EventView>,
    table: Map<usize, ParseResult>,
    lo: int,
    hi: int,
    i: int,
    j: int,
)
    requires
        balanced(log, table, lo, hi),
        lo <= i < j < hi,
        log[i] is Start,
        log[j] is Start,
    ensures
        end_of(table[i as usize]) != end_of(table[j as usize]),
    decreases hi - lo,
{
    if log[lo] is Consume {
        lemma_ends_distinct(log, table, lo + 1, hi, i, j);
    } else {
        let end = end_of(table[lo as usize]);
        if i == lo {
            if j < end {
                lemma_starts_closed(log, table, lo + 1, end, j);
            } else if j > end {
                lemma_starts_closed(log, table, end + 1, hi, j);
            }
        } else if j < end {
            lemma_ends_distinct(log, table, lo + 1, end, i, j);
        } else if i > end {
            lemma_ends_distinct(log, table, end + 1, hi, i, j);
        } else if i < end && j > end {
            lemma_starts_closed(log, table, lo + 1, end, i);
            lemma_starts_closed(log, table, end + 1, hi, j);
        }
    }
}

/// What one event adds to the number of attempts that are open.
pub open spec fn opening(event: EventView) -> int {
    match event {
        EventView::Start { .. } => 1,
        EventView::Consume { .. } => 0,
        EventView::Commit => -1,
        EventView::Abort => -1,
    }
}

/// The number of `Start` events in `log` less the number of `Commit` and
/// `Abort` events.
pub open spec fn open_attempts(log: Seq<EventView>) -> int
    decreases log.len(),
{
    if log.len() == 0 {
        0
    } else {
        open_attempts(log.drop_last()) + opening(log.last())
    }
}

/// The count of open attempts adds up over a concatenation.
pub proof fn lemma_open_attempts_concat(a: Seq<EventView>, b: Seq<EventView>)
    ensures
        open_attempts(a + b) == open_attempts(a) + open_attempts(b),
    decreases b.len(),
{
    if b.len() > 0 {
        assert((a + b).drop_last() =~= a + b.drop_last());
        lemma_open_attempts_concat(a, b.drop_last());
    }
}

/// A balanced stretch holds as many closing events as `Start` events.
pub proof fn lemma_balanced_closes_all(
    log: Seq<EventView>,
    table: Map<usize, ParseResult>,
    lo: int,
    hi: int,
)
    requires
        balanced(log, table, lo, hi),
        0 <= lo,
        hi <= log.len(),
    ensures
        open_attempts(log.subrange(lo, hi)) == 0,
    decreases hi - lo,
{
    if lo < hi {
        let first = log.subrange(lo, lo + 1);
        assert(open_attempts(first) == open_attempts(first.drop_last()) + opening(first.last()));
        if log[lo] is Consume {
            lemma_balanced_closes_all(log, table, lo + 1, hi);
            lemma_open_attempts_concat(first, log.subrange(lo + 1, hi));
            assert(log.subrange(lo, hi) =~= first + log.subrange(lo + 1, hi));
        } else {
            let end = end_of(table[lo as usize]);
            let last = log.subrange(end, end + 1);
            assert(open_attempts(last) == open_attempts(last.drop_last()) + opening(last.last()));
            lemma_balanced_closes_all(log, table, lo + 1, end);
            lemma_balanced_closes_all(log, table, end + 1, hi);
            let inner = log.subrange(lo + 1, end);
            let rest = log.subrange(end + 1, hi);
            lemma_open_attempts_concat(first, inner);
            lemma_open_attempts_concat(first + inner, last);
            lemma_open_attempts_concat(first + inner + last, rest);
            assert(log.subrange(lo, hi) =~= first + inner + last + rest);
        }
    }
}

} // verus!
