//! What holds of every parse, whatever the grammar: the laws that tie the
//! log, the table, the input and the tree together.

use vstd::prelude::*;
use vstd::string::StringSliceAdditionalSpecFns;
use crate::emitter::{attempt_recorded, began, ended, Emitter};
use crate::event::{EventView, ParseResult};
use crate::input::{attempt_logged, Input};
use crate::rule::{traced, Language, Parser};
use crate::steps::{token_bytes, Step};
use crate::trace::{
    balanced, closed_within, end_of, lemma_balanced_closes_all, lemma_starts_closed,
    lemma_tree_of_balanced, open_attempts, tree_steps,
};
use crate::tree::{is_call, latest_call_before};

verus! {

/// The log only grows: after a step, the log before the step is still there,
/// and the step wrote as many `Commit` and `Abort` events as `Start` events.
pub proof fn lemma_step_keeps_log(before: Emitter, after: Emitter)
    requires
        after.grows_from(before),
    ensures
        before.events().len() <= after.events().len(),
        after.events().subrange(0, before.events().len() as int) == before.events(),
        open_attempts(
            after.events().subrange(before.events().len() as int, after.events().len() as int),
        ) == 0,
{
    lemma_balanced_closes_all(
        after.events(),
        after.table(),
        before.events().len() as int,
        after.events().len() as int,
    );
    assert(after.events().subrange(0, before.events().len() as int) =~= before.events());
}

/// A step leaves no attempt open: every `Start` that the step wrote has its
/// `Commit` or `Abort` later in the log, at the index that the table gives as
/// the end of the attempt.
pub proof fn lemma_step_closes_attempts(before: Emitter, after: Emitter, i: int)
    requires
        after.grows_from(before),
        before.events().len() <= i < after.events().len(),
        after.events()[i] is Start,
    ensures
        closed_within(after.events(), after.table(), i, after.events().len() as int),
{
    lemma_starts_closed(
        after.events(),
        after.table(),
        before.events().len() as int,
        after.events().len() as int,
        i,
    );
}

/// Parsing a text twice gives the same result and the same tree, as far as
/// the rule does: take a rule whose body is a function of its arguments, so
/// that, called twice on the same cursor and on emitters with the same log
/// and table, it returns the same result and leaves the same cursor, log and
/// table. Then two results of `run` on the same text agree in whether the
/// text matches, in the log, in the table and in the tree.
pub proof fn lemma_run_deterministic<P: Parser>(
    text: &str,
    matched1: bool,
    emitter1: Emitter,
    matched2: bool,
    emitter2: Emitter,
)
    requires
        forall|
            cursor1: &mut Input<'_>,
            inner1: &mut Emitter,
            done1: bool,
            cursor2: &mut Input<'_>,
            inner2: &mut Emitter,
            done2: bool,
        |
            {
                &&& #[trigger] call_ensures(P::parse, (cursor1, inner1), done1)
                &&& #[trigger] call_ensures(P::parse, (cursor2, inner2), done2)
                &&& *cursor1 == *cursor2
                &&& inner1.events() == inner2.events()
                &&& inner1.table() == inner2.table()
            } ==> {
                &&& done1 == done2
                &&& *final(cursor1) == *final(cursor2)
                &&& final(inner1).events() == final(inner2).events()
                &&& final(inner1).table() == final(inner2).table()
            },
        exists|cursor: &mut Input<'_>, inner: &mut Emitter|
            {
                &&& #[trigger] call_ensures(
                    P::parse,
                    (cursor, inner),
                    emitter1.table()[0] is Success,
                )
                &&& *cursor == Input::at_start(text)
                &&& began(
                    Seq::empty(),
                    Map::empty(),
                    *inner,
                    EventView::Start { kind: P::KIND, clause_id: 0, position: 0 },
                )
                &&& ended(*final(inner), emitter1, 0, emitter1.table()[0] is Success)
                &&& matched1 <==> emitter1.table()[0] is Success && final(cursor).pos()
                    == text.spec_bytes().len()
            },
        exists|cursor: &mut Input<'_>, inner: &mut Emitter|
            {
                &&& #[trigger] call_ensures(
                    P::parse,
                    (cursor, inner),
                    emitter2.table()[0] is Success,
                )
                &&& *cursor == Input::at_start(text)
                &&& began(
                    Seq::empty(),
                    Map::empty(),
                    *inner,
                    EventView::Start { kind: P::KIND, clause_id: 0, position: 0 },
                )
                &&& ended(*final(inner), emitter2, 0, emitter2.table()[0] is Success)
                &&& matched2 <==> emitter2.table()[0] is Success && final(cursor).pos()
                    == text.spec_bytes().len()
            },
    ensures
        matched1 == matched2,
        emitter1.events() == emitter2.events(),
        emitter1.table() == emitter2.table(),
        emitter1.has_tree(P::KIND, 0) == emitter2.has_tree(P::KIND, 0),
        emitter1.tree(P::KIND, P::Language::TOKEN, 0) == emitter2.tree(
            P::KIND,
            P::Language::TOKEN,
            0,
        ),
{
}

/// The tree is a function of the trace: two emitters with the same log and
/// the same table have a tree for the same calls, and the same tree.
pub proof fn lemma_same_trace_same_tree(
    first: Emitter,
    second: Emitter,
    kind: u16,
    token_kind: u16,
    position: usize,
)
    requires
        first.events() == second.events(),
        first.table() == second.table(),
    ensures
        first.has_tree(kind, position) == second.has_tree(kind, position),
        first.tree(kind, token_kind, position) == second.tree(kind, token_kind, position),
{
}

/// After a rule call has returned, it is the latest call of its rule at its
/// position, whatever calls of the same rule at the same position it made
/// itself.
pub proof fn lemma_call_is_latest(
    before: Emitter,
    after: Emitter,
    kind: u16,
    position: usize,
    ok: bool,
)
    requires
        before.wf(),
        after.wf(),
        after.grows_from(before),
        attempt_logged(
            before.events().len() as int,
            after,
            EventView::Start { kind, clause_id: 0, position },
            ok,
        ),
    ensures
        after.latest_call(kind, position) == Some(before.events().len() as usize),
{
    lemma_call_is_latest_before(before, after, kind, position, ok, after.events().len() as int);
}

proof fn lemma_call_is_latest_before(
    before: Emitter,
    after: Emitter,
    kind: u16,
    position: usize,
    ok: bool,
    n: int,
)
    requires
        before.wf(),
        after.wf(),
        after.grows_from(before),
        attempt_logged(
            before.events().len() as int,
            after,
            EventView::Start { kind, clause_id: 0, position },
            ok,
        ),
        0 <= n <= after.events().len(),
    ensures
        n <= before.events().len() ==> (latest_call_before(
            after.events(),
            after.table(),
            kind,
            position,
            n,
        ) matches Some(i) ==> i < n && before.table().contains_key(i)),
        n > before.events().len() ==> latest_call_before(
            after.events(),
            after.table(),
            kind,
            position,
            n,
        ) == Some(before.events().len() as usize),
    decreases n,
{
    let log = after.events();
    let table = after.table();
    let first = before.events().len() as int;
    if n > 0 {
        lemma_call_is_latest_before(before, after, kind, position, ok, n - 1);
        let earlier = latest_call_before(log, table, kind, position, n - 1);
        let i = (n - 1) as usize;
        if n <= first {
            if is_call(log[n - 1], kind, position) {
                assert(before.events()[n - 1] == log[n - 1]);
                assert(before.table().contains_key(i));
            }
        } else if n == first + 1 {
            if earlier is Some {
                let e = earlier->0;
                assert(attempt_recorded(before.events(), before.table(), e));
                assert(table[e] == before.table()[e]);
            }
        } else {
            if table.contains_key(i) {
                assert(attempt_recorded(log, table, i));
            }
        }
    }
}

/// The leaves of the tree spell the input that the call read. After a
/// successful call of a rule, the call has a tree, and the text of its
/// leaves, in order, is the input between the position where the call
/// started and the position where it ended.
pub proof fn lemma_tree_spells_input(
    input0: Input<'_>,
    before: Emitter,
    input1: Input<'_>,
    after: Emitter,
    kind: u16,
    token_kind: u16,
)
    requires
        before.wf(),
        traced(input0, before, input1, after),
        attempt_logged(
            before.events().len() as int,
            after,
            EventView::Start { kind, clause_id: 0, position: input0.pos() },
            true,
        ),
    ensures
        after.has_tree(kind, input0.pos()),
        token_bytes(after.tree(kind, token_kind, input0.pos())) == input0.text().subrange(
            input0.pos() as int,
            input1.pos() as int,
        ),
{
    lemma_call_is_latest(before, after, kind, input0.pos(), true);
    lemma_tree_of_balanced(
        after.events(),
        after.table(),
        before.events().len() as int,
        after.events().len() as int,
        token_kind,
    );
}

/// Alternatives leave no mark on the tree. Every node of what a balanced
/// stretch stands for carries the tag of a rule whose call, a `Start` with
/// clause number 0 in the stretch, succeeded; and every leaf carries the
/// token tag and the text of a literal of the stretch.
pub proof fn lemma_tree_tags(
    log: Seq<EventView>,
    table: Map<usize, ParseResult>,
    lo: int,
    hi: int,
    token_kind: u16,
    j: int,
)
    requires
        balanced(log, table, lo, hi),
        0 <= j < tree_steps(log, table, lo, hi, token_kind).len(),
    ensures
        match tree_steps(log, table, lo, hi, token_kind)[j] {
            Step::Open { kind } => exists|i: int|
                lo <= i < hi && #[trigger] log[i] is Start && log[i]->kind == kind
                    && log[i]->clause_id == 0 && table.contains_key(i as usize)
                    && table[i as usize] is Success,
            Step::Token { kind, text } => kind == token_kind && exists|i: int|
                lo <= i < hi && #[trigger] log[i] == (EventView::Consume { text }),
            Step::Close => true,
        },
    decreases hi - lo,
{
    let k = token_kind;
    if lo < hi {
        if log[lo] is Consume {
            if j == 0 {
                assert(log[lo] == (EventView::Consume { text: log[lo]->text }));
            } else {
                lemma_tree_tags(log, table, lo + 1, hi, k, j - 1);
            }
        } else {
            let end = end_of(table[lo as usize]);
            let inner = tree_steps(log, table, lo + 1, end, k);
            if table[lo as usize] is Failure {
                lemma_tree_tags(log, table, end + 1, hi, k, j);
            } else if log[lo]->clause_id == 0 {
                if j == 0 {
                    assert(log[lo] is Start);
                } else if j <= inner.len() {
                    lemma_tree_tags(log, table, lo + 1, end, k, j - 1);
                } else if j > inner.len() + 1 {
                    lemma_tree_tags(log, table, end + 1, hi, k, j - inner.len() - 2);
                }
            } else {
                if j < inner.len() {
                    lemma_tree_tags(log, table, lo + 1, end, k, j);
                } else {
                    lemma_tree_tags(log, table, end + 1, hi, k, j - inner.len());
                }
            }
        }
    }
}

} // verus!
