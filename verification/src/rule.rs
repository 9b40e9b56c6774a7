//! What a grammar rule owes to the engine.

use vstd::prelude::*;
use crate::emitter::{began, ended, Emitter};
use crate::event::{EventView, ParseResult};
use crate::input::Input;
use crate::trace::{agree_on, lemma_balanced_concat, lemma_balanced_stable, surviving};

verus! {

/// The text that the cursor read on its way from `input0` to `input1` is
/// exactly what the stretch of the log written on the way keeps: `after` is
/// `before` grown by a balanced stretch whose surviving literals spell the
/// input between the two positions.
pub open spec fn traced(input0: Input<'_>, before: Emitter, input1: Input<'_>, after: Emitter) -> bool {
    &&& input1.wf()
    &&& after.wf()
    &&& after.grows_from(before)
    &&& input1.text() == input0.text()
    &&& input0.pos() <= input1.pos()
    &&& surviving(
        after.events(),
        after.table(),
        before.events().len() as int,
        after.events().len() as int,
    ) == input0.text().subrange(input0.pos() as int, input1.pos() as int)
}

/// What the body of an alternative owes: whether it succeeds or fails, it
/// leaves a consistent emitter grown by a balanced stretch and a cursor over
/// the same text; if it succeeds, the stretch keeps exactly the text read.
pub open spec fn attempted(
    input0: Input<'_>,
    before: Emitter,
    input1: Input<'_>,
    after: Emitter,
    ok: bool,
) -> bool {
    &&& input1.wf()
    &&& after.wf()
    &&& after.grows_from(before)
    &&& input1.text() == input0.text()
    &&& ok ==> traced(input0, before, input1, after)
}

/// Growth goes on: an emitter that grew from one that grew from `first` grew
/// from `first`, and what the whole new stretch keeps is what its two parts
/// keep, one after the other.
pub proof fn lemma_grows_then(first: Emitter, second: Emitter, third: Emitter)
    requires
        second.grows_from(first),
        third.grows_from(second),
    ensures
        third.grows_from(first),
        surviving(
            third.events(),
            third.table(),
            first.events().len() as int,
            third.events().len() as int,
        ) == surviving(
            second.events(),
            second.table(),
            first.events().len() as int,
            second.events().len() as int,
        ) + surviving(
            third.events(),
            third.table(),
            second.events().len() as int,
            third.events().len() as int,
        ),
{
    let n0 = first.events().len() as int;
    let n1 = second.events().len() as int;
    let n2 = third.events().len() as int;
    lemma_balanced_stable(
        second.events(),
        second.table(),
        third.events(),
        third.table(),
        n0,
        n1,
        0,
    );
    lemma_balanced_concat(third.events(), third.table(), n0, n1, n2, 0);
}

/// Two steps in a row that each keep the text they read are one step that
/// keeps the text it read.
pub proof fn lemma_traced_then(
    input0: Input<'_>,
    first: Emitter,
    input1: Input<'_>,
    second: Emitter,
    input2: Input<'_>,
    third: Emitter,
)
    requires
        traced(input0, first, input1, second),
        traced(input1, second, input2, third),
    ensures
        traced(input0, first, input2, third),
{
    lemma_grows_then(first, second, third);
    let text = input0.text();
    assert(text.subrange(input0.pos() as int, input1.pos() as int) + text.subrange(
        input1.pos() as int,
        input2.pos() as int,
    ) =~= text.subrange(input0.pos() as int, input2.pos() as int));
}

/// A step that keeps the text it read, followed by the rest of the body of an
/// alternative, is the body of an alternative.
pub proof fn lemma_attempted_then(
    input0: Input<'_>,
    first: Emitter,
    input1: Input<'_>,
    second: Emitter,
    input2: Input<'_>,
    third: Emitter,
    ok: bool,
)
    requires
        traced(input0, first, input1, second),
        attempted(input1, second, input2, third, ok),
    ensures
        attempted(input0, first, input2, third, ok),
{
    lemma_grows_then(first, second, third);
    if ok {
        lemma_traced_then(input0, first, input1, second, input2, third);
    }
}

/// An attempt adds no choice of its own. Take a body that is a function of
/// its arguments: called twice on the same cursor and on emitters with the
/// same log and table, it returns the same result and leaves the same
/// cursor, log and table. Then two runs of an attempt with that body, from
/// the cursor `input0` and from emitters that hold `log` and `table`, return
/// the same result and leave the same cursor, log and table.
///
/// A run of an attempt is given as `Input::clause` and `Input::parse`
/// describe it: the body is called on the cursor and on the emitter with the
/// attempt opened, and the attempt is ended on what the body left; the
/// cursor goes back if `restore` is set and the body failed.
pub proof fn lemma_attempt_deterministic<F: FnOnce(&mut Input<'_>, &mut Emitter) -> bool>(
    body: F,
    opening: EventView,
    restore: bool,
    input0: Input<'_>,
    log: Seq<EventView>,
    table: Map<usize, ParseResult>,
    input1: Input<'_>,
    after1: Emitter,
    ok1: bool,
    input2: Input<'_>,
    after2: Emitter,
    ok2: bool,
)
    requires
        forall|
            cursor1: &mut Input<'_>,
            inner1: &mut Emitter,
            done1: bool,
            cursor2: &mut Input<'_>,
            inner2: &mut Emitter,
            done2: bool,
        |
            {
                &&& #[trigger] call_ensures(body, (cursor1, inner1), done1)
                &&& #[trigger] call_ensures(body, (cursor2, inner2), done2)
                &&& *cursor1 == *cursor2
                &&& inner1.events() == inner2.events()
                &&& inner1.table() == inner2.table()
            } ==> {
                &&& done1 == done2
                &&& *final(cursor1) == *final(cursor2)
                &&& final(inner1).events() == final(inner2).events()
                &&& final(inner1).table() == final(inner2).table()
            },
        exists|cursor: &mut Input<'_>, inner: &mut Emitter|
            {
                &&& #[trigger] call_ensures(body, (cursor, inner), ok1)
                &&& *cursor == input0
                &&& began(log, table, *inner, opening)
                &&& ended(*final(inner), after1, log.len() as usize, ok1)
                &&& input1 == if restore && !ok1 {
                    input0
                } else {
                    *final(cursor)
                }
            },
        exists|cursor: &mut Input<'_>, inner: &mut Emitter|
            {
                &&& #[trigger] call_ensures(body, (cursor, inner), ok2)
                &&& *cursor == input0
                &&& began(log, table, *inner, opening)
                &&& ended(*final(inner), after2, log.len() as usize, ok2)
                &&& input2 == if restore && !ok2 {
                    input0
                } else {
                    *final(cursor)
                }
            },
    ensures
        ok1 == ok2,
        input1 == input2,
        after1.events() == after2.events(),
        after1.table() == after2.table(),
{
}

/// The tags of a grammar: one for each rule, and `TOKEN` for the leaves that
/// hold the matched literals.
pub trait Language {
    const TOKEN: u16;
}

/// A grammar rule: its tag and its body, an ordered choice among alternatives.
pub trait Parser {
    type Language: Language;

    const KIND: u16;

    /// Tries the alternatives of the rule in order at the position of
    /// `input`. The first that succeeds decides: the result is `true` and the
    /// position stands behind what it read. If none succeeds the result is
    /// `false` and the position is where it was.
    fn parse(input: &mut Input<'_>, emitter: &mut Emitter) -> (ok: bool)
        requires
            old(input).wf(),
            old(emitter).wf(),
        ensures
            attempted(*old(input), *old(emitter), *final(input), *final(emitter), ok),
            !ok ==> final(input).pos() == old(input).pos(),
    ;
}

} // verus!
