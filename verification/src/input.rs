//! The cursor over the input text and the three steps of a parse: matching a
//! literal, attempting one alternative of a rule, and calling a rule.

use vstd::prelude::*;
use vstd::string::StringSliceAdditionalSpecFns;
use crate::emitter::{attempt_recorded, began, ended, outcome_of, Emitter};
use crate::event::EventView;
use crate::rule::{attempted, traced, Parser};
use crate::trace::{agree_on, balanced, closed_within, lemma_balanced_stable, surviving};

verus! {

/// A position in an input text. Copying an `Input` takes a snapshot of the
/// position; assigning the copy back restores it.
#[derive(Debug, Clone, Copy)]
pub struct Input<'a> {
    input: &'a str,
    position: usize,
}

/// `pattern` stands in `text` at offset `at`.
pub open spec fn matches_at(text: Seq<u8>, at: int, pattern: Seq<u8>) -> bool {
    &&& 0 <= at
    &&& at + pattern.len() <= text.len()
    &&& text.subrange(at, at + pattern.len()) == pattern
}

/// Tells whether `pattern` stands in `text` at offset `at`.
fn starts_with_at(text: &[u8], at: usize, pattern: &[u8]) -> (found: bool)
    ensures
        found == matches_at(text@, at as int, pattern@),
{
    if at > text.len() || pattern.len() > text.len() - at {
        return false;
    }
    let mut i: usize = 0;
    while i < pattern.len()
        invariant
            at + pattern.len() <= text.len(),
            i <= pattern.len(),
            text@.subrange(at as int, at + i) == pattern@.subrange(0, i as int),
        decreases pattern.len() - i,
    {
        if text[at + i] != pattern[i] {
            assert(text@.subrange(at as int, at + pattern.len())[i as int] != pattern@[i as int]);
            return false;
        }
        assert(text@.subrange(at as int, at + i + 1) =~= text@.subrange(at as int, at + i).push(
            text@[at + i],
        ));
        assert(pattern@.subrange(0, i + 1) =~= pattern@.subrange(0, i as int).push(
            pattern@[i as int],
        ));
        i += 1;
    }
    assert(pattern@.subrange(0, pattern.len() as int) =~= pattern@);
    true
}

impl<'a> Input<'a> {
    /// The input text, as its UTF-8 bytes.
    pub closed spec fn text(&self) -> Seq<u8> {
        self.input.spec_bytes()
    }

    /// The offset into the text, in bytes, up to which the input has been read.
    pub closed spec fn pos(&self) -> usize {
        self.position
    }

    /// The position lies inside the text or at its end.
    pub open spec fn wf(&self) -> bool {
        self.pos() <= self.text().len()
    }

    /// The cursor at the start of `input`.
    pub closed spec fn at_start(input: &'a str) -> Self {
        Input { input, position: 0 }
    }

    /// A cursor at the start of `input`.
    pub fn new(input: &'a str) -> (cursor: Self)
        ensures
            cursor == Self::at_start(input),
            cursor.wf(),
            cursor.text() == input.spec_bytes(),
            cursor.pos() == 0,
    {
        Input { input, position: 0 }
    }

    /// The offset into the text, in bytes, up to which the input has been read.
    pub fn position(&self) -> (position: usize)
        ensures
            position == self.pos(),
    {
        self.position
    }

    /// Reads the literal `pattern` if the rest of the input starts with it.
    ///
    /// On a match the position moves past the literal, a `Consume` event goes
    /// to the log, and the result is `true`. Otherwise nothing changes and
    /// the result is `false`.
    pub fn consume(&mut self, pattern: &str, emitter: &mut Emitter) -> (ok: bool)
        requires
            old(self).wf(),
            old(emitter).wf(),
        ensures
            ok == matches_at(old(self).text(), old(self).pos() as int, pattern.spec_bytes()),
            final(self).text() == old(self).text(),
            final(emitter).table() == old(emitter).table(),
            ok ==> final(self).pos() == old(self).pos() + pattern.spec_bytes().len()
                && final(emitter).events() == old(emitter).events().push(
                EventView::Consume { text: pattern@ },
            ),
            !ok ==> final(self).pos() == old(self).pos() && final(emitter).events() == old(
                emitter,
            ).events(),
            traced(*old(self), *old(emitter), *final(self), *final(emitter)),
    {
        let text = self.input.as_bytes();
        if starts_with_at(text, self.position, pattern.as_bytes()) {
            assert(self.position + pattern.len() <= text.len());
            self.position += pattern.len();
            emitter.consumed(pattern);
            proof {
                reveal_with_fuel(balanced, 2);
                reveal_with_fuel(surviving, 2);
            }
            true
        } else {
            assert(old(self).text().subrange(old(self).pos() as int, self.pos() as int)
                =~= Seq::<u8>::empty());
            false
        }
    }

    /// Attempts one alternative of rule `kind`: `parser` is the body of
    /// alternative number `clause_id`, counted from 1.
    ///
    /// The attempt is logged between a `Start` and a `Commit` or `Abort` and
    /// recorded in the table. If the body fails, the position goes back to
    /// where it was before the attempt.
    pub fn clause<F>(
        &mut self,
        emitter: &mut Emitter,
        kind: u16,
        clause_id: u16,
        parser: F,
    ) -> (ok: bool) where F: FnOnce(&mut Input<'_>, &mut Emitter) -> bool
        requires
            old(self).wf(),
            old(emitter).wf(),
            forall|input: &mut Input<'_>, inner: &mut Emitter|
                *input == *old(self) && inner.wf() && began(
                    old(emitter).events(),
                    old(emitter).table(),
                    *inner,
                    EventView::Start { kind, clause_id, position: old(self).pos() },
                ) ==> call_requires(parser, (input, inner)),
            forall|input: &mut Input<'_>, inner: &mut Emitter, done: bool| #[trigger]
                call_ensures(parser, (input, inner), done) ==> attempted(
                    *input,
                    *inner,
                    *final(input),
                    *final(inner),
                    done,
                ),
        ensures
            exists|input: &mut Input<'_>, inner: &mut Emitter|
                {
                    &&& #[trigger] call_ensures(parser, (input, inner), ok)
                    &&& *input == *old(self)
                    &&& began(
                        old(emitter).events(),
                        old(emitter).table(),
                        *inner,
                        EventView::Start { kind, clause_id, position: old(self).pos() },
                    )
                    &&& ended(
                        *final(inner),
                        *final(emitter),
                        old(emitter).events().len() as usize,
                        ok,
                    )
                    &&& ok ==> *final(self) == *final(input)
                },
            !ok ==> *final(self) == *old(self),
            traced(*old(self), *old(emitter), *final(self), *final(emitter)),
            attempt_logged(
                old(emitter).events().len() as int,
                *final(emitter),
                EventView::Start { kind, clause_id, position: old(self).pos() },
                ok,
            ),
    {
        let backtrack = *self;
        let position = self.position;
        let start = emitter.start(kind, clause_id, position);
        let ghost opened = *emitter;
        assert(opened.table().contains_key(start));
        let result = parser(self, emitter);
        let ghost input_body = *self;
        let ghost body = *emitter;
        if result {
            emitter.commit(start);
        } else {
            emitter.abort(start);
            *self = backtrack;
        }
        proof {
            lemma_attempt_closed(
                *old(self),
                *old(emitter),
                opened,
                input_body,
                body,
                *self,
                *emitter,
                EventView::Start { kind, clause_id, position },
                result,
            );
        }
        result
    }

    /// Calls rule `P` at the current position.
    ///
    /// The call is logged between a `Start` with clause number 0 and a
    /// `Commit` or `Abort`, and recorded in the table.
    pub fn parse<P: Parser>(&mut self, emitter: &mut Emitter) -> (ok: bool)
        requires
            old(self).wf(),
            old(emitter).wf(),
        ensures
            exists|input: &mut Input<'_>, inner: &mut Emitter|
                {
                    &&& #[trigger] call_ensures(P::parse, (input, inner), ok)
                    &&& *input == *old(self)
                    &&& began(
                        old(emitter).events(),
                        old(emitter).table(),
                        *inner,
                        EventView::Start { kind: P::KIND, clause_id: 0, position: old(self).pos() },
                    )
                    &&& ended(
                        *final(inner),
                        *final(emitter),
                        old(emitter).events().len() as usize,
                        ok,
                    )
                    &&& *final(self) == *final(input)
                },
            !ok ==> final(self).pos() == old(self).pos(),
            traced(*old(self), *old(emitter), *final(self), *final(emitter)),
            attempt_logged(
                old(emitter).events().len() as int,
                *final(emitter),
                EventView::Start { kind: P::KIND, clause_id: 0, position: old(self).pos() },
                ok,
            ),
    {
        let kind = P::KIND;
        let clause_id: u16 = 0;
        let position = self.position;
        let start = emitter.start(kind, clause_id, position);
        let ghost opened = *emitter;
        assert(opened.table().contains_key(start));
        let result = P::parse(self, emitter);
        let ghost input_body = *self;
        let ghost body = *emitter;
        if result {
            emitter.commit(start);
        } else {
            emitter.abort(start);
        }
        proof {
            lemma_attempt_closed(
                *old(self),
                *old(emitter),
                opened,
                input_body,
                body,
                *self,
                *emitter,
                EventView::Start { kind, clause_id, position },
                result,
            );
        }
        result
    }
}

/// The log of `after` ends with one attempt that starts at index `first`:
/// the `Start` event `opening`, a balanced stretch, and `Commit` or `Abort`
/// according to `ok`; the table holds the outcome of the attempt with the
/// indices of the two.
pub open spec fn attempt_logged(first: int, after: Emitter, opening: EventView, ok: bool) -> bool {
    let last = after.events().len() - 1;
    &&& 0 <= first < last
    &&& last <= usize::MAX
    &&& after.events()[first] == opening
    &&& after.events()[last] == if ok {
        EventView::Commit
    } else {
        EventView::Abort
    }
    &&& after.table().contains_key(first as usize)
    &&& after.table()[first as usize] == outcome_of(first as usize, last as usize, ok)
    &&& balanced(after.events(), after.table(), first + 1, last)
}

/// An attempt, once closed, is a step that keeps the text it read: the text
/// that its body read if the body succeeded, and none if it failed and the
/// cursor went back.
proof fn lemma_attempt_closed(
    input0: Input<'_>,
    before: Emitter,
    opened: Emitter,
    input_body: Input<'_>,
    body: Emitter,
    input1: Input<'_>,
    after: Emitter,
    opening: EventView,
    ok: bool,
)
    requires
        input0.wf(),
        before.wf(),
        opening is Start,
        opened.wf(),
        began(before.events(), before.table(), opened, opening),
        attempted(input0, opened, input_body, body, ok),
        after.wf(),
        ended(body, after, before.events().len() as usize, ok),
        input1.wf(),
        input1.text() == input0.text(),
        ok ==> input1.pos() == input_body.pos(),
        !ok ==> input1.pos() == input0.pos(),
    ensures
        traced(input0, before, input1, after),
        attempt_logged(before.events().len() as int, after, opening, ok),
{
    let first = before.events().len() as int;
    let last = body.events().len() as int;
    let log = after.events();
    let table = after.table();
    assert(before.events().is_prefix_of(opened.events()));
    assert(opened.table().contains_key(first as usize));
    lemma_balanced_stable(body.events(), body.table(), log, table, first + 1, last, 0);
    assert(balanced(log, table, last + 1, last + 1));
    assert forall|k: usize| #[trigger] before.table().contains_key(k) implies table.contains_key(k)
        && table[k] == before.table()[k] by {
        assert(opened.table().contains_key(k));
    }
    assert(surviving(log, table, last + 1, last + 1) =~= Seq::<u8>::empty());
    assert(surviving(log, table, first, last + 1) =~= input0.text().subrange(
        input0.pos() as int,
        input1.pos() as int,
    ));
}

} // verus!
