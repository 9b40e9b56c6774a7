//! A whole parse in one call.

use vstd::prelude::*;
use vstd::string::StringSliceAdditionalSpecFns;
use crate::emitter::{began, ended, Emitter};
use crate::event::EventView;
use crate::input::{attempt_logged, Input};
use crate::laws::lemma_tree_spells_input;
use crate::rule::{Language, Parser};
use crate::steps::token_bytes;

verus! {

/// Parses `text` from its start as rule `P`, on a new emitter. The result
/// is the emitter and whether `text` as a whole matches: whether `P`
/// succeeded and read `text` up to the last byte.
///
/// The log is the one call of `P` at offset 0. A call that succeeds before
/// the last byte of `text` is in the log and in the table as succeeded, and
/// has its tree, but `text` as a whole does not match.
pub fn run<P: Parser>(text: &str) -> (result: (bool, Emitter))
    ensures
        result.1.wf(),
        attempt_logged(
            0,
            result.1,
            EventView::Start { kind: P::KIND, clause_id: 0, position: 0 },
            result.1.table()[0] is Success,
        ),
        exists|cursor: &mut Input<'_>, inner: &mut Emitter|
            {
                &&& #[trigger] call_ensures(
                    P::parse,
                    (cursor, inner),
                    result.1.table()[0] is Success,
                )
                &&& *cursor == Input::at_start(text)
                &&& began(
                    Seq::empty(),
                    Map::empty(),
                    *inner,
                    EventView::Start { kind: P::KIND, clause_id: 0, position: 0 },
                )
                &&& ended(*final(inner), result.1, 0, result.1.table()[0] is Success)
                &&& result.0 <==> result.1.table()[0] is Success && final(cursor).pos()
                    == text.spec_bytes().len()
            },
        result.1.table()[0] is Success ==> result.1.has_tree(P::KIND, 0) && token_bytes(
            result.1.tree(P::KIND, P::Language::TOKEN, 0),
        ).is_prefix_of(text.spec_bytes()),
        result.0 <==> result.1.table()[0] is Success && token_bytes(
            result.1.tree(P::KIND, P::Language::TOKEN, 0),
        ) == text.spec_bytes(),
{
    let mut emitter = Emitter::default();
    let mut input = Input::new(text);
    let ghost start = input;
    let ghost empty = emitter;
    let matched = input.parse::<P>(&mut emitter);
    let whole = input.position() == text.as_bytes().len();
    proof {
        let bytes = text.spec_bytes();
        assert(bytes.subrange(0, bytes.len() as int) =~= bytes);
        if matched {
            lemma_tree_spells_input(start, empty, input, emitter, P::KIND, P::Language::TOKEN);
            if !whole {
                assert(bytes.subrange(0, input.pos() as int).len() != bytes.len());
            }
        }
    }
    (matched && whole, emitter)
}

} // verus!
