//! Trees written flat, as the calls that build them.

use vstd::prelude::*;
use vstd::utf8::encode_utf8;

verus! {

/// One call on a tree builder: open a node, add a leaf, close the innermost
/// open node. A tree is written as the sequence of the calls that build it.
pub ghost enum Step {
    Open { kind: u16 },
    Token { kind: u16, text: Seq<char> },
    Close,
}

/// What one step adds to the number of open nodes.
pub open spec fn rise(step: Step) -> int {
    match step {
        Step::Open { .. } => 1,
        Step::Token { .. } => 0,
        Step::Close => -1,
    }
}

/// The number of nodes that `steps` opens and does not close.
pub open spec fn depth(steps: Seq<Step>) -> int
    decreases steps.len(),
{
    if steps.len() == 0 {
        0
    } else {
        depth(steps.drop_last()) + rise(steps.last())
    }
}

/// The bytes that one step adds to the text of the tree.
pub open spec fn step_bytes(step: Step) -> Seq<u8> {
    match step {
        Step::Token { text, .. } => encode_utf8(text),
        _ => Seq::empty(),
    }
}

/// The text of the leaves of `steps`, in order, as UTF-8 bytes.
pub open spec fn token_bytes(steps: Seq<Step>) -> Seq<u8>
    decreases steps.len(),
{
    if steps.len() == 0 {
        Seq::empty()
    } else {
        token_bytes(steps.drop_last()) + step_bytes(steps.last())
    }
}

/// `steps` never closes a node that it did not open.
pub open spec fn nested(steps: Seq<Step>) -> bool {
    forall|n: int| 0 <= n <= steps.len() ==> depth(#[trigger] steps.take(n)) >= 0
}

/// `steps` builds a sequence of complete nodes and leaves.
pub open spec fn forest(steps: Seq<Step>) -> bool {
    nested(steps) && depth(steps) == 0
}

/// `steps` builds exactly one node: it opens a node, builds the children,
/// and closes the node.
pub open spec fn single_node(steps: Seq<Step>) -> bool {
    &&& steps.len() >= 2
    &&& steps.first() is Open
    &&& steps.last() is Close
    &&& forest(steps.subrange(1, steps.len() - 1))
}

/// Depth and text add up over a concatenation.
pub proof fn lemma_steps_concat(a: Seq<Step>, b: Seq<Step>)
    ensures
        depth(a + b) == depth(a) + depth(b),
        token_bytes(a + b) == token_bytes(a) + token_bytes(b),
    decreases b.len(),
{
    if b.len() > 0 {
        assert((a + b).drop_last() =~= a + b.drop_last());
        lemma_steps_concat(a, b.drop_last());
    }
}

/// Depth and text of a single step.
pub proof fn lemma_steps_single(step: Step)
    ensures
        depth(seq![step]) == rise(step),
        token_bytes(seq![step]) == step_bytes(step),
{
    let s = seq![step];
    assert(depth(s) == depth(s.drop_last()) + rise(s.last()));
    assert(token_bytes(s.drop_last()) =~= Seq::<u8>::empty());
}

/// Two forests side by side are a forest.
pub proof fn lemma_forest_concat(a: Seq<Step>, b: Seq<Step>)
    requires
        forest(a),
        forest(b),
    ensures
        forest(a + b),
{
    lemma_steps_concat(a, b);
    assert forall|n: int| 0 <= n <= (a + b).len() implies depth(#[trigger] (a + b).take(n))
        >= 0 by {
        if n <= a.len() {
            assert((a + b).take(n) =~= a.take(n));
        } else {
            assert((a + b).take(n) =~= a + b.take(n - a.len()));
            lemma_steps_concat(a, b.take(n - a.len()));
        }
    }
}

/// A node around a forest is a forest.
pub proof fn lemma_forest_node(kind: u16, inner: Seq<Step>)
    requires
        forest(inner),
    ensures
        forest(seq![Step::Open { kind }] + inner + seq![Step::Close]),
        single_node(seq![Step::Open { kind }] + inner + seq![Step::Close]),
{
    let open = seq![Step::Open { kind }];
    let close = seq![Step::Close];
    let all = open + inner + close;
    lemma_steps_single(Step::Open { kind });
    lemma_steps_single(Step::Close);
    lemma_steps_concat(open, inner);
    lemma_steps_concat(open + inner, close);
    assert forall|n: int| 0 <= n <= all.len() implies depth(#[trigger] all.take(n)) >= 0 by {
        if 0 < n <= 1 + inner.len() {
            assert(all.take(n) =~= open + inner.take(n - 1));
            lemma_steps_concat(open, inner.take(n - 1));
        } else if n > 0 {
            assert(all.take(n) =~= all);
        }
    }
    assert(all.subrange(1, all.len() - 1) =~= inner);
}

/// A single leaf is a forest, and so is nothing at all.
pub proof fn lemma_forest_leaf(kind: u16, text: Seq<char>)
    ensures
        forest(seq![Step::Token { kind, text }]),
        forest(Seq::<Step>::empty()),
{
    let s = seq![Step::Token { kind, text }];
    lemma_steps_single(Step::Token { kind, text });
    assert forall|n: int| 0 <= n <= s.len() implies depth(#[trigger] s.take(n)) >= 0 by {
        if n > 0 {
            assert(s.take(n) =~= s);
        }
    }
}

} // verus!
