//! Building the concrete syntax tree from a finished log.
//!
//! The log is replayed once, front to back. The outcome table tells for every
//! `Start` whether the attempt succeeded and where it ended, so that a failed
//! attempt is skipped as a whole. The tree is a `rowan` green tree.

use vstd::prelude::*;
use vstd::pervasive::unreached;
use vstd::utf8::encode_utf8;
use crate::emitter::{attempt_recorded, Emitter};
use crate::event::{Event, EventView, ParseResult};
use crate::rule::{Language, Parser};
use crate::steps::{
    depth, lemma_forest_node, lemma_steps_concat, lemma_steps_single, single_node, token_bytes,
    Step,
};
use crate::trace::{balanced, end_of, lemma_tree_of_balanced, surviving, tree_steps};

verus! {

/// `rowan::GreenNodeBuilder`, the builder of green trees, as a value of
/// which nothing is known but what `built` says.
#[verifier::external_type_specification]
#[verifier::external_body]
pub struct ExGreenNodeBuilder<'cache>(rowan::GreenNodeBuilder<'cache>);

/// `rowan::GreenNode`, a node of a green tree with all that is below it, as
/// a value of which nothing is known but what `shape` says.
#[verifier::external_type_specification]
#[verifier::external_body]
pub struct ExGreenNode(rowan::GreenNode);

/// What a builder holds: the calls that were made on it since it was
/// created, in order.
pub uninterp spec fn built(builder: rowan::GreenNodeBuilder<'static>) -> Seq<Step>;

/// What a green node holds, written as the calls that build it: `Open` with
/// the kind of the node, then its children in order, then `Close`, where a
/// child that is a node is written in the same way and a child that is a
/// token is written as `Token` with its kind and text.
pub uninterp spec fn shape(tree: rowan::GreenNode) -> Seq<Step>;

/// `rowan::cursor::SyntaxNode`, a node of a syntax tree: a green node
/// together with its place in the tree, as a value of which nothing is known
/// but what `syntax_shape` says.
#[verifier::external_type_specification]
#[verifier::external_body]
pub struct ExSyntaxNode(rowan::cursor::SyntaxNode);

/// What a syntax node holds: the green node that it stands on, written as
/// `shape` writes it.
pub uninterp spec fn syntax_shape(node: rowan::cursor::SyntaxNode) -> Seq<Step>;

/// `rowan::cursor::SyntaxNode::new_root`: the root of a syntax tree that
/// stands on `green`.
#[verifier::external_body]
fn syntax_root(green: rowan::GreenNode) -> (root: rowan::cursor::SyntaxNode)
    ensures
        syntax_shape(root) == shape(green),
{
    rowan::cursor::SyntaxNode::new_root(green)
}

/// `rowan::GreenNodeBuilder::new`: a builder on which no call was made yet.
#[verifier::external_body]
fn builder_new() -> (builder: rowan::GreenNodeBuilder<'static>)
    ensures
        built(builder) == Seq::<Step>::empty(),
{
    rowan::GreenNodeBuilder::new()
}

/// `rowan::GreenNodeBuilder::start_node`: opens a node of kind `kind`, under
/// which the nodes and tokens go that are added until it is closed.
#[verifier::external_body]
fn builder_start_node(builder: &mut rowan::GreenNodeBuilder<'static>, kind: u16)
    ensures
        built(*final(builder)) == built(*old(builder)).push(Step::Open { kind }),
{
    builder.start_node(rowan::SyntaxKind(kind))
}

/// `rowan::GreenNodeBuilder::token`: adds a token of kind `kind` that holds
/// `text` below the innermost open node.
#[verifier::external_body]
fn builder_token(builder: &mut rowan::GreenNodeBuilder<'static>, kind: u16, text: &str)
    ensures
        built(*final(builder)) == built(*old(builder)).push(Step::Token { kind, text: text@ }),
{
    builder.token(rowan::SyntaxKind(kind), rowan::SmolStr::new(text))
}

/// `rowan::GreenNodeBuilder::finish_node`: closes the innermost open node,
/// which becomes a child of the node around it. It panics where no node is
/// open, and it adds up the byte lengths of the texts below the node as a
/// `u32`, which the bound on the text keeps from overflowing.
#[verifier::external_body]
fn builder_finish_node(builder: &mut rowan::GreenNodeBuilder<'static>)
    requires
        depth(built(*old(builder))) > 0,
        token_bytes(built(*old(builder))).len() <= u32::MAX,
    ensures
        built(*final(builder)) == built(*old(builder)).push(Step::Close),
{
    builder.finish_node()
}

/// `rowan::GreenNodeBuilder::finish`: hands out what was built. It panics
/// unless that is exactly one node; the result is that node.
#[verifier::external_body]
fn builder_finish(builder: rowan::GreenNodeBuilder<'static>) -> (tree: rowan::GreenNode)
    requires
        single_node(built(builder)),
    ensures
        shape(tree) == built(builder),
{
    builder.finish()
}

/// The event is the `Start` of a call of rule `kind` at `position`.
pub open spec fn is_call(event: EventView, kind: u16, position: usize) -> bool {
    event == (EventView::Start { kind, clause_id: 0, position })
}

/// The log index at which the attempt recorded as `outcome` last wrote: its
/// end if it has ended, its start if it is running.
pub open spec fn last_touch(outcome: ParseResult) -> int {
    if outcome is Running {
        outcome.start() as int
    } else {
        end_of(outcome)
    }
}

/// Among the calls of rule `kind` at `position` that start before log index
/// `n`, the one that wrote to the log last.
pub open spec fn latest_call_before(
    log: Seq<EventView>,
    table: Map<usize, ParseResult>,
    kind: u16,
    position: usize,
    n: int,
) -> Option<usize>
    decreases n,
{
    if n <= 0 {
        None
    } else {
        let earlier = latest_call_before(log, table, kind, position, n - 1);
        let i = (n - 1) as usize;
        if n <= log.len() && n <= usize::MAX && is_call(log[n - 1], kind, position)
            && table.contains_key(i) && (earlier is None || last_touch(table[earlier->0])
            < last_touch(table[i])) {
            Some(i)
        } else {
            earlier
        }
    }
}

/// A call that `latest_call_before` finds is a call of the rule at the
/// position, starts before `n`, and is in the table.
pub proof fn lemma_latest_call_is_call(
    log: Seq<EventView>,
    table: Map<usize, ParseResult>,
    kind: u16,
    position: usize,
    n: int,
)
    ensures
        latest_call_before(log, table, kind, position, n) matches Some(i) ==> i < n && i
            < log.len() && is_call(log[i as int], kind, position) && table.contains_key(i),
    decreases n,
{
    if n > 0 {
        lemma_latest_call_is_call(log, table, kind, position, n - 1);
    }
}

impl Emitter {
    /// The call of rule `kind` at `position` that wrote to the log last, by
    /// the log index of its `Start`.
    pub open spec fn latest_call(&self, kind: u16, position: usize) -> Option<usize> {
        latest_call_before(
            self.events(),
            self.table(),
            kind,
            position,
            self.events().len() as int,
        )
    }

    /// The latest call of rule `kind` at `position` succeeded.
    pub open spec fn has_tree(&self, kind: u16, position: usize) -> bool {
        self.latest_call(kind, position) matches Some(start) && self.table()[start] is Success
    }

    /// The tree of the latest call of rule `kind` at `position`, with leaves
    /// of kind `token_kind`.
    pub open spec fn tree(&self, kind: u16, token_kind: u16, position: usize) -> Seq<Step> {
        let start = self.latest_call(kind, position)->0;
        tree_steps(
            self.events(),
            self.table(),
            start as int,
            end_of(self.table()[start]) + 1,
            token_kind,
        )
    }

    /// Finds the call of rule `kind` at `position` that wrote to the log
    /// last, and returns the log index of its `Start`.
    pub fn find_call(&self, kind: u16, position: usize) -> (found: Option<usize>)
        ensures
            found == self.latest_call(kind, position),
    {
        let mut found: Option<usize> = None;
        let mut touched: usize = 0;
        let mut i: usize = 0;
        while i < self.len()
            invariant
                i <= self.events().len(),
                found == latest_call_before(self.events(), self.table(), kind, position, i as int),
                found matches Some(start) ==> self.table().contains_key(start) && touched
                    == last_touch(self.table()[start]),
            decreases self.events().len() - i,
        {
            if let Some(Event::Start { kind: k, clause_id, position: p }) = self.event(i) {
                if *k == kind && *clause_id == 0 && *p == position {
                    if let Some(outcome) = self.outcome(i) {
                        let touch = match outcome {
                            ParseResult::Running { start_log_index } => start_log_index,
                            ParseResult::Success { end_log_index, .. } => end_log_index,
                            ParseResult::Failure { end_log_index, .. } => end_log_index,
                        };
                        if found.is_none() || touched < touch {
                            found = Some(i);
                            touched = touch;
                        }
                    }
                }
            }
            i += 1;
        }
        found
    }

    /// Takes from `budget` the bytes of text in the leaves that the stretch
    /// from `start_log_index` up to `end_log_index` stands for, and returns
    /// what is left, or `None` if `budget` is too small.
    fn text_between(&self, start_log_index: usize, end_log_index: usize, budget: u32) -> (left:
        Option<u32>)
        requires
            balanced(self.events(), self.table(), start_log_index as int, end_log_index as int),
        ensures
            left matches Some(rest) ==> token_bytes(
                tree_steps(
                    self.events(),
                    self.table(),
                    start_log_index as int,
                    end_log_index as int,
                    0,
                ),
            ).len() + rest == budget,
            left is None ==> token_bytes(
                tree_steps(
                    self.events(),
                    self.table(),
                    start_log_index as int,
                    end_log_index as int,
                    0,
                ),
            ).len() > budget,
        decreases end_log_index - start_log_index,
    {
        let ghost log = self.events();
        let ghost table = self.table();
        let ghost lo = start_log_index as int;
        let ghost hi = end_log_index as int;
        if start_log_index >= end_log_index {
            return Some(budget);
        }
        proof {
            lemma_tree_of_balanced(log, table, lo, hi, 0);
        }
        match self.event(start_log_index) {
            Some(Event::Start { .. }) => {
                match self.outcome(start_log_index) {
                    Some(ParseResult::Success { end_log_index: child_end, .. }) => {
                        proof {
                            lemma_tree_of_balanced(log, table, lo + 1, child_end as int, 0);
                            lemma_tree_of_balanced(log, table, child_end + 1, hi, 0);
                        }
                        match self.text_between(start_log_index + 1, child_end, budget) {
                            Some(rest) => self.text_between(child_end + 1, end_log_index, rest),
                            None => None,
                        }
                    },
                    Some(ParseResult::Failure { end_log_index: child_end, .. }) => {
                        proof {
                            lemma_tree_of_balanced(log, table, child_end + 1, hi, 0);
                        }
                        self.text_between(child_end + 1, end_log_index, budget)
                    },
                    _ => unreached(),
                }
            },
            Some(Event::Consume { text }) => {
                proof {
                    lemma_tree_of_balanced(log, table, lo + 1, hi, 0);
                }
                let length = text.as_str().as_bytes().len();
                if length > budget as usize {
                    None
                } else {
                    self.text_between(start_log_index + 1, end_log_index, budget - length as u32)
                }
            },
            _ => unreached(),
        }
    }

    /// Replays the log from `start_log_index` up to `end_log_index` into
    /// `builder`: a leaf for each literal, a node around each successful rule
    /// call, nothing for a failed attempt.
    fn tree_between(
        &self,
        builder: &mut rowan::GreenNodeBuilder<'static>,
        start_log_index: usize,
        end_log_index: usize,
        token_kind: u16,
    )
        requires
            balanced(self.events(), self.table(), start_log_index as int, end_log_index as int),
            depth(built(*old(builder))) >= 0,
            token_bytes(built(*old(builder))).len() + token_bytes(
                tree_steps(
                    self.events(),
                    self.table(),
                    start_log_index as int,
                    end_log_index as int,
                    token_kind,
                ),
            ).len() <= u32::MAX,
        ensures
            built(*final(builder)) == built(*old(builder)) + tree_steps(
                self.events(),
                self.table(),
                start_log_index as int,
                end_log_index as int,
                token_kind,
            ),
        decreases end_log_index - start_log_index,
    {
        let ghost log = self.events();
        let ghost table = self.table();
        let ghost lo = start_log_index as int;
        let ghost hi = end_log_index as int;
        let ghost before = built(*builder);
        if start_log_index >= end_log_index {
            assert(before + tree_steps(log, table, lo, hi, token_kind) =~= before);
            return ;
        }
        match self.event(start_log_index) {
            Some(Event::Start { kind, clause_id, position: _ }) => {
                match self.outcome(start_log_index) {
                    Some(ParseResult::Success { end_log_index: child_end, .. }) => {
                        let ghost inner = tree_steps(log, table, lo + 1, child_end as int, token_kind);
                        let ghost rest = tree_steps(log, table, child_end + 1, hi, token_kind);
                        let ghost open = seq![Step::Open { kind: *kind }];
                        let ghost close = seq![Step::Close];
                        proof {
                            lemma_tree_of_balanced(log, table, lo + 1, child_end as int, token_kind);
                            lemma_steps_single(open[0]);
                            lemma_steps_single(close[0]);
                            lemma_steps_concat(open, inner);
                            lemma_steps_concat(open + inner, close);
                            lemma_steps_concat(open + inner + close, rest);
                            lemma_steps_concat(inner, rest);
                            lemma_steps_concat(before, open);
                            lemma_steps_concat(before + open, inner);
                            lemma_steps_concat(before, inner);
                            assert(before.push(open[0]) =~= before + open);
                        }
                        if *clause_id == 0 {
                            builder_start_node(builder, *kind);
                        }
                        self.tree_between(builder, start_log_index + 1, child_end, token_kind);
                        if *clause_id == 0 {
                            builder_finish_node(builder);
                            proof {
                                assert((before + open + inner).push(close[0]) =~= before + (open
                                    + inner + close));
                                lemma_steps_concat(before, open + inner + close);
                            }
                        }
                        proof {
                            lemma_steps_concat(built(*builder), rest);
                        }
                        self.tree_between(builder, child_end + 1, end_log_index, token_kind);
                        proof {
                            if *clause_id == 0 {
                                assert(before + (open + inner + close) + rest =~= before + (open
                                    + inner + close + rest));
                            } else {
                                assert(before + inner + rest =~= before + (inner + rest));
                            }
                        }
                    },
                    Some(ParseResult::Failure { end_log_index: child_end, .. }) => {
                        self.tree_between(builder, child_end + 1, end_log_index, token_kind)
                    },
                    _ => unreached(),
                }
            },
            Some(Event::Consume { text }) => {
                let ghost leaf = seq![Step::Token { kind: token_kind, text: text@ }];
                let ghost rest = tree_steps(log, table, lo + 1, hi, token_kind);
                proof {
                    lemma_steps_single(leaf[0]);
                    lemma_steps_concat(leaf, rest);
                    lemma_steps_concat(before, leaf);
                    assert(before.push(leaf[0]) =~= before + leaf);
                }
                builder_token(builder, token_kind, text.as_str());
                self.tree_between(builder, start_log_index + 1, end_log_index, token_kind);
                assert(before + leaf + rest =~= before + (leaf + rest));
            },
            _ => unreached(),
        }
    }

    /// Builds the tree of the latest call of rule `P` at `position`.
    pub fn green_tree<P: Parser>(&self, position: usize) -> (tree: rowan::GreenNode)
        requires
            self.wf(),
            self.has_tree(P::KIND, position),
            token_bytes(self.tree(P::KIND, P::Language::TOKEN, position)).len() <= u32::MAX,
        ensures
            shape(tree) == self.tree(P::KIND, P::Language::TOKEN, position),
            single_node(shape(tree)),
    {
        let ghost log = self.events();
        let ghost table = self.table();
        proof {
            lemma_latest_call_is_call(log, table, P::KIND, position, log.len() as int);
        }
        match self.find_call(P::KIND, position) {
            Some(start) => {
                match self.outcome(start) {
                    Some(ParseResult::Success { start_log_index, end_log_index }) => {
                        proof {
                            assert(balanced(log, table, end_log_index + 1, end_log_index + 1));
                            let inner = tree_steps(
                                log,
                                table,
                                start + 1,
                                end_log_index as int,
                                P::Language::TOKEN,
                            );
                            lemma_tree_of_balanced(
                                log,
                                table,
                                start + 1,
                                end_log_index as int,
                                P::Language::TOKEN,
                            );
                            lemma_forest_node(P::KIND, inner);
                            assert(tree_steps(
                                log,
                                table,
                                end_log_index + 1,
                                end_log_index + 1,
                                P::Language::TOKEN,
                            ) =~= Seq::<Step>::empty());
                        }
                        let mut builder = builder_new();
                        self.tree_between(
                            &mut builder,
                            start_log_index,
                            end_log_index + 1,
                            P::Language::TOKEN,
                        );
                        assert(Seq::<Step>::empty() + self.tree(
                            P::KIND,
                            P::Language::TOKEN,
                            position,
                        ) =~= self.tree(P::KIND, P::Language::TOKEN, position));
                        builder_finish(builder)
                    },
                    _ => unreached(),
                }
            },
            None => unreached(),
        }
    }

    /// Builds the tree of the latest call of rule `P` at `position` and
    /// returns its root as a syntax node, from which the tree is read with
    /// the offsets of its nodes and tokens.
    pub fn syntax_tree<P: Parser>(&self, position: usize) -> (root: rowan::cursor::SyntaxNode)
        requires
            self.wf(),
            self.has_tree(P::KIND, position),
            token_bytes(self.tree(P::KIND, P::Language::TOKEN, position)).len() <= u32::MAX,
        ensures
            syntax_shape(root) == self.tree(P::KIND, P::Language::TOKEN, position),
    {
        syntax_root(self.green_tree::<P>(position))
    }

    /// Builds the tree of the latest call of rule `P` at `position`, if that
    /// call succeeded and the text of the tree is no longer than `u32::MAX`
    /// bytes, the longest that a green tree holds.
    pub fn try_green_tree<P: Parser>(&self, position: usize) -> (tree: Option<rowan::GreenNode>)
        requires
            self.wf(),
        ensures
            tree is Some <==> self.has_tree(P::KIND, position) && token_bytes(
                self.tree(P::KIND, P::Language::TOKEN, position),
            ).len() <= u32::MAX,
            tree matches Some(tree) ==> shape(tree) == self.tree(
                P::KIND,
                P::Language::TOKEN,
                position,
            ),
    {
        let ghost log = self.events();
        let ghost table = self.table();
        proof {
            lemma_latest_call_is_call(log, table, P::KIND, position, log.len() as int);
        }
        match self.find_call(P::KIND, position) {
            Some(start) => {
                match self.outcome(start) {
                    Some(ParseResult::Success { start_log_index, end_log_index }) => {
                        proof {
                            assert(balanced(log, table, end_log_index + 1, end_log_index + 1));
                            lemma_tree_of_balanced(log, table, start as int, end_log_index + 1, 0);
                            lemma_tree_of_balanced(
                                log,
                                table,
                                start as int,
                                end_log_index + 1,
                                P::Language::TOKEN,
                            );
                        }
                        match self.text_between(start_log_index, end_log_index + 1, u32::MAX) {
                            Some(_) => Some(self.green_tree::<P>(position)),
                            None => None,
                        }
                    },
                    _ => None,
                }
            },
            None => None,
        }
    }
}

} // verus!
