//! The grammar `T -> "a" | "b" T`.

use peglog::{Emitter, Event, Input, Language, ParseResult, Parser};

const TOKEN: u16 = 0;
const T_KIND: u16 = 1;

struct Lang;

impl Language for Lang {
    const TOKEN: u16 = TOKEN;
}

struct T;

impl Parser for T {
    type Language = Lang;
    const KIND: u16 = T_KIND;

    fn parse(input: &mut Input<'_>, emitter: &mut Emitter) -> bool {
        input.clause(emitter, T_KIND, 1, |input, emitter| input.consume("a", emitter))
            || input.clause(emitter, T_KIND, 2, |input, emitter| {
                input.consume("b", emitter) && input.parse::<T>(emitter)
            })
    }
}

fn render(node: &rowan::GreenNode) -> String {
    let mut out = format!("{}(", node.kind().0);
    for child in node.children() {
        match child {
            rowan::NodeOrToken::Node(inner) => out.push_str(&render(inner)),
            rowan::NodeOrToken::Token(token) => {
                out.push_str(&format!("{}{:?}", token.kind().0, token.text().as_str()))
            }
        }
    }
    out.push(')');
    out
}

fn leaves(node: &rowan::GreenNode) -> String {
    let mut out = String::new();
    for child in node.children() {
        match child {
            rowan::NodeOrToken::Node(inner) => out.push_str(&leaves(inner)),
            rowan::NodeOrToken::Token(token) => out.push_str(token.text().as_str()),
        }
    }
    out
}

#[test]
fn chain_is_nested_to_the_right() {
    let mut emitter = Emitter::default();
    let mut input = Input::new("bbbbba");
    assert!(input.parse::<T>(&mut emitter));
    assert_eq!(input.position(), 6);
    let tree = emitter.green_tree::<T>(0);
    assert_eq!(
        render(&tree),
        "1(0\"b\"1(0\"b\"1(0\"b\"1(0\"b\"1(0\"b\"1(0\"a\"))))))"
    );
    assert_eq!(leaves(&tree), "bbbbba");
}

#[test]
fn chain_has_five_nodes_before_the_last_leaf() {
    let mut emitter = Emitter::default();
    let mut input = Input::new("bbbbba");
    assert!(input.parse::<T>(&mut emitter));
    let tree = emitter.green_tree::<T>(0);
    let mut node = tree;
    let mut depth = 0;
    loop {
        let children: Vec<_> = node.children().collect();
        match children.as_slice() {
            [rowan::NodeOrToken::Token(b), rowan::NodeOrToken::Node(next)] => {
                assert_eq!(b.text().as_str(), "b");
                depth += 1;
                let next = (*next).clone();
                node = next;
            }
            [rowan::NodeOrToken::Token(a)] => {
                assert_eq!(a.text().as_str(), "a");
                break;
            }
            _ => panic!("unexpected children"),
        }
    }
    assert_eq!(depth, 5);
}

#[test]
fn single_literal_log_and_table_are_exact() {
    let mut emitter = Emitter::default();
    let mut input = Input::new("a");
    assert!(input.parse::<T>(&mut emitter));
    assert_eq!(emitter.len(), 5);
    assert!(matches!(
        emitter.event(0),
        Some(Event::Start { kind: T_KIND, clause_id: 0, position: 0 })
    ));
    assert!(matches!(
        emitter.event(1),
        Some(Event::Start { kind: T_KIND, clause_id: 1, position: 0 })
    ));
    match emitter.event(2) {
        Some(Event::Consume { text }) => assert_eq!(text, "a"),
        other => panic!("unexpected event {:?}", other),
    }
    assert!(matches!(emitter.event(3), Some(Event::Commit)));
    assert!(matches!(emitter.event(4), Some(Event::Commit)));
    assert!(matches!(
        emitter.outcome(0),
        Some(ParseResult::Success { start_log_index: 0, end_log_index: 4 })
    ));
    assert!(matches!(
        emitter.outcome(1),
        Some(ParseResult::Success { start_log_index: 1, end_log_index: 3 })
    ));
    assert!(emitter.outcome(2).is_none());
}

#[test]
fn tree_spells_the_part_of_the_input_that_was_read() {
    let mut emitter = Emitter::default();
    let mut input = Input::new("bbaXYZ");
    assert!(input.parse::<T>(&mut emitter));
    assert_eq!(input.position(), 3);
    let tree = emitter.green_tree::<T>(0);
    assert_eq!(leaves(&tree), "bba");
    assert_eq!(u32::from(tree.text_len()), 3);
}

#[test]
fn call_in_the_middle_of_the_input_is_found_by_its_position() {
    let mut emitter = Emitter::default();
    let mut input = Input::new("bba");
    assert!(input.parse::<T>(&mut emitter));
    // The calls at 0, 1 and 2 are nested; each has a tree of its own.
    assert_eq!(leaves(&emitter.green_tree::<T>(0)), "bba");
    assert_eq!(leaves(&emitter.green_tree::<T>(1)), "ba");
    assert_eq!(leaves(&emitter.green_tree::<T>(2)), "a");
    assert_eq!(render(&emitter.green_tree::<T>(2)), "1(0\"a\")");
    assert!(emitter.try_green_tree::<T>(3).is_none());
    assert_eq!(emitter.find_call(T_KIND, 3), None);
    assert_eq!(emitter.find_call(T_KIND, 0), Some(0));
    assert_eq!(emitter.find_call(TOKEN, 0), None);
}

#[test]
fn failed_call_has_no_tree() {
    let mut emitter = Emitter::default();
    let mut input = Input::new("bbc");
    assert!(!input.parse::<T>(&mut emitter));
    assert_eq!(input.position(), 0);
    assert!(emitter.try_green_tree::<T>(0).is_none());
    assert!(emitter.try_green_tree::<T>(1).is_none());
    assert!(emitter.try_green_tree::<T>(2).is_none());
    assert!(matches!(emitter.outcome(0), Some(ParseResult::Failure { .. })));
    let last = emitter.len() - 1;
    assert!(matches!(emitter.event(last), Some(Event::Abort)));
}

#[test]
fn empty_emitter_has_no_tree() {
    let emitter = Emitter::default();
    assert_eq!(emitter.len(), 0);
    assert!(emitter.event(0).is_none());
    assert!(emitter.outcome(0).is_none());
    assert_eq!(emitter.find_call(T_KIND, 0), None);
    assert!(emitter.try_green_tree::<T>(0).is_none());
}

#[test]
fn second_parse_on_the_same_emitter_is_the_latest_call() {
    let mut emitter = Emitter::default();
    let mut first = Input::new("ba");
    assert!(first.parse::<T>(&mut emitter));
    let first_len = emitter.len();
    let mut second = Input::new("a");
    assert!(second.parse::<T>(&mut emitter));
    assert_eq!(emitter.find_call(T_KIND, 0), Some(first_len));
    assert_eq!(render(&emitter.green_tree::<T>(0)), "1(0\"a\")");
    // The call of the first parse at offset 1 is still the latest there.
    assert_eq!(render(&emitter.green_tree::<T>(1)), "1(0\"a\")");
    let mut third = Input::new("c");
    assert!(!third.parse::<T>(&mut emitter));
    // The latest call at offset 0 failed: there is no tree to build.
    assert!(emitter.try_green_tree::<T>(0).is_none());
}

#[test]
fn run_accepts_the_chain_and_rejects_a_longer_text() {
    let (succeeded, emitter) = peglog::run::<T>("bbbbba");
    assert!(succeeded);
    assert_eq!(leaves(&emitter.green_tree::<T>(0)), "bbbbba");
    let (succeeded, emitter) = peglog::run::<T>("bbaXYZ");
    assert!(!succeeded);
    assert_eq!(leaves(&emitter.green_tree::<T>(0)), "bba");
}
