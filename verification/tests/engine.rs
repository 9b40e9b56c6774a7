//! The steps of the engine one by one: literals, alternatives, rule calls.

use peglog::{Emitter, Event, Input, Language, ParseResult, Parser};

struct Lang;

impl Language for Lang {
    const TOKEN: u16 = 0;
}

/// `X -> "x"`
struct X;

impl Parser for X {
    type Language = Lang;
    const KIND: u16 = 7;

    fn parse(input: &mut Input<'_>, emitter: &mut Emitter) -> bool {
        input.clause(emitter, 7, 1, |input, emitter| input.consume("x", emitter))
    }
}

#[test]
fn new_input_starts_at_zero() {
    assert_eq!(Input::new("abc").position(), 0);
    assert_eq!(Input::new("").position(), 0);
}

#[test]
fn consume_moves_past_a_matching_literal() {
    let mut emitter = Emitter::default();
    let mut input = Input::new("hello world");
    assert!(input.consume("hello", &mut emitter));
    assert_eq!(input.position(), 5);
    assert_eq!(emitter.len(), 1);
    match emitter.event(0) {
        Some(Event::Consume { text }) => assert_eq!(text, "hello"),
        other => panic!("unexpected event {:?}", other),
    }
    assert!(input.consume(" ", &mut emitter));
    assert!(input.consume("world", &mut emitter));
    assert_eq!(input.position(), 11);
    assert_eq!(emitter.len(), 3);
}

#[test]
fn consume_changes_nothing_without_a_match() {
    let mut emitter = Emitter::default();
    let mut input = Input::new("hello");
    assert!(!input.consume("help", &mut emitter));
    assert_eq!(input.position(), 0);
    assert_eq!(emitter.len(), 0);
    assert!(!input.consume("hello!", &mut emitter));
    assert_eq!(input.position(), 0);
    assert_eq!(emitter.len(), 0);
}

#[test]
fn consume_at_the_end_matches_the_empty_literal_only() {
    let mut emitter = Emitter::default();
    let mut input = Input::new("a");
    assert!(input.consume("a", &mut emitter));
    assert_eq!(input.position(), 1);
    assert!(!input.consume("a", &mut emitter));
    assert!(input.consume("", &mut emitter));
    assert_eq!(input.position(), 1);
    assert_eq!(emitter.len(), 2);
    match emitter.event(1) {
        Some(Event::Consume { text }) => assert_eq!(text, ""),
        other => panic!("unexpected event {:?}", other),
    }
}

#[test]
fn consume_counts_bytes_not_characters() {
    let mut emitter = Emitter::default();
    let mut input = Input::new("\u{e9}t\u{e9}");
    // U+00E8 shares its first byte with U+00E9.
    assert!(!input.consume("\u{e8}", &mut emitter));
    assert_eq!(input.position(), 0);
    assert!(input.consume("\u{e9}", &mut emitter));
    assert_eq!(input.position(), 2);
    assert!(input.consume("t\u{e9}", &mut emitter));
    assert_eq!(input.position(), 5);
}

#[test]
fn copy_of_an_input_is_a_snapshot() {
    let mut emitter = Emitter::default();
    let mut input = Input::new("ab");
    let snapshot = input;
    assert!(input.consume("a", &mut emitter));
    assert_eq!(input.position(), 1);
    assert_eq!(snapshot.position(), 0);
    input = snapshot;
    assert_eq!(input.position(), 0);
    // The log keeps what was consumed before the restore.
    assert_eq!(emitter.len(), 1);
}

#[test]
fn failed_clause_restores_the_position() {
    let mut emitter = Emitter::default();
    let mut input = Input::new("abcd");
    assert!(input.consume("a", &mut emitter));
    let ok = input.clause(&mut emitter, 9, 2, |input, emitter| {
        input.consume("b", emitter) && input.consume("c", emitter) && input.consume("x", emitter)
    });
    assert!(!ok);
    assert_eq!(input.position(), 1);
    // Consume a, Start, Consume b, Consume c, Abort
    assert_eq!(emitter.len(), 5);
    assert!(matches!(
        emitter.event(1),
        Some(Event::Start { kind: 9, clause_id: 2, position: 1 })
    ));
    assert!(matches!(emitter.event(4), Some(Event::Abort)));
    assert!(matches!(
        emitter.outcome(1),
        Some(ParseResult::Failure { start_log_index: 1, end_log_index: 4 })
    ));
}

#[test]
fn failed_clause_restores_the_position_after_nested_calls() {
    let mut emitter = Emitter::default();
    let mut input = Input::new("xxxy");
    let ok = input.clause(&mut emitter, 9, 1, |input, emitter| {
        input.parse::<X>(emitter)
            && input.clause(emitter, 9, 5, |input, emitter| {
                input.parse::<X>(emitter) && input.parse::<X>(emitter)
            })
            && input.parse::<X>(emitter)
    });
    assert!(!ok);
    assert_eq!(input.position(), 0);
    assert!(matches!(emitter.outcome(0), Some(ParseResult::Failure { .. })));
}

#[test]
fn successful_clause_keeps_the_position_of_its_body() {
    let mut emitter = Emitter::default();
    let mut input = Input::new("abc");
    let ok = input.clause(&mut emitter, 3, 1, |input, emitter| {
        input.consume("a", emitter) && input.consume("b", emitter)
    });
    assert!(ok);
    assert_eq!(input.position(), 2);
    assert_eq!(emitter.len(), 4);
    assert!(matches!(emitter.event(3), Some(Event::Commit)));
    assert!(matches!(
        emitter.outcome(0),
        Some(ParseResult::Success { start_log_index: 0, end_log_index: 3 })
    ));
}

#[test]
fn rule_call_is_logged_with_clause_zero() {
    let mut emitter = Emitter::default();
    let mut input = Input::new("xy");
    assert!(input.parse::<X>(&mut emitter));
    assert_eq!(input.position(), 1);
    assert!(matches!(
        emitter.event(0),
        Some(Event::Start { kind: 7, clause_id: 0, position: 0 })
    ));
    assert!(matches!(
        emitter.event(1),
        Some(Event::Start { kind: 7, clause_id: 1, position: 0 })
    ));
    assert_eq!(emitter.len(), 5);
    assert!(!input.parse::<X>(&mut emitter));
    assert_eq!(input.position(), 1);
    assert!(matches!(
        emitter.event(5),
        Some(Event::Start { kind: 7, clause_id: 0, position: 1 })
    ));
    assert!(matches!(
        emitter.outcome(5),
        Some(ParseResult::Failure { start_log_index: 5, end_log_index: 8 })
    ));
    assert_eq!(emitter.len(), 9);
}

#[test]
fn log_only_grows() {
    let mut emitter = Emitter::default();
    let mut input = Input::new("xxz");
    let mut lengths = vec![emitter.len()];
    let mut snapshots: Vec<String> = Vec::new();
    for _ in 0..3 {
        input.parse::<X>(&mut emitter);
        lengths.push(emitter.len());
        let mut all = String::new();
        for index in 0..emitter.len() {
            all.push_str(&format!("{:?};", emitter.event(index).unwrap()));
        }
        snapshots.push(all);
    }
    assert_eq!(lengths, vec![0, 5, 10, 14]);
    assert!(snapshots[1].starts_with(&snapshots[0]));
    assert!(snapshots[2].starts_with(&snapshots[1]));
}

#[test]
fn start_log_index_of_each_state() {
    assert_eq!(ParseResult::Running { start_log_index: 3 }.start_log_index(), 3);
    assert_eq!(
        ParseResult::Success { start_log_index: 4, end_log_index: 9 }.start_log_index(),
        4
    );
    assert_eq!(
        ParseResult::Failure { start_log_index: 5, end_log_index: 6 }.start_log_index(),
        5
    );
}

#[test]
fn attempt_is_running_while_its_body_runs() {
    let mut emitter = Emitter::default();
    let mut input = Input::new("x");
    let mut seen = None;
    let ok = input.clause(&mut emitter, 9, 1, |input, emitter| {
        seen = emitter.outcome(0);
        input.consume("x", emitter)
    });
    assert!(ok);
    assert!(matches!(seen, Some(ParseResult::Running { start_log_index: 0 })));
    assert!(matches!(emitter.outcome(0), Some(ParseResult::Success { .. })));
}

#[test]
fn call_that_is_still_running_has_no_tree() {
    struct Peek;
    impl Parser for Peek {
        type Language = Lang;
        const KIND: u16 = 8;
        fn parse(input: &mut Input<'_>, emitter: &mut Emitter) -> bool {
            // Asked from inside its own body, the call has not ended yet.
            assert_eq!(emitter.find_call(8, 0), Some(0));
            assert!(matches!(
                emitter.outcome(0),
                Some(ParseResult::Running { start_log_index: 0 })
            ));
            assert!(emitter.try_green_tree::<Peek>(0).is_none());
            input.clause(emitter, 8, 1, |input, emitter| input.consume("p", emitter))
        }
    }
    let mut emitter = Emitter::default();
    let mut input = Input::new("p");
    assert!(input.parse::<Peek>(&mut emitter));
    let tree = emitter.try_green_tree::<Peek>(0).expect("the call has ended");
    assert_eq!(tree.kind(), rowan::SyntaxKind(8));
    assert_eq!(tree.children().count(), 1);
}

#[test]
fn tree_of_a_call_that_read_nothing_has_no_children() {
    struct Nothing;
    impl Parser for Nothing {
        type Language = Lang;
        const KIND: u16 = 6;
        fn parse(input: &mut Input<'_>, emitter: &mut Emitter) -> bool {
            input.clause(emitter, 6, 1, |_, _| true)
        }
    }
    let mut emitter = Emitter::default();
    let mut input = Input::new("abc");
    assert!(input.parse::<Nothing>(&mut emitter));
    assert_eq!(input.position(), 0);
    let tree = emitter.green_tree::<Nothing>(0);
    assert_eq!(tree.kind(), rowan::SyntaxKind(6));
    assert_eq!(tree.children().count(), 0);
    assert_eq!(u32::from(tree.text_len()), 0);
}
