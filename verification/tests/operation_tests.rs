use refix::message::{CompilerMessage, CompilerMessageCode, Span, SpanText};
use refix::operation::{ExecError, Operation, TextOperation};

fn ops(tokens: &[&str]) -> Operation {
    Operation::new(false, tokens.iter().map(|t| t.to_string()).collect())
}

fn ops_auto(tokens: &[&str]) -> Operation {
    Operation::new(true, tokens.iter().map(|t| t.to_string()).collect())
}

fn span(file: &str, byte_start: usize, byte_end: usize, text: &str, hs: usize, he: usize) -> Span {
    Span {
        file_name: file.to_owned(),
        byte_start,
        byte_end,
        line_start: 1,
        line_end: 1,
        column_start: hs,
        column_end: he,
        text: vec![SpanText {
            highlight_start: hs,
            highlight_end: he,
            text: text.to_owned(),
        }],
        label: None,
        is_primary: true,
        suggested_replacement: None,
        suggestion_applicability: None,
    }
}

fn message(file: &str, byte_start: usize, byte_end: usize, text: &str, hs: usize, he: usize) -> CompilerMessage {
    CompilerMessage {
        code: Some(CompilerMessageCode {
            code: Some("dead_code".to_owned()),
        }),
        level: "warning".to_owned(),
        message: "unused".to_owned(),
        spans: vec![span(file, byte_start, byte_end, text, hs, he)],
        children: vec![],
    }
}

#[test]
fn test_run_delete_scenario() {
    // Fragment "let mut x = 1;", highlight on "mut ", program ["delete"].
    let op = ops(&["delete"]);
    let mut hay = b"let mut x = 1;".to_vec();
    op.run(&mut hay, 4..8).unwrap();
    assert_eq!(hay, b"let x = 1;");
}

#[test]
fn test_compute_diffs_delete_scenario() {
    // The same scenario through the synthesizer: one patch over the span's
    // outer byte range.
    let op = ops(&["delete"]);
    let msg = message("src/a.rs", 100, 114, "let mut x = 1;", 5, 9);
    let changes = op.compute_diffs(&msg).unwrap();
    assert_eq!(changes.len(), 1);
    assert_eq!(changes[0].file, "src/a.rs");
    assert_eq!(changes[0].patch.location, 100..114);
    assert_eq!(changes[0].patch.bytes, b"let x = 1;");
}

#[test]
fn test_matching_paren_selects_partner() {
    // Fragment "foo(bar)", selection at the index of "(": the selection
    // becomes the index of the matching ")".
    let op = TextOperation::MatchingParen;
    let mut stack: Vec<Vec<u8>> = Vec::new();
    let mut hay = b"foo(bar)".to_vec();
    let sel = op
        .apply(&mut stack, &mut hay, 3..4, 3..4, &Vec::new())
        .unwrap();
    assert_eq!(sel, 7..8);
}

#[test]
fn test_stack_underflow_on_fresh_stack() {
    // stack-drop and stack-dup on a fresh (empty) stack fail with a
    // stack-underflow error.
    let mut hay = b"abc".to_vec();
    let r = ops(&["stack-drop"]).run(&mut hay, 0..1);
    assert!(matches!(r, Err(ExecError::StackUnderflow(_))));
    let r = ops(&["stack-dup"]).run(&mut hay, 0..1);
    assert!(matches!(r, Err(ExecError::StackUnderflow(_))));
}

#[test]
fn test_replace_and_substitute_selection_length() {
    // After replace, the selection spans exactly the inserted bytes.
    let mut stack: Vec<Vec<u8>> = Vec::new();
    let mut hay = b"abcdef".to_vec();
    let args = vec!["XYZ".to_string()];
    let sel = TextOperation::Replace
        .apply(&mut stack, &mut hay, 1..3, 1..3, &args)
        .unwrap();
    assert_eq!(hay, b"aXYZdef");
    assert_eq!(sel, 1..4);
    assert_eq!(sel.len(), 3);

    // substitute rewrites the first match inside the selection and selects
    // the rewritten text.
    let mut hay = b"zabab".to_vec();
    let args = vec!["a(b)".to_string(), "X${1}Y".to_string()];
    let sel = TextOperation::Substitute
        .apply(&mut stack, &mut hay, 1..5, 1..5, &args)
        .unwrap();
    assert_eq!(hay, b"zXbYab");
    assert_eq!(sel, 1..6);

    // substitute-all rewrites every match.
    let mut hay = b"zabab".to_vec();
    let args = vec!["ab".to_string(), "!".to_string()];
    let sel = TextOperation::SubstituteAll
        .apply(&mut stack, &mut hay, 1..5, 1..5, &args)
        .unwrap();
    assert_eq!(hay, b"z!!");
    assert_eq!(sel, 1..3);
    assert_eq!(sel.len(), 2);
}

#[test]
fn test_regex_selection_ops() {
    // first selects the first match anywhere; the following replace makes
    // the new selection observable.
    let op = ops(&["first", "b+", "replace", "X"]);
    let mut hay = b"aabbbcc".to_vec();
    op.run(&mut hay, 0..0).unwrap();
    assert_eq!(hay, b"aaXcc");

    // next finds at or after the selection end.
    let op = ops(&["next", "a", "delete"]);
    let mut hay = b"abcabc".to_vec();
    op.run(&mut hay, 1..2).unwrap();
    assert_eq!(hay, b"abcbc");

    // previous finds the last match strictly before the selection start.
    let op = ops(&["previous", "a", "replace", "_"]);
    let mut hay = b"abcabc".to_vec();
    op.run(&mut hay, 5..6).unwrap();
    assert_eq!(hay, b"abc_bc");

    // narrow stays within the selection.
    let op = ops(&["narrow", "b", "replace", "B"]);
    let mut hay = b"abab".to_vec();
    op.run(&mut hay, 0..2).unwrap();
    assert_eq!(hay, b"aBab");

    // extend grows the selection when the match starts exactly at its end.
    let op = ops(&["extend", "cd", "delete"]);
    let mut hay = b"abcdef".to_vec();
    op.run(&mut hay, 0..2).unwrap();
    assert_eq!(hay, b"ef");
}

#[test]
fn test_whole_original_zero_parens() {
    let op = ops(&["whole", "delete"]);
    let mut hay = b"abc".to_vec();
    op.run(&mut hay, 1..2).unwrap();
    assert_eq!(hay, b"");

    // zero collapses the selection; delete then removes nothing.
    let op = ops(&["zero", "delete"]);
    let mut hay = b"abc".to_vec();
    op.run(&mut hay, 0..3).unwrap();
    assert_eq!(hay, b"abc");

    // original restores the starting selection after it moved.
    let op = ops(&["zero", "original", "delete"]);
    let mut hay = b"abc".to_vec();
    op.run(&mut hay, 1..3).unwrap();
    assert_eq!(hay, b"a");

    // parens walks back from the selection to the nearest bracket and
    // selects through its partner, brackets included.
    let op = ops(&["parens", "delete"]);
    let mut hay = b"f(a, b) + 1".to_vec();
    op.run(&mut hay, 3..4).unwrap();
    assert_eq!(hay, b"f + 1");
}

#[test]
fn test_stack_and_templates() {
    // stack-push saves the selection; $pop inserts it back.
    let op = ops(&["stack-push", "replace", "($pop)"]);
    let mut hay = b"ab".to_vec();
    op.run(&mut hay, 0..2).unwrap();
    assert_eq!(hay, b"(ab)");

    // $top peeks without popping, so it can be used twice.
    let op = ops(&["stack-push", "replace", "$top$top"]);
    let mut hay = b"xy".to_vec();
    op.run(&mut hay, 0..2).unwrap();
    assert_eq!(hay, b"xyxy");

    // An unknown name stays as written.
    let op = ops(&["replace", "$unknown"]);
    let mut hay = b"q".to_vec();
    op.run(&mut hay, 0..1).unwrap();
    assert_eq!(hay, b"$unknown");

    // $pop on an empty stack is a stack underflow.
    let op = ops(&["replace", "$pop"]);
    let mut hay = b"q".to_vec();
    let r = op.run(&mut hay, 0..1);
    assert!(matches!(r, Err(ExecError::StackUnderflow(_))));
}

#[test]
fn test_error_variants() {
    let mut hay = b"abc".to_vec();
    let r = ops(&["bogus-op"]).run(&mut hay, 0..1);
    assert!(matches!(r, Err(ExecError::UnknownOp(t)) if t == "bogus-op"));

    let r = ops(&["first", "("]).run(&mut hay, 0..1);
    assert!(matches!(r, Err(ExecError::InvalidRegex(t, _)) if t == "("));

    let r = ops(&["first"]).run(&mut hay, 0..1);
    assert!(matches!(r, Err(ExecError::NotEnoughArguments(TextOperation::First, 0))));

    let r = ops(&["first", "zzz"]).run(&mut hay, 0..1);
    assert!(matches!(r, Err(ExecError::NoMatches(TextOperation::First))));

    let r = ops(&["matching-paren"]).run(&mut hay, 0..2);
    assert!(matches!(r, Err(ExecError::NoMatches(TextOperation::MatchingParen))));
}

#[test]
fn test_stop_all_distinguishes_no_matches() {
    assert!(!ExecError::NoMatches(TextOperation::First).stop_all());
    assert!(ExecError::UnknownOp("x".to_owned()).stop_all());
    assert!(ExecError::StackUnderflow(TextOperation::StackDrop).stop_all());
    assert!(ExecError::NotEnoughArguments(TextOperation::First, 0).stop_all());
}

#[test]
fn test_no_matches_skips_only_that_diagnostic() {
    // A diagnostic whose run raises NoMatches yields zero patches and does
    // not abort processing of the next diagnostic.
    let op = ops(&["first", "zzz", "delete"]);
    let msg = message("a.rs", 0, 3, "abc", 1, 2);
    let changes = op.compute_diffs(&msg).unwrap();
    assert_eq!(changes.len(), 0);

    // First message misses, second matches: only the second yields a patch
    // and the run is not aborted.
    let op = ops(&["first", "q", "delete"]);
    let msgs = vec![
        message("miss.rs", 0, 3, "abc", 1, 2),
        message("hit.rs", 10, 13, "qqq", 1, 2),
    ];
    let (changes, aborted) = op.synthesize_all(&msgs);
    assert!(!aborted);
    assert_eq!(changes.len(), 1);
    assert_eq!(changes[0].file, "hit.rs");
    assert_eq!(changes[0].patch.bytes, b"qq");
}

#[test]
fn test_abort_keeps_earlier_patches() {
    // A stack underflow aborts the run, but patches synthesized from
    // earlier diagnostics are still present.  The first diagnostic's span
    // has no fragments, so it synthesizes an (empty) replacement without
    // running the program; the second runs the program and underflows.
    let mut empty_span_msg = message("early.rs", 10, 13, "", 1, 1);
    empty_span_msg.spans[0].text = vec![];
    let late = message("late.rs", 20, 23, "xyz", 1, 4);
    let op = ops(&["stack-drop"]);
    let (changes, aborted) = op.synthesize_all(&vec![empty_span_msg, late]);
    assert!(aborted);
    assert_eq!(changes.len(), 1);
    assert_eq!(changes[0].file, "early.rs");
    assert_eq!(changes[0].patch.location, 10..13);
    assert_eq!(changes[0].patch.bytes, b"");
}

#[test]
fn test_parse_and_arity() {
    assert_eq!(TextOperation::parse("stack-drop"), Some(TextOperation::StackDrop));
    assert_eq!(TextOperation::parse("s-drop"), Some(TextOperation::StackDrop));
    assert_eq!(TextOperation::parse("push"), Some(TextOperation::StackPush));
    assert_eq!(TextOperation::parse("mp"), Some(TextOperation::MatchingParen));
    assert_eq!(TextOperation::parse("sub-all"), Some(TextOperation::SubstituteAll));
    assert_eq!(TextOperation::parse("sa"), Some(TextOperation::SubstituteAll));
    assert_eq!(TextOperation::parse("p"), Some(TextOperation::Previous));
    assert_eq!(TextOperation::parse("nonsense"), None);
    assert_eq!(TextOperation::Substitute.arg_count(), 2);
    assert_eq!(TextOperation::Replace.arg_count(), 1);
    assert_eq!(TextOperation::Delete.arg_count(), 0);
}

#[test]
fn test_suggestion_folding() {
    // An official suggestion is folded into the fragment first, and the
    // program then works on the adjusted text.
    let mut msg = message("s.rs", 0, 14, "let mut x = 1;", 5, 9);
    msg.children = vec![CompilerMessage {
        code: None,
        level: "help".to_owned(),
        message: "remove this".to_owned(),
        spans: vec![Span {
            suggested_replacement: Some("".to_owned()),
            is_primary: false,
            ..span("s.rs", 0, 14, "let mut x = 1;", 5, 9)
        }],
        children: vec![],
    }];
    // With suggestions enabled and an empty program, the suggestion's
    // rewrite alone decides the replacement: "mut " deleted.
    let op = ops_auto(&[]);
    let changes = op.compute_diffs(&msg).unwrap();
    assert_eq!(changes.len(), 1);
    assert_eq!(changes[0].patch.bytes, b"let x = 1;");

    // With suggestions disabled the text is unchanged.
    let op = ops(&[]);
    let changes = op.compute_diffs(&msg).unwrap();
    assert_eq!(changes[0].patch.bytes, b"let mut x = 1;");
}
