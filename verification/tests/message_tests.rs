use refix::message::{
    CompilerMessage, Span, SpanText, SuggestionApplicability,
};

fn frag(text: &str, hs: usize, he: usize) -> SpanText {
    SpanText {
        highlight_start: hs,
        highlight_end: he,
        text: text.to_owned(),
    }
}

fn bare_span(file: &str, primary: bool) -> Span {
    Span {
        file_name: file.to_owned(),
        byte_start: 0,
        byte_end: 0,
        line_start: 1,
        line_end: 1,
        column_start: 1,
        column_end: 1,
        text: vec![],
        label: None,
        is_primary: primary,
        suggested_replacement: None,
        suggestion_applicability: None,
    }
}

#[test]
fn test_fragment_accessors() {
    let f = frag("let mut x = 1;", 5, 9);
    assert_eq!(f.highlighted_span(), 4..8);
    assert_eq!(f.highlighted(), "mut ");
    assert_eq!(f.replace_highlighted(""), "let x = 1;");
    assert_eq!(f.replace_highlighted("const "), "let const x = 1;");
}

#[test]
fn test_highlight_in_multibyte_tail() {
    // Highlight bounds are byte offsets: a highlight over a two-byte
    // character in the tail of the fragment is sliced exactly.
    let f = frag("a\u{e9}b", 2, 4);
    assert_eq!(f.highlighted_span(), 1..3);
    assert_eq!(f.highlighted(), "\u{e9}");
    assert_eq!(f.replace_highlighted("X"), "aXb");
}

#[test]
fn test_raw_text_concatenates_fragments() {
    let mut s = bare_span("f", true);
    s.text = vec![frag("foo", 1, 2), frag("bar", 1, 2), frag("", 1, 1)];
    assert_eq!(s.raw_text(), "foobar");
}

#[test]
fn test_primary_and_help_selection() {
    let mut msg = CompilerMessage {
        code: None,
        level: "error".to_owned(),
        message: "m".to_owned(),
        spans: vec![
            bare_span("a", true),
            bare_span("b", false),
            bare_span("c", true),
        ],
        children: vec![],
    };
    let prims = msg.primary_spans();
    assert_eq!(prims.len(), 2);
    assert_eq!(prims[0].file_name, "a");
    assert_eq!(prims[1].file_name, "c");

    // Only spans of help children that carry a replacement count.
    let mut with_sug = bare_span("h", false);
    with_sug.suggested_replacement = Some("fix".to_owned());
    with_sug.text = vec![frag("body", 1, 3)];
    let mut without_sug = bare_span("h2", false);
    without_sug.text = vec![frag("body", 1, 3)];
    msg.children = vec![
        CompilerMessage {
            code: None,
            level: "help".to_owned(),
            message: "try this".to_owned(),
            spans: vec![with_sug, without_sug],
            children: vec![],
        },
        CompilerMessage {
            code: None,
            level: "note".to_owned(),
            message: "aside".to_owned(),
            spans: vec![bare_span("n", false)],
            children: vec![],
        },
    ];
    let helps = msg.help_items();
    assert_eq!(helps.len(), 1);
    assert_eq!(helps[0].file_name, "h");
}

#[test]
fn test_spans_with_suggestions_sorted() {
    // Two eligible suggestions arrive unsorted; they come out sorted
    // ascending by range start.
    let mut primary = bare_span("f", true);
    primary.text = vec![frag("abcdef", 2, 4)];

    let mut sug_late = bare_span("f", false);
    sug_late.text = vec![frag("abcdef", 5, 6)];
    sug_late.suggested_replacement = Some("LATE".to_owned());
    sug_late.suggestion_applicability = Some(SuggestionApplicability::MachineApplicable);

    let mut sug_early = bare_span("f", false);
    sug_early.text = vec![frag("abcdef", 1, 2)];
    sug_early.suggested_replacement = Some("EARLY".to_owned());

    // Raw text differs: not eligible.
    let mut sug_other = bare_span("f", false);
    sug_other.text = vec![frag("zzzzzz", 1, 2)];
    sug_other.suggested_replacement = Some("OTHER".to_owned());

    let msg = CompilerMessage {
        code: None,
        level: "error".to_owned(),
        message: "m".to_owned(),
        spans: vec![primary],
        children: vec![CompilerMessage {
            code: None,
            level: "help".to_owned(),
            message: "h".to_owned(),
            spans: vec![sug_late, sug_early, sug_other],
            children: vec![],
        }],
    };
    let sws = msg.spans_with_suggestions();
    assert_eq!(sws.len(), 1);
    let sugs = &sws[0].suggestions;
    assert_eq!(sugs.len(), 2);
    assert_eq!(sugs[0].0, 0..1);
    assert_eq!(sugs[0].1, "EARLY");
    assert_eq!(sugs[0].2, SuggestionApplicability::Unspecified);
    assert_eq!(sugs[1].0, 4..5);
    assert_eq!(sugs[1].1, "LATE");
    assert_eq!(sugs[1].2, SuggestionApplicability::MachineApplicable);
}
