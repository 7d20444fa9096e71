use refix::operation::ExecError;
use refix::text::{find_matching_paren, template, underline_span};

#[test]
fn test_find_matching_paren() {
    assert_eq!(find_matching_paren("()", 0), Some(1));
    assert_eq!(find_matching_paren("()", 1), Some(0));
    assert_eq!(find_matching_paren("x()", 0), None);
    assert_eq!(find_matching_paren("<()>", 0), Some(3));
    assert_eq!(find_matching_paren("<()>", 1), Some(2));
    assert_eq!(find_matching_paren("<()>", 2), Some(1));
    assert_eq!(find_matching_paren("<()>", 3), Some(0));
    assert_eq!(find_matching_paren("<([{}])>", 0), Some(7));
    assert_eq!(find_matching_paren("<([{}])>", 7), Some(0));
    assert_eq!(find_matching_paren("<a(b[c{d}e]f)g>", 0), Some(14));
    assert_eq!(find_matching_paren("<a(b[c{d}e]f)g>", 14), Some(0));
    assert_eq!(find_matching_paren("<a(b[c{d}e]f)g>", 2), Some(12));
    assert_eq!(find_matching_paren("<a(b[c{d}e]f)g>", 12), Some(2));
}

#[test]
fn test_mismatched_bracket_kinds_never_match() {
    // A mismatched closing kind yields no match at all, never a wrong one.
    assert_eq!(find_matching_paren("(]", 0), None);
    assert_eq!(find_matching_paren("(]", 1), None);
    assert_eq!(find_matching_paren("[)", 0), None);
    assert_eq!(find_matching_paren("{>", 0), None);
    assert_eq!(find_matching_paren("([)]", 0), None);
    // An unclosed bracket runs off the buffer.
    assert_eq!(find_matching_paren("((", 0), None);
    assert_eq!(find_matching_paren("))", 1), None);
}

#[test]
fn test_involution_on_nested_input() {
    // Matching twice returns to the start, for every bracket in the text.
    let s = "<a(b[c{d}e]f)g>";
    for i in 0..s.len() {
        if let Some(j) = find_matching_paren(s, i) {
            assert_eq!(find_matching_paren(s, j), Some(i));
        }
    }
}

fn increment_a(a: &str) -> Result<Option<String>, ExecError> {
    // Only do something to a-prefixed names
    let Some(a) = a.strip_prefix('a') else {
        return Ok(None);
    };
    let a = a
        .parse::<u64>()
        .expect("Invalid integer in template variable");
    Ok(Some((a + 1).to_string()))
}

#[test]
fn test_template() {
    assert_eq!(template("$a123", increment_a).unwrap(), "124".to_owned());
    assert_eq!(template("${a0}", increment_a).unwrap(), "1".to_owned());
    assert_eq!(
        template("XX$a123 XX", increment_a).unwrap(),
        "XX124 XX".to_owned()
    );
    assert_eq!(
        template("XX${a0}XX", increment_a).unwrap(),
        "XX1XX".to_owned()
    );
    assert_eq!(
        template("12${a2}45", increment_a).unwrap(),
        "12345".to_owned()
    );
    assert_eq!(
        template("$${a2}$$", increment_a).unwrap(),
        "$3$$".to_owned()
    );
    assert_eq!(template("${b2}", increment_a).unwrap(), "${b2}".to_owned());
}

#[test]
fn test_template_resolver_error_stops() {
    fn failing(_name: &str) -> Result<Option<String>, ExecError> {
        Err(ExecError::UnknownOp("boom".to_owned()))
    }
    let r = template("$abc", failing);
    assert!(matches!(r, Err(ExecError::UnknownOp(_))));

    // The error of the leftmost rejected placeholder is the one returned;
    // placeholders before it are resolved, later ones never consulted.
    fn reject_by_name(name: &str) -> Result<Option<String>, ExecError> {
        match name {
            "ok" => Ok(Some("O".to_owned())),
            _ => Err(ExecError::UnknownOp(name.to_owned())),
        }
    }
    let r = template("$ok $bad1 $bad2", reject_by_name);
    assert!(matches!(r, Err(ExecError::UnknownOp(n)) if n == "bad1"));
}

#[test]
fn test_underline_span_keeps_surroundings() {
    let r = underline_span("hello world", 2..5);
    // The bytes outside the styled range stay as written.
    assert!(r.starts_with("he"));
    assert!(r.ends_with(" world"));
    assert!(r.len() >= "hello world".len());
}
