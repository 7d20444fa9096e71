use refix::message::{CompilerMessage, CompilerMessageCode};
use refix::selector::{Selector, TopLevelSelector};

fn msg_with_code(code: Option<&str>) -> CompilerMessage {
    CompilerMessage {
        code: code.map(|c| CompilerMessageCode {
            code: Some(c.to_owned()),
        }),
        level: "warning".to_owned(),
        message: "m".to_owned(),
        spans: vec![],
        children: vec![],
    }
}

#[test]
fn test_selector_parsing() {
    assert_eq!("list".parse::<TopLevelSelector>(), Ok(TopLevelSelector::List));
    assert_eq!("all".parse::<TopLevelSelector>(), Ok(TopLevelSelector::All));
    assert_eq!(
        "E0001".parse::<TopLevelSelector>(),
        Ok(TopLevelSelector::Error(1))
    );
    assert_eq!(
        "E0432".parse::<TopLevelSelector>(),
        Ok(TopLevelSelector::Error(432))
    );
    assert_eq!(
        "dead_code".parse::<TopLevelSelector>(),
        Ok(TopLevelSelector::Lint("dead_code".to_owned()))
    );
    assert_eq!(
        "clippy::needless_pass_by_value".parse::<TopLevelSelector>(),
        Ok(TopLevelSelector::Lint(
            "clippy::needless_pass_by_value".to_owned()
        ))
    );
    // Not of the form E<digits>: a lint name.
    assert_eq!(
        "E12x".parse::<TopLevelSelector>(),
        Ok(TopLevelSelector::Lint("E12x".to_owned()))
    );
    // The part before the first colon decides.
    let s: Selector = "all:rest".parse().unwrap();
    assert_eq!(s.top, TopLevelSelector::All);
    let s: Selector = "E7".parse().unwrap();
    assert_eq!(s.top, TopLevelSelector::Error(7));
}

#[test]
fn test_selector_matching() {
    let e1 = msg_with_code(Some("E0001"));
    let lint = msg_with_code(Some("dead_code"));
    let none = msg_with_code(None);

    assert!(TopLevelSelector::All.matches(&e1));
    assert!(TopLevelSelector::All.matches(&lint));
    assert!(!TopLevelSelector::All.matches(&none));
    assert!(TopLevelSelector::List.matches(&lint));

    assert!(TopLevelSelector::Error(1).matches(&e1));
    assert!(!TopLevelSelector::Error(2).matches(&e1));
    assert!(!TopLevelSelector::Error(1).matches(&lint));
    assert!(!TopLevelSelector::Error(1).matches(&none));

    assert!(TopLevelSelector::Lint("dead_code".to_owned()).matches(&lint));
    assert!(!TopLevelSelector::Lint("dead_code".to_owned()).matches(&e1));

    let s = Selector {
        top: TopLevelSelector::Error(1),
    };
    assert!(s.matches(&e1));
}

#[test]
fn test_is_singular() {
    let normal = msg_with_code(Some("E0001"));
    assert!(normal.is_singular());

    let mut note = msg_with_code(None);
    note.level = "failure-note".to_owned();
    assert!(!note.is_singular());

    let mut tally = msg_with_code(None);
    tally.message = "aborting due to 3 previous errors".to_owned();
    assert!(!tally.is_singular());
}
