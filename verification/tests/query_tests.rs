use floresline_launcher::query::{parse_calc, parse_web_action};

#[test]
fn calc_with_and_without_space() {
    let (d, r) = parse_calc("=2+2").unwrap();
    assert_eq!(r.as_deref(), Some("4"));
    assert!(d.contains('4'));

    let (d, r) = parse_calc("= 2+2").unwrap();
    assert_eq!(r.as_deref(), Some("4"));
    assert!(d.contains('4'));
}

#[test]
fn calc_bare_equals_shows_hint() {
    let (d, r) = parse_calc("=").unwrap();
    assert!(r.is_none());
    assert!(d.contains("type expression"));

    let (d, r) = parse_calc("=   ").unwrap();
    assert!(r.is_none());
    assert!(d.contains("type expression"));
}

#[test]
fn calc_fullwidth_equals() {
    let (d, r) = parse_calc("＝2+2").unwrap();
    assert_eq!(r.as_deref(), Some("4"));
    assert!(d.contains('4'));

    let (d, r) = parse_calc("＝ 3*3").unwrap();
    assert_eq!(r.as_deref(), Some("9"));
    assert!(d.contains('9'));

    let (d, r) = parse_calc("＝").unwrap();
    assert!(r.is_none());
    assert!(d.contains("type expression"));
}

#[test]
fn calc_invalid() {
    let (d, r) = parse_calc("=2+").unwrap();
    assert!(r.is_none());
    assert!(d.contains("invalid"));
    assert!(parse_calc("hello").is_none());
}

#[test]
fn web_question_with_and_without_space() {
    let (t, u) = parse_web_action("?rust").unwrap();
    assert!(t.contains("DuckDuckGo"));
    assert!(u.contains("duckduckgo.com"));
    assert!(u.contains("rust"));

    let (t, u) = parse_web_action("? rust lang").unwrap();
    assert!(t.contains("DuckDuckGo"));
    assert!(u.contains("rust"));
}

#[test]
fn web_engines_and_empty() {
    assert!(parse_web_action("ddg").is_none());
    assert!(parse_web_action("ddg ").is_none());
    assert!(parse_web_action("?").is_none());

    let (t, u) = parse_web_action("ddg hello").unwrap();
    assert!(t.contains("DuckDuckGo"));
    assert!(u.contains("hello"));

    let (t, u) = parse_web_action("gs hello").unwrap();
    assert!(t.contains("Google"));
    assert!(u.contains("google.com"));

    let (t, u) = parse_web_action("google hello world").unwrap();
    assert!(t.contains("Google"));
    assert!(u.contains("hello"));

    let (t, u) = parse_web_action("https://example.com").unwrap();
    assert!(t.contains("Open"));
    assert_eq!(u, "https://example.com");
}
