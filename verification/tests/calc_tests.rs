use floresline_launcher::calc::{
    calc_outcome, calc_row_from, calculator_result, eval_live, eval_meval, fallback_expr, live_result,
    meval_outcome, shown_value, bc_result, format_meval, is_calc_query,
    parse_calc, strip_calc_prefix, Backend,
};

#[test]
fn strip_prefix_ascii_and_fullwidth() {
    assert_eq!(strip_calc_prefix("=2+2"), Some("2+2"));
    assert_eq!(strip_calc_prefix("= 2+2"), Some("2+2"));
    assert_eq!(strip_calc_prefix("＝3*3"), Some("3*3"));
    assert_eq!(strip_calc_prefix("＝ 3*3"), Some("3*3"));
    assert_eq!(strip_calc_prefix("="), Some(""));
    assert_eq!(strip_calc_prefix("＝"), Some(""));
    assert_eq!(strip_calc_prefix("=   "), Some(""));
    assert!(strip_calc_prefix("hello").is_none());
    assert!(strip_calc_prefix("").is_none());
}

#[test]
fn is_calc_detects_prefix() {
    assert!(is_calc_query("=2"));
    assert!(is_calc_query("  =2"));
    assert!(is_calc_query("＝1"));
    assert!(!is_calc_query("2+2"));
    assert!(!is_calc_query(""));
}

#[test]
fn bare_equals_hint() {
    let row = parse_calc("=", false, None).unwrap();
    assert!(row.result.is_none());
    assert!(row.title.contains("type expression"));
    assert!(!row.subtitle.is_empty());

    let row = parse_calc("=   ", true, None).unwrap();
    assert!(row.result.is_none());
}

#[test]
fn calc_basic_arithmetic() {
    let row = parse_calc("=2+2", false, None).unwrap();
    assert_eq!(row.result.as_deref(), Some("4"));
    assert_eq!(row.title, "2+2");
    assert!(row.subtitle.contains('4'));

    let row = parse_calc("= 2+2", true, None).unwrap();
    assert_eq!(row.result.as_deref(), Some("4"));

    let row = parse_calc("＝3*3", false, None).unwrap();
    assert_eq!(row.result.as_deref(), Some("9"));
    assert_eq!(row.title, "3*3");
}

#[test]
fn calc_invalid_no_copy() {
    let row = parse_calc("=2+", false, None).unwrap();
    assert!(row.result.is_none());
    assert!(row.subtitle.to_lowercase().contains("invalid"));
    assert!(parse_calc("hello", false, None).is_none());
}

#[test]
fn live_preview_does_not_require_gnome() {
    let row = parse_calc("=10/2", false, None).unwrap();
    assert_eq!(row.result.as_deref(), Some("5"));
    assert_eq!(row.title, "10/2");
}

// ---- own tests

#[test]
fn strip_and_is_calc_agree() {
    for q in ["=1", "  ＝ x", "x=1", "", "   ", " = ", "\u{3000}=2", "a"] {
        assert_eq!(is_calc_query(q), strip_calc_prefix(q).is_some(), "query {q:?}");
    }
}

#[test]
fn hint_rows_name_gnome_calculator() {
    let with = parse_calc("=", true, None).unwrap();
    assert_eq!(with.title, "= type expression");
    assert_eq!(with.subtitle, "e.g. 2+2 · Enter copies result");
    let without = parse_calc("=", false, None).unwrap();
    assert_eq!(without.subtitle, "e.g. 2+2 · install gnome-calculator for GNOME solve");
}

#[test]
fn value_subtitle_mentions_builtin_without_gnome() {
    let row = parse_calc("=1+1", false, None).unwrap();
    assert_eq!(row.subtitle, "2  ·  uses built-in (apt install gnome-calculator)");
    let row = parse_calc("=1+1", true, None).unwrap();
    assert_eq!(row.subtitle, "2");
}

#[test]
fn invalid_row_subtitle_exact() {
    let row = parse_calc("=2+", true, None).unwrap();
    assert_eq!(row.title, "2+");
    assert_eq!(row.subtitle, "invalid · invalid expression");
}

#[test]
fn bc_answer_used_only_when_meval_rejects() {
    let row = parse_calc("=2+", true, Some(Ok("7".to_string()))).unwrap();
    assert_eq!(row.result.as_deref(), Some("7"));
    let row = parse_calc("=2+3", true, Some(Ok("7".to_string()))).unwrap();
    assert_eq!(row.result.as_deref(), Some("5"));
    let row = parse_calc("=2+", true, Some(Err("syntax error".to_string()))).unwrap();
    assert!(row.result.is_none());
}

#[test]
fn eval_live_backends() {
    assert_eq!(eval_live("1+2", None), Ok(("3".to_string(), Backend::Meval)));
    assert_eq!(eval_live("1+", Some(Ok("x".into()))), Ok(("x".to_string(), Backend::Bc)));
    assert_eq!(eval_live("1+", None), Err("invalid expression".to_string()));
    assert_eq!(eval_live(" \t", Some(Ok("1".into()))), Err("invalid expression".to_string()));
    assert_eq!(eval_live("", None), Err("invalid expression".to_string()));
}

#[test]
fn whitespace_expressions_are_rejected_without_evaluating() {
    assert_eq!(eval_meval(" "), Err(()));
    assert_eq!(eval_meval(" \t\r\n"), Err(()));
    assert_eq!(eval_meval(""), Err(()));
    assert_eq!(meval_outcome("  "), None);
    assert_eq!(calc_outcome("=   "), None);
    assert_eq!(calc_outcome("hello"), None);
    assert_eq!(meval_outcome("1/4"), Some((0.25f64.to_bits(), "0.25".to_string())));
}

#[test]
fn rows_from_one_evaluation() {
    let o = calc_outcome("= 6*7");
    assert_eq!(o, Some((42f64.to_bits(), "42".to_string())));
    let row = calc_row_from("= 6*7", true, o, None).unwrap();
    assert_eq!(row.title, "6*7");
    assert_eq!(row.result.as_deref(), Some("42"));
    let row = calc_row_from("=2+", false, None, Some(Ok("3".into()))).unwrap();
    assert_eq!(row.result.as_deref(), Some("3"));
    assert_eq!(row.subtitle, "3  ·  uses built-in (apt install gnome-calculator)");
    assert_eq!(live_result(Some((0.5f64.to_bits(), "0.5".into())), None), Ok(("0.5".to_string(), Backend::Meval)));
    assert_eq!(shown_value(Some((3f64.to_bits(), "3".into()))), Ok("3".to_string()));
    assert_eq!(shown_value(None), Err(()));
}

#[test]
fn fallback_only_for_rejected_expressions() {
    assert_eq!(fallback_expr("=2+", &calc_outcome("=2+")), Some("2+".to_string()));
    assert_eq!(fallback_expr("=2+2", &calc_outcome("=2+2")), None);
    assert_eq!(fallback_expr("=", &None), None);
    assert_eq!(fallback_expr("hello", &None), None);
}

#[test]
fn meval_formats_integers_and_fractions() {
    assert_eq!(eval_meval("10/4"), Ok("2.5".to_string()));
    assert_eq!(eval_meval("0.1+0.2"), Ok("0.30000000000000004".to_string()));
    assert_eq!(eval_meval("0.1*3*10"), Ok("3".to_string()));
    assert_eq!(eval_meval("-7/7"), Ok("-1".to_string()));
    assert_eq!(eval_meval("2+"), Err(()));
}

fn float_format(v: f64) -> String {
    if (v - v.round()).abs() < 1e-10 && v.abs() < 1e15 {
        format!("{}", v.round() as i64)
    } else {
        format!("{v}")
    }
}

fn assert_formats_like_float(v: f64) {
    assert_eq!(format_meval(v.to_bits(), &v.to_string()), float_format(v), "value {v:e} bits {:#x}", v.to_bits());
}

#[test]
fn format_meval_matches_rounding_rule() {
    let specials = [
        0.0, -0.0, 1.0, -1.0, 0.5, -0.5, 1.5, -1.5, 2.5, 1e-10, -1e-10, 1.0000000001, 0.99999999995,
        1e-11, 5e-324, 1e15, 1e15 - 1.0, 999999999999999.9, -999999999999999.9, 4503599627370496.0,
        1e300, f64::NAN, f64::INFINITY, f64::NEG_INFINITY, 123456.78, 3.0000000000000004,
        0.49999999999999994, 1e-10 + 1e-26, 2.0f64.powi(-86), 7.0 + 1e-10, 7.0 - 1e-10,
    ];
    for v in specials {
        assert_formats_like_float(v);
        assert_formats_like_float(-v);
    }
    // A deterministic spread of magnitudes and fractions.
    let mut x: u64 = 0x9e3779b97f4a7c15;
    for _ in 0..20000 {
        x ^= x << 13;
        x ^= x >> 7;
        x ^= x << 17;
        let bits = x;
        assert_formats_like_float(f64::from_bits(bits));
        let scale = (x % 40) as i32 - 20;
        let near = ((x >> 8) % 1000) as f64 + ((x >> 20) % 3) as f64 * 10f64.powi(scale);
        assert_formats_like_float(near);
        assert_formats_like_float(-near);
    }
}

#[test]
fn gnome_calculator_output_interpreted() {
    assert_eq!(calculator_result(true, " 5\n", ""), Ok("5".to_string()));
    assert_eq!(calculator_result(true, "Error: bad", ""), Err("Error: bad".to_string()));
    assert_eq!(calculator_result(false, "", "** (x): warn\nsyntax error\n"), Err("syntax error".to_string()));
    assert_eq!(calculator_result(false, "", "** a\n** b"), Err("invalid expression".to_string()));
    assert_eq!(calculator_result(false, "", "**Error here"), Err("**Error here".to_string()));
    assert_eq!(calculator_result(false, "", ""), Err("invalid expression".to_string()));
    assert_eq!(calculator_result(false, "7", ""), Err("7".to_string()));
}

#[test]
fn bc_output_interpreted() {
    let v: f64 = "5.000000000".parse().unwrap();
    assert_eq!(
        bc_result(true, "5.000000000\n", "", Some((v.to_bits(), v.to_string()))),
        Ok("5".to_string())
    );
    let v: f64 = ".333333333".parse().unwrap();
    assert_eq!(
        bc_result(true, ".333333333\n", "", Some((v.to_bits(), v.to_string()))),
        Ok("0.333333333".to_string())
    );
    assert_eq!(bc_result(true, " 1e \n", "", None), Ok("1e".to_string()));
    assert_eq!(bc_result(true, "3\n", "(standard_in) 1: syntax error\n", None), Err("(standard_in) 1: syntax error".to_string()));
    assert_eq!(bc_result(false, "", "", None), Err("invalid expression".to_string()));
    assert_eq!(bc_result(true, "  ", "", None), Err("invalid expression".to_string()));
}
