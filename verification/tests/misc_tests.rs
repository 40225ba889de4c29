use floresline_launcher::config::{from_file, Config, ConfigFile};
use floresline_launcher::desktop::AppEntry;
use floresline_launcher::extras::ExtraCommand;
use floresline_launcher::calc::calc_outcome;
use floresline_launcher::query::{key_action, selected_row, KeyAction, NavKey};
use floresline_launcher::launch::{exec_argv, gtk_launch_id, launch_plan, LaunchPlan, Terminal};
use floresline_launcher::query::{
    activation, alt_digit_index, next_selection, result_items, try_parse_web_action, Action,
    ResultItem,
};
use floresline_launcher::recents::Recents;

#[test]
fn extras_prefix_matching() {
    assert!(floresline_launcher::extras::matches("mtb", "mtb"));
    assert!(floresline_launcher::extras::matches("  MTB now ", "mtb"));
    assert!(!floresline_launcher::extras::matches("mtbx", "mtb"));
    assert!(!floresline_launcher::extras::matches("", "mtb"));
    assert!(!floresline_launcher::extras::matches("mtb", ""));
    assert!(floresline_launcher::extras::matches("mtb\tx", "mtb"));
    assert!(floresline_launcher::extras::matches("mtb\tnotes", "mtb"));
    assert!(floresline_launcher::extras::matches("MTB\u{3000}x", "mtb"));
}

#[test]
fn config_defaults_and_overrides() {
    let d = Config::default();
    assert_eq!(d.max_results, 9);
    assert_eq!(d.preferred_binding, "Super+backslash");
    assert!(!d.enable_super_alone_extension);
    let c = from_file(ConfigFile::default());
    assert_eq!(c.max_results, 9);
    assert_eq!(c.hint, d.hint);
    let mut f = ConfigFile::default();
    f.max_results = Some(0);
    f.hint = Some("  my hint ".into());
    f.preferred_binding = Some("   ".into());
    f.bind_super_slash = Some(false);
    let c = from_file(f);
    assert_eq!(c.max_results, 1);
    assert_eq!(c.hint, "my hint");
    assert_eq!(c.preferred_binding, "Super+backslash");
    assert!(!c.bind_super_slash);
    let mut f = ConfigFile::default();
    f.max_results = Some(500);
    assert_eq!(from_file(f).max_results, 50);
}

fn app(terminal: bool, exec: &str, id: &str) -> AppEntry {
    AppEntry {
        name: "A".into(),
        exec_cmd: exec.into(),
        desktop_id: id.into(),
        comment: String::new(),
        keywords: String::new(),
        icon: "i".into(),
        terminal,
    }
}

#[test]
fn launch_plans() {
    match launch_plan(&app(false, "x", "org.app.desktop"), true, true).unwrap() {
        LaunchPlan::GtkLaunch { id } => assert_eq!(id, "org.app"),
        _ => panic!("expected gtk-launch"),
    }
    match launch_plan(&app(true, "htop -d 1", "h.desktop"), true, true).unwrap() {
        LaunchPlan::InTerminal { terminal, args } => {
            assert_eq!(terminal, Terminal::Ptyxis);
            assert_eq!(args, vec!["--", "bash", "-lc", "htop -d 1"]);
        }
        _ => panic!("expected ptyxis"),
    }
    match launch_plan(&app(true, "htop", "h.desktop"), false, true).unwrap() {
        LaunchPlan::InTerminal { terminal, args } => {
            assert_eq!(terminal, Terminal::GnomeTerminal);
            assert_eq!(args, vec!["-e", "htop"]);
        }
        _ => panic!("expected gnome-terminal"),
    }
    match launch_plan(&app(true, "sh -c 'echo hi'", "h.desktop"), false, false).unwrap() {
        LaunchPlan::Direct { argv } => assert_eq!(argv, vec!["sh", "-c", "echo hi"]),
        _ => panic!("expected direct"),
    }
    assert!(launch_plan(&app(true, "bad 'quote", "h.desktop"), false, false).is_err());
}

#[test]
fn exec_argv_errors() {
    assert_eq!(exec_argv("a 'b c'"), Ok(vec!["a".to_string(), "b c".to_string()]));
    assert_eq!(exec_argv("   "), Err("empty Exec".to_string()));
    assert_eq!(exec_argv("a \"b"), Err("failed to parse Exec: a \"b".to_string()));
    assert_eq!(gtk_launch_id("x.desktop"), "x");
    assert_eq!(gtk_launch_id("x.desk"), "x.desk");
    assert_eq!(gtk_launch_id(".desktop"), "");
}

#[test]
fn web_actions_exact() {
    let w = try_parse_web_action("? rust lang").unwrap().unwrap();
    assert_eq!(w.0, "Search DuckDuckGo: rust lang");
    assert_eq!(w.1, "https://duckduckgo.com/?q=rust%20lang");
    let w = try_parse_web_action("GS Caffè ~x").unwrap().unwrap();
    assert_eq!(w.0, "Search Google: Caffè ~x");
    assert_eq!(w.1, "https://www.google.com/search?q=Caff%C3%A8%20~x");
    let w = try_parse_web_action("  HTTP://Example.com/a b ").unwrap().unwrap();
    assert_eq!(w.0, "Open HTTP://Example.com/a b");
    assert_eq!(w.1, "HTTP://Example.com/a b");
    assert_eq!(try_parse_web_action("?"), Some(None));
    assert_eq!(try_parse_web_action("hello"), Some(None));
    assert_eq!(try_parse_web_action("?é"), Some(Some(("Search DuckDuckGo: é".to_string(), "https://duckduckgo.com/?q=%C3%A9".to_string()))));
}

fn named(name: &str, id: &str) -> AppEntry {
    let mut a = app(false, "x", id);
    a.name = name.into();
    a
}

#[test]
fn result_rows_by_query_kind() {
    let apps: Vec<AppEntry> = (0..60).map(|i| named(&format!("App {i:02}"), &format!("{i}.desktop"))).collect();
    let extras = vec![ExtraCommand { prefix: "app".into(), label: "Run app".into(), command: "echo".into() }];
    let rec = Recents::new();
    let rows = result_items("=1+1", calc_outcome("=1+1"), &apps, &rec, &extras, 0, 50).unwrap();
    assert_eq!(rows.len(), 1);
    assert!(matches!(&rows[0], ResultItem::Calc { display, result: Some(r) } if display == "= 2" && r == "2"));
    let rows = result_items("ddg x", None, &apps, &rec, &extras, 0, 50).unwrap();
    assert!(matches!(&rows[0], ResultItem::Web { url, .. } if url == "https://duckduckgo.com/?q=x"));
    let rows = result_items("app", None, &apps, &rec, &extras, 0, 50).unwrap();
    assert_eq!(rows.len(), 50);
    let rows = result_items("app", None, &apps, &rec, &extras, 0, 100).unwrap();
    assert_eq!(rows.len(), 51);
    assert!(matches!(&rows[0], ResultItem::Extra { label, .. } if label == "Run app"));
    assert!(matches!(&rows[1], ResultItem::App(a) if a.name == "App 00"));
    let rows = result_items("app 59", None, &apps, &rec, &extras, 0, 50).unwrap();
    assert!(matches!(&rows[1], ResultItem::App(a) if a.name == "App 59"));
}

#[test]
fn rows_capped_at_max_results() {
    let apps: Vec<AppEntry> = (0..10).map(|i| named(&format!("App {i:02}"), &format!("{i}.desktop"))).collect();
    let extras = vec![ExtraCommand { prefix: "app".into(), label: "Run app".into(), command: "echo".into() }];
    let rec = Recents::new();
    let rows = result_items("app", None, &apps, &rec, &extras, 0, 9).unwrap();
    assert_eq!(rows.len(), 9);
    assert!(matches!(&rows[0], ResultItem::Extra { .. }));
    assert!(matches!(&rows[8], ResultItem::App(a) if a.name == "App 07"));
    let rows = result_items("", None, &apps, &rec, &extras, 0, 50).unwrap();
    assert_eq!(rows.len(), 10);
    let rows = result_items("=2*3", calc_outcome("=2*3"), &apps, &rec, &extras, 0, 1).unwrap();
    assert_eq!(rows.len(), 1);
    let rows = result_items("=2*3", calc_outcome("=2*3"), &apps, &rec, &extras, 0, 0).unwrap();
    assert!(rows.is_empty());
}

#[test]
fn activation_actions() {
    let rows = vec![
        ResultItem::Calc { display: "= 4".into(), result: Some("4".into()) },
        ResultItem::Calc { display: "= (invalid expression)".into(), result: None },
        ResultItem::Web { title: "t".into(), url: "u".into() },
        ResultItem::Extra { label: "l".into(), command: "c".into() },
        ResultItem::App(named("N", "n.desktop")),
    ];
    assert!(matches!(activation(&rows, 0), Action::CopyResult { result, requery } if result == "4" && requery == "=4"));
    assert!(matches!(activation(&rows, 1), Action::Nothing));
    assert!(matches!(activation(&rows, 2), Action::OpenUrl(u) if u == "u"));
    assert!(matches!(activation(&rows, 3), Action::RunShell(c) if c == "c"));
    assert!(matches!(activation(&rows, 4), Action::Launch(a) if a.name == "N"));
    assert!(matches!(activation(&rows, 9), Action::Nothing));
}

#[test]
fn selection_and_alt_digits() {
    assert_eq!(next_selection(0, Some(0), 1), None);
    assert_eq!(next_selection(3, None, 1), Some(1));
    assert_eq!(next_selection(3, Some(2), 1), Some(2));
    assert_eq!(next_selection(3, Some(0), -1), Some(0));
    assert_eq!(alt_digit_index(true, false, false, Some(1)), Some(0));
    assert_eq!(alt_digit_index(true, false, false, Some(9)), Some(8));
    assert_eq!(alt_digit_index(true, false, false, Some(0)), None);
    assert_eq!(alt_digit_index(true, true, false, Some(3)), None);
    assert_eq!(alt_digit_index(false, false, false, Some(3)), None);
    assert_eq!(alt_digit_index(true, false, true, Some(3)), None);
}

#[test]
fn key_handling() {
    assert_eq!(key_action(NavKey::Escape, Some(2)), KeyAction::Quit);
    assert_eq!(key_action(NavKey::Other, Some(2)), KeyAction::ActivateRow(2));
    assert_eq!(key_action(NavKey::Down, None), KeyAction::MoveSelection(1));
    assert_eq!(key_action(NavKey::Up, None), KeyAction::MoveSelection(-1));
    assert_eq!(key_action(NavKey::Enter, None), KeyAction::ActivateSelected);
    assert_eq!(key_action(NavKey::Other, None), KeyAction::Pass);
    assert_eq!(selected_row(None), 0);
    assert_eq!(selected_row(Some(4)), 4);
    assert_eq!(selected_row(Some(-1)), usize::MAX);
}
