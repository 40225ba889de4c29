use floresline_launcher::desktop::AppEntry;
use floresline_launcher::fuzzy::{rank, rank_at, score, try_rank, try_score};
use floresline_launcher::recents::{RecentEntry, Recents};

fn app(name: &str, id: &str, comment: &str, keywords: &str) -> AppEntry {
    AppEntry {
        name: name.into(),
        exec_cmd: "x".into(),
        desktop_id: id.into(),
        comment: comment.into(),
        keywords: keywords.into(),
        icon: "i".into(),
        terminal: false,
    }
}

#[test]
fn score_branches() {
    let a = app("Firefox", "firefox.desktop", "Web Browser", "internet www");
    assert_eq!(score("", &a), Some(0));
    assert_eq!(score("   ", &a), Some(0));
    assert_eq!(score("fire", &a), Some(1000 - 7));
    assert_eq!(score(" FOX ", &a), Some(800 - 4));
    assert_eq!(score("web internet", &a), Some(500));
    assert_eq!(score("fwb", &a), Some(200 - "firefox web browser internet www firefox.desktop".len() as i32));
    assert_eq!(score("zzz", &a), None);
}

#[test]
fn score_counts_bytes() {
    let a = app("Café Tool", "cafe.desktop", "", "");
    // "tool" starts after "café " which is 6 bytes.
    assert_eq!(score("tool", &a), Some(800 - 6));
    assert_eq!(score("caf", &a), Some(1000 - "café tool".len() as i32));
}

#[test]
fn try_score_agrees_when_in_range() {
    let a = app("Files", "nautilus.desktop", "", "");
    assert_eq!(try_score("fil", &a), Some(score("fil", &a)));
}

#[test]
fn rank_orders_by_score_then_name() {
    let apps = vec![
        app("Terminal", "t.desktop", "", ""),
        app("term", "t2.desktop", "", ""),
        app("Text Editor", "te.desktop", "", "terminal"),
        app("Zed", "z.desktop", "", ""),
    ];
    let r = rank_at("term", &apps, &Recents::new(), 1000);
    let names: Vec<(i32, &str)> = r.iter().map(|(s, a)| (*s, a.name.as_str())).collect();
    assert_eq!(names, vec![(996, "term"), (992, "Terminal"), (500, "Text Editor")]);
}

#[test]
fn rank_ties_keep_input_order() {
    let apps = vec![app("b", "1.desktop", "", ""), app("B", "2.desktop", "", ""), app("a", "3.desktop", "", "")];
    let r = rank_at("", &apps, &Recents::new(), 0);
    let ids: Vec<&str> = r.iter().map(|(_, a)| a.desktop_id.as_str()).collect();
    assert_eq!(ids, vec!["3.desktop", "1.desktop", "2.desktop"]);
}

#[test]
fn empty_query_prefers_recents() {
    let apps = vec![app("Alpha", "a.desktop", "", ""), app("Beta", "b.desktop", "", "")];
    let mut rec = Recents::new();
    rec.record_at("b.desktop", 5000);
    let r = rank_at("", &apps, &rec, 5000);
    assert_eq!(r[0].1.name, "Beta");
    assert_eq!(r[0].0, 70);
    assert_eq!(r[1].0, 0);
    assert_eq!(r.len(), 2);
}

#[test]
fn rank_and_try_rank_run_with_clock() {
    let apps = vec![app("Alpha", "a.desktop", "", "")];
    let rec = Recents::new();
    assert_eq!(rank("alp", &apps, &rec).len(), 1);
    assert_eq!(try_rank("alp", &apps, &rec).unwrap().len(), 1);
}

#[test]
fn bonus_levels() {
    let rec = Recents::from_entries(vec![
        ("a".to_string(), RecentEntry { count: 3, last_used: 100 }),
        ("b".to_string(), RecentEntry { count: 20, last_used: 0 }),
        ("c".to_string(), RecentEntry { count: 0, last_used: 0 }),
    ]);
    assert_eq!(rec.bonus_at("a", 100), 60 + 50);
    assert_eq!(rec.bonus_at("a", 100 + 3600), 60 + 30);
    assert_eq!(rec.bonus_at("a", 100 + 86_400), 60 + 15);
    assert_eq!(rec.bonus_at("a", 100 + 604_800), 60 + 5);
    assert_eq!(rec.bonus_at("b", 10_000_000), 200 + 5);
    assert_eq!(rec.bonus_at("c", 10_000_000), 0);
    assert_eq!(rec.bonus_at("a", 0), 60 + 50);
    assert_eq!(rec.bonus_at("zzz", 5), 0);
}

#[test]
fn record_counts_and_timestamps() {
    let mut rec = Recents::new();
    rec.record_at("", 5);
    assert!(rec.entries().is_empty());
    rec.record_at("x.desktop", 10);
    rec.record_at("x.desktop", 20);
    rec.record_at("y.desktop", 30);
    assert_eq!(rec.get("x.desktop"), Some(RecentEntry { count: 2, last_used: 20 }));
    assert_eq!(rec.get("y.desktop"), Some(RecentEntry { count: 1, last_used: 30 }));
    assert_eq!(rec.entries().len(), 2);
    let mut full = Recents::from_entries(vec![("z".into(), RecentEntry { count: u32::MAX, last_used: 0 })]);
    full.record_at("z", 1);
    assert_eq!(full.get("z").unwrap().count, u32::MAX);
    rec.record("y.desktop");
    assert_eq!(rec.get("y.desktop").unwrap().count, 2);
    assert!(rec.bonus("y.desktop") >= 40);
}

#[test]
fn just_launched_bonus_at_least_seventy() {
    let mut rec = Recents::new();
    rec.record_at("app.desktop", 42);
    assert!(rec.bonus_at("app.desktop", 42) >= 70);
}

#[test]
fn history_keeps_one_entry_per_id() {
    let mut rec = Recents::from_entries(vec![
        ("a".into(), RecentEntry { count: 3, last_used: 7 }),
        ("b".into(), RecentEntry { count: 1, last_used: 9 }),
        ("a".into(), RecentEntry { count: 99, last_used: 1 }),
    ]);
    assert_eq!(rec.entries().len(), 2);
    assert_eq!(rec.get("a"), Some(RecentEntry { count: 3, last_used: 7 }));
    rec.record_at("a", 50);
    assert_eq!(rec.get("a"), Some(RecentEntry { count: 4, last_used: 50 }));
    assert_eq!(rec.entries().len(), 2);
}

#[test]
fn wrapped_counts_give_negative_bonus() {
    let rec = Recents::from_entries(vec![
        ("w".into(), RecentEntry { count: 4_187_593_114, last_used: 100 }),
        ("big".into(), RecentEntry { count: 3_000_000_000, last_used: 100 }),
    ]);
    assert_eq!(rec.bonus_at("w", 100), -2_147_483_640 + 50);
    let apps = vec![app("Wide", "w", "", ""), app("Other", "o", "", "")];
    let r = rank_at("", &apps, &rec, 100);
    assert_eq!(r[0].1.name, "Other");
    assert_eq!(r[1].0, -2_147_483_590);
    let too_big = vec![app("Big", "big", "", "")];
    assert!(try_rank_at_is_none(&too_big, &rec));
}

fn try_rank_at_is_none(apps: &[AppEntry], rec: &Recents) -> bool {
    floresline_launcher::fuzzy::try_rank_at("", apps, rec, 100).is_none()
}
