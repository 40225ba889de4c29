use floresline_launcher::desktop::{
    collect_apps, desktop_dirs, parse_desktop_entry, strip_exec_codes, AppEntry, DesktopFile,
};

#[test]
fn strips_field_codes() {
    assert_eq!(strip_exec_codes("foo %u %F"), "foo");
    assert_eq!(strip_exec_codes("%f bar"), "bar");
    assert_eq!(strip_exec_codes("app --flag"), "app --flag");
}

// ---- own tests

#[test]
fn field_codes_edge_cases() {
    assert_eq!(strip_exec_codes("  app  "), "app");
    assert_eq!(strip_exec_codes("app %x"), "app %x");
    assert_eq!(strip_exec_codes("app 100%"), "app 100%");
    assert_eq!(strip_exec_codes("a\t%k%m b"), "a b");
    assert_eq!(strip_exec_codes("%%f"), "%");
}

fn entry(name: &str, id: &str) -> AppEntry {
    AppEntry {
        name: name.into(),
        exec_cmd: "x".into(),
        desktop_id: id.into(),
        comment: String::new(),
        keywords: String::new(),
        icon: "i".into(),
        terminal: false,
    }
}

#[test]
fn haystack_joins_and_lowercases() {
    let mut a = entry("Fire Fox", "firefox.desktop");
    a.comment = "Web BROWSER".into();
    a.keywords = "net www".into();
    assert_eq!(a.haystack(), "fire fox web browser net www firefox.desktop");
}

#[test]
fn parse_full_entry() {
    let text = "[Desktop Entry]\nType=Application\nName = Text Editor \nExec=gedit %U\nComment=Edit files\nKeywords=text;editor;\nIcon=gedit\nTerminal=TRUE\n[Desktop Action new]\nName=New\n";
    let a = parse_desktop_entry(text, "org.gnome.gedit.desktop").unwrap();
    assert_eq!(a.name, "Text Editor");
    assert_eq!(a.exec_cmd, "gedit");
    assert_eq!(a.desktop_id, "org.gnome.gedit.desktop");
    assert_eq!(a.comment, "Edit files");
    assert_eq!(a.keywords, "text editor ");
    assert_eq!(a.icon, "gedit");
    assert!(a.terminal);
}

#[test]
fn parse_defaults_and_last_key_wins() {
    let text = "# c\n[Desktop Entry]\r\nName=A\r\nName=B\r\nExec=b\r\n";
    let a = parse_desktop_entry(text, "b.desktop").unwrap();
    assert_eq!(a.name, "B");
    assert_eq!(a.comment, "");
    assert_eq!(a.keywords, "");
    assert_eq!(a.icon, "application-x-executable");
    assert!(!a.terminal);
}

#[test]
fn parse_rejections() {
    assert!(parse_desktop_entry("Name=A\nExec=a\n", "a.desktop").is_none());
    assert!(parse_desktop_entry("[Desktop Entry]\nType=Link\nName=A\nExec=a\n", "a.desktop").is_none());
    assert!(parse_desktop_entry("[Desktop Entry]\nName=A\nExec=a\nNoDisplay=true\n", "a.desktop").is_none());
    assert!(parse_desktop_entry("[Desktop Entry]\nName=A\nExec=a\nHidden=True\n", "a.desktop").is_none());
    assert!(parse_desktop_entry("[Desktop Entry]\nName=A\n", "a.desktop").is_none());
    assert!(parse_desktop_entry("[Desktop Entry]\nExec=a\n", "a.desktop").is_none());
    assert!(parse_desktop_entry("[Desktop Entry]\nName=A\nExec= %U\n", "a.desktop").is_none());
    // Keys after the next group header are not part of the entry.
    assert!(parse_desktop_entry("[Desktop Entry]\nName=A\n[Other]\nExec=a\n", "a.desktop").is_none());
    // NoDisplay=false keeps the entry.
    assert!(parse_desktop_entry("[Desktop Entry]\nName=A\nExec=a\nNoDisplay=false\n", "a.desktop").is_some());
}

#[test]
fn dirs_follow_home() {
    let d = desktop_dirs("/home/u");
    assert_eq!(d[0], "/home/u/.local/share/applications");
    assert_eq!(d[1], "/usr/share/applications");
    assert_eq!(d[3], "/home/u/.local/share/flatpak/exports/share/applications");
    assert_eq!(d.len(), 6);
    let d = desktop_dirs("/");
    assert_eq!(d[0], "/.local/share/applications");
    let d = desktop_dirs("");
    assert_eq!(d[0], ".local/share/applications");
}

fn file(name: &str, text: Option<&str>) -> DesktopFile {
    DesktopFile { name: name.into(), text: text.map(|t| t.to_string()) }
}

#[test]
fn collect_dedupes_and_sorts() {
    let files = vec![
        file("b.desktop", Some("[Desktop Entry]\nName=beta\nExec=b\n")),
        file("a.desktop", Some("[Desktop Entry]\nName=Alpha\nExec=a\n")),
        file("x.desktop", None),
        file("b.desktop", Some("[Desktop Entry]\nName=Other\nExec=o\n")),
        file("c.desktop", Some("[Desktop Entry]\nName=gamma\nExec=c\nHidden=true\n")),
        file("c.desktop", Some("[Desktop Entry]\nName=Gamma\nExec=c\n")),
        file("d.desktop", Some("[Desktop Entry]\nName=ALPHA\nExec=d\n")),
    ];
    let apps = collect_apps(files);
    let names: Vec<&str> = apps.iter().map(|a| a.name.as_str()).collect();
    assert_eq!(names, vec!["Alpha", "ALPHA", "beta", "Gamma"]);
    assert_eq!(apps[3].desktop_id, "c.desktop");
}
