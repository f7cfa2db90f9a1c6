use app_launcher::index::{build_index, AppInfo, DescriptorRecord};

fn record(name: Option<&str>, exec: Option<&str>, no_display: bool) -> DescriptorRecord {
    DescriptorRecord {
        name: name.map(|s| s.to_string()),
        exec_template: exec.map(|s| s.to_string()),
        icon: None,
        description: None,
        no_display,
    }
}

fn names(v: &[AppInfo]) -> Vec<String> {
    v.iter().map(|e| e.name.clone()).collect()
}

#[test]
fn three_records() {
    let records = vec![
        record(Some("Files"), Some(""), false),
        record(Some("Editor"), Some("edit"), false),
        record(Some("editor2"), Some("edit2"), true),
    ];
    let index = build_index(records);
    assert_eq!(names(&index), vec!["Editor".to_string()]);
    assert_eq!(index[0].exec_template, "edit");
    assert_eq!(index[0].icon, "");
    assert_eq!(index[0].description, "");
}

#[test]
fn missing_exec_is_dropped() {
    let index = build_index(vec![record(Some("A"), None, false)]);
    assert!(index.is_empty());
}

#[test]
fn empty_records_give_empty_index() {
    assert!(build_index(vec![]).is_empty());
}

#[test]
fn sorted_without_regard_to_case() {
    let records = vec![
        record(Some("zeta"), Some("z"), false),
        record(Some("Beta"), Some("b"), false),
        record(Some("alpha"), Some("a"), false),
        record(Some("Gamma"), Some("g"), false),
    ];
    let index = build_index(records);
    assert_eq!(names(&index), vec!["alpha", "Beta", "Gamma", "zeta"]);
}

#[test]
fn equal_names_keep_discovery_order() {
    let records = vec![
        record(Some("Term"), Some("first"), false),
        record(Some("b"), Some("x"), false),
        record(Some("term"), Some("second"), false),
        record(Some("Term"), Some("third"), false),
    ];
    let index = build_index(records);
    assert_eq!(names(&index), vec!["b", "Term", "term", "Term"]);
    assert_eq!(index[1].exec_template, "first");
    assert_eq!(index[2].exec_template, "second");
    assert_eq!(index[3].exec_template, "third");
}

#[test]
fn missing_name_uses_placeholder() {
    let mut r = record(None, Some("run"), false);
    r.icon = Some("icon.png".to_string());
    r.description = Some("Does things".to_string());
    let index = build_index(vec![r]);
    assert_eq!(index.len(), 1);
    assert_eq!(index[0].name, "Unknown");
    assert_eq!(index[0].icon, "icon.png");
    assert_eq!(index[0].description, "Does things");
}

#[test]
fn admitted_entries_have_commands_and_are_shown() {
    let records = vec![
        record(Some("a"), Some("x"), true),
        record(Some("b"), Some(""), false),
        record(Some("c"), Some("y"), false),
        record(Some("d"), None, false),
    ];
    let index = build_index(records);
    assert_eq!(names(&index), vec!["c"]);
    for e in &index {
        assert!(!e.exec_template.is_empty());
    }
}

#[test]
fn duplicate_copies_every_field() {
    let e = AppInfo {
        name: "n".to_string(),
        exec_template: "e".to_string(),
        icon: "i".to_string(),
        description: "d".to_string(),
    };
    let c = e.duplicate();
    assert_eq!((c.name, c.exec_template, c.icon, c.description), (e.name, e.exec_template, e.icon, e.description));
}
