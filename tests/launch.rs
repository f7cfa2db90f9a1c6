use app_launcher::index::AppInfo;
use app_launcher::launch::{command_for_selection, find_by_name};

fn entry(name: &str, exec: &str) -> AppInfo {
    AppInfo {
        name: name.to_string(),
        exec_template: exec.to_string(),
        icon: String::new(),
        description: String::new(),
    }
}

#[test]
fn selection_finds_first_named_entry() {
    let index = vec![entry("A", "a"), entry("B", "b1 %u"), entry("B", "b2")];
    assert_eq!(find_by_name(&index, "B"), Some(1));
    assert_eq!(find_by_name(&index, "C"), None);
    assert_eq!(find_by_name(&index, "b"), None);
}

#[test]
fn selection_gives_stripped_command() {
    let index = vec![entry("Viewer", "viewer %F --new"), entry("Other", "o")];
    assert_eq!(command_for_selection(&index, "Viewer"), Some("viewer --new".to_string()));
    assert_eq!(command_for_selection(&index, "Nope"), None);
}
