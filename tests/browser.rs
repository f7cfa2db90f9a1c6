use app_launcher::browser::{
    build_command, candidate_dirs, exec_from_candidates, is_supported_browser, on_default_browser,
    on_executable, on_start, FlowAction, EXIT_BROWSER, EXIT_EXEC_FAILED, EXIT_NOT_FOUND, EXIT_USAGE,
};

#[test]
fn single_argument_is_usage_error() {
    assert!(matches!(on_start(1), FlowAction::Exit(2)));
    assert!(matches!(on_start(0), FlowAction::Exit(2)));
    assert_eq!(EXIT_USAGE, 2);
}

#[test]
fn two_arguments_query_the_browser() {
    assert!(matches!(on_start(2), FlowAction::QueryDefaultBrowser));
    assert!(matches!(on_start(5), FlowAction::QueryDefaultBrowser));
}

#[test]
fn firefox_is_not_supported() {
    assert!(matches!(on_default_browser(Some("firefox".to_string())), FlowAction::Exit(1)));
    assert!(!is_supported_browser("firefox.desktop"));
}

#[test]
fn failed_or_empty_query_exits_one() {
    assert!(matches!(on_default_browser(None), FlowAction::Exit(1)));
    assert!(matches!(on_default_browser(Some(String::new())), FlowAction::Exit(1)));
    assert_eq!(EXIT_BROWSER, 1);
}

#[test]
fn supported_browser_is_located() {
    match on_default_browser(Some("brave-browser.desktop".to_string())) {
        FlowAction::LocateExecutable(id) => assert_eq!(id, "brave-browser.desktop"),
        other => panic!("unexpected {:?}", other),
    }
}

#[test]
fn allow_list_by_prefix() {
    for id in [
        "chromium.desktop",
        "google-chrome.desktop",
        "brave-browser.desktop",
        "microsoft-edge.desktop",
        "opera.desktop",
        "vivaldi-stable.desktop",
        "helium-browser.desktop",
    ] {
        assert!(is_supported_browser(id), "{}", id);
    }
    assert!(!is_supported_browser("chromiu"));
    assert!(!is_supported_browser(""));
    assert!(!is_supported_browser("org.chromium.desktop"));
}

#[test]
fn command_line_is_built() {
    let cmd = build_command(
        "/usr/bin/chromium".to_string(),
        "https://example.org",
        vec!["--incognito".to_string(), "x y".to_string()],
    );
    assert_eq!(
        cmd,
        vec![
            "setsid",
            "uwsm-app",
            "--",
            "/usr/bin/chromium",
            "--app=https://example.org",
            "--incognito",
            "x y"
        ]
    );
}

#[test]
fn missing_executable_exits_three() {
    assert!(matches!(on_executable(None, "u", vec![]), FlowAction::Exit(3)));
    assert_eq!(EXIT_NOT_FOUND, 3);
    assert_eq!(EXIT_EXEC_FAILED, 4);
}

#[test]
fn found_executable_is_run() {
    match on_executable(Some("vivaldi".to_string()), "t", vec![]) {
        FlowAction::ReplaceProcess(c) => {
            assert_eq!(c, vec!["setsid", "uwsm-app", "--", "vivaldi", "--app=t"])
        }
        other => panic!("unexpected {:?}", other),
    }
}

#[test]
fn search_dirs_with_home() {
    assert_eq!(
        candidate_dirs(Some("/home/u".to_string())),
        vec![
            "/home/u/.local/share/applications",
            "/home/u/.nix-profile/share/applications",
            "/usr/share/applications"
        ]
    );
}

#[test]
fn search_dirs_without_home() {
    assert_eq!(
        candidate_dirs(None),
        vec!["/.nix-profile/share/applications", "/usr/share/applications"]
    );
}

#[test]
fn first_directory_with_a_token_wins() {
    let texts = vec![
        None,
        Some("Name=x\n".to_string()),
        Some("Exec=second %U\n".to_string()),
        Some("Exec=third\n".to_string()),
    ];
    assert_eq!(exec_from_candidates(&texts), Some("second".to_string()));
    assert_eq!(exec_from_candidates(&vec![None, Some(String::new())]), None);
    assert_eq!(exec_from_candidates(&vec![]), None);
}
