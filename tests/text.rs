use app_launcher::text::{is_white, parse_first_exec_token, strip_field_codes};

#[test]
fn field_codes_are_stripped() {
    assert_eq!(strip_field_codes("app.bin %f --flag %u"), "app.bin --flag");
}

#[test]
fn runs_of_whitespace_become_one_space() {
    assert_eq!(strip_field_codes("  a \t b\n\nc  "), "a b c");
}

#[test]
fn only_field_codes_give_empty_command() {
    assert_eq!(strip_field_codes("%U %F"), "");
    assert_eq!(strip_field_codes(""), "");
}

#[test]
fn percent_words_anywhere_are_dropped() {
    assert_eq!(strip_field_codes("%k run %%x -x%y"), "run -x%y");
}

#[test]
fn shell_operators_survive() {
    assert_eq!(strip_field_codes("sh -c 'a | b' %u"), "sh -c 'a | b'");
}

#[test]
fn whitespace_test_matches_std() {
    for c in [' ', '\t', '\n', '\r', '\u{a0}', '\u{2003}', '\u{3000}', 'a', '%', '\u{200b}'] {
        assert_eq!(is_white(c), c.is_whitespace());
    }
}

#[test]
fn exec_token_found() {
    let text = "[Desktop Entry]\nName=Chromium\n  Exec=/usr/bin/chromium %U\nExec=other\n";
    assert_eq!(parse_first_exec_token(text), Some("/usr/bin/chromium".to_string()));
}

#[test]
fn exec_line_without_token_is_skipped() {
    let text = "Exec=   \nTryExec=x\nExec=brave --flag\n";
    assert_eq!(parse_first_exec_token(text), Some("brave".to_string()));
}

#[test]
fn exec_token_absent() {
    assert_eq!(parse_first_exec_token("Name=X\nTryExec=y\n"), None);
    assert_eq!(parse_first_exec_token(""), None);
}

#[test]
fn exec_token_with_crlf() {
    assert_eq!(parse_first_exec_token("Name=a\r\nExec=vivaldi\r\n"), Some("vivaldi".to_string()));
}

#[test]
fn exec_token_on_last_line_without_newline() {
    assert_eq!(parse_first_exec_token("X=1\n\tExec=opera"), Some("opera".to_string()));
}
