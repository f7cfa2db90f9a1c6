use app_launcher::install::{blank, desktop_file_text, is_remote_icon};

#[test]
fn descriptor_text_without_mime() {
    let t = desktop_file_text("Mail", "https://mail.example", "/h/icons/Mail.png", None);
    assert_eq!(
        t,
        "[Desktop Entry]\nVersion=1.0\nName=Mail\nComment=Mail Web App\nExec=web-app-run https://mail.example\nTerminal=false\nType=Application\nIcon=/h/icons/Mail.png\nStartupNotify=true\n"
    );
}

#[test]
fn descriptor_text_with_mime() {
    let t = desktop_file_text("A", "u", "i", Some("x-scheme-handler/mailto;"));
    assert!(t.ends_with("StartupNotify=true\nMimeType=x-scheme-handler/mailto;\n"));
}

#[test]
fn blank_mime_is_left_out() {
    let t = desktop_file_text("A", "u", "i", Some("  \t"));
    assert!(t.ends_with("StartupNotify=true\n"));
    assert!(!t.contains("MimeType"));
}

#[test]
fn blank_text() {
    assert!(blank(""));
    assert!(blank(" \n"));
    assert!(!blank(" a "));
}

#[test]
fn remote_icons() {
    assert!(is_remote_icon("http://x/y.png"));
    assert!(is_remote_icon("https://x/y.png"));
    assert!(!is_remote_icon("/home/u/y.png"));
    assert!(!is_remote_icon("ftp://x"));
}
