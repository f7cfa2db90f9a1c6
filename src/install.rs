//! The descriptor text that installs a web page as an application.
use vstd::prelude::*;
use crate::browser::{has_prefix, is_prefix};
use crate::text::{chars_of, is_white, white};

verus! {

/// Every character of `s` is whitespace.
pub open spec fn is_blank(s: Seq<char>) -> bool {
    forall|i: int| 0 <= i < s.len() ==> white(#[trigger] s[i])
}

pub fn blank(s: &str) -> (r: bool)
    ensures
        r == is_blank(s@),
{
    let cs = chars_of(s);
    let mut i: usize = 0;
    while i < cs.len()
        invariant
            i <= cs@.len(),
            cs@ == s@,
            forall|j: int| 0 <= j < i ==> white(#[trigger] cs@[j]),
        decreases cs@.len() - i,
    {
        if !is_white(cs[i]) {
            return false;
        }
        i = i + 1;
    }
    true
}

/// An icon given by `http://` or `https://` address is downloaded; any
/// other is a local file to copy.
pub open spec fn is_remote(icon: Seq<char>) -> bool {
    is_prefix("http://"@, icon) || is_prefix("https://"@, icon)
}

pub fn is_remote_icon(icon: &str) -> (r: bool)
    ensures
        r == is_remote(icon@),
{
    let cs = chars_of(icon);
    has_prefix(&cs, "http://") || has_prefix(&cs, "https://")
}

/// The descriptor text: name, comment, the command that runs the page in app
/// mode, and the icon; then the MIME types where some were given that are
/// not blank.
pub open spec fn desktop_text(
    name: Seq<char>,
    url: Seq<char>,
    icon: Seq<char>,
    mime: Option<Seq<char>>,
) -> Seq<char> {
    let body = "[Desktop Entry]\nVersion=1.0\nName="@ + name + "\nComment="@ + name
        + " Web App\nExec=web-app-run "@ + url + "\nTerminal=false\nType=Application\nIcon="@
        + icon + "\nStartupNotify=true\n"@;
    match mime {
        Some(m) => if is_blank(m) {
            body
        } else {
            body + "MimeType="@ + m + "\n"@
        },
        None => body,
    }
}

pub fn desktop_file_text(name: &str, url: &str, icon_path: &str, mime: Option<&str>) -> (r: String)
    ensures
        r@ == desktop_text(
            name@,
            url@,
            icon_path@,
            match mime {
                Some(m) => Some(m@),
                None => None,
            },
        ),
{
    let mut t = String::from_str("[Desktop Entry]\nVersion=1.0\nName=");
    t.append(name);
    t.append("\nComment=");
    t.append(name);
    t.append(" Web App\nExec=web-app-run ");
    t.append(url);
    t.append("\nTerminal=false\nType=Application\nIcon=");
    t.append(icon_path);
    t.append("\nStartupNotify=true\n");
    match mime {
        Some(m) => {
            if !blank(m) {
                t.append("MimeType=");
                t.append(m);
                t.append("\n");
            }
        },
        None => {},
    }
    t
}

} // verus!
