//! The browser app-mode flow: resolve the default browser, check that it is
//! supported, find its executable and build the command that replaces the
//! process. Each step here decides; the caller does the outside work.
use vstd::prelude::*;
use crate::text::{chars_of, first_exec_token, lines, opt_view, parse_first_exec_token};

verus! {

/// Exit status when the command line has no target.
pub const EXIT_USAGE: i32 = 2;

/// Exit status when the default browser is unknown or not supported.
pub const EXIT_BROWSER: i32 = 1;

/// Exit status when no executable was found for the browser.
pub const EXIT_NOT_FOUND: i32 = 3;

/// Exit status when replacing the process failed.
pub const EXIT_EXEC_FAILED: i32 = 4;

/// What the caller does next.
#[derive(Debug)]
pub enum FlowAction {
    /// Ask the desktop for the default browser's identifier.
    QueryDefaultBrowser,
    /// Look for the executable of the browser with this identifier.
    LocateExecutable(String),
    /// Replace the process by this command line (program first).
    ReplaceProcess(Vec<String>),
    /// Stop with this exit status.
    Exit(i32),
}

pub open spec fn is_prefix(p: Seq<char>, s: Seq<char>) -> bool {
    p.len() <= s.len() && s.take(p.len() as int) == p
}

/// The browsers whose app-mode flag is known, by identifier prefix.
pub open spec fn is_supported(id: Seq<char>) -> bool {
    is_prefix("chromium"@, id) || is_prefix("google-chrome"@, id) || is_prefix("brave-browser"@, id)
        || is_prefix("microsoft-edge"@, id) || is_prefix("opera"@, id) || is_prefix("vivaldi"@, id)
        || is_prefix("helium-browser"@, id)
}

pub(crate) fn has_prefix(s: &Vec<char>, p: &str) -> (r: bool)
    ensures
        r == is_prefix(p@, s@),
{
    let n = p.unicode_len();
    if n > s.len() {
        return false;
    }
    let mut k: usize = 0;
    while k < n
        invariant
            n == p@.len() <= s@.len(),
            k <= n,
            forall|j: int| 0 <= j < k ==> s@[j] == p@[j],
        decreases n - k,
    {
        if s[k] != p.get_char(k) {
            assert(s@.take(n as int)[k as int] != p@[k as int]);
            return false;
        }
        k = k + 1;
    }
    assert(s@.take(n as int) =~= p@);
    true
}

/// Whether the browser with identifier `id` is supported.
pub fn is_supported_browser(id: &str) -> (r: bool)
    ensures
        r == is_supported(id@),
{
    let cs = chars_of(id);
    has_prefix(&cs, "chromium") || has_prefix(&cs, "google-chrome") || has_prefix(
        &cs,
        "brave-browser",
    ) || has_prefix(&cs, "microsoft-edge") || has_prefix(&cs, "opera") || has_prefix(
        &cs,
        "vivaldi",
    ) || has_prefix(&cs, "helium-browser")
}

/// The first step: a command line of fewer than two arguments (the program
/// and its target) is a usage error.
pub fn on_start(argc: usize) -> (a: FlowAction)
    ensures
        argc < 2 ==> a == FlowAction::Exit(EXIT_USAGE),
        argc >= 2 ==> a == FlowAction::QueryDefaultBrowser,
{
    if argc < 2 {
        FlowAction::Exit(EXIT_USAGE)
    } else {
        FlowAction::QueryDefaultBrowser
    }
}

/// The step after the default-browser query, given its answer (`None` where
/// the query failed): an unknown or unsupported browser ends the flow, a
/// supported one is looked for.
pub fn on_default_browser(answer: Option<String>) -> (a: FlowAction)
    ensures
        match answer {
            Some(id) => if id@.len() > 0 && is_supported(id@) {
                a == FlowAction::LocateExecutable(id)
            } else {
                a == FlowAction::Exit(EXIT_BROWSER)
            },
            None => a == FlowAction::Exit(EXIT_BROWSER),
        },
{
    match answer {
        Some(id) => {
            if !id.as_str().is_empty() && is_supported_browser(id.as_str()) {
                FlowAction::LocateExecutable(id)
            } else {
                FlowAction::Exit(EXIT_BROWSER)
            }
        },
        None => FlowAction::Exit(EXIT_BROWSER),
    }
}

pub open spec fn string_views(v: Seq<String>) -> Seq<Seq<char>> {
    Seq::new(v.len(), |i: int| v[i]@)
}

/// The command line that runs `executable` in app mode on `target`, with the
/// forwarded arguments after it.
pub open spec fn app_mode_command(
    executable: Seq<char>,
    target: Seq<char>,
    forwarded: Seq<Seq<char>>,
) -> Seq<Seq<char>> {
    seq!["setsid"@, "uwsm-app"@, "--"@, executable, "--app="@ + target] + forwarded
}

/// Builds `setsid uwsm-app -- <executable> --app=<target> <forwarded...>`.
pub fn build_command(executable: String, target: &str, forwarded: Vec<String>) -> (r: Vec<String>)
    ensures
        string_views(r@) == app_mode_command(executable@, target@, string_views(forwarded@)),
{
    let mut r: Vec<String> = Vec::new();
    r.push(String::from_str("setsid"));
    r.push(String::from_str("uwsm-app"));
    r.push(String::from_str("--"));
    r.push(executable);
    let app = String::from_str("--app=").concat(target);
    r.push(app);
    let ghost head = string_views(r@);
    let mut i: usize = 0;
    while i < forwarded.len()
        invariant
            i <= forwarded@.len(),
            string_views(r@) == head + string_views(forwarded@).take(i as int),
        decreases forwarded@.len() - i,
    {
        let ghost prev = r@;
        let f = forwarded[i].clone();
        assert(f@ == string_views(forwarded@)[i as int]);
        r.push(f);
        assert(r@ == prev.push(f));
        assert(string_views(r@) =~= string_views(prev).push(f@));
        assert(string_views(forwarded@).take(i + 1) =~= string_views(forwarded@).take(
            i as int,
        ).push(f@));
        assert(string_views(r@) =~= head + string_views(forwarded@).take(i + 1));
        i = i + 1;
    }
    assert(string_views(forwarded@).take(forwarded@.len() as int) =~= string_views(forwarded@));
    assert(head =~= seq!["setsid"@, "uwsm-app"@, "--"@, executable@, "--app="@ + target@]);
    r
}

/// The step after the executable search: none found ends the flow; a found
/// one is run in app mode.
pub fn on_executable(found: Option<String>, target: &str, forwarded: Vec<String>) -> (a: FlowAction)
    ensures
        match found {
            Some(exe) => match a {
                FlowAction::ReplaceProcess(cmd) => string_views(cmd@) == app_mode_command(
                    exe@,
                    target@,
                    string_views(forwarded@),
                ),
                _ => false,
            },
            None => a == FlowAction::Exit(EXIT_NOT_FOUND),
        },
{
    match found {
        Some(exe) => FlowAction::ReplaceProcess(build_command(exe, target, forwarded)),
        None => FlowAction::Exit(EXIT_NOT_FOUND),
    }
}

/// The directories searched for the browser's descriptor, in order: the
/// user's own, the user's package profile, then the system's.
pub open spec fn search_dirs(home: Option<Seq<char>>) -> Seq<Seq<char>> {
    match home {
        Some(h) => seq![
            h + "/.local/share/applications"@,
            h + "/.nix-profile/share/applications"@,
            "/usr/share/applications"@,
        ],
        None => seq!["/.nix-profile/share/applications"@, "/usr/share/applications"@],
    }
}

pub fn candidate_dirs(home: Option<String>) -> (r: Vec<String>)
    ensures
        string_views(r@) == search_dirs(opt_view(home)),
{
    let mut r: Vec<String> = Vec::new();
    match home {
        Some(h) => {
            r.push(h.clone().concat("/.local/share/applications"));
            r.push(h.concat("/.nix-profile/share/applications"));
        },
        None => {
            r.push(String::from_str("/.nix-profile/share/applications"));
        },
    }
    r.push(String::from_str("/usr/share/applications"));
    assert(string_views(r@) =~= search_dirs(opt_view(home)));
    r
}

/// The exec token of the first readable descriptor text that has one.
pub open spec fn first_found(texts: Seq<Option<Seq<char>>>) -> Option<Seq<char>>
    decreases texts.len(),
{
    if texts.len() == 0 {
        None
    } else if texts[0] is Some && first_exec_token(lines(texts[0]->Some_0)) is Some {
        first_exec_token(lines(texts[0]->Some_0))
    } else {
        first_found(texts.drop_first())
    }
}

pub open spec fn opt_views(v: Seq<Option<String>>) -> Seq<Option<Seq<char>>> {
    Seq::new(v.len(), |i: int| opt_view(v[i]))
}

/// The executable named by the descriptors found in the search directories,
/// in order (`None` for one that could not be read); the first that names
/// one wins.
pub fn exec_from_candidates(texts: &Vec<Option<String>>) -> (r: Option<String>)
    ensures
        opt_view(r) == first_found(opt_views(texts@)),
{
    let ghost all = opt_views(texts@);
    let mut i: usize = 0;
    assert(all.skip(0) =~= all);
    while i < texts.len()
        invariant
            i <= texts@.len(),
            all == opt_views(texts@),
            first_found(all) == first_found(all.skip(i as int)),
        decreases texts@.len() - i,
    {
        assert(all.skip(i as int).drop_first() =~= all.skip(i + 1));
        assert(all.skip(i as int)[0] == opt_view(texts@[i as int]));
        match &texts[i] {
            Some(t) => {
                let found = parse_first_exec_token(t.as_str());
                if found.is_some() {
                    return found;
                }
            },
            None => {},
        }
        i = i + 1;
    }
    assert(all.skip(i as int) =~= Seq::<Option<Seq<char>>>::empty());
    None
}

} // verus!
