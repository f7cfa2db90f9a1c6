use app_launcher::index::AppInfo;
use app_launcher::rank::{order_by_score, rank};

fn entry(name: &str) -> AppInfo {
    AppInfo {
        name: name.to_string(),
        exec_template: name.to_lowercase(),
        icon: String::new(),
        description: String::new(),
    }
}

fn names(v: &[AppInfo]) -> Vec<String> {
    v.iter().map(|e| e.name.clone()).collect()
}

#[test]
fn empty_query_returns_whole_index() {
    let index = vec![entry("Zed"), entry("alpha"), entry("Beta")];
    let r = rank(&index, "");
    assert_eq!(names(&r), vec!["Zed", "alpha", "Beta"]);
}

#[test]
fn empty_query_on_empty_index() {
    assert!(rank(&vec![], "").is_empty());
    assert!(rank(&vec![], "x").is_empty());
}

#[test]
fn alpha_alpine_before_bravo() {
    let index = vec![entry("Alpha"), entry("alpine"), entry("Bravo")];
    let r = rank(&index, "al");
    let n = names(&r);
    assert!(n.contains(&"Alpha".to_string()));
    assert!(n.contains(&"alpine".to_string()));
    let pos = |s: &str| n.iter().position(|x| x == s);
    if let Some(b) = pos("Bravo") {
        assert!(pos("Alpha").unwrap() < b);
        assert!(pos("alpine").unwrap() < b);
    }
    assert_eq!(pos("alpine").unwrap().min(pos("Alpha").unwrap()), 0);
}

#[test]
fn only_subsequence_matches_survive() {
    let index = vec![entry("Firefox"), entry("Files"), entry("Terminal"), entry("Calc")];
    let r = rank(&index, "FI");
    let n = names(&r);
    assert!(n.contains(&"Firefox".to_string()));
    assert!(n.contains(&"Files".to_string()));
    assert!(!n.contains(&"Terminal".to_string()));
    assert!(!n.contains(&"Calc".to_string()));
}

#[test]
fn no_match_gives_empty_ranking() {
    let index = vec![entry("Alpha"), entry("Beta")];
    assert!(rank(&index, "xyz").is_empty());
}

#[test]
fn ranking_twice_gives_the_same_order() {
    let index = vec![entry("Editor"), entry("Text Editor"), entry("Code"), entry("edit"), entry("Deleter")];
    let a = rank(&index, "ed");
    let b = rank(&index, "ed");
    assert_eq!(names(&a), names(&b));
    assert!(!a.is_empty());
}

#[test]
fn ranking_keeps_every_field() {
    let mut e = entry("Alpha");
    e.icon = "a.png".to_string();
    e.description = "first".to_string();
    let r = rank(&vec![e], "a");
    assert_eq!(r.len(), 1);
    assert_eq!(r[0].icon, "a.png");
    assert_eq!(r[0].description, "first");
    assert_eq!(r[0].exec_template, "alpha");
}

#[test]
fn order_by_score_sorts_descending_and_stable() {
    let scores = vec![Some(5), None, Some(9), Some(5), Some(-1), None, Some(9)];
    assert_eq!(order_by_score(&scores), vec![2, 6, 0, 3, 4]);
}

#[test]
fn order_by_score_of_nothing() {
    assert_eq!(order_by_score(&vec![]), Vec::<usize>::new());
    assert_eq!(order_by_score(&vec![None, None]), Vec::<usize>::new());
}

#[test]
fn contiguous_prefix_ranks_above_looser_match() {
    let index = vec![entry("Apple Tool"), entry("alpine")];
    let r = rank(&index, "al");
    assert_eq!(names(&r), vec!["alpine", "Apple Tool"]);
}
