use brows3r::listing::{folders_in_listing, ListingPage};
use brows3r::walk::{PrefixWalk, WalkStep};
use std::collections::HashMap;

fn page(prefix: &str, objects: &[&str], subs: &[&str]) -> ListingPage {
    ListingPage {
        prefix: Some(prefix.to_string()),
        objects: objects.iter().map(|s| s.to_string()).collect(),
        sub_prefixes: subs.iter().map(|s| s.to_string()).collect(),
    }
}

fn run(store: &HashMap<&str, Vec<ListingPage>>, root: &str) -> (Vec<String>, Vec<ListingPage>) {
    let (mut walk, mut step) = PrefixWalk::start(root);
    let mut asked = Vec::new();
    loop {
        match step {
            WalkStep::List(p) => {
                asked.push(p.clone());
                let pages = store.get(p.as_str()).cloned().unwrap_or_default();
                step = walk.on_listing(pages);
            }
            WalkStep::Done => break,
        }
    }
    (asked, walk.into_pages())
}

#[test]
fn prefix_without_sub_prefixes_is_listed_once() {
    let mut store = HashMap::new();
    store.insert("p/", vec![page("p/", &["p/a", "p/b"], &[]), page("p/", &["p/c"], &[])]);
    let (asked, pages) = run(&store, "p/");
    assert_eq!(asked, vec!["p/".to_string()]);
    assert_eq!(pages, vec![page("p/", &["p/a", "p/b"], &[]), page("p/", &["p/c"], &[])]);
}

#[test]
fn walk_is_depth_first_with_parents_last() {
    let mut store = HashMap::new();
    store.insert("r/", vec![page("r/", &["r/top"], &["r/a/", "r/b/"])]);
    store.insert("r/a/", vec![page("r/a/", &["r/a/1"], &["r/a/x/"])]);
    store.insert("r/a/x/", vec![page("r/a/x/", &["r/a/x/2"], &[])]);
    store.insert("r/b/", vec![page("r/b/", &["r/b/3"], &[])]);
    let (asked, pages) = run(&store, "r/");
    assert_eq!(asked, vec!["r/", "r/a/", "r/a/x/", "r/b/"]);
    let order: Vec<String> = pages.iter().map(|p| p.prefix.clone().unwrap()).collect();
    assert_eq!(order, vec!["r/a/x/", "r/a/", "r/b/", "r/"]);
}

#[test]
fn empty_prefix_contributes_nothing() {
    let store = HashMap::new();
    let (asked, pages) = run(&store, "none/");
    assert_eq!(asked, vec!["none/".to_string()]);
    assert!(pages.is_empty());
}

#[test]
fn folders_are_gathered_across_pages() {
    let pages = vec![page("p/", &[], &["p/a/", "p/b/"]), page("p/", &[], &["p/c/"])];
    assert_eq!(folders_in_listing(&pages), vec!["p/a/", "p/b/", "p/c/"]);
}
