use brows3r::listing::ListingPage;
use brows3r::resolve::{find_commit_hash_in, CommitSearch, ResolveError, ResolveStep};
use std::collections::HashMap;

fn folders(prefix: &str, subs: &[&str]) -> Vec<ListingPage> {
    vec![ListingPage {
        prefix: Some(prefix.to_string()),
        objects: vec![],
        sub_prefixes: subs.iter().map(|s| s.to_string()).collect(),
    }]
}

fn resolve(
    store: &HashMap<&str, Vec<ListingPage>>,
    branch: &str,
    hash: &str,
) -> (Vec<String>, Result<String, ResolveError>) {
    let (mut search, mut step) = CommitSearch::start(branch, hash);
    let mut asked = Vec::new();
    loop {
        match step {
            ResolveStep::List(p) => {
                asked.push(p.clone());
                let pages = store.get(p.as_str()).cloned().unwrap_or_default();
                step = search.on_listing(&pages);
            }
            ResolveStep::Found(p) => return (asked, Ok(p)),
            ResolveStep::Failed(e) => return (asked, Err(e)),
        }
    }
}

fn master_store() -> HashMap<&'static str, Vec<ListingPage>> {
    let mut store = HashMap::new();
    store.insert(
        "success/master/sdk/commit/",
        folders("success/master/sdk/commit/", &["success/master/sdk/commit/t1/"]),
    );
    store.insert(
        "success/master/sdk/commit/t1/",
        folders(
            "success/master/sdk/commit/t1/",
            &["success/master/sdk/commit/t1/abc123/", "success/master/sdk/commit/t1/abcdef/"],
        ),
    );
    store
}

#[test]
fn full_hash_resolves_to_its_folder() {
    let (_, r) = resolve(&master_store(), "success/master/sdk/commit/", "abc123");
    assert_eq!(r, Ok("success/master/sdk/commit/t1/abc123/".to_string()));
}

#[test]
fn shortened_hash_is_ambiguous() {
    let (_, r) = resolve(&master_store(), "success/master/sdk/commit/", "abc");
    assert_eq!(
        r,
        Err(ResolveError::Ambiguous("success/master/sdk/commit/t1/abc123/".to_string()))
    );
}

#[test]
fn unknown_hash_is_not_found() {
    let (_, r) = resolve(&master_store(), "success/master/sdk/commit/", "xyz");
    assert_eq!(r, Err(ResolveError::NotFound("xyz".to_string())));
}

#[test]
fn later_timestamp_folder_is_searched() {
    let mut store = HashMap::new();
    store.insert("b/", folders("b/", &["b/t1/", "b/t2/"]));
    store.insert("b/t1/", folders("b/t1/", &["b/t1/111111/"]));
    store.insert("b/t2/", folders("b/t2/", &["b/t2/222222/"]));
    let (asked, r) = resolve(&store, "b/", "222222");
    assert_eq!(r, Ok("b/t2/222222/".to_string()));
    assert_eq!(asked, vec!["b/", "b/t1/", "b/t2/"]);
}

#[test]
fn first_match_stops_the_search() {
    let mut store = HashMap::new();
    store.insert("b/", folders("b/", &["b/t1/", "b/t2/"]));
    store.insert("b/t1/", folders("b/t1/", &["b/t1/aaaa/"]));
    store.insert("b/t2/", folders("b/t2/", &["b/t2/aaaa/"]));
    let (asked, r) = resolve(&store, "b/", "aaaa");
    assert_eq!(r, Ok("b/t1/aaaa/".to_string()));
    assert_eq!(asked, vec!["b/", "b/t1/"]);
}

#[test]
fn branch_without_timestamps_is_not_found() {
    let store = HashMap::new();
    let (asked, r) = resolve(&store, "b/", "abc");
    assert_eq!(asked, vec!["b/"]);
    assert_eq!(r, Err(ResolveError::NotFound("abc".to_string())));
}

#[test]
fn folder_without_delimiter_is_malformed() {
    let r = find_commit_hash_in(&folders("t/", &["nodelimiter"]), "abc");
    assert_eq!(r, Err(ResolveError::MalformedPrefix("nodelimiter".to_string())));
}

#[test]
fn commit_scan_without_match_gives_none() {
    let r = find_commit_hash_in(&folders("t/", &["t/111/", "t/222/"]), "333");
    assert_eq!(r, Ok(None));
}

#[test]
fn release_commit_resolves_to_timestamp_folder() {
    let base = "success/release/release-sdk-1.0.0/sdk/commit/";
    let ts = "success/release/release-sdk-1.0.0/sdk/commit/2024-01-01T00:00:00/";
    let commit = "success/release/release-sdk-1.0.0/sdk/commit/2024-01-01T00:00:00/deadbeef/";
    let mut store = HashMap::new();
    store.insert(base, folders(base, &[ts]));
    store.insert(ts, folders(ts, &[commit]));
    let (_, r) = resolve(&store, base, "deadbeef");
    assert_eq!(r, Ok(commit.to_string()));
}
