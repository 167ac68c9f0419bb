use brows3r::download::{
    check_download_status, move_from_temp_to_dest, path_components, plan_download, DownloadError,
    Relocation, StagedFile, StagedFolder,
};
use brows3r::listing::ListingPage;
use brows3r::resolve::{CommitSearch, ResolveStep};
use brows3r::walk::{PrefixWalk, WalkStep};
use std::collections::HashMap;

fn page(prefix: &str, objects: &[&str], subs: &[&str]) -> ListingPage {
    ListingPage {
        prefix: Some(prefix.to_string()),
        objects: objects.iter().map(|s| s.to_string()).collect(),
        sub_prefixes: subs.iter().map(|s| s.to_string()).collect(),
    }
}

fn staged(dirs: &[&str], files: &[(&str, &str)]) -> StagedFolder {
    StagedFolder {
        dirs: dirs.iter().map(|s| s.to_string()).collect(),
        files: files
            .iter()
            .map(|(k, n)| StagedFile { key: k.to_string(), file_name: n.to_string() })
            .collect(),
    }
}

fn walk(store: &HashMap<&str, Vec<ListingPage>>, root: &str) -> Vec<ListingPage> {
    let (mut w, mut step) = PrefixWalk::start(root);
    while let WalkStep::List(p) = step {
        let pages = store.get(p.as_str()).cloned().unwrap_or_default();
        step = w.on_listing(pages);
    }
    w.into_pages()
}

#[test]
fn staging_recreates_the_folder_hierarchy() {
    let mut store = HashMap::new();
    store.insert("R/", vec![page("R/", &[], &["R/a/"])]);
    store.insert("R/a/", vec![page("R/a/", &["R/a/d.txt"], &["R/a/b/"])]);
    store.insert("R/a/b/", vec![page("R/a/b/", &["R/a/b/c.txt"], &[])]);
    let pages = walk(&store, "R/");
    let plan = plan_download("R/", &pages).unwrap();
    assert_eq!(
        plan,
        vec![
            staged(&["a", "b"], &[("R/a/b/c.txt", "c.txt")]),
            staged(&["a"], &[("R/a/d.txt", "d.txt")]),
            staged(&[], &[]),
        ]
    );
}

#[test]
fn pages_without_prefix_are_passed_over() {
    let pages = vec![
        ListingPage { prefix: None, objects: vec!["R/x".to_string()], sub_prefixes: vec![] },
        page("R/", &["R/y"], &[]),
    ];
    assert_eq!(plan_download("R/", &pages).unwrap(), vec![staged(&[], &[("R/y", "y")])]);
}

#[test]
fn page_outside_the_download_stops_it() {
    let pages = vec![page("R/a/", &[], &[]), page("S/", &[], &[]), page("T/", &[], &[])];
    assert_eq!(
        plan_download("R/", &pages).unwrap_err(),
        DownloadError::PrefixOutside("S/".to_string())
    );
}

#[test]
fn prefix_without_trailing_delimiter_matches_by_components() {
    let pages = vec![page("R/a/", &["R/a/f"], &[])];
    assert_eq!(plan_download("R", &pages).unwrap(), vec![staged(&["a"], &[("R/a/f", "f")])]);
}

#[test]
fn only_status_200_is_accepted() {
    assert_eq!(check_download_status(200), Ok(()));
    assert_eq!(check_download_status(404), Err(DownloadError::Status(404)));
    assert_eq!(check_download_status(500), Err(DownloadError::Status(500)));
}

#[test]
fn same_staging_and_destination_needs_no_move() {
    assert_eq!(move_from_temp_to_dest("/tmp/artifacts", "/tmp/artifacts"), Relocation::InPlace);
    assert_eq!(move_from_temp_to_dest("/tmp//artifacts/", "/tmp/artifacts"), Relocation::InPlace);
}

#[test]
fn different_destination_is_merged_into() {
    assert_eq!(move_from_temp_to_dest("/tmp/artifacts", "artifacts"), Relocation::MergeInto);
    assert_eq!(move_from_temp_to_dest("/tmp/artifacts", "/tmp/other"), Relocation::MergeInto);
    assert_eq!(move_from_temp_to_dest("/tmp/a", "/tmp/a/b"), Relocation::MergeInto);
}

#[test]
fn components_drop_empty_segments() {
    assert_eq!(path_components("/a//b/"), vec!["a", "b"]);
    assert!(path_components("").is_empty());
}

#[test]
fn components_drop_inner_dots() {
    assert_eq!(path_components("./a/./b/."), vec![".", "a", "b"]);
    assert_eq!(path_components("/./a"), vec!["a"]);
    assert_eq!(move_from_temp_to_dest("/tmp/./a", "/tmp/a"), Relocation::InPlace);
    assert_eq!(move_from_temp_to_dest("./a", "a"), Relocation::MergeInto);
}

#[test]
fn release_artifact_is_resolved_and_staged() {
    let base = "success/release/release-sdk-1.0.0/sdk/commit/";
    let ts = "success/release/release-sdk-1.0.0/sdk/commit/2024-01-01T00:00:00/";
    let commit = "success/release/release-sdk-1.0.0/sdk/commit/2024-01-01T00:00:00/deadbeef/";
    let win = "success/release/release-sdk-1.0.0/sdk/commit/2024-01-01T00:00:00/deadbeef/windows/";
    let arch =
        "success/release/release-sdk-1.0.0/sdk/commit/2024-01-01T00:00:00/deadbeef/windows/amd64/";
    let rel = "success/release/release-sdk-1.0.0/sdk/commit/2024-01-01T00:00:00/deadbeef/windows/amd64/Release/";
    let exe = "success/release/release-sdk-1.0.0/sdk/commit/2024-01-01T00:00:00/deadbeef/windows/amd64/Release/app.exe";
    let mut store = HashMap::new();
    store.insert(base, vec![page(base, &[], &[ts])]);
    store.insert(ts, vec![page(ts, &[], &[commit])]);
    store.insert(commit, vec![page(commit, &[], &[win])]);
    store.insert(win, vec![page(win, &[], &[arch])]);
    store.insert(arch, vec![page(arch, &[], &[rel])]);
    store.insert(rel, vec![page(rel, &[exe], &[])]);

    let (mut search, mut step) = CommitSearch::start(base, "deadbeef");
    let resolved = loop {
        match step {
            ResolveStep::List(p) => {
                let pages = store.get(p.as_str()).cloned().unwrap_or_default();
                step = search.on_listing(&pages);
            }
            ResolveStep::Found(p) => break p,
            ResolveStep::Failed(e) => panic!("{:?}", e),
        }
    };
    assert_eq!(resolved, commit);

    let pages = walk(&store, &resolved);
    let plan = plan_download(&resolved, &pages).unwrap();
    let with_files: Vec<&StagedFolder> = plan.iter().filter(|f| !f.files.is_empty()).collect();
    assert_eq!(with_files.len(), 1);
    assert_eq!(with_files[0].dirs, vec!["windows", "amd64", "Release"]);
    assert_eq!(with_files[0].files, vec![StagedFile { key: exe.to_string(), file_name: "app.exe".to_string() }]);
}
