use brows3r::config::{read_credentials, ListFormat};
use brows3r::latest::{
    bucket_to_search, latest_artifact_path, latest_folder, os_name, Architecture, LatestError,
    LatestSearch, LatestStep,
};
use brows3r::listing::ListingPage;
use brows3r::location::{is_artifact_a_folder, strip_artifact_path_url};
use brows3r::text::{contains, last_segment, remove_all_occurrences, split_path_segments, str_lt};
use std::collections::HashMap;

fn folders(prefix: &str, subs: &[&str]) -> Vec<ListingPage> {
    vec![ListingPage {
        prefix: Some(prefix.to_string()),
        objects: vec![],
        sub_prefixes: subs.iter().map(|s| s.to_string()).collect(),
    }]
}

#[test]
fn branch_prefixes_follow_the_branch_kind() {
    assert_eq!(bucket_to_search("master"), "success/master/sdk/commit/");
    assert_eq!(bucket_to_search("release-2.0"), "success/release/release-2.0/sdk/commit/");
    assert_eq!(bucket_to_search("feature/x"), "success/other/feature/x/sdk/commit/");
    assert_eq!(bucket_to_search("masterful"), "success/other/masterful/sdk/commit/");
}

#[test]
fn store_urls_are_stripped() {
    assert_eq!(
        strip_artifact_path_url("http://se-cluster-2:32000/se-ci-artifacts/success/master/"),
        "success/master/"
    );
    assert_eq!(
        strip_artifact_path_url(
            "http://se-ci-storage.localdomain:9000/minio/se-ci-artifacts/success/x/"
        ),
        "success/x/"
    );
    assert_eq!(strip_artifact_path_url("success/plain/"), "success/plain/");
    assert_eq!(strip_artifact_path_url("https://elsewhere/a"), "https://elsewhere/a");
}

#[test]
fn platform_names_by_os() {
    assert_eq!(os_name("linux"), Ok("ubuntu-20.04".to_string()));
    assert_eq!(os_name("windows"), Ok("windows".to_string()));
    assert_eq!(os_name("macos"), Err(LatestError::UnsupportedOs("macos".to_string())));
}

#[test]
fn architecture_names() {
    assert_eq!(Architecture::Amd64.as_str(), "amd64");
    assert_eq!(Architecture::Arm64.as_str(), "arm64");
    assert_eq!(Architecture::default(), Architecture::Amd64);
}

#[test]
fn latest_folder_is_the_greatest() {
    let v: Vec<String> = vec!["b/2024-01-02/".into(), "b/2024-03-01/".into(), "b/2023-12-31/".into()];
    assert_eq!(latest_folder(&v), Some("b/2024-03-01/".to_string()));
    assert_eq!(latest_folder(&vec![]), None);
}

#[test]
fn release_path_is_assembled() {
    assert_eq!(
        latest_artifact_path("c/abc/", "windows", Architecture::Arm64),
        "c/abc/windows/arm64/Release/"
    );
}

#[test]
fn latest_search_picks_newest_timestamp_and_commit() {
    let base = "success/master/sdk/commit/";
    let mut store = HashMap::new();
    store.insert(base, folders(base, &["success/master/sdk/commit/t1/", "success/master/sdk/commit/t2/"]));
    store.insert(
        "success/master/sdk/commit/t2/",
        folders("success/master/sdk/commit/t2/", &["success/master/sdk/commit/t2/111/", "success/master/sdk/commit/t2/222/"]),
    );
    let (mut s, mut step) = LatestSearch::start("master", "ubuntu-20.04", Architecture::Amd64);
    let mut asked = Vec::new();
    let result = loop {
        match step {
            LatestStep::List(p) => {
                asked.push(p.clone());
                let pages = store.get(p.as_str()).cloned().unwrap_or_default();
                step = s.on_listing(&pages);
            }
            LatestStep::Download(p) => break Ok(p),
            LatestStep::Failed(e) => break Err(e),
        }
    };
    assert_eq!(asked, vec![base, "success/master/sdk/commit/t2/"]);
    assert_eq!(result, Ok("success/master/sdk/commit/t2/222/ubuntu-20.04/amd64/Release/".to_string()));
}

#[test]
fn latest_search_without_artifacts_fails() {
    let (mut s, _) = LatestSearch::start("dev", "windows", Architecture::Amd64);
    let step = s.on_listing(&vec![]);
    assert_eq!(step, LatestStep::Failed(LatestError::NoArtifacts("dev".to_string())));
}

#[test]
fn latest_search_without_commits_fails() {
    let (mut s, _) = LatestSearch::start("dev", "windows", Architecture::Amd64);
    let step = s.on_listing(&folders("p/", &["p/t/"]));
    assert_eq!(step, LatestStep::List("p/t/".to_string()));
    let step = s.on_listing(&vec![]);
    assert_eq!(step, LatestStep::Failed(LatestError::NoCommits("p/t/".to_string())));
}

#[test]
fn credentials_are_read_by_name() {
    let c = read_credentials(|name: &str| format!("value-of-{}", name));
    assert_eq!(c.hostname, "value-of-S3_HOSTNAME");
    assert_eq!(c.access_key, "value-of-S3_ACCESSKEY");
    assert_eq!(c.secret_key, "value-of-S3_SECRETKEY");
    assert_eq!(c.bucket_name, "value-of-S3_BUCKET");
}

#[test]
fn list_formats_differ() {
    assert_ne!(ListFormat::Flat, ListFormat::Tree);
}

#[test]
fn folders_end_with_the_delimiter() {
    assert!(is_artifact_a_folder("a/b/"));
    assert!(!is_artifact_a_folder("a/b"));
    assert!(!is_artifact_a_folder(""));
}

#[test]
fn text_helpers() {
    assert_eq!(split_path_segments("a/b/c.txt"), vec!["a", "b", "c.txt"]);
    assert_eq!(split_path_segments("a/"), vec!["a", ""]);
    assert_eq!(split_path_segments(""), vec![""]);
    assert_eq!(last_segment("x/y/z.bin"), "z.bin");
    assert_eq!(last_segment("plain"), "plain");
    assert!(contains("abc123", "c12"));
    assert!(!contains("abc", "abcd"));
    assert!(contains("abc", ""));
    assert_eq!(remove_all_occurrences("abXabYab", "ab"), "XY");
    assert_eq!(remove_all_occurrences("aaa", "aa"), "a");
    assert!(str_lt("abc", "abd"));
    assert!(str_lt("ab", "abc"));
    assert!(!str_lt("abc", "abc"));
}
