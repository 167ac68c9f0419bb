//! Artifact paths as users give them: browser URLs of the artifact store,
//! and folders.

use vstd::prelude::*;
use crate::text::{ends_with, has_prefix, has_suffix, remove_all, remove_all_occurrences, starts_with};

verus! {

/// The web addresses under which the artifact bucket is browsed, in the
/// order in which they are tried.
pub open spec fn artifact_url_bases() -> Seq<Seq<char>> {
    seq![
        "http://se-cluster-2:32000/se-ci-artifacts/"@,
        "http://se-cluster-2.localdomain:32000/se-ci-artifacts/"@,
        "http://se-ci-storage:9000/minio/se-ci-artifacts/"@,
        "http://se-ci-storage.localdomain:9000/minio/se-ci-artifacts/"@,
    ]
}

/// The first base that `url` starts with, at or after position `from`, or
/// -1 where none does.
pub open spec fn first_base_from(url: Seq<char>, from: int) -> int
    decreases 4 - from,
{
    if from >= 4 || from < 0 {
        -1
    } else if has_prefix(url, artifact_url_bases()[from]) {
        from
    } else {
        first_base_from(url, from + 1)
    }
}

/// `url` as an artifact path: where it starts with one of the store's web
/// addresses, the first such address is taken out wherever it occurs;
/// otherwise it is kept as it is.
pub open spec fn artifact_path_of_url(url: Seq<char>) -> Seq<char> {
    let k = first_base_from(url, 0);
    if k >= 0 {
        remove_all(url, artifact_url_bases()[k])
    } else {
        url
    }
}

/// Turns a browser URL of the artifact store into the artifact path it
/// shows; any other text is returned as it is.
pub fn strip_artifact_path_url(url: &str) -> (r: String)
    ensures
        r@ == artifact_path_of_url(url@),
{
    let bases: [&str; 4] = [
        "http://se-cluster-2:32000/se-ci-artifacts/",
        "http://se-cluster-2.localdomain:32000/se-ci-artifacts/",
        "http://se-ci-storage:9000/minio/se-ci-artifacts/",
        "http://se-ci-storage.localdomain:9000/minio/se-ci-artifacts/",
    ];
    assert(bases@.map_values(|b: &str| b@) == artifact_url_bases());
    let mut k: usize = 0;
    while k < 4
        invariant
            k <= 4,
            bases@.map_values(|b: &str| b@) == artifact_url_bases(),
            first_base_from(url@, 0) == first_base_from(url@, k as int),
        decreases 4 - k,
    {
        let base = bases[k];
        assert(base@ == artifact_url_bases()[k as int]);
        if starts_with(url, base) {
            proof {
                reveal_strlit("http://se-cluster-2:32000/se-ci-artifacts/");
                reveal_strlit("http://se-cluster-2.localdomain:32000/se-ci-artifacts/");
                reveal_strlit("http://se-ci-storage:9000/minio/se-ci-artifacts/");
                reveal_strlit("http://se-ci-storage.localdomain:9000/minio/se-ci-artifacts/");
            }
            return remove_all_occurrences(url, base);
        }
        k = k + 1;
    }
    url.to_owned()
}

/// Whether an artifact path names a folder: it ends with the delimiter.
pub fn is_artifact_a_folder(artifact_path: &str) -> (r: bool)
    ensures
        r == has_suffix(artifact_path@, seq!['/']),
{
    let r = ends_with(artifact_path, "/");
    proof {
        reveal_strlit("/");
        assert("/"@ =~= seq!['/']);
    }
    r
}

} // verus!
