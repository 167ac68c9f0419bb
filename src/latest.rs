//! Finding the newest artifacts of a branch: the latest timestamp folder,
//! then the latest commit folder in it.

use vstd::prelude::*;
use crate::listing::{folders_in_listing, listed_sub_prefixes, strings_view, ListingPage};
use crate::text::{has_prefix, seq_lt, starts_with, str_eq, str_lt};

verus! {

/// Where the successful builds of `branch` are kept.
pub open spec fn branch_prefix(branch: Seq<char>) -> Seq<char> {
    if branch == "master"@ {
        "success/"@ + branch + "/sdk/commit/"@
    } else if has_prefix(branch, "release-"@) {
        "success/release/"@ + branch + "/sdk/commit/"@
    } else {
        "success/other/"@ + branch + "/sdk/commit/"@
    }
}

/// The prefix below which the commit folders of `branch_name` lie.
pub fn bucket_to_search(branch_name: &str) -> (r: String)
    ensures
        r@ == branch_prefix(branch_name@),
{
    let head = if str_eq(branch_name, "master") {
        String::from_str("success/")
    } else if starts_with(branch_name, "release-") {
        String::from_str("success/release/")
    } else {
        String::from_str("success/other/")
    };
    let mut r = head;
    r.append(branch_name);
    r.append("/sdk/commit/");
    r
}

/// The target architectures of the artifacts.
#[derive(Debug, PartialEq, Eq, Clone, Copy)]
pub enum Architecture {
    Amd64,
    Arm64,
}

/// The name of an architecture in artifact paths.
pub open spec fn architecture_name(a: Architecture) -> Seq<char> {
    match a {
        Architecture::Amd64 => "amd64"@,
        Architecture::Arm64 => "arm64"@,
    }
}

impl Architecture {
    /// The name of this architecture in artifact paths.
    pub fn as_str(&self) -> (r: &'static str)
        ensures
            r@ == architecture_name(*self),
    {
        match self {
            Architecture::Amd64 => "amd64",
            Architecture::Arm64 => "arm64",
        }
    }
}

impl Default for Architecture {
    fn default() -> (r: Architecture)
        ensures
            r == Architecture::Amd64,
    {
        Architecture::Amd64
    }
}

/// Why no artifact path could be chosen.
#[derive(Debug, PartialEq, Eq)]
pub enum LatestError {
    /// The operating system has no artifacts; holds its name.
    UnsupportedOs(String),
    /// The branch has no timestamp folders; holds the branch.
    NoArtifacts(String),
    /// The latest timestamp folder holds no commit folder; holds it.
    NoCommits(String),
}

/// The platform segment of artifact paths built for `os`.
pub open spec fn platform_of(os: Seq<char>) -> Option<Seq<char>> {
    if os == "linux"@ {
        Some("ubuntu-20.04"@)
    } else if os == "windows"@ {
        Some("windows"@)
    } else {
        None
    }
}

/// The platform segment of artifact paths for the operating system `os`.
pub fn os_name(os: &str) -> (r: Result<String, LatestError>)
    ensures
        match r {
            Ok(p) => platform_of(os@) == Some(p@),
            Err(e) => platform_of(os@) is None && (e matches LatestError::UnsupportedOs(o) && o@
                == os@),
        },
{
    if str_eq(os, "linux") {
        Ok(String::from_str("ubuntu-20.04"))
    } else if str_eq(os, "windows") {
        Ok(String::from_str("windows"))
    } else {
        Err(LatestError::UnsupportedOs(os.to_owned()))
    }
}

/// Whether `m` is a greatest element of `s` in lexicographic order.
pub open spec fn is_greatest(s: Seq<Seq<char>>, m: Seq<char>) -> bool {
    s.contains(m) && forall|i: int| 0 <= i < s.len() ==> !seq_lt(m, #[trigger] s[i])
}

/// The greatest of `folders` in lexicographic order, where there is one.
pub fn latest_folder(folders: &Vec<String>) -> (r: Option<String>)
    ensures
        r is None <==> folders@.len() == 0,
        r matches Some(m) ==> is_greatest(strings_view(folders@), m@),
{
    if folders.len() == 0 {
        return None;
    }
    let ghost s = strings_view(folders@);
    let mut best: usize = 0;
    let mut i: usize = 1;
    proof { lemma_seq_lt_asym(s[0], s[0]); }
    while i < folders.len()
        invariant
            s == strings_view(folders@),
            1 <= i <= folders@.len(),
            best < i,
            forall|j: int| 0 <= j < i ==> !seq_lt(s[best as int], #[trigger] s[j]),
        decreases folders@.len() - i,
    {
        if str_lt(folders[best].as_str(), folders[i].as_str()) {
            proof { lemma_seq_lt_order(s, best as int, i as int); }
            best = i;
        }
        i = i + 1;
    }
    Some(folders[best].clone())
}

/// The folder of release artifacts below a commit folder, for a platform and
/// an architecture.
pub open spec fn release_path(commit: Seq<char>, platform: Seq<char>, arch: Architecture) -> Seq<
    char,
> {
    commit + platform + "/"@ + architecture_name(arch) + "/Release/"@
}

/// The folder of release artifacts below `commit_folder`.
pub fn latest_artifact_path(commit_folder: &str, platform: &str, architecture: Architecture) -> (r:
    String)
    ensures
        r@ == release_path(commit_folder@, platform@, architecture),
{
    let mut r = commit_folder.to_owned();
    r.append(platform);
    r.append("/");
    r.append(architecture.as_str());
    r.append("/Release/");
    r
}

/// What the search for the latest artifacts asks for next, or how it ended.
#[derive(Debug, PartialEq, Eq)]
pub enum LatestStep {
    /// List this prefix and hand its pages to `on_listing`.
    List(String),
    /// Download the artifacts below this folder.
    Download(String),
    /// The search ended without a folder to download.
    Failed(LatestError),
}

/// Which listing the search for the latest artifacts waits for.
#[derive(Debug, PartialEq, Eq, Clone, Copy)]
pub enum LatestPhase {
    /// The branch prefix, whose sub-prefixes are timestamp folders.
    Branch,
    /// The latest timestamp folder, whose sub-prefixes are commit folders.
    Timestamp,
    /// Nothing: the search has ended.
    Finished,
}

/// The search for the latest artifacts of a branch: the greatest timestamp
/// folder, then the greatest commit folder in it.
pub struct LatestSearch {
    branch: String,
    platform: String,
    architecture: Architecture,
    timestamp: String,
    phase: LatestPhase,
}

impl LatestSearch {
    /// The branch searched.
    pub closed spec fn branch(&self) -> Seq<char> {
        self.branch@
    }

    /// The platform segment of the artifacts wanted.
    pub closed spec fn platform(&self) -> Seq<char> {
        self.platform@
    }

    /// The architecture of the artifacts wanted.
    pub closed spec fn architecture(&self) -> Architecture {
        self.architecture
    }

    /// Which listing the search waits for.
    pub closed spec fn phase(&self) -> LatestPhase {
        self.phase
    }

    /// The timestamp folder chosen, once the branch prefix has been listed.
    pub closed spec fn timestamp(&self) -> Seq<char> {
        self.timestamp@
    }

    /// Starts the search for the latest artifacts of `branch_name` built for
    /// `platform` and `architecture`: the first step lists the branch prefix.
    pub fn start(branch_name: &str, platform: &str, architecture: Architecture) -> (r: (
        LatestSearch,
        LatestStep,
    ))
        ensures
            r.0.branch() == branch_name@,
            r.0.platform() == platform@,
            r.0.architecture() == architecture,
            r.0.phase() == LatestPhase::Branch,
            r.1 matches LatestStep::List(p) && p@ == branch_prefix(branch_name@),
    {
        let s = LatestSearch {
            branch: branch_name.to_owned(),
            platform: platform.to_owned(),
            architecture,
            timestamp: String::new(),
            phase: LatestPhase::Branch,
        };
        (s, LatestStep::List(bucket_to_search(branch_name)))
    }

    /// Takes the listing asked for last. After the branch prefix, the
    /// greatest timestamp folder is listed; after it, the release folder of
    /// its greatest commit folder is to be downloaded.
    pub fn on_listing(&mut self, pages: &Vec<ListingPage>) -> (step: LatestStep)
        requires
            old(self).phase() != LatestPhase::Finished,
        ensures
            final(self).branch() == old(self).branch(),
            final(self).platform() == old(self).platform(),
            final(self).architecture() == old(self).architecture(),
            ({
                let subs = listed_sub_prefixes(pages@);
                if old(self).phase() == LatestPhase::Branch {
                    if subs.len() == 0 {
                        &&& final(self).phase() == LatestPhase::Finished
                        &&& step matches LatestStep::Failed(LatestError::NoArtifacts(b))
                        &&& b@ == old(self).branch()
                    } else {
                        &&& final(self).phase() == LatestPhase::Timestamp
                        &&& step matches LatestStep::List(t)
                        &&& is_greatest(subs, t@)
                        &&& final(self).timestamp() == t@
                    }
                } else {
                    &&& final(self).phase() == LatestPhase::Finished
                    &&& subs.len() == 0 ==> (step matches LatestStep::Failed(LatestError::NoCommits(t))
                        && t@ == old(self).timestamp())
                    &&& subs.len() > 0 ==> exists|c: Seq<char>|
                        #[trigger] is_greatest(subs, c) && (step matches LatestStep::Download(p)
                            && p@ == release_path(c, old(self).platform(), old(self).architecture()))
                }
            }),
    {
        let folders = folders_in_listing(pages);
        let latest = latest_folder(&folders);
        match self.phase {
            LatestPhase::Branch => match latest {
                None => {
                    self.phase = LatestPhase::Finished;
                    LatestStep::Failed(LatestError::NoArtifacts(self.branch.clone()))
                },
                Some(t) => {
                    self.phase = LatestPhase::Timestamp;
                    self.timestamp = t.clone();
                    LatestStep::List(t)
                },
            },
            _ => {
                self.phase = LatestPhase::Finished;
                match latest {
                    None => LatestStep::Failed(LatestError::NoCommits(self.timestamp.clone())),
                    Some(c) => {
                        let p = latest_artifact_path(
                            c.as_str(),
                            self.platform.as_str(),
                            self.architecture,
                        );
                        LatestStep::Download(p)
                    },
                }
            },
        }
    }
}

/// Lexicographic order is a strict total order on character sequences.
proof fn lemma_seq_lt_trans(a: Seq<char>, b: Seq<char>, c: Seq<char>)
    requires
        seq_lt(a, b),
        seq_lt(b, c),
    ensures
        seq_lt(a, c),
    decreases a.len(),
{
    if a.len() > 0 && b.len() > 0 && c.len() > 0 && a[0] == b[0] && b[0] == c[0] {
        lemma_seq_lt_trans(a.drop_first(), b.drop_first(), c.drop_first());
    }
}

/// Of two sequences, at most one comes first.
proof fn lemma_seq_lt_asym(a: Seq<char>, b: Seq<char>)
    ensures
        !(seq_lt(a, b) && seq_lt(b, a)),
    decreases a.len(),
{
    if a.len() > 0 && b.len() > 0 && a[0] == b[0] {
        lemma_seq_lt_asym(a.drop_first(), b.drop_first());
    }
}

/// Two sequences neither of which comes first are equal.
proof fn lemma_seq_lt_total(a: Seq<char>, b: Seq<char>)
    ensures
        !seq_lt(a, b) && !seq_lt(b, a) ==> a == b,
    decreases a.len(),
{
    if a.len() > 0 && b.len() > 0 {
        if a[0] == b[0] {
            lemma_seq_lt_total(a.drop_first(), b.drop_first());
            if a.drop_first() == b.drop_first() {
                assert(a == seq![a[0]] + a.drop_first());
                assert(b == seq![b[0]] + b.drop_first());
            }
        }
    }
}

/// Moving to a greater candidate keeps it above everything seen.
proof fn lemma_seq_lt_order(s: Seq<Seq<char>>, best: int, i: int)
    requires
        0 <= best < i < s.len(),
        forall|j: int| 0 <= j < i ==> !seq_lt(s[best], #[trigger] s[j]),
        seq_lt(s[best], s[i]),
    ensures
        forall|j: int| 0 <= j <= i ==> !seq_lt(s[i], #[trigger] s[j]),
{
    assert forall|j: int| 0 <= j <= i implies !seq_lt(s[i], #[trigger] s[j]) by {
        lemma_seq_lt_asym(s[i], s[i]);
        if j < i {
            if seq_lt(s[i], s[j]) {
                lemma_seq_lt_trans(s[best], s[i], s[j]);
            }
        }
    }
}

} // verus!
