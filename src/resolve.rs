//! Resolving a full or shortened commit hash to its artifact prefix.
//!
//! Below a branch prefix the hierarchy is known to be two levels deep:
//! timestamp folders, then commit-hash folders. The resolver asks for one
//! listing at a time and decides from each what comes next.

use vstd::prelude::*;
use crate::listing::{folders_in_listing, listed_sub_prefixes, strings_view, ListingPage};
use crate::text::{contains, is_substring, split_path, split_path_segments};

verus! {

/// Why a commit hash could not be resolved.
#[derive(Debug, PartialEq, Eq)]
pub enum ResolveError {
    /// No commit folder matched; holds the hash that was asked for.
    NotFound(String),
    /// The hash asked for is a shortened form of a stored one; holds the
    /// prefix of the commit folder found, to be asked for in full.
    Ambiguous(String),
    /// A listed commit folder has no hash segment: it holds no delimiter.
    MalformedPrefix(String),
}

/// How a commit folder relates to the hash asked for.
pub enum CommitMatch {
    /// The folder's hash occurs in the hash asked for.
    Exact,
    /// The hash asked for occurs in the folder's longer hash.
    Ambiguous,
    /// Neither occurs in the other.
    Unrelated,
    /// The folder's prefix holds no hash segment.
    Malformed,
}

/// What the scan of one timestamp folder's commit folders comes to.
pub enum FolderOutcome {
    /// The first decisive folder matched: its prefix.
    Found(Seq<char>),
    /// The first decisive folder's hash is longer than the one asked for.
    Ambiguous(Seq<char>),
    /// The first decisive folder has no hash segment.
    Malformed(Seq<char>),
    /// No folder decided.
    NoMatch,
}

/// The hash segment of a commit folder's prefix: the segment before its
/// last delimiter.
pub open spec fn commit_segment(prefix: Seq<char>) -> Seq<char> {
    split_path(prefix)[split_path(prefix).len() - 2]
}

/// How the folder `candidate` relates to the hash asked for.
pub open spec fn commit_match(hash: Seq<char>, candidate: Seq<char>) -> CommitMatch {
    if split_path(candidate).len() < 2 {
        CommitMatch::Malformed
    } else if is_substring(hash, commit_segment(candidate)) {
        CommitMatch::Exact
    } else if is_substring(commit_segment(candidate), hash) {
        CommitMatch::Ambiguous
    } else {
        CommitMatch::Unrelated
    }
}

/// The outcome of the commit folders `candidates`, taken in order: the first
/// one that is not unrelated decides.
pub open spec fn scan_commits(hash: Seq<char>, candidates: Seq<Seq<char>>) -> FolderOutcome
    decreases candidates.len(),
{
    if candidates.len() == 0 {
        FolderOutcome::NoMatch
    } else {
        match commit_match(hash, candidates[0]) {
            CommitMatch::Exact => FolderOutcome::Found(candidates[0]),
            CommitMatch::Ambiguous => FolderOutcome::Ambiguous(candidates[0]),
            CommitMatch::Malformed => FolderOutcome::Malformed(candidates[0]),
            CommitMatch::Unrelated => scan_commits(hash, candidates.drop_first()),
        }
    }
}

/// The outcome that a result of `find_commit_hash_in` stands for.
pub open spec fn outcome_of(r: Result<Option<String>, ResolveError>) -> FolderOutcome {
    match r {
        Ok(Some(p)) => FolderOutcome::Found(p@),
        Ok(None) => FolderOutcome::NoMatch,
        Err(ResolveError::Ambiguous(p)) => FolderOutcome::Ambiguous(p@),
        Err(ResolveError::MalformedPrefix(p)) => FolderOutcome::Malformed(p@),
        Err(ResolveError::NotFound(_)) => FolderOutcome::NoMatch,
    }
}

/// Classifies one commit folder against the hash asked for.
fn classify(hash: &str, candidate: &str) -> (r: CommitMatch)
    ensures
        r == commit_match(hash@, candidate@),
{
    let segs = split_path_segments(candidate);
    if segs.len() < 2 {
        return CommitMatch::Malformed;
    }
    let short = segs[segs.len() - 2];
    assert(short@ == commit_segment(candidate@));
    if contains(hash, short) {
        CommitMatch::Exact
    } else if contains(short, hash) {
        CommitMatch::Ambiguous
    } else {
        CommitMatch::Unrelated
    }
}

/// Looks for `commit_hash` among the commit folders of one timestamp folder,
/// given the listing of that folder. The first folder whose hash occurs in
/// `commit_hash` is the match; a folder whose hash is longer and holds
/// `commit_hash` ends the search as ambiguous.
pub fn find_commit_hash_in(commit_folders: &Vec<ListingPage>, commit_hash: &str) -> (r: Result<
    Option<String>,
    ResolveError,
>)
    ensures
        outcome_of(r) == scan_commits(commit_hash@, listed_sub_prefixes(commit_folders@)),
        !(r matches Err(ResolveError::NotFound(_))),
{
    let candidates = folders_in_listing(commit_folders);
    let ghost all = strings_view(candidates@);
    let mut i: usize = 0;
    assert(all.subrange(0, all.len() as int) == all);
    while i < candidates.len()
        invariant
            all == strings_view(candidates@),
            all == listed_sub_prefixes(commit_folders@),
            i <= candidates@.len(),
            scan_commits(commit_hash@, all) == scan_commits(
                commit_hash@,
                all.subrange(i as int, all.len() as int),
            ),
        decreases candidates@.len() - i,
    {
        let c = &candidates[i];
        let ghost rest = all.subrange(i as int, all.len() as int);
        assert(rest[0] == c@);
        assert(rest.drop_first() == all.subrange(i + 1, all.len() as int));
        match classify(commit_hash, c.as_str()) {
            CommitMatch::Exact => {
                return Ok(Some(c.clone()));
            },
            CommitMatch::Ambiguous => {
                return Err(ResolveError::Ambiguous(c.clone()));
            },
            CommitMatch::Malformed => return Err(ResolveError::MalformedPrefix(c.clone())),
            CommitMatch::Unrelated => {},
        }
        i = i + 1;
    }
    Ok(None)
}

/// What the search asks for next, or how it ended.
#[derive(Debug, PartialEq, Eq)]
pub enum ResolveStep {
    /// List this prefix and hand its pages to `on_listing`.
    List(String),
    /// The commit folder's prefix: the resolved artifact path.
    Found(String),
    /// The search ended without a match.
    Failed(ResolveError),
}

/// Which listing the search waits for.
#[derive(Debug, PartialEq, Eq, Clone, Copy)]
pub enum SearchPhase {
    /// The branch prefix, whose sub-prefixes are timestamp folders.
    Branch,
    /// The timestamp folder before position `next`, whose sub-prefixes are
    /// commit folders.
    Commits,
    /// Nothing: the search has ended.
    Finished,
}

/// A step of the search as its contract sees it.
pub enum StepModel {
    List(Seq<char>),
    Found(Seq<char>),
    NotFound(Seq<char>),
    Ambiguous(Seq<char>),
    Malformed(Seq<char>),
}

/// The model of an executable step.
pub open spec fn step_model(s: ResolveStep) -> StepModel {
    match s {
        ResolveStep::List(p) => StepModel::List(p@),
        ResolveStep::Found(p) => StepModel::Found(p@),
        ResolveStep::Failed(ResolveError::NotFound(h)) => StepModel::NotFound(h@),
        ResolveStep::Failed(ResolveError::Ambiguous(p)) => StepModel::Ambiguous(p@),
        ResolveStep::Failed(ResolveError::MalformedPrefix(p)) => StepModel::Malformed(p@),
    }
}

/// The search for a commit hash below a branch prefix: the timestamp folders
/// in listing order, and in each its commit folders in listing order, until
/// one decides.
pub struct CommitSearch {
    commit_hash: String,
    timestamps: Vec<String>,
    next: usize,
    phase: SearchPhase,
}

impl CommitSearch {
    /// The hash asked for.
    pub closed spec fn hash(&self) -> Seq<char> {
        self.commit_hash@
    }

    /// The timestamp folders found below the branch prefix.
    pub closed spec fn timestamps(&self) -> Seq<Seq<char>> {
        strings_view(self.timestamps@)
    }

    /// How many timestamp folders have been asked for.
    pub closed spec fn next(&self) -> nat {
        self.next as nat
    }

    /// Which listing the search waits for.
    pub closed spec fn phase(&self) -> SearchPhase {
        self.phase
    }

    /// Starts the search for `commit_hash` below `branch_prefix`: the first
    /// step lists the branch prefix.
    pub fn start(branch_prefix: &str, commit_hash: &str) -> (r: (CommitSearch, ResolveStep))
        ensures
            r.0.hash() == commit_hash@,
            r.0.phase() == SearchPhase::Branch,
            r.0.next() == 0,
            step_model(r.1) == StepModel::List(branch_prefix@),
    {
        let s = CommitSearch {
            commit_hash: commit_hash.to_owned(),
            timestamps: Vec::new(),
            next: 0,
            phase: SearchPhase::Branch,
        };
        (s, ResolveStep::List(branch_prefix.to_owned()))
    }

    /// Asks for the next timestamp folder, or ends as not found when none is
    /// left.
    fn next_folder(&mut self) -> (step: ResolveStep)
        requires
            old(self).next() <= old(self).timestamps().len(),
        ensures
            final(self).hash() == old(self).hash(),
            final(self).timestamps() == old(self).timestamps(),
            old(self).next() < old(self).timestamps().len() ==> {
                &&& final(self).phase() == SearchPhase::Commits
                &&& final(self).next() == old(self).next() + 1
                &&& step_model(step) == StepModel::List(old(self).timestamps()[old(self).next() as int])
            },
            old(self).next() == old(self).timestamps().len() ==> {
                &&& final(self).phase() == SearchPhase::Finished
                &&& final(self).next() == old(self).next()
                &&& step_model(step) == StepModel::NotFound(old(self).hash())
            },
    {
        if self.next < self.timestamps.len() {
            let folder = self.timestamps[self.next].clone();
            self.next = self.next + 1;
            self.phase = SearchPhase::Commits;
            ResolveStep::List(folder)
        } else {
            self.phase = SearchPhase::Finished;
            ResolveStep::Failed(ResolveError::NotFound(self.commit_hash.clone()))
        }
    }

    /// Takes the listing asked for last and decides the next step. After the
    /// branch prefix, the first timestamp folder is asked for. After a
    /// timestamp folder, its commit folders decide as `find_commit_hash_in`
    /// does; where none decides, the next timestamp folder is asked for. The
    /// search ends as not found when no timestamp folder is left.
    pub fn on_listing(&mut self, pages: &Vec<ListingPage>) -> (step: ResolveStep)
        requires
            old(self).phase() != SearchPhase::Finished,
            old(self).phase() == SearchPhase::Commits ==> 1 <= old(self).next() <= old(self).timestamps().len(),
        ensures
            final(self).hash() == old(self).hash(),
            final(self).phase() == SearchPhase::Commits ==> 1 <= final(self).next() <= final(self).timestamps().len(),
            old(self).phase() == SearchPhase::Branch ==> {
                let ts = listed_sub_prefixes(pages@);
                &&& final(self).timestamps() == ts
                &&& if ts.len() == 0 {
                    &&& final(self).phase() == SearchPhase::Finished
                    &&& step_model(step) == StepModel::NotFound(old(self).hash())
                } else {
                    &&& final(self).phase() == SearchPhase::Commits
                    &&& final(self).next() == 1
                    &&& step_model(step) == StepModel::List(ts[0])
                }
            },
            old(self).phase() == SearchPhase::Commits ==> {
                let ts = old(self).timestamps();
                let k = old(self).next();
                &&& final(self).timestamps() == ts
                &&& match scan_commits(old(self).hash(), listed_sub_prefixes(pages@)) {
                    FolderOutcome::Found(p) => final(self).phase() == SearchPhase::Finished
                        && step_model(step) == StepModel::Found(p),
                    FolderOutcome::Ambiguous(p) => final(self).phase() == SearchPhase::Finished
                        && step_model(step) == StepModel::Ambiguous(p),
                    FolderOutcome::Malformed(p) => final(self).phase() == SearchPhase::Finished
                        && step_model(step) == StepModel::Malformed(p),
                    FolderOutcome::NoMatch => if k < ts.len() {
                        &&& final(self).phase() == SearchPhase::Commits
                        &&& final(self).next() == k + 1
                        &&& step_model(step) == StepModel::List(ts[k as int])
                    } else {
                        &&& final(self).phase() == SearchPhase::Finished
                        &&& step_model(step) == StepModel::NotFound(old(self).hash())
                    },
                }
            },
    {
        match self.phase {
            SearchPhase::Branch => {
                self.timestamps = folders_in_listing(pages);
                self.next = 0;
                self.next_folder()
            },
            _ => {
                match find_commit_hash_in(pages, self.commit_hash.as_str()) {
                    Ok(Some(p)) => {
                        self.phase = SearchPhase::Finished;
                        ResolveStep::Found(p)
                    },
                    Ok(None) => self.next_folder(),
                    Err(e) => {
                        self.phase = SearchPhase::Finished;
                        ResolveStep::Failed(e)
                    },
                }
            },
        }
    }
}

} // verus!
