//! Laying out a download: which directories the staging area needs, which
//! objects go into each, and where the staged tree ends up.
//!
//! The caller creates the directories, fetches and writes the objects in
//! the order given here, and moves the staging area as `relocation` says.

use vstd::prelude::*;
use crate::listing::{strings_view, ListingPage};
use crate::text::{last_segment, split_path, split_path_segments, str_eq};

verus! {

/// Why a download was stopped.
#[derive(Debug, PartialEq, Eq)]
pub enum DownloadError {
    /// A listed page's prefix does not lie below the prefix being
    /// downloaded; holds the page's prefix.
    PrefixOutside(String),
    /// The store answered an object request with this status instead of 200.
    Status(u16),
}

/// Whether the segment at position `i` names a component: it is not empty,
/// and it is not `.` past the start of the path.
pub open spec fn is_component(seg: Seq<char>, i: int) -> bool {
    seg.len() > 0 && !(i > 0 && seg == seq!['.'])
}

/// The segments of `segs` that name components, in order.
pub open spec fn kept_segments(segs: Seq<Seq<char>>) -> Seq<Seq<char>>
    decreases segs.len(),
{
    if segs.len() == 0 {
        segs
    } else {
        let init = kept_segments(segs.drop_last());
        if is_component(segs.last(), segs.len() - 1) {
            init.push(segs.last())
        } else {
            init
        }
    }
}

/// The components of a path: its segments without the empty ones, so that
/// repeated and trailing delimiters do not count, and without `.` past the
/// start.
pub open spec fn components(s: Seq<char>) -> Seq<Seq<char>> {
    kept_segments(split_path(s))
}

/// The components of `s`.
pub fn path_components(s: &str) -> (r: Vec<&str>)
    ensures
        r@.map_values(|x: &str| x@) == components(s@),
{
    let segs = split_path_segments(s);
    let ghost all = segs@.map_values(|x: &str| x@);
    let mut out: Vec<&str> = Vec::new();
    let mut i: usize = 0;
    assert(all.take(0) == Seq::<Seq<char>>::empty());
    assert(out@.map_values(|x: &str| x@) == Seq::<Seq<char>>::empty());
    while i < segs.len()
        invariant
            all == segs@.map_values(|x: &str| x@),
            i <= segs@.len(),
            out@.map_values(|x: &str| x@) == kept_segments(all.take(i as int)),
        decreases segs@.len() - i,
    {
        let seg = segs[i];
        assert(all.take(i + 1).drop_last() == all.take(i as int));
        assert(all.take(i + 1).last() == seg@);
        let is_dot = seg.unicode_len() == 1 && seg.get_char(0) == '.';
        assert(is_dot == (seg@ == seq!['.'])) by {
            if seg@.len() == 1 && seg@[0] == '.' {
                assert(seg@ =~= seq!['.']);
            }
        }
        if seg.unicode_len() > 0 && !(i > 0 && is_dot) {
            let ghost before = out@;
            out.push(seg);
            assert(out@.map_values(|x: &str| x@) == before.map_values(|x: &str| x@).push(seg@));
        }
        i = i + 1;
    }
    assert(all.take(i as int) == all);
    out
}

/// Whether `a` is where `b` starts.
pub open spec fn is_prefix_of(a: Seq<Seq<char>>, b: Seq<Seq<char>>) -> bool {
    a.len() <= b.len() && b.subrange(0, a.len() as int) == a
}

/// The components of `folder` below `base`, or `None` where `folder` does
/// not lie below `base`.
pub open spec fn relative_components(base: Seq<char>, folder: Seq<char>) -> Option<
    Seq<Seq<char>>,
> {
    if is_prefix_of(components(base), components(folder)) {
        Some(components(folder).subrange(components(base).len() as int, components(folder).len() as int))
    } else {
        None
    }
}

/// The components of `folder` below `base`.
fn strip_components(base: &str, folder: &str) -> (r: Option<Vec<String>>)
    ensures
        match r {
            Some(v) => relative_components(base@, folder@) == Some(strings_view(v@)),
            None => relative_components(base@, folder@) is None,
        },
{
    let b = path_components(base);
    let f = path_components(folder);
    let ghost bv = b@.map_values(|x: &str| x@);
    let ghost fv = f@.map_values(|x: &str| x@);
    if b.len() > f.len() {
        return None;
    }
    let mut i: usize = 0;
    while i < b.len()
        invariant
            bv == b@.map_values(|x: &str| x@),
            fv == f@.map_values(|x: &str| x@),
            bv == components(base@),
            fv == components(folder@),
            b@.len() <= f@.len(),
            i <= b@.len(),
            fv.subrange(0, i as int) == bv.subrange(0, i as int),
        decreases b@.len() - i,
    {
        if !str_eq(b[i], f[i]) {
            assert(fv.subrange(0, bv.len() as int)[i as int] != bv[i as int]);
            return None;
        }
        assert(fv.subrange(0, i + 1) == fv.subrange(0, i as int).push(fv[i as int]));
        assert(bv.subrange(0, i + 1) == bv.subrange(0, i as int).push(bv[i as int]));
        i = i + 1;
    }
    assert(bv.subrange(0, i as int) == bv);
    let mut rest: Vec<String> = Vec::new();
    let mut j: usize = b.len();
    assert(strings_view(rest@) == fv.subrange(b@.len() as int, j as int));
    while j < f.len()
        invariant
            fv == f@.map_values(|x: &str| x@),
            bv == components(base@),
            fv == components(folder@),
            bv.len() == b@.len(),
            is_prefix_of(bv, fv),
            b@.len() <= j <= f@.len(),
            strings_view(rest@) == fv.subrange(b@.len() as int, j as int),
        decreases f@.len() - j,
    {
        let ghost before = rest@;
        rest.push(f[j].to_owned());
        assert(rest@.drop_last() == before);
        assert(strings_view(rest@) == strings_view(before).push(fv[j as int]));
        assert(fv.subrange(b@.len() as int, j + 1) == fv.subrange(b@.len() as int, j as int).push(
            fv[j as int],
        ));
        j = j + 1;
    }
    Some(rest)
}

/// One object to fetch: its key, and the name of the file it is written to.
#[derive(Debug, PartialEq, Eq)]
pub struct StagedFile {
    pub key: String,
    pub file_name: String,
}

/// One directory of the staging area, given by its components below the
/// staging root, and the objects written into it.
#[derive(Debug, PartialEq, Eq)]
pub struct StagedFolder {
    pub dirs: Vec<String>,
    pub files: Vec<StagedFile>,
}

/// A staged directory as the contracts see it: its components and the keys
/// of its objects.
pub struct FolderModel {
    pub dirs: Seq<Seq<char>>,
    pub keys: Seq<Seq<char>>,
}

/// The name a fetched object is written under: the last segment of its key.
pub open spec fn file_name_of(key: Seq<char>) -> Seq<char> {
    split_path(key).last()
}

impl StagedFolder {
    /// The components and keys of this directory.
    pub open spec fn model(&self) -> FolderModel {
        FolderModel {
            dirs: strings_view(self.dirs@),
            keys: self.files@.map_values(|f: StagedFile| f.key@),
        }
    }

    /// Whether every file is named after the last segment of its key.
    pub open spec fn names_follow_keys(&self) -> bool {
        forall|i: int|
            0 <= i < self.files@.len() ==> #[trigger] self.files@[i].file_name@ == file_name_of(
                self.files@[i].key@,
            )
    }
}

/// What a download plan comes to: its directories, or the prefix of the
/// first page that does not lie below the downloaded prefix.
pub enum PlanModel {
    Planned(Seq<FolderModel>),
    Outside(Seq<char>),
}

/// The plan for downloading `artifact` from the walk's `pages`: a page
/// without a prefix is passed over; each other page gives one directory,
/// its prefix's components below `artifact`, holding the page's objects.
pub open spec fn plan_of(artifact: Seq<char>, pages: Seq<ListingPage>) -> PlanModel
    decreases pages.len(),
{
    if pages.len() == 0 {
        PlanModel::Planned(Seq::empty())
    } else {
        match plan_of(artifact, pages.drop_last()) {
            PlanModel::Outside(p) => PlanModel::Outside(p),
            PlanModel::Planned(folders) => match pages.last().prefix {
                None => PlanModel::Planned(folders),
                Some(prefix) => match relative_components(artifact, prefix@) {
                    None => PlanModel::Outside(prefix@),
                    Some(dirs) => PlanModel::Planned(
                        folders.push(
                            FolderModel {
                                dirs,
                                keys: strings_view(pages.last().objects@),
                            },
                        ),
                    ),
                },
            },
        }
    }
}

/// The files of one page, each named after its key's last segment.
fn staged_files(keys: &Vec<String>) -> (r: Vec<StagedFile>)
    ensures
        r@.map_values(|f: StagedFile| f.key@) == strings_view(keys@),
        forall|i: int|
            0 <= i < r@.len() ==> #[trigger] r@[i].file_name@ == file_name_of(r@[i].key@),
{
    let mut out: Vec<StagedFile> = Vec::new();
    let mut i: usize = 0;
    while i < keys.len()
        invariant
            i <= keys@.len(),
            out@.map_values(|f: StagedFile| f.key@) == strings_view(keys@).take(i as int),
            forall|k: int|
                0 <= k < out@.len() ==> #[trigger] out@[k].file_name@ == file_name_of(
                    out@[k].key@,
                ),
        decreases keys@.len() - i,
    {
        let key = &keys[i];
        let name = last_segment(key.as_str()).to_owned();
        let ghost before = out@;
        out.push(StagedFile { key: key.clone(), file_name: name });
        assert(out@.drop_last() == before);
        assert(strings_view(keys@).take(i + 1) == strings_view(keys@).take(i as int).push(
            keys@[i as int]@,
        ));
        assert(out@.map_values(|f: StagedFile| f.key@) == before.map_values(|f: StagedFile| f.key@).push(
            key@,
        ));
        i = i + 1;
    }
    assert(strings_view(keys@).take(i as int) == strings_view(keys@));
    out
}

/// Lays out the download of `artifact_path` from the pages that the walk
/// below it gathered: one staging directory per page that carries a prefix,
/// in walk order, each holding that page's objects. Stops at the first page
/// whose prefix does not lie below `artifact_path`.
pub fn plan_download(artifact_path: &str, pages: &Vec<ListingPage>) -> (r: Result<
    Vec<StagedFolder>,
    DownloadError,
>)
    ensures
        match r {
            Ok(folders) => {
                &&& plan_of(artifact_path@, pages@) == PlanModel::Planned(
                    folders@.map_values(|f: StagedFolder| f.model()),
                )
                &&& forall|i: int|
                    0 <= i < folders@.len() ==> (#[trigger] folders@[i]).names_follow_keys()
            },
            Err(DownloadError::PrefixOutside(p)) => plan_of(artifact_path@, pages@)
                == PlanModel::Outside(p@),
            Err(DownloadError::Status(_)) => false,
        },
{
    let mut folders: Vec<StagedFolder> = Vec::new();
    let mut i: usize = 0;
    assert(pages@.take(0) == Seq::<ListingPage>::empty());
    assert(folders@.map_values(|f: StagedFolder| f.model()) == Seq::<FolderModel>::empty());
    while i < pages.len()
        invariant
            i <= pages@.len(),
            plan_of(artifact_path@, pages@.take(i as int)) == PlanModel::Planned(
                folders@.map_values(|f: StagedFolder| f.model()),
            ),
            forall|k: int| 0 <= k < folders@.len() ==> (#[trigger] folders@[k]).names_follow_keys(),
        decreases pages@.len() - i,
    {
        let page = &pages[i];
        assert(pages@.take(i + 1).drop_last() == pages@.take(i as int));
        assert(pages@.take(i + 1).last() == pages@[i as int]);
        match &page.prefix {
            None => {},
            Some(prefix) => {
                match strip_components(artifact_path, prefix.as_str()) {
                    None => {
                        proof { lemma_plan_outside_stays(artifact_path@, pages@, i as int + 1, prefix@); }
                        return Err(DownloadError::PrefixOutside(prefix.clone()));
                    },
                    Some(dirs) => {
                        let files = staged_files(&page.objects);
                        let folder = StagedFolder { dirs, files };
                        let ghost before = folders@;
                        folders.push(folder);
                        assert(folders@.drop_last() == before);
                        assert(folders@.map_values(|f: StagedFolder| f.model()) == before.map_values(
                            |f: StagedFolder| f.model(),
                        ).push(folder.model()));
                    },
                }
            },
        }
        i = i + 1;
    }
    assert(pages@.take(i as int) == pages@);
    Ok(folders)
}

/// Once a page lies outside, the plan stays stopped there.
proof fn lemma_plan_outside_stays(artifact: Seq<char>, pages: Seq<ListingPage>, n: int, p: Seq<char>)
    requires
        0 <= n <= pages.len(),
        plan_of(artifact, pages.take(n)) == PlanModel::Outside(p),
    ensures
        plan_of(artifact, pages) == PlanModel::Outside(p),
    decreases pages.len() - n,
{
    if n < pages.len() {
        assert(pages.take(n + 1).drop_last() == pages.take(n));
        lemma_plan_outside_stays(artifact, pages, n + 1, p);
    } else {
        assert(pages.take(n) == pages);
    }
}

/// Checks the status of an object request: only 200 lets the download go on.
pub fn check_download_status(status: u16) -> (r: Result<(), DownloadError>)
    ensures
        r is Ok <==> status == 200,
        r matches Err(e) ==> e == DownloadError::Status(status),
{
    if status != 200 {
        return Err(DownloadError::Status(status));
    }
    Ok(())
}

/// Whether a path starts at the root.
pub open spec fn is_absolute(s: Seq<char>) -> bool {
    s.len() > 0 && s[0] == '/'
}

/// Whether two paths name the same place: both rooted or both relative, with
/// the same components.
pub open spec fn same_path(a: Seq<char>, b: Seq<char>) -> bool {
    is_absolute(a) == is_absolute(b) && components(a) == components(b)
}

/// What becomes of the staging area once everything is staged.
#[derive(Debug, PartialEq, Eq, Clone, Copy)]
pub enum Relocation {
    /// The staging area is the destination: nothing to move.
    InPlace,
    /// Move the staging area onto the destination, merging into what is
    /// there: colliding files are overwritten, colliding directories are
    /// entered.
    MergeInto,
}

/// Decides how the staging area reaches the destination.
pub fn move_from_temp_to_dest(temporary_folder: &str, destination_folder: &str) -> (r: Relocation)
    ensures
        r == Relocation::InPlace <==> same_path(temporary_folder@, destination_folder@),
{
    let ta = temporary_folder.unicode_len() > 0 && temporary_folder.get_char(0) == '/';
    let da = destination_folder.unicode_len() > 0 && destination_folder.get_char(0) == '/';
    if ta != da {
        assert(is_absolute(temporary_folder@) != is_absolute(destination_folder@));
        return Relocation::MergeInto;
    }
    let tc = path_components(temporary_folder);
    let dc = path_components(destination_folder);
    let ghost tv = tc@.map_values(|x: &str| x@);
    let ghost dv = dc@.map_values(|x: &str| x@);
    if tc.len() != dc.len() {
        assert(tv.len() != dv.len());
        assert(components(temporary_folder@) != components(destination_folder@));
        return Relocation::MergeInto;
    }
    let mut i: usize = 0;
    while i < tc.len()
        invariant
            tv == tc@.map_values(|x: &str| x@),
            dv == dc@.map_values(|x: &str| x@),
            tv == components(temporary_folder@),
            dv == components(destination_folder@),
            tc@.len() == dc@.len(),
            i <= tc@.len(),
            tv.subrange(0, i as int) == dv.subrange(0, i as int),
        decreases tc@.len() - i,
    {
        if !str_eq(tc[i], dc[i]) {
            assert(tv[i as int] != dv[i as int]);
            return Relocation::MergeInto;
        }
        assert(tv.subrange(0, i + 1) == tv.subrange(0, i as int).push(tv[i as int]));
        assert(dv.subrange(0, i + 1) == dv.subrange(0, i as int).push(dv[i as int]));
        i = i + 1;
    }
    assert(tv.subrange(0, i as int) == tv);
    assert(dv.subrange(0, i as int) == dv);
    Relocation::InPlace
}

} // verus!
