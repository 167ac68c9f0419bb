//! One level of a delimited listing, and the keys that listings hold.

use vstd::prelude::*;

verus! {

/// What one delimited listing call returns for a prefix: the objects directly
/// under it and its immediate sub-prefixes, each one level deeper.
#[derive(Debug, Clone, PartialEq, Eq)]
pub struct ListingPage {
    /// The prefix that was listed, where the store reports it.
    pub prefix: Option<String>,
    /// The keys of the objects directly under the prefix, in listing order.
    pub objects: Vec<String>,
    /// The immediate child prefixes, in listing order.
    pub sub_prefixes: Vec<String>,
}

/// Why listed keys could not be laid out below the prefix they were listed
/// under.
#[derive(Debug, PartialEq, Eq)]
pub enum ListingError {
    /// A listed key does not begin with the prefix that was listed: the store
    /// and the walk disagree.
    KeyOutsidePrefix(String),
}

/// The characters of each string of `v`.
pub open spec fn strings_view(v: Seq<String>) -> Seq<Seq<char>> {
    v.map_values(|s: String| s@)
}

/// The object keys of `pages`, page after page.
pub open spec fn listed_keys(pages: Seq<ListingPage>) -> Seq<Seq<char>>
    decreases pages.len(),
{
    if pages.len() == 0 {
        Seq::empty()
    } else {
        listed_keys(pages.drop_last()) + strings_view(pages.last().objects@)
    }
}

/// The sub-prefixes of `pages`, page after page.
pub open spec fn listed_sub_prefixes(pages: Seq<ListingPage>) -> Seq<Seq<char>>
    decreases pages.len(),
{
    if pages.len() == 0 {
        Seq::empty()
    } else {
        listed_sub_prefixes(pages.drop_last()) + strings_view(pages.last().sub_prefixes@)
    }
}

/// The sub-prefixes of a listing, page after page: the folders directly under
/// the listed prefix.
pub fn folders_in_listing(pages: &Vec<ListingPage>) -> (r: Vec<String>)
    ensures
        strings_view(r@) == listed_sub_prefixes(pages@),
{
    let mut out: Vec<String> = Vec::new();
    let mut i: usize = 0;
    assert(pages@.take(0) == Seq::<ListingPage>::empty());
    while i < pages.len()
        invariant
            i <= pages@.len(),
            strings_view(out@) == listed_sub_prefixes(pages@.take(i as int)),
        decreases pages@.len() - i,
    {
        let subs = &pages[i].sub_prefixes;
        let ghost before = strings_view(out@);
        let mut j: usize = 0;
        while j < subs.len()
            invariant
                i < pages@.len(),
                subs == pages@[i as int].sub_prefixes,
                j <= subs@.len(),
                strings_view(out@) == before + strings_view(subs@).take(j as int),
            decreases subs@.len() - j,
        {
            let ghost prev = out@;
            out.push(subs[j].clone());
            assert(out@.drop_last() == prev);
            assert(strings_view(subs@).take(j + 1) == strings_view(subs@).take(j as int).push(
                subs@[j as int]@,
            ));
            assert(strings_view(out@) == strings_view(out@.drop_last()).push(out@.last()@));
            j = j + 1;
        }
        assert(pages@.take(i + 1).drop_last() == pages@.take(i as int));
        assert(strings_view(subs@).take(subs@.len() as int) == strings_view(subs@));
        i = i + 1;
    }
    assert(pages@.take(pages@.len() as int) == pages@);
    out
}

} // verus!
