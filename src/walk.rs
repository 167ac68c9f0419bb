//! The depth-first walk of a prefix space, one listing call at a time.
//!
//! The walk decides which prefix to list next; the caller lists it and hands
//! the pages back. Any failed listing ends the walk at the caller.

use vstd::prelude::*;
use crate::listing::{folders_in_listing, listed_sub_prefixes, strings_view, ListingPage};

verus! {

/// What the walk asks for next.
#[derive(Debug, PartialEq, Eq)]
pub enum WalkStep {
    /// List this prefix and hand its pages to `on_listing`.
    List(String),
    /// Every prefix has been listed; `into_pages` gives the result.
    Done,
}

/// One listed prefix whose sub-prefixes are being walked.
struct Frame {
    pages: Vec<ListingPage>,
    subs: Vec<String>,
    next: usize,
}

/// A listed prefix as the walk sees it: its pages, its sub-prefixes, and how
/// many of them have been asked for.
pub struct FrameModel {
    pub pages: Seq<ListingPage>,
    pub subs: Seq<Seq<char>>,
    pub next: nat,
}

/// The frame pushed for a freshly listed prefix.
pub open spec fn fresh_frame(pages: Seq<ListingPage>) -> FrameModel {
    FrameModel { pages, subs: listed_sub_prefixes(pages), next: 0 }
}

/// Where a walk goes from `frames` and `output`: the innermost frame with a
/// sub-prefix left asks for it; finished frames are closed, innermost first,
/// each adding its own pages after those of its descendants. Gives the frames
/// and output that remain, and the prefix to list (`None` once all is done).
pub open spec fn settle(frames: Seq<FrameModel>, output: Seq<ListingPage>) -> (Seq<FrameModel>, Seq<
    ListingPage,
>, Option<Seq<char>>)
    decreases frames.len(),
{
    if frames.len() == 0 {
        (frames, output, None)
    } else {
        let top = frames.last();
        if top.next < top.subs.len() {
            (
                frames.update(frames.len() - 1, FrameModel { next: top.next + 1, ..top }),
                output,
                Some(top.subs[top.next as int]),
            )
        } else {
            settle(frames.drop_last(), output + top.pages)
        }
    }
}

/// A walk of the prefix space below one prefix, in depth-first order: every
/// sub-prefix is walked before its siblings, and the pages of a prefix come
/// after those of all its descendants.
pub struct PrefixWalk {
    frames: Vec<Frame>,
    output: Vec<ListingPage>,
    awaiting: bool,
}

impl Frame {
    spec fn model(&self) -> FrameModel {
        FrameModel { pages: self.pages@, subs: strings_view(self.subs@), next: self.next as nat }
    }
}

impl PrefixWalk {
    /// The listed prefixes still open, outermost first.
    pub closed spec fn frames(&self) -> Seq<FrameModel> {
        self.frames@.map_values(|f: Frame| f.model())
    }

    /// The pages gathered so far, in walk order.
    pub closed spec fn output(&self) -> Seq<ListingPage> {
        self.output@
    }

    /// Whether a listing has been asked for and not yet handed back.
    pub closed spec fn awaiting(&self) -> bool {
        self.awaiting
    }

    /// Starts a walk below `prefix`: the first step lists `prefix` itself.
    pub fn start(prefix: &str) -> (r: (PrefixWalk, WalkStep))
        ensures
            r.0.frames() == Seq::<FrameModel>::empty(),
            r.0.output() == Seq::<ListingPage>::empty(),
            r.0.awaiting(),
            r.1 matches WalkStep::List(p) && p@ == prefix@,
    {
        let w = PrefixWalk { frames: Vec::new(), output: Vec::new(), awaiting: true };
        assert(w.frames() == Seq::<FrameModel>::empty());
        (w, WalkStep::List(prefix.to_owned()))
    }

    /// Takes the pages of the prefix last asked for, and says what to list
    /// next, or that the walk is done.
    pub fn on_listing(&mut self, pages: Vec<ListingPage>) -> (step: WalkStep)
        requires
            old(self).awaiting(),
        ensures
            ({
                let s = settle(old(self).frames().push(fresh_frame(pages@)), old(self).output());
                &&& final(self).frames() == s.0
                &&& final(self).output() == s.1
                &&& final(self).awaiting() == s.2 is Some
                &&& match step {
                    WalkStep::List(p) => s.2 == Some(p@),
                    WalkStep::Done => s.2 is None,
                }
            }),
    {
        let subs = folders_in_listing(&pages);
        let frame = Frame { pages, subs, next: 0 };
        let ghost before = self.frames();
        self.frames.push(frame);
        assert(self.frames() == before.push(fresh_frame(pages@)));
        let step = self.settle();
        step
    }

    /// Runs `settle` on the present state.
    fn settle(&mut self) -> (step: WalkStep)
        ensures
            ({
                let s = settle(old(self).frames(), old(self).output());
                &&& final(self).frames() == s.0
                &&& final(self).output() == s.1
                &&& final(self).awaiting() == s.2 is Some
                &&& match step {
                    WalkStep::List(p) => s.2 == Some(p@),
                    WalkStep::Done => s.2 is None,
                }
            }),
        decreases old(self).frames@.len(),
    {
        if self.frames.len() == 0 {
            self.awaiting = false;
            return WalkStep::Done;
        }
        let ghost fs = self.frames();
        let mut top = self.frames.pop().unwrap();
        assert(self.frames() == fs.drop_last());
        assert(top.model() == fs.last());
        if top.next < top.subs.len() {
            let p = top.subs[top.next].clone();
            top.next = top.next + 1;
            self.frames.push(top);
            assert(self.frames() == fs.update(fs.len() - 1, FrameModel { next: fs.last().next + 1, ..fs.last() }));
            self.awaiting = true;
            WalkStep::List(p)
        } else {
            self.output.append(&mut top.pages);
            self.settle()
        }
    }

    /// The pages gathered by the walk, in walk order.
    pub fn into_pages(self) -> (r: Vec<ListingPage>)
        ensures
            r@ == self.output(),
    {
        self.output
    }
}

/// A prefix without sub-prefixes is listed once: the walk ends at once with
/// exactly its pages.
pub proof fn lemma_walk_without_sub_prefixes(pages: Seq<ListingPage>)
    requires
        listed_sub_prefixes(pages).len() == 0,
    ensures
        settle(Seq::<FrameModel>::empty().push(fresh_frame(pages)), Seq::empty()) == (
            Seq::<FrameModel>::empty(),
            pages,
            None::<Seq<char>>,
        ),
{
    let fs = Seq::<FrameModel>::empty().push(fresh_frame(pages));
    assert(fs.drop_last() == Seq::<FrameModel>::empty());
    assert(Seq::<ListingPage>::empty() + pages == pages);
    assert(settle(Seq::<FrameModel>::empty(), pages) == (Seq::<FrameModel>::empty(), pages, None::<Seq<char>>));
}


/// What listing a prefix and everything below it gives: the pages of the
/// prefix, and the same for each of its sub-prefixes, in listing order.
pub struct ListingTree {
    pub pages: Seq<ListingPage>,
    pub subtrees: Seq<ListingTree>,
}

/// Whether each listing in `t` has one subtree per sub-prefix it names.
pub open spec fn tree_matches_listings(t: ListingTree) -> bool
    decreases t,
{
    &&& t.subtrees.len() == listed_sub_prefixes(t.pages).len()
    &&& forall|i: int|
        0 <= i < t.subtrees.len() ==> tree_matches_listings(#[trigger] t.subtrees[i])
}

/// The listings of `t` in the order a depth-first walk asks for them: the
/// prefix itself, then each sub-prefix's in turn.
pub open spec fn listings_in_walk_order(t: ListingTree) -> Seq<Seq<ListingPage>>
    decreases t, t.subtrees.len() + 1,
{
    seq![t.pages] + listings_from(t, 0)
}

/// The listings of the subtrees of `t` from position `j` on, in walk order.
pub open spec fn listings_from(t: ListingTree, j: int) -> Seq<Seq<ListingPage>>
    decreases t, t.subtrees.len() - j,
{
    if 0 <= j < t.subtrees.len() {
        listings_in_walk_order(t.subtrees[j]) + listings_from(t, j + 1)
    } else {
        Seq::empty()
    }
}

/// The pages of `t` in depth-first order, each prefix's pages after those
/// of all its descendants.
pub open spec fn pages_in_walk_order(t: ListingTree) -> Seq<ListingPage>
    decreases t, t.subtrees.len() + 1,
{
    pages_from(t, 0) + t.pages
}

/// The pages of the subtrees of `t` from position `j` on, in walk order.
pub open spec fn pages_from(t: ListingTree, j: int) -> Seq<ListingPage>
    decreases t, t.subtrees.len() - j,
{
    if 0 <= j < t.subtrees.len() {
        pages_in_walk_order(t.subtrees[j]) + pages_from(t, j + 1)
    } else {
        Seq::empty()
    }
}

/// The frames and output after handing `listings` to `on_listing` in turn.
pub open spec fn feed(frames: Seq<FrameModel>, output: Seq<ListingPage>, listings: Seq<Seq<ListingPage>>) -> (Seq<FrameModel>, Seq<ListingPage>)
    decreases listings.len(),
{
    if listings.len() == 0 {
        (frames, output)
    } else {
        let s = settle(frames.push(fresh_frame(listings[0])), output);
        feed(s.0, s.1, listings.drop_first())
    }
}

/// Feeding two runs of listings is feeding the first, then the second.
proof fn lemma_feed_concat(frames: Seq<FrameModel>, output: Seq<ListingPage>, a: Seq<Seq<ListingPage>>, b: Seq<Seq<ListingPage>>)
    ensures
        feed(frames, output, a + b) == ({
            let m = feed(frames, output, a);
            feed(m.0, m.1, b)
        }),
    decreases a.len(),
{
    if a.len() > 0 {
        let s = settle(frames.push(fresh_frame(a[0])), output);
        assert((a + b)[0] == a[0]);
        assert((a + b).drop_first() == a.drop_first() + b);
        lemma_feed_concat(s.0, s.1, a.drop_first(), b);
    } else {
        assert(a + b == b);
    }
}

/// Feeding the listings of a subtree closes it: its pages join the output in
/// walk order, and the walk goes on from the frames around it.
proof fn lemma_feed_subtree(t: ListingTree, frames: Seq<FrameModel>, output: Seq<ListingPage>)
    requires
        tree_matches_listings(t),
    ensures
        feed(frames, output, listings_in_walk_order(t)) == ({
            let s = settle(frames, output + pages_in_walk_order(t));
            (s.0, s.1)
        }),
    decreases t, t.subtrees.len() + 1,
{
    let first = frames.push(fresh_frame(t.pages));
    let s = settle(first, output);
    let all = listings_in_walk_order(t);
    assert(all[0] == t.pages);
    assert(all.drop_first() == listings_from(t, 0));
    lemma_feed_siblings(t, frames, output, 0);
    assert(first == frames.push(FrameModel { pages: t.pages, subs: listed_sub_prefixes(t.pages), next: 0 }));
    assert(output + pages_from(t, 0) + t.pages == output + pages_in_walk_order(t));
}

/// Feeding the listings of the subtrees from position `j` on, with the frame
/// of `t` about to ask for its `j`-th sub-prefix, closes `t`.
proof fn lemma_feed_siblings(t: ListingTree, frames: Seq<FrameModel>, output: Seq<ListingPage>, j: int)
    requires
        tree_matches_listings(t),
        0 <= j <= t.subtrees.len(),
    ensures
        ({
            let fr = FrameModel { pages: t.pages, subs: listed_sub_prefixes(t.pages), next: j as nat };
            let s = settle(frames.push(fr), output);
            feed(s.0, s.1, listings_from(t, j))
        }) == ({
            let s = settle(frames, output + pages_from(t, j) + t.pages);
            (s.0, s.1)
        }),
    decreases t, t.subtrees.len() - j,
{
    let fr = FrameModel { pages: t.pages, subs: listed_sub_prefixes(t.pages), next: j as nat };
    let fs = frames.push(fr);
    assert(fs.drop_last() == frames);
    assert(fs.last() == fr);
    if j < t.subtrees.len() {
        let sub = t.subtrees[j];
        assert(tree_matches_listings(sub));
        let next = FrameModel { pages: t.pages, subs: listed_sub_prefixes(t.pages), next: (j + 1) as nat };
        let s = settle(fs, output);
        assert(s.0 == frames.push(next)) by {
            assert(fs.update(fs.len() - 1, FrameModel { next: fr.next + 1, ..fr }) == frames.push(next));
        }
        lemma_feed_concat(s.0, s.1, listings_in_walk_order(sub), listings_from(t, j + 1));
        lemma_feed_subtree(sub, frames.push(next), output);
        lemma_feed_siblings(t, frames, output + pages_in_walk_order(sub), j + 1);
        assert(output + pages_in_walk_order(sub) + pages_from(t, j + 1) == output + pages_from(t, j));
    } else {
        assert(listings_from(t, j) == Seq::<Seq<ListingPage>>::empty());
        assert(pages_from(t, j) == Seq::<ListingPage>::empty());
        assert(output + pages_from(t, j) == output);
    }
}

/// The prefixes below the root of `t` in the order a depth-first walk asks
/// for them: each sub-prefix, then those below it, before the next one.
pub open spec fn prefixes_below(t: ListingTree) -> Seq<Seq<char>>
    decreases t, t.subtrees.len() + 1,
{
    prefixes_below_from(t, 0)
}

/// The prefixes asked for below the sub-prefixes of `t` from position `j` on.
pub open spec fn prefixes_below_from(t: ListingTree, j: int) -> Seq<Seq<char>>
    decreases t, t.subtrees.len() - j,
{
    if 0 <= j < t.subtrees.len() {
        seq![listed_sub_prefixes(t.pages)[j]] + prefixes_below(t.subtrees[j]) + prefixes_below_from(
            t,
            j + 1,
        )
    } else {
        Seq::empty()
    }
}

/// What `on_listing` answers to each of `listings` in turn: the prefix it
/// asks for next, or `None` once the walk is done.
pub open spec fn answers_to(frames: Seq<FrameModel>, output: Seq<ListingPage>, listings: Seq<Seq<ListingPage>>) -> Seq<Option<Seq<char>>>
    decreases listings.len(),
{
    if listings.len() == 0 {
        Seq::empty()
    } else {
        let s = settle(frames.push(fresh_frame(listings[0])), output);
        seq![s.2] + answers_to(s.0, s.1, listings.drop_first())
    }
}

/// Every element of `s` wrapped in `Some`.
pub open spec fn all_some(s: Seq<Seq<char>>) -> Seq<Option<Seq<char>>> {
    s.map_values(|p: Seq<char>| Some(p))
}

/// The answers to two runs of listings are those to the first, then those
/// to the second from where the first left the walk.
proof fn lemma_answers_concat(frames: Seq<FrameModel>, output: Seq<ListingPage>, a: Seq<Seq<ListingPage>>, b: Seq<Seq<ListingPage>>)
    ensures
        answers_to(frames, output, a + b) == answers_to(frames, output, a) + ({
            let m = feed(frames, output, a);
            answers_to(m.0, m.1, b)
        }),
    decreases a.len(),
{
    if a.len() > 0 {
        let s = settle(frames.push(fresh_frame(a[0])), output);
        assert((a + b)[0] == a[0]);
        assert((a + b).drop_first() == a.drop_first() + b);
        lemma_answers_concat(s.0, s.1, a.drop_first(), b);
        assert(seq![s.2] + answers_to(s.0, s.1, a.drop_first()) + answers_to(
            feed(s.0, s.1, a.drop_first()).0,
            feed(s.0, s.1, a.drop_first()).1,
            b,
        ) == seq![s.2] + (answers_to(s.0, s.1, a.drop_first()) + answers_to(
            feed(s.0, s.1, a.drop_first()).0,
            feed(s.0, s.1, a.drop_first()).1,
            b,
        )));
    } else {
        assert(a + b == b);
        assert(Seq::<Option<Seq<char>>>::empty() + answers_to(frames, output, b) == answers_to(
            frames,
            output,
            b,
        ));
    }
}

/// While the listings of a subtree are fed, the walk asks for the prefixes
/// below it in walk order, then goes on as the frames around it say.
proof fn lemma_answers_subtree(t: ListingTree, frames: Seq<FrameModel>, output: Seq<ListingPage>)
    requires
        tree_matches_listings(t),
    ensures
        answers_to(frames, output, listings_in_walk_order(t)) == all_some(prefixes_below(t)) + seq![
            settle(frames, output + pages_in_walk_order(t)).2,
        ],
    decreases t, t.subtrees.len() + 1,
{
    let all = listings_in_walk_order(t);
    assert(all[0] == t.pages);
    assert(all.drop_first() == listings_from(t, 0));
    lemma_answers_siblings(t, frames, output, 0);
    assert(output + pages_from(t, 0) + t.pages == output + pages_in_walk_order(t));
}

/// With the frame of `t` about to ask for its `j`-th sub-prefix, the walk's
/// next answer and its answers to the listings of the subtrees from `j` on
/// ask for the prefixes below those sub-prefixes in walk order.
proof fn lemma_answers_siblings(t: ListingTree, frames: Seq<FrameModel>, output: Seq<ListingPage>, j: int)
    requires
        tree_matches_listings(t),
        0 <= j <= t.subtrees.len(),
    ensures
        ({
            let fr = FrameModel { pages: t.pages, subs: listed_sub_prefixes(t.pages), next: j as nat };
            let s = settle(frames.push(fr), output);
            seq![s.2] + answers_to(s.0, s.1, listings_from(t, j))
        }) == all_some(prefixes_below_from(t, j)) + seq![
            settle(frames, output + pages_from(t, j) + t.pages).2,
        ],
    decreases t, t.subtrees.len() - j,
{
    let fr = FrameModel { pages: t.pages, subs: listed_sub_prefixes(t.pages), next: j as nat };
    let fs = frames.push(fr);
    assert(fs.drop_last() == frames);
    assert(fs.last() == fr);
    if j < t.subtrees.len() {
        let sub = t.subtrees[j];
        assert(tree_matches_listings(sub));
        let next = FrameModel { pages: t.pages, subs: listed_sub_prefixes(t.pages), next: (j + 1) as nat };
        let s = settle(fs, output);
        assert(s.0 == frames.push(next)) by {
            assert(fs.update(fs.len() - 1, FrameModel { next: fr.next + 1, ..fr }) == frames.push(next));
        }
        let o2 = output + pages_in_walk_order(sub);
        lemma_answers_concat(s.0, s.1, listings_in_walk_order(sub), listings_from(t, j + 1));
        lemma_answers_subtree(sub, frames.push(next), output);
        lemma_feed_subtree(sub, frames.push(next), output);
        lemma_answers_siblings(t, frames, o2, j + 1);
        assert(o2 + pages_from(t, j + 1) == output + pages_from(t, j));
        let head = listed_sub_prefixes(t.pages)[j];
        let below = prefixes_below(sub);
        let rest = prefixes_below_from(t, j + 1);
        assert(all_some(seq![head] + below + rest) == seq![Some(head)] + all_some(below) + all_some(rest));
        let last = seq![settle(frames, output + pages_from(t, j) + t.pages).2];
        let mid = settle(frames.push(next), o2);
        assert(seq![s.2] + (all_some(below) + seq![mid.2] + answers_to(mid.0, mid.1, listings_from(t, j + 1)))
            == seq![Some(head)] + all_some(below) + (seq![mid.2] + answers_to(mid.0, mid.1, listings_from(t, j + 1))));
    } else {
        assert(listings_from(t, j) == Seq::<Seq<ListingPage>>::empty());
        assert(pages_from(t, j) == Seq::<ListingPage>::empty());
        assert(prefixes_below_from(t, j) == Seq::<Seq<char>>::empty());
        assert(output + pages_from(t, j) == output);
        assert(all_some(Seq::<Seq<char>>::empty()) == Seq::<Option<Seq<char>>>::empty());
    }
}

/// Handed the listings of a prefix tree in the order it asks for them, a
/// walk started afresh asks for every prefix below the root in depth-first
/// order, each sub-prefix right before those below it and before its next
/// sibling, says it is done only after the last listing, and gathers the
/// tree's pages in depth-first order, each prefix's pages after those of
/// all its descendants.
pub proof fn lemma_walk_gathers_depth_first(t: ListingTree)
    requires
        tree_matches_listings(t),
    ensures
        feed(Seq::empty(), Seq::empty(), listings_in_walk_order(t)) == (
            Seq::<FrameModel>::empty(),
            pages_in_walk_order(t),
        ),
        settle(Seq::<FrameModel>::empty(), pages_in_walk_order(t)).2 is None,
        answers_to(Seq::empty(), Seq::empty(), listings_in_walk_order(t)) == all_some(
            prefixes_below(t),
        ) + seq![None::<Seq<char>>],
{
    lemma_feed_subtree(t, Seq::empty(), Seq::empty());
    lemma_answers_subtree(t, Seq::empty(), Seq::empty());
    assert(Seq::<ListingPage>::empty() + pages_in_walk_order(t) == pages_in_walk_order(t));
}

} // verus!
