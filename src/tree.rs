//! The artifact tree: listed keys turned into a hierarchy of named nodes.

use vstd::prelude::*;
use crate::listing::{listed_keys, strings_view, ListingError, ListingPage};
use crate::text::{has_prefix, split_path, split_path_segments, str_eq, strip_prefix};

verus! {

/// What a node of an artifact tree stands for: its name and its children in
/// the order in which they were first seen.
pub struct NodeModel {
    pub name: Seq<char>,
    pub children: Seq<NodeModel>,
}

/// A node without children.
pub open spec fn leaf(name: Seq<char>) -> NodeModel {
    NodeModel { name, children: Seq::empty() }
}

/// The first position in `cs` of a node named `name`, or -1 where none is.
pub open spec fn child_index(cs: Seq<NodeModel>, name: Seq<char>) -> int
    decreases cs.len(),
{
    if cs.len() == 0 {
        -1
    } else {
        let before = child_index(cs.drop_last(), name);
        if before >= 0 {
            before
        } else if cs.last().name == name {
            cs.len() - 1
        } else {
            -1
        }
    }
}

/// `t` with the path `parts` added below it: each segment descends into the
/// child of that name, which is appended where it is missing.
pub open spec fn insert_path(t: NodeModel, parts: Seq<Seq<char>>) -> NodeModel
    decreases parts.len(),
{
    if parts.len() == 0 {
        t
    } else {
        let k = child_index(t.children, parts[0]);
        if k >= 0 {
            NodeModel {
                name: t.name,
                children: t.children.update(k, insert_path(t.children[k], parts.drop_first())),
            }
        } else {
            NodeModel {
                name: t.name,
                children: t.children.push(insert_path(leaf(parts[0]), parts.drop_first())),
            }
        }
    }
}

/// The segments held by a vector of string slices.
pub open spec fn segments_of(parts: Seq<&str>) -> Seq<Seq<char>> {
    parts.map_values(|p: &str| p@)
}

/// The segments of `parts` from position `depth` on.
pub open spec fn segments_from(parts: Seq<&str>, depth: int) -> Seq<Seq<char>> {
    if depth >= parts.len() {
        Seq::empty()
    } else {
        segments_of(parts).subrange(depth, parts.len() as int)
    }
}

/// A node of an artifact tree: a directory or an object, named by one path
/// segment. The root is named after the whole listed prefix.
#[derive(Debug)]
pub struct ArtifactNode {
    name: String,
    children: Vec<ArtifactNode>,
}

impl ArtifactNode {
    /// The model of this node and everything below it.
    pub closed spec fn model(&self) -> NodeModel
        decreases self,
    {
        NodeModel {
            name: self.name@,
            children: Seq::new(
                self.children@.len(),
                |i: int|
                    if 0 <= i < self.children@.len() {
                        self.children@[i].model()
                    } else {
                        leaf(Seq::empty())
                    },
            ),
        }
    }

    /// The model's parts, one level down.
    proof fn lemma_model_unfold(&self)
        ensures
            self.model().name == self.name@,
            self.model().children.len() == self.children@.len(),
            forall|i: int|
                0 <= i < self.children@.len() ==> #[trigger] self.model().children[i]
                    == self.children@[i].model(),
            forall|i: int|
                0 <= i < self.children@.len() ==> #[trigger] self.model().children[i].name
                    == self.children@[i].name@,
    {
        assert forall|i: int| 0 <= i < self.children@.len() implies #[trigger] self.model().children[i].name
            == self.children@[i].name@ by {
            assert(self.model().children[i] == self.children@[i].model());
        }
    }

    /// A node named `name`, without children.
    pub fn new(name: &str) -> (r: ArtifactNode)
        ensures
            r.model() == leaf(name@),
    {
        let r = ArtifactNode { name: name.to_owned(), children: Vec::new() };
        assert(r.model().children == Seq::<NodeModel>::empty());
        r
    }

    /// The position of the first child named `name`.
    fn find_child(&self, name: &str) -> (r: Option<usize>)
        ensures
            child_index(self.model().children, name@) == match r {
                Some(i) => i as int,
                None => -1,
            },
            r matches Some(i) ==> i < self.children@.len(),
    {
        let ghost cs = self.model().children;
        proof { self.lemma_model_unfold(); }
        let mut i: usize = 0;
        while i < self.children.len()
            invariant
                cs == self.model().children,
                i <= self.children@.len(),
                child_index(cs.subrange(0, i as int), name@) == -1,
            decreases self.children@.len() - i,
        {
            proof { self.lemma_model_unfold(); }
            assert(cs.subrange(0, i + 1).drop_last() == cs.subrange(0, i as int));
            if str_eq(self.children[i].name.as_str(), name) {
                proof {
                    assert(cs.subrange(0, i + 1).last() == cs[i as int]);
                    assert(cs[i as int].name == name@);
                    assert(child_index(cs.subrange(0, i + 1), name@) == i);
                    lemma_child_index_prefix(cs, name@, i + 1);
                }
                return Some(i);
            }
            proof {
                assert(cs.subrange(0, i + 1).last() == cs[i as int]);
                assert(cs[i as int].name != name@);
            }
            i = i + 1;
        }
        assert(cs.subrange(0, i as int) == cs);
        None
    }

    /// Appends `leaf` after the present children.
    fn add_child(&mut self, leaf: ArtifactNode)
        ensures
            final(self).model() == (NodeModel {
                name: old(self).model().name,
                children: old(self).model().children.push(leaf.model()),
            }),
    {
        self.children.push(leaf);
        assert(final(self).model().children == old(self).model().children.push(leaf.model()));
    }
}

/// Adds the path `parts[depth..]` below `node`, reusing the children that
/// already carry a segment's name and appending the others.
pub fn build_artifact_tree(node: &mut ArtifactNode, parts: &Vec<&str>, depth: usize)
    ensures
        final(node).model() == insert_path(old(node).model(), segments_from(parts@, depth as int)),
    decreases parts@.len() - depth,
{
    if depth >= parts.len() {
        return;
    }
    let part: &str = parts[depth];
    let ghost rest = segments_from(parts@, depth as int);
    proof {
        assert(rest[0] == part@);
        assert(rest.drop_first() == segments_from(parts@, depth + 1));
        old(node).lemma_model_unfold();
    }
    match node.find_child(part) {
        Some(i) => {
            let mut child = node.children.remove(i);
            build_artifact_tree(&mut child, parts, depth + 1);
            node.children.insert(i, child);
            proof {
                node.lemma_model_unfold();
                assert(node.children@ == old(node).children@.update(i as int, child));
                assert(node.model().children == old(node).model().children.update(
                    i as int,
                    child.model(),
                ));
            }
        },
        None => {
            let mut child = ArtifactNode::new(part);
            build_artifact_tree(&mut child, parts, depth + 1);
            node.add_child(child);
        },
    }
}

/// A match in a prefix of `cs` is the first match in `cs`.
proof fn lemma_child_index_prefix(cs: Seq<NodeModel>, name: Seq<char>, n: int)
    requires
        0 <= n <= cs.len(),
        child_index(cs.subrange(0, n), name) >= 0,
    ensures
        child_index(cs, name) == child_index(cs.subrange(0, n), name),
    decreases cs.len() - n,
{
    if n < cs.len() {
        assert(cs.subrange(0, n + 1).drop_last() == cs.subrange(0, n));
        lemma_child_index_prefix(cs, name, n + 1);
    } else {
        assert(cs.subrange(0, n) == cs);
    }
}


/// `child_index` reads the children's names alone.
proof fn lemma_child_index_names(cs1: Seq<NodeModel>, cs2: Seq<NodeModel>, name: Seq<char>)
    requires
        cs1.len() == cs2.len(),
        forall|i: int| 0 <= i < cs1.len() ==> #[trigger] cs1[i].name == cs2[i].name,
    ensures
        child_index(cs1, name) == child_index(cs2, name),
    decreases cs1.len(),
{
    if cs1.len() > 0 {
        lemma_child_index_names(cs1.drop_last(), cs2.drop_last(), name);
    }
}

/// Adding a path keeps the name of the node it is added to.
pub(crate) proof fn lemma_insert_path_name(t: NodeModel, parts: Seq<Seq<char>>)
    ensures
        insert_path(t, parts).name == t.name,
{
}

/// Inserting the same path twice gives the tree that inserting it once gives.
pub proof fn lemma_insert_path_idempotent(t: NodeModel, parts: Seq<Seq<char>>)
    ensures
        insert_path(insert_path(t, parts), parts) == insert_path(t, parts),
    decreases parts.len(),
{
    if parts.len() > 0 {
        let once = insert_path(t, parts);
        let rest = parts.drop_first();
        let k = child_index(t.children, parts[0]);
        if k >= 0 {
            lemma_child_index_bounds(t.children, parts[0]);
            let c = insert_path(t.children[k], rest);
            lemma_insert_path_name(t.children[k], rest);
            assert forall|i: int| 0 <= i < t.children.len() implies #[trigger] once.children[i].name
                == t.children[i].name by {}
            lemma_child_index_names(once.children, t.children, parts[0]);
            lemma_insert_path_idempotent(t.children[k], rest);
            assert(insert_path(once, parts).children == once.children);
        } else {
            let c = insert_path(leaf(parts[0]), rest);
            lemma_insert_path_name(leaf(parts[0]), rest);
            assert(once.children.drop_last() == t.children);
            assert(child_index(once.children, parts[0]) == t.children.len());
            lemma_insert_path_idempotent(leaf(parts[0]), rest);
            assert(insert_path(once, parts).children == once.children);
        }
    }
}

/// A found position lies within the children.
pub(crate) proof fn lemma_child_index_bounds(cs: Seq<NodeModel>, name: Seq<char>)
    ensures
        -1 <= child_index(cs, name) < cs.len(),
        child_index(cs, name) >= 0 ==> cs[child_index(cs, name)].name == name,
    decreases cs.len(),
{
    if cs.len() > 0 {
        lemma_child_index_bounds(cs.drop_last(), name);
    }
}


/// The mark that leads a nested entry of a rendered tree.
pub open spec fn connector() -> Seq<char> {
    seq!['└', '─', '─', ' ']
}

/// The display line of an entry named `name` at `depth`: the root's name as
/// it is; a nested one indented by four spaces a level, after the connector.
pub open spec fn tree_line(name: Seq<char>, depth: nat) -> Seq<char> {
    if depth == 0 {
        name
    } else {
        Seq::new(4 * depth, |i: int| ' ') + connector() + name
    }
}

/// Whether the indentation of every entry of `t`, placed at `depth`, can be
/// counted in a `u32`.
pub open spec fn depth_fits(t: NodeModel, depth: nat) -> bool
    decreases t,
{
    &&& 4 * depth <= u32::MAX
    &&& forall|i: int|
        0 <= i < t.children.len() ==> depth_fits(#[trigger] t.children[i], depth + 1)
}

/// The lines of `t` placed at `depth`, in pre-order: a node, then the lines
/// of each child in turn one level deeper.
pub open spec fn render(t: NodeModel, depth: nat) -> Seq<Seq<char>>
    decreases t, 1nat,
{
    seq![tree_line(t.name, depth)] + child_lines(t, depth).flatten()
}

/// The lines of each child of `t`, which stands at `depth`.
pub open spec fn child_lines(t: NodeModel, depth: nat) -> Seq<Seq<Seq<char>>>
    decreases t, 0nat,
{
    Seq::new(
        t.children.len(),
        |i: int|
            if 0 <= i < t.children.len() {
                render(t.children[i], depth + 1)
            } else {
                Seq::empty()
            },
    )
}

/// A child of a node that fits fits one level deeper.
proof fn lemma_depth_fits_child(t: NodeModel, depth: nat, i: int)
    requires
        depth_fits(t, depth),
        0 <= i < t.children.len(),
    ensures
        depth_fits(t.children[i], depth + 1),
        4 * depth <= u32::MAX,
{
}

/// The lines of a child, one level deeper.
proof fn lemma_child_lines(t: NodeModel, depth: nat, i: int)
    requires
        0 <= i < t.children.len(),
    ensures
        child_lines(t, depth).len() == t.children.len(),
        child_lines(t, depth)[i] == render(t.children[i], depth + 1),
{
}

/// The display line of one entry.
fn print_file(file_name: &str, depth: u32) -> (r: String)
    requires
        4 * depth <= u32::MAX,
    ensures
        r@ == tree_line(file_name@, depth as nat),
{
    if depth == 0 {
        return file_name.to_owned();
    }
    let width: u32 = depth * 4;
    let mut line = String::new();
    let mut k: u32 = 0;
    while k < width
        invariant
            k <= width,
            line@ == Seq::new(k as nat, |i: int| ' '),
        decreases width - k,
    {
        line.append(" ");
        proof { reveal_strlit(" "); }
        assert(line@ == Seq::new((k + 1) as nat, |i: int| ' '));
        k = k + 1;
    }
    line.append("└── ");
    line.append(file_name);
    proof { reveal_strlit("└── "); }
    line
}

/// The display lines of the tree below `node`, which stands at `depth`:
/// one line per node, in pre-order.
pub fn print_artifact_tree(node: &ArtifactNode, depth: u32) -> (lines: Vec<String>)
    requires
        depth_fits(node.model(), depth as nat),
    ensures
        lines@.map_values(|l: String| l@) == render(node.model(), depth as nat),
    decreases node,
{
    let ghost t = node.model();
    let ghost parts = child_lines(t, depth as nat);
    proof { node.lemma_model_unfold(); }
    let mut lines: Vec<String> = Vec::new();
    lines.push(print_file(node.name.as_str(), depth));
    let mut i: usize = 0;
    while i < node.children.len()
        invariant
            t == node.model(),
            t.children.len() == node.children@.len(),
            depth_fits(t, depth as nat),
            parts == child_lines(t, depth as nat),
            i <= node.children@.len(),
            lines@.map_values(|l: String| l@) == seq![tree_line(t.name, depth as nat)] + parts.take(
                i as int,
            ).flatten(),
        decreases node.children@.len() - i,
    {
        proof {
            node.lemma_model_unfold();
            lemma_depth_fits_child(t, depth as nat, i as int);
            lemma_child_lines(t, depth as nat, i as int);
        }
        let mut sub = print_artifact_tree(&node.children[i], depth + 1);
        let ghost before = lines@.map_values(|l: String| l@);
        lines.append(&mut sub);
        proof {
            assert(parts.take(i + 1) == parts.take(i as int).push(parts[i as int]));
            parts.take(i as int).lemma_flatten_push(parts[i as int]);
            assert(lines@.map_values(|l: String| l@) == before + parts[i as int]);
        }
        i = i + 1;
    }
    assert(parts.take(i as int) == parts);
    lines
}


/// What is left of `key` once `prefix` is taken off its front.
pub open spec fn relative_key(prefix: Seq<char>, key: Seq<char>) -> Seq<char> {
    key.subrange(prefix.len() as int, key.len() as int)
}

/// The segments of `key` below `prefix`.
pub open spec fn relative_path(prefix: Seq<char>, key: Seq<char>) -> Seq<Seq<char>> {
    split_path(relative_key(prefix, key))
}

/// `t` with each of `paths` added in turn.
pub open spec fn insert_all(t: NodeModel, paths: Seq<Seq<Seq<char>>>) -> NodeModel
    decreases paths.len(),
{
    if paths.len() == 0 {
        t
    } else {
        insert_path(insert_all(t, paths.drop_last()), paths.last())
    }
}

/// The tree of `keys` listed under `prefix`: a root named after the prefix,
/// with the path of each key below it added in listing order.
pub open spec fn build_tree(prefix: Seq<char>, keys: Seq<Seq<char>>) -> NodeModel {
    insert_all(leaf(prefix), keys.map_values(|k: Seq<char>| relative_path(prefix, k)))
}

/// Whether every key begins with `prefix`.
pub open spec fn all_under(prefix: Seq<char>, keys: Seq<Seq<char>>) -> bool {
    forall|i: int| 0 <= i < keys.len() ==> has_prefix(#[trigger] keys[i], prefix)
}

/// Whether `key` is the first of `keys` that does not begin with `prefix`.
pub open spec fn first_outside(prefix: Seq<char>, keys: Seq<Seq<char>>, key: Seq<char>) -> bool {
    exists|j: int|
        0 <= j < keys.len() && #[trigger] keys[j] == key && !has_prefix(key, prefix)
            && all_under(prefix, keys.take(j))
}

/// Keys of the pages before `i`, then the first `j` keys of page `i`.
spec fn keys_up_to(pages: Seq<ListingPage>, i: int, j: int) -> Seq<Seq<char>> {
    listed_keys(pages.take(i)) + strings_view(pages[i].objects@).take(j)
}

proof fn lemma_keys_up_to_next_page(pages: Seq<ListingPage>, i: int)
    requires
        0 <= i < pages.len(),
    ensures
        keys_up_to(pages, i, pages[i].objects@.len() as int) == listed_keys(pages.take(i + 1)),
{
    assert(pages.take(i + 1).drop_last() == pages.take(i));
    assert(strings_view(pages[i].objects@).take(pages[i].objects@.len() as int) == strings_view(
        pages[i].objects@,
    ));
}

proof fn lemma_keys_up_to_next_key(pages: Seq<ListingPage>, i: int, j: int)
    requires
        0 <= i < pages.len(),
        0 <= j < pages[i].objects@.len(),
    ensures
        keys_up_to(pages, i, j + 1) == keys_up_to(pages, i, j).push(pages[i].objects@[j]@),
{
    assert(strings_view(pages[i].objects@).take(j + 1) == strings_view(pages[i].objects@).take(
        j,
    ).push(pages[i].objects@[j]@));
}

proof fn lemma_build_tree_push(prefix: Seq<char>, keys: Seq<Seq<char>>, k: Seq<char>)
    ensures
        build_tree(prefix, keys.push(k)) == insert_path(
            build_tree(prefix, keys),
            relative_path(prefix, k),
        ),
{
    let f = |x: Seq<char>| relative_path(prefix, x);
    assert(keys.push(k).map_values(f).drop_last() == keys.map_values(f));
}

proof fn lemma_all_under_push(prefix: Seq<char>, keys: Seq<Seq<char>>, k: Seq<char>)
    requires
        all_under(prefix, keys),
    ensures
        all_under(prefix, keys.push(k)) == has_prefix(k, prefix),
        !has_prefix(k, prefix) ==> first_outside(prefix, keys.push(k), k),
{
    assert(keys.push(k)[keys.len() as int] == k);
    assert(keys.push(k).take(keys.len() as int) == keys);
}

/// Once a key lies outside, no later key changes which one came first.
proof fn lemma_first_outside_extend(prefix: Seq<char>, keys: Seq<Seq<char>>, more: Seq<Seq<char>>, k: Seq<char>)
    requires
        first_outside(prefix, keys, k),
    ensures
        first_outside(prefix, keys + more, k),
        !all_under(prefix, keys + more),
{
    let j = choose|j: int|
        0 <= j < keys.len() && #[trigger] keys[j] == k && !has_prefix(k, prefix)
            && all_under(prefix, keys.take(j));
    assert((keys + more).take(j) == keys.take(j));
    assert((keys + more)[j] == k);
}

/// Builds the artifact tree of the objects in `pages`, all listed under
/// `prefix`: the root is named after `prefix`, and each key adds the path of
/// its segments below it.
pub fn convert_to_artifact_tree(prefix: &str, pages: &Vec<ListingPage>) -> (r: Result<
    ArtifactNode,
    ListingError,
>)
    ensures
        r is Ok <==> all_under(prefix@, listed_keys(pages@)),
        r matches Ok(t) ==> t.model() == build_tree(prefix@, listed_keys(pages@)),
        r matches Err(ListingError::KeyOutsidePrefix(k)) ==> first_outside(
            prefix@,
            listed_keys(pages@),
            k@,
        ),
{
    let mut root = ArtifactNode::new(prefix);
    let mut i: usize = 0;
    assert(listed_keys(pages@.take(0)) == Seq::<Seq<char>>::empty());
    assert(Seq::<Seq<char>>::empty().map_values(|k: Seq<char>| relative_path(prefix@, k)) =~= Seq::empty());
    while i < pages.len()
        invariant
            i <= pages@.len(),
            all_under(prefix@, listed_keys(pages@.take(i as int))),
            root.model() == build_tree(prefix@, listed_keys(pages@.take(i as int))),
        decreases pages@.len() - i,
    {
        let page = &pages[i];
        let mut j: usize = 0;
        assert(keys_up_to(pages@, i as int, 0) == listed_keys(pages@.take(i as int)));
        while j < page.objects.len()
            invariant
                i < pages@.len(),
                page == pages@[i as int],
                j <= page.objects@.len(),
                all_under(prefix@, keys_up_to(pages@, i as int, j as int)),
                root.model() == build_tree(prefix@, keys_up_to(pages@, i as int, j as int)),
            decreases page.objects@.len() - j,
        {
            let key = &page.objects[j];
            proof {
                lemma_keys_up_to_next_key(pages@, i as int, j as int);
                lemma_all_under_push(prefix@, keys_up_to(pages@, i as int, j as int), key@);
            }
            match strip_prefix(key.as_str(), prefix) {
                None => {
                    proof {
                        lemma_keys_up_to_next_page(pages@, i as int);
                        let done = keys_up_to(pages@, i as int, j as int + 1);
                        let all = listed_keys(pages@);
                        lemma_listed_keys_take(pages@, i as int + 1);
                        assert(keys_up_to(pages@, i as int, page.objects@.len() as int) == done
                            + strings_view(page.objects@).subrange(j as int + 1, page.objects@.len() as int));
                        let full = listed_keys(pages@.take(i as int + 1));
                        assert(done == full.subrange(0, done.len() as int));
                        assert(done == all.subrange(0, done.len() as int));
                        assert(done + all.subrange(done.len() as int, all.len() as int) =~= all);
                        lemma_first_outside_extend(prefix@, done, all.subrange(done.len() as int, all.len() as int), key@);
                    }
                    return Err(ListingError::KeyOutsidePrefix(key.clone()));
                },
                Some(rest) => {
                    let parts = split_path_segments(rest.as_str());
                    build_artifact_tree(&mut root, &parts, 0);
                    proof {
                        assert(segments_from(parts@, 0) == segments_of(parts@));
                        lemma_build_tree_push(prefix@, keys_up_to(pages@, i as int, j as int), key@);
                    }
                },
            }
            j = j + 1;
        }
        proof { lemma_keys_up_to_next_page(pages@, i as int); }
        i = i + 1;
    }
    assert(pages@.take(pages@.len() as int) == pages@);
    Ok(root)
}

/// The keys of a prefix of the pages come first among all keys.
proof fn lemma_listed_keys_take(pages: Seq<ListingPage>, n: int)
    requires
        0 <= n <= pages.len(),
    ensures
        listed_keys(pages.take(n)) == listed_keys(pages).subrange(0, listed_keys(pages.take(n)).len() as int),
        listed_keys(pages.take(n)).len() <= listed_keys(pages).len(),
    decreases pages.len() - n,
{
    if n < pages.len() {
        lemma_listed_keys_take(pages, n + 1);
        assert(pages.take(n + 1).drop_last() == pages.take(n));
    } else {
        assert(pages.take(n) == pages);
    }
}


/// Adding a path keeps every indentation countable, where the path is short.
proof fn lemma_insert_path_depth_fits(t: NodeModel, parts: Seq<Seq<char>>, depth: nat)
    requires
        depth_fits(t, depth),
        4 * (depth + parts.len()) <= u32::MAX,
    ensures
        depth_fits(insert_path(t, parts), depth),
    decreases parts.len(),
{
    if parts.len() > 0 {
        let r = insert_path(t, parts);
        let rest = parts.drop_first();
        let k = child_index(t.children, parts[0]);
        lemma_child_index_bounds(t.children, parts[0]);
        if k >= 0 {
            lemma_depth_fits_child(t, depth, k);
            lemma_insert_path_depth_fits(t.children[k], rest, depth + 1);
            assert forall|i: int| 0 <= i < r.children.len() implies depth_fits(
                #[trigger] r.children[i],
                depth + 1,
            ) by {
                if i != k {
                    lemma_depth_fits_child(t, depth, i);
                }
            }
        } else {
            assert(depth_fits(leaf(parts[0]), depth + 1));
            lemma_insert_path_depth_fits(leaf(parts[0]), rest, depth + 1);
            assert forall|i: int| 0 <= i < r.children.len() implies depth_fits(
                #[trigger] r.children[i],
                depth + 1,
            ) by {
                if i < t.children.len() {
                    lemma_depth_fits_child(t, depth, i);
                }
            }
        }
    }
}

/// A key of `n` characters has at most `n + 1` segments.
proof fn lemma_split_path_len(s: Seq<char>)
    ensures
        split_path(s).len() <= s.len() + 1,
    decreases s.len(),
{
    if s.len() > 0 {
        lemma_split_path_len(s.drop_last());
        crate::text::lemma_split_path_nonempty(s.drop_last());
    }
}

/// The longest key, in characters, whose tree can still be rendered.
pub const MAX_RENDERED_KEY_LEN: usize = 0x1000_0000;

/// The longest key, in characters, whose tree can still be rendered.
pub open spec fn max_rendered_key_len() -> nat {
    MAX_RENDERED_KEY_LEN as nat
}

/// Whether every key is short enough for its depth to be rendered.
pub open spec fn keys_fit(keys: Seq<Seq<char>>) -> bool {
    forall|i: int| 0 <= i < keys.len() ==> (#[trigger] keys[i]).len() <= max_rendered_key_len()
}

/// A tree of short keys can be rendered from depth zero.
proof fn lemma_build_tree_depth_fits(prefix: Seq<char>, keys: Seq<Seq<char>>)
    requires
        keys_fit(keys),
        all_under(prefix, keys),
    ensures
        depth_fits(build_tree(prefix, keys), 0),
    decreases keys.len(),
{
    if keys.len() == 0 {
        assert(keys.map_values(|k: Seq<char>| relative_path(prefix, k)) =~= Seq::empty());
    } else {
        let init = keys.drop_last();
        assert(keys == init.push(keys.last()));
        lemma_build_tree_depth_fits(prefix, init);
        lemma_build_tree_push(prefix, init, keys.last());
        let rel = relative_key(prefix, keys.last());
        lemma_split_path_len(rel);
        assert(keys.last().len() <= max_rendered_key_len());
        assert(has_prefix(keys[keys.len() - 1], prefix));
        assert(keys_fit(init) && all_under(prefix, init)) by {
            assert forall|i: int| 0 <= i < init.len() implies has_prefix(#[trigger] init[i], prefix)
                && init[i].len() <= max_rendered_key_len() by {
                assert(init[i] == keys[i]);
            }
        }
        lemma_insert_path_depth_fits(build_tree(prefix, init), relative_path(prefix, keys.last()), 0);
    }
}

/// The flat listing of the objects in `pages`: each key without the listed
/// `prefix`, in listing order.
pub fn print_flat_list(prefix: &str, pages: &Vec<ListingPage>) -> (r: Result<Vec<String>, ListingError>)
    ensures
        r is Ok <==> all_under(prefix@, listed_keys(pages@)),
        r matches Ok(lines) ==> strings_view(lines@) == listed_keys(pages@).map_values(
            |k: Seq<char>| relative_key(prefix@, k),
        ),
        r matches Err(ListingError::KeyOutsidePrefix(k)) ==> first_outside(
            prefix@,
            listed_keys(pages@),
            k@,
        ),
{
    let ghost f = |k: Seq<char>| relative_key(prefix@, k);
    let mut lines: Vec<String> = Vec::new();
    let mut i: usize = 0;
    assert(listed_keys(pages@.take(0)) == Seq::<Seq<char>>::empty());
    while i < pages.len()
        invariant
            i <= pages@.len(),
            f == (|k: Seq<char>| relative_key(prefix@, k)),
            all_under(prefix@, listed_keys(pages@.take(i as int))),
            strings_view(lines@) == listed_keys(pages@.take(i as int)).map_values(f),
        decreases pages@.len() - i,
    {
        let page = &pages[i];
        let mut j: usize = 0;
        assert(keys_up_to(pages@, i as int, 0) == listed_keys(pages@.take(i as int)));
        while j < page.objects.len()
            invariant
                i < pages@.len(),
                page == pages@[i as int],
                j <= page.objects@.len(),
                f == (|k: Seq<char>| relative_key(prefix@, k)),
                all_under(prefix@, keys_up_to(pages@, i as int, j as int)),
                strings_view(lines@) == keys_up_to(pages@, i as int, j as int).map_values(f),
            decreases page.objects@.len() - j,
        {
            let key = &page.objects[j];
            proof {
                lemma_keys_up_to_next_key(pages@, i as int, j as int);
                lemma_all_under_push(prefix@, keys_up_to(pages@, i as int, j as int), key@);
            }
            match strip_prefix(key.as_str(), prefix) {
                None => {
                    proof {
                        lemma_keys_up_to_next_page(pages@, i as int);
                        let done = keys_up_to(pages@, i as int, j as int + 1);
                        let all = listed_keys(pages@);
                        lemma_listed_keys_take(pages@, i as int + 1);
                        assert(keys_up_to(pages@, i as int, page.objects@.len() as int) == done
                            + strings_view(page.objects@).subrange(j as int + 1, page.objects@.len() as int));
                        let full = listed_keys(pages@.take(i as int + 1));
                        assert(done == full.subrange(0, done.len() as int));
                        assert(done == all.subrange(0, done.len() as int));
                        assert(done + all.subrange(done.len() as int, all.len() as int) =~= all);
                        lemma_first_outside_extend(prefix@, done, all.subrange(done.len() as int, all.len() as int), key@);
                    }
                    return Err(ListingError::KeyOutsidePrefix(key.clone()));
                },
                Some(rest) => {
                    let ghost before = keys_up_to(pages@, i as int, j as int);
                    lines.push(rest);
                    proof {
                        assert(before.push(key@).map_values(f) == before.map_values(f).push(f(key@)));
                        assert(strings_view(lines@) == strings_view(lines@.drop_last()).push(rest@));
                    }
                },
            }
            j = j + 1;
        }
        proof { lemma_keys_up_to_next_page(pages@, i as int); }
        i = i + 1;
    }
    assert(pages@.take(pages@.len() as int) == pages@);
    Ok(lines)
}

/// Whether every key in `pages` is short enough for its tree to be rendered.
pub fn keys_short_enough(pages: &Vec<ListingPage>) -> (r: bool)
    ensures
        r == keys_fit(listed_keys(pages@)),
{
    let mut i: usize = 0;
    assert(listed_keys(pages@.take(0)) == Seq::<Seq<char>>::empty());
    while i < pages.len()
        invariant
            i <= pages@.len(),
            keys_fit(listed_keys(pages@.take(i as int))),
        decreases pages@.len() - i,
    {
        let page = &pages[i];
        let mut j: usize = 0;
        assert(keys_up_to(pages@, i as int, 0) == listed_keys(pages@.take(i as int)));
        while j < page.objects.len()
            invariant
                i < pages@.len(),
                page == pages@[i as int],
                j <= page.objects@.len(),
                keys_fit(keys_up_to(pages@, i as int, j as int)),
            decreases page.objects@.len() - j,
        {
            proof { lemma_keys_up_to_next_key(pages@, i as int, j as int); }
            let ghost done = keys_up_to(pages@, i as int, j as int + 1);
            if page.objects[j].as_str().unicode_len() > MAX_RENDERED_KEY_LEN {
                proof {
                    lemma_keys_up_to_next_page(pages@, i as int);
                    lemma_listed_keys_take(pages@, i as int + 1);
                    let all = listed_keys(pages@);
                    let full = listed_keys(pages@.take(i as int + 1));
                    assert(keys_up_to(pages@, i as int, page.objects@.len() as int) == done
                        + strings_view(page.objects@).subrange(j as int + 1, page.objects@.len() as int));
                    assert(done[done.len() - 1] == full[done.len() - 1]);
                    assert(full[done.len() - 1] == all[done.len() - 1]);
                }
                return false;
            }
            j = j + 1;
        }
        proof { lemma_keys_up_to_next_page(pages@, i as int); }
        i = i + 1;
    }
    assert(pages@.take(i as int) == pages@);
    true
}

/// The tree listing of the objects in `pages`: the lines of the artifact
/// tree built from them, the root named after `prefix`.
pub fn print_tree_list(prefix: &str, pages: &Vec<ListingPage>) -> (r: Result<Vec<String>, ListingError>)
    requires
        keys_fit(listed_keys(pages@)),
    ensures
        r is Ok <==> all_under(prefix@, listed_keys(pages@)),
        r matches Ok(lines) ==> strings_view(lines@) == render(build_tree(prefix@, listed_keys(pages@)), 0),
        r matches Err(ListingError::KeyOutsidePrefix(k)) ==> first_outside(
            prefix@,
            listed_keys(pages@),
            k@,
        ),
{
    let root = convert_to_artifact_tree(prefix, pages)?;
    proof { lemma_build_tree_depth_fits(prefix@, listed_keys(pages@)); }
    let lines = print_artifact_tree(&root, 0);
    Ok(lines)
}

} // verus!
