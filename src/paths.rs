//! Paths through an artifact tree, and what the tree of a set of keys holds.

use vstd::prelude::*;
use crate::text::{has_prefix, is_delimiter, split_path};
use vstd::relations::injective_on;
use crate::tree::{
    all_under, build_tree, child_index, insert_all, insert_path, leaf, lemma_child_index_bounds,
    lemma_insert_path_name, relative_key, relative_path, NodeModel,
};

verus! {

/// Whether following the names in `p` from `t` reaches a node.
pub open spec fn is_node_path(t: NodeModel, p: Seq<Seq<char>>) -> bool
    decreases p.len(),
{
    if p.len() == 0 {
        true
    } else {
        exists|i: int|
            0 <= i < t.children.len() && (#[trigger] t.children[i]).name == p[0] && is_node_path(
                t.children[i],
                p.drop_first(),
            )
    }
}

/// Whether following the names in `p` from `t` reaches a node without
/// children: an entry that a listing of the tree shows as a file.
pub open spec fn is_leaf_path(t: NodeModel, p: Seq<Seq<char>>) -> bool
    decreases p.len(),
{
    if p.len() == 0 {
        t.children.len() == 0
    } else {
        exists|i: int|
            0 <= i < t.children.len() && (#[trigger] t.children[i]).name == p[0] && is_leaf_path(
                t.children[i],
                p.drop_first(),
            )
    }
}

/// Whether `p` is where `q` starts.
pub open spec fn is_path_prefix(p: Seq<Seq<char>>, q: Seq<Seq<char>>) -> bool {
    p.len() <= q.len() && q.subrange(0, p.len() as int) == p
}

/// Whether `p` is where `q` starts, and shorter.
pub open spec fn is_strict_path_prefix(p: Seq<Seq<char>>, q: Seq<Seq<char>>) -> bool {
    p.len() < q.len() && q.subrange(0, p.len() as int) == p
}

/// Whether no two children of a node share a name, at every node.
pub open spec fn names_unique(t: NodeModel) -> bool
    decreases t,
{
    &&& forall|i: int, j: int|
        0 <= i < t.children.len() && 0 <= j < t.children.len() && i != j ==> (
        #[trigger] t.children[i]).name != (#[trigger] t.children[j]).name
    &&& forall|i: int| 0 <= i < t.children.len() ==> names_unique(#[trigger] t.children[i])
}

/// No child bears a name that `child_index` does not find.
proof fn lemma_child_index_none(cs: Seq<NodeModel>, name: Seq<char>)
    requires
        child_index(cs, name) < 0,
    ensures
        forall|i: int| 0 <= i < cs.len() ==> (#[trigger] cs[i]).name != name,
    decreases cs.len(),
{
    if cs.len() > 0 {
        lemma_child_index_none(cs.drop_last(), name);
        assert forall|i: int| 0 <= i < cs.len() implies (#[trigger] cs[i]).name != name by {
            if i < cs.len() - 1 {
                assert(cs[i] == cs.drop_last()[i]);
            }
        }
    }
}

/// A leaf reaches only itself.
proof fn lemma_leaf_node_paths(name: Seq<char>, p: Seq<Seq<char>>)
    ensures
        is_node_path(leaf(name), p) <==> p.len() == 0,
{
}

/// After adding `q`, the nodes reached are those reached before, and those
/// on the way to `q`.
pub proof fn lemma_insert_node_paths(t: NodeModel, q: Seq<Seq<char>>, p: Seq<Seq<char>>)
    ensures
        is_node_path(insert_path(t, q), p) <==> is_node_path(t, p) || is_path_prefix(p, q),
    decreases q.len(), 1nat,
{
    let r = insert_path(t, q);
    if q.len() == 0 {
        if p.len() > 0 {
            assert(!is_path_prefix(p, q));
        } else {
            assert(p =~= q.subrange(0, 0));
        }
    } else if p.len() == 0 {
        assert(is_path_prefix(p, q)) by {
            assert(q.subrange(0, 0) =~= p);
        }
    } else {
        let rest = q.drop_first();
        let k = child_index(t.children, q[0]);
        lemma_child_index_bounds(t.children, q[0]);
        lemma_insert_node_paths_step(t, q, p);
        let pr = p.drop_first();
        assert(is_path_prefix(p, q) <==> (p[0] == q[0] && is_path_prefix(pr, rest))) by {
            if is_path_prefix(p, q) {
                assert(q.subrange(0, p.len() as int)[0] == p[0]);
                assert(rest.subrange(0, pr.len() as int) =~= pr) by {
                    assert forall|j: int| 0 <= j < pr.len() implies rest.subrange(0, pr.len() as int)[j] == pr[j] by {
                        assert(q.subrange(0, p.len() as int)[j + 1] == p[j + 1]);
                    }
                }
            }
            if p[0] == q[0] && is_path_prefix(pr, rest) {
                assert(q.subrange(0, p.len() as int) =~= p) by {
                    assert forall|j: int| 0 <= j < p.len() implies q.subrange(0, p.len() as int)[j] == p[j] by {
                        if j > 0 {
                            assert(rest.subrange(0, pr.len() as int)[j - 1] == pr[j - 1]);
                        }
                    }
                }
            }
        }
    }
}

/// The step of `lemma_insert_node_paths` for non-empty `q` and `p`.
proof fn lemma_insert_node_paths_step(t: NodeModel, q: Seq<Seq<char>>, p: Seq<Seq<char>>)
    requires
        q.len() > 0,
        p.len() > 0,
    ensures
        is_node_path(insert_path(t, q), p) <==> is_node_path(t, p) || (p[0] == q[0]
            && is_path_prefix(p.drop_first(), q.drop_first())),
    decreases q.len(), 0nat,
{
    let r = insert_path(t, q);
    let rest = q.drop_first();
    let pr = p.drop_first();
    let k = child_index(t.children, q[0]);
    lemma_child_index_bounds(t.children, q[0]);
    if k >= 0 {
        let c = insert_path(t.children[k], rest);
        lemma_insert_path_name(t.children[k], rest);
        lemma_insert_node_paths(t.children[k], rest, pr);
        assert(r.children == t.children.update(k, c));
        if is_node_path(r, p) {
            let i = choose|i: int|
                0 <= i < r.children.len() && (#[trigger] r.children[i]).name == p[0]
                    && is_node_path(r.children[i], pr);
            if i != k {
                assert(r.children[i] == t.children[i]);
            }
        }
        if is_node_path(t, p) {
            let i = choose|i: int|
                0 <= i < t.children.len() && (#[trigger] t.children[i]).name == p[0]
                    && is_node_path(t.children[i], pr);
            if i != k {
                assert(r.children[i] == t.children[i]);
            }
            assert(r.children[i].name == p[0]);
        }
        if p[0] == q[0] && is_path_prefix(pr, rest) {
            assert(r.children[k].name == p[0]);
        }
    } else {
        let c = insert_path(leaf(q[0]), rest);
        lemma_insert_path_name(leaf(q[0]), rest);
        lemma_insert_node_paths(leaf(q[0]), rest, pr);
        lemma_leaf_node_paths(q[0], pr);
        assert(r.children == t.children.push(c));
        let n = t.children.len() as int;
        if is_node_path(r, p) {
            let i = choose|i: int|
                0 <= i < r.children.len() && (#[trigger] r.children[i]).name == p[0]
                    && is_node_path(r.children[i], pr);
            if i < n {
                assert(r.children[i] == t.children[i]);
            } else {
                if pr.len() == 0 {
                    assert(is_path_prefix(pr, rest)) by {
                        assert(rest.subrange(0, 0) =~= pr);
                    }
                }
            }
        }
        if is_node_path(t, p) {
            let i = choose|i: int|
                0 <= i < t.children.len() && (#[trigger] t.children[i]).name == p[0]
                    && is_node_path(t.children[i], pr);
            assert(r.children[i] == t.children[i]);
        }
        if p[0] == q[0] && is_path_prefix(pr, rest) {
            assert(r.children[n].name == p[0]);
        }
    }
}


/// Adding a path keeps the children's names apart.
pub proof fn lemma_insert_names_unique(t: NodeModel, q: Seq<Seq<char>>)
    requires
        names_unique(t),
    ensures
        names_unique(insert_path(t, q)),
    decreases q.len(),
{
    if q.len() > 0 {
        let r = insert_path(t, q);
        let rest = q.drop_first();
        let k = child_index(t.children, q[0]);
        lemma_child_index_bounds(t.children, q[0]);
        if k >= 0 {
            let c = insert_path(t.children[k], rest);
            lemma_insert_path_name(t.children[k], rest);
            assert(names_unique(t.children[k]));
            lemma_insert_names_unique(t.children[k], rest);
            assert(r.children == t.children.update(k, c));
            assert forall|i: int| 0 <= i < r.children.len() implies (#[trigger] r.children[i]).name
                == t.children[i].name && names_unique(r.children[i]) by {
                if i != k {
                    assert(names_unique(t.children[i]));
                }
            }
            assert forall|i: int, j: int|
                0 <= i < r.children.len() && 0 <= j < r.children.len() && i != j implies (
                #[trigger] r.children[i]).name != (#[trigger] r.children[j]).name by {
                assert(t.children[i].name != t.children[j].name);
            }
        } else {
            let c = insert_path(leaf(q[0]), rest);
            lemma_insert_path_name(leaf(q[0]), rest);
            assert(names_unique(leaf(q[0])));
            lemma_insert_names_unique(leaf(q[0]), rest);
            lemma_child_index_none(t.children, q[0]);
            assert(r.children == t.children.push(c));
            let n = t.children.len() as int;
            assert forall|i: int| 0 <= i < r.children.len() implies names_unique(
                #[trigger] r.children[i],
            ) by {
                if i < n {
                    assert(r.children[i] == t.children[i]);
                    assert(names_unique(t.children[i]));
                }
            }
            assert forall|i: int, j: int|
                0 <= i < r.children.len() && 0 <= j < r.children.len() && i != j implies (
                #[trigger] r.children[i]).name != (#[trigger] r.children[j]).name by {
                if i < n && j < n {
                    assert(r.children[i] == t.children[i]);
                    assert(r.children[j] == t.children[j]);
                    assert(t.children[i].name != t.children[j].name);
                } else if i < n {
                    assert(r.children[i] == t.children[i]);
                    assert(t.children[i].name != q[0]);
                } else {
                    assert(r.children[j] == t.children[j]);
                    assert(t.children[j].name != q[0]);
                }
            }
        }
    }
}

/// With names kept apart, a path leads to a leaf exactly when it leads to a
/// node and no longer path does.
pub proof fn lemma_leaf_iff_no_extension(t: NodeModel, p: Seq<Seq<char>>)
    requires
        names_unique(t),
    ensures
        is_leaf_path(t, p) <==> is_node_path(t, p) && forall|x: Seq<char>|
            !is_node_path(t, #[trigger] p.push(x)),
    decreases p.len(),
{
    if p.len() == 0 {
        if t.children.len() > 0 {
            let x = t.children[0].name;
            assert(p.push(x).drop_first() =~= Seq::<Seq<char>>::empty());
            assert(is_node_path(t.children[0], p.push(x).drop_first()));
            assert(is_node_path(t, p.push(x)));
        } else {
            assert forall|x: Seq<char>| !is_node_path(t, #[trigger] p.push(x)) by {}
        }
    } else {
        let pr = p.drop_first();
        assert forall|x: Seq<char>| #[trigger] p.push(x).drop_first() == pr.push(x) && p.push(x)[0]
            == p[0] by {
            assert(p.push(x).drop_first() =~= pr.push(x));
        }
        if is_leaf_path(t, p) {
            let i = choose|i: int|
                0 <= i < t.children.len() && (#[trigger] t.children[i]).name == p[0]
                    && is_leaf_path(t.children[i], pr);
            assert(names_unique(t.children[i]));
            lemma_leaf_iff_no_extension(t.children[i], pr);
            assert(is_node_path(t, p));
            assert forall|x: Seq<char>| !is_node_path(t, #[trigger] p.push(x)) by {
                if is_node_path(t, p.push(x)) {
                    let j = choose|j: int|
                        0 <= j < t.children.len() && (#[trigger] t.children[j]).name == p[0]
                            && is_node_path(t.children[j], pr.push(x));
                    if j != i {
                        assert(t.children[i].name != t.children[j].name);
                    }
                    assert(!is_node_path(t.children[i], pr.push(x)));
                }
            }
        }
        if is_node_path(t, p) && forall|x: Seq<char>| !is_node_path(t, #[trigger] p.push(x)) {
            let j = choose|j: int|
                0 <= j < t.children.len() && (#[trigger] t.children[j]).name == p[0]
                    && is_node_path(t.children[j], pr);
            assert(names_unique(t.children[j]));
            lemma_leaf_iff_no_extension(t.children[j], pr);
            assert forall|x: Seq<char>| !is_node_path(t.children[j], #[trigger] pr.push(x)) by {
                if is_node_path(t.children[j], pr.push(x)) {
                    assert(is_node_path(t, p.push(x)));
                }
            }
            assert(is_leaf_path(t.children[j], pr));
        }
    }
}


/// The nodes of a tree built from `paths` are those on the way to one of them.
proof fn lemma_insert_all_node_paths(name: Seq<char>, paths: Seq<Seq<Seq<char>>>, p: Seq<Seq<char>>)
    ensures
        is_node_path(insert_all(leaf(name), paths), p) <==> p.len() == 0 || exists|k: int|
            0 <= k < paths.len() && is_path_prefix(p, #[trigger] paths[k]),
    decreases paths.len(),
{
    if paths.len() == 0 {
        lemma_leaf_node_paths(name, p);
    } else {
        let init = paths.drop_last();
        lemma_insert_all_node_paths(name, init, p);
        lemma_insert_node_paths(insert_all(leaf(name), init), paths.last(), p);
        if exists|k: int| 0 <= k < paths.len() && is_path_prefix(p, #[trigger] paths[k]) {
            let k = choose|k: int| 0 <= k < paths.len() && is_path_prefix(p, #[trigger] paths[k]);
            if k < paths.len() - 1 {
                assert(init[k] == paths[k]);
            }
        }
        if exists|k: int| 0 <= k < init.len() && is_path_prefix(p, #[trigger] init[k]) {
            let k = choose|k: int| 0 <= k < init.len() && is_path_prefix(p, #[trigger] init[k]);
            assert(init[k] == paths[k]);
        }
    }
}

/// A tree built from paths keeps the children's names apart.
proof fn lemma_insert_all_names_unique(name: Seq<char>, paths: Seq<Seq<Seq<char>>>)
    ensures
        names_unique(insert_all(leaf(name), paths)),
    decreases paths.len(),
{
    if paths.len() == 0 {
        assert(names_unique(leaf(name)));
    } else {
        lemma_insert_all_names_unique(name, paths.drop_last());
        lemma_insert_names_unique(insert_all(leaf(name), paths.drop_last()), paths.last());
    }
}

/// The segments joined again by the delimiter.
pub open spec fn join_path(segs: Seq<Seq<char>>) -> Seq<char>
    decreases segs.len(),
{
    if segs.len() <= 1 {
        if segs.len() == 0 {
            Seq::empty()
        } else {
            segs[0]
        }
    } else {
        join_path(segs.drop_last()) + seq!['/'] + segs.last()
    }
}

/// Joining the segments of a string gives the string back.
proof fn lemma_join_split(s: Seq<char>)
    ensures
        join_path(split_path(s)) == s,
    decreases s.len(),
{
    if s.len() > 0 {
        let init = s.drop_last();
        let segs = split_path(init);
        lemma_join_split(init);
        crate::text::lemma_split_path_nonempty(init);
        if is_delimiter(s.last()) {
            assert(split_path(s).drop_last() == segs);
            assert(s == init + seq!['/'] + Seq::<char>::empty());
        } else {
            let r = split_path(s);
            if segs.len() == 1 {
                assert(r[0] == init.push(s.last()));
            } else {
                assert(r.drop_last() == segs.drop_last());
                assert(join_path(segs) == join_path(segs.drop_last()) + seq!['/'] + segs.last());
                assert(join_path(r) == join_path(segs.drop_last()) + seq!['/'] + segs.last().push(s.last()));
            }
            assert(s == init.push(s.last()));
        }
    }
}

/// Keys below one prefix have the same segments only when they are equal.
proof fn lemma_relative_path_injective(prefix: Seq<char>, a: Seq<char>, b: Seq<char>)
    requires
        has_prefix(a, prefix),
        has_prefix(b, prefix),
        relative_path(prefix, a) == relative_path(prefix, b),
    ensures
        a == b,
{
    lemma_join_split(relative_key(prefix, a));
    lemma_join_split(relative_key(prefix, b));
    assert(a == prefix + relative_key(prefix, a));
    assert(b == prefix + relative_key(prefix, b));
}

/// The entries that a tree listing shows as files: the paths, below the
/// root, of the nodes without children.
pub open spec fn leaf_entries(t: NodeModel) -> Set<Seq<Seq<char>>> {
    Set::new(|p: Seq<Seq<char>>| p.len() > 0 && is_leaf_path(t, p))
}

/// The segments of each key below `prefix`: what the flat listing shows,
/// split at its delimiters.
pub open spec fn flat_entries(prefix: Seq<char>, keys: Seq<Seq<char>>) -> Seq<Seq<Seq<char>>> {
    keys.map_values(|k: Seq<char>| relative_path(prefix, k))
}

/// Whether no key's path below `prefix` is where another, longer one starts.
pub open spec fn no_key_above_another(prefix: Seq<char>, keys: Seq<Seq<char>>) -> bool {
    forall|i: int, j: int|
        0 <= i < keys.len() && 0 <= j < keys.len() ==> !is_strict_path_prefix(
            #[trigger] relative_path(prefix, keys[i]),
            #[trigger] relative_path(prefix, keys[j]),
        )
}

/// For keys listed under one prefix, the tree listing and the flat listing
/// show the same entries: the files of the tree are exactly the keys' paths
/// below the prefix, and there are as many of them as distinct keys. This
/// holds where no key's path is where another key's path starts, since such
/// a key becomes a directory of the tree.
pub proof fn lemma_tree_and_flat_listings_agree(prefix: Seq<char>, keys: Seq<Seq<char>>)
    requires
        all_under(prefix, keys),
        no_key_above_another(prefix, keys),
    ensures
        leaf_entries(build_tree(prefix, keys)) == flat_entries(prefix, keys).to_set(),
        leaf_entries(build_tree(prefix, keys)).len() == keys.to_set().len(),
{
    let t = build_tree(prefix, keys);
    let paths = flat_entries(prefix, keys);
    lemma_insert_all_names_unique(prefix, paths);
    assert forall|p: Seq<Seq<char>>| #[trigger] leaf_entries(t).contains(p) <==> paths.to_set().contains(p) by {
        lemma_leaf_iff_no_extension(t, p);
        lemma_insert_all_node_paths(prefix, paths, p);
        if paths.contains(p) {
            let k = choose|k: int| 0 <= k < paths.len() && paths[k] == p;
            crate::text::lemma_split_path_nonempty(relative_key(prefix, keys[k]));
            assert(is_path_prefix(p, paths[k])) by {
                assert(paths[k].subrange(0, p.len() as int) =~= p);
            }
            assert forall|x: Seq<char>| !is_node_path(t, #[trigger] p.push(x)) by {
                lemma_insert_all_node_paths(prefix, paths, p.push(x));
                if exists|j: int| 0 <= j < paths.len() && is_path_prefix(p.push(x), #[trigger] paths[j]) {
                    let j = choose|j: int| 0 <= j < paths.len() && is_path_prefix(p.push(x), #[trigger] paths[j]);
                    assert(paths[j].subrange(0, p.len() as int) =~= p) by {
                        assert forall|m: int| 0 <= m < p.len() implies paths[j].subrange(0, p.len() as int)[m] == p[m] by {
                            assert(paths[j].subrange(0, p.push(x).len() as int)[m] == p.push(x)[m]);
                        }
                    }
                    assert(is_strict_path_prefix(relative_path(prefix, keys[k]), relative_path(prefix, keys[j])));
                }
            }
        }
        if leaf_entries(t).contains(p) {
            let k = choose|k: int| 0 <= k < paths.len() && is_path_prefix(p, #[trigger] paths[k]);
            if p.len() < paths[k].len() {
                let x = paths[k][p.len() as int];
                assert(is_path_prefix(p.push(x), paths[k])) by {
                    assert(paths[k].subrange(0, p.push(x).len() as int) =~= p.push(x)) by {
                        assert forall|m: int| 0 <= m < p.push(x).len() implies paths[k].subrange(0, p.push(x).len() as int)[m] == p.push(x)[m] by {
                            if m < p.len() {
                                assert(paths[k].subrange(0, p.len() as int)[m] == p[m]);
                            }
                        }
                    }
                }
                lemma_insert_all_node_paths(prefix, paths, p.push(x));
            }
            assert(paths[k] =~= p);
            assert(paths.contains(p));
        }
    }
    assert(leaf_entries(t) =~= paths.to_set());
    let f = |k: Seq<char>| relative_path(prefix, k);
    keys.lemma_to_set_map_commutes(f);
    assert(injective_on(f, keys.to_set())) by {
        assert forall|a: Seq<char>, b: Seq<char>|
            keys.to_set().contains(a) && keys.to_set().contains(b) && #[trigger] f(a) == #[trigger] f(b) implies a == b by {
            let i = choose|i: int| 0 <= i < keys.len() && keys[i] == a;
            let j = choose|j: int| 0 <= j < keys.len() && keys[j] == b;
            lemma_relative_path_injective(prefix, a, b);
        }
    }
    vstd::seq_lib::seq_to_set_is_finite(keys);
    vstd::set_lib::lemma_map_size(keys.to_set(), paths.to_set(), f);
}

} // verus!
