use brows3r::listing::{ListingError, ListingPage};
use brows3r::tree::{
    build_artifact_tree, convert_to_artifact_tree, keys_short_enough, print_artifact_tree,
    print_flat_list, print_tree_list, ArtifactNode,
};

fn page(prefix: Option<&str>, objects: &[&str], subs: &[&str]) -> ListingPage {
    ListingPage {
        prefix: prefix.map(|p| p.to_string()),
        objects: objects.iter().map(|s| s.to_string()).collect(),
        sub_prefixes: subs.iter().map(|s| s.to_string()).collect(),
    }
}

#[test]
fn new_node_renders_its_name() {
    let n = ArtifactNode::new("root/");
    assert_eq!(print_artifact_tree(&n, 0), vec!["root/".to_string()]);
}

#[test]
fn nested_lines_are_indented_by_depth() {
    let mut root = ArtifactNode::new("p/");
    build_artifact_tree(&mut root, &vec!["a", "b.txt"], 0);
    let lines = print_artifact_tree(&root, 0);
    assert_eq!(
        lines,
        vec![
            "p/".to_string(),
            "    └── a".to_string(),
            "        └── b.txt".to_string(),
        ]
    );
}

#[test]
fn build_from_depth_skips_leading_parts() {
    let mut root = ArtifactNode::new("r");
    build_artifact_tree(&mut root, &vec!["skip", "x"], 1);
    assert_eq!(print_artifact_tree(&root, 0), vec!["r".to_string(), "    └── x".to_string()]);
    build_artifact_tree(&mut root, &vec!["x"], 5);
    assert_eq!(print_artifact_tree(&root, 0).len(), 2);
}

#[test]
fn inserting_a_key_twice_changes_nothing() {
    let mut once = ArtifactNode::new("p/");
    build_artifact_tree(&mut once, &vec!["a", "b", "c.txt"], 0);
    let mut twice = ArtifactNode::new("p/");
    build_artifact_tree(&mut twice, &vec!["a", "b", "c.txt"], 0);
    build_artifact_tree(&mut twice, &vec!["a", "b", "c.txt"], 0);
    assert_eq!(print_artifact_tree(&once, 0), print_artifact_tree(&twice, 0));
}

#[test]
fn children_keep_first_seen_order() {
    let pages = vec![page(
        Some("p/"),
        &["p/z/1", "p/a/2", "p/z/3"],
        &[],
    )];
    let lines = print_tree_list("p/", &pages).unwrap();
    assert_eq!(
        lines,
        vec![
            "p/".to_string(),
            "    └── z".to_string(),
            "        └── 1".to_string(),
            "        └── 3".to_string(),
            "    └── a".to_string(),
            "        └── 2".to_string(),
        ]
    );
}

#[test]
fn flat_list_strips_the_prefix_in_order() {
    let pages = vec![
        page(Some("p/a/"), &["p/a/x.bin"], &[]),
        page(Some("p/"), &["p/top.txt"], &["p/a/"]),
    ];
    assert_eq!(
        print_flat_list("p/", &pages).unwrap(),
        vec!["a/x.bin".to_string(), "top.txt".to_string()]
    );
}

#[test]
fn flat_and_tree_listings_name_the_same_keys() {
    let pages = vec![
        page(Some("p/a/b/"), &["p/a/b/c.txt"], &[]),
        page(Some("p/a/"), &["p/a/d.txt"], &["p/a/b/"]),
        page(Some("p/"), &[], &["p/a/"]),
    ];
    let flat = print_flat_list("p/", &pages).unwrap();
    let root = convert_to_artifact_tree("p/", &pages).unwrap();
    let tree = print_artifact_tree(&root, 0);
    // Leaves of the tree, rebuilt as paths from their indentation.
    let mut stack: Vec<String> = Vec::new();
    let mut leaves: Vec<String> = Vec::new();
    for (i, line) in tree.iter().enumerate().skip(1) {
        let depth = line.chars().take_while(|c| *c == ' ').count() / 4;
        let name = line.trim_start().trim_start_matches("└── ").to_string();
        stack.truncate(depth - 1);
        stack.push(name);
        let next_depth = tree
            .get(i + 1)
            .map(|l| l.chars().take_while(|c| *c == ' ').count() / 4)
            .unwrap_or(0);
        if next_depth <= depth {
            leaves.push(stack.join("/"));
        }
    }
    let mut flat_sorted = flat.clone();
    flat_sorted.sort();
    leaves.sort();
    assert_eq!(flat_sorted, leaves);
    assert_eq!(leaves.len(), 2);
}

#[test]
fn key_outside_prefix_is_reported() {
    let pages = vec![page(Some("p/"), &["p/ok", "q/bad", "r/also"], &[])];
    assert_eq!(
        convert_to_artifact_tree("p/", &pages).unwrap_err(),
        ListingError::KeyOutsidePrefix("q/bad".to_string())
    );
    assert_eq!(
        print_flat_list("p/", &pages).unwrap_err(),
        ListingError::KeyOutsidePrefix("q/bad".to_string())
    );
    assert_eq!(
        print_tree_list("p/", &pages).unwrap_err(),
        ListingError::KeyOutsidePrefix("q/bad".to_string())
    );
}

#[test]
fn empty_listing_gives_only_the_root() {
    let pages: Vec<ListingPage> = vec![];
    assert_eq!(print_tree_list("p/", &pages).unwrap(), vec!["p/".to_string()]);
    assert!(print_flat_list("p/", &pages).unwrap().is_empty());
}

#[test]
fn folder_marker_key_gives_an_empty_leaf() {
    let pages = vec![page(Some("p/"), &["p/a/"], &[])];
    assert_eq!(
        print_tree_list("p/", &pages).unwrap(),
        vec!["p/".to_string(), "    └── a".to_string(), "        └── ".to_string()]
    );
}

#[test]
fn ordinary_keys_are_short_enough() {
    let pages = vec![page(Some("p/"), &["p/a/b/c.txt"], &[])];
    assert!(keys_short_enough(&pages));
    assert!(keys_short_enough(&vec![]));
}
