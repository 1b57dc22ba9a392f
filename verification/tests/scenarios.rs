use tree_paths::paths::{compute_path_from_tree, compute_path_from_tree_iterative};
use tree_paths::record::{build_tree_from_lines, parse_record, Record};
use tree_paths::tree::{Node, Tree, TreeError, ROOT_ID};

fn lines(text: &[&str]) -> Vec<String> {
    text.iter().map(|l| l.to_string()).collect()
}

fn child_ids(tree: &Tree, parent: i64) -> Vec<i64> {
    match tree.get(parent) {
        Some(children) => children.iter().map(|n| n.id).collect(),
        None => Vec::new(),
    }
}

fn sorted(mut paths: Vec<String>) -> Vec<String> {
    paths.sort();
    paths
}

fn sample() -> Tree {
    build_tree_from_lines(&lines(&["1,a,0", "2,b,1", "3,c,1", "4,d,2"])).unwrap()
}

#[test]
fn four_records_give_three_families() {
    let tree = sample();
    assert_eq!(child_ids(&tree, 0), vec![1]);
    assert_eq!(child_ids(&tree, 1), vec![2, 3]);
    assert_eq!(child_ids(&tree, 2), vec![4]);
    assert!(tree.get(3).is_none());
    assert!(tree.get(4).is_none());
    assert!(!tree.is_empty());
}

#[test]
fn four_records_give_two_leaf_paths() {
    let tree = sample();
    assert!(tree.is_acyclic());
    let recursive = compute_path_from_tree(&tree, 0, String::new());
    assert_eq!(sorted(recursive), vec!["/a/b/d".to_string(), "/a/c".to_string()]);
    let iterative = compute_path_from_tree_iterative(&tree).unwrap();
    assert_eq!(sorted(iterative), vec!["/a/b/d".to_string(), "/a/c".to_string()]);
}

#[test]
fn both_variants_list_in_insertion_order() {
    let tree = sample();
    let expected = vec!["/a/b/d".to_string(), "/a/c".to_string()];
    assert_eq!(compute_path_from_tree(&tree, 0, String::new()), expected);
    assert_eq!(compute_path_from_tree_iterative(&tree), Ok(expected));
}

#[test]
fn empty_input_gives_empty_tree() {
    let tree = build_tree_from_lines(&Vec::new()).unwrap();
    assert!(tree.is_empty());
    assert!(tree.get(ROOT_ID).is_none());
    assert!(tree.is_acyclic());
    assert!(compute_path_from_tree(&tree, 0, String::new()).is_empty());
    assert_eq!(compute_path_from_tree_iterative(&tree), Err(TreeError::RootNotFound));
}

#[test]
fn new_tree_is_empty() {
    let tree = Tree::new();
    assert!(tree.is_empty());
    assert!(tree.get(0).is_none());
}

#[test]
fn duplicate_child_is_absorbed_and_first_label_stays() {
    let tree = build_tree_from_lines(&lines(&["1,a,0", "1,z,0"])).unwrap();
    let children = tree.get(0).unwrap();
    assert_eq!(children.len(), 1);
    assert_eq!(children[0].id, 1);
    assert_eq!(children[0].label, "a");
}

#[test]
fn insert_twice_keeps_one_child() {
    let mut tree = Tree::new();
    tree.insert(7, Node { id: 9, label: "first".to_string() });
    tree.insert(7, Node { id: 9, label: "second".to_string() });
    tree.insert(7, Node { id: 10, label: "other".to_string() });
    let children = tree.get(7).unwrap();
    assert_eq!(children.len(), 2);
    assert_eq!(children[0].label, "first");
    assert_eq!(children[1].id, 10);
}

#[test]
fn same_id_under_two_parents_is_kept_twice() {
    let mut tree = Tree::new();
    tree.insert(0, Node { id: 1, label: "a".to_string() });
    tree.insert(0, Node { id: 2, label: "b".to_string() });
    tree.insert(1, Node { id: 3, label: "c".to_string() });
    tree.insert(2, Node { id: 3, label: "c".to_string() });
    assert_eq!(child_ids(&tree, 1), vec![3]);
    assert_eq!(child_ids(&tree, 2), vec![3]);
    assert_eq!(
        compute_path_from_tree(&tree, 0, String::new()),
        vec!["/a/c".to_string(), "/b/c".to_string()]
    );
}

#[test]
fn unparsable_parent_hangs_under_root() {
    let record = parse_record("5,x,abc").unwrap();
    assert_eq!(record.parent_id, 0);
    assert_eq!(record.node.id, 5);
    assert_eq!(record.node.label, "x");
    let tree = build_tree_from_lines(&lines(&["5,x,abc"])).unwrap();
    assert_eq!(child_ids(&tree, 0), vec![5]);
}

#[test]
fn missing_parent_hangs_under_root() {
    assert_eq!(parse_record("5,x").unwrap().parent_id, 0);
    assert_eq!(parse_record("5,x,").unwrap().parent_id, 0);
    let tree = build_tree_from_lines(&lines(&["5,x", "6,y,"])).unwrap();
    assert_eq!(child_ids(&tree, 0), vec![5, 6]);
}

#[test]
fn missing_label_is_empty() {
    let record = parse_record("5").unwrap();
    assert_eq!(record.node.id, 5);
    assert_eq!(record.node.label, "");
    assert_eq!(record.parent_id, 0);
}

#[test]
fn unparsable_id_is_malformed() {
    assert_eq!(parse_record("x,a,0").err(), Some(TreeError::MalformedRecord));
    assert_eq!(parse_record("1.5,a,0").err(), Some(TreeError::MalformedRecord));
    assert_eq!(parse_record(" 1,a,0").err(), Some(TreeError::MalformedRecord));
}

#[test]
fn missing_id_is_malformed() {
    assert_eq!(parse_record(",a,0").err(), Some(TreeError::MalformedRecord));
    assert_eq!(parse_record("").err(), Some(TreeError::MalformedRecord));
}

#[test]
fn malformed_record_aborts_the_build() {
    let outcome = build_tree_from_lines(&lines(&["1,a,0", "oops,b,1", "3,c,1"]));
    assert_eq!(outcome.err(), Some(TreeError::MalformedRecord));
}

#[test]
fn blank_lines_are_skipped() {
    let tree = build_tree_from_lines(&lines(&["", "1,a,0", "", "2,b,1", ""])).unwrap();
    assert_eq!(child_ids(&tree, 0), vec![1]);
    assert_eq!(child_ids(&tree, 1), vec![2]);
    assert_eq!(compute_path_from_tree_iterative(&tree), Ok(vec!["/a/b".to_string()]));
}

#[test]
fn fields_are_read_as_integers() {
    let record = parse_record("42,answer,7").unwrap();
    assert_eq!(record.node.id, 42);
    assert_eq!(record.node.label, "answer");
    assert_eq!(record.parent_id, 7);
    let signed = parse_record("-3,neg,+2").unwrap();
    assert_eq!(signed.node.id, -3);
    assert_eq!(signed.parent_id, 2);
    let wide = parse_record("9223372036854775807,max,-9223372036854775808").unwrap();
    assert_eq!(wide.node.id, i64::MAX);
    assert_eq!(wide.parent_id, i64::MIN);
    assert_eq!(
        parse_record("9223372036854775808,over,0").err(),
        Some(TreeError::MalformedRecord)
    );
}

#[test]
fn fields_after_the_third_are_ignored() {
    let record = parse_record("1,a,4,zzz,9").unwrap();
    assert_eq!(record.node.id, 1);
    assert_eq!(record.node.label, "a");
    assert_eq!(record.parent_id, 4);
}

#[test]
fn labels_may_hold_any_character_but_a_comma() {
    let record = parse_record("1,h\u{e9}llo w/rld,0").unwrap();
    assert_eq!(record.node.label, "h\u{e9}llo w/rld");
    let tree = build_tree_from_lines(&lines(&["1,x/y,0"])).unwrap();
    assert_eq!(compute_path_from_tree(&tree, 0, String::new()), vec!["/x/y".to_string()]);
}

#[test]
fn record_from_fields_needs_the_id() {
    assert_eq!(
        Record::from_fields(None, "a".to_string(), Some(1)).err(),
        Some(TreeError::MalformedRecord)
    );
    let lenient = Record::from_fields(Some(8), "a".to_string(), None).unwrap();
    assert_eq!(lenient.node.id, 8);
    assert_eq!(lenient.node.label, "a");
    assert_eq!(lenient.parent_id, ROOT_ID);
    let full = Record::from_fields(Some(8), "a".to_string(), Some(3)).unwrap();
    assert_eq!(full.parent_id, 3);
}

#[test]
fn recursion_starts_anywhere_with_any_prefix() {
    let tree = sample();
    assert_eq!(
        compute_path_from_tree(&tree, 1, "x".to_string()),
        vec!["x/b/d".to_string(), "x/c".to_string()]
    );
    assert_eq!(compute_path_from_tree(&tree, 2, String::new()), vec!["/d".to_string()]);
    assert!(compute_path_from_tree(&tree, 4, String::new()).is_empty());
    assert!(compute_path_from_tree(&tree, 99, "p".to_string()).is_empty());
}

#[test]
fn no_root_child_fails_the_work_list_only() {
    let tree = build_tree_from_lines(&lines(&["2,b,1"])).unwrap();
    assert_eq!(compute_path_from_tree_iterative(&tree), Err(TreeError::RootNotFound));
    assert!(compute_path_from_tree(&tree, 0, String::new()).is_empty());
    assert_eq!(compute_path_from_tree(&tree, 1, String::new()), vec!["/b".to_string()]);
}

#[test]
fn variants_agree_on_a_wider_forest() {
    let tree = build_tree_from_lines(&lines(&[
        "1,usr,0", "2,etc,0", "3,bin,1", "4,lib,1", "5,ls,3", "6,cat,3", "7,hosts,2", "8,tmp,0",
        "9,x,4", "10,y,9",
    ]))
    .unwrap();
    assert!(tree.is_acyclic());
    let recursive = compute_path_from_tree(&tree, 0, String::new());
    let iterative = compute_path_from_tree_iterative(&tree).unwrap();
    assert_eq!(sorted(recursive.clone()), sorted(iterative));
    assert_eq!(
        recursive,
        vec![
            "/usr/bin/ls".to_string(),
            "/usr/bin/cat".to_string(),
            "/usr/lib/x/y".to_string(),
            "/etc/hosts".to_string(),
            "/tmp".to_string(),
        ]
    );
}

#[test]
fn one_path_for_each_childless_node() {
    let text = ["1,a,0", "2,b,0", "3,c,1", "4,d,1", "5,e,3", "6,f,2", "7,g,2", "8,h,7"];
    let tree = build_tree_from_lines(&lines(&text)).unwrap();
    let childless = (1..=8).filter(|id| tree.get(*id).is_none()).count();
    assert_eq!(childless, 4);
    assert_eq!(compute_path_from_tree(&tree, 0, String::new()).len(), childless);
    assert_eq!(compute_path_from_tree_iterative(&tree).unwrap().len(), childless);
}

#[test]
fn cycles_are_found() {
    let looped = build_tree_from_lines(&lines(&["1,a,0", "2,b,1", "1,a,2"])).unwrap();
    assert!(!looped.is_acyclic());
    let own_parent = build_tree_from_lines(&lines(&["1,a,0", "3,c,3"])).unwrap();
    assert!(!own_parent.is_acyclic());
    let apart = build_tree_from_lines(&lines(&["1,a,0", "5,x,6", "6,y,7", "7,z,5"])).unwrap();
    assert!(!apart.is_acyclic());
}

#[test]
fn shared_children_are_no_cycle() {
    let shared = build_tree_from_lines(&lines(&["1,a,0", "2,b,0", "3,c,1", "3,c,2", "4,d,3"]))
        .unwrap();
    assert!(shared.is_acyclic());
    assert_eq!(
        compute_path_from_tree_iterative(&shared),
        Ok(vec!["/a/c/d".to_string(), "/b/c/d".to_string()])
    );
    let out_of_order = build_tree_from_lines(&lines(&["4,d,2", "2,b,1", "1,a,0"])).unwrap();
    assert!(out_of_order.is_acyclic());
    assert_eq!(
        compute_path_from_tree(&out_of_order, 0, String::new()),
        vec!["/a/b/d".to_string()]
    );
}

#[test]
fn nodes_are_equal_by_id_alone() {
    let a = Node { id: 1, label: "a".to_string() };
    let z = Node { id: 1, label: "z".to_string() };
    let other = Node { id: 2, label: "a".to_string() };
    assert!(a == z);
    assert!(a != other);
}
