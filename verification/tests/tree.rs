use std::collections::HashMap;

use btrfs_subvolume_tree::error::TreeError;
use btrfs_subvolume_tree::node::Node;
use btrfs_subvolume_tree::reconstruct::build_tree;
use btrfs_subvolume_tree::record::{SubvolumeRecord, ROOT_SUBVOLUME_ID};

fn uuid_of(id: u64) -> [u8; 16] {
    let mut bytes = [0u8; 16];
    bytes[15] = id as u8;
    bytes[0] = 0xab;
    bytes
}

fn record(id: u64, parent_id: u64, path: Option<&str>) -> SubvolumeRecord {
    SubvolumeRecord {
        id,
        parent_id,
        unique_id: uuid_of(id),
        absolute_path: path.map(str::to_owned),
    }
}

fn root() -> SubvolumeRecord {
    record(5, 5, None)
}

fn node(id: u64, path: Option<&str>, mountpoint: Option<&str>, children: Vec<Node>) -> Node {
    Node {
        id,
        unique_id: uuid_of(id),
        relative_path: path.map(str::to_owned),
        mountpoint: mountpoint.map(str::to_owned),
        children,
    }
}

fn child_ids(node: &Node) -> Vec<u64> {
    node.children.iter().map(|child| child.id).collect()
}

fn strictly_ascending_everywhere(node: &Node) -> bool {
    node.children.windows(2).all(|pair| pair[0].id < pair[1].id)
        && node.children.iter().all(strictly_ascending_everywhere)
}

fn mounted_as(node: &Node, overlay: &HashMap<u64, String>) -> bool {
    node.mountpoint.as_ref() == overlay.get(&node.id)
        && node.children.iter().all(|child| mounted_as(child, overlay))
}

fn count(node: &Node) -> usize {
    1 + node.children.iter().map(count).sum::<usize>()
}

#[test]
fn root_constant_is_the_top_level_id() {
    assert_eq!(ROOT_SUBVOLUME_ID, 5);
}

#[test]
fn chain_of_two_below_the_root() {
    let records = vec![record(10, 5, Some("/a")), record(15, 10, Some("/a/b"))];
    let tree = build_tree(&root(), &records, &HashMap::new()).unwrap();
    let expected = node(
        5,
        None,
        None,
        vec![node(10, Some("a"), None, vec![node(15, Some("b"), None, vec![])])],
    );
    assert_eq!(tree, expected);
    assert_eq!(tree.children[0].mountpoint, None);
    assert_eq!(tree.children[0].children[0].mountpoint, None);
}

#[test]
fn mount_overlay_reaches_the_nested_node() {
    let records = vec![record(10, 5, Some("/a")), record(15, 10, Some("/a/b"))];
    let mut overlay = HashMap::new();
    overlay.insert(15, "/mnt/b".to_owned());
    let tree = build_tree(&root(), &records, &overlay).unwrap();
    let expected = node(
        5,
        None,
        None,
        vec![node(10, Some("a"), None, vec![node(15, Some("b"), Some("/mnt/b"), vec![])])],
    );
    assert_eq!(tree, expected);
}

#[test]
fn unresolved_path_stays_unknown() {
    let records = vec![record(20, 5, None)];
    let tree = build_tree(&root(), &records, &HashMap::new()).unwrap();
    assert_eq!(tree.children.len(), 1);
    assert_eq!(tree.children[0].id, 20);
    assert_eq!(tree.children[0].relative_path, None);
    assert_eq!(tree.children[0].label(), "<unknown>");
}

#[test]
fn child_before_its_missing_parent_is_a_topology_violation() {
    let records = vec![record(15, 10, Some("/a/b")), record(10, 7, Some("/a"))];
    let result = build_tree(&root(), &records, &HashMap::new());
    assert_eq!(result, Err(TreeError::TopologyViolation { id: 10 }));
}

#[test]
fn child_whose_parent_comes_later_and_is_not_below_the_root_is_a_violation() {
    let records =
        vec![record(7, 5, Some("/x")), record(15, 10, Some("/x/a/b")), record(10, 7, Some("/x/a"))];
    let result = build_tree(&root(), &records, &HashMap::new());
    assert_eq!(result, Err(TreeError::TopologyViolation { id: 15 }));
}

#[test]
fn parent_that_never_appears_is_a_violation() {
    let records = vec![record(10, 5, Some("/a")), record(15, 99, Some("/z"))];
    let result = build_tree(&root(), &records, &HashMap::new());
    assert_eq!(result, Err(TreeError::TopologyViolation { id: 15 }));
}

#[test]
fn the_last_orphan_is_reported() {
    let records = vec![record(11, 98, None), record(10, 5, None), record(15, 99, None)];
    let result = build_tree(&root(), &records, &HashMap::new());
    assert_eq!(result, Err(TreeError::TopologyViolation { id: 15 }));
}

#[test]
fn record_that_names_itself_is_a_violation() {
    let records = vec![record(10, 10, Some("/a"))];
    let result = build_tree(&root(), &records, &HashMap::new());
    assert_eq!(result, Err(TreeError::TopologyViolation { id: 10 }));
}

#[test]
fn siblings_are_ordered_by_id() {
    let records = vec![record(30, 5, None), record(25, 5, None)];
    let tree = build_tree(&root(), &records, &HashMap::new()).unwrap();
    assert_eq!(child_ids(&tree), vec![25, 30]);
}

#[test]
fn sibling_order_does_not_depend_on_enumeration_order() {
    let forward = vec![
        record(10, 5, Some("/a")),
        record(11, 10, Some("/a/x")),
        record(12, 10, Some("/a/y")),
        record(13, 10, Some("/a/z")),
        record(20, 5, Some("/b")),
    ];
    let shuffled = vec![
        record(20, 5, Some("/b")),
        record(10, 5, Some("/a")),
        record(13, 10, Some("/a/z")),
        record(11, 10, Some("/a/x")),
        record(12, 10, Some("/a/y")),
    ];
    let one = build_tree(&root(), &forward, &HashMap::new()).unwrap();
    let other = build_tree(&root(), &shuffled, &HashMap::new()).unwrap();
    assert_eq!(one, other);
    assert_eq!(child_ids(&one), vec![10, 20]);
    assert_eq!(child_ids(&one.children[0]), vec![11, 12, 13]);
    assert!(strictly_ascending_everywhere(&one));
}

#[test]
fn empty_enumeration_gives_the_bare_root() {
    let mut overlay = HashMap::new();
    overlay.insert(5, "/".to_owned());
    let tree = build_tree(&root(), &Vec::new(), &overlay).unwrap();
    assert_eq!(tree, node(5, None, Some("/"), vec![]));
}

#[test]
fn root_keeps_no_path_of_its_own() {
    let root = record(5, 5, Some("/"));
    let tree = build_tree(&root, &Vec::new(), &HashMap::new()).unwrap();
    assert_eq!(tree.relative_path, None);
    assert_eq!(tree.unique_id, uuid_of(5));
}

#[test]
fn parent_directly_below_the_root_may_come_later() {
    let records = vec![record(15, 10, Some("/a/b")), record(10, 5, Some("/a"))];
    let tree = build_tree(&root(), &records, &HashMap::new()).unwrap();
    let expected = node(
        5,
        None,
        None,
        vec![node(10, Some("a"), None, vec![node(15, Some("b"), None, vec![])])],
    );
    assert_eq!(tree, expected);
}

#[test]
fn every_record_becomes_one_node() {
    let records = vec![
        record(256, 5, Some("/home")),
        record(257, 5, Some("/var")),
        record(258, 256, Some("/home/alice")),
        record(259, 258, Some("/home/alice/snap")),
        record(260, 257, Some("/var/lib")),
        record(261, 256, Some("/home/bob")),
    ];
    let tree = build_tree(&root(), &records, &HashMap::new()).unwrap();
    assert_eq!(count(&tree), records.len() + 1);
    assert_eq!(child_ids(&tree), vec![256, 257]);
    assert_eq!(child_ids(&tree.children[0]), vec![258, 261]);
    assert_eq!(child_ids(&tree.children[0].children[0]), vec![259]);
    assert_eq!(child_ids(&tree.children[1]), vec![260]);
    assert_eq!(tree.children[0].children[0].children[0].relative_path.as_deref(), Some("snap"));
}

#[test]
fn joined_relative_paths_give_back_the_absolute_path() {
    let records = vec![
        record(256, 5, Some("/home")),
        record(258, 256, Some("/home/alice")),
        record(259, 258, Some("/home/alice/snap/2024")),
    ];
    let tree = build_tree(&root(), &records, &HashMap::new()).unwrap();
    let mut joined = String::new();
    let mut at = &tree;
    for record in &records {
        at = &at.children[0];
        joined.push('/');
        joined.push_str(at.relative_path.as_deref().unwrap());
        assert_eq!(Some(joined.as_str()), record.absolute_path.as_deref());
    }
}

#[test]
fn mountpoints_are_set_exactly_for_the_ids_of_the_overlay() {
    let records = vec![
        record(256, 5, Some("/home")),
        record(257, 5, Some("/var")),
        record(258, 256, Some("/home/alice")),
    ];
    let mut overlay = HashMap::new();
    overlay.insert(5, "/".to_owned());
    overlay.insert(258, "/home/alice".to_owned());
    overlay.insert(999, "/nowhere".to_owned());
    let tree = build_tree(&root(), &records, &overlay).unwrap();
    assert!(mounted_as(&tree, &overlay));
    assert_eq!(tree.mountpoint.as_deref(), Some("/"));
    assert_eq!(tree.children[0].mountpoint, None);
    assert_eq!(tree.children[1].mountpoint, None);
    assert_eq!(tree.children[0].children[0].mountpoint.as_deref(), Some("/home/alice"));
}

#[test]
fn only_one_separator_is_taken_from_the_front() {
    let records = vec![record(10, 5, Some("//a")), record(15, 10, Some("//a//b"))];
    let tree = build_tree(&root(), &records, &HashMap::new()).unwrap();
    assert_eq!(tree.children[0].relative_path.as_deref(), Some("/a"));
    assert_eq!(tree.children[0].children[0].relative_path.as_deref(), Some("/b"));
}

#[test]
fn path_that_does_not_extend_the_parent_keeps_its_text() {
    let records = vec![record(10, 5, Some("a")), record(15, 10, Some("elsewhere/b"))];
    let tree = build_tree(&root(), &records, &HashMap::new()).unwrap();
    assert_eq!(tree.children[0].relative_path.as_deref(), Some("a"));
    assert_eq!(tree.children[0].children[0].relative_path.as_deref(), Some("elsewhere/b"));
}

#[test]
fn path_below_a_parent_of_unknown_path_stays_absolute() {
    let records = vec![record(10, 5, None), record(15, 10, Some("/a/b"))];
    let tree = build_tree(&root(), &records, &HashMap::new()).unwrap();
    assert_eq!(tree.children[0].relative_path, None);
    assert_eq!(tree.children[0].children[0].relative_path.as_deref(), Some("/a/b"));
}

#[test]
fn of_two_earlier_records_with_one_id_the_first_is_the_parent() {
    let records =
        vec![record(10, 5, Some("/a")), record(10, 5, Some("/b")), record(15, 10, Some("/a/c"))];
    let tree = build_tree(&root(), &records, &HashMap::new()).unwrap();
    assert_eq!(child_ids(&tree), vec![10, 10]);
    assert_eq!(tree.children[0].relative_path.as_deref(), Some("b"));
    assert_eq!(tree.children[1].relative_path.as_deref(), Some("a"));
    assert_eq!(child_ids(&tree.children[1]), vec![15]);
    assert_eq!(tree.children[1].children[0].relative_path.as_deref(), Some("c"));
    assert!(tree.children[0].children.is_empty());
}

#[test]
fn insert_child_keeps_children_ascending() {
    let mut parent = node(1, None, None, vec![]);
    for id in [7u64, 3, 9, 5, 1] {
        parent.insert_child(node(id, None, None, vec![]));
    }
    assert_eq!(child_ids(&parent), vec![1, 3, 5, 7, 9]);
}

#[test]
fn insert_child_puts_an_equal_id_behind() {
    let mut parent = node(1, None, None, vec![]);
    parent.insert_child(node(4, Some("first"), None, vec![]));
    parent.insert_child(node(4, Some("second"), None, vec![]));
    parent.insert_child(node(2, None, None, vec![]));
    assert_eq!(child_ids(&parent), vec![2, 4, 4]);
    assert_eq!(parent.children[1].relative_path.as_deref(), Some("first"));
    assert_eq!(parent.children[2].relative_path.as_deref(), Some("second"));
}

#[test]
fn leaf_has_no_children() {
    let leaf = Node::leaf(42, uuid_of(42), Some("p".to_owned()), None);
    assert_eq!(leaf, node(42, Some("p"), None, vec![]));
}

#[test]
fn clone_copies_the_whole_tree() {
    let records = vec![
        record(256, 5, Some("/home")),
        record(258, 256, Some("/home/alice")),
        record(257, 5, None),
    ];
    let mut overlay = HashMap::new();
    overlay.insert(258, "/home/alice".to_owned());
    let tree = build_tree(&root(), &records, &overlay).unwrap();
    let copy = tree.clone();
    assert_eq!(copy, tree);
    assert_eq!(count(&copy), 4);
}

#[test]
fn chain_of_every_record_ends_at_the_root() {
    let records = vec![
        record(256, 5, None),
        record(257, 256, None),
        record(258, 257, None),
        record(259, 258, None),
        record(260, 256, None),
    ];
    let tree = build_tree(&root(), &records, &HashMap::new()).unwrap();
    assert_eq!(count(&tree), records.len() + 1);
    for record in &records {
        let mut id = record.id;
        let mut steps = 0;
        while id != 5 {
            id = records.iter().find(|other| other.id == id).unwrap().parent_id;
            steps += 1;
            assert!(steps <= records.len());
        }
    }
    let mut depth = 0;
    let mut at = &tree;
    while let Some(child) = at.children.first() {
        at = child;
        depth += 1;
    }
    assert_eq!(depth, 4);
    assert_eq!(at.id, 259);
}
