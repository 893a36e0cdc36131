use yamltree::nav::{cursor_down, cursor_up, toggle_row};
use yamltree::render::{wrap_row, Marker};
use yamltree::tree::{build_tree, TreeNode};
use yamltree::value::Value;

fn num(n: &str) -> Value {
    Value::Number(n.to_string())
}

fn map(entries: Vec<(&str, Value)>) -> Value {
    Value::Mapping(entries.into_iter().map(|(k, v)| (k.to_string(), v)).collect())
}

fn keys_of(tree: &TreeNode) -> Vec<String> {
    tree.flatten().iter().map(|n| n.key.clone()).collect()
}

fn doc_two_keys() -> Value {
    // {a: 1, b: {c: 2}}
    map(vec![("a", num("1")), ("b", map(vec![("c", num("2"))]))])
}

#[test]
fn scenario_two_keys_initial_view() {
    let tree = build_tree(doc_two_keys());
    let rows = tree.flatten();
    assert_eq!(rows.len(), 3);
    assert_eq!(rows[0].key, "root");
    assert_eq!(rows[1].key, "a");
    assert_eq!(rows[2].key, "b");
    assert_eq!(rows[1].depth, 1);
    assert_eq!(rows[2].marker(), Marker::Collapsed);
    assert_eq!(rows[2].inline_content(), "{...}");
}

#[test]
fn scenario_two_keys_expand_nested() {
    let mut tree = build_tree(doc_two_keys());
    toggle_row(&mut tree, 2);
    let rows = tree.flatten();
    assert_eq!(rows.len(), 4);
    assert_eq!(rows[1].key, "a");
    assert_eq!(rows[2].key, "b");
    assert_eq!(rows[3].key, "c");
    assert_eq!(rows[3].depth, 2);
    assert_eq!(rows[2].marker(), Marker::Expanded);
    assert!(!rows[2].shows_content());
}

#[test]
fn scenario_sequence_rows() {
    // [1, 2, 3]
    let tree = build_tree(Value::Sequence(vec![num("1"), num("2"), num("3")]));
    let rows = tree.flatten();
    assert_eq!(rows.len(), 4);
    assert_eq!(rows[1].key, "[0]");
    assert_eq!(rows[2].key, "[1]");
    assert_eq!(rows[3].key, "[2]");
    assert_eq!(rows[1].inline_content(), "1");
    assert_eq!(rows[2].inline_content(), "2");
    assert_eq!(rows[3].inline_content(), "3");
    assert_eq!(rows[1].marker(), Marker::Leaf);
    assert_eq!(rows[3].marker(), Marker::Leaf);
}

#[test]
fn scenario_null_scalar_is_toggle_noop() {
    // x: null
    let mut tree = build_tree(map(vec![("x", Value::Null)]));
    let rows = tree.flatten();
    assert_eq!(rows.len(), 2);
    assert_eq!(rows[1].key, "x");
    assert_eq!(rows[1].inline_content(), "null");
    assert_eq!(rows[1].marker(), Marker::Leaf);
    let before = keys_of(&tree);
    toggle_row(&mut tree, 1);
    assert_eq!(keys_of(&tree), before);
    assert!(!tree.flatten()[1].expanded);
}

#[test]
fn scenario_down_at_last_row_stays() {
    let tree = build_tree(doc_two_keys());
    let len = tree.flatten().len();
    assert_eq!(cursor_down(len - 1, len), len - 1);
    assert_eq!(cursor_down(0, len), 1);
}

#[test]
fn scenario_empty_mapping_root() {
    // a document whose top level is {}
    let mut tree = build_tree(map(vec![]));
    let rows = tree.flatten();
    assert_eq!(rows.len(), 1);
    assert_eq!(rows[0].marker(), Marker::Leaf);
    assert!(!rows[0].shows_content());
    toggle_row(&mut tree, 0);
    let rows = tree.flatten();
    assert_eq!(rows.len(), 1);
    assert_eq!(rows[0].marker(), Marker::Leaf);
    assert_eq!(rows[0].inline_content(), "{}");
    assert!(rows[0].shows_content());
}

#[test]
fn fresh_tree_flattens_to_one_row() {
    // before the root is forced open, any document makes a single row
    let node = TreeNode::new("root".to_string(), doc_two_keys(), 0);
    assert_eq!(node.flatten().len(), 1);
    let node = TreeNode::new("root".to_string(), Value::Sequence(vec![num("1")]), 0);
    assert_eq!(node.flatten().len(), 1);
}

#[test]
fn childless_container_is_single_leaf_row() {
    // {s: []} with the empty sequence toggled: still one leaf row for s
    let mut tree = build_tree(map(vec![("s", Value::Sequence(vec![]))]));
    let rows = tree.flatten();
    assert_eq!(rows.len(), 2);
    assert_eq!(rows[1].marker(), Marker::Leaf);
    assert_eq!(rows[1].inline_content(), "[]");
    toggle_row(&mut tree, 1);
    let rows = tree.flatten();
    assert_eq!(rows.len(), 2);
    assert!(rows[1].expanded);
    assert_eq!(rows[1].marker(), Marker::Leaf);
}

#[test]
fn flatten_twice_is_identical() {
    let mut tree = build_tree(doc_two_keys());
    toggle_row(&mut tree, 2);
    let first = tree.flatten();
    let second = tree.flatten();
    assert_eq!(first, second);
}

#[test]
fn toggle_twice_restores_view() {
    let mut tree = build_tree(doc_two_keys());
    toggle_row(&mut tree, 2);
    let opened = keys_of(&tree);
    assert_eq!(opened.len(), 4);
    toggle_row(&mut tree, 2);
    let restored = keys_of(&tree);
    assert_eq!(restored, vec!["root", "a", "b"]);
    toggle_row(&mut tree, 2);
    assert_eq!(keys_of(&tree), opened);
}

#[test]
fn toggle_deep_row_then_again() {
    // {b: {c: {d: 4}}}: open b, open c, close c, close b
    let mut tree = build_tree(map(vec![("b", map(vec![("c", map(vec![("d", num("4"))]))]))]));
    assert_eq!(keys_of(&tree), vec!["root", "b"]);
    toggle_row(&mut tree, 1);
    assert_eq!(keys_of(&tree), vec!["root", "b", "c"]);
    toggle_row(&mut tree, 2);
    assert_eq!(keys_of(&tree), vec!["root", "b", "c", "d"]);
    toggle_row(&mut tree, 2);
    assert_eq!(keys_of(&tree), vec!["root", "b", "c"]);
    toggle_row(&mut tree, 1);
    assert_eq!(keys_of(&tree), vec!["root", "b"]);
}

#[test]
fn collapsing_root_leaves_single_row() {
    let mut tree = build_tree(doc_two_keys());
    toggle_row(&mut tree, 0);
    assert_eq!(keys_of(&tree), vec!["root"]);
    assert_eq!(tree.flatten()[0].marker(), Marker::Collapsed);
    toggle_row(&mut tree, 0);
    assert_eq!(keys_of(&tree), vec!["root", "a", "b"]);
}

#[test]
fn toggle_beyond_view_is_noop() {
    let mut tree = build_tree(doc_two_keys());
    let before = keys_of(&tree);
    toggle_row(&mut tree, 17);
    assert_eq!(keys_of(&tree), before);
}

#[test]
fn cursor_stays_in_range() {
    let len: usize = 3;
    let mut c: usize = 0;
    let moves = [true, true, true, true, false, true, false, false, false, true];
    for &down in moves.iter() {
        c = if down { cursor_down(c, len) } else { cursor_up(c) };
        assert!(c < len);
    }
    assert_eq!(cursor_up(0), 0);
    assert_eq!(cursor_down(2, 3), 2);
}

#[test]
fn two_digit_sequence_keys() {
    let items: Vec<Value> = (0..12).map(|i| num(&i.to_string())).collect();
    let tree = build_tree(Value::Sequence(items));
    let rows = tree.flatten();
    assert_eq!(rows.len(), 13);
    assert_eq!(rows[10].key, "[9]");
    assert_eq!(rows[11].key, "[10]");
    assert_eq!(rows[12].key, "[11]");
}

#[test]
fn tagged_value_rows() {
    // {t: !tag 5} : the tagged node is a leaf showing its inner value
    let mut tree = build_tree(map(vec![(
        "t",
        Value::Tagged("5".to_string(), Box::new(num("5"))),
    )]));
    let rows = tree.flatten();
    assert_eq!(rows.len(), 2);
    assert_eq!(rows[1].inline_content(), "5");
    assert_eq!(rows[1].marker(), Marker::Leaf);
    let before = keys_of(&tree);
    toggle_row(&mut tree, 1);
    assert_eq!(keys_of(&tree), before);
}

#[test]
fn tagged_document_root_shows_synthetic_child() {
    let tree = build_tree(Value::Tagged("7".to_string(), Box::new(num("7"))));
    let rows = tree.flatten();
    assert_eq!(rows.len(), 2);
    assert_eq!(rows[1].key, "tagged");
    assert_eq!(rows[1].inline_content(), "7");
}

#[test]
fn kind_labels() {
    assert_eq!(Value::Null.kind_label(), "Null");
    assert_eq!(Value::Bool(true).kind_label(), "Bool");
    assert_eq!(num("3").kind_label(), "Number");
    assert_eq!(Value::Str("hi".to_string()).kind_label(), "String");
    assert_eq!(Value::Sequence(vec![]).kind_label(), "Sequence");
    assert_eq!(map(vec![]).kind_label(), "Mapping");
    assert_eq!(
        Value::Tagged("x".to_string(), Box::new(Value::Null)).kind_label(),
        "Tagged"
    );
}

#[test]
fn status_labels() {
    let mut tree = build_tree(doc_two_keys());
    {
        let rows = tree.flatten();
        assert_eq!(rows[0].status_label(), "Expanded");
        assert_eq!(rows[1].status_label(), "N/A");
        assert_eq!(rows[2].status_label(), "Collapsed");
    }
    toggle_row(&mut tree, 2);
    assert_eq!(tree.flatten()[2].status_label(), "Expanded");
}

#[test]
fn bool_and_string_content() {
    let tree = build_tree(map(vec![
        ("t", Value::Bool(true)),
        ("f", Value::Bool(false)),
        ("s", Value::Str("hello".to_string())),
    ]));
    let rows = tree.flatten();
    assert_eq!(rows[1].inline_content(), "true");
    assert_eq!(rows[2].inline_content(), "false");
    assert_eq!(rows[3].inline_content(), "hello");
}

#[test]
fn key_path_of_nested_row() {
    let mut tree = build_tree(doc_two_keys());
    toggle_row(&mut tree, 2);
    let path = tree.key_path(3).unwrap();
    assert_eq!(path, vec!["root", "b", "c"]);
    let path = tree.key_path(0).unwrap();
    assert_eq!(path, vec!["root"]);
    assert!(tree.key_path(9).is_none());
}

#[test]
fn wrap_row_inserts_spacers() {
    let lines = wrap_row("aaa bbb", 3);
    assert_eq!(lines, vec!["aaa", "", "bbb"]);
}

#[test]
fn wrap_row_short_text_single_line() {
    let lines = wrap_row("root: 1", 40);
    assert_eq!(lines, vec!["root: 1"]);
}

#[test]
fn clone_value_is_deep_equal() {
    let v = doc_two_keys();
    let w = v.clone();
    assert_eq!(v, w);
}
