use kayak_ui::focus_tree::FocusTree;
use kayak_ui::node_set::NodeSet;
use kayak_ui::tree::Tree;

#[test]
fn node_set_keeps_creation_order() {
    let mut set = NodeSet::new();
    assert_eq!(set.len(), 0);
    set.insert(5);
    set.insert(1);
    set.insert(9);
    set.insert(5);
    set.insert(3);
    assert_eq!(set.ordered(), vec![1, 3, 5, 9]);
    assert_eq!(set.len(), 4);
    assert!(set.contains(3));
    assert!(!set.contains(4));
    set.remove(5);
    set.remove(4);
    assert_eq!(set.ordered(), vec![1, 3, 9]);
    set.insert_all(&vec![9, 0, 4, 4]);
    assert_eq!(set.ordered(), vec![0, 1, 3, 4, 9]);
}

#[test]
fn node_set_order_does_not_depend_on_insertion_order() {
    let mut a = NodeSet::new();
    let mut b = NodeSet::new();
    for x in [7u64, 2, 9, 4] {
        a.insert(x);
    }
    for x in [4u64, 9, 2, 7] {
        b.insert(x);
    }
    assert_eq!(a.ordered(), b.ordered());
    assert_eq!(a.ordered(), vec![2, 4, 7, 9]);
}

fn widget_tree() -> Tree {
    let mut tree = Tree::new();
    tree.add(1, None);
    tree.add(2, Some(1));
    tree.add(3, Some(2));
    tree.add(4, Some(3));
    tree.add(5, Some(1));
    tree
}

#[test]
fn focus_tree_hangs_nodes_below_their_nearest_focusable_ancestor() {
    let tree = widget_tree();
    let mut focus = FocusTree::new();
    assert_eq!(focus.current(), None);
    assert!(!focus.contains(1));
    focus.add(1, &tree);
    assert!(focus.contains(1));
    // 2 and 3 are not focusable: 4 hangs below 1.
    focus.add(4, &tree);
    focus.add(5, &tree);
    assert!(focus.contains(4));
    assert!(!focus.contains(2));
    // Once 3 is focusable, a node below it would hang below 3.
    focus.add(3, &tree);
    assert!(focus.contains(3));
}

#[test]
fn focus_moves_only_to_focusable_nodes() {
    let tree = widget_tree();
    let mut focus = FocusTree::new();
    focus.add(1, &tree);
    focus.add(4, &tree);
    focus.focus(4);
    assert_eq!(focus.current(), Some(4));
    focus.focus(2);
    assert_eq!(focus.current(), Some(4));
    focus.blur();
    assert_eq!(focus.current(), None);
    focus.focus(1);
    assert_eq!(focus.current(), Some(1));
}

#[test]
fn removing_the_focused_node_drops_the_focus() {
    let tree = widget_tree();
    let mut focus = FocusTree::new();
    focus.add(1, &tree);
    focus.add(4, &tree);
    focus.add(5, &tree);
    focus.focus(4);
    focus.remove(5);
    assert_eq!(focus.current(), Some(4));
    assert!(!focus.contains(5));
    focus.remove(4);
    assert_eq!(focus.current(), None);
    assert!(!focus.contains(4));
    focus.focus(1);
    focus.clear();
    assert_eq!(focus.current(), None);
    assert!(!focus.contains(1));
}
