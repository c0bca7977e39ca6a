use kayak_ui::context::{KayakRootContext, Spawned};
use kayak_ui::diff::Change;
use kayak_ui::layout::Rect;
use kayak_ui::registry::SystemPair;
use kayak_ui::scheduler::{
    forget_nodes, is_held, reclaim, remove_dangling, track_focus, update_widget, update_widgets,
    update_widgets_sys, Dispatch,
};
use kayak_ui::store::WidgetStore;
use kayak_ui::styles::KStyle;

fn rect(w: i32) -> Rect {
    Rect { posx: 0, posy: 0, width: w, height: 1, z_index: 0 }
}

/// A rendered root (0) with the unkeyed children 1, 2, 3; 2 has the
/// children 4 and 5.
fn scene() -> (KayakRootContext, WidgetStore) {
    let mut context = KayakRootContext::new(0);
    let mut store = WidgetStore::new();
    let root = context.spawn_widget(None, None).unwrap().node;
    context.add_widget(None, root);
    let a = context.spawn_widget(None, Some(root)).unwrap().node;
    let b = context.spawn_widget(None, Some(root)).unwrap().node;
    let c = context.spawn_widget(None, Some(root)).unwrap().node;
    assert_eq!((root, a, b, c), (0, 1, 2, 3));
    update_widgets(&mut context, &mut store, root, &vec![a, b, c]);
    let d = context.spawn_widget(None, Some(b)).unwrap().node;
    let e = context.spawn_widget(None, Some(b)).unwrap().node;
    assert_eq!((d, e), (4, 5));
    update_widgets(&mut context, &mut store, b, &vec![d, e]);
    for id in 0..=5u64 {
        context.layout_cache.set(id, rect(id as i32 + 10));
        store.styles.insert(id, KStyle::new_default());
    }
    context.clear_indices();
    (context, store)
}

#[test]
fn first_render_inserts_mounts_and_dirties() {
    let mut context = KayakRootContext::new(0);
    let mut store = WidgetStore::new();
    let root = context.spawn_widget(None, None).unwrap().node;
    context.add_widget(None, root);
    store.mounted.insert(root);
    let a = context.spawn_widget(None, Some(root)).unwrap().node;
    let b = context.spawn_widget(None, Some(root)).unwrap().node;
    assert_eq!(*context.index.get(&root).unwrap(), 2);
    let r = update_widgets(&mut context, &mut store, root, &vec![a, b]);
    let verdicts: Vec<(usize, u64, u64, Change)> =
        r.changes.changes.iter().map(|c| (c.slot, c.node, c.parent, c.change)).collect();
    assert_eq!(
        verdicts,
        vec![(0, a, root, Change::Inserted), (1, b, root, Change::Inserted)]
    );
    assert_eq!(r.despawned, Vec::<u64>::new());
    assert_eq!(r.shadows, Vec::<u64>::new());
    assert_eq!(context.tree.children(root), vec![a, b]);
    assert_eq!(context.tree.parent(a), Some(root));
    assert_eq!(context.get_layout(a), Some(Rect::default()));
    assert_eq!(context.get_layout(b), Some(Rect::default()));
    assert_eq!(store.dirty.ordered(), vec![root, a, b]);
    // The children are mounted; the parent has rendered and is not.
    assert_eq!(store.mounted.ordered(), vec![a, b]);
    // The child count starts over for the next render.
    assert_eq!(*context.index.get(&root).unwrap(), 0);
}

#[test]
fn unchanged_render_keeps_everything() {
    let (mut context, mut store) = scene();
    let r = update_widgets(&mut context, &mut store, 0, &vec![1, 2, 3]);
    assert!(r.changes.changes.iter().all(|c| c.change == Change::Same));
    assert_eq!(r.changes.changes.len(), 3);
    assert_eq!(r.despawned, Vec::<u64>::new());
    assert_eq!(context.tree.down_iter(), vec![0, 1, 2, 4, 5, 3]);
    assert_eq!(context.get_layout(2), Some(rect(12)));
    // 1 and 3 have not rendered since they were mounted, nor have 4 and 5;
    // 2 has.
    assert_eq!(store.mounted.ordered(), vec![1, 3, 4, 5]);
}

#[test]
fn deleted_child_is_reclaimed_with_its_subtree() {
    let (mut context, mut store) = scene();
    context.cloned_widget_entities.insert(4, 400);
    context.cloned_widget_entities.insert(1, 100);
    store.dirty.insert(5);
    let r = update_widgets(&mut context, &mut store, 0, &vec![1, 3]);
    assert_eq!(r.despawned, vec![2, 4, 5]);
    assert_eq!(r.shadows, vec![400]);
    assert_eq!(context.tree.children(0), vec![1, 3]);
    assert_eq!(context.tree.down_iter(), vec![0, 1, 3]);
    for gone in [2u64, 4, 5] {
        assert!(!context.tree.contains(gone));
        assert!(!context.order_tree.contains(gone));
        assert_eq!(context.get_layout(gone), None);
        assert!(store.styles.get(&gone).is_none());
        assert!(!store.dirty.contains(gone));
        assert!(!store.mounted.contains(gone));
    }
    assert_eq!(context.get_children_ordered(0), vec![1, 3]);
    assert!(context.cloned_widget_entities.get(&4).is_none());
    assert_eq!(*context.cloned_widget_entities.get(&1).unwrap(), 100);
    assert_eq!(context.get_layout(1), Some(rect(11)));
    assert_eq!(store.dirty.ordered(), vec![0, 1, 3]);
}

#[test]
fn deleted_child_held_by_a_sibling_is_kept() {
    let (mut context, mut store) = scene();
    // The root hands 2 to its child 3 as a child value; 3 has not rendered
    // it yet.
    store.children.insert(3, vec![2]);
    assert!(is_held(&context, &store, 2));
    assert!(!is_held(&context, &store, 1));
    let r = update_widgets(&mut context, &mut store, 0, &vec![1, 3]);
    let deleted: Vec<u64> = r
        .changes
        .changes
        .iter()
        .filter(|c| c.change == Change::Deleted)
        .map(|c| c.node)
        .collect();
    assert_eq!(deleted, vec![2]);
    assert_eq!(r.despawned, Vec::<u64>::new());
    // It left the child list of its parent...
    assert_eq!(context.tree.children(0), vec![1, 3]);
    assert_eq!(context.tree.parent(2), None);
    // ...but is alive: it has its rectangle, its style and its subtree.
    assert_eq!(context.get_layout(2), Some(rect(12)));
    assert_eq!(context.get_layout(4), Some(rect(14)));
    assert!(store.styles.get(&2).is_some());
    assert_eq!(context.tree.children(2), vec![4, 5]);
    assert_eq!(context.get_children_ordered(0), vec![1, 2, 3]);
    // When the sibling renders it, it is inserted there.
    let r = update_widgets(&mut context, &mut store, 3, &vec![2]);
    assert_eq!(r.changes.changes[0].change, Change::Inserted);
    assert_eq!(context.tree.parent(2), Some(3));
    assert_eq!(context.tree.down_iter(), vec![0, 1, 3, 2, 4, 5]);
    assert_eq!(context.get_layout(2), Some(rect(12)));
}

#[test]
fn holder_may_sit_deep_below_a_sibling() {
    let (mut context, mut store) = scene();
    store.children.insert(5, vec![1]);
    assert!(is_held(&context, &store, 1));
    let r = update_widgets(&mut context, &mut store, 0, &vec![2, 3]);
    assert_eq!(r.despawned, Vec::<u64>::new());
    assert_eq!(context.get_layout(1), Some(rect(11)));
    // A holder outside the siblings' subtrees does not count.
    let (mut context, mut store) = scene();
    store.children.insert(9, vec![1]);
    assert!(!is_held(&context, &store, 1));
    let r = update_widgets(&mut context, &mut store, 0, &vec![2, 3]);
    assert_eq!(r.despawned, vec![1]);
}

#[test]
fn keyed_child_is_forgotten_with_its_key() {
    let mut context = KayakRootContext::new(0);
    let mut store = WidgetStore::new();
    let root = context.spawn_widget(None, None).unwrap().node;
    context.add_widget(None, root);
    let a = context.spawn_widget(Some("a"), Some(root)).unwrap().node;
    let b = context.spawn_widget(Some("b"), Some(root)).unwrap().node;
    update_widgets(&mut context, &mut store, root, &vec![a, b]);
    assert_eq!(context.unique_ids.len(), 2);
    let r = update_widgets(&mut context, &mut store, root, &vec![b]);
    assert_eq!(r.despawned, vec![a]);
    assert_eq!(context.unique_ids.len(), 1);
    assert!(context.unique_ids.get(&(root, "a".to_string())).is_none());
    assert_eq!(*context.unique_ids.get(&(root, "b".to_string())).unwrap(), b);
    assert!(context.unique_ids_parents.get(&a).is_none());
    assert_eq!(*context.unique_ids_parents.get(&b).unwrap(), root);
    // The key is free again: the next spawn under it is a new widget.
    assert_eq!(
        context.spawn_widget(Some("a"), Some(root)),
        Some(Spawned { node: 3, reused: false })
    );
    assert_eq!(
        context.spawn_widget(Some("b"), Some(root)),
        Some(Spawned { node: b, reused: true })
    );
}

#[test]
fn forget_nodes_releases_shadows_and_tables() {
    let (mut context, mut store) = scene();
    context.cloned_widget_entities.insert(1, 100);
    context.cloned_widget_entities.insert(3, 300);
    store.names.insert(1, "Button".to_string());
    store.focusable.insert(1);
    store.dirty.insert(1);
    let shadows = forget_nodes(&mut context, &mut store, &vec![1, 9]);
    assert_eq!(shadows, vec![100]);
    assert_eq!(context.get_layout(1), None);
    assert!(store.names.get(&1).is_none());
    assert!(!store.focusable.contains(1));
    assert!(!store.dirty.contains(1));
    assert_eq!(*context.cloned_widget_entities.get(&3).unwrap(), 300);
    assert_eq!(context.get_layout(3), Some(rect(13)));
    // The trees are not touched.
    assert_eq!(context.tree.children(0), vec![1, 2, 3]);
}

#[test]
fn reclaim_takes_subtrees_out_of_both_trees() {
    let (mut context, _store) = scene();
    let gone = reclaim(&mut context, &vec![2, 3]);
    assert_eq!(gone, vec![2, 4, 5, 3]);
    assert_eq!(context.tree.down_iter(), vec![0, 1]);
    assert_eq!(context.get_children_ordered(0), vec![1]);
    assert_eq!(context.get_layout(2), Some(rect(12)));
}

#[test]
fn dangling_widget_is_removed_unless_held() {
    let (mut context, mut store) = scene();
    store.children.insert(1, vec![3]);
    let r = remove_dangling(&mut context, &mut store, 3);
    assert_eq!(r.despawned, Vec::<u64>::new());
    assert_eq!(context.tree.children(0), vec![1, 2, 3]);
    store.children.remove(&1);
    let r = remove_dangling(&mut context, &mut store, 2);
    assert_eq!(r.despawned, vec![2, 4, 5]);
    assert!(r.changes.changes.is_empty());
    assert_eq!(context.tree.down_iter(), vec![0, 1, 3]);
    assert_eq!(context.get_layout(4), None);
    assert_eq!(context.get_children_ordered(0), vec![1, 3]);
}

#[test]
fn dispatch_finds_systems_and_makes_a_shadow() {
    let (mut context, mut store) = scene();
    context.add_widget_system("Button", 7, 8);
    store.names.insert(1, "Button".to_string());
    store.names.insert(2, "Slider".to_string());
    let next = context.next_id;
    // No type name: passed over.
    assert_eq!(update_widget(&mut context, &store, 3).unwrap(), None);
    assert_eq!(context.next_id, next);
    // Unregistered type: configuration error, nothing changes.
    let err = update_widget(&mut context, &store, 2).unwrap_err();
    assert_eq!(err.widget_type, "Slider");
    assert_eq!(context.next_id, next);
    assert!(context.cloned_widget_entities.is_empty());
    // Registered: the systems, and a new shadow the first time.
    let first = update_widget(&mut context, &store, 1).unwrap().unwrap();
    assert_eq!(
        first,
        Dispatch {
            systems: SystemPair { update: 7, render: 8 },
            shadow: Some(Spawned { node: next, reused: false }),
        }
    );
    assert_eq!(context.next_id, next + 1);
    let second = update_widget(&mut context, &store, 1).unwrap().unwrap();
    assert_eq!(second.shadow, Some(Spawned { node: next, reused: true }));
    assert_eq!(context.next_id, next + 1);
    context.cloned_widget_entities.clear();
    context.next_id = u64::MAX;
    let third = update_widget(&mut context, &store, 1).unwrap().unwrap();
    assert_eq!(third.shadow, None);
}

#[test]
fn walk_is_pre_order_and_skips_unchanged_subtrees() {
    let (context, _store) = scene();
    let mut walk = update_widgets_sys(&context);
    let mut visited = Vec::new();
    while let Some(node) = walk.next() {
        visited.push(node);
        // Widget 2 did not change: its subtree is not visited.
        walk.advance(&context.tree, node, node != 2);
    }
    assert_eq!(visited, vec![0, 1, 2, 3]);
    assert!(walk.is_done());
    let mut walk = update_widgets_sys(&context);
    let mut visited = Vec::new();
    while let Some(node) = walk.next() {
        visited.push(node);
        walk.descend(&context.tree.children(node));
    }
    assert_eq!(visited, context.tree.down_iter());
    let empty = KayakRootContext::new(0);
    assert!(update_widgets_sys(&empty).is_done());
}

#[test]
fn focusable_widgets_enter_the_focus_tree() {
    let (mut context, mut store) = scene();
    store.focusable.insert(0);
    store.focusable.insert(4);
    track_focus(&mut context, &store, 0);
    track_focus(&mut context, &store, 2);
    track_focus(&mut context, &store, 4);
    assert!(context.focus_tree.contains(0));
    assert!(!context.focus_tree.contains(2));
    assert!(context.focus_tree.contains(4));
    context.focus_tree.focus(4);
    assert_eq!(context.focused_node(), Some(4));
}

#[test]
fn render_of_a_widget_that_left_the_tree_changes_no_tree() {
    let (mut context, mut store) = scene();
    // 2 vanishes with its subtree while it renders.
    context.tree.remove(2);
    let child = context.spawn_widget(Some("late"), Some(2)).unwrap().node;
    assert_eq!(child, 6);
    let r = update_widgets(&mut context, &mut store, 2, &vec![child]);
    assert_eq!(r.despawned, Vec::<u64>::new());
    assert_eq!(context.tree.down_iter(), vec![0, 1, 3]);
    assert!(!context.tree.contains(2));
    assert!(!context.tree.contains(child));
    assert_eq!(context.get_layout(child), None);
}

#[test]
fn moved_children_keep_their_rectangles_and_subtrees() {
    let (mut context, mut store) = scene();
    let r = update_widgets(&mut context, &mut store, 0, &vec![3, 2, 1]);
    let verdicts: Vec<(u64, Change)> =
        r.changes.changes.iter().map(|c| (c.node, c.change)).collect();
    assert_eq!(verdicts, vec![(3, Change::Moved), (2, Change::Same), (1, Change::Moved)]);
    assert_eq!(r.despawned, Vec::<u64>::new());
    assert_eq!(context.tree.down_iter(), vec![0, 3, 2, 4, 5, 1]);
    assert_eq!(context.get_layout(3), Some(rect(13)));
    assert_eq!(context.get_layout(1), Some(rect(11)));
    // Nothing is new: nothing is mounted afresh.
    assert_eq!(store.mounted.ordered(), vec![1, 3, 4, 5]);
}
