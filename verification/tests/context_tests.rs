use kayak_ui::context::{KayakRootContext, Spawned, WidgetName};
use kayak_ui::diff::{diff, Change};
use kayak_ui::layout::Rect;
use kayak_ui::plugin::{
    IconsPlugin, KayakUIPlugin, UnifiedRenderPlugin, EXPAND_LESS_HANDLE, EXPAND_MORE_HANDLE,
};
use kayak_ui::registry::{SystemPair, WidgetSystems};

fn fresh(node: u64) -> Option<Spawned> {
    Some(Spawned { node, reused: false })
}

fn again(node: u64) -> Option<Spawned> {
    Some(Spawned { node, reused: true })
}

#[test]
fn new_context_is_empty() {
    let context = KayakRootContext::new(77);
    assert_eq!(context.camera_entity, 77);
    assert_eq!(context.next_id, 0);
    assert_eq!(context.current_z, 0);
    assert_eq!(context.max_opacity_layers, 5);
    assert_eq!(context.tree.root(), None);
    assert_eq!(context.get_layout(0), None);
    assert!(!context.get_geometry_changed(0));
    assert_eq!(context.focused_node(), None);
    assert!(context.index.is_empty());
    assert!(context.unique_ids.is_empty());
    assert!(context.unique_ids_parents.is_empty());
    assert!(context.cloned_widget_entities.is_empty());
}

#[test]
fn add_widget_enters_tree_and_layout_cache() {
    let mut context = KayakRootContext::new(0);
    context.add_widget(None, 1);
    context.add_widget(Some(1), 2);
    assert_eq!(context.tree.root(), Some(1));
    assert_eq!(context.tree.children(1), vec![2]);
    let zero = Rect { posx: 0, posy: 0, width: 0, height: 0, z_index: 0 };
    assert_eq!(context.get_layout(1), Some(zero));
    assert_eq!(context.get_layout(2), Some(zero));
    assert_eq!(context.get_layout(3), None);
    // An entry that is there is kept.
    let r = Rect { posx: 1, posy: 2, width: 3, height: 4, z_index: 0 };
    context.layout_cache.set(2, r);
    context.add_widget(Some(1), 2);
    assert_eq!(context.get_layout(2), Some(r));
}

#[test]
fn spawn_without_parent_is_always_new() {
    let mut context = KayakRootContext::new(0);
    assert_eq!(context.spawn_widget(None, None), fresh(0));
    assert_eq!(context.spawn_widget(None, None), fresh(1));
    assert_eq!(context.spawn_widget(Some("k"), None), fresh(2));
    assert_eq!(context.spawn_widget(Some("k"), None), fresh(3));
    assert_eq!(context.next_id, 4);
    assert!(context.unique_ids.is_empty());
    assert!(context.index.is_empty());
}

#[test]
fn spawn_counts_unkeyed_children() {
    let mut context = KayakRootContext::new(0);
    let parent = context.spawn_widget(None, None).unwrap().node;
    assert_eq!(context.get_and_add_index(parent), 0);
    assert_eq!(context.get_and_add_index(parent), 1);
    assert_eq!(context.get_and_add_index(parent), 2);
    assert_eq!(context.get_and_add_index(99), 0);
    context.clear_indices();
    assert_eq!(context.get_and_add_index(parent), 0);
    assert_eq!(*context.index.get(&parent).unwrap(), 1);
}

#[test]
fn unkeyed_children_are_taken_up_by_position() {
    let mut context = KayakRootContext::new(0);
    let parent = context.spawn_widget(None, None).unwrap().node;
    // First frame: two new children.
    let a = context.spawn_widget(None, Some(parent));
    let b = context.spawn_widget(None, Some(parent));
    assert_eq!(a, fresh(1));
    assert_eq!(b, fresh(2));
    assert_eq!(context.get_children_ordered(parent), vec![1, 2]);
    // Second frame: the same positions give the same handles, a third
    // position a new one.
    context.clear_indices();
    assert_eq!(context.spawn_widget(None, Some(parent)), again(1));
    assert_eq!(context.spawn_widget(None, Some(parent)), again(2));
    assert_eq!(context.spawn_widget(None, Some(parent)), fresh(3));
    assert_eq!(context.get_children_ordered(parent), vec![1, 2, 3]);
}

#[test]
fn keyed_children_keep_their_handle_wherever_they_stand() {
    let mut context = KayakRootContext::new(0);
    let parent = context.spawn_widget(None, None).unwrap().node;
    let a = context.spawn_widget(Some("a"), Some(parent)).unwrap();
    let b = context.spawn_widget(Some("b"), Some(parent)).unwrap();
    assert_eq!((a.node, a.reused), (1, false));
    assert_eq!((b.node, b.reused), (2, false));
    // Keyed children are not part of the spawn order and do not count.
    assert_eq!(context.get_children_ordered(parent), Vec::<u64>::new());
    assert!(context.index.is_empty());
    assert_eq!(*context.unique_ids_parents.get(&1).unwrap(), parent);
    context.clear_indices();
    assert_eq!(context.spawn_widget(Some("b"), Some(parent)), again(2));
    assert_eq!(context.spawn_widget(Some("a"), Some(parent)), again(1));
    // The same key under another parent is another child.
    assert_eq!(context.spawn_widget(Some("a"), Some(2)), fresh(3));
}

#[test]
fn swapped_keys_are_moved_not_replaced() {
    let mut context = KayakRootContext::new(0);
    let parent = context.spawn_widget(None, None).unwrap().node;
    context.add_widget(None, parent);
    let a = context.spawn_widget(Some("a"), Some(parent)).unwrap().node;
    let b = context.spawn_widget(Some("b"), Some(parent)).unwrap().node;
    let first = diff(parent, &context.tree.children(parent), &vec![a, b]);
    context.tree.merge(parent, &first);
    assert_eq!(context.tree.children(parent), vec![a, b]);
    // Next frame the keys come in the other order.
    context.clear_indices();
    let b2 = context.spawn_widget(Some("b"), Some(parent)).unwrap().node;
    let a2 = context.spawn_widget(Some("a"), Some(parent)).unwrap().node;
    assert_eq!((a2, b2), (a, b));
    let script = diff(parent, &context.tree.children(parent), &vec![b2, a2]);
    let verdicts: Vec<(u64, Change)> = script.changes.iter().map(|c| (c.node, c.change)).collect();
    assert_eq!(verdicts, vec![(b, Change::Moved), (a, Change::Moved)]);
    context.tree.merge(parent, &script);
    assert_eq!(context.tree.children(parent), vec![b, a]);
}

#[test]
fn spawn_runs_out_of_handles() {
    let mut context = KayakRootContext::new(0);
    context.next_id = u64::MAX - 1;
    assert_eq!(context.spawn_widget(None, None), fresh(u64::MAX - 1));
    assert_eq!(context.next_id, u64::MAX);
    assert_eq!(context.spawn_widget(None, None), None);
    assert_eq!(context.spawn_widget(Some("k"), Some(1)), None);
    assert_eq!(context.next_id, u64::MAX);
    assert!(context.unique_ids.is_empty());
}

#[test]
fn registry_finds_what_was_registered() {
    let mut context = KayakRootContext::new(0);
    context.add_widget_system("Button", 10, 11);
    context.add_widget_system("Text", 20, 21);
    assert_eq!(
        context.widget_systems("Button").unwrap(),
        SystemPair { update: 10, render: 11 }
    );
    assert_eq!(context.widget_systems("Text").unwrap(), SystemPair { update: 20, render: 21 });
    assert_eq!(context.uninitialized_systems, vec!["Button".to_string(), "Text".to_string()]);
    // A second registration replaces the first.
    context.add_widget_system("Button", 30, 31);
    assert_eq!(
        context.widget_systems("Button").unwrap(),
        SystemPair { update: 30, render: 31 }
    );
    assert_eq!(context.systems.len(), 2);
}

#[test]
fn unregistered_type_is_a_configuration_error() {
    let mut context = KayakRootContext::new(0);
    context.add_widget_system("Button", 10, 11);
    let err = context.widget_systems("Slider").unwrap_err();
    assert_eq!(err.widget_type, "Slider");
    let systems = WidgetSystems::new();
    assert!(systems.get("Button").is_none());
    assert_eq!(systems.dispatch("Button").unwrap_err().widget_type, "Button");
}

#[test]
fn widget_data_is_appended() {
    let mut context = KayakRootContext::new(0);
    context.add_widget_data("ButtonProps", "ButtonState");
    context.add_widget_data("TextProps", "EmptyState");
    assert_eq!(context.data_kinds.len(), 2);
    assert_eq!(context.data_kinds[0].props, "ButtonProps");
    assert_eq!(context.data_kinds[0].state, "ButtonState");
    assert_eq!(context.data_kinds[1].props, "TextProps");
    assert_eq!(context.data_kinds[1].state, "EmptyState");
}

#[test]
fn context_entities_are_found_by_kind_and_parent() {
    let mut context = KayakRootContext::new(0);
    assert_eq!(context.get_context_entity(1, None), None);
    context.set_context_entity(1, None, 100);
    context.set_context_entity(1, Some(5), 101);
    context.set_context_entity(2, Some(5), 102);
    assert_eq!(context.get_context_entity(1, None), Some(100));
    assert_eq!(context.get_context_entity(1, Some(5)), Some(101));
    assert_eq!(context.get_context_entity(2, Some(5)), Some(102));
    assert_eq!(context.get_context_entity(2, None), None);
    context.set_context_entity(1, Some(5), 201);
    assert_eq!(context.get_context_entity(1, Some(5)), Some(201));
    assert_eq!(context.get_context_entity(1, None), Some(100));
    assert_eq!(context.context_entities.len(), 3);
}

#[test]
fn widget_name_defaults_and_conversions() {
    assert_eq!(WidgetName::default().0, "NO_NAME");
    let name = WidgetName::from(String::from("Button"));
    assert_eq!(name.0, "Button");
}

struct RegisterButtons;

impl KayakUIPlugin for RegisterButtons {
    fn build(&self, context: &mut KayakRootContext) {
        context.add_widget_system("Button", 1, 2);
    }
}

#[test]
fn plugins_run_their_setup() {
    let mut context = KayakRootContext::new(0);
    context.add_plugin(RegisterButtons);
    assert_eq!(context.widget_systems("Button").unwrap(), SystemPair { update: 1, render: 2 });
    context.max_opacity_layers = 1;
    context.add_plugin(UnifiedRenderPlugin);
    assert_eq!(context.max_opacity_layers, 5);
}

#[test]
fn icon_handles() {
    assert_eq!(EXPAND_LESS_HANDLE, 4238701051302568451);
    assert_eq!(EXPAND_MORE_HANDLE, 9116091369991258337);
    assert_eq!(IconsPlugin.handles(), [4238701051302568451, 9116091369991258337]);
}

#[test]
fn child_count_stops_at_the_largest_number() {
    let mut context = KayakRootContext::new(0);
    context.index.insert(4, u64::MAX - 1);
    assert_eq!(context.get_and_add_index(4), u64::MAX - 1);
    assert_eq!(context.get_and_add_index(4), u64::MAX);
    assert_eq!(context.get_and_add_index(4), u64::MAX);
    assert_eq!(KayakRootContext::default().camera_entity, 0);
}
