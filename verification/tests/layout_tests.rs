use kayak_ui::calculate_nodes::{
    calculate_layout, calculate_nodes, calculate_ui, find_not_empty_parent, text_requests,
    TextMeasurement, TextRequest, UiStage, LAYOUT_PASSES, UNBOUNDED_WIDTH,
};
use kayak_ui::context::KayakRootContext;
use kayak_ui::layout::{LayoutCache, LayoutResult, Rect};
use kayak_ui::store::WidgetStore;
use kayak_ui::styles::{Edge, KStyle, RenderCommand, StyleProp, Units};
use kayak_ui::tree::Tree;
use std::collections::HashMap;

fn rect(x: i32, y: i32, w: i32, h: i32) -> Rect {
    Rect { posx: x, posy: y, width: w, height: h, z_index: 0 }
}

fn solved(node: u64, r: Rect) -> LayoutResult {
    LayoutResult { node, rect: r }
}

fn style(kind: RenderCommand) -> KStyle {
    let mut s = KStyle::new_default();
    s.render_command = StyleProp::Value(kind);
    s
}

/// root 1 (visual, 200 x 100) -> 2 (layout) -> 3 (text), and 1 -> 4 (visual)
fn scene() -> (KayakRootContext, WidgetStore) {
    let mut context = KayakRootContext::new(0);
    let mut store = WidgetStore::new();
    context.add_widget(None, 1);
    context.add_widget(Some(1), 2);
    context.add_widget(Some(2), 3);
    context.add_widget(Some(1), 4);
    let mut root = style(RenderCommand::Visual);
    root.width = StyleProp::Value(Units::Pixels(200));
    root.height = StyleProp::Value(Units::Pixels(100));
    root.color = StyleProp::Value(9);
    store.styles.insert(1, root);
    store.styles.insert(2, style(RenderCommand::Layout));
    let mut text = style(RenderCommand::Text { word_wrap: true });
    text.color = StyleProp::Inherit;
    store.styles.insert(3, text);
    store.styles.insert(4, style(RenderCommand::Visual));
    for id in 1..=4 {
        store.dirty.insert(id);
    }
    (context, store)
}

#[test]
fn layout_cache_basics() {
    let mut cache = LayoutCache::new();
    assert_eq!(cache.get(1), None);
    cache.add(1);
    assert_eq!(cache.get(1), Some(rect(0, 0, 0, 0)));
    assert_eq!(Rect::default(), rect(0, 0, 0, 0));
    cache.set(1, rect(1, 2, 3, 4));
    cache.add(1);
    assert_eq!(cache.get(1), Some(rect(1, 2, 3, 4)));
    assert!(!cache.geometry_changed(1));
    cache.remove(1);
    assert_eq!(cache.get(1), None);
}

#[test]
fn layout_pass_marks_what_changed() {
    let mut tree = Tree::new();
    tree.add(1, None);
    tree.add(2, Some(1));
    tree.add(3, Some(2));
    tree.add(4, Some(1));
    let mut cache = LayoutCache::new();
    for id in 1..=4 {
        cache.set(id, rect(0, 0, 10, 10));
    }
    let affected = cache.update(
        &tree,
        &vec![
            solved(1, rect(0, 0, 10, 10)),
            solved(2, rect(0, 0, 20, 10)),
            solved(3, rect(0, 0, 10, 10)),
            solved(4, rect(5, 0, 10, 10)),
        ],
    );
    // Only 2 has a changed rectangle with something below it.
    assert_eq!(affected, vec![3]);
    assert!(!cache.geometry_changed(1));
    assert!(cache.geometry_changed(2));
    assert!(!cache.geometry_changed(3));
    assert!(cache.geometry_changed(4));
    assert_eq!(cache.get(2), Some(rect(0, 0, 20, 10)));
    assert_eq!(cache.get(4), Some(rect(5, 0, 10, 10)));
    // The next pass forgets the marks of this one.
    let affected = cache.update(&tree, &vec![solved(1, rect(0, 0, 11, 10))]);
    assert_eq!(affected, vec![2, 3, 4]);
    assert!(cache.geometry_changed(1));
    assert!(!cache.geometry_changed(2));
    assert!(!cache.geometry_changed(4));
}

#[test]
fn changed_parent_rect_dirties_all_descendants() {
    let (mut context, mut store) = scene();
    for id in 1..=4 {
        context.layout_cache.set(id, rect(0, 0, 200, 100));
        store.dirty.remove(id);
    }
    // Only the width of the root changes; nothing else about any node does.
    calculate_layout(
        &mut context,
        &mut store,
        &vec![
            solved(1, rect(0, 0, 150, 100)),
            solved(2, rect(0, 0, 200, 100)),
            solved(3, rect(0, 0, 200, 100)),
            solved(4, rect(0, 0, 200, 100)),
        ],
    );
    assert_eq!(store.dirty.ordered(), vec![2, 3, 4]);
    assert!(context.get_geometry_changed(1));
    assert!(!context.get_geometry_changed(2));
    assert_eq!(context.get_layout(1), Some(rect(0, 0, 150, 100)));
}

#[test]
fn unchanged_rects_dirty_nothing() {
    let (mut context, mut store) = scene();
    for id in 1..=4 {
        context.layout_cache.set(id, rect(0, 0, 200, 100));
        store.dirty.remove(id);
    }
    calculate_layout(
        &mut context,
        &mut store,
        &vec![solved(1, rect(0, 0, 200, 100)), solved(4, rect(0, 0, 200, 100))],
    );
    assert_eq!(store.dirty.ordered(), Vec::<u64>::new());
    assert!(!context.get_geometry_changed(1));
}

#[test]
fn find_not_empty_parent_skips_empty_and_layout_nodes() {
    let (context, store) = scene();
    assert_eq!(find_not_empty_parent(&context.tree, &store.styles, 3), Some(1));
    assert_eq!(find_not_empty_parent(&context.tree, &store.styles, 2), Some(1));
    assert_eq!(find_not_empty_parent(&context.tree, &store.styles, 1), None);
    assert_eq!(find_not_empty_parent(&context.tree, &store.styles, 99), None);
    let mut styles = HashMap::new();
    styles.insert(1, style(RenderCommand::Empty));
    styles.insert(2, style(RenderCommand::Clip));
    assert_eq!(find_not_empty_parent(&context.tree, &styles, 3), Some(2));
    styles.remove(&2);
    // A node without a style is passed over, as an empty one is.
    assert_eq!(find_not_empty_parent(&context.tree, &styles, 3), None);
}

#[test]
fn text_requests_ask_for_the_box_of_the_reference_node() {
    let (mut context, store) = scene();
    let requests = text_requests(&mut context, &store);
    assert_eq!(
        requests,
        vec![TextRequest {
            node: 3,
            font: 0,
            font_size: 14,
            line_height: 16,
            max_width: 200,
            max_height: 100,
        }]
    );
    // The root was dirty: its rectangle is its own width and height.
    assert_eq!(context.get_layout(1), Some(rect(0, 0, 200, 100)));
}

#[test]
fn text_request_takes_the_border_off_and_follows_the_font_size() {
    let (mut context, mut store) = scene();
    let mut root = *store.styles.get(&1).unwrap();
    root.border = StyleProp::Value(Edge { top: 1, right: 2, bottom: 3, left: 4 });
    store.styles.insert(1, root);
    let mut text = *store.styles.get(&3).unwrap();
    text.font_size = StyleProp::Value(20);
    text.font = StyleProp::Value(7);
    store.styles.insert(3, text);
    let requests = text_requests(&mut context, &store);
    assert_eq!(
        requests,
        vec![TextRequest {
            node: 3,
            font: 7,
            font_size: 20,
            line_height: 24,
            max_width: 194,
            max_height: 96,
        }]
    );
    text.line_height = StyleProp::Value(31);
    store.styles.insert(3, text);
    assert_eq!(text_requests(&mut context, &store)[0].line_height, 31);
    // Six fifths of the font size, rounded down.
    text.line_height = StyleProp::Default;
    text.font_size = StyleProp::Value(17);
    store.styles.insert(3, text);
    assert_eq!(text_requests(&mut context, &store)[0].line_height, 20);
    // An inherited line height is the resolved one of the parent.
    text.line_height = StyleProp::Inherit;
    store.styles.insert(3, text);
    assert_eq!(text_requests(&mut context, &store)[0].line_height, 16);
}

#[test]
fn unwrapped_text_is_measured_unbounded() {
    let (mut context, mut store) = scene();
    let mut root = *store.styles.get(&1).unwrap();
    root.width = StyleProp::Value(Units::Pixels(50));
    store.styles.insert(1, root);
    store.styles.insert(3, style(RenderCommand::Text { word_wrap: false }));
    let requests = text_requests(&mut context, &store);
    assert_eq!(UNBOUNDED_WIDTH, 100000);
    assert_eq!(requests.len(), 1);
    assert_eq!(requests[0].max_width, 100000);
    assert_eq!(requests[0].max_height, 100);
    // The shaper measures 120 wide: the node takes that width, not 50.
    let mut measured = HashMap::new();
    measured.insert(3, TextMeasurement { width: 120, height: 16 });
    calculate_nodes(&mut context, &mut store, &measured);
    let node = store.nodes.get(&3).unwrap();
    assert_eq!(node.width, Units::Pixels(120));
    assert_eq!(node.height, Units::Pixels(16));
}

#[test]
fn text_with_a_given_width_keeps_it() {
    let (mut context, mut store) = scene();
    let mut text = style(RenderCommand::Text { word_wrap: true });
    text.width = StyleProp::Value(Units::Pixels(80));
    store.styles.insert(3, text);
    text_requests(&mut context, &store);
    let mut measured = HashMap::new();
    measured.insert(3, TextMeasurement { width: 120, height: 16 });
    calculate_nodes(&mut context, &mut store, &measured);
    let node = store.nodes.get(&3).unwrap();
    assert_eq!(node.width, Units::Pixels(80));
    assert_eq!(node.height, Units::Pixels(16));
}

#[test]
fn style_pass_takes_snapshots_of_dirty_nodes() {
    let (mut context, mut store) = scene();
    context.current_z = 9;
    let mut four = style(RenderCommand::Visual);
    four.opacity = StyleProp::Value(400);
    four.z_index = StyleProp::Value(3);
    store.styles.insert(4, four);
    let mut measured = HashMap::new();
    measured.insert(3, TextMeasurement { width: 60, height: 16 });
    calculate_nodes(&mut context, &mut store, &measured);
    assert_eq!(context.current_z, 0);
    assert_eq!(context.get_layout(1), Some(rect(0, 0, 200, 100)));
    let root = store.nodes.get(&1).unwrap();
    assert_eq!(root.id, 1);
    assert_eq!(root.children, vec![2, 4]);
    assert_eq!(root.opacity, 1000);
    assert_eq!(root.z, 0);
    assert_eq!(root.old_z, 0);
    assert_eq!(root.width, Units::Pixels(200));
    assert_eq!(root.resolved_styles.color, StyleProp::Value(9));
    assert_eq!(root.raw_styles, Some(*store.styles.get(&1).unwrap()));
    let text = store.nodes.get(&3).unwrap();
    // The colour comes down from the root through the layout node, whose
    // own colour is the initial one.
    assert_eq!(text.resolved_styles.color, StyleProp::Value(0xffff_ffff));
    assert_eq!(text.width, Units::Pixels(60));
    assert_eq!(text.children, Vec::<u64>::new());
    let four = store.nodes.get(&4).unwrap();
    assert_eq!(four.opacity, 400);
    assert_eq!(four.z, 3);
    assert_eq!(four.width, Units::Stretch(1));
    // The text was measured against a dirty node and stays dirty; the
    // others are done.
    assert_eq!(store.dirty.ordered(), vec![3]);
}

#[test]
fn inherit_reads_the_parent_resolved_in_the_same_pass() {
    let (mut context, mut store) = scene();
    let mut two = style(RenderCommand::Layout);
    two.color = StyleProp::Inherit;
    store.styles.insert(2, two);
    calculate_nodes(&mut context, &mut store, &HashMap::new());
    assert_eq!(store.nodes.get(&2).unwrap().resolved_styles.color, StyleProp::Value(9));
    assert_eq!(store.nodes.get(&3).unwrap().resolved_styles.color, StyleProp::Value(9));
    // Next frame only the text is dirty: it reads the parent's snapshot.
    let mut root = *store.styles.get(&1).unwrap();
    root.color = StyleProp::Value(5);
    store.styles.insert(1, root);
    calculate_nodes(&mut context, &mut store, &HashMap::new());
    assert_eq!(store.nodes.get(&3).unwrap().resolved_styles.color, StyleProp::Value(9));
    // Once root and layout node are dirty too, the new colour comes down.
    store.dirty.insert(1);
    store.dirty.insert(2);
    calculate_nodes(&mut context, &mut store, &HashMap::new());
    assert_eq!(store.nodes.get(&3).unwrap().resolved_styles.color, StyleProp::Value(5));
    assert_eq!(store.nodes.get(&3).unwrap().old_z, 0);
}

#[test]
fn text_settles_when_its_reference_is_clean_and_measured() {
    let (mut context, mut store) = scene();
    let mut measured = HashMap::new();
    measured.insert(3, TextMeasurement { width: 60, height: 16 });
    calculate_nodes(&mut context, &mut store, &measured);
    assert_eq!(store.dirty.ordered(), vec![3]);
    // Second pass: the root is clean now.
    calculate_nodes(&mut context, &mut store, &measured);
    assert_eq!(store.dirty.ordered(), Vec::<u64>::new());
    // Without a measurement the text stays dirty.
    store.dirty.insert(3);
    calculate_nodes(&mut context, &mut store, &HashMap::new());
    assert_eq!(store.dirty.ordered(), vec![3]);
    assert_eq!(store.nodes.get(&3).unwrap().width, Units::Stretch(1));
    // So it does when the box of its reference changed in the last layout
    // pass, or is empty.
    calculate_layout(&mut context, &mut store, &vec![solved(1, rect(0, 0, 210, 100))]);
    calculate_nodes(&mut context, &mut store, &measured);
    assert!(store.dirty.contains(3));
    calculate_layout(&mut context, &mut store, &vec![solved(1, rect(0, 0, 210, 0))]);
    calculate_layout(&mut context, &mut store, &vec![]);
    store.dirty.remove(2);
    store.dirty.remove(4);
    calculate_nodes(&mut context, &mut store, &measured);
    assert_eq!(store.dirty.ordered(), vec![3]);
}

#[test]
fn style_pass_skips_nodes_that_are_not_in_the_tree() {
    let (mut context, mut store) = scene();
    store.dirty.insert(50);
    calculate_nodes(&mut context, &mut store, &HashMap::new());
    assert!(store.nodes.get(&50).is_none());
    assert_eq!(store.dirty.ordered(), vec![3, 50]);
}

#[test]
fn style_pass_without_root_does_nothing() {
    let mut context = KayakRootContext::new(0);
    let mut store = WidgetStore::new();
    store.dirty.insert(1);
    context.current_z = 4;
    calculate_nodes(&mut context, &mut store, &HashMap::new());
    assert_eq!(context.current_z, 0);
    assert!(store.nodes.is_empty());
    assert_eq!(store.dirty.ordered(), vec![1]);
}

#[test]
fn node_without_style_is_opaque_layout() {
    let mut context = KayakRootContext::new(0);
    let mut store = WidgetStore::new();
    context.add_widget(None, 1);
    store.dirty.insert(1);
    calculate_nodes(&mut context, &mut store, &HashMap::new());
    let node = store.nodes.get(&1).unwrap();
    assert_eq!(node.opacity, 1000);
    assert_eq!(node.resolved_styles, KStyle::initial());
    assert_eq!(context.get_layout(1), Some(rect(0, 0, 0, 0)));
    assert!(!store.is_dirty(1));
}

#[test]
fn a_frame_runs_two_rounds() {
    let (mut context, mut store) = scene();
    assert_eq!(LAYOUT_PASSES, 2);
    let mut pass = calculate_ui(&mut context, &store);
    assert_eq!((pass.round, pass.stage), (1, UiStage::Measure));
    assert_eq!(pass.requests.len(), 1);
    let mut measured = HashMap::new();
    measured.insert(3, TextMeasurement { width: 60, height: 16 });
    // Out of turn nothing happens.
    pass.solved(&mut context, &mut store, &vec![solved(1, rect(0, 0, 1, 1))]);
    assert_eq!((pass.round, pass.stage), (1, UiStage::Measure));
    assert_eq!(context.get_layout(1), Some(rect(0, 0, 200, 100)));
    pass.measured(&mut context, &mut store, &measured);
    assert_eq!((pass.round, pass.stage), (1, UiStage::Solve));
    pass.measured(&mut context, &mut store, &measured);
    assert_eq!((pass.round, pass.stage), (1, UiStage::Solve));
    pass.solved(&mut context, &mut store, &vec![solved(3, rect(0, 0, 60, 16))]);
    assert_eq!((pass.round, pass.stage), (2, UiStage::Measure));
    assert_eq!(pass.requests.len(), 1);
    pass.measured(&mut context, &mut store, &measured);
    assert_eq!((pass.round, pass.stage), (2, UiStage::Solve));
    pass.solved(&mut context, &mut store, &vec![solved(3, rect(0, 0, 60, 16))]);
    assert_eq!((pass.round, pass.stage), (2, UiStage::Done));
    assert!(pass.requests.is_empty());
    pass.measured(&mut context, &mut store, &measured);
    pass.solved(&mut context, &mut store, &vec![]);
    assert_eq!((pass.round, pass.stage), (2, UiStage::Done));
    assert_eq!(store.dirty.ordered(), Vec::<u64>::new());
    assert_eq!(context.get_layout(3), Some(rect(0, 0, 60, 16)));
}

#[test]
fn text_box_is_kept_within_the_number_range() {
    let (mut context, mut store) = scene();
    let mut root = *store.styles.get(&1).unwrap();
    root.width = StyleProp::Value(Units::Pixels(i32::MAX));
    root.height = StyleProp::Value(Units::Pixels(i32::MIN));
    root.border = StyleProp::Value(Edge { top: 5, right: 0, bottom: 5, left: -10 });
    store.styles.insert(1, root);
    let requests = text_requests(&mut context, &store);
    assert_eq!(requests[0].max_width, i32::MAX);
    assert_eq!(requests[0].max_height, i32::MIN);
    // A font size that is not positive gives no line height of its own.
    let mut text = *store.styles.get(&3).unwrap();
    text.font_size = StyleProp::Value(-4);
    store.styles.insert(3, text);
    assert_eq!(text_requests(&mut context, &store)[0].line_height, 0);
    text.font_size = StyleProp::Value(i32::MAX);
    store.styles.insert(3, text);
    assert_eq!(text_requests(&mut context, &store)[0].line_height, i32::MAX);
}
