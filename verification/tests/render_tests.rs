use kayak_ui::context::KayakRootContext;
use kayak_ui::layout::{LayoutCache, Rect};
use kayak_ui::node::Node;
use kayak_ui::render_primitive::{
    extract_primitives, RenderPrimitive, MAX_OPACITY_LAYERS, OPACITY_EPSILON,
};
use kayak_ui::styles::{KStyle, RenderCommand, StyleProp, Units};
use kayak_ui::tree::Tree;
use std::collections::HashMap;

fn rect(x: i32, y: i32, w: i32, h: i32) -> Rect {
    Rect { posx: x, posy: y, width: w, height: h, z_index: 0 }
}

fn node(id: u64, kind: RenderCommand, opacity: u16, z: i32) -> Node {
    let mut style = KStyle::initial();
    style.render_command = StyleProp::Value(kind);
    Node {
        id,
        children: Vec::new(),
        resolved_styles: style,
        raw_styles: None,
        opacity,
        z,
        old_z: 0,
        width: Units::Auto,
        height: Units::Auto,
    }
}

struct Scene {
    tree: Tree,
    nodes: HashMap<u64, Node>,
    layout: LayoutCache,
}

impl Scene {
    fn new() -> Scene {
        Scene { tree: Tree::new(), nodes: HashMap::new(), layout: LayoutCache::new() }
    }

    fn put(&mut self, id: u64, parent: Option<u64>, kind: RenderCommand, opacity: u16, z: i32) {
        self.tree.add(id, parent);
        self.nodes.insert(id, node(id, kind, opacity, z));
        self.layout.set(id, rect(id as i32, 0, 10, 10));
    }

    fn paint(&self, max: u32) -> Vec<RenderPrimitive> {
        extract_primitives(&self.tree, &self.nodes, &self.layout, max)
    }
}

fn quad(id: u64, layer: u32) -> RenderPrimitive {
    RenderPrimitive::Quad { node: id, rect: rect(id as i32, 0, 10, 10), opacity_layer: layer }
}

#[test]
fn constants() {
    assert_eq!(MAX_OPACITY_LAYERS, 5);
    assert_eq!(OPACITY_EPSILON, 1);
}

#[test]
fn no_root_no_primitives() {
    let s = Scene::new();
    assert_eq!(s.paint(5), vec![]);
}

#[test]
fn opaque_nodes_paint_in_tree_order_without_layers() {
    let mut s = Scene::new();
    s.put(1, None, RenderCommand::Visual, 1000, 0);
    s.put(2, Some(1), RenderCommand::Visual, 1000, 0);
    s.put(3, Some(2), RenderCommand::Text { word_wrap: false }, 1000, 0);
    s.put(4, Some(1), RenderCommand::Layout, 1000, 0);
    s.put(5, Some(4), RenderCommand::Visual, 1000, 0);
    s.put(6, Some(1), RenderCommand::Empty, 1000, 0);
    assert_eq!(
        s.paint(5),
        vec![
            quad(1, 0),
            quad(2, 0),
            RenderPrimitive::Text { node: 3, rect: rect(3, 0, 10, 10), opacity_layer: 0 },
            quad(5, 0),
        ]
    );
}

#[test]
fn transparent_node_contributes_nothing_with_its_subtree() {
    let mut s = Scene::new();
    s.put(1, None, RenderCommand::Visual, 1000, 0);
    s.put(2, Some(1), RenderCommand::Visual, 0, 0);
    s.put(3, Some(2), RenderCommand::Visual, 1000, 0);
    s.put(4, Some(1), RenderCommand::Visual, 1000, 0);
    assert_eq!(s.paint(5), vec![quad(1, 0), quad(4, 0)]);
}

#[test]
fn translucent_node_gets_exactly_one_draw_layer() {
    let mut s = Scene::new();
    s.put(1, None, RenderCommand::Visual, 1000, 0);
    s.put(2, Some(1), RenderCommand::Visual, 500, 0);
    s.put(3, Some(2), RenderCommand::Visual, 1000, 0);
    s.put(4, Some(1), RenderCommand::Visual, 1000, 0);
    let out = s.paint(5);
    assert_eq!(
        out,
        vec![
            quad(1, 0),
            RenderPrimitive::OpacityLayer { layer: 1 },
            quad(2, 1),
            quad(3, 1),
            RenderPrimitive::DrawOpacityLayer { layer: 1, opacity: 500, rect: rect(1, 0, 10, 10) },
            quad(4, 0),
        ]
    );
    let draws = out
        .iter()
        .filter(|p| matches!(p, RenderPrimitive::DrawOpacityLayer { .. }))
        .count();
    assert_eq!(draws, 1);
}

#[test]
fn nested_translucent_nodes_nest_their_layers() {
    let mut s = Scene::new();
    s.put(1, None, RenderCommand::Visual, 900, 0);
    s.put(2, Some(1), RenderCommand::Visual, 800, 0);
    assert_eq!(
        s.paint(5),
        vec![
            RenderPrimitive::OpacityLayer { layer: 1 },
            quad(1, 1),
            RenderPrimitive::OpacityLayer { layer: 2 },
            quad(2, 2),
            RenderPrimitive::DrawOpacityLayer { layer: 2, opacity: 800, rect: rect(1, 0, 10, 10) },
            RenderPrimitive::DrawOpacityLayer { layer: 1, opacity: 900, rect: rect(1, 0, 10, 10) },
        ]
    );
}

#[test]
fn one_layer_too_many_skips_that_subtree_only() {
    // With at most 2 layers open, the third nested translucent subtree is
    // left out; its opaque sibling and the rest are painted as before.
    let mut s = Scene::new();
    s.put(1, None, RenderCommand::Visual, 900, 0);
    s.put(2, Some(1), RenderCommand::Visual, 800, 0);
    s.put(3, Some(2), RenderCommand::Visual, 700, 0);
    s.put(4, Some(3), RenderCommand::Visual, 1000, 0);
    s.put(5, Some(2), RenderCommand::Visual, 1000, 0);
    s.put(6, Some(1), RenderCommand::Visual, 600, 0);
    let root = rect(1, 0, 10, 10);
    let expected = vec![
        RenderPrimitive::OpacityLayer { layer: 1 },
        quad(1, 1),
        RenderPrimitive::OpacityLayer { layer: 2 },
        quad(2, 2),
        quad(5, 2),
        RenderPrimitive::DrawOpacityLayer { layer: 2, opacity: 800, rect: root },
        RenderPrimitive::OpacityLayer { layer: 2 },
        quad(6, 2),
        RenderPrimitive::DrawOpacityLayer { layer: 2, opacity: 600, rect: root },
        RenderPrimitive::DrawOpacityLayer { layer: 1, opacity: 900, rect: root },
    ];
    assert_eq!(s.paint(2), expected);
    // Taking the skipped subtree out of the tree changes nothing.
    s.tree.remove(3);
    assert_eq!(s.paint(2), expected);
}

#[test]
fn with_room_for_three_layers_the_third_is_painted() {
    let mut s = Scene::new();
    s.put(1, None, RenderCommand::Visual, 900, 0);
    s.put(2, Some(1), RenderCommand::Visual, 800, 0);
    s.put(3, Some(2), RenderCommand::Visual, 700, 0);
    let out = s.paint(3);
    assert_eq!(out.len(), 9);
    assert_eq!(out[5], quad(3, 3));
    assert_eq!(s.paint(0), vec![]);
}

#[test]
fn clip_brackets_its_subtree() {
    let mut s = Scene::new();
    s.put(1, None, RenderCommand::Clip, 1000, 0);
    s.put(2, Some(1), RenderCommand::Visual, 1000, 0);
    s.put(3, Some(1), RenderCommand::Clip, 1000, 0);
    s.put(4, Some(3), RenderCommand::Visual, 1000, 0);
    assert_eq!(
        s.paint(5),
        vec![
            RenderPrimitive::Clip { node: 1, rect: rect(1, 0, 10, 10) },
            quad(2, 0),
            RenderPrimitive::Clip { node: 3, rect: rect(3, 0, 10, 10) },
            quad(4, 0),
            RenderPrimitive::EndClip,
            RenderPrimitive::EndClip,
        ]
    );
}

#[test]
fn explicit_depth_opens_a_layer_before_the_node() {
    let mut s = Scene::new();
    s.put(1, None, RenderCommand::Visual, 1000, 0);
    s.put(2, Some(1), RenderCommand::Visual, 500, 7);
    s.put(3, Some(2), RenderCommand::Visual, 1000, -1);
    assert_eq!(
        s.paint(5),
        vec![
            quad(1, 0),
            RenderPrimitive::Layer { z: 7 },
            RenderPrimitive::OpacityLayer { layer: 1 },
            quad(2, 1),
            quad(3, 1),
            RenderPrimitive::DrawOpacityLayer { layer: 1, opacity: 500, rect: rect(1, 0, 10, 10) },
            RenderPrimitive::EndLayer,
        ]
    );
}

#[test]
fn node_without_layout_or_snapshot_is_skipped_with_its_subtree() {
    let mut s = Scene::new();
    s.put(1, None, RenderCommand::Visual, 1000, 0);
    s.put(2, Some(1), RenderCommand::Visual, 1000, 0);
    s.put(3, Some(2), RenderCommand::Visual, 1000, 0);
    s.put(4, Some(1), RenderCommand::Visual, 1000, 0);
    s.put(5, Some(4), RenderCommand::Visual, 1000, 0);
    s.layout.remove(2);
    s.nodes.remove(&4);
    assert_eq!(s.paint(5), vec![quad(1, 0)]);
}

#[test]
fn context_builds_the_same_list() {
    let mut context = KayakRootContext::new(0);
    let mut nodes = HashMap::new();
    context.add_widget(None, 1);
    context.add_widget(Some(1), 2);
    nodes.insert(1, node(1, RenderCommand::Visual, 1000, 0));
    nodes.insert(2, node(2, RenderCommand::Visual, 300, 0));
    let zero = Rect { posx: 0, posy: 0, width: 0, height: 0, z_index: 0 };
    assert_eq!(
        context.build_render_primitives(&nodes),
        vec![
            RenderPrimitive::Quad { node: 1, rect: zero, opacity_layer: 0 },
            RenderPrimitive::OpacityLayer { layer: 1 },
            RenderPrimitive::Quad { node: 2, rect: zero, opacity_layer: 1 },
            RenderPrimitive::DrawOpacityLayer { layer: 1, opacity: 300, rect: zero },
        ]
    );
}
