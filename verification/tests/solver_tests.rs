use kayak_ui::calculate_nodes::{calculate_layout, calculate_nodes};
use kayak_ui::context::KayakRootContext;
use kayak_ui::layout::{LayoutResult, Rect};
use kayak_ui::node::Node;
use kayak_ui::store::WidgetStore;
use kayak_ui::styles::{KStyle, LayoutType, RenderCommand, StyleProp, Units};
use kayak_ui::tree::Tree;
use morphorm::{Cache, GeometryChanged, Hierarchy};
use std::collections::HashMap;

/// A node of the scene tree, as the solver sees it.
#[derive(Clone, Copy, Debug, PartialEq, Eq)]
struct Id(u64);

fn to_solver(units: Units) -> morphorm::Units {
    match units {
        Units::Pixels(v) => morphorm::Units::Pixels(v as f32),
        Units::Percentage(v) => morphorm::Units::Percentage(v as f32),
        Units::Stretch(v) => morphorm::Units::Stretch(v as f32),
        Units::Auto => morphorm::Units::Auto,
    }
}

impl<'w> morphorm::Node<'w> for Id {
    type Data = HashMap<u64, Node>;

    fn layout_type(&self, store: &Self::Data) -> Option<morphorm::LayoutType> {
        let node = store.get(&self.0)?;
        Some(match node.resolved_styles.layout_type.resolve_or(LayoutType::Column) {
            LayoutType::Row => morphorm::LayoutType::Row,
            LayoutType::Column => morphorm::LayoutType::Column,
            LayoutType::Grid => morphorm::LayoutType::Grid,
        })
    }

    fn width(&self, store: &Self::Data) -> Option<morphorm::Units> {
        store.get(&self.0).map(|node| to_solver(node.width))
    }

    fn height(&self, store: &Self::Data) -> Option<morphorm::Units> {
        store.get(&self.0).map(|node| to_solver(node.height))
    }
}

struct Scene<'t> {
    tree: &'t Tree,
}

impl<'a, 't> Hierarchy<'a> for Scene<'t> {
    type Item = Id;
    type UpIter = std::vec::IntoIter<Id>;
    type DownIter = std::vec::IntoIter<Id>;
    type ChildIter = std::vec::IntoIter<Id>;

    fn up_iter(&'a self) -> Self::UpIter {
        let mut all: Vec<Id> = self.tree.down_iter().into_iter().map(Id).collect();
        all.reverse();
        all.into_iter()
    }

    fn down_iter(&'a self) -> Self::DownIter {
        let all: Vec<Id> = self.tree.down_iter().into_iter().map(Id).collect();
        all.into_iter()
    }

    fn child_iter(&'a self, node: Id) -> Self::ChildIter {
        let all: Vec<Id> = self.tree.children(node.0).into_iter().map(Id).collect();
        all.into_iter()
    }

    fn parent(&self, node: Id) -> Option<Id> {
        self.tree.parent(node.0).map(Id)
    }

    fn is_first_child(&self, node: Id) -> bool {
        match self.tree.parent(node.0) {
            Some(p) => self.tree.children(p).first() == Some(&node.0),
            None => false,
        }
    }

    fn is_last_child(&self, node: Id) -> bool {
        match self.tree.parent(node.0) {
            Some(p) => self.tree.children(p).last() == Some(&node.0),
            None => false,
        }
    }
}

#[derive(Clone, Copy, Default)]
struct Space {
    width: f32,
    height: f32,
    posx: f32,
    posy: f32,
    left: f32,
    right: f32,
    top: f32,
    bottom: f32,
    new_width: f32,
    new_height: f32,
    child_width_max: f32,
    child_width_sum: f32,
    child_height_max: f32,
    child_height_sum: f32,
    grid_row_max: f32,
    grid_col_max: f32,
    horizontal_free_space: f32,
    vertical_free_space: f32,
    horizontal_stretch_sum: f32,
    vertical_stretch_sum: f32,
    stack_first_child: bool,
    stack_last_child: bool,
}

#[derive(Default)]
struct Solved {
    space: HashMap<u64, Space>,
    changed: HashMap<u64, GeometryChanged>,
}

impl Solved {
    fn of(&self, node: Id) -> Space {
        self.space.get(&node.0).copied().unwrap_or_default()
    }

    fn at(&mut self, node: Id) -> &mut Space {
        self.space.entry(node.0).or_default()
    }

    fn results(&self, tree: &Tree) -> Vec<LayoutResult> {
        tree.down_iter()
            .into_iter()
            .map(|id| {
                let s = self.of(Id(id));
                LayoutResult {
                    node: id,
                    rect: Rect {
                        posx: s.posx.round() as i32,
                        posy: s.posy.round() as i32,
                        width: s.width.round() as i32,
                        height: s.height.round() as i32,
                        z_index: 0,
                    },
                }
            })
            .collect()
    }
}

impl Cache for Solved {
    type Item = Id;

    fn geometry_changed(&self, node: Id) -> GeometryChanged {
        self.changed.get(&node.0).copied().unwrap_or(GeometryChanged::empty())
    }

    fn visible(&self, _node: Id) -> bool {
        true
    }

    fn width(&self, node: Id) -> f32 {
        self.of(node).width
    }

    fn height(&self, node: Id) -> f32 {
        self.of(node).height
    }

    fn posx(&self, node: Id) -> f32 {
        self.of(node).posx
    }

    fn posy(&self, node: Id) -> f32 {
        self.of(node).posy
    }

    fn left(&self, node: Id) -> f32 {
        self.of(node).left
    }

    fn right(&self, node: Id) -> f32 {
        self.of(node).right
    }

    fn top(&self, node: Id) -> f32 {
        self.of(node).top
    }

    fn bottom(&self, node: Id) -> f32 {
        self.of(node).bottom
    }

    fn new_width(&self, node: Id) -> f32 {
        self.of(node).new_width
    }

    fn new_height(&self, node: Id) -> f32 {
        self.of(node).new_height
    }

    fn child_width_max(&self, node: Id) -> f32 {
        self.of(node).child_width_max
    }

    fn child_width_sum(&self, node: Id) -> f32 {
        self.of(node).child_width_sum
    }

    fn child_height_max(&self, node: Id) -> f32 {
        self.of(node).child_height_max
    }

    fn child_height_sum(&self, node: Id) -> f32 {
        self.of(node).child_height_sum
    }

    fn grid_row_max(&self, node: Id) -> f32 {
        self.of(node).grid_row_max
    }

    fn set_grid_row_max(&mut self, node: Id, value: f32) {
        self.at(node).grid_row_max = value;
    }

    fn grid_col_max(&self, node: Id) -> f32 {
        self.of(node).grid_col_max
    }

    fn set_grid_col_max(&mut self, node: Id, value: f32) {
        self.at(node).grid_col_max = value;
    }

    fn set_visible(&mut self, _node: Id, _value: bool) {}

    fn set_geo_changed(&mut self, node: Id, flag: GeometryChanged, value: bool) {
        self.changed.entry(node.0).or_insert(GeometryChanged::empty()).set(flag, value);
    }

    fn set_child_width_sum(&mut self, node: Id, value: f32) {
        self.at(node).child_width_sum = value;
    }

    fn set_child_height_sum(&mut self, node: Id, value: f32) {
        self.at(node).child_height_sum = value;
    }

    fn set_child_width_max(&mut self, node: Id, value: f32) {
        self.at(node).child_width_max = value;
    }

    fn set_child_height_max(&mut self, node: Id, value: f32) {
        self.at(node).child_height_max = value;
    }

    fn horizontal_free_space(&self, node: Id) -> f32 {
        self.of(node).horizontal_free_space
    }

    fn set_horizontal_free_space(&mut self, node: Id, value: f32) {
        self.at(node).horizontal_free_space = value;
    }

    fn vertical_free_space(&self, node: Id) -> f32 {
        self.of(node).vertical_free_space
    }

    fn set_vertical_free_space(&mut self, node: Id, value: f32) {
        self.at(node).vertical_free_space = value;
    }

    fn horizontal_stretch_sum(&self, node: Id) -> f32 {
        self.of(node).horizontal_stretch_sum
    }

    fn set_horizontal_stretch_sum(&mut self, node: Id, value: f32) {
        self.at(node).horizontal_stretch_sum = value;
    }

    fn vertical_stretch_sum(&self, node: Id) -> f32 {
        self.of(node).vertical_stretch_sum
    }

    fn set_vertical_stretch_sum(&mut self, node: Id, value: f32) {
        self.at(node).vertical_stretch_sum = value;
    }

    fn set_width(&mut self, node: Id, value: f32) {
        self.at(node).width = value;
    }

    fn set_height(&mut self, node: Id, value: f32) {
        self.at(node).height = value;
    }

    fn set_posx(&mut self, node: Id, value: f32) {
        self.at(node).posx = value;
    }

    fn set_posy(&mut self, node: Id, value: f32) {
        self.at(node).posy = value;
    }

    fn set_left(&mut self, node: Id, value: f32) {
        self.at(node).left = value;
    }

    fn set_right(&mut self, node: Id, value: f32) {
        self.at(node).right = value;
    }

    fn set_top(&mut self, node: Id, value: f32) {
        self.at(node).top = value;
    }

    fn set_bottom(&mut self, node: Id, value: f32) {
        self.at(node).bottom = value;
    }

    fn set_new_width(&mut self, node: Id, value: f32) {
        self.at(node).new_width = value;
    }

    fn set_new_height(&mut self, node: Id, value: f32) {
        self.at(node).new_height = value;
    }

    fn stack_first_child(&self, node: Id) -> bool {
        self.of(node).stack_first_child
    }

    fn set_stack_first_child(&mut self, node: Id, value: bool) {
        self.at(node).stack_first_child = value;
    }

    fn stack_last_child(&self, node: Id) -> bool {
        self.of(node).stack_last_child
    }

    fn set_stack_last_child(&mut self, node: Id, value: bool) {
        self.at(node).stack_last_child = value;
    }
}

/// Runs the solver over the snapshots of the store, starting from the
/// rectangle that the style pass gave the root.
fn solve(context: &KayakRootContext, store: &WidgetStore) -> Vec<LayoutResult> {
    let mut solved = Solved::default();
    if let Some(root) = context.tree.root() {
        if let Some(rect) = context.get_layout(root) {
            let space = solved.at(Id(root));
            space.posx = rect.posx as f32;
            space.posy = rect.posy as f32;
            space.width = rect.width as f32;
            space.height = rect.height as f32;
        }
    }
    let scene = Scene { tree: &context.tree };
    morphorm::layout(&mut solved, &scene, &store.nodes);
    solved.results(&context.tree)
}

fn styled(width: Units, height: Units, layout: LayoutType) -> KStyle {
    let mut s = KStyle::new_default();
    s.render_command = StyleProp::Value(RenderCommand::Visual);
    s.width = StyleProp::Value(width);
    s.height = StyleProp::Value(height);
    s.layout_type = StyleProp::Value(layout);
    s
}

#[test]
fn two_stretch_children_share_the_width_of_their_parent() {
    let mut context = KayakRootContext::new(0);
    let mut store = WidgetStore::new();
    context.add_widget(None, 1);
    context.add_widget(Some(1), 2);
    context.add_widget(Some(1), 3);
    store.styles.insert(1, styled(Units::Pixels(200), Units::Pixels(80), LayoutType::Row));
    store.styles.insert(2, styled(Units::Stretch(1), Units::Stretch(1), LayoutType::Column));
    store.styles.insert(3, styled(Units::Stretch(1), Units::Stretch(1), LayoutType::Column));
    for id in 1..=3 {
        store.dirty.insert(id);
    }
    calculate_nodes(&mut context, &mut store, &HashMap::new());
    let results = solve(&context, &store);
    calculate_layout(&mut context, &mut store, &results);
    let root = context.get_layout(1).unwrap();
    let left = context.get_layout(2).unwrap();
    let right = context.get_layout(3).unwrap();
    assert_eq!((root.width, root.height), (200, 80));
    assert_eq!(left.width, 100);
    assert_eq!(right.width, 100);
    assert_eq!((left.posx, right.posx), (0, 100));
    assert_eq!((left.height, right.height), (80, 80));
}

#[test]
fn a_column_gives_each_stretch_child_the_full_width() {
    let mut context = KayakRootContext::new(0);
    let mut store = WidgetStore::new();
    context.add_widget(None, 1);
    context.add_widget(Some(1), 2);
    context.add_widget(Some(1), 3);
    store.styles.insert(1, styled(Units::Pixels(200), Units::Pixels(80), LayoutType::Column));
    store.styles.insert(2, styled(Units::Stretch(1), Units::Stretch(1), LayoutType::Column));
    store.styles.insert(3, styled(Units::Stretch(1), Units::Pixels(20), LayoutType::Column));
    for id in 1..=3 {
        store.dirty.insert(id);
    }
    calculate_nodes(&mut context, &mut store, &HashMap::new());
    let results = solve(&context, &store);
    calculate_layout(&mut context, &mut store, &results);
    let top = context.get_layout(2).unwrap();
    let bottom = context.get_layout(3).unwrap();
    assert_eq!((top.width, top.height), (200, 60));
    assert_eq!((bottom.width, bottom.height, bottom.posy), (200, 20, 60));
    // The children got new rectangles, but nothing lies below them; the
    // root kept its rectangle: no node is marked dirty.
    assert_eq!(store.dirty.ordered(), Vec::<u64>::new());
}
