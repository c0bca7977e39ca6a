//! The style pass and the layout pass of a frame.
//!
//! The style pass takes a snapshot of every dirty node: its style after the
//! cascade, its opacity and depth, the box that the layout solver is to be
//! given. The layout pass takes the solver's rectangles into the cache and
//! marks what they invalidate.

use crate::context::KayakRootContext;
use crate::layout::{LayoutResult, Rect};
use crate::layout::LayoutCache;
use crate::node::{Node, NodeId, NodeModel};
use crate::node_set::NodeSet;
use crate::store::WidgetStore;
use crate::styles::{Edge, KStyle, RenderCommand, StyleProp, Units, OPAQUE};
use crate::tree::Tree;
use crate::tree_model::TreeModel;
use std::collections::HashMap;
use vstd::prelude::*;

verus! {

broadcast use vstd::std_specs::hash::group_hash_axioms;

/// The wrap width of text that does not wrap: wider than any line.
pub const UNBOUNDED_WIDTH: i32 = 100000;

/// The size that the text shaper measured for the text of a node.
#[derive(Clone, Copy, PartialEq, Eq, Structural, Debug)]
pub struct TextMeasurement {
    pub width: i32,
    pub height: i32,
}

/// What the text shaper is asked for a text node: the font, and the box
/// that the text may fill.
#[derive(Clone, Copy, PartialEq, Eq, Structural, Debug)]
pub struct TextRequest {
    pub node: NodeId,
    pub font: u64,
    pub font_size: i32,
    pub line_height: i32,
    pub max_width: i32,
    pub max_height: i32,
}

/// `x` brought into the range of `i32`.
pub open spec fn clamp(x: int) -> i32 {
    if x < i32::MIN {
        i32::MIN
    } else if x > i32::MAX {
        i32::MAX
    } else {
        x as i32
    }
}

fn clamp_i64(x: i64) -> (r: i32)
    ensures
        r == clamp(x as int),
{
    if x < -2147483648 {
        -2147483648
    } else if x > 2147483647 {
        2147483647
    } else {
        x as i32
    }
}

/// The nodes that paint a box of their own: text in a box is measured
/// against the nearest of them above it.
pub open spec fn visible_nodes(styles: Map<NodeId, KStyle>) -> Set<NodeId> {
    Set::new(|p: NodeId| styles.contains_key(p) && !styles[p].render_kind().is_invisible())
}

/// The style of a node that was given none.
pub open spec fn default_styles() -> KStyle {
    KStyle {
        render_command: StyleProp::Default,
        layout_type: StyleProp::Default,
        width: StyleProp::Default,
        height: StyleProp::Default,
        border: StyleProp::Default,
        opacity: StyleProp::Value(OPAQUE),
        z_index: StyleProp::Default,
        color: StyleProp::Default,
        background_color: StyleProp::Default,
        font: StyleProp::Default,
        font_size: StyleProp::Default,
        line_height: StyleProp::Default,
    }
}

/// The line height that goes with a font size where none is given: six
/// fifths of the size, rounded down.
pub open spec fn line_height_for(font_size: i32) -> i32 {
    if font_size > 0 {
        clamp(font_size * 6 / 5)
    } else {
        0
    }
}

/// All that the style pass reads.
pub struct StylePass {
    pub tree: TreeModel,
    pub rects: Map<NodeId, Rect>,
    /// The nodes whose rectangle the last layout pass changed.
    pub changed: Set<NodeId>,
    pub styles: Map<NodeId, KStyle>,
    pub nodes: Map<NodeId, Node>,
    pub dirty: Set<NodeId>,
    pub measurements: Map<NodeId, TextMeasurement>,
}

impl StylePass {
    /// The pass takes a snapshot of the dirty nodes that are in the tree.
    pub open spec fn processed(self, n: NodeId) -> bool {
        self.dirty.contains(n) && self.tree.contains(n)
    }

    /// The style of `n` as authored; a node that was given none is opaque and
    /// otherwise undecided.
    pub open spec fn raw(self, n: NodeId) -> KStyle {
        if self.styles.contains_key(n) {
            self.styles[n]
        } else {
            default_styles()
        }
    }

    /// The resolved style of `p` as the frame before left it.
    pub open spec fn cached(self, p: NodeId) -> KStyle {
        if self.nodes.contains_key(p) {
            self.nodes[p].resolved_styles
        } else {
            KStyle::initial_style()
        }
    }

    /// The resolved style that `n` inherits from: that of its parent, as
    /// this pass resolves it where the parent is dirty, else as the frame
    /// before left it; the initial style for a node without a parent.
    pub open spec fn parent_style(self, n: NodeId, fuel: nat) -> KStyle
        decreases fuel, 0nat,
    {
        match self.tree.parent_of(n) {
            None => KStyle::initial_style(),
            Some(p) => if fuel > 0 && self.processed(p) {
                self.resolved(p, (fuel - 1) as nat)
            } else {
                self.cached(p)
            },
        }
    }

    /// The style of `n` after the cascade, looking up at most `fuel` dirty
    /// ancestors.
    pub open spec fn resolved(self, n: NodeId, fuel: nat) -> KStyle
        decreases fuel, 1nat,
    {
        self.raw(n).cascaded(self.parent_style(n, fuel))
    }

    /// The style of `n` after the cascade.
    pub open spec fn style_of(self, n: NodeId) -> KStyle {
        self.resolved(n, self.tree.parents.len())
    }

    /// The rectangles that text is measured against: those of the cache,
    /// with the root's set to its own width and height at the origin where
    /// the root is dirty.
    pub open spec fn seeded_rects(self) -> Map<NodeId, Rect> {
        match self.tree.root {
            Some(root) => if self.dirty.contains(root) {
                self.rects.insert(root, self.root_rect(root))
            } else {
                self.rects
            },
            None => self.rects,
        }
    }

    /// The root's own box at the origin: its width and height where they are
    /// absolute, 0 where they are not.
    pub open spec fn root_rect(self, root: NodeId) -> Rect {
        Rect {
            posx: 0,
            posy: 0,
            width: pixels_or_zero(self.style_of(root).width),
            height: pixels_or_zero(self.style_of(root).height),
            z_index: 0,
        }
    }

    /// The border of the node that text is measured against.
    pub open spec fn border_of(self, p: NodeId) -> Edge {
        if self.styles.contains_key(p) {
            self.styles[p].border.resolved_or(Edge { top: 0, right: 0, bottom: 0, left: 0 })
        } else {
            Edge { top: 0, right: 0, bottom: 0, left: 0 }
        }
    }

    /// The node whose box the text of `n` is measured against.
    pub open spec fn reference(self, n: NodeId) -> Option<NodeId> {
        self.tree.nearest_marked(n, visible_nodes(self.styles))
    }

    /// What the text shaper is asked for `n`: nothing unless `n` is text
    /// with a reference box that has a rectangle. The box is that of the
    /// reference node less its border; text that does not wrap may be as wide
    /// as it likes. The line height follows the font size unless one was
    /// given.
    pub open spec fn text_request(self, n: NodeId) -> Option<TextRequest> {
        let style = self.style_of(n);
        match style.render_command {
            StyleProp::Value(RenderCommand::Text { word_wrap }) => match self.reference(n) {
                Some(p) => if self.seeded_rects().contains_key(p) {
                    let rect = self.seeded_rects()[p];
                    let border = self.border_of(p);
                    let font_size = style.font_size.resolved_or(crate::styles::INITIAL_FONT_SIZE);
                    Some(
                        TextRequest {
                            node: n,
                            font: style.font.resolved_or(0),
                            font_size,
                            line_height: if self.raw(n).line_height is Default {
                                line_height_for(font_size)
                            } else {
                                style.line_height.resolved_or(line_height_for(font_size))
                            },
                            max_width: if word_wrap {
                                clamp(rect.width - border.left - border.right)
                            } else {
                                UNBOUNDED_WIDTH
                            },
                            max_height: clamp(rect.height - border.top - border.bottom),
                        },
                    )
                } else {
                    None
                },
                None => None,
            },
            _ => None,
        }
    }

    /// Whether `n` stays dirty for another pass. Text does when it could not
    /// be measured, when the box it was measured against is empty, changed
    /// in the last layout pass, or is itself dirty.
    pub open spec fn needs_layout(self, n: NodeId) -> bool {
        match self.style_of(n).render_command {
            StyleProp::Value(RenderCommand::Text { word_wrap }) => match self.text_request(n) {
                Some(request) => {
                    let p = self.reference(n)->0;
                    ||| !self.measurements.contains_key(n)
                    ||| request.max_width == 0
                    ||| request.max_height == 0
                    ||| self.changed.contains(p)
                    ||| self.dirty.contains(p)
                },
                None => true,
            },
            StyleProp::Value(_) => false,
            _ => true,
        }
    }

    /// The measured size of `n`, where `n` is text that was asked for and
    /// measured.
    pub open spec fn measured(self, n: NodeId) -> Option<TextMeasurement> {
        if self.text_request(n) is Some && self.measurements.contains_key(n) {
            Some(self.measurements[n])
        } else {
            None
        }
    }

    /// The snapshot that the pass takes of `n`.
    pub open spec fn snapshot(self, n: NodeId) -> NodeModel {
        let style = self.style_of(n);
        let raw = self.raw(n);
        NodeModel {
            id: n,
            children: self.tree.children_of(n),
            resolved_styles: style,
            raw_styles: Some(raw),
            opacity: style.opacity.resolved_or(OPAQUE),
            z: match style.z_index {
                StyleProp::Value(z) => z,
                _ => (-1i32),
            },
            old_z: if self.nodes.contains_key(n) {
                self.nodes[n].z
            } else {
                0
            },
            width: match self.measured(n) {
                Some(m) => if raw.width is Default {
                    Units::Pixels(m.width)
                } else {
                    style.width.resolved_or(Units::Auto)
                },
                None => style.width.resolved_or(Units::Auto),
            },
            height: match self.measured(n) {
                Some(m) => if raw.height is Default {
                    Units::Pixels(m.height)
                } else {
                    style.height.resolved_or(Units::Auto)
                },
                None => style.height.resolved_or(Units::Auto),
            },
        }
    }

    /// Where every snapshot of the frame before is fully resolved, so is
    /// every style that this pass resolves.
    pub proof fn lemma_resolved_concrete(self, n: NodeId, fuel: nat)
        requires
            forall|p: NodeId| #[trigger]
                self.nodes.contains_key(p) ==> self.nodes[p].resolved_styles.is_concrete(),
        ensures
            self.resolved(n, fuel).is_concrete(),
            self.parent_style(n, fuel).is_concrete(),
        decreases fuel,
    {
        match self.tree.parent_of(n) {
            None => {},
            Some(p) => {
                if fuel > 0 && self.processed(p) {
                    self.lemma_resolved_concrete(p, (fuel - 1) as nat);
                }
            },
        }
    }

    /// Text that does not wrap is measured in an unbounded width, however
    /// narrow the box above it, and takes the width so measured unless it
    /// was given one.
    pub proof fn lemma_unwrapped_text(self, n: NodeId)
        requires
            self.style_of(n).render_command == StyleProp::Value(
                RenderCommand::Text { word_wrap: false },
            ),
            self.text_request(n) is Some,
        ensures
            self.text_request(n)->0.max_width == UNBOUNDED_WIDTH,
            self.measurements.contains_key(n) && self.raw(n).width is Default ==> self.snapshot(
                n,
            ).width == Units::Pixels(self.measurements[n].width),
    {
    }
}

/// The length in pixels, 0 for a length that is not absolute.
pub open spec fn pixels_or_zero(width: StyleProp<Units>) -> i32 {
    match width {
        StyleProp::Value(Units::Pixels(v)) => v,
        _ => 0,
    }
}

/// The style pass over the state of the context and the store.
pub open spec fn style_pass(
    context: &KayakRootContext,
    store: &WidgetStore,
    measurements: Map<NodeId, TextMeasurement>,
) -> StylePass {
    StylePass {
        tree: context.tree@,
        rects: context.layout_cache@.rect,
        changed: context.layout_cache@.geometry_changed.dom(),
        styles: store.styles@,
        nodes: store.nodes@,
        dirty: store.dirty@,
        measurements,
    }
}

/// The nearest node above `node` that paints a box of its own: neither
/// `Empty` nor `Layout`, going by its computed style.
pub fn find_not_empty_parent(tree: &Tree, styles: &HashMap<NodeId, KStyle>, node: NodeId) -> (r:
    Option<NodeId>)
    requires
        tree@.wf(),
    ensures
        r == tree@.nearest_marked(node, visible_nodes(styles@)),
{
    let ghost t = tree@;
    let ghost marked = visible_nodes(styles@);
    let mut cur = node;
    let mut k: usize = 0;
    let bound = tree.len();
    proof {
        assert(t.ancestor_at(node, 0) == Some(node));
    }
    loop
        invariant
            t == tree@,
            t.wf(),
            marked == visible_nodes(styles@),
            t.ancestor_at(node, k as nat) == Some(cur),
            k <= t.parents.len(),
            bound == t.parents.len(),
            forall|j: nat| j <= k ==> !t.marked_at(node, marked, j),
        decreases t.parents.len() - k,
    {
        match tree.parent(cur) {
            None => {
                proof {
                    assert forall|j: nat| !t.marked_at(node, marked, j) by {
                        if j > k {
                            t.lemma_ancestor_compose(node, cur, k as nat, (j - k) as nat);
                            assert(k as nat + (j - k) as nat == j);
                            assert(t.ancestor_at(cur, (j - k) as nat) == None::<NodeId>);
                        }
                    }
                    t.lemma_nearest_marked_none(node, marked);
                }
                return None;
            },
            Some(p) => {
                proof {
                    t.lemma_ancestor_step(node, k as nat);
                    t.lemma_depth_bound(node, (k + 1) as nat);
                }
                let visible = match styles.get(&p) {
                    Some(style) => !style.render_command.resolve_or(RenderCommand::Empty).invisible(),
                    None => false,
                };
                if visible {
                    proof {
                        assert(t.marked_at(node, marked, (k + 1) as nat));
                        t.lemma_nearest_marked(node, marked, (k + 1) as nat);
                    }
                    return Some(p);
                }
                cur = p;
                k = k + 1;
            },
        }
    }
}

fn raw_style(styles: &HashMap<NodeId, KStyle>, n: NodeId) -> (r: KStyle)
    ensures
        r == if styles@.contains_key(n) {
            styles@[n]
        } else {
            default_styles()
        },
{
    match styles.get(&n) {
        Some(style) => *style,
        None => {
            let mut style = KStyle::new_default();
            style.opacity = StyleProp::Value(OPAQUE);
            style
        },
    }
}

fn cached_style(nodes: &HashMap<NodeId, Node>, p: NodeId) -> (r: KStyle)
    ensures
        r == if nodes@.contains_key(p) {
            nodes@[p].resolved_styles
        } else {
            KStyle::initial_style()
        },
{
    match nodes.get(&p) {
        Some(node) => node.resolved_styles,
        None => KStyle::initial(),
    }
}

fn resolve(
    tree: &Tree,
    styles: &HashMap<NodeId, KStyle>,
    nodes: &HashMap<NodeId, Node>,
    dirty: &NodeSet,
    n: NodeId,
    fuel: usize,
    Ghost(pass): Ghost<StylePass>,
) -> (r: KStyle)
    requires
        dirty.wf(),
        pass.tree == tree@,
        pass.styles == styles@,
        pass.nodes == nodes@,
        pass.dirty == dirty@,
    ensures
        r == pass.resolved(n, fuel as nat),
    decreases fuel,
{
    let raw = raw_style(styles, n);
    let parent_style = match tree.parent(n) {
        None => KStyle::initial(),
        Some(p) => {
            if fuel > 0 && dirty.contains(p) && tree.contains(p) {
                resolve(tree, styles, nodes, dirty, p, fuel - 1, Ghost(pass))
            } else {
                cached_style(nodes, p)
            }
        },
    };
    assert(parent_style == pass.parent_style(n, fuel as nat));
    raw.cascade(&parent_style)
}

fn pixels(width: StyleProp<Units>) -> (r: i32)
    ensures
        r == pixels_or_zero(width),
{
    match width {
        StyleProp::Value(Units::Pixels(v)) => v,
        _ => 0,
    }
}

/// The request for the text of `n`, given its resolved style.
fn request_for(
    tree: &Tree,
    layout: &LayoutCache,
    styles: &HashMap<NodeId, KStyle>,
    style: &KStyle,
    n: NodeId,
    Ghost(pass): Ghost<StylePass>,
) -> (r: Option<TextRequest>)
    requires
        tree@.wf(),
        pass.tree == tree@,
        pass.styles == styles@,
        layout@.rect == pass.seeded_rects(),
        *style == pass.style_of(n),
    ensures
        r == pass.text_request(n),
{
    match style.render_command {
        StyleProp::Value(RenderCommand::Text { word_wrap }) => {
            match find_not_empty_parent(tree, styles, n) {
                Some(p) => {
                    match layout.get(p) {
                        Some(rect) => {
                            let border = match styles.get(&p) {
                                Some(parent_style) => parent_style.border.resolve_or(Edge::all(0)),
                                None => Edge::all(0),
                            };
                            let font_size = style.font_size.resolve_or(
                                crate::styles::INITIAL_FONT_SIZE,
                            );
                            let default_line = if font_size > 0 {
                                clamp_i64(font_size as i64 * 6 / 5)
                            } else {
                                0
                            };
                            let line_height = if raw_style(styles, n).line_height.is_default() {
                                default_line
                            } else {
                                style.line_height.resolve_or(default_line)
                            };
                            let max_width = if word_wrap {
                                clamp_i64(rect.width as i64 - border.left as i64 - border.right as i64)
                            } else {
                                UNBOUNDED_WIDTH
                            };
                            let max_height = clamp_i64(
                                rect.height as i64 - border.top as i64 - border.bottom as i64,
                            );
                            Some(
                                TextRequest {
                                    node: n,
                                    font: style.font.resolve_or(0),
                                    font_size,
                                    line_height,
                                    max_width,
                                    max_height,
                                },
                            )
                        },
                        None => None,
                    }
                },
                None => None,
            }
        },
        _ => None,
    }
}

/// The snapshot of `n`, and whether `n` stays dirty.
fn snapshot_of(
    tree: &Tree,
    layout: &LayoutCache,
    styles: &HashMap<NodeId, KStyle>,
    nodes: &HashMap<NodeId, Node>,
    dirty: &NodeSet,
    measurements: &HashMap<NodeId, TextMeasurement>,
    n: NodeId,
    Ghost(pass): Ghost<StylePass>,
) -> (r: (Node, bool))
    requires
        tree@.wf(),
        dirty.wf(),
        pass.tree == tree@,
        pass.styles == styles@,
        pass.nodes == nodes@,
        pass.dirty == dirty@,
        pass.measurements == measurements@,
        pass.changed == layout@.geometry_changed.dom(),
        layout@.rect == pass.seeded_rects(),
    ensures
        r.0@ == pass.snapshot(n),
        r.1 == pass.needs_layout(n),
{
    let style = resolve(tree, styles, nodes, dirty, n, tree.len(), Ghost(pass));
    let raw = raw_style(styles, n);
    let request = request_for(tree, layout, styles, &style, n, Ghost(pass));
    let measurement: Option<TextMeasurement> = match request {
        Some(_) => match measurements.get(&n) {
            Some(m) => Some(*m),
            None => None,
        },
        None => None,
    };
    let needs_layout = match style.render_command {
        StyleProp::Value(RenderCommand::Text { word_wrap }) => {
            match request {
                Some(req) => {
                    let p = find_not_empty_parent(tree, styles, n);
                    match p {
                        Some(p) => measurement.is_none() || req.max_width == 0 || req.max_height
                            == 0 || layout.geometry_changed(p) || dirty.contains(p),
                        None => true,
                    }
                },
                None => true,
            }
        },
        StyleProp::Value(_) => false,
        _ => true,
    };
    let resolved_width = style.width.resolve_or(Units::Auto);
    let resolved_height = style.height.resolve_or(Units::Auto);
    let width = match measurement {
        Some(m) => if raw.width.is_default() {
            Units::Pixels(m.width)
        } else {
            resolved_width
        },
        None => resolved_width,
    };
    let height = match measurement {
        Some(m) => if raw.height.is_default() {
            Units::Pixels(m.height)
        } else {
            resolved_height
        },
        None => resolved_height,
    };
    let old_z = match nodes.get(&n) {
        Some(old) => old.z,
        None => 0,
    };
    let z = match style.z_index {
        StyleProp::Value(z) => z,
        _ => -1,
    };
    let node = Node {
        id: n,
        children: tree.children(n),
        resolved_styles: style,
        raw_styles: Some(raw),
        opacity: style.opacity.resolve_or(OPAQUE),
        z,
        old_z,
        width,
        height,
    };
    (node, needs_layout)
}

/// The requests for the nodes of `order`, in that order.
pub open spec fn requests_of(pass: StylePass, order: Seq<NodeId>) -> Seq<TextRequest>
    decreases order.len(),
{
    if order.len() == 0 {
        Seq::empty()
    } else {
        let front = requests_of(pass, order.drop_last());
        if pass.tree.contains(order.last()) && pass.text_request(order.last()) is Some {
            front.push(pass.text_request(order.last())->0)
        } else {
            front
        }
    }
}

/// Sets the root's rectangle to its own width and height where the root is
/// dirty.
fn seed_root(context: &mut KayakRootContext, store: &WidgetStore, Ghost(pass): Ghost<StylePass>)
    requires
        old(context).wf(),
        store.wf(),
        pass.tree == old(context).tree@,
        pass.rects == old(context).layout_cache@.rect,
        pass.styles == store.styles@,
        pass.nodes == store.nodes@,
        pass.dirty == store.dirty@,
    ensures
        final(context).same_but_layout(old(context)),
        final(context).current_z == old(context).current_z,
        final(context).layout_cache@.rect == pass.seeded_rects(),
        final(context).layout_cache@.geometry_changed == old(context).layout_cache@.geometry_changed,
{
    match context.tree.root() {
        Some(root) => {
            if store.dirty.contains(root) {
                let style = resolve(
                    &context.tree,
                    &store.styles,
                    &store.nodes,
                    &store.dirty,
                    root,
                    context.tree.len(),
                    Ghost(pass),
                );
                let rect = Rect {
                    posx: 0,
                    posy: 0,
                    width: pixels(style.width),
                    height: pixels(style.height),
                    z_index: 0,
                };
                context.layout_cache.set(root, rect);
            }
        },
        None => {},
    }
}

/// What the text shaper is to be asked before the style pass: one request
/// for each dirty text node in the tree that has a box to be measured
/// against, in the order of the dirty set. The root's rectangle is set to its
/// own width and height first, where the root is dirty.
pub fn text_requests(context: &mut KayakRootContext, store: &WidgetStore) -> (r: Vec<TextRequest>)
    requires
        old(context).wf(),
        store.wf(),
    ensures
        final(context).wf(),
        final(context).same_but_layout(old(context)),
        final(context).current_z == old(context).current_z,
        final(context).layout_cache@.geometry_changed == old(context).layout_cache@.geometry_changed,
        final(context).layout_cache@.rect == style_pass(
            old(context),
            store,
            Map::empty(),
        ).seeded_rects(),
        r@ == requests_of(style_pass(old(context), store, Map::empty()), store.dirty.order()),
{
    let ghost pass = style_pass(old(context), store, Map::empty());
    seed_root(context, store, Ghost(pass));
    let order = store.dirty.ordered();
    let mut out: Vec<TextRequest> = Vec::new();
    let mut i: usize = 0;
    assert(order@.take(0) =~= Seq::<NodeId>::empty());
    while i < order.len()
        invariant
            i <= order.len(),
            context.wf(),
            store.wf(),
            pass.tree == context.tree@,
            pass.styles == store.styles@,
            pass.nodes == store.nodes@,
            pass.dirty == store.dirty@,
            context.layout_cache@.rect == pass.seeded_rects(),
            out@ == requests_of(pass, order@.take(i as int)),
        decreases order.len() - i,
    {
        let n = order[i];
        proof {
            let next = order@.take(i + 1);
            assert(next.drop_last() =~= order@.take(i as int));
            assert(next.last() == n);
        }
        if context.tree.contains(n) {
            let style = resolve(
                &context.tree,
                &store.styles,
                &store.nodes,
                &store.dirty,
                n,
                context.tree.len(),
                Ghost(pass),
            );
            match request_for(
                &context.tree,
                &context.layout_cache,
                &store.styles,
                &style,
                n,
                Ghost(pass),
            ) {
                Some(request) => {
                    out.push(request);
                },
                None => {},
            }
        }
        i = i + 1;
    }
    assert(order@.take(order.len() as int) =~= order@);
    out
}

/// `after` and `after_store` are what the style pass makes of `before` and
/// `before_store`. The running depth starts over. Without a root nothing
/// else happens. With one, the root's rectangle is set where the root is
/// dirty; every dirty node in the tree has its new snapshot and no other
/// snapshot is touched; and the dirty nodes that are left are those that
/// were passed over or need another pass.
pub open spec fn styled(
    before: &KayakRootContext,
    before_store: &WidgetStore,
    measurements: Map<NodeId, TextMeasurement>,
    after: &KayakRootContext,
    after_store: &WidgetStore,
) -> bool {
    &&& after.same_but_layout(before)
    &&& after.current_z == 0
    &&& after.layout_cache@.geometry_changed == before.layout_cache@.geometry_changed
    &&& after_store.styles == before_store.styles
    &&& after_store.children == before_store.children
    &&& after_store.names == before_store.names
    &&& after_store.mounted == before_store.mounted
    &&& after_store.focusable == before_store.focusable
    &&& match before.tree@.root {
        None => {
            &&& after.layout_cache@.rect == before.layout_cache@.rect
            &&& after_store.nodes == before_store.nodes
            &&& after_store.dirty@ == before_store.dirty@
        },
        Some(_) => {
            let pass = style_pass(before, before_store, measurements);
            &&& after.layout_cache@.rect == pass.seeded_rects()
            &&& after_store.dirty@ == before_store.dirty@.filter(
                |n: NodeId| !pass.processed(n) || pass.needs_layout(n),
            )
            &&& forall|n: NodeId| #[trigger]
                after_store.nodes@.contains_key(n) <==> before_store.nodes@.contains_key(n)
                    || pass.processed(n)
            &&& forall|n: NodeId|
                pass.processed(n) ==> (#[trigger] after_store.nodes@[n])@ == pass.snapshot(n)
            &&& forall|n: NodeId|
                before_store.nodes@.contains_key(n) && !pass.processed(n)
                    ==> #[trigger] after_store.nodes@[n] == before_store.nodes@[n]
        },
    }
}

/// `after` and `after_store` are what the layout pass makes of `before` and
/// `before_store`: the rectangles of the solver are in the cache, with the
/// marks of what changed, and every node below a changed rectangle is dirty.
pub open spec fn laid_out(
    before: &KayakRootContext,
    before_store: &WidgetStore,
    solved: Seq<LayoutResult>,
    after: &KayakRootContext,
    after_store: &WidgetStore,
) -> bool {
    &&& after.same_but_layout(before)
    &&& after.current_z == before.current_z
    &&& after.layout_cache@ == before.layout_cache@.after_pass(before.tree@, solved)
    &&& after_store.styles == before_store.styles
    &&& after_store.nodes == before_store.nodes
    &&& after_store.children == before_store.children
    &&& after_store.names == before_store.names
    &&& after_store.mounted == before_store.mounted
    &&& after_store.focusable == before_store.focusable
    &&& after_store.dirty@ == before_store.dirty@.union(
        before.layout_cache@.affected_by_pass(before.tree@, solved).to_set(),
    )
}

/// Whether `n` stands in `order` at or behind position `k`.
spec fn stands_from(order: Seq<NodeId>, k: int, n: NodeId) -> bool {
    exists|j: int| k <= j < order.len() && order[j] == n
}

/// The style pass: takes a snapshot of every dirty node that is in the tree
/// (see [`StylePass::snapshot`]), and clears the mark of those that need no
/// further pass (see [`StylePass::needs_layout`]). `measurements` holds what
/// the text shaper measured for the requests of [`text_requests`]; text
/// without a measurement stays dirty. Without a root nothing happens.
pub fn calculate_nodes(
    context: &mut KayakRootContext,
    store: &mut WidgetStore,
    measurements: &HashMap<NodeId, TextMeasurement>,
)
    requires
        old(context).wf(),
        old(store).wf(),
    ensures
        final(context).wf(),
        final(store).wf(),
        styled(old(context), old(store), measurements@, final(context), final(store)),
        old(store).snapshots_concrete() ==> final(store).snapshots_concrete(),
{
    context.current_z = 0;
    if context.tree.root().is_none() {
        return ;
    }
    let ghost pass = style_pass(old(context), old(store), measurements@);
    seed_root(context, store, Ghost(pass));
    let order = store.dirty.ordered();
    proof {
        store.dirty.lemma_order();
    }
    let mut results: Vec<Option<(Node, bool)>> = Vec::new();
    let mut i: usize = 0;
    while i < order.len()
        invariant
            i <= order.len(),
            context.wf(),
            store.wf(),
            pass.tree == context.tree@,
            pass.styles == store.styles@,
            pass.nodes == store.nodes@,
            pass.dirty == store.dirty@,
            pass.measurements == measurements@,
            pass.changed == context.layout_cache@.geometry_changed.dom(),
            context.layout_cache@.rect == pass.seeded_rects(),
            results@.len() == i,
            forall|j: int|
                0 <= j < i ==> match #[trigger] results@[j] {
                    Some(entry) => pass.tree.contains(order@[j]) && entry.0@ == pass.snapshot(
                        order@[j],
                    ) && entry.1 == pass.needs_layout(order@[j]),
                    None => !pass.tree.contains(order@[j]),
                },
        decreases order.len() - i,
    {
        let n = order[i];
        if context.tree.contains(n) {
            let entry = snapshot_of(
                &context.tree,
                &context.layout_cache,
                &store.styles,
                &store.nodes,
                &store.dirty,
                measurements,
                n,
                Ghost(pass),
            );
            results.push(Some(entry));
        } else {
            results.push(None);
        }
        i = i + 1;
    }
    let ghost all = results@;
    let ghost old_nodes = store.nodes@;
    let ghost old_dirty = store.dirty@;
    let mut k: usize = order.len();
    while k > 0
        invariant
            k <= order.len(),
            results@.len() == k,
            results@ == all.take(k as int),
            all.len() == order.len(),
            store.wf(),
            crate::node_set::strictly_increasing(order@),
            order@.to_set() == old_dirty,
            old_nodes == pass.nodes,
            old_dirty == pass.dirty,
            store.styles == old(store).styles,
            store.children == old(store).children,
            store.names == old(store).names,
            store.mounted == old(store).mounted,
            store.focusable == old(store).focusable,
            forall|j: int|
                0 <= j < order.len() ==> match #[trigger] all[j] {
                    Some(entry) => pass.tree.contains(order@[j]) && entry.0@ == pass.snapshot(
                        order@[j],
                    ) && entry.1 == pass.needs_layout(order@[j]),
                    None => !pass.tree.contains(order@[j]),
                },
            forall|n: NodeId| #[trigger]
                store.nodes@.contains_key(n) <==> old_nodes.contains_key(n) || (stands_from(
                    order@,
                    k as int,
                    n,
                ) && pass.tree.contains(n)),
            forall|n: NodeId|
                stands_from(order@, k as int, n) && pass.tree.contains(n) ==> (
                #[trigger] store.nodes@[n])@ == pass.snapshot(n),
            forall|n: NodeId|
                old_nodes.contains_key(n) && !(stands_from(order@, k as int, n)
                    && pass.tree.contains(n)) ==> #[trigger] store.nodes@[n] == old_nodes[n],
            forall|n: NodeId| #[trigger]
                store.dirty@.contains(n) <==> old_dirty.contains(n) && !(stands_from(
                    order@,
                    k as int,
                    n,
                ) && pass.tree.contains(n) && !pass.needs_layout(n)),
        decreases k,
    {
        let popped = results.pop();
        k = k - 1;
        let n = order[k];
        proof {
            assert(all.take(k + 1).last() == all[k as int]);
            assert(all.take(k + 1).drop_last() =~= all.take(k as int));
            assert forall|m: NodeId| stands_from(order@, k as int, m) <==> stands_from(
                order@,
                k + 1,
                m,
            ) || m == n by {
                if stands_from(order@, k as int, m) {
                    let j = choose|j: int| k <= j < order@.len() && order@[j] == m;
                    if j > k {
                        assert(k + 1 <= j < order@.len() && order@[j] == m);
                    }
                }
                if stands_from(order@, k + 1, m) {
                    let j = choose|j: int| k + 1 <= j < order@.len() && order@[j] == m;
                    assert(k <= j < order@.len() && order@[j] == m);
                }
                if m == n {
                    assert(k <= k < order@.len() && order@[k as int] == m);
                }
            }
            assert(!stands_from(order@, k + 1, n)) by {
                if stands_from(order@, k + 1, n) {
                    let j = choose|j: int| k + 1 <= j < order@.len() && order@[j] == n;
                    assert(order@[k as int] < order@[j]);
                }
            }
        }
        match popped {
            Some(Some(entry)) => {
                let (node, needs) = entry;
                store.nodes.insert(n, node);
                if !needs {
                    store.dirty.remove(n);
                }
            },
            _ => {},
        }
    }
    proof {
        assert forall|n: NodeId| stands_from(order@, 0, n) <==> old_dirty.contains(n) by {
            if old_dirty.contains(n) {
                assert(order@.contains(n));
                let j = choose|j: int| 0 <= j < order@.len() && order@[j] == n;
                assert(0 <= j < order@.len() && order@[j] == n);
            }
            if stands_from(order@, 0, n) {
                let j = choose|j: int| 0 <= j < order@.len() && order@[j] == n;
                assert(order@.contains(n));
            }
        }
        assert(store.dirty@ =~= old_dirty.filter(
            |n: NodeId| !pass.processed(n) || pass.needs_layout(n),
        ));
        if old(store).snapshots_concrete() {
            assert forall|n: NodeId| #[trigger]
                store.nodes@.contains_key(n) implies store.nodes@[n].resolved_styles.is_concrete() by {
                if pass.processed(n) {
                    pass.lemma_resolved_concrete(n, pass.tree.parents.len());
                    assert(store.nodes@[n]@ == pass.snapshot(n));
                }
            }
        }
    }
}

/// The layout pass: takes the rectangles that the solver computed into the
/// cache and marks every node dirty that lies below a node whose rectangle
/// changed, whether or not anything else about it changed.
pub fn calculate_layout(
    context: &mut KayakRootContext,
    store: &mut WidgetStore,
    solved: &Vec<LayoutResult>,
)
    requires
        old(context).wf(),
        old(store).wf(),
    ensures
        final(context).wf(),
        final(store).wf(),
        laid_out(old(context), old(store), solved@, final(context), final(store)),
        forall|p: NodeId, d: NodeId|
            final(context).layout_cache@.rect_of(p) != old(context).layout_cache@.rect_of(p)
                && #[trigger] old(context).tree@.is_descendant(d, p) && d != p ==> {
                &&& final(store).dirty@.contains(d)
                &&& final(context).layout_cache@.has_geometry_changed(p)
            },
{
    let affected = context.layout_cache.update(&context.tree, solved);
    store.dirty.insert_all(&affected);
    proof {
        let start = crate::layout::LayoutModel {
            rect: old(context).layout_cache@.rect,
            geometry_changed: Map::empty(),
        };
        assert forall|p: NodeId, d: NodeId|
            context.layout_cache@.rect_of(p) != old(context).layout_cache@.rect_of(p)
                && #[trigger] old(context).tree@.is_descendant(d, p) && d != p implies store.dirty@.contains(
            d,
        ) && context.layout_cache@.has_geometry_changed(p) by {
            start.lemma_changed_marks_descendants(context.tree@, solved@, p, d);
        }
    }
}

/// The marks that the layout pass of a round leaves in the cache.
pub open spec fn marks_after(before: &KayakRootContext, solved: Seq<LayoutResult>) -> Map<
    NodeId,
    Seq<NodeId>,
> {
    before.layout_cache@.after_pass(before.tree@, solved).geometry_changed
}

/// What the style pass of the next round reads once the layout pass of a
/// round has taken `solved` into the cache.
pub open spec fn next_round(
    before: &KayakRootContext,
    store: &WidgetStore,
    solved: Seq<LayoutResult>,
) -> StylePass {
    StylePass {
        tree: before.tree@,
        rects: before.layout_cache@.after_pass(before.tree@, solved).rect,
        changed: marks_after(before, solved).dom(),
        styles: store.styles@,
        nodes: store.nodes@,
        dirty: store.dirty@,
        measurements: Map::empty(),
    }
}

/// How often the style pass and the layout pass run in one frame. Text is
/// sized against the layout and the layout depends on the size of text; two
/// rounds bring the two close enough, and a frame never runs more.
pub const LAYOUT_PASSES: u32 = 2;

/// What the host is to do next in the layout of a frame.
#[derive(Clone, Copy, PartialEq, Eq, Structural, Debug)]
pub enum UiStage {
    /// Measure the text of the pending requests, then call
    /// [`UiPass::measured`].
    Measure,
    /// Run the layout solver over the tree, then call [`UiPass::solved`].
    Solve,
    /// Nothing: the frame is laid out.
    Done,
}

/// The progress of the layout of one frame.
pub struct UiPass {
    /// The round that is under way, from 1.
    pub round: u32,
    pub stage: UiStage,
    /// What the text shaper is to be asked in this round.
    pub requests: Vec<TextRequest>,
}

impl UiPass {
    /// Takes the measurements of this round and runs the style pass (see
    /// [`calculate_nodes`]); the solver is next. Out of turn, nothing
    /// happens.
    pub fn measured(
        &mut self,
        context: &mut KayakRootContext,
        store: &mut WidgetStore,
        measurements: &HashMap<NodeId, TextMeasurement>,
    )
        requires
            old(context).wf(),
            old(store).wf(),
        ensures
            final(context).wf(),
            final(store).wf(),
            final(self).round == old(self).round,
            old(self).stage != UiStage::Measure ==> {
                &&& *final(self) == *old(self)
                &&& *final(context) == *old(context)
                &&& *final(store) == *old(store)
            },
            old(self).stage == UiStage::Measure ==> {
                &&& final(self).stage == UiStage::Solve
                &&& final(self).requests@.len() == 0
                &&& styled(old(context), old(store), measurements@, final(context), final(store))
            },
    {
        match self.stage {
            UiStage::Measure => {
                calculate_nodes(context, store, measurements);
                self.stage = UiStage::Solve;
                self.requests = Vec::new();
            },
            _ => {},
        }
    }

    /// Takes the rectangles of this round and runs the layout pass (see
    /// [`calculate_layout`]). After the last round the frame is laid out;
    /// before it, the next round begins with new requests for the text
    /// shaper. Out of turn, nothing happens.
    pub fn solved(
        &mut self,
        context: &mut KayakRootContext,
        store: &mut WidgetStore,
        solved: &Vec<LayoutResult>,
    )
        requires
            old(context).wf(),
            old(store).wf(),
        ensures
            final(context).wf(),
            final(store).wf(),
            old(self).stage != UiStage::Solve ==> {
                &&& *final(self) == *old(self)
                &&& *final(context) == *old(context)
                &&& *final(store) == *old(store)
            },
            old(self).stage == UiStage::Solve && old(self).round >= LAYOUT_PASSES ==> {
                &&& final(self).round == old(self).round
                &&& final(self).stage == UiStage::Done
                &&& final(self).requests@.len() == 0
                &&& laid_out(old(context), old(store), solved@, final(context), final(store))
            },
            old(self).stage == UiStage::Solve && old(self).round < LAYOUT_PASSES ==> {
                let next = next_round(old(context), final(store), solved@);
                &&& final(self).round == old(self).round + 1
                &&& final(self).stage == UiStage::Measure
                &&& final(self).requests@ == requests_of(next, final(store).dirty.order())
                &&& final(context).same_but_layout(old(context))
                &&& final(context).current_z == old(context).current_z
                &&& final(context).layout_cache@.rect == next.seeded_rects()
                &&& final(context).layout_cache@.geometry_changed == marks_after(
                    old(context),
                    solved@,
                )
                &&& final(store).styles == old(store).styles
                &&& final(store).nodes == old(store).nodes
                &&& final(store).children == old(store).children
                &&& final(store).names == old(store).names
                &&& final(store).mounted == old(store).mounted
                &&& final(store).focusable == old(store).focusable
                &&& final(store).dirty@ == old(store).dirty@.union(
                    old(context).layout_cache@.affected_by_pass(
                        old(context).tree@,
                        solved@,
                    ).to_set(),
                )
            },
    {
        match self.stage {
            UiStage::Solve => {
                calculate_layout(context, store, solved);
                if self.round < LAYOUT_PASSES {
                    self.round = self.round + 1;
                    self.stage = UiStage::Measure;
                    self.requests = text_requests(context, store);
                } else {
                    self.stage = UiStage::Done;
                    self.requests = Vec::new();
                }
            },
            _ => {},
        }
    }
}

/// Begins the layout of a frame: the first of [`LAYOUT_PASSES`] rounds, each
/// a style pass and a layout pass. The host measures text and runs the
/// solver in between, as the stage of the returned pass tells it.
pub fn calculate_ui(context: &mut KayakRootContext, store: &WidgetStore) -> (pass: UiPass)
    requires
        old(context).wf(),
        store.wf(),
    ensures
        pass.round == 1,
        pass.stage == UiStage::Measure,
        pass.requests@ == requests_of(
            style_pass(old(context), store, Map::empty()),
            store.dirty.order(),
        ),
        final(context).wf(),
        final(context).same_but_layout(old(context)),
        final(context).layout_cache@.geometry_changed == old(context).layout_cache@.geometry_changed,
        final(context).layout_cache@.rect == style_pass(
            old(context),
            store,
            Map::empty(),
        ).seeded_rects(),
{
    let requests = text_requests(context, store);
    UiPass { round: 1, stage: UiStage::Measure, requests }
}

} // verus!
