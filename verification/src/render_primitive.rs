//! The primitive extractor: the finished tree flattened into the ordered list
//! of primitives that the renderer paints.
//!
//! The list is a command stream. `Clip`/`EndClip`, `Layer`/`EndLayer` and
//! `OpacityLayer`/`DrawOpacityLayer` come in pairs that bracket the
//! primitives of one subtree.

use crate::layout::{LayoutCache, Rect};
use crate::node::{Node, NodeId};
use crate::styles::{RenderCommand, OPAQUE};
use crate::tree::Tree;
use crate::tree_model::{without, TreeModel};
use std::collections::HashMap;
use vstd::prelude::*;

verus! {

broadcast use vstd::std_specs::hash::group_hash_axioms;

/// How many opacity layers may be open at once unless the host says
/// otherwise.
pub const MAX_OPACITY_LAYERS: u32 = 5;

/// Below this opacity, in thousandths, a node is not painted at all.
pub const OPACITY_EPSILON: u16 = 1;

/// One command of the paint list.
#[derive(Clone, Copy, PartialEq, Eq, Structural, Debug)]
pub enum RenderPrimitive {
    /// Restricts what follows, up to the matching `EndClip`, to `rect`.
    Clip { node: NodeId, rect: Rect },
    /// Ends the clip region that the matching `Clip` began.
    EndClip,
    /// Opens an output layer at depth `z`.
    Layer { z: i32 },
    /// Closes the output layer that the matching `Layer` opened.
    EndLayer,
    /// A run of text in the box `rect`.
    Text { node: NodeId, rect: Rect, opacity_layer: u32 },
    /// A painted box.
    Quad { node: NodeId, rect: Rect, opacity_layer: u32 },
    /// Allocates the intermediate surface `layer`; what follows, up to the
    /// matching `DrawOpacityLayer`, is painted into it.
    OpacityLayer { layer: u32 },
    /// Paints the surface `layer` over its parent surface at `opacity`
    /// thousandths, across `rect`.
    DrawOpacityLayer { layer: u32, opacity: u16, rect: Rect },
}

/// All that the extractor reads.
pub struct Scene {
    pub tree: TreeModel,
    pub nodes: Map<NodeId, Node>,
    pub rects: Map<NodeId, Rect>,
    /// The rectangle of the root, across which opacity layers are painted.
    pub root_rect: Rect,
    /// How many opacity layers may be open at once.
    pub max_layers: u32,
}

impl Scene {
    /// A node is painted when it has a snapshot that is not transparent, a
    /// rectangle, and, where it is translucent, a free opacity layer.
    pub open spec fn paints(self, n: NodeId, open: nat) -> bool {
        &&& self.nodes.contains_key(n)
        &&& self.nodes[n].opacity >= OPACITY_EPSILON
        &&& self.rects.contains_key(n)
        &&& (self.translucent(n) ==> open < self.max_layers)
    }

    /// The node is neither transparent nor opaque: it needs an opacity layer.
    pub open spec fn translucent(self, n: NodeId) -> bool {
        self.nodes[n].opacity < OPAQUE
    }

    /// The primitive that a node paints of its own, into the surface `layer`.
    pub open spec fn own(self, n: NodeId, layer: nat) -> Seq<RenderPrimitive> {
        let rect = self.rects[n];
        match self.nodes[n].render_kind() {
            RenderCommand::Empty => Seq::empty(),
            RenderCommand::Layout => Seq::empty(),
            RenderCommand::Clip => seq![RenderPrimitive::Clip { node: n, rect }],
            RenderCommand::Text { word_wrap } => seq![
                RenderPrimitive::Text { node: n, rect, opacity_layer: layer as u32 },
            ],
            RenderCommand::Visual => seq![
                RenderPrimitive::Quad { node: n, rect, opacity_layer: layer as u32 },
            ],
        }
    }

    /// What closes the own primitive of a node after its subtree.
    pub open spec fn own_end(self, n: NodeId) -> Seq<RenderPrimitive> {
        if self.nodes[n].render_kind() == RenderCommand::Clip {
            seq![RenderPrimitive::EndClip]
        } else {
            Seq::empty()
        }
    }

    /// The surface that a painted node and its subtree go to: a new one for a
    /// translucent node, else the one that is open.
    pub open spec fn layer_of(self, n: NodeId, open: nat) -> nat {
        if self.translucent(n) {
            open + 1
        } else {
            open
        }
    }

    /// The node's own primitive and those of its subtree, without the
    /// brackets for opacity and depth.
    pub open spec fn inner(self, n: NodeId, fuel: nat, open: nat) -> Seq<RenderPrimitive>
        decreases fuel, 0nat, 1nat,
    {
        let layer = self.layer_of(n, open);
        let below = if fuel == 0 {
            Seq::empty()
        } else {
            self.extract_list(self.tree.children_of(n), (fuel - 1) as nat, layer)
        };
        self.own(n, layer) + below + self.own_end(n)
    }

    /// `inner` in the brackets of an opacity layer, where the node is
    /// translucent.
    pub open spec fn composited(self, n: NodeId, fuel: nat, open: nat) -> Seq<RenderPrimitive>
        decreases fuel, 0nat, 2nat,
    {
        if self.translucent(n) {
            seq![RenderPrimitive::OpacityLayer { layer: (open + 1) as u32 }] + self.inner(
                n,
                fuel,
                open,
            ) + seq![
                RenderPrimitive::DrawOpacityLayer {
                    layer: (open + 1) as u32,
                    opacity: self.nodes[n].opacity,
                    rect: self.root_rect,
                },
            ]
        } else {
            self.inner(n, fuel, open)
        }
    }

    /// The primitives of `n` and all below it, down to `fuel` levels, with
    /// `open` opacity layers open around it.
    pub open spec fn extract(self, n: NodeId, fuel: nat, open: nat) -> Seq<RenderPrimitive>
        decreases fuel, 0nat, 3nat,
    {
        if !self.paints(n, open) {
            Seq::empty()
        } else if self.nodes[n].z > 0 {
            seq![RenderPrimitive::Layer { z: self.nodes[n].z }] + self.composited(n, fuel, open)
                + seq![RenderPrimitive::EndLayer]
        } else {
            self.composited(n, fuel, open)
        }
    }

    /// The primitives of the nodes of `list`, one subtree after the other.
    pub open spec fn extract_list(self, list: Seq<NodeId>, fuel: nat, open: nat) -> Seq<
        RenderPrimitive,
    >
        decreases fuel, list.len() + 1, 0nat,
    {
        if list.len() == 0 {
            Seq::empty()
        } else {
            self.extract_list(list.drop_last(), fuel, open) + self.extract(list.last(), fuel, open)
        }
    }

    /// The whole paint list: the primitives of the root and all below it,
    /// nothing where there is no root.
    pub open spec fn primitives(self) -> Seq<RenderPrimitive> {
        match self.tree.root {
            Some(root) => self.extract(root, self.tree.parents.len(), 0),
            None => Seq::empty(),
        }
    }
}

/// Whether `p` composites the opacity layer `layer`.
pub open spec fn draws_layer(p: RenderPrimitive, layer: nat) -> bool {
    p matches RenderPrimitive::DrawOpacityLayer { layer: l, .. } && l == layer
}

/// How many primitives of `s` composite the opacity layer `layer`.
pub open spec fn count_draws(s: Seq<RenderPrimitive>, layer: nat) -> nat
    decreases s.len(),
{
    if s.len() == 0 {
        0
    } else {
        count_draws(s.drop_last(), layer) + if draws_layer(s.last(), layer) {
            1nat
        } else {
            0nat
        }
    }
}

/// Counting over two lists in a row is counting over each and adding up.
pub proof fn lemma_count_draws_add(a: Seq<RenderPrimitive>, b: Seq<RenderPrimitive>, layer: nat)
    ensures
        count_draws(a + b, layer) == count_draws(a, layer) + count_draws(b, layer),
    decreases b.len(),
{
    if b.len() == 0 {
        assert(a + b =~= a);
    } else {
        assert((a + b).drop_last() =~= a + b.drop_last());
        lemma_count_draws_add(a, b.drop_last(), layer);
    }
}

proof fn lemma_count_draws_one(p: RenderPrimitive, layer: nat)
    ensures
        count_draws(seq![p], layer) == if draws_layer(p, layer) {
            1nat
        } else {
            0nat
        },
{
    let s = seq![p];
    assert(s.drop_last() =~= Seq::<RenderPrimitive>::empty());
    assert(s.last() == p);
    assert(count_draws(s.drop_last(), layer) == 0);
}

impl Scene {
    /// A transparent node contributes nothing, itself and all below it; so
    /// does a node without a snapshot or without a rectangle.
    pub proof fn lemma_transparent_is_empty(self, n: NodeId, fuel: nat, open: nat)
        requires
            !self.nodes.contains_key(n) || self.nodes[n].opacity < OPACITY_EPSILON
                || !self.rects.contains_key(n),
        ensures
            self.extract(n, fuel, open) == Seq::<RenderPrimitive>::empty(),
    {
    }

    /// A translucent node that would need one opacity layer more than may be
    /// open contributes nothing, itself and all below it.
    pub proof fn lemma_overflow_is_empty(self, n: NodeId, fuel: nat, open: nat)
        requires
            self.nodes.contains_key(n),
            self.nodes[n].opacity < OPAQUE,
            open >= self.max_layers,
        ensures
            self.extract(n, fuel, open) == Seq::<RenderPrimitive>::empty(),
    {
    }

    /// Nothing that a subtree contributes composites a layer that was open
    /// around it: its own layers lie above those.
    proof fn lemma_no_draws_at_or_below(self, n: NodeId, fuel: nat, open: nat, layer: nat)
        requires
            layer <= open,
        ensures
            count_draws(self.extract(n, fuel, open), layer) == 0,
        decreases fuel, 0nat,
    {
        if self.paints(n, open) {
            let l = self.layer_of(n, open);
            let below = if fuel == 0 {
                Seq::empty()
            } else {
                self.extract_list(self.tree.children_of(n), (fuel - 1) as nat, l)
            };
            if fuel > 0 {
                self.lemma_list_no_draws_at_or_below(
                    self.tree.children_of(n),
                    (fuel - 1) as nat,
                    l,
                    layer,
                );
            }
            self.lemma_own_no_draws(n, l, layer);
            lemma_count_draws_add(self.own(n, l), below, layer);
            lemma_count_draws_add(self.own(n, l) + below, self.own_end(n), layer);
            let inner = self.inner(n, fuel, open);
            if self.translucent(n) {
                let head = seq![RenderPrimitive::OpacityLayer { layer: (open + 1) as u32 }];
                let tail = seq![
                    RenderPrimitive::DrawOpacityLayer {
                        layer: (open + 1) as u32,
                        opacity: self.nodes[n].opacity,
                        rect: self.root_rect,
                    },
                ];
                lemma_count_draws_one(head[0], layer);
                lemma_count_draws_one(tail[0], layer);
                lemma_count_draws_add(head, inner, layer);
                lemma_count_draws_add(head + inner, tail, layer);
            }
            let comp = self.composited(n, fuel, open);
            if self.nodes[n].z > 0 {
                let head = seq![RenderPrimitive::Layer { z: self.nodes[n].z }];
                let tail = seq![RenderPrimitive::EndLayer];
                lemma_count_draws_one(head[0], layer);
                lemma_count_draws_one(tail[0], layer);
                lemma_count_draws_add(head, comp, layer);
                lemma_count_draws_add(head + comp, tail, layer);
            }
        }
    }

    proof fn lemma_own_no_draws(self, n: NodeId, l: nat, layer: nat)
        ensures
            count_draws(self.own(n, l), layer) == 0,
            count_draws(self.own_end(n), layer) == 0,
    {
        if self.own(n, l).len() > 0 {
            lemma_count_draws_one(self.own(n, l)[0], layer);
            assert(self.own(n, l) =~= seq![self.own(n, l)[0]]);
        }
        if self.own_end(n).len() > 0 {
            lemma_count_draws_one(self.own_end(n)[0], layer);
        }
    }

    proof fn lemma_list_no_draws_at_or_below(
        self,
        list: Seq<NodeId>,
        fuel: nat,
        open: nat,
        layer: nat,
    )
        requires
            layer <= open,
        ensures
            count_draws(self.extract_list(list, fuel, open), layer) == 0,
        decreases fuel, list.len() + 1,
    {
        if list.len() > 0 {
            self.lemma_list_no_draws_at_or_below(list.drop_last(), fuel, open, layer);
            self.lemma_no_draws_at_or_below(list.last(), fuel, open, layer);
            lemma_count_draws_add(
                self.extract_list(list.drop_last(), fuel, open),
                self.extract(list.last(), fuel, open),
                layer,
            );
        }
    }

    /// An opaque node that is painted contributes its own primitive and the
    /// primitives of its subtree, with no opacity layer around them.
    pub proof fn lemma_opaque_has_no_layer(self, n: NodeId, fuel: nat, open: nat)
        requires
            self.paints(n, open),
            self.nodes[n].opacity == OPAQUE,
            open <= self.max_layers,
        ensures
            self.composited(n, fuel, open) == self.inner(n, fuel, open),
            self.inner(n, fuel, open) == self.own(n, open) + (if fuel == 0 {
                Seq::empty()
            } else {
                self.extract_list(self.tree.children_of(n), (fuel - 1) as nat, open)
            }) + self.own_end(n),
            count_draws(self.extract(n, fuel, open), open + 1) == count_draws(
                if fuel == 0 {
                    Seq::empty()
                } else {
                    self.extract_list(self.tree.children_of(n), (fuel - 1) as nat, open)
                },
                open + 1,
            ),
    {
        let layer = open + 1;
        let below = if fuel == 0 {
            Seq::empty()
        } else {
            self.extract_list(self.tree.children_of(n), (fuel - 1) as nat, open)
        };
        self.lemma_own_no_draws(n, open, layer);
        lemma_count_draws_add(self.own(n, open), below, layer);
        lemma_count_draws_add(self.own(n, open) + below, self.own_end(n), layer);
        let comp = self.composited(n, fuel, open);
        if self.nodes[n].z > 0 {
            let head = seq![RenderPrimitive::Layer { z: self.nodes[n].z }];
            let tail = seq![RenderPrimitive::EndLayer];
            lemma_count_draws_one(head[0], layer);
            lemma_count_draws_one(tail[0], layer);
            lemma_count_draws_add(head, comp, layer);
            lemma_count_draws_add(head + comp, tail, layer);
        }
    }

    /// A translucent node that is painted contributes the primitives of its
    /// subtree between the two brackets of its opacity layer, and exactly one
    /// primitive in all composites that layer.
    pub proof fn lemma_translucent_has_one_layer(self, n: NodeId, fuel: nat, open: nat)
        requires
            self.paints(n, open),
            self.nodes[n].opacity < OPAQUE,
            open < self.max_layers,
        ensures
            self.composited(n, fuel, open) == seq![
                RenderPrimitive::OpacityLayer { layer: (open + 1) as u32 },
            ] + self.inner(n, fuel, open) + seq![
                RenderPrimitive::DrawOpacityLayer {
                    layer: (open + 1) as u32,
                    opacity: self.nodes[n].opacity,
                    rect: self.root_rect,
                },
            ],
            count_draws(self.inner(n, fuel, open), open + 1) == 0,
            count_draws(self.extract(n, fuel, open), open + 1) == 1,
    {
        let layer = open + 1;
        let below = if fuel == 0 {
            Seq::empty()
        } else {
            self.extract_list(self.tree.children_of(n), (fuel - 1) as nat, layer)
        };
        if fuel > 0 {
            self.lemma_list_no_draws_at_or_below(
                self.tree.children_of(n),
                (fuel - 1) as nat,
                layer,
                layer,
            );
        }
        self.lemma_own_no_draws(n, layer, layer);
        lemma_count_draws_add(self.own(n, layer), below, layer);
        lemma_count_draws_add(self.own(n, layer) + below, self.own_end(n), layer);
        let inner = self.inner(n, fuel, open);
        let head = seq![RenderPrimitive::OpacityLayer { layer: (open + 1) as u32 }];
        let tail = seq![
            RenderPrimitive::DrawOpacityLayer {
                layer: (open + 1) as u32,
                opacity: self.nodes[n].opacity,
                rect: self.root_rect,
            },
        ];
        lemma_count_draws_one(head[0], layer);
        lemma_count_draws_one(tail[0], layer);
        lemma_count_draws_add(head, inner, layer);
        lemma_count_draws_add(head + inner, tail, layer);
        let comp = self.composited(n, fuel, open);
        if self.nodes[n].z > 0 {
            let zhead = seq![RenderPrimitive::Layer { z: self.nodes[n].z }];
            let ztail = seq![RenderPrimitive::EndLayer];
            lemma_count_draws_one(zhead[0], layer);
            lemma_count_draws_one(ztail[0], layer);
            lemma_count_draws_add(zhead, comp, layer);
            lemma_count_draws_add(zhead + comp, ztail, layer);
        }
    }

    /// A subtree that contributes nothing may as well not be there: what its
    /// siblings contribute is the same with it and without it.
    pub proof fn lemma_siblings_unaffected(
        self,
        list: Seq<NodeId>,
        skipped: NodeId,
        fuel: nat,
        open: nat,
    )
        requires
            self.extract(skipped, fuel, open) == Seq::<RenderPrimitive>::empty(),
        ensures
            self.extract_list(list, fuel, open) == self.extract_list(
                without(list, skipped),
                fuel,
                open,
            ),
        decreases list.len(),
    {
        if list.len() > 0 {
            self.lemma_siblings_unaffected(list.drop_last(), skipped, fuel, open);
            let rest = without(list.drop_last(), skipped);
            if list.last() == skipped {
                assert(self.extract_list(list.drop_last(), fuel, open) + Seq::<
                    RenderPrimitive,
                >::empty() =~= self.extract_list(list.drop_last(), fuel, open));
            } else {
                let kept = rest.push(list.last());
                assert(kept.drop_last() =~= rest);
                assert(kept.last() == list.last());
            }
        }
    }
}

/// The scene that the extractor reads from the given parts.
pub open spec fn scene_of(
    tree: &Tree,
    nodes: &HashMap<NodeId, Node>,
    layout: &LayoutCache,
    root_rect: Rect,
    max_layers: u32,
) -> Scene {
    Scene { tree: tree@, nodes: nodes@, rects: layout@.rect, root_rect, max_layers }
}

fn push_own(
    out: &mut Vec<RenderPrimitive>,
    Ghost(scene): Ghost<Scene>,
    n: NodeId,
    kind: RenderCommand,
    rect: Rect,
    layer: u32,
)
    requires
        scene.nodes.contains_key(n),
        scene.rects.contains_key(n),
        kind == scene.nodes[n].render_kind(),
        rect == scene.rects[n],
    ensures
        final(out)@ == old(out)@ + scene.own(n, layer as nat),
{
    match kind {
        RenderCommand::Clip => {
            out.push(RenderPrimitive::Clip { node: n, rect });
        },
        RenderCommand::Text { word_wrap } => {
            out.push(RenderPrimitive::Text { node: n, rect, opacity_layer: layer });
        },
        RenderCommand::Visual => {
            out.push(RenderPrimitive::Quad { node: n, rect, opacity_layer: layer });
        },
        _ => {},
    }
    assert(out@ =~= old(out)@ + scene.own(n, layer as nat));
}

fn push_own_end(
    out: &mut Vec<RenderPrimitive>,
    Ghost(scene): Ghost<Scene>,
    n: NodeId,
    kind: RenderCommand,
)
    requires
        scene.nodes.contains_key(n),
        kind == scene.nodes[n].render_kind(),
    ensures
        final(out)@ == old(out)@ + scene.own_end(n),
{
    match kind {
        RenderCommand::Clip => {
            out.push(RenderPrimitive::EndClip);
        },
        _ => {},
    }
    assert(out@ =~= old(out)@ + scene.own_end(n));
}

fn extract_children(
    tree: &Tree,
    nodes: &HashMap<NodeId, Node>,
    layout: &LayoutCache,
    root_rect: Rect,
    max_layers: u32,
    n: NodeId,
    fuel: usize,
    layer: u32,
    out: &mut Vec<RenderPrimitive>,
)
    requires
        layer <= max_layers,
    ensures
        final(out)@ == old(out)@ + if fuel == 0 {
            Seq::empty()
        } else {
            scene_of(tree, nodes, layout, root_rect, max_layers).extract_list(
                tree@.children_of(n),
                (fuel - 1) as nat,
                layer as nat,
            )
        },
    decreases fuel, 0nat,
{
    let ghost scene = scene_of(tree, nodes, layout, root_rect, max_layers);
    let ghost start = out@;
    if fuel > 0 {
        let children = tree.children(n);
        let mut i: usize = 0;
        assert(children@.take(0) =~= Seq::<NodeId>::empty());
        assert(out@ =~= start + scene.extract_list(
            children@.take(0),
            (fuel - 1) as nat,
            layer as nat,
        ));
        while i < children.len()
            invariant
                fuel > 0,
                i <= children.len(),
                layer <= max_layers,
                scene == scene_of(tree, nodes, layout, root_rect, max_layers),
                out@ == start + scene.extract_list(
                    children@.take(i as int),
                    (fuel - 1) as nat,
                    layer as nat,
                ),
            decreases children.len() - i,
        {
            let ghost before = out@;
            extract_node(
                tree,
                nodes,
                layout,
                root_rect,
                max_layers,
                children[i],
                fuel - 1,
                layer,
                out,
            );
            proof {
                let next = children@.take(i + 1);
                assert(next.drop_last() =~= children@.take(i as int));
                assert(next.last() == children@[i as int]);
                assert(out@ =~= start + scene.extract_list(
                    next,
                    (fuel - 1) as nat,
                    layer as nat,
                ));
            }
            i = i + 1;
        }
        assert(children@.take(children.len() as int) =~= children@);
    } else {
        assert(out@ =~= start + Seq::<RenderPrimitive>::empty());
    }
}

fn extract_inner(
    tree: &Tree,
    nodes: &HashMap<NodeId, Node>,
    layout: &LayoutCache,
    root_rect: Rect,
    max_layers: u32,
    n: NodeId,
    fuel: usize,
    open: u32,
    kind: RenderCommand,
    rect: Rect,
    translucent: bool,
    out: &mut Vec<RenderPrimitive>,
)
    requires
        scene_of(tree, nodes, layout, root_rect, max_layers).paints(n, open as nat),
        open <= max_layers,
        kind == nodes@[n].render_kind(),
        rect == layout@.rect[n],
        translucent == scene_of(tree, nodes, layout, root_rect, max_layers).translucent(n),
    ensures
        final(out)@ == old(out)@ + scene_of(tree, nodes, layout, root_rect, max_layers).inner(
            n,
            fuel as nat,
            open as nat,
        ),
    decreases fuel, 1nat,
{
    let ghost scene = scene_of(tree, nodes, layout, root_rect, max_layers);
    let ghost start = out@;
    let layer: u32 = if translucent {
        open + 1
    } else {
        open
    };
    push_own(out, Ghost(scene), n, kind, rect, layer);
    let ghost own = scene.own(n, layer as nat);
    extract_children(tree, nodes, layout, root_rect, max_layers, n, fuel, layer, out);
    let ghost below = if fuel == 0 {
        Seq::<RenderPrimitive>::empty()
    } else {
        scene.extract_list(scene.tree.children_of(n), (fuel - 1) as nat, layer as nat)
    };
    assert(out@ == start + own + below);
    push_own_end(out, Ghost(scene), n, kind);
    assert(out@ == start + own + below + scene.own_end(n));
    assert(scene.inner(n, fuel as nat, open as nat) == own + below + scene.own_end(n));
    assert(out@ =~= start + scene.inner(n, fuel as nat, open as nat));
}

fn extract_node(
    tree: &Tree,
    nodes: &HashMap<NodeId, Node>,
    layout: &LayoutCache,
    root_rect: Rect,
    max_layers: u32,
    n: NodeId,
    fuel: usize,
    open: u32,
    out: &mut Vec<RenderPrimitive>,
)
    requires
        open <= max_layers,
    ensures
        final(out)@ == old(out)@ + scene_of(tree, nodes, layout, root_rect, max_layers).extract(
            n,
            fuel as nat,
            open as nat,
        ),
    decreases fuel, 2nat,
{
    let ghost scene = scene_of(tree, nodes, layout, root_rect, max_layers);
    let ghost start = out@;
    let ghost empty = Seq::<RenderPrimitive>::empty();
    let node = match nodes.get(&n) {
        Some(node) => node,
        None => {
            assert(out@ =~= start + empty);
            return ;
        },
    };
    let rect = match layout.get(n) {
        Some(rect) => rect,
        None => {
            assert(out@ =~= start + empty);
            return ;
        },
    };
    let translucent = node.opacity < OPAQUE;
    if node.opacity < OPACITY_EPSILON || (translucent && open >= max_layers) {
        assert(out@ =~= start + empty);
        return ;
    }
    assert(scene.paints(n, open as nat));
    let has_z = node.z > 0;
    let kind = node.resolved_styles.render_command.resolve_or(RenderCommand::Empty);
    let ghost inner = scene.inner(n, fuel as nat, open as nat);
    let ghost comp = scene.composited(n, fuel as nat, open as nat);
    if has_z {
        out.push(RenderPrimitive::Layer { z: node.z });
    }
    let ghost comp_start = out@;
    if translucent {
        out.push(RenderPrimitive::OpacityLayer { layer: open + 1 });
    }
    let ghost inner_start = out@;
    extract_inner(
        tree,
        nodes,
        layout,
        root_rect,
        max_layers,
        n,
        fuel,
        open,
        kind,
        rect,
        translucent,
        out,
    );
    assert(out@ == inner_start + inner);
    if translucent {
        out.push(
            RenderPrimitive::DrawOpacityLayer {
                layer: open + 1,
                opacity: node.opacity,
                rect: root_rect,
            },
        );
    }
    assert(out@ =~= comp_start + comp);
    if has_z {
        out.push(RenderPrimitive::EndLayer);
    }
    assert(out@ =~= start + scene.extract(n, fuel as nat, open as nat));
}

/// Flattens the tree into the paint list: the root first, children in child
/// order, each subtree in the brackets that its clip region, its depth and
/// its opacity call for. At most `max_layers` opacity layers are open at any
/// point of the list; a translucent subtree that would need one more is left
/// out.
pub fn extract_primitives(
    tree: &Tree,
    nodes: &HashMap<NodeId, Node>,
    layout: &LayoutCache,
    max_layers: u32,
) -> (r: Vec<RenderPrimitive>)
    ensures
        r@ == scene_of(
            tree,
            nodes,
            layout,
            match tree@.root {
                Some(root) => layout@.rect_of(root).unwrap_or(Rect::zero()),
                None => Rect::zero(),
            },
            max_layers,
        ).primitives(),
{
    let mut out: Vec<RenderPrimitive> = Vec::new();
    match tree.root() {
        Some(root) => {
            let root_rect = match layout.get(root) {
                Some(rect) => rect,
                None => Rect::default(),
            };
            extract_node(tree, nodes, layout, root_rect, max_layers, root, tree.len(), 0, &mut out);
            assert(out@ =~= scene_of(tree, nodes, layout, root_rect, max_layers).primitives());
        },
        None => {},
    }
    out
}

} // verus!
