//! The cache of computed rectangles, and what a layout pass changes in it.

use crate::node::NodeId;
use crate::tree::Tree;
use crate::tree_model::TreeModel;
use std::collections::HashMap;
use vstd::prelude::*;

verus! {

broadcast use vstd::std_specs::hash::group_hash_axioms;

/// The box that the layout solver gave a node, in the host's layout unit.
#[derive(Clone, Copy, PartialEq, Eq, Structural, Debug)]
pub struct Rect {
    pub posx: i32,
    pub posy: i32,
    pub width: i32,
    pub height: i32,
    pub z_index: i32,
}

impl Rect {
    /// The empty rectangle at the origin.
    pub open spec fn zero() -> Rect {
        Rect { posx: 0, posy: 0, width: 0, height: 0, z_index: 0 }
    }
}

impl Default for Rect {
    fn default() -> (r: Rect)
        ensures
            r == Rect::zero(),
    {
        Rect { posx: 0, posy: 0, width: 0, height: 0, z_index: 0 }
    }
}

/// The rectangle that the solver computed for one node.
#[derive(Clone, Copy, PartialEq, Eq, Structural, Debug)]
pub struct LayoutResult {
    pub node: NodeId,
    pub rect: Rect,
}

/// Mathematical model of a [`LayoutCache`].
pub struct LayoutModel {
    /// The rectangle of each node that has one.
    pub rect: Map<NodeId, Rect>,
    /// For each node whose rectangle changed in the last pass, the nodes
    /// below it.
    pub geometry_changed: Map<NodeId, Seq<NodeId>>,
}

impl LayoutModel {
    /// The cache without entries.
    pub open spec fn empty() -> LayoutModel {
        LayoutModel { rect: Map::empty(), geometry_changed: Map::empty() }
    }

    /// The rectangle of `id`, if it has one.
    pub open spec fn rect_of(self, id: NodeId) -> Option<Rect> {
        if self.rect.contains_key(id) {
            Some(self.rect[id])
        } else {
            None
        }
    }

    /// The last pass changed the rectangle of `id`.
    pub open spec fn has_geometry_changed(self, id: NodeId) -> bool {
        self.geometry_changed.contains_key(id)
    }

    /// The solver's rectangle for a node differs from the cached one.
    pub open spec fn differs(self, result: LayoutResult) -> bool {
        self.rect_of(result.node) != Some(result.rect)
    }

    /// One result of the solver taken into the cache.
    pub open spec fn step(self, tree: TreeModel, result: LayoutResult) -> LayoutModel {
        if self.differs(result) {
            LayoutModel {
                rect: self.rect.insert(result.node, result.rect),
                geometry_changed: self.geometry_changed.insert(
                    result.node,
                    tree.subtree(result.node).skip(1),
                ),
            }
        } else {
            self
        }
    }

    /// The results of the solver taken into the cache one after the other.
    pub open spec fn steps(self, tree: TreeModel, solved: Seq<LayoutResult>) -> LayoutModel
        decreases solved.len(),
    {
        if solved.len() == 0 {
            self
        } else {
            self.steps(tree, solved.drop_last()).step(tree, solved.last())
        }
    }

    /// The cache after a layout pass: the change markers of the pass before
    /// are forgotten, then the results are taken in.
    pub open spec fn after_pass(self, tree: TreeModel, solved: Seq<LayoutResult>) -> LayoutModel {
        (LayoutModel { rect: self.rect, geometry_changed: Map::empty() }).steps(tree, solved)
    }

    /// The nodes below every node whose rectangle a layout pass changed.
    pub open spec fn affected_by_pass(self, tree: TreeModel, solved: Seq<LayoutResult>) -> Seq<
        NodeId,
    > {
        (LayoutModel { rect: self.rect, geometry_changed: Map::empty() }).affected(tree, solved)
    }

    /// The nodes below every node whose rectangle a run of results changed,
    /// in the order of the results.
    pub open spec fn affected(self, tree: TreeModel, solved: Seq<LayoutResult>) -> Seq<NodeId>
        decreases solved.len(),
    {
        if solved.len() == 0 {
            Seq::empty()
        } else {
            let front = self.affected(tree, solved.drop_last());
            if self.steps(tree, solved.drop_last()).differs(solved.last()) {
                front + tree.subtree(solved.last().node).skip(1)
            } else {
                front
            }
        }
    }

    /// The rectangle of `id` after the pass is not the one from before it.
    pub open spec fn rect_changed_by(
        self,
        tree: TreeModel,
        solved: Seq<LayoutResult>,
        id: NodeId,
    ) -> bool {
        self.steps(tree, solved).rect_of(id) != self.rect_of(id)
    }

    /// A node whose rectangle is not what it was has every node below it
    /// among the affected.
    pub proof fn lemma_changed_marks_descendants(
        self,
        tree: TreeModel,
        solved: Seq<LayoutResult>,
        p: NodeId,
        d: NodeId,
    )
        requires
            tree.wf(),
            self.rect_changed_by(tree, solved, p),
            tree.is_descendant(d, p),
            d != p,
        ensures
            self.affected(tree, solved).contains(d),
            self.steps(tree, solved).geometry_changed.contains_key(p),
            self.steps(tree, solved).geometry_changed[p].contains(d),
        decreases solved.len(),
    {
        if solved.len() > 0 {
            let front = solved.drop_last();
            let last = solved.last();
            let mid = self.steps(tree, front);
            let a = self.affected(tree, front);
            let below = tree.subtree(p).skip(1);
            assert(below.contains(d)) by {
                tree.lemma_subtree_descendants(p, d);
                let s = tree.subtree(p);
                let i = choose|i: int| 0 <= i < s.len() && s[i] == d;
                assert(s[0] == p);
                assert(below[i - 1] == d);
            }
            if mid.differs(last) && last.node == p {
                let i = choose|i: int| 0 <= i < below.len() && below[i] == d;
                assert((a + below)[a.len() + i] == d);
            } else {
                assert(mid.rect_of(p) == mid.step(tree, last).rect_of(p));
                self.lemma_changed_marks_descendants(tree, front, p, d);
                let i = choose|i: int| 0 <= i < a.len() && a[i] == d;
                assert(self.affected(tree, solved)[i] == d);
            }
        }
    }
}

/// Per-node rectangles, and the marks that the last layout pass left.
pub struct LayoutCache {
    rect: HashMap<NodeId, Rect>,
    geometry_changed: HashMap<NodeId, Vec<NodeId>>,
}

impl View for LayoutCache {
    type V = LayoutModel;

    closed spec fn view(&self) -> LayoutModel {
        LayoutModel {
            rect: self.rect@,
            geometry_changed: self.geometry_changed@.map_values(|v: Vec<NodeId>| v@),
        }
    }
}

impl LayoutCache {
    /// A cache without entries.
    pub fn new() -> (r: LayoutCache)
        ensures
            r@ == LayoutModel::empty(),
    {
        let r = LayoutCache { rect: HashMap::new(), geometry_changed: HashMap::new() };
        assert(r@.rect =~= Map::empty());
        assert(r@.geometry_changed =~= Map::empty());
        r
    }

    /// Gives `id` an entry, an empty rectangle, unless it has one.
    pub fn add(&mut self, id: NodeId)
        ensures
            final(self)@.geometry_changed == old(self)@.geometry_changed,
            final(self)@.rect == if old(self)@.rect.contains_key(id) {
                old(self)@.rect
            } else {
                old(self)@.rect.insert(id, Rect::zero())
            },
    {
        if !self.rect.contains_key(&id) {
            self.rect.insert(id, Rect::default());
        }
    }

    /// Forgets `id`.
    pub fn remove(&mut self, id: NodeId)
        ensures
            final(self)@.rect == old(self)@.rect.remove(id),
            final(self)@.geometry_changed == old(self)@.geometry_changed.remove(id),
    {
        self.rect.remove(&id);
        self.geometry_changed.remove(&id);
        assert(self@.geometry_changed =~= old(self)@.geometry_changed.remove(id));
    }

    /// The rectangle of `id`.
    pub fn get(&self, id: NodeId) -> (r: Option<Rect>)
        ensures
            r == self@.rect_of(id),
    {
        match self.rect.get(&id) {
            Some(r) => Some(*r),
            None => None,
        }
    }

    /// Sets the rectangle of `id` outside a layout pass.
    pub fn set(&mut self, id: NodeId, rect: Rect)
        ensures
            final(self)@.rect == old(self)@.rect.insert(id, rect),
            final(self)@.geometry_changed == old(self)@.geometry_changed,
    {
        self.rect.insert(id, rect);
    }

    /// Whether the last pass changed the rectangle of `id`.
    pub fn geometry_changed(&self, id: NodeId) -> (r: bool)
        ensures
            r == self@.has_geometry_changed(id),
    {
        self.geometry_changed.contains_key(&id)
    }

    /// Takes the results of a layout pass into the cache, and returns the
    /// nodes below every node whose rectangle changed.
    pub fn update(&mut self, tree: &Tree, solved: &Vec<LayoutResult>) -> (affected: Vec<NodeId>)
        ensures
            final(self)@ == old(self)@.after_pass(tree@, solved@),
            affected@ == old(self)@.affected_by_pass(tree@, solved@),
    {
        self.geometry_changed.clear();
        let ghost start = LayoutModel { rect: old(self)@.rect, geometry_changed: Map::empty() };
        assert(self@.geometry_changed =~= start.geometry_changed);
        let mut affected: Vec<NodeId> = Vec::new();
        let mut i: usize = 0;
        assert(solved@.take(0) =~= Seq::<LayoutResult>::empty());
        while i < solved.len()
            invariant
                i <= solved.len(),
                self@ == start.steps(tree@, solved@.take(i as int)),
                affected@ == start.affected(tree@, solved@.take(i as int)),
            decreases solved.len() - i,
        {
            let result = solved[i];
            proof {
                let next = solved@.take(i + 1);
                assert(next.drop_last() =~= solved@.take(i as int));
                assert(next.last() == result);
            }
            let same = match self.rect.get(&result.node) {
                Some(r) => *r == result.rect,
                None => false,
            };
            if !same {
                let ghost before = self@;
                let below = tree.down_iter_at(result.node, false);
                self.rect.insert(result.node, result.rect);
                let mut k: usize = 0;
                let ghost base = affected@;
                while k < below.len()
                    invariant
                        k <= below.len(),
                        affected@ == base + below@.take(k as int),
                    decreases below.len() - k,
                {
                    affected.push(below[k]);
                    assert(below@.take(k + 1) =~= below@.take(k as int).push(below@[k as int]));
                    k = k + 1;
                }
                assert(below@.take(below.len() as int) =~= below@);
                self.geometry_changed.insert(result.node, below);
                assert(self@.geometry_changed =~= before.step(tree@, result).geometry_changed);
            }
            i = i + 1;
        }
        assert(solved@.take(solved.len() as int) =~= solved@);
        affected
    }
}

} // verus!
