//! The subset of the scene tree that can take the keyboard focus.

use crate::node::NodeId;
use crate::tree::Tree;
use crate::tree_model::TreeModel;
use vstd::prelude::*;

verus! {

/// Mathematical model of a [`FocusTree`].
pub struct FocusModel {
    pub tree: TreeModel,
    pub current: Option<NodeId>,
}

/// The focusable nodes, each below its nearest focusable ancestor, and the
/// node that has the focus.
pub struct FocusTree {
    tree: Tree,
    current_focus: Option<NodeId>,
}

impl View for FocusTree {
    type V = FocusModel;

    closed spec fn view(&self) -> FocusModel {
        FocusModel { tree: self.tree@, current: self.current_focus }
    }
}

impl FocusModel {
    /// The tree is a forest, and the node that has the focus is in it.
    pub open spec fn wf(self) -> bool {
        &&& self.tree.wf()
        &&& match self.current {
            Some(c) => self.tree.contains(c),
            None => true,
        }
    }

    /// The nodes of the focus tree.
    pub open spec fn members(self) -> Set<NodeId> {
        Set::new(|n: NodeId| self.tree.contains(n))
    }
}

impl FocusTree {
    /// A focus tree without nodes and without focus.
    pub fn new() -> (r: FocusTree)
        ensures
            r@.wf(),
            r@.tree == TreeModel::empty(),
            r@.current == None::<NodeId>,
    {
        FocusTree { tree: Tree::new(), current_focus: None }
    }

    /// Empties the tree and drops the focus.
    pub fn clear(&mut self)
        ensures
            final(self)@.wf(),
            final(self)@.tree == TreeModel::empty(),
            final(self)@.current == None::<NodeId>,
    {
        self.tree = Tree::new();
        self.current_focus = None;
    }

    /// Whether `index` is in the focus tree.
    pub fn contains(&self, index: NodeId) -> (r: bool)
        ensures
            r == self@.tree.contains(index),
    {
        self.tree.contains(index)
    }

    /// The node that has the focus.
    pub fn current(&self) -> (r: Option<NodeId>)
        ensures
            r == self@.current,
    {
        self.current_focus
    }

    /// Gives `index` the focus if it is focusable; else the focus stays.
    pub fn focus(&mut self, index: NodeId)
        requires
            old(self)@.wf(),
        ensures
            final(self)@.wf(),
            final(self)@.tree == old(self)@.tree,
            final(self)@.current == if old(self)@.tree.contains(index) {
                Some(index)
            } else {
                old(self)@.current
            },
    {
        if self.tree.contains(index) {
            self.current_focus = Some(index);
        }
    }

    /// Drops the focus.
    pub fn blur(&mut self)
        requires
            old(self)@.wf(),
        ensures
            final(self)@.wf(),
            final(self)@.tree == old(self)@.tree,
            final(self)@.current == None::<NodeId>,
    {
        self.current_focus = None;
    }

    /// The nearest proper ancestor of `index` in `widget_tree` that is
    /// focusable.
    fn focusable_ancestor(&self, index: NodeId, widget_tree: &Tree) -> (r: Option<NodeId>)
        requires
            widget_tree@.wf(),
        ensures
            r == widget_tree@.nearest_marked(index, self@.members()),
    {
        let ghost t = widget_tree@;
        let ghost marked = self@.members();
        let mut cur = index;
        let mut k: usize = 0;
        let bound = widget_tree.len();
        proof {
            assert(t.ancestor_at(index, 0) == Some(index));
        }
        loop
            invariant
                t == widget_tree@,
                t.wf(),
                marked == self@.members(),
                t.ancestor_at(index, k as nat) == Some(cur),
                k <= t.parents.len(),
                bound == t.parents.len(),
                forall|j: nat| j <= k ==> !t.marked_at(index, marked, j),
            decreases t.parents.len() - k,
        {
            match widget_tree.parent(cur) {
                None => {
                    proof {
                        assert forall|j: nat| !t.marked_at(index, marked, j) by {
                            if j > k {
                                t.lemma_ancestor_compose(index, cur, k as nat, (j - k) as nat);
                                assert(k as nat + (j - k) as nat == j);
                                assert(t.ancestor_at(cur, (j - k) as nat) == None::<NodeId>);
                            }
                        }
                        t.lemma_nearest_marked_none(index, marked);
                    }
                    return None;
                },
                Some(p) => {
                    proof {
                        t.lemma_ancestor_step(index, k as nat);
                        t.lemma_depth_bound(index, (k + 1) as nat);
                    }
                    if self.tree.contains(p) {
                        proof {
                            assert(t.marked_at(index, marked, (k + 1) as nat));
                            t.lemma_nearest_marked(index, marked, (k + 1) as nat);
                        }
                        return Some(p);
                    }
                    cur = p;
                    k = k + 1;
                },
            }
        }
    }

    /// Takes `index` into the focus tree, below its nearest focusable
    /// ancestor in `widget_tree`; without such an ancestor it becomes the
    /// root of the focus tree. The focus is dropped if that takes the node
    /// that had it out of the tree.
    pub fn add(&mut self, index: NodeId, widget_tree: &Tree)
        requires
            old(self)@.wf(),
            widget_tree@.wf(),
        ensures
            final(self)@.wf(),
            final(self)@.tree == old(self)@.tree.add(
                index,
                widget_tree@.nearest_marked(index, old(self)@.members()),
            ),
            final(self)@.current == match old(self)@.current {
                Some(c) => if final(self)@.tree.contains(c) {
                    Some(c)
                } else {
                    None
                },
                None => None,
            },
    {
        let parent = self.focusable_ancestor(index, widget_tree);
        self.tree.add(index, parent);
        match self.current_focus {
            Some(c) => {
                if !self.tree.contains(c) {
                    self.current_focus = None;
                }
            },
            None => {},
        }
    }

    /// Takes `index` and all below it out of the focus tree; the focus is
    /// dropped if it was on one of them.
    pub fn remove(&mut self, index: NodeId)
        requires
            old(self)@.wf(),
        ensures
            final(self)@.wf(),
            final(self)@.tree == old(self)@.tree.remove(index),
            final(self)@.current == match old(self)@.current {
                Some(c) => if old(self)@.tree.remove(index).contains(c) {
                    Some(c)
                } else {
                    None
                },
                None => None,
            },
    {
        self.tree.remove(index);
        match self.current_focus {
            Some(c) => {
                if !self.tree.contains(c) {
                    self.current_focus = None;
                }
            },
            None => {},
        }
    }
}

} // verus!
