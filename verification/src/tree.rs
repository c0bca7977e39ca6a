//! The persistent parent/child structure over node handles.

use crate::diff::{contains_id, diff, Change, ChildChanges};
use crate::node::NodeId;
use crate::node_set::lemma_take_to_set;
use crate::tree_model::{without, TreeModel};
use std::collections::HashMap;
use vstd::prelude::*;

verus! {

broadcast use vstd::std_specs::hash::group_hash_axioms;

/// Persistent parent/child structure. Child order is significant: it is the
/// order in which children are updated and painted.
pub struct Tree {
    children: HashMap<NodeId, Vec<NodeId>>,
    parents: HashMap<NodeId, NodeId>,
    root_node: Option<NodeId>,
}

impl View for Tree {
    type V = TreeModel;

    closed spec fn view(&self) -> TreeModel {
        TreeModel {
            parents: self.parents@,
            children: self.children@.map_values(|v: Vec<NodeId>| v@),
            root: self.root_node,
        }
    }
}

impl Tree {
    /// A tree without nodes.
    pub fn new() -> (t: Tree)
        ensures
            t@ == TreeModel::empty(),
            t@.wf(),
    {
        let t = Tree { children: HashMap::new(), parents: HashMap::new(), root_node: None };
        assert(t@.children =~= Map::empty());
        assert(t@.parents =~= Map::empty());
        t
    }

    /// The root, if there is one.
    pub fn root(&self) -> (r: Option<NodeId>)
        ensures
            r == self@.root,
    {
        self.root_node
    }

    /// The parent of `index`, if it has one.
    pub fn parent(&self, index: NodeId) -> (r: Option<NodeId>)
        ensures
            r == self@.parent_of(index),
    {
        match self.parents.get(&index) {
            Some(p) => Some(*p),
            None => None,
        }
    }

    /// How many nodes have a parent. No node lies deeper than this.
    pub fn len(&self) -> (r: usize)
        ensures
            r == self@.parents.len(),
    {
        self.parents.len()
    }

    /// The children of `index`, in order.
    pub fn children(&self, index: NodeId) -> (r: Vec<NodeId>)
        ensures
            r@ == self@.children_of(index),
    {
        match self.children.get(&index) {
            Some(list) => copy_ids(list),
            None => Vec::new(),
        }
    }

    /// Appends the pre-order walk from `n`, `fuel` levels deep, to `out`.
    fn walk(&self, n: NodeId, fuel: usize, out: &mut Vec<NodeId>)
        ensures
            final(out)@ == old(out)@ + self@.preorder(n, fuel as nat),
        decreases fuel,
    {
        out.push(n);
        if fuel > 0 {
            let ghost base = out@;
            match self.children.get(&n) {
                Some(list) => {
                    let mut i: usize = 0;
                    assert(list@.take(0) =~= Seq::<NodeId>::empty());
                    while i < list.len()
                        invariant
                            fuel > 0,
                            i <= list.len(),
                            list@ == self@.children_of(n),
                            out@ == base + self@.preorder_list(
                                list@.take(i as int),
                                (fuel - 1) as nat,
                            ),
                        decreases list.len() - i,
                    {
                        self.walk(list[i], fuel - 1, out);
                        proof {
                            let next = list@.take(i + 1);
                            assert(next.drop_last() =~= list@.take(i as int));
                            assert(next.last() == list@[i as int]);
                        }
                        i = i + 1;
                    }
                    assert(list@.take(list.len() as int) =~= list@);
                },
                None => {
                    assert(self@.preorder_list(Seq::<NodeId>::empty(), (fuel - 1) as nat)
                        =~= Seq::<NodeId>::empty());
                },
            }
            assert(out@ =~= old(out)@ + self@.preorder(n, fuel as nat));
        } else {
            assert(out@ =~= old(out)@ + self@.preorder(n, fuel as nat));
        }
    }

    /// `node` (where `include_self` is set) and all that lies below it, in
    /// pre-order.
    pub fn down_iter_at(&self, node: NodeId, include_self: bool) -> (r: Vec<NodeId>)
        ensures
            r@ == if include_self {
                self@.subtree(node)
            } else {
                self@.subtree(node).skip(1)
            },
    {
        let mut out: Vec<NodeId> = Vec::new();
        self.walk(node, self.parents.len(), &mut out);
        assert(out@ =~= self@.subtree(node));
        if !include_self {
            out.remove(0);
            assert(out@ =~= self@.subtree(node).skip(1));
        }
        out
    }

    /// Every node that hangs below the root, the root first, in pre-order.
    pub fn down_iter(&self) -> (r: Vec<NodeId>)
        ensures
            r@ == match self@.root {
                Some(root) => self@.subtree(root),
                None => Seq::empty(),
            },
    {
        match self.root_node {
            Some(root) => self.down_iter_at(root, true),
            None => Vec::new(),
        }
    }

    /// Takes `index` and all that lies below it out of the tree, and returns
    /// what was taken out, in pre-order.
    pub fn remove(&mut self, index: NodeId) -> (removed: Vec<NodeId>)
        requires
            old(self)@.wf(),
        ensures
            final(self)@.wf(),
            final(self)@ == old(self)@.remove(index),
            removed@ == old(self)@.subtree(index),
    {
        let ghost before = self@;
        let removed = self.down_iter_at(index, true);
        match self.parents.get(&index) {
            Some(q) => {
                let q = *q;
                let list = match self.children.remove(&q) {
                    Some(l) => l,
                    None => Vec::new(),
                };
                let rest = remove_id(&list, index);
                self.children.insert(q, rest);
            },
            None => {},
        }
        if self.root_node == Some(index) {
            self.root_node = None;
        }
        let ghost mid_children = self.children@;
        let ghost mid_parents = self.parents@;
        let mut i: usize = 0;
        assert(removed@.take(0).to_set() =~= Set::<NodeId>::empty());
        while i < removed.len()
            invariant
                i <= removed.len(),
                self.parents@ =~= mid_parents.remove_keys(removed@.take(i as int).to_set()),
                self.children@ =~= mid_children.remove_keys(removed@.take(i as int).to_set()),
                self.root_node == if before.root == Some(index) {
                    None
                } else {
                    before.root
                },
            decreases removed.len() - i,
        {
            let x = removed[i];
            self.parents.remove(&x);
            self.children.remove(&x);
            proof {
                lemma_take_to_set(removed@, i as int);
            }
            i = i + 1;
        }
        proof {
            assert(removed@.take(removed.len() as int) =~= removed@);
            let gone = Set::new(|x: NodeId| before.is_descendant(x, index));
            assert(removed@.to_set() =~= gone) by {
                assert forall|y: NodeId| removed@.to_set().contains(y) <==> gone.contains(y) by {
                    before.lemma_subtree_descendants(index, y);
                }
            }
            assert(self@.parents =~= before.remove(index).parents);
            assert(self@.children =~= before.remove(index).children);
            before.lemma_remove_wf(index);
        }
        removed
    }

    /// Whether `node` may stand in the child list of `parent`.
    fn placeable(&self, node: NodeId, parent: NodeId) -> (r: bool)
        requires
            self@.wf(),
        ensures
            r == self@.placeable(node, parent),
    {
        match self.parents.get(&node) {
            Some(q) => *q == parent,
            None => self.root_node != Some(node) && !self.is_descendant(parent, node),
        }
    }

    /// The edit script between the children of `parent` here and in `other`.
    pub fn diff_children(&self, other: &Tree, parent: NodeId) -> (r: ChildChanges)
        ensures
            r@ == crate::diff::diff_spec(parent, self@.children_of(parent), other@.children_of(parent)),
    {
        let old = self.children(parent);
        let new = other.children(parent);
        diff(parent, &old, &new)
    }

    /// Applies an edit script to the children of `parent`: afterwards they are
    /// the nodes of the admitted steps, in script order (see
    /// [`TreeModel::merge`]).
    pub fn merge(&mut self, parent: NodeId, changes: &ChildChanges)
        requires
            old(self)@.wf(),
        ensures
            final(self)@.wf(),
            final(self)@ == old(self)@.merge(parent, changes@),
    {
        let ghost before = self@;
        if !self.contains(parent) {
            return ;
        }
        let mut list: Vec<NodeId> = Vec::new();
        let mut i: usize = 0;
        assert(changes@.take(0) =~= Seq::<crate::diff::ChildChange>::empty());
        while i < changes.changes.len()
            invariant
                i <= changes@.len(),
                self@ == before,
                before.wf(),
                list@ == before.kept(parent, changes@.take(i as int)),
            decreases changes@.len() - i,
        {
            let e = changes.changes[i];
            proof {
                let next = changes@.take(i + 1);
                assert(next.drop_last() =~= changes@.take(i as int));
                assert(next.last() == changes@[i as int]);
            }
            let deleted = match e.change {
                Change::Deleted => true,
                _ => false,
            };
            if e.parent == parent && !deleted && !contains_id(&list, e.node) && self.placeable(
                e.node,
                parent,
            ) {
                list.push(e.node);
            }
            i = i + 1;
        }
        assert(changes@.take(changes@.len() as int) =~= changes@);
        let old_list = self.children(parent);
        let ghost parents0 = self.parents@;
        let mut a: usize = 0;
        assert(old_list@.take(0).to_set() =~= Set::<NodeId>::empty());
        while a < old_list.len()
            invariant
                a <= old_list.len(),
                self.parents@ =~= parents0.remove_keys(old_list@.take(a as int).to_set()),
                self.children@ == old(self).children@,
                self.root_node == old(self).root_node,
            decreases old_list.len() - a,
        {
            let x = old_list[a];
            self.parents.remove(&x);
            proof {
                lemma_take_to_set(old_list@, a as int);
            }
            a = a + 1;
        }
        assert(old_list@.take(old_list.len() as int) =~= old_list@);
        let mut b: usize = 0;
        while b < list.len()
            invariant
                b <= list.len(),
                self.parents@ =~= Map::new(
                    |x: NodeId|
                        list@.take(b as int).contains(x) || (parents0.contains_key(x)
                            && !old_list@.contains(x)),
                    |x: NodeId|
                        if list@.take(b as int).contains(x) {
                            parent
                        } else {
                            parents0[x]
                        },
                ),
                self.children@ == old(self).children@,
                self.root_node == old(self).root_node,
            decreases list.len() - b,
        {
            let x = list[b];
            self.parents.insert(x, parent);
            proof {
                let prev = list@.take(b as int);
                let next = list@.take(b + 1);
                assert(next =~= prev.push(x));
                assert forall|y: NodeId| #[trigger] next.contains(y) <==> prev.contains(y) || y == x by {
                    if prev.contains(y) {
                        let j = choose|j: int| 0 <= j < prev.len() && prev[j] == y;
                        assert(next[j] == y);
                    }
                    if y == x {
                        assert(next[b as int] == y);
                    }
                    if next.contains(y) {
                        let j = choose|j: int| 0 <= j < next.len() && next[j] == y;
                        if j < b {
                            assert(prev[j] == y);
                        }
                    }
                }
            }
            b = b + 1;
        }
        assert(list@.take(list.len() as int) =~= list@);
        let ghost kept = list@;
        self.children.insert(parent, list);
        proof {
            let target = before.set_children(parent, kept);
            assert forall|x: NodeId| parents0.contains_key(x) implies (old_list@.contains(x)
                <==> parents0[x] == parent) by {
                if parents0[x] == parent {
                    assert(before.children[parent].contains(x));
                }
                if old_list@.contains(x) {
                    let j = choose|j: int| 0 <= j < old_list@.len() && old_list@[j] == x;
                    assert(before.parents.contains_key(before.children[parent][j]));
                }
            }
            assert(self@.parents =~= target.parents);
            assert(self@.children =~= target.children);
            before.lemma_merge_wf(parent, changes@);
        }
    }

    /// Whether `d` is `a` or lies below it.
    pub fn is_descendant(&self, d: NodeId, a: NodeId) -> (r: bool)
        requires
            self@.wf(),
        ensures
            r == self@.is_descendant(d, a),
    {
        proof {
            self@.lemma_chain_avoids_iff(d, a);
        }
        !self.chain_avoids(d, a)
    }

    /// Walks up from `start`; whether the walk ends without meeting `x`.
    fn chain_avoids(&self, start: NodeId, x: NodeId) -> (r: bool)
        ensures
            r == self@.chain_avoids(start, x, self@.parents.len()),
    {
        let mut cur = start;
        let mut fuel = self.parents.len();
        loop
            invariant
                fuel <= self@.parents.len(),
                self@.chain_avoids(start, x, self@.parents.len()) == self@.chain_avoids(
                    cur,
                    x,
                    fuel as nat,
                ),
            decreases fuel,
        {
            if cur == x {
                return false;
            }
            match self.parents.get(&cur) {
                None => {
                    return true;
                },
                Some(p) => {
                    if fuel == 0 {
                        return false;
                    }
                    cur = *p;
                    fuel = fuel - 1;
                },
            }
        }
    }

    /// Adds `index` to the tree: below `parent` where one is given (see
    /// [`TreeModel::add`] for when that is allowed), else as the root.
    pub fn add(&mut self, index: NodeId, parent: Option<NodeId>)
        requires
            old(self)@.wf(),
        ensures
            final(self)@.wf(),
            final(self)@ == old(self)@.add(index, parent),
    {
        match parent {
            None => {
                if !self.parents.contains_key(&index) {
                    self.root_node = Some(index);
                    proof {
                        old(self)@.lemma_acyclic_same_parents(self@);
                    }
                }
            },
            Some(p) => {
                proof {
                    self@.lemma_chain_avoids_iff(p, index);
                }
                if !self.parents.contains_key(&index) && self.root_node != Some(index)
                    && self.chain_avoids(p, index) {
                    let ghost before = self@;
                    assert(index != p) by {
                        assert(before.ancestor_at(p, 0) == Some(p));
                    }
                    self.parents.insert(index, p);
                    let mut list = match self.children.remove(&p) {
                        Some(l) => l,
                        None => Vec::new(),
                    };
                    list.push(index);
                    self.children.insert(p, list);
                    proof {
                        assert(self@.children =~= before.attach(index, p).children);
                        assert(self@ == before.attach(index, p));
                        before.lemma_attach_consistent(index, p);
                        before.lemma_attach_acyclic(index, p);
                    }
                }
            },
        }
    }

    /// Whether `index` is the root, has a parent, or owns a child list.
    pub fn contains(&self, index: NodeId) -> (r: bool)
        ensures
            r == self@.contains(index),
    {
        self.root_node == Some(index) || self.parents.contains_key(&index)
            || self.children.contains_key(&index)
    }
}

/// A copy of `list` without `x`.
pub fn remove_id(list: &Vec<NodeId>, x: NodeId) -> (r: Vec<NodeId>)
    ensures
        r@ == without(list@, x),
{
    let mut r: Vec<NodeId> = Vec::new();
    let mut i: usize = 0;
    while i < list.len()
        invariant
            i <= list.len(),
            r@ == without(list@.take(i as int), x),
        decreases list.len() - i,
    {
        proof {
            let next = list@.take(i + 1);
            assert(next.drop_last() =~= list@.take(i as int));
            assert(next.last() == list@[i as int]);
        }
        if list[i] != x {
            r.push(list[i]);
        }
        i = i + 1;
    }
    assert(list@.take(list.len() as int) =~= list@);
    r
}

/// A copy of a list of handles.
pub fn copy_ids(list: &Vec<NodeId>) -> (r: Vec<NodeId>)
    ensures
        r@ == list@,
{
    let mut r: Vec<NodeId> = Vec::new();
    let mut i: usize = 0;
    while i < list.len()
        invariant
            i <= list.len(),
            r@ == list@.take(i as int),
        decreases list.len() - i,
    {
        r.push(list[i]);
        assert(list@.take(i as int).push(list@[i as int]) =~= list@.take(i + 1));
        i = i + 1;
    }
    assert(list@.take(list.len() as int) =~= list@);
    r
}

} // verus!
