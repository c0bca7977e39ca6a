//! The mathematical model of the scene tree, and the facts about it that the
//! executable tree relies on.

use crate::diff::{deleted_steps, diff_spec, kept_steps, lemma_deleted_steps, Change, ChildChange};
use crate::node::NodeId;
use vstd::prelude::*;

verus! {

/// Mathematical model of a [`Tree`]: two redundant maps and an optional root.
pub struct TreeModel {
    pub parents: Map<NodeId, NodeId>,
    pub children: Map<NodeId, Seq<NodeId>>,
    pub root: Option<NodeId>,
}

impl TreeModel {
    /// The tree without nodes.
    pub open spec fn empty() -> TreeModel {
        TreeModel { parents: Map::empty(), children: Map::empty(), root: None }
    }

    /// The parent of `n`, if it has one.
    pub open spec fn parent_of(self, n: NodeId) -> Option<NodeId> {
        if self.parents.contains_key(n) {
            Some(self.parents[n])
        } else {
            None
        }
    }

    /// The children of `n` in order; none for a node without a child list.
    pub open spec fn children_of(self, n: NodeId) -> Seq<NodeId> {
        if self.children.contains_key(n) {
            self.children[n]
        } else {
            Seq::empty()
        }
    }

    /// A node is in the tree when it is the root, has a parent, or owns a
    /// child list.
    pub open spec fn contains(self, n: NodeId) -> bool {
        self.root == Some(n) || self.parents.contains_key(n) || self.children.contains_key(n)
    }

    /// The two maps agree with each other, no child occurs twice under one
    /// parent, and the root has no parent.
    pub open spec fn consistent(self) -> bool {
        &&& self.parents.dom().finite()
        &&& self.children.dom().finite()
        &&& forall|c: NodeId| #[trigger]
            self.parents.contains_key(c) ==> self.children.contains_key(self.parents[c])
                && self.children[self.parents[c]].contains(c)
        &&& forall|p: NodeId, i: int|
            self.children.contains_key(p) && 0 <= i < self.children[p].len()
                ==> self.parents.contains_key(#[trigger] self.children[p][i])
                && self.parents[self.children[p][i]] == p
        &&& forall|p: NodeId| #[trigger]
            self.children.contains_key(p) ==> self.children[p].no_duplicates()
        &&& match self.root {
            Some(r) => !self.parents.contains_key(r),
            None => true,
        }
    }

    /// The `k`-th ancestor of `n`: `n` itself for `k == 0`, its parent for
    /// `k == 1`, and so on; `None` once the chain has ended.
    pub open spec fn ancestor_at(self, n: NodeId, k: nat) -> Option<NodeId>
        decreases k,
    {
        if k == 0 {
            Some(n)
        } else if self.parents.contains_key(n) {
            self.ancestor_at(self.parents[n], (k - 1) as nat)
        } else {
            None
        }
    }

    /// `d` is `a` or lies below it.
    pub open spec fn is_descendant(self, d: NodeId, a: NodeId) -> bool {
        exists|k: nat| self.ancestor_at(d, k) == Some(a)
    }

    /// No node is its own proper ancestor.
    pub open spec fn acyclic(self) -> bool {
        forall|n: NodeId, k: nat| k >= 1 ==> #[trigger] self.ancestor_at(n, k) != Some(n)
    }

    /// A forest with at most one root.
    pub open spec fn wf(self) -> bool {
        self.consistent() && self.acyclic()
    }

    /// Walking up from `start` for at most `fuel` steps ends at a node without
    /// a parent and never meets `x`.
    pub open spec fn chain_avoids(self, start: NodeId, x: NodeId, fuel: nat) -> bool
        decreases fuel,
    {
        if start == x {
            false
        } else if !self.parents.contains_key(start) {
            true
        } else if fuel == 0 {
            false
        } else {
            self.chain_avoids(self.parents[start], x, (fuel - 1) as nat)
        }
    }

    /// `index` may become a child of `p`: it has no parent, is not the root,
    /// and is neither `p` nor above `p`.
    pub open spec fn can_attach(self, index: NodeId, p: NodeId) -> bool {
        &&& !self.parents.contains_key(index)
        &&& self.root != Some(index)
        &&& !self.is_descendant(p, index)
    }

    /// `index` appended to the children of `p`.
    pub open spec fn attach(self, index: NodeId, p: NodeId) -> TreeModel {
        TreeModel {
            parents: self.parents.insert(index, p),
            children: self.children.insert(p, self.children_of(p).push(index)),
            root: self.root,
        }
    }

    /// What [`Tree::add`] makes of the tree. With a parent, the node is
    /// attached where that is allowed; ownership is never taken away from
    /// another parent. Without one, the node becomes the root unless it is
    /// somebody's child.
    pub open spec fn add(self, index: NodeId, parent: Option<NodeId>) -> TreeModel {
        match parent {
            Some(p) => if self.can_attach(index, p) {
                self.attach(index, p)
            } else {
                self
            },
            None => if self.parents.contains_key(index) {
                self
            } else {
                TreeModel { parents: self.parents, children: self.children, root: Some(index) }
            },
        }
    }

    /// Chains depend on the parent map alone.
    proof fn lemma_ancestor_same_parents(self, other: TreeModel, n: NodeId, k: nat)
        requires
            self.parents == other.parents,
        ensures
            self.ancestor_at(n, k) == other.ancestor_at(n, k),
        decreases k,
    {
        if k > 0 && self.parents.contains_key(n) {
            self.lemma_ancestor_same_parents(other, self.parents[n], (k - 1) as nat);
        }
    }

    /// Whether a tree is free of cycles depends on the parent map alone.
    pub proof fn lemma_acyclic_same_parents(self, other: TreeModel)
        requires
            self.parents == other.parents,
            self.acyclic(),
        ensures
            other.acyclic(),
    {
        assert forall|n: NodeId, k: nat| k >= 1 implies #[trigger] other.ancestor_at(n, k)
            != Some(n) by {
            self.lemma_ancestor_same_parents(other, n, k);
        }
    }

    /// One more step up is the parent of where the chain stood.
    pub proof fn lemma_ancestor_step(self, n: NodeId, k: nat)
        ensures
            self.ancestor_at(n, k + 1) == match self.ancestor_at(n, k) {
                Some(x) => self.parent_of(x),
                None => None,
            },
        decreases k,
    {
        if self.parents.contains_key(n) {
            let q = self.parents[n];
            assert(self.ancestor_at(n, k + 1) == self.ancestor_at(q, k));
            if k > 0 {
                self.lemma_ancestor_step(q, (k - 1) as nat);
                assert(self.ancestor_at(n, k) == self.ancestor_at(q, (k - 1) as nat));
            } else {
                assert(self.ancestor_at(q, 0) == Some(q));
            }
        }
    }

    /// The nodes met on the first `k` steps up from `n`.
    spec fn chain_set(self, n: NodeId, k: nat) -> Set<NodeId>
        decreases k,
    {
        if k == 0 {
            Set::empty()
        } else {
            self.chain_set(n, (k - 1) as nat).insert(self.ancestor_at(n, (k - 1) as nat)->0)
        }
    }

    proof fn lemma_chain_set(self, n: NodeId, k: nat)
        requires
            self.acyclic(),
            self.ancestor_at(n, k) is Some,
        ensures
            self.chain_set(n, k).finite(),
            self.chain_set(n, k).len() == k,
            self.chain_set(n, k).subset_of(self.parents.dom()),
            forall|x: NodeId| #[trigger]
                self.chain_set(n, k).contains(x) ==> exists|i: nat|
                    i < k && self.ancestor_at(n, i) == Some(x),
        decreases k,
    {
        if k > 0 {
            let j = (k - 1) as nat;
            self.lemma_ancestor_step(n, j);
            let a = self.ancestor_at(n, j)->0;
            self.lemma_chain_set(n, j);
            let prev = self.chain_set(n, j);
            if prev.contains(a) {
                let i = choose|i: nat| i < j && self.ancestor_at(n, i) == Some(a);
                self.lemma_ancestor_compose(n, a, i, (j - i) as nat);
                assert(i + (j - i) as nat == j);
                assert(self.ancestor_at(a, (j - i) as nat) == Some(a));
            }
            assert forall|x: NodeId| #[trigger] self.chain_set(n, k).contains(x) implies exists|
                i: nat,
            |
                i < k && self.ancestor_at(n, i) == Some(x) by {
                if x == a {
                    assert(j < k && self.ancestor_at(n, j) == Some(x));
                } else {
                    let i = choose|i: nat| i < j && self.ancestor_at(n, i) == Some(x);
                    assert(i < k && self.ancestor_at(n, i) == Some(x));
                }
            }
        }
    }

    /// In a forest no chain is longer than the number of nodes that have a
    /// parent.
    pub proof fn lemma_depth_bound(self, n: NodeId, k: nat)
        requires
            self.wf(),
            self.ancestor_at(n, k) is Some,
        ensures
            k <= self.parents.len(),
    {
        self.lemma_chain_set(n, k);
        vstd::set_lib::lemma_len_subset(self.chain_set(n, k), self.parents.dom());
    }

    /// A walk that ends without meeting `x` shows that `x` is not on the chain,
    /// however far one looks.
    pub proof fn lemma_chain_avoids(self, start: NodeId, x: NodeId, fuel: nat, k: nat)
        requires
            self.chain_avoids(start, x, fuel),
        ensures
            self.ancestor_at(start, k) != Some(x),
        decreases fuel, k,
    {
        if k > 0 && self.parents.contains_key(start) {
            self.lemma_chain_avoids(self.parents[start], x, (fuel - 1) as nat, (k - 1) as nat);
        }
    }

    /// The tree in which the children of `parent` are exactly `list`, in that
    /// order: children that `list` lacks are cut loose with what hangs below
    /// them, and every node of `list` points to `parent`.
    pub open spec fn set_children(self, parent: NodeId, list: Seq<NodeId>) -> TreeModel {
        TreeModel {
            parents: Map::new(
                |x: NodeId|
                    list.contains(x) || (self.parents.contains_key(x) && self.parents[x] != parent),
                |x: NodeId|
                    if list.contains(x) {
                        parent
                    } else {
                        self.parents[x]
                    },
            ),
            children: self.children.insert(parent, list),
            root: self.root,
        }
    }

    /// A node may stand in the child list of `parent` when it is a child
    /// already or may be attached.
    pub open spec fn placeable(self, node: NodeId, parent: NodeId) -> bool {
        self.parent_of(node) == Some(parent) || self.can_attach(node, parent)
    }

    /// Whether a step of an edit script takes part in the new child list of
    /// `parent`. A deletion does not, nor does a step for another parent or
    /// for a node that is neither a child of `parent` nor free to become one.
    pub open spec fn admits(self, parent: NodeId, e: ChildChange) -> bool {
        e.parent == parent && e.change != Change::Deleted && self.placeable(e.node, parent)
    }

    /// The child list that an edit script asks for: the nodes of the admitted
    /// steps in script order, each once.
    pub open spec fn kept(self, parent: NodeId, script: Seq<ChildChange>) -> Seq<NodeId>
        decreases script.len(),
    {
        if script.len() == 0 {
            Seq::empty()
        } else {
            let front = self.kept(parent, script.drop_last());
            let e = script.last();
            if self.admits(parent, e) && !front.contains(e.node) {
                front.push(e.node)
            } else {
                front
            }
        }
    }

    /// What [`crate::tree::Tree::merge`] makes of the tree. A parent that is
    /// not in the tree has no children to edit.
    pub open spec fn merge(self, parent: NodeId, script: Seq<ChildChange>) -> TreeModel {
        if self.contains(parent) {
            self.set_children(parent, self.kept(parent, script))
        } else {
            self
        }
    }

    /// The child list that a script asks for names no node twice, and only
    /// nodes that may stand in it.
    pub proof fn lemma_kept(self, parent: NodeId, script: Seq<ChildChange>)
        ensures
            self.kept(parent, script).no_duplicates(),
            self.kept(parent, script).len() <= script.len(),
            forall|x: NodeId| #[trigger]
                self.kept(parent, script).contains(x) ==> self.placeable(x, parent),
        decreases script.len(),
    {
        if script.len() > 0 {
            self.lemma_kept(parent, script.drop_last());
            let front = self.kept(parent, script.drop_last());
            let list = self.kept(parent, script);
            assert forall|x: NodeId| #[trigger] list.contains(x) implies self.placeable(
                x,
                parent,
            ) by {
                let j = choose|j: int| 0 <= j < list.len() && list[j] == x;
                if j < front.len() {
                    assert(front[j] == x);
                    assert(front.contains(x));
                }
            }
        }
    }

    /// Every node of the new child list comes from an admitted step.
    pub proof fn lemma_kept_source(self, parent: NodeId, script: Seq<ChildChange>, x: NodeId)
        requires
            self.kept(parent, script).contains(x),
        ensures
            exists|i: int|
                0 <= i < script.len() && (#[trigger] script[i]).node == x && self.admits(
                    parent,
                    script[i],
                ),
        decreases script.len(),
    {
        if script.len() > 0 {
            let front = self.kept(parent, script.drop_last());
            let list = self.kept(parent, script);
            let j = choose|j: int| 0 <= j < list.len() && list[j] == x;
            if j < front.len() {
                assert(front[j] == x);
                self.lemma_kept_source(parent, script.drop_last(), x);
                let i = choose|i: int|
                    0 <= i < script.drop_last().len() && (#[trigger] script.drop_last()[i]).node
                        == x && self.admits(parent, script.drop_last()[i]);
                assert(script[i] == script.drop_last()[i]);
            } else {
                assert(script[script.len() - 1].node == x);
            }
        }
    }

    /// Giving a node a child list without repetitions, of nodes that may stand
    /// in it, leaves a forest a forest.
    pub proof fn lemma_set_children_wf(self, parent: NodeId, list: Seq<NodeId>)
        requires
            self.wf(),
            list.no_duplicates(),
            forall|x: NodeId| #[trigger] list.contains(x) ==> self.placeable(x, parent),
        ensures
            self.set_children(parent, list).wf(),
    {
        let t = self.set_children(parent, list);
        assert(t.parents.dom().finite()) by {
            vstd::seq_lib::seq_to_set_is_finite(list);
            let bound = self.parents.dom().union(list.to_set());
            assert(t.parents.dom().subset_of(bound));
            vstd::set_lib::lemma_len_subset(t.parents.dom(), bound);
        }
        assert forall|c: NodeId| #[trigger] t.parents.contains_key(c) implies t.children.contains_key(
            t.parents[c],
        ) && t.children[t.parents[c]].contains(c) by {
            if !list.contains(c) {
                assert(self.children[self.parents[c]].contains(c));
            }
        }
        assert forall|p: NodeId, i: int|
            t.children.contains_key(p) && 0 <= i < t.children[p].len() implies t.parents.contains_key(
            #[trigger] t.children[p][i],
        ) && t.parents[t.children[p][i]] == p by {
            if p == parent {
                assert(list.contains(list[i]));
            } else {
                let x = self.children[p][i];
                assert(self.parents.contains_key(x) && self.parents[x] == p);
                if list.contains(x) {
                    assert(self.placeable(x, parent));
                }
            }
        }
        match self.root {
            Some(r) => {
                if list.contains(r) {
                    assert(self.placeable(r, parent));
                }
            },
            None => {},
        }
        let fresh = list.to_set();
        assert(self.rewired(t, fresh, parent));
        assert forall|j: nat| (#[trigger] self.ancestor_at(parent, j)) is Some implies !fresh.contains(
            self.ancestor_at(parent, j)->0,
        ) by {
            let c = self.ancestor_at(parent, j)->0;
            if list.contains(c) {
                assert(self.placeable(c, parent));
                if self.parent_of(c) == Some(parent) {
                    assert(self.ancestor_at(c, j + 1) == self.ancestor_at(parent, j));
                }
            }
        }
        self.lemma_rewired_acyclic(t, fresh, parent);
    }

    /// Above `parent` nothing changes when `parent` gets a new child list.
    pub proof fn lemma_set_children_chain(self, parent: NodeId, list: Seq<NodeId>, k: nat)
        requires
            self.wf(),
            forall|x: NodeId| #[trigger] list.contains(x) ==> self.placeable(x, parent),
            self.set_children(parent, list).ancestor_at(parent, k) is Some,
        ensures
            self.ancestor_at(parent, k) == self.set_children(parent, list).ancestor_at(parent, k),
    {
        let t = self.set_children(parent, list);
        let fresh = list.to_set();
        assert(self.rewired(t, fresh, parent));
        assert forall|j: nat| (#[trigger] self.ancestor_at(parent, j)) is Some implies !fresh.contains(
            self.ancestor_at(parent, j)->0,
        ) by {
            let c = self.ancestor_at(parent, j)->0;
            if list.contains(c) {
                assert(self.placeable(c, parent));
                if self.parent_of(c) == Some(parent) {
                    assert(self.ancestor_at(c, j + 1) == self.ancestor_at(parent, j));
                }
            }
        }
        self.lemma_rewired_chain_same(t, fresh, parent, parent, k);
    }

    /// Taking out the subtree of a node that `n` does not lie below, and that
    /// is not among the children of `n`, leaves the children of `n` as they
    /// are.
    pub proof fn lemma_remove_keeps_children(self, index: NodeId, n: NodeId)
        requires
            self.wf(),
            !self.is_descendant(n, index),
            !self.children_of(n).contains(index),
        ensures
            self.remove(index).children_of(n) == self.children_of(n),
            forall|r: NodeId|
                !self.is_descendant(n, r) ==> !(#[trigger] self.remove(index).is_descendant(n, r)),
    {
        let t = self.remove(index);
        if self.parents.contains_key(index) {
            lemma_without(self.children_of(self.parents[index]), index);
        }
        assert forall|r: NodeId| !self.is_descendant(n, r) implies !(#[trigger] t.is_descendant(
            n,
            r,
        )) by {
            if t.is_descendant(n, r) {
                let k = choose|k: nat| t.ancestor_at(n, k) == Some(r);
                self.lemma_ancestor_submap(t, n, k);
            }
        }
    }

    /// Editing the child list of a node leaves a forest a forest.
    pub proof fn lemma_merge_wf(self, parent: NodeId, script: Seq<ChildChange>)
        requires
            self.wf(),
        ensures
            self.merge(parent, script).wf(),
    {
        self.lemma_kept(parent, script);
        if self.contains(parent) {
            self.lemma_set_children_wf(parent, self.kept(parent, script));
        }
    }

    proof fn lemma_kept_of_deletions(self, parent: NodeId, script: Seq<ChildChange>)
        requires
            forall|i: int| 0 <= i < script.len() ==> (#[trigger] script[i]).change == Change::Deleted,
        ensures
            self.kept(parent, script) == Seq::<NodeId>::empty(),
        decreases script.len(),
    {
        if script.len() > 0 {
            assert forall|i: int| 0 <= i < script.drop_last().len() implies (
            #[trigger] script.drop_last()[i]).change == Change::Deleted by {
                assert(script.drop_last()[i] == script[i]);
            }
            self.lemma_kept_of_deletions(parent, script.drop_last());
            assert(script[script.len() - 1].change == Change::Deleted);
        }
    }

    proof fn lemma_kept_of_diff(self, parent: NodeId, new: Seq<NodeId>, j: nat)
        requires
            self.wf(),
            new.no_duplicates(),
            new.len() <= usize::MAX,
            self.children_of(parent).len() <= usize::MAX,
            forall|x: NodeId| #[trigger] new.contains(x) ==> self.placeable(x, parent),
            j <= new.len(),
        ensures
            self.kept(
                parent,
                deleted_steps(parent, self.children_of(parent), new) + kept_steps(
                    parent,
                    self.children_of(parent),
                    new,
                ).take(j as int),
            ) == new.take(j as int),
        decreases j,
    {
        let old = self.children_of(parent);
        let d = deleted_steps(parent, old, new);
        let k = kept_steps(parent, old, new);
        if j == 0 {
            lemma_deleted_steps(parent, old, new);
            self.lemma_kept_of_deletions(parent, d);
            assert(d + k.take(0) =~= d);
            assert(new.take(0) =~= Seq::<NodeId>::empty());
        } else {
            let i = (j - 1) as nat;
            self.lemma_kept_of_diff(parent, new, i);
            let script = d + k.take(j as int);
            assert(script.drop_last() =~= d + k.take(i as int));
            assert(script.last() == k[i as int]);
            let e = k[i as int];
            assert(new.contains(new[i as int]));
            assert(e.node == new[i as int]);
            assert(!new.take(i as int).contains(e.node)) by {
                if new.take(i as int).contains(e.node) {
                    let m = choose|m: int| 0 <= m < i && new.take(i as int)[m] == e.node;
                    assert(new[m] == new[i as int]);
                }
            }
            assert(new.take(j as int) =~= new.take(i as int).push(new[i as int]));
        }
    }

    /// Applying the edit script between a node's children and a new list
    /// leaves the node with exactly the new list, provided the new list names
    /// no node twice and only nodes that are children already or free to
    /// become children.
    pub proof fn lemma_merge_diff(self, parent: NodeId, new: Seq<NodeId>)
        requires
            self.wf(),
            self.contains(parent),
            new.no_duplicates(),
            new.len() <= usize::MAX,
            self.children_of(parent).len() <= usize::MAX,
            forall|x: NodeId| #[trigger] new.contains(x) ==> self.placeable(x, parent),
        ensures
            self.merge(parent, diff_spec(parent, self.children_of(parent), new)).wf(),
            self.merge(parent, diff_spec(parent, self.children_of(parent), new)).children_of(parent)
                == new,
            forall|x: NodeId| #[trigger]
                new.contains(x) ==> self.merge(
                    parent,
                    diff_spec(parent, self.children_of(parent), new),
                ).parent_of(x) == Some(parent),
    {
        let old = self.children_of(parent);
        let k = kept_steps(parent, old, new);
        self.lemma_kept_of_diff(parent, new, new.len());
        assert(k.take(new.len() as int) =~= k);
        assert(new.take(new.len() as int) =~= new);
        self.lemma_merge_wf(parent, diff_spec(parent, old, new));
    }

    /// The `k`-th ancestor of `n` exists, is not `n` itself, and is marked.
    pub open spec fn marked_at(self, n: NodeId, marked: Set<NodeId>, k: nat) -> bool {
        k >= 1 && self.ancestor_at(n, k) is Some && marked.contains(self.ancestor_at(n, k)->0)
    }

    /// The `k`-th ancestor of `n` is marked, and no ancestor between the two
    /// is.
    pub open spec fn first_marked_at(self, n: NodeId, marked: Set<NodeId>, k: nat) -> bool {
        self.marked_at(n, marked, k) && forall|j: nat| j < k ==> !self.marked_at(n, marked, j)
    }

    /// The nearest proper ancestor of `n` that is marked.
    pub open spec fn nearest_marked(self, n: NodeId, marked: Set<NodeId>) -> Option<NodeId> {
        if exists|k: nat| self.first_marked_at(n, marked, k) {
            self.ancestor_at(n, choose|k: nat| self.first_marked_at(n, marked, k))
        } else {
            None
        }
    }

    /// The ancestor at the first marked position is the nearest marked
    /// ancestor.
    pub proof fn lemma_nearest_marked(self, n: NodeId, marked: Set<NodeId>, k: nat)
        requires
            self.first_marked_at(n, marked, k),
        ensures
            self.nearest_marked(n, marked) == self.ancestor_at(n, k),
    {
        let c = choose|c: nat| self.first_marked_at(n, marked, c);
        if c < k {
            assert(!self.marked_at(n, marked, c));
        }
        if k < c {
            assert(!self.marked_at(n, marked, k));
        }
    }

    /// Where no ancestor is marked there is no nearest marked ancestor.
    pub proof fn lemma_nearest_marked_none(self, n: NodeId, marked: Set<NodeId>)
        requires
            forall|k: nat| !self.marked_at(n, marked, k),
        ensures
            self.nearest_marked(n, marked) == None::<NodeId>,
    {
    }

    /// The tree without `index` and all that lies below it.
    pub open spec fn remove(self, index: NodeId) -> TreeModel {
        let gone = Set::new(|x: NodeId| self.is_descendant(x, index));
        let children = match self.parent_of(index) {
            Some(q) => self.children.insert(q, without(self.children_of(q), index)),
            None => self.children,
        };
        TreeModel {
            parents: self.parents.remove_keys(gone),
            children: children.remove_keys(gone),
            root: if self.root == Some(index) {
                None
            } else {
                self.root
            },
        }
    }

    /// With fewer edges every chain that is left was there before.
    proof fn lemma_ancestor_submap(self, other: TreeModel, n: NodeId, k: nat)
        requires
            other.parents.submap_of(self.parents),
            other.ancestor_at(n, k) is Some,
        ensures
            self.ancestor_at(n, k) == other.ancestor_at(n, k),
        decreases k,
    {
        if k > 0 {
            assert(other.parents.contains_key(n));
            assert(self.parents.contains_key(n));
            self.lemma_ancestor_submap(other, other.parents[n], (k - 1) as nat);
        }
    }

    proof fn lemma_acyclic_submap(self, other: TreeModel)
        requires
            other.parents.submap_of(self.parents),
            self.acyclic(),
        ensures
            other.acyclic(),
    {
        assert forall|n: NodeId, k: nat| k >= 1 implies #[trigger] other.ancestor_at(n, k)
            != Some(n) by {
            if other.ancestor_at(n, k) is Some {
                self.lemma_ancestor_submap(other, n, k);
            }
        }
    }

    /// Taking a subtree out leaves a forest a forest.
    pub proof fn lemma_remove_wf(self, index: NodeId)
        requires
            self.wf(),
        ensures
            self.remove(index).wf(),
    {
        let t = self.remove(index);
        let gone = Set::new(|x: NodeId| self.is_descendant(x, index));
        let mid = match self.parent_of(index) {
            Some(q) => self.children.insert(q, without(self.children_of(q), index)),
            None => self.children,
        };
        assert(self.ancestor_at(index, 0) == Some(index));
        assert(gone.contains(index));
        vstd::set_lib::lemma_len_subset(t.parents.dom(), self.parents.dom());
        assert(mid.dom().finite());
        vstd::set_lib::lemma_len_subset(t.children.dom(), mid.dom());
        if self.parents.contains_key(index) {
            lemma_without(self.children_of(self.parents[index]), index);
        }
        assert forall|c: NodeId| #[trigger] t.parents.contains_key(c) implies t.children.contains_key(
            t.parents[c],
        ) && t.children[t.parents[c]].contains(c) by {
            let q = self.parents[c];
            if gone.contains(q) {
                let k = choose|k: nat| self.ancestor_at(q, k) == Some(index);
                assert(self.ancestor_at(c, k + 1) == self.ancestor_at(q, k));
                assert(self.is_descendant(c, index));
            }
            assert(self.children[q].contains(c));
        }
        assert forall|p: NodeId, i: int|
            t.children.contains_key(p) && 0 <= i < t.children[p].len() implies t.parents.contains_key(
            #[trigger] t.children[p][i],
        ) && t.parents[t.children[p][i]] == p by {
            let x = t.children[p][i];
            assert(t.children[p].contains(x));
            assert(self.children.contains_key(p));
            assert(self.children[p].contains(x));
            let i0 = choose|i0: int| 0 <= i0 < self.children[p].len() && self.children[p][i0] == x;
            assert(self.parents.contains_key(self.children[p][i0]));
            if gone.contains(x) {
                let k = choose|k: nat| self.ancestor_at(x, k) == Some(index);
                if k > 0 {
                    assert(self.ancestor_at(x, k) == self.ancestor_at(p, (k - 1) as nat));
                    assert(self.is_descendant(p, index));
                }
            }
        }
        assert forall|p: NodeId| #[trigger]
            t.children.contains_key(p) implies t.children[p].no_duplicates() by {
            assert(self.children.contains_key(p));
        }
        self.lemma_acyclic_submap(t);
    }

    /// What was taken out with a subtree is not in the tree any more.
    pub proof fn lemma_removed_not_contained(self, index: NodeId, x: NodeId)
        requires
            self.wf(),
            self.is_descendant(x, index),
        ensures
            !self.remove(index).contains(x),
    {
        let k = choose|k: nat| self.ancestor_at(x, k) == Some(index);
        if self.root == Some(x) && x != index {
            assert(k > 0);
            assert(self.parents.contains_key(x));
        }
    }

    /// `n` followed by everything below it, parents before children and
    /// siblings in child order, down to `fuel` levels.
    pub open spec fn preorder(self, n: NodeId, fuel: nat) -> Seq<NodeId>
        decreases fuel, 0nat,
    {
        if fuel == 0 {
            seq![n]
        } else {
            seq![n] + self.preorder_list(self.children_of(n), (fuel - 1) as nat)
        }
    }

    /// The pre-order walks of the nodes of `list`, one after the other.
    pub open spec fn preorder_list(self, list: Seq<NodeId>, fuel: nat) -> Seq<NodeId>
        decreases fuel, list.len() + 1,
    {
        if list.len() == 0 {
            Seq::empty()
        } else {
            self.preorder_list(list.drop_last(), fuel) + self.preorder(list.last(), fuel)
        }
    }

    /// `n` and all that lies below it, in pre-order. In a forest the number of
    /// nodes with a parent bounds the depth, so nothing is cut off.
    pub open spec fn subtree(self, n: NodeId) -> Seq<NodeId> {
        self.preorder(n, self.parents.len())
    }

    proof fn lemma_preorder_list_contains(self, list: Seq<NodeId>, fuel: nat, i: int, d: NodeId)
        requires
            0 <= i < list.len(),
            self.preorder(list[i], fuel).contains(d),
        ensures
            self.preorder_list(list, fuel).contains(d),
        decreases list.len(),
    {
        let front = self.preorder_list(list.drop_last(), fuel);
        let back = self.preorder(list.last(), fuel);
        if i == list.len() - 1 {
            let j = choose|j: int| 0 <= j < back.len() && back[j] == d;
            assert((front + back)[front.len() + j] == d);
        } else {
            assert(list.drop_last()[i] == list[i]);
            self.lemma_preorder_list_contains(list.drop_last(), fuel, i, d);
            let j = choose|j: int| 0 <= j < front.len() && front[j] == d;
            assert((front + back)[j] == d);
        }
    }

    proof fn lemma_preorder_sound(self, n: NodeId, fuel: nat, d: NodeId)
        requires
            self.consistent(),
            self.preorder(n, fuel).contains(d),
        ensures
            self.is_descendant(d, n),
        decreases fuel, 0nat,
    {
        if d == n {
            assert(self.ancestor_at(d, 0) == Some(n));
        } else {
            let rest = self.preorder_list(self.children_of(n), (fuel - 1) as nat);
            let j = choose|j: int| 0 <= j < self.preorder(n, fuel).len() && self.preorder(n, fuel)[j] == d;
            assert(rest[j - 1] == d);
            self.lemma_preorder_list_sound(self.children_of(n), (fuel - 1) as nat, d);
            let i = choose|i: int|
                0 <= i < self.children_of(n).len() && self.is_descendant(d, self.children_of(n)[i]);
            let c = self.children_of(n)[i];
            assert(self.parents.contains_key(self.children[n][i]));
            let k = choose|k: nat| self.ancestor_at(d, k) == Some(c);
            self.lemma_ancestor_step(d, k);
            assert(self.ancestor_at(d, k + 1) == Some(n));
        }
    }

    proof fn lemma_preorder_list_sound(self, list: Seq<NodeId>, fuel: nat, d: NodeId)
        requires
            self.consistent(),
            self.preorder_list(list, fuel).contains(d),
        ensures
            exists|i: int| 0 <= i < list.len() && self.is_descendant(d, list[i]),
        decreases fuel, list.len() + 1,
    {
        let front = self.preorder_list(list.drop_last(), fuel);
        let back = self.preorder(list.last(), fuel);
        let j = choose|j: int| 0 <= j < (front + back).len() && (front + back)[j] == d;
        if j < front.len() {
            assert(front[j] == d);
            self.lemma_preorder_list_sound(list.drop_last(), fuel, d);
            let i = choose|i: int|
                0 <= i < list.drop_last().len() && self.is_descendant(d, list.drop_last()[i]);
            assert(list[i] == list.drop_last()[i]);
        } else {
            assert(back[j - front.len()] == d);
            self.lemma_preorder_sound(list.last(), fuel, d);
            assert(list[list.len() - 1] == list.last());
        }
    }

    proof fn lemma_preorder_complete(self, n: NodeId, fuel: nat, a: nat, d: NodeId, k: nat)
        requires
            self.wf(),
            self.ancestor_at(n, a) is Some,
            fuel + a >= self.parents.len(),
            self.ancestor_at(d, k) == Some(n),
        ensures
            self.preorder(n, fuel).contains(d),
        decreases k,
    {
        assert(self.preorder(n, fuel)[0] == n);
        if k > 0 {
            let j = (k - 1) as nat;
            self.lemma_ancestor_step(d, j);
            let x = self.ancestor_at(d, j)->0;
            assert(self.parents[x] == n);
            assert(self.ancestor_at(x, a + 1) == self.ancestor_at(n, a));
            self.lemma_depth_bound(x, a + 1);
            self.lemma_preorder_complete(x, (fuel - 1) as nat, a + 1, d, j);
            let list = self.children_of(n);
            let i = choose|i: int| 0 <= i < list.len() && list[i] == x;
            self.lemma_preorder_list_contains(list, (fuel - 1) as nat, i, d);
            let rest = self.preorder_list(list, (fuel - 1) as nat);
            let m = choose|m: int| 0 <= m < rest.len() && rest[m] == d;
            assert(self.preorder(n, fuel)[m + 1] == d);
        }
    }

    /// The pre-order walk of a forest lists exactly the node and what lies
    /// below it.
    pub proof fn lemma_subtree_descendants(self, n: NodeId, d: NodeId)
        requires
            self.wf(),
        ensures
            self.subtree(n).contains(d) <==> self.is_descendant(d, n),
    {
        if self.subtree(n).contains(d) {
            self.lemma_preorder_sound(n, self.parents.len(), d);
        }
        if self.is_descendant(d, n) {
            let k = choose|k: nat| self.ancestor_at(d, k) == Some(n);
            self.lemma_preorder_complete(n, self.parents.len(), 0, d, k);
        }
    }

    proof fn lemma_chain_avoids_complete(self, p: NodeId, start: NodeId, x: NodeId, a: nat)
        requires
            self.wf(),
            a <= self.parents.len(),
            self.ancestor_at(p, a) == Some(start),
            !self.is_descendant(start, x),
        ensures
            self.chain_avoids(start, x, (self.parents.len() - a) as nat),
        decreases self.parents.len() - a,
    {
        assert(self.ancestor_at(start, 0) != Some(x));
        if self.parents.contains_key(start) {
            self.lemma_ancestor_step(p, a);
            self.lemma_depth_bound(p, a + 1);
            let q = self.parents[start];
            assert forall|j: nat| self.ancestor_at(q, j) != Some(x) by {
                assert(self.ancestor_at(start, j + 1) == self.ancestor_at(q, j));
            }
            self.lemma_chain_avoids_complete(p, q, x, a + 1);
        }
    }

    /// The bounded walk upward decides whether `x` is `start` or above it.
    pub proof fn lemma_chain_avoids_iff(self, start: NodeId, x: NodeId)
        requires
            self.wf(),
        ensures
            self.chain_avoids(start, x, self.parents.len()) <==> !self.is_descendant(start, x),
    {
        if self.chain_avoids(start, x, self.parents.len()) {
            assert forall|k: nat| self.ancestor_at(start, k) != Some(x) by {
                self.lemma_chain_avoids(start, x, self.parents.len(), k);
            }
        }
        if !self.is_descendant(start, x) {
            self.lemma_chain_avoids_complete(start, start, x, 0);
        }
    }

    /// Going up `j` steps and then `i` more is going up `j + i` steps.
    pub proof fn lemma_ancestor_compose(self, a: NodeId, b: NodeId, j: nat, i: nat)
        requires
            self.ancestor_at(a, j) == Some(b),
        ensures
            self.ancestor_at(a, j + i) == self.ancestor_at(b, i),
        decreases j,
    {
        if j > 0 {
            self.lemma_ancestor_compose(self.parents[a], b, (j - 1) as nat, i);
        }
    }

    /// Every edge of `other` is an edge of `self` or leads from a node of
    /// `fresh` to `p`.
    pub open spec fn rewired(self, other: TreeModel, fresh: Set<NodeId>, p: NodeId) -> bool {
        forall|x: NodeId| #[trigger]
            other.parents.contains_key(x) ==> if fresh.contains(x) {
                other.parents[x] == p
            } else {
                self.parents.contains_key(x) && self.parents[x] == other.parents[x]
            }
    }

    /// No node of `fresh` is `n` or lies above it.
    pub open spec fn chain_outside(self, n: NodeId, fresh: Set<NodeId>) -> bool {
        forall|j: nat|
            (#[trigger] self.ancestor_at(n, j)) is Some ==> !fresh.contains(
                self.ancestor_at(n, j)->0,
            )
    }

    /// Above a node whose chain never meets `fresh`, the new edges change
    /// nothing.
    proof fn lemma_rewired_chain_same(
        self,
        other: TreeModel,
        fresh: Set<NodeId>,
        p: NodeId,
        n: NodeId,
        k: nat,
    )
        requires
            self.rewired(other, fresh, p),
            self.chain_outside(n, fresh),
            other.ancestor_at(n, k) is Some,
        ensures
            self.ancestor_at(n, k) == other.ancestor_at(n, k),
        decreases k,
    {
        if k > 0 {
            assert(self.ancestor_at(n, 0) is Some);
            assert(other.parents.contains_key(n));
            let q = other.parents[n];
            assert forall|j: nat| (#[trigger] self.ancestor_at(q, j)) is Some implies !fresh.contains(
                self.ancestor_at(q, j)->0,
            ) by {
                assert(self.ancestor_at(n, j + 1) == self.ancestor_at(q, j));
            }
            self.lemma_rewired_chain_same(other, fresh, p, q, (k - 1) as nat);
        }
    }

    /// A chain of the rewired tree either is a chain of the old tree, or
    /// passes a node of `fresh` and goes on above `p`.
    proof fn lemma_rewired_chain(
        self,
        other: TreeModel,
        fresh: Set<NodeId>,
        p: NodeId,
        n: NodeId,
        k: nat,
    )
        requires
            self.rewired(other, fresh, p),
            self.chain_outside(p, fresh),
            other.ancestor_at(n, k) is Some,
        ensures
            self.ancestor_at(n, k) == other.ancestor_at(n, k) || exists|i: nat|
                i < k && (#[trigger] self.ancestor_at(n, i)) is Some && fresh.contains(
                    self.ancestor_at(n, i)->0,
                ) && self.ancestor_at(p, (k - i - 1) as nat) == other.ancestor_at(n, k),
        decreases k,
    {
        if k > 0 {
            assert(other.parents.contains_key(n));
            let q = other.parents[n];
            if fresh.contains(n) {
                self.lemma_rewired_chain_same(other, fresh, p, p, (k - 1) as nat);
                assert(self.ancestor_at(n, 0) == Some(n));
                assert(0 < k && self.ancestor_at(n, 0) is Some && fresh.contains(
                    self.ancestor_at(n, 0)->0,
                ) && self.ancestor_at(p, (k - 0 - 1) as nat) == other.ancestor_at(n, k));
            } else {
                self.lemma_rewired_chain(other, fresh, p, q, (k - 1) as nat);
                if self.ancestor_at(q, (k - 1) as nat) != other.ancestor_at(q, (k - 1) as nat) {
                    let i = choose|i: nat|
                        i < k - 1 && (#[trigger] self.ancestor_at(q, i)) is Some && fresh.contains(
                            self.ancestor_at(q, i)->0,
                        ) && self.ancestor_at(p, (k - 1 - i - 1) as nat) == other.ancestor_at(
                            q,
                            (k - 1) as nat,
                        );
                    assert(self.ancestor_at(n, i + 1) == self.ancestor_at(q, i));
                    assert(i + 1 < k && self.ancestor_at(n, i + 1) is Some && fresh.contains(
                        self.ancestor_at(n, i + 1)->0,
                    ) && self.ancestor_at(p, (k - (i + 1) - 1) as nat) == other.ancestor_at(n, k));
                }
            }
        }
    }

    /// Hanging nodes that do not lie above `p` below `p`, and cutting edges,
    /// leaves a forest a forest.
    pub proof fn lemma_rewired_acyclic(self, other: TreeModel, fresh: Set<NodeId>, p: NodeId)
        requires
            self.acyclic(),
            self.rewired(other, fresh, p),
            self.chain_outside(p, fresh),
        ensures
            other.acyclic(),
    {
        assert forall|n: NodeId, k: nat| k >= 1 implies #[trigger] other.ancestor_at(n, k)
            != Some(n) by {
            if other.ancestor_at(n, k) == Some(n) {
                self.lemma_rewired_chain(other, fresh, p, n, k);
                if self.ancestor_at(n, k) != other.ancestor_at(n, k) {
                    let i = choose|i: nat|
                        i < k && (#[trigger] self.ancestor_at(n, i)) is Some && fresh.contains(
                            self.ancestor_at(n, i)->0,
                        ) && self.ancestor_at(p, (k - i - 1) as nat) == other.ancestor_at(n, k);
                    self.lemma_ancestor_compose(p, n, (k - i - 1) as nat, i);
                    assert(self.ancestor_at(p, ((k - i - 1) as nat) + i) is Some);
                }
            }
        }
    }

    /// Hanging a node below one that it does not lie above closes no cycle.
    pub proof fn lemma_attach_acyclic(self, c: NodeId, p: NodeId)
        requires
            self.acyclic(),
            !self.is_descendant(p, c),
        ensures
            self.attach(c, p).acyclic(),
    {
        self.lemma_rewired_acyclic(self.attach(c, p), set![c], p);
    }

    /// Hanging a parentless node that is not the root below another keeps the
    /// two maps in agreement.
    pub proof fn lemma_attach_consistent(self, c: NodeId, p: NodeId)
        requires
            self.consistent(),
            c != p,
            !self.parents.contains_key(c),
            self.root != Some(c),
        ensures
            self.attach(c, p).consistent(),
    {
        let t = self.attach(c, p);
        let old_list = self.children_of(p);
        let new_list = old_list.push(c);
        assert(!old_list.contains(c)) by {
            if old_list.contains(c) {
                let i = choose|i: int| 0 <= i < old_list.len() && old_list[i] == c;
                assert(self.parents.contains_key(self.children[p][i]));
            }
        }
        assert(new_list.no_duplicates());
        assert(new_list[old_list.len() as int] == c);
        assert forall|x: NodeId| #[trigger] t.parents.contains_key(x) implies t.children.contains_key(
            t.parents[x],
        ) && t.children[t.parents[x]].contains(x) by {
            if x == c {
                assert(new_list.contains(c));
            } else if self.parents[x] == p {
                let i = choose|i: int| 0 <= i < old_list.len() && old_list[i] == x;
                assert(new_list[i] == x);
            }
        }
        assert forall|q: NodeId, i: int|
            t.children.contains_key(q) && 0 <= i < t.children[q].len() implies t.parents.contains_key(
            #[trigger] t.children[q][i],
        ) && t.parents[t.children[q][i]] == q by {
            if q == p {
                if i < old_list.len() {
                    assert(new_list[i] == self.children[p][i]);
                }
            } else {
                assert(self.parents.contains_key(self.children[q][i]));
            }
        }
    }
}

/// `list` without every occurrence of `x`, the rest in their order.
pub open spec fn without(list: Seq<NodeId>, x: NodeId) -> Seq<NodeId>
    decreases list.len(),
{
    if list.len() == 0 {
        Seq::empty()
    } else if list.last() == x {
        without(list.drop_last(), x)
    } else {
        without(list.drop_last(), x).push(list.last())
    }
}

/// `without` keeps exactly the other members, and keeps a list free of
/// repetitions so.
pub proof fn lemma_without(list: Seq<NodeId>, x: NodeId)
    ensures
        forall|y: NodeId| #[trigger] without(list, x).contains(y) <==> list.contains(y) && y != x,
        list.no_duplicates() ==> without(list, x).no_duplicates(),
        without(list, x).len() <= list.len(),
        !list.contains(x) ==> without(list, x) == list,
    decreases list.len(),
{
    if list.len() > 0 {
        let front = list.drop_last();
        let last = list.last();
        lemma_without(front, x);
        let r = without(list, x);
        assert forall|y: NodeId| #[trigger] r.contains(y) <==> list.contains(y) && y != x by {
            if r.contains(y) {
                let j = choose|j: int| 0 <= j < r.len() && r[j] == y;
                if last != x && j == r.len() - 1 {
                    assert(list[list.len() - 1] == y);
                } else {
                    assert(without(front, x)[j] == y);
                    assert(without(front, x).contains(y));
                    let m = choose|m: int| 0 <= m < front.len() && front[m] == y;
                    assert(list[m] == y);
                }
            }
            if list.contains(y) && y != x {
                let m = choose|m: int| 0 <= m < list.len() && list[m] == y;
                if m == list.len() - 1 {
                    assert(r[r.len() - 1] == y);
                } else {
                    assert(front[m] == y);
                    assert(without(front, x).contains(y));
                    let j = choose|j: int| 0 <= j < without(front, x).len() && without(front, x)[j] == y;
                    assert(r[j] == y);
                }
            }
        }
        if list.no_duplicates() {
            assert(front.no_duplicates());
            if last != x {
                assert(!without(front, x).contains(last)) by {
                    if front.contains(last) {
                        let m = choose|m: int| 0 <= m < front.len() && front[m] == last;
                        assert(list[m] == list[list.len() - 1]);
                    }
                }
            }
        }
        if !list.contains(x) {
            assert(!front.contains(x)) by {
                if front.contains(x) {
                    let m = choose|m: int| 0 <= m < front.len() && front[m] == x;
                    assert(list[m] == x);
                }
            }
            assert(list[list.len() - 1] != x);
            assert(front.push(last) =~= list);
        }
    }
}

} // verus!
