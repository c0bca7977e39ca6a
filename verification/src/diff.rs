//! The reconciler: the edit script between the child list a node had and the
//! child list it has just rendered.
//!
//! Children are matched by handle. Handles are resolved before the lists are
//! compared: a keyed child keeps its handle wherever it moves, an unkeyed child
//! takes the handle of the unkeyed child that stood at its position.

use crate::node::NodeId;
use vstd::prelude::*;

verus! {

/// The reconciler's verdict on one child.
#[derive(Clone, Copy, PartialEq, Eq, Structural, Debug)]
pub enum Change {
    /// In the new list only.
    Inserted,
    /// In the old list only.
    Deleted,
    /// In both lists, at different positions.
    Moved,
    /// In both lists, at the same position.
    Same,
}

/// One step of an edit script. For a deleted child `slot` is its position in
/// the old list, for every other child its position in the new one.
#[derive(Clone, Copy, PartialEq, Eq, Structural, Debug)]
pub struct ChildChange {
    pub slot: usize,
    pub node: NodeId,
    pub parent: NodeId,
    pub change: Change,
}

/// An edit script: the deletions in old order, then one step for each child of
/// the new list in new order.
pub struct ChildChanges {
    pub changes: Vec<ChildChange>,
}

impl View for ChildChanges {
    type V = Seq<ChildChange>;

    open spec fn view(&self) -> Seq<ChildChange> {
        self.changes@
    }
}

/// The verdict on `node`, which stands at `slot` in the new list.
pub open spec fn change_for(old: Seq<NodeId>, node: NodeId, slot: int) -> Change {
    if !old.contains(node) {
        Change::Inserted
    } else if slot < old.len() && old[slot] == node {
        Change::Same
    } else {
        Change::Moved
    }
}

/// The deletions: one step for each child of `old` that `new` lacks.
pub open spec fn deleted_steps(parent: NodeId, old: Seq<NodeId>, new: Seq<NodeId>) -> Seq<
    ChildChange,
>
    decreases old.len(),
{
    if old.len() == 0 {
        Seq::empty()
    } else {
        let front = deleted_steps(parent, old.drop_last(), new);
        if new.contains(old.last()) {
            front
        } else {
            front.push(
                ChildChange {
                    slot: (old.len() - 1) as usize,
                    node: old.last(),
                    parent,
                    change: Change::Deleted,
                },
            )
        }
    }
}

/// One step for each child of `new`.
pub open spec fn kept_steps(parent: NodeId, old: Seq<NodeId>, new: Seq<NodeId>) -> Seq<
    ChildChange,
> {
    Seq::new(
        new.len(),
        |j: int|
            ChildChange {
                slot: j as usize,
                node: new[j],
                parent,
                change: change_for(old, new[j], j),
            },
    )
}

/// The edit script that turns `old` into `new`.
pub open spec fn diff_spec(parent: NodeId, old: Seq<NodeId>, new: Seq<NodeId>) -> Seq<
    ChildChange,
> {
    deleted_steps(parent, old, new) + kept_steps(parent, old, new)
}

/// Whether `list` holds `x`.
pub fn contains_id(list: &Vec<NodeId>, x: NodeId) -> (r: bool)
    ensures
        r == list@.contains(x),
{
    let mut i: usize = 0;
    while i < list.len()
        invariant
            i <= list.len(),
            forall|j: int| 0 <= j < i ==> list@[j] != x,
        decreases list.len() - i,
    {
        if list[i] == x {
            return true;
        }
        i = i + 1;
    }
    false
}

/// Computes the edit script between a node's previous children and the
/// children it has just rendered.
pub fn diff(parent: NodeId, old: &Vec<NodeId>, new: &Vec<NodeId>) -> (r: ChildChanges)
    ensures
        r@ == diff_spec(parent, old@, new@),
{
    let mut changes: Vec<ChildChange> = Vec::new();
    let mut i: usize = 0;
    assert(old@.take(0) =~= Seq::<NodeId>::empty());
    while i < old.len()
        invariant
            i <= old.len(),
            changes@ == deleted_steps(parent, old@.take(i as int), new@),
        decreases old.len() - i,
    {
        proof {
            let next = old@.take(i + 1);
            assert(next.drop_last() =~= old@.take(i as int));
            assert(next.last() == old@[i as int]);
        }
        if !contains_id(new, old[i]) {
            changes.push(ChildChange { slot: i, node: old[i], parent, change: Change::Deleted });
        }
        i = i + 1;
    }
    assert(old@.take(old.len() as int) =~= old@);
    let ghost deleted = changes@;
    let mut j: usize = 0;
    while j < new.len()
        invariant
            j <= new.len(),
            deleted == deleted_steps(parent, old@, new@),
            changes@ == deleted + kept_steps(parent, old@, new@).take(j as int),
        decreases new.len() - j,
    {
        let node = new[j];
        let change = if !contains_id(old, node) {
            Change::Inserted
        } else if j < old.len() && old[j] == node {
            Change::Same
        } else {
            Change::Moved
        };
        changes.push(ChildChange { slot: j, node, parent, change });
        proof {
            let kept = kept_steps(parent, old@, new@);
            assert(kept.take(j + 1) =~= kept.take(j as int).push(kept[j as int]));
            assert(changes@ =~= deleted + kept.take(j + 1));
        }
        j = j + 1;
    }
    proof {
        let kept = kept_steps(parent, old@, new@);
        assert(kept.take(new.len() as int) =~= kept);
    }
    ChildChanges { changes }
}

/// Every deletion step names a child of `old` that `new` lacks, under
/// `parent`, and every such child has its step.
pub proof fn lemma_deleted_steps(parent: NodeId, old: Seq<NodeId>, new: Seq<NodeId>)
    requires
        old.len() <= usize::MAX,
    ensures
        forall|i: int|
            0 <= i < deleted_steps(parent, old, new).len() ==> {
                let e = #[trigger] deleted_steps(parent, old, new)[i];
                &&& e.change == Change::Deleted
                &&& e.parent == parent
                &&& 0 <= e.slot < old.len()
                &&& old[e.slot as int] == e.node
                &&& !new.contains(e.node)
            },
        forall|k: int|
            0 <= k < old.len() && !new.contains(#[trigger] old[k]) ==> exists|i: int|
                0 <= i < deleted_steps(parent, old, new).len() && deleted_steps(
                    parent,
                    old,
                    new,
                )[i].node == old[k],
        deleted_steps(parent, old, new).len() <= old.len(),
    decreases old.len(),
{
    if old.len() > 0 {
        let front = old.drop_last();
        lemma_deleted_steps(parent, front, new);
        let d = deleted_steps(parent, old, new);
        let df = deleted_steps(parent, front, new);
        assert forall|i: int| 0 <= i < d.len() implies {
            let e = #[trigger] d[i];
            &&& e.change == Change::Deleted
            &&& e.parent == parent
            &&& 0 <= e.slot < old.len()
            &&& old[e.slot as int] == e.node
            &&& !new.contains(e.node)
        } by {
            if i < df.len() {
                assert(d[i] == df[i]);
                assert(front[df[i].slot as int] == old[df[i].slot as int]);
            }
        }
        assert forall|k: int| 0 <= k < old.len() && !new.contains(#[trigger] old[k]) implies exists|
            i: int,
        |
            0 <= i < d.len() && d[i].node == old[k] by {
            if k < front.len() {
                assert(front[k] == old[k]);
                let i = choose|i: int| 0 <= i < df.len() && df[i].node == front[k];
                assert(d[i].node == old[k]);
            } else {
                assert(d[d.len() - 1].node == old[k]);
            }
        }
    }
}

/// Comparing a child list with itself yields `Same` for every slot and
/// nothing else.
pub proof fn lemma_diff_idempotent(parent: NodeId, children: Seq<NodeId>)
    requires
        children.len() <= usize::MAX,
    ensures
        diff_spec(parent, children, children).len() == children.len(),
        forall|j: int|
            0 <= j < children.len() ==> #[trigger] diff_spec(parent, children, children)[j]
                == (ChildChange {
                slot: j as usize,
                node: children[j],
                parent,
                change: Change::Same,
            }),
{
    lemma_deleted_steps(parent, children, children);
    let d = deleted_steps(parent, children, children);
    if d.len() > 0 {
        let e = d[0];
        assert(children.contains(children[e.slot as int]));
    }
    assert forall|j: int| 0 <= j < children.len() implies #[trigger] diff_spec(
        parent,
        children,
        children,
    )[j] == (ChildChange { slot: j as usize, node: children[j], parent, change: Change::Same }) by {
        assert(children.contains(children[j]));
    }
}

/// When the new list holds the same children as the old one, in whatever
/// order, no child is deleted and none inserted: each is `Moved` or `Same`.
pub proof fn lemma_diff_reorder(parent: NodeId, old: Seq<NodeId>, new: Seq<NodeId>)
    requires
        old.len() <= usize::MAX,
        new.len() <= usize::MAX,
        forall|x: NodeId| old.contains(x) <==> new.contains(x),
    ensures
        diff_spec(parent, old, new).len() == new.len(),
        forall|j: int|
            0 <= j < new.len() ==> {
                let e = #[trigger] diff_spec(parent, old, new)[j];
                &&& e.node == new[j]
                &&& e.slot == j
                &&& (e.change == Change::Same || e.change == Change::Moved)
                &&& (e.change == Change::Same <==> j < old.len() && old[j] == new[j])
            },
{
    lemma_deleted_steps(parent, old, new);
    let d = deleted_steps(parent, old, new);
    if d.len() > 0 {
        let e = d[0];
        assert(old.contains(old[e.slot as int]));
    }
    assert forall|j: int| 0 <= j < new.len() implies {
        let e = #[trigger] diff_spec(parent, old, new)[j];
        &&& e.node == new[j]
        &&& e.slot == j
        &&& (e.change == Change::Same || e.change == Change::Moved)
        &&& (e.change == Change::Same <==> j < old.len() && old[j] == new[j])
    } by {
        assert(new.contains(new[j]));
    }
}

/// A node that leaves the children of `p` and turns up among the children of
/// `q` is deleted under `p` and inserted under `q`; neither script moves it.
pub proof fn lemma_diff_cross_parent(
    node: NodeId,
    p: NodeId,
    old_p: Seq<NodeId>,
    new_p: Seq<NodeId>,
    q: NodeId,
    old_q: Seq<NodeId>,
    new_q: Seq<NodeId>,
)
    requires
        old_p.len() <= usize::MAX,
        old_q.len() <= usize::MAX,
        old_p.contains(node),
        !new_p.contains(node),
        !old_q.contains(node),
        new_q.contains(node),
    ensures
        exists|i: int|
            0 <= i < diff_spec(p, old_p, new_p).len() && #[trigger] diff_spec(p, old_p, new_p)[i].node
                == node && diff_spec(p, old_p, new_p)[i].parent == p && diff_spec(
                p,
                old_p,
                new_p,
            )[i].change == Change::Deleted,
        exists|i: int|
            0 <= i < diff_spec(q, old_q, new_q).len() && #[trigger] diff_spec(q, old_q, new_q)[i].node
                == node && diff_spec(q, old_q, new_q)[i].parent == q && diff_spec(
                q,
                old_q,
                new_q,
            )[i].change == Change::Inserted,
        forall|i: int|
            0 <= i < diff_spec(p, old_p, new_p).len() && #[trigger] diff_spec(p, old_p, new_p)[i].node
                == node ==> diff_spec(p, old_p, new_p)[i].change == Change::Deleted,
        forall|i: int|
            0 <= i < diff_spec(q, old_q, new_q).len() && #[trigger] diff_spec(q, old_q, new_q)[i].node
                == node ==> diff_spec(q, old_q, new_q)[i].change == Change::Inserted,
{
    lemma_deleted_steps(p, old_p, new_p);
    lemma_deleted_steps(q, old_q, new_q);
    let dp = deleted_steps(p, old_p, new_p);
    let sp = diff_spec(p, old_p, new_p);
    let dq = deleted_steps(q, old_q, new_q);
    let sq = diff_spec(q, old_q, new_q);
    let k = choose|k: int| 0 <= k < old_p.len() && old_p[k] == node;
    let i = choose|i: int| 0 <= i < dp.len() && dp[i].node == old_p[k];
    assert(sp[i] == dp[i]);
    let m = choose|m: int| 0 <= m < new_q.len() && new_q[m] == node;
    assert(sq[dq.len() + m].node == node);
    assert forall|i: int| 0 <= i < sp.len() && #[trigger] sp[i].node == node implies sp[i].change
        == Change::Deleted by {
        if i >= dp.len() {
            assert(new_p[i - dp.len()] == node);
        } else {
            assert(sp[i] == dp[i]);
        }
    }
    assert forall|i: int| 0 <= i < sq.len() && #[trigger] sq[i].node == node implies sq[i].change
        == Change::Inserted by {
        if i < dq.len() {
            assert(sq[i] == dq[i]);
            assert(old_q.contains(old_q[dq[i].slot as int]));
        }
    }
}

} // verus!
