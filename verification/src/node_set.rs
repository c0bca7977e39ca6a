//! Sets of nodes in creation order, such as the set of nodes that need work
//! this frame.

use crate::node::NodeId;
use vstd::prelude::*;

verus! {

/// The handles of `s` rise strictly.
pub open spec fn strictly_increasing(s: Seq<NodeId>) -> bool {
    forall|i: int, j: int| 0 <= i < j < s.len() ==> s[i] < s[j]
}

/// A set of nodes, kept in creation order so that a frame always visits its
/// members in the same order.
pub struct NodeSet {
    ids: Vec<NodeId>,
}

impl View for NodeSet {
    type V = Set<NodeId>;

    closed spec fn view(&self) -> Set<NodeId> {
        self.ids@.to_set()
    }
}

impl NodeSet {
    /// The handles are held in strictly rising order.
    pub closed spec fn wf(&self) -> bool {
        strictly_increasing(self.ids@)
    }

    /// The members in the order in which a frame visits them.
    pub closed spec fn order(&self) -> Seq<NodeId> {
        self.ids@
    }

    /// The visiting order lists the members, each once, in rising order.
    pub proof fn lemma_order(&self)
        requires
            self.wf(),
        ensures
            strictly_increasing(self.order()),
            self.order().to_set() == self@,
            self.order().no_duplicates(),
            self@.finite(),
    {
        vstd::seq_lib::seq_to_set_is_finite(self.ids@);
    }

    /// The empty set.
    pub fn new() -> (r: NodeSet)
        ensures
            r.wf(),
            r@ == Set::<NodeId>::empty(),
    {
        let r = NodeSet { ids: Vec::new() };
        assert(r.ids@.to_set() =~= Set::<NodeId>::empty());
        r
    }

    /// The position of the first member that is not below `id`.
    fn lower_bound(&self, id: NodeId) -> (pos: usize)
        requires
            self.wf(),
        ensures
            pos <= self.ids@.len(),
            forall|i: int| 0 <= i < pos ==> self.ids@[i] < id,
            forall|i: int| pos <= i < self.ids@.len() ==> self.ids@[i] >= id,
    {
        let mut pos: usize = 0;
        while pos < self.ids.len() && self.ids[pos] < id
            invariant
                pos <= self.ids@.len(),
                self.wf(),
                forall|i: int| 0 <= i < pos ==> self.ids@[i] < id,
            decreases self.ids@.len() - pos,
        {
            pos = pos + 1;
        }
        pos
    }

    /// Whether `id` is a member.
    pub fn contains(&self, id: NodeId) -> (r: bool)
        requires
            self.wf(),
        ensures
            r == self@.contains(id),
    {
        let pos = self.lower_bound(id);
        pos < self.ids.len() && self.ids[pos] == id
    }

    /// Adds `id`.
    pub fn insert(&mut self, id: NodeId)
        requires
            old(self).wf(),
        ensures
            final(self).wf(),
            final(self)@ == old(self)@.insert(id),
    {
        let pos = self.lower_bound(id);
        if pos < self.ids.len() && self.ids[pos] == id {
            assert(self.ids@.to_set() =~= self.ids@.to_set().insert(id));
        } else {
            let ghost before = self.ids@;
            self.ids.insert(pos, id);
            proof {
                let after = self.ids@;
                assert forall|x: NodeId| after.contains(x) <==> before.contains(x) || x == id by {
                    if before.contains(x) {
                        let i = choose|i: int| 0 <= i < before.len() && before[i] == x;
                        if i < pos {
                            assert(after[i] == x);
                        } else {
                            assert(after[i + 1] == x);
                        }
                    }
                    if x == id {
                        assert(after[pos as int] == x);
                    }
                    if after.contains(x) {
                        let i = choose|i: int| 0 <= i < after.len() && after[i] == x;
                        if i < pos {
                            assert(before[i] == x);
                        } else if i > pos {
                            assert(before[i - 1] == x);
                        }
                    }
                }
                assert(after.to_set() =~= before.to_set().insert(id));
            }
        }
    }

    /// Takes `id` out.
    pub fn remove(&mut self, id: NodeId)
        requires
            old(self).wf(),
        ensures
            final(self).wf(),
            final(self)@ == old(self)@.remove(id),
    {
        let pos = self.lower_bound(id);
        if pos < self.ids.len() && self.ids[pos] == id {
            let ghost before = self.ids@;
            self.ids.remove(pos);
            proof {
                let after = self.ids@;
                assert forall|x: NodeId| after.contains(x) <==> before.contains(x) && x != id by {
                    if before.contains(x) && x != id {
                        let i = choose|i: int| 0 <= i < before.len() && before[i] == x;
                        if i < pos {
                            assert(after[i] == x);
                        } else {
                            assert(after[i - 1] == x);
                        }
                    }
                    if after.contains(x) {
                        let i = choose|i: int| 0 <= i < after.len() && after[i] == x;
                        if i < pos {
                            assert(before[i] == x);
                        } else {
                            assert(before[i + 1] == x);
                        }
                    }
                }
                assert(after.to_set() =~= before.to_set().remove(id));
            }
        } else {
            assert(self.ids@.to_set() =~= self.ids@.to_set().remove(id));
        }
    }

    /// Adds every node of `list`.
    pub fn insert_all(&mut self, list: &Vec<NodeId>)
        requires
            old(self).wf(),
        ensures
            final(self).wf(),
            final(self)@ == old(self)@.union(list@.to_set()),
    {
        let mut i: usize = 0;
        assert(old(self)@.union(list@.take(0).to_set()) =~= old(self)@);
        while i < list.len()
            invariant
                i <= list.len(),
                self.wf(),
                self@ == old(self)@.union(list@.take(i as int).to_set()),
            decreases list.len() - i,
        {
            self.insert(list[i]);
            proof {
                let prev = list@.take(i as int);
                let next = list@.take(i + 1);
                let y = list@[i as int];
                assert(next =~= prev.push(y));
                assert forall|x: NodeId| next.contains(x) <==> prev.contains(x) || x == y by {
                    if prev.contains(x) {
                        let j = choose|j: int| 0 <= j < prev.len() && prev[j] == x;
                        assert(next[j] == x);
                    }
                    if x == y {
                        assert(next[i as int] == x);
                    }
                    if next.contains(x) {
                        let j = choose|j: int| 0 <= j < next.len() && next[j] == x;
                        if j < i {
                            assert(prev[j] == x);
                        }
                    }
                }
                assert(self@ =~= old(self)@.union(next.to_set()));
            }
            i = i + 1;
        }
        assert(list@.take(list.len() as int) =~= list@);
    }

    /// The members in rising order of their handles, which is the order of
    /// their creation.
    pub fn ordered(&self) -> (r: Vec<NodeId>)
        requires
            self.wf(),
        ensures
            r@ == self.order(),
            strictly_increasing(r@),
            r@.to_set() == self@,
    {
        crate::tree::copy_ids(&self.ids)
    }

    /// How many members the set has.
    pub fn len(&self) -> (r: usize)
        ensures
            r == self.order().len(),
    {
        self.ids.len()
    }
}

/// Two strictly rising lists of the same nodes are the same list: the order
/// in which a frame visits a set is fixed by the set.
pub proof fn lemma_order_unique(a: Seq<NodeId>, b: Seq<NodeId>)
    requires
        strictly_increasing(a),
        strictly_increasing(b),
        a.to_set() == b.to_set(),
    ensures
        a == b,
    decreases a.len(),
{
    if a.len() == 0 {
        if b.len() > 0 {
            assert(b.contains(b[0]));
            assert(a.to_set().contains(b[0]));
        }
        assert(a =~= b);
    } else {
        assert(a.contains(a[a.len() - 1]));
        assert(b.to_set().contains(a.last()));
        assert(b.len() > 0);
        assert(b.contains(b[b.len() - 1]));
        assert(a.to_set().contains(b.last()));
        let ia = choose|i: int| 0 <= i < a.len() && a[i] == b.last();
        let ib = choose|i: int| 0 <= i < b.len() && b[i] == a.last();
        assert(a.last() == b.last());
        let a1 = a.drop_last();
        let b1 = b.drop_last();
        assert forall|x: NodeId| a1.to_set().contains(x) <==> b1.to_set().contains(x) by {
            if a1.contains(x) {
                let i = choose|i: int| 0 <= i < a1.len() && a1[i] == x;
                assert(a[i] == x);
                assert(a.contains(x));
                assert(b.to_set().contains(x));
                let j = choose|j: int| 0 <= j < b.len() && b[j] == x;
                assert(b1[j] == x);
            }
            if b1.contains(x) {
                let i = choose|i: int| 0 <= i < b1.len() && b1[i] == x;
                assert(b[i] == x);
                assert(b.contains(x));
                assert(a.to_set().contains(x));
                let j = choose|j: int| 0 <= j < a.len() && a[j] == x;
                assert(a1[j] == x);
            }
        }
        assert(a1.to_set() =~= b1.to_set());
        lemma_order_unique(a1, b1);
        assert(a =~= a1.push(a.last()));
        assert(b =~= b1.push(b.last()));
    }
}

/// The set of the first `i + 1` members of a list is the set of the first
/// `i` with the next member added.
pub proof fn lemma_take_to_set(list: Seq<NodeId>, i: int)
    requires
        0 <= i < list.len(),
    ensures
        list.take(i + 1).to_set() == list.take(i).to_set().insert(list[i]),
        list.take(0).to_set() == Set::<NodeId>::empty(),
        list.take(list.len() as int) == list,
{
    let prev = list.take(i);
    let next = list.take(i + 1);
    let x = list[i];
    assert forall|y: NodeId| next.to_set().contains(y) <==> prev.to_set().insert(x).contains(y) by {
        if prev.contains(y) {
            let j = choose|j: int| 0 <= j < prev.len() && prev[j] == y;
            assert(next[j] == y);
        }
        if y == x {
            assert(next[i] == y);
        }
        if next.contains(y) {
            let j = choose|j: int| 0 <= j < next.len() && next[j] == y;
            if j < i {
                assert(prev[j] == y);
            }
        }
    }
    assert(next.to_set() =~= prev.to_set().insert(x));
    assert(list.take(0).to_set() =~= Set::<NodeId>::empty());
    assert(list.take(list.len() as int) =~= list);
}

} // verus!
