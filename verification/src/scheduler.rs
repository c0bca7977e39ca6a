//! The frame scheduler: what becomes of the tree when a widget has rendered.
//!
//! The host walks the tree in pre-order and runs each widget's update
//! predicate and render function; this module decides what follows from
//! their results.

use crate::context::{KayakRootContext, Spawned};
use crate::registry::{ConfigurationError, SystemPair};
use crate::diff::{
    contains_id, deleted_steps, diff, diff_spec, kept_steps, lemma_deleted_steps, Change, ChildChange,
    ChildChanges,
};
use crate::layout::Rect;
use crate::id_map::{
    id_map_get, id_map_insert, id_map_remove, ids_of, key_map_forget, keys_of, names_child,
};
use crate::node::NodeId;
use crate::node_set::lemma_take_to_set;
use crate::store::WidgetStore;
use crate::tree::Tree;
use crate::tree_model::TreeModel;
use vstd::prelude::*;

verus! {

broadcast use vstd::std_specs::hash::group_hash_axioms;

/// Some widget of `list` was handed `d` among its children.
pub open spec fn some_declares(store: &WidgetStore, list: Seq<NodeId>, d: NodeId) -> bool {
    exists|j: int| 0 <= j < list.len() && store.declares(#[trigger] list[j], d)
}

/// Some widget at or below one of `siblings` was handed `d` among its
/// children.
pub open spec fn some_holds(
    tree: TreeModel,
    store: &WidgetStore,
    siblings: Seq<NodeId>,
    d: NodeId,
) -> bool {
    exists|i: int|
        0 <= i < siblings.len() && some_declares(store, tree.subtree(#[trigger] siblings[i]), d)
}

/// `d` is still handed to a live widget as a child value: some widget at or
/// below one of the siblings that `d` has in the spawn order holds `d` among
/// the children it was given.
pub open spec fn held(tree: TreeModel, order_tree: TreeModel, store: &WidgetStore, d: NodeId) -> bool {
    match order_tree.parent_of(d) {
        None => false,
        Some(p) => some_holds(tree, store, order_tree.children_of(p), d),
    }
}

/// Whether `d` is still handed to a live widget as a child value.
pub fn is_held(context: &KayakRootContext, store: &WidgetStore, d: NodeId) -> (r: bool)
    ensures
        r == held(context.tree@, context.order_tree@, store, d),
{
    let ghost tree = context.tree@;
    match context.order_tree.parent(d) {
        None => false,
        Some(p) => {
            let siblings = context.order_tree.children(p);
            let mut i: usize = 0;
            while i < siblings.len()
                invariant
                    i <= siblings.len(),
                    tree == context.tree@,
                    context.order_tree@.parent_of(d) == Some(p),
                    siblings@ == context.order_tree@.children_of(p),
                    forall|a: int|
                        0 <= a < i ==> !some_declares(store, tree.subtree(#[trigger] siblings@[a]), d),
                decreases siblings.len() - i,
            {
                let below = context.tree.down_iter_at(siblings[i], true);
                let mut j: usize = 0;
                while j < below.len()
                    invariant
                        j <= below.len(),
                        i < siblings.len(),
                        tree == context.tree@,
                        context.order_tree@.parent_of(d) == Some(p),
                        siblings@ == context.order_tree@.children_of(p),
                        below@ == tree.subtree(siblings@[i as int]),
                        forall|b: int| 0 <= b < j ==> !store.declares(#[trigger] below@[b], d),
                    decreases below.len() - j,
                {
                    if store.holds(below[j], d) {
                        assert(store.declares(below@[j as int], d));
                        assert(some_declares(store, tree.subtree(siblings@[i as int]), d));
                        return true;
                    }
                    j = j + 1;
                }
                i = i + 1;
            }
            false
        },
    }
}

/// The keyed-child entries that are left when the nodes of `gone` are
/// forgotten: an entry goes when its child is gone and was recorded under
/// the entry's parent.
pub open spec fn keys_without(
    keys: Map<(NodeId, Seq<char>), NodeId>,
    parents: Map<NodeId, u64>,
    gone: Set<NodeId>,
) -> Map<(NodeId, Seq<char>), NodeId> {
    Map::new(
        |k: (NodeId, Seq<char>)|
            keys.contains_key(k) && !(gone.contains(keys[k]) && parents.contains_key(keys[k])
                && parents[keys[k]] == k.0),
        |k: (NodeId, Seq<char>)| keys[k],
    )
}

/// The rectangles, the bookkeeping and the tables of the store are those of
/// `before` without the nodes of `gone`.
pub open spec fn forgotten(
    before: &KayakRootContext,
    before_store: &WidgetStore,
    gone: Set<NodeId>,
    after: &KayakRootContext,
    after_store: &WidgetStore,
) -> bool {
    &&& after.layout_cache@.rect == before.layout_cache@.rect.remove_keys(gone)
    &&& after.layout_cache@.geometry_changed == before.layout_cache@.geometry_changed.remove_keys(
        gone,
    )
    &&& ids_of(after.cloned_widget_entities) == ids_of(before.cloned_widget_entities).remove_keys(
        gone,
    )
    &&& ids_of(after.unique_ids_parents) == ids_of(before.unique_ids_parents).remove_keys(gone)
    &&& keys_of(after.unique_ids) == keys_without(
        keys_of(before.unique_ids),
        ids_of(before.unique_ids_parents),
        gone,
    )
    &&& after_store.styles@ == before_store.styles@.remove_keys(gone)
    &&& after_store.nodes@ == before_store.nodes@.remove_keys(gone)
    &&& after_store.children@ == before_store.children@.remove_keys(gone)
    &&& after_store.names@ == before_store.names@.remove_keys(gone)
    &&& after_store.dirty@ == before_store.dirty@.difference(gone)
    &&& after_store.mounted@ == before_store.mounted@.difference(gone)
    &&& after_store.focusable@ == before_store.focusable@.difference(gone)
}

/// Forgets the nodes of `gone`: their rectangles, their entries in the
/// tables of the store, their keys, and their copies of the frame before.
/// Returns the handles of those copies, for the host to release.
pub fn forget_nodes(context: &mut KayakRootContext, store: &mut WidgetStore, gone: &Vec<NodeId>) -> (shadows:
    Vec<u64>)
    requires
        old(store).wf(),
    ensures
        final(store).wf(),
        final(context).tree == old(context).tree,
        final(context).order_tree == old(context).order_tree,
        final(context).same_setup(old(context)),
        final(context).index == old(context).index,
        final(context).next_id == old(context).next_id,
        forgotten(old(context), old(store), gone@.to_set(), final(context), final(store)),
        forall|s: u64|
            shadows@.contains(s) <==> exists|x: NodeId|
                gone@.contains(x) && ids_of(old(context).cloned_widget_entities).contains_key(x)
                    && #[trigger] ids_of(old(context).cloned_widget_entities)[x] == s,
{
    let mut shadows: Vec<u64> = Vec::new();
    let ghost keys0 = keys_of(context.unique_ids);
    let ghost parents0 = ids_of(context.unique_ids_parents);
    let ghost cloned0 = ids_of(context.cloned_widget_entities);
    let mut i: usize = 0;
    proof {
        if gone@.len() > 0 {
            lemma_take_to_set(gone@, 0);
        } else {
            assert(gone@.take(0).to_set() =~= Set::<NodeId>::empty());
        }
        assert(keys_of(context.unique_ids) =~= keys_without(keys0, parents0, Set::empty()));
    }
    while i < gone.len()
        invariant
            i <= gone.len(),
            store.wf(),
            context.tree == old(context).tree,
            context.order_tree == old(context).order_tree,
            context.same_setup(old(context)),
            context.index == old(context).index,
            context.next_id == old(context).next_id,
            keys0 == keys_of(old(context).unique_ids),
            parents0 == ids_of(old(context).unique_ids_parents),
            cloned0 == ids_of(old(context).cloned_widget_entities),
            context.layout_cache@.rect =~= old(context).layout_cache@.rect.remove_keys(
                gone@.take(i as int).to_set(),
            ),
            context.layout_cache@.geometry_changed =~= old(
                context,
            ).layout_cache@.geometry_changed.remove_keys(gone@.take(i as int).to_set()),
            ids_of(context.cloned_widget_entities) =~= cloned0.remove_keys(
                gone@.take(i as int).to_set(),
            ),
            ids_of(context.unique_ids_parents) =~= parents0.remove_keys(
                gone@.take(i as int).to_set(),
            ),
            keys_of(context.unique_ids) =~= keys_without(
                keys0,
                parents0,
                gone@.take(i as int).to_set(),
            ),
            store.styles@ =~= old(store).styles@.remove_keys(gone@.take(i as int).to_set()),
            store.nodes@ =~= old(store).nodes@.remove_keys(gone@.take(i as int).to_set()),
            store.children@ =~= old(store).children@.remove_keys(gone@.take(i as int).to_set()),
            store.names@ =~= old(store).names@.remove_keys(gone@.take(i as int).to_set()),
            store.dirty@ =~= old(store).dirty@.difference(gone@.take(i as int).to_set()),
            store.mounted@ =~= old(store).mounted@.difference(gone@.take(i as int).to_set()),
            store.focusable@ =~= old(store).focusable@.difference(gone@.take(i as int).to_set()),
            forall|s: u64|
                shadows@.contains(s) <==> exists|x: NodeId|
                    gone@.take(i as int).contains(x) && cloned0.contains_key(x)
                        && #[trigger] cloned0[x] == s,
        decreases gone.len() - i,
    {
        let x = gone[i];
        let ghost done = gone@.take(i as int).to_set();
        proof {
            lemma_take_to_set(gone@, i as int);
        }
        context.layout_cache.remove(x);
        store.despawn(x);
        match id_map_get(&context.unique_ids_parents, x) {
            Some(parent) => {
                key_map_forget(&mut context.unique_ids, parent, x);
                id_map_remove(&mut context.unique_ids_parents, x);
            },
            None => {},
        }
        let ghost before_shadows = shadows@;
        match id_map_remove(&mut context.cloned_widget_entities, x) {
            Some(shadow) => {
                shadows.push(shadow);
            },
            None => {},
        }
        proof {
            let next = done.insert(x);
            assert(keys_of(context.unique_ids) =~= keys_without(keys0, parents0, next)) by {
                assert forall|k: (NodeId, Seq<char>)|
                    keys_of(context.unique_ids).contains_key(k) <==> keys_without(
                        keys0,
                        parents0,
                        next,
                    ).contains_key(k) by {
                    if keys0.contains_key(k) {
                        let c = keys0[k];
                        assert(names_child(k.0, c, k.0, c));
                    }
                }
            }
            assert forall|s: u64|
                shadows@.contains(s) <==> exists|y: NodeId|
                    gone@.take(i + 1).contains(y) && cloned0.contains_key(y) && #[trigger] cloned0[y]
                        == s by {
                let prev = gone@.take(i as int);
                let nxt = gone@.take(i + 1);
                assert(nxt =~= prev.push(x));
                if shadows@.contains(s) {
                    let j = choose|j: int| 0 <= j < shadows@.len() && shadows@[j] == s;
                    if j < before_shadows.len() {
                        assert(before_shadows[j] == s);
                        assert(before_shadows.contains(s));
                        let y = choose|y: NodeId|
                            prev.contains(y) && cloned0.contains_key(y) && #[trigger] cloned0[y]
                                == s;
                        let m = choose|m: int| 0 <= m < prev.len() && prev[m] == y;
                        assert(nxt[m] == y);
                    } else {
                        assert(nxt[i as int] == x);
                        assert(nxt.contains(x) && cloned0.contains_key(x) && cloned0[x] == s);
                    }
                }
                if exists|y: NodeId|
                    nxt.contains(y) && cloned0.contains_key(y) && #[trigger] cloned0[y] == s {
                    let y = choose|y: NodeId|
                        nxt.contains(y) && cloned0.contains_key(y) && #[trigger] cloned0[y] == s;
                    let m = choose|m: int| 0 <= m < nxt.len() && nxt[m] == y;
                    if m < i {
                        assert(prev[m] == y);
                        assert(prev.contains(y) && cloned0.contains_key(y) && cloned0[y] == s);
                        assert(before_shadows.contains(s));
                        let j = choose|j: int| 0 <= j < before_shadows.len() && before_shadows[j] == s;
                        assert(shadows@[j] == s);
                    } else {
                        if done.contains(x) {
                            assert(prev.contains(x) && cloned0.contains_key(x) && cloned0[x] == s);
                            assert(before_shadows.contains(s));
                            let j = choose|j: int|
                                0 <= j < before_shadows.len() && before_shadows[j] == s;
                            assert(shadows@[j] == s);
                        } else {
                            assert(shadows@[before_shadows.len() as int] == s);
                        }
                    }
                }
            }
        }
        i = i + 1;
    }
    proof {
        assert(gone@.take(gone.len() as int) =~= gone@);
    }
    shadows
}

/// The tree without the subtrees of the nodes of `list`, taken out one
/// after the other.
pub open spec fn remove_each(tree: TreeModel, list: Seq<NodeId>) -> TreeModel
    decreases list.len(),
{
    if list.len() == 0 {
        tree
    } else {
        remove_each(tree, list.drop_last()).remove(list.last())
    }
}

/// The nodes that go with the subtrees of the nodes of `list`, in the order
/// in which they are taken out.
pub open spec fn removed_by(tree: TreeModel, list: Seq<NodeId>) -> Seq<NodeId>
    decreases list.len(),
{
    if list.len() == 0 {
        Seq::empty()
    } else {
        removed_by(tree, list.drop_last()) + remove_each(tree, list.drop_last()).subtree(
            list.last(),
        )
    }
}

/// The deleted children that are reclaimed: those that no live widget still
/// holds as a child value.
pub open spec fn reclaimed(
    tree: TreeModel,
    order_tree: TreeModel,
    store: &WidgetStore,
    script: Seq<ChildChange>,
) -> Seq<NodeId>
    decreases script.len(),
{
    if script.len() == 0 {
        Seq::empty()
    } else {
        let front = reclaimed(tree, order_tree, store, script.drop_last());
        let e = script.last();
        if e.change == Change::Deleted && !held(tree, order_tree, store, e.node) {
            front.push(e.node)
        } else {
            front
        }
    }
}

/// The reclaimed nodes are exactly the nodes of deletion steps that nothing
/// holds.
pub proof fn lemma_reclaimed(
    tree: TreeModel,
    order_tree: TreeModel,
    store: &WidgetStore,
    script: Seq<ChildChange>,
    x: NodeId,
)
    ensures
        reclaimed(tree, order_tree, store, script).contains(x) <==> !held(
            tree,
            order_tree,
            store,
            x,
        ) && exists|i: int|
            0 <= i < script.len() && (#[trigger] script[i]).node == x && script[i].change
                == Change::Deleted,
    decreases script.len(),
{
    if script.len() > 0 {
        let front = script.drop_last();
        lemma_reclaimed(tree, order_tree, store, front, x);
        let r = reclaimed(tree, order_tree, store, script);
        let rf = reclaimed(tree, order_tree, store, front);
        let e = script.last();
        if r.contains(x) {
            let j = choose|j: int| 0 <= j < r.len() && r[j] == x;
            if j < rf.len() {
                assert(rf[j] == x);
                assert(rf.contains(x));
                let i = choose|i: int|
                    0 <= i < front.len() && (#[trigger] front[i]).node == x && front[i].change
                        == Change::Deleted;
                assert(script[i] == front[i]);
            } else {
                assert(script[script.len() - 1] == e);
            }
        }
        if !held(tree, order_tree, store, x) && exists|i: int|
            0 <= i < script.len() && (#[trigger] script[i]).node == x && script[i].change
                == Change::Deleted {
            let i = choose|i: int|
                0 <= i < script.len() && (#[trigger] script[i]).node == x && script[i].change
                    == Change::Deleted;
            if i < front.len() {
                assert(front[i] == script[i]);
                assert(rf.contains(x));
                let j = choose|j: int| 0 <= j < rf.len() && rf[j] == x;
                assert(r[j] == x);
            } else {
                assert(r[r.len() - 1] == x);
            }
        }
    }
}

/// Takes the subtrees of the nodes of `list` out of the scene tree and out
/// of the spawn order, and returns the nodes that went with them.
pub fn reclaim(context: &mut KayakRootContext, list: &Vec<NodeId>) -> (gone: Vec<NodeId>)
    requires
        old(context).wf(),
    ensures
        final(context).wf(),
        final(context).tree@ == remove_each(old(context).tree@, list@),
        final(context).order_tree@ == remove_each(old(context).order_tree@, list@),
        gone@ == removed_by(old(context).tree@, list@),
        final(context).layout_cache == old(context).layout_cache,
        final(context).same_setup(old(context)),
        final(context).index == old(context).index,
        final(context).next_id == old(context).next_id,
        final(context).cloned_widget_entities == old(context).cloned_widget_entities,
        final(context).unique_ids == old(context).unique_ids,
        final(context).unique_ids_parents == old(context).unique_ids_parents,
        final(context).tree@.parents.submap_of(old(context).tree@.parents),
        forall|x: NodeId|
            !old(context).tree@.parents.contains_key(x) && !list@.contains(x) ==> !(
            #[trigger] gone@.contains(x)),
        forall|x: NodeId| #[trigger] list@.contains(x) ==> gone@.contains(x),
        forall|x: NodeId| #[trigger] gone@.contains(x) ==> !final(context).tree@.contains(x),
{
    let ghost tree0 = context.tree@;
    let ghost order0 = context.order_tree@;
    let mut gone: Vec<NodeId> = Vec::new();
    let mut i: usize = 0;
    assert(list@.take(0) =~= Seq::<NodeId>::empty());
    while i < list.len()
        invariant
            i <= list.len(),
            context.wf(),
            tree0 == old(context).tree@,
            order0 == old(context).order_tree@,
            context.tree@ == remove_each(tree0, list@.take(i as int)),
            context.order_tree@ == remove_each(order0, list@.take(i as int)),
            gone@ == removed_by(tree0, list@.take(i as int)),
            context.layout_cache == old(context).layout_cache,
            context.same_setup(old(context)),
            context.index == old(context).index,
            context.next_id == old(context).next_id,
            context.cloned_widget_entities == old(context).cloned_widget_entities,
            context.unique_ids == old(context).unique_ids,
            context.unique_ids_parents == old(context).unique_ids_parents,
            context.tree@.parents.submap_of(tree0.parents),
            forall|x: NodeId|
                !tree0.parents.contains_key(x) && !list@.take(i as int).contains(x) ==> !(
                #[trigger] gone@.contains(x)),
            forall|x: NodeId| #[trigger] list@.take(i as int).contains(x) ==> gone@.contains(x),
            forall|x: NodeId| #[trigger] gone@.contains(x) ==> !context.tree@.contains(x),
        decreases list.len() - i,
    {
        let d = list[i];
        let ghost before = context.tree@;
        let ghost gone_before = gone@;
        proof {
            let next = list@.take(i + 1);
            assert(next.drop_last() =~= list@.take(i as int));
            assert(next.last() == d);
        }
        let removed = context.tree.remove(d);
        context.order_tree.remove(d);
        let mut k: usize = 0;
        while k < removed.len()
            invariant
                k <= removed.len(),
                gone@ == gone_before + removed@.take(k as int),
            decreases removed.len() - k,
        {
            gone.push(removed[k]);
            assert(removed@.take(k + 1) =~= removed@.take(k as int).push(removed@[k as int]));
            k = k + 1;
        }
        proof {
            assert(removed@.take(removed.len() as int) =~= removed@);
            let prev = list@.take(i as int);
            let next = list@.take(i + 1);
            assert forall|x: NodeId| next.contains(x) <==> prev.contains(x) || x == d by {
                if prev.contains(x) {
                    let j = choose|j: int| 0 <= j < prev.len() && prev[j] == x;
                    assert(next[j] == x);
                }
                if x == d {
                    assert(next[i as int] == x);
                }
                if next.contains(x) {
                    let j = choose|j: int| 0 <= j < next.len() && next[j] == x;
                    if j < i {
                        assert(prev[j] == x);
                    }
                }
            }
            assert forall|x: NodeId|
                #![trigger gone@.contains(x)]
                gone@.contains(x) <==> gone_before.contains(x) || removed@.contains(x) by {
                if gone_before.contains(x) {
                    let j = choose|j: int| 0 <= j < gone_before.len() && gone_before[j] == x;
                    assert(gone@[j] == x);
                }
                if removed@.contains(x) {
                    let j = choose|j: int| 0 <= j < removed@.len() && removed@[j] == x;
                    assert(gone@[gone_before.len() + j] == x);
                }
                if gone@.contains(x) {
                    let j = choose|j: int| 0 <= j < gone@.len() && gone@[j] == x;
                    if j < gone_before.len() {
                        assert(gone_before[j] == x);
                    } else {
                        assert(removed@[j - gone_before.len()] == x);
                    }
                }
            }
            assert forall|x: NodeId| removed@.contains(x) implies before.is_descendant(x, d)
                && !context.tree@.contains(x) by {
                before.lemma_subtree_descendants(d, x);
                before.lemma_removed_not_contained(d, x);
            }
            assert(before.ancestor_at(d, 0) == Some(d));
            before.lemma_subtree_descendants(d, d);
            assert forall|x: NodeId|
                !tree0.parents.contains_key(x) && !next.contains(x) implies !(
            #[trigger] gone@.contains(x)) by {
                assert(!prev.contains(x));
                if gone_before.contains(x) {
                    assert(false);
                }
                if removed@.contains(x) {
                    before.lemma_subtree_descendants(d, x);
                    let k = choose|k: nat| before.ancestor_at(x, k) == Some(d);
                    if k > 0 {
                        assert(before.parents.contains_key(x));
                        assert(tree0.parents.contains_key(x));
                    } else {
                        assert(x == d);
                        assert(next.contains(d));
                    }
                    assert(false);
                }
            }
            assert forall|x: NodeId| #[trigger] next.contains(x) implies gone@.contains(x) by {
                if x == d {
                    assert(removed@.contains(d));
                } else {
                    assert(prev.contains(x));
                    assert(gone_before.contains(x));
                }
            }
            assert forall|x: NodeId| #[trigger] gone@.contains(x) implies !context.tree@.contains(
                x,
            ) by {
                if gone_before.contains(x) {
                    assert(!before.contains(x));
                }
            }
        }
        i = i + 1;
    }
    assert(list@.take(list.len() as int) =~= list@);
    gone
}

/// What became of the tree when a widget had rendered.
pub struct Reconciled {
    /// The edit script between the children that the widget had and those it
    /// rendered.
    pub changes: ChildChanges,
    /// The widgets to release: the deleted children that nothing holds any
    /// more, each with all that was below it.
    pub despawned: Vec<NodeId>,
    /// The copies of the frame before that belonged to them.
    pub shadows: Vec<u64>,
}

/// `rect` with an empty rectangle for every node of `list` that had none.
pub open spec fn with_entries(rect: Map<NodeId, Rect>, list: Seq<NodeId>) -> Map<NodeId, Rect> {
    Map::new(
        |x: NodeId| rect.contains_key(x) || list.contains(x),
        |x: NodeId|
            if rect.contains_key(x) {
                rect[x]
            } else {
                Rect::zero()
            },
    )
}

/// The nodes of `list` that `old` lacks.
pub open spec fn newcomers(list: Seq<NodeId>, old: Seq<NodeId>) -> Set<NodeId> {
    Set::new(|x: NodeId| list.contains(x) && !old.contains(x))
}

/// The deleted children that the script reclaims, decided on the state
/// before anything is applied.
fn doomed(context: &KayakRootContext, store: &WidgetStore, script: &ChildChanges) -> (r: Vec<NodeId>)
    ensures
        r@ == reclaimed(context.tree@, context.order_tree@, store, script@),
{
    let mut r: Vec<NodeId> = Vec::new();
    let mut i: usize = 0;
    assert(script@.take(0) =~= Seq::<ChildChange>::empty());
    while i < script.changes.len()
        invariant
            i <= script@.len(),
            r@ == reclaimed(context.tree@, context.order_tree@, store, script@.take(i as int)),
        decreases script@.len() - i,
    {
        let e = script.changes[i];
        proof {
            let next = script@.take(i + 1);
            assert(next.drop_last() =~= script@.take(i as int));
            assert(next.last() == e);
        }
        let deleted = match e.change {
            Change::Deleted => true,
            _ => false,
        };
        if deleted && !is_held(context, store, e.node) {
            r.push(e.node);
        }
        i = i + 1;
    }
    assert(script@.take(script@.len() as int) =~= script@);
    r
}

/// Gives every child of the rendered widget a rectangle, and marks those
/// that are new as mounted.
fn welcome(
    context: &mut KayakRootContext,
    store: &mut WidgetStore,
    kids: &Vec<NodeId>,
    old_list: &Vec<NodeId>,
)
    requires
        old(store).wf(),
    ensures
        final(store).wf(),
        final(context).tree == old(context).tree,
        final(context).order_tree == old(context).order_tree,
        final(context).same_setup(old(context)),
        final(context).index == old(context).index,
        final(context).next_id == old(context).next_id,
        final(context).cloned_widget_entities == old(context).cloned_widget_entities,
        final(context).unique_ids == old(context).unique_ids,
        final(context).unique_ids_parents == old(context).unique_ids_parents,
        final(context).layout_cache@.geometry_changed == old(context).layout_cache@.geometry_changed,
        final(context).layout_cache@.rect == with_entries(old(context).layout_cache@.rect, kids@),
        final(store).styles == old(store).styles,
        final(store).nodes == old(store).nodes,
        final(store).children == old(store).children,
        final(store).names == old(store).names,
        final(store).dirty == old(store).dirty,
        final(store).focusable == old(store).focusable,
        final(store).mounted@ == old(store).mounted@.union(newcomers(kids@, old_list@)),
{
    let mut i: usize = 0;
    proof {
        assert(kids@.take(0) =~= Seq::<NodeId>::empty());
        assert(context.layout_cache@.rect =~= with_entries(
            old(context).layout_cache@.rect,
            kids@.take(0),
        ));
        assert(store.mounted@ =~= old(store).mounted@.union(newcomers(kids@.take(0), old_list@)));
    }
    while i < kids.len()
        invariant
            i <= kids.len(),
            store.wf(),
            context.tree == old(context).tree,
            context.order_tree == old(context).order_tree,
            context.same_setup(old(context)),
            context.index == old(context).index,
            context.next_id == old(context).next_id,
            context.cloned_widget_entities == old(context).cloned_widget_entities,
            context.unique_ids == old(context).unique_ids,
            context.unique_ids_parents == old(context).unique_ids_parents,
            context.layout_cache@.geometry_changed == old(context).layout_cache@.geometry_changed,
            context.layout_cache@.rect == with_entries(
                old(context).layout_cache@.rect,
                kids@.take(i as int),
            ),
            store.styles == old(store).styles,
            store.nodes == old(store).nodes,
            store.children == old(store).children,
            store.names == old(store).names,
            store.dirty == old(store).dirty,
            store.focusable == old(store).focusable,
            store.mounted@ == old(store).mounted@.union(newcomers(kids@.take(i as int), old_list@)),
        decreases kids.len() - i,
    {
        let x = kids[i];
        context.layout_cache.add(x);
        if !contains_id(old_list, x) {
            store.mounted.insert(x);
        }
        proof {
            let prev = kids@.take(i as int);
            let next = kids@.take(i + 1);
            assert(next =~= prev.push(x));
            assert forall|y: NodeId| next.contains(y) <==> prev.contains(y) || y == x by {
                if prev.contains(y) {
                    let j = choose|j: int| 0 <= j < prev.len() && prev[j] == y;
                    assert(next[j] == y);
                }
                if y == x {
                    assert(next[i as int] == y);
                }
                if next.contains(y) {
                    let j = choose|j: int| 0 <= j < next.len() && next[j] == y;
                    if j < i {
                        assert(prev[j] == y);
                    }
                }
            }
            assert(context.layout_cache@.rect =~= with_entries(
                old(context).layout_cache@.rect,
                next,
            ));
            assert(store.mounted@ =~= old(store).mounted@.union(newcomers(next, old_list@)));
        }
        i = i + 1;
    }
    assert(kids@.take(kids.len() as int) =~= kids@);
}

/// The edit script that a render of `node` with the children `new` calls
/// for.
pub open spec fn script_of(context: &KayakRootContext, node: NodeId, new: Seq<NodeId>) -> Seq<
    ChildChange,
> {
    diff_spec(node, context.tree@.children_of(node), new)
}

/// The deleted children that such a render reclaims.
pub open spec fn doomed_of(
    context: &KayakRootContext,
    store: &WidgetStore,
    node: NodeId,
    new: Seq<NodeId>,
) -> Seq<NodeId> {
    reclaimed(context.tree@, context.order_tree@, store, script_of(context, node, new))
}

/// The scene tree with the edit script of such a render applied.
pub open spec fn merged_of(context: &KayakRootContext, node: NodeId, new: Seq<NodeId>) -> TreeModel {
    context.tree@.merge(node, script_of(context, node, new))
}

/// Takes the result of a render into the tree. `node` has rendered and wants
/// the children `new_children`, which are handles that
/// [`KayakRootContext::spawn_widget`] handed out. The edit script between
/// the old and the new children is applied to the scene tree. A deleted
/// child that a live widget still holds as a child value (see [`held`]) is
/// cut loose and kept, with its rectangle; every other deleted child is
/// taken out of the scene tree and the spawn order with all that is below
/// it, and forgotten. The children that `node` has afterwards get a
/// rectangle where they have none, and are marked dirty, as is `node`; those
/// that are new are marked as mounted.
pub fn update_widgets(
    context: &mut KayakRootContext,
    store: &mut WidgetStore,
    node: NodeId,
    new_children: &Vec<NodeId>,
) -> (r: Reconciled)
    requires
        old(context).wf(),
        old(store).wf(),
    ensures
        final(context).wf(),
        final(store).wf(),
        r.changes@ == script_of(old(context), node, new_children@),
        r.despawned@ == removed_by(
            merged_of(old(context), node, new_children@),
            doomed_of(old(context), old(store), node, new_children@),
        ),
        final(context).tree@ == remove_each(
            merged_of(old(context), node, new_children@),
            doomed_of(old(context), old(store), node, new_children@),
        ),
        final(context).order_tree@ == remove_each(
            old(context).order_tree@,
            doomed_of(old(context), old(store), node, new_children@),
        ),
        final(context).same_setup(old(context)),
        final(context).next_id == old(context).next_id,
        ids_of(final(context).index) == ids_of(old(context).index).insert(node, 0),
        final(context).layout_cache@.rect == with_entries(
            old(context).layout_cache@.rect.remove_keys(r.despawned@.to_set()),
            final(context).tree@.children_of(node),
        ),
        final(context).layout_cache@.geometry_changed == old(
            context,
        ).layout_cache@.geometry_changed.remove_keys(r.despawned@.to_set()),
        ids_of(final(context).cloned_widget_entities) == ids_of(
            old(context).cloned_widget_entities,
        ).remove_keys(r.despawned@.to_set()),
        ids_of(final(context).unique_ids_parents) == ids_of(
            old(context).unique_ids_parents,
        ).remove_keys(r.despawned@.to_set()),
        keys_of(final(context).unique_ids) == keys_without(
            keys_of(old(context).unique_ids),
            ids_of(old(context).unique_ids_parents),
            r.despawned@.to_set(),
        ),
        forall|s: u64|
            r.shadows@.contains(s) <==> exists|x: NodeId|
                r.despawned@.contains(x) && ids_of(old(context).cloned_widget_entities).contains_key(
                    x,
                ) && #[trigger] ids_of(old(context).cloned_widget_entities)[x] == s,
        final(store).styles@ == old(store).styles@.remove_keys(r.despawned@.to_set()),
        final(store).nodes@ == old(store).nodes@.remove_keys(r.despawned@.to_set()),
        final(store).children@ == old(store).children@.remove_keys(r.despawned@.to_set()),
        final(store).names@ == old(store).names@.remove_keys(r.despawned@.to_set()),
        final(store).focusable@ == old(store).focusable@.difference(r.despawned@.to_set()),
        final(store).dirty@ == old(store).dirty@.difference(r.despawned@.to_set()).insert(
            node,
        ).union(final(context).tree@.children_of(node).to_set()),
        final(store).mounted@ == old(store).mounted@.difference(r.despawned@.to_set()).union(
            newcomers(
                final(context).tree@.children_of(node),
                old(context).tree@.children_of(node),
            ),
        ).remove(node),
        forall|d: NodeId|
            old(context).tree@.children_of(node).contains(d) && !new_children@.contains(d)
                && held(old(context).tree@, old(context).order_tree@, old(store), d) ==> {
                &&& !(#[trigger] r.despawned@.contains(d))
                &&& final(context).layout_cache@.rect_of(d) == old(context).layout_cache@.rect_of(d)
                &&& final(context).tree@.parent_of(d) is None
            },
        forall|d: NodeId|
            old(context).tree@.children_of(node).contains(d) && !new_children@.contains(d)
                && !held(old(context).tree@, old(context).order_tree@, old(store), d) ==> {
                &&& #[trigger] r.despawned@.contains(d)
                &&& final(context).layout_cache@.rect_of(d) is None
                &&& !final(context).tree@.contains(d)
            },
{
    let ghost tree0 = context.tree@;
    let ghost order0 = context.order_tree@;
    let ghost layout0 = context.layout_cache@;
    let old_list = context.tree.children(node);
    let old_len = old_list.len();
    let script = diff(node, &old_list, new_children);
    let list = doomed(context, store, &script);
    context.tree.merge(node, &script);
    let ghost merged = context.tree@;
    let gone = reclaim(context, &list);
    let shadows = forget_nodes(context, store, &gone);
    let kids = context.tree.children(node);
    welcome(context, store, &kids, &old_list);
    store.dirty.insert(node);
    store.dirty.insert_all(&kids);
    store.mounted.remove(node);
    id_map_insert(&mut context.index, node, 0);
    proof {
        assert(tree0.children_of(node).len() == old_len);
        assert forall|d: NodeId|
            tree0.children_of(node).contains(d) && !new_children@.contains(d) implies if held(
                tree0,
                order0,
                old(store),
                d,
            ) {
                &&& !(#[trigger] gone@.contains(d))
                &&& context.layout_cache@.rect_of(d) == layout0.rect_of(d)
                &&& context.tree@.parent_of(d) is None
            } else {
                &&& gone@.contains(d)
                &&& context.layout_cache@.rect_of(d) is None
                &&& !context.tree@.contains(d)
            } by {
            lemma_deleted_child(tree0, order0, old(store), node, new_children@, d);
            lemma_reclaimed(tree0, order0, old(store), script@, d);
            if !held(tree0, order0, old(store), d) {
                assert(list@.contains(d));
            }
            if kids@.contains(d) {
                let j = choose|j: int| 0 <= j < kids@.len() && kids@[j] == d;
                assert(context.tree@.parents.contains_key(context.tree@.children[node][j]));
                assert(merged.parents.contains_key(d));
            }
        }
    }
    Reconciled { changes: script, despawned: gone, shadows }
}

/// A child that the new list lacks has a deletion step in the script, and
/// stands alone once the script is applied: it is nobody's child.
proof fn lemma_deleted_child(
    tree: TreeModel,
    order_tree: TreeModel,
    store: &WidgetStore,
    node: NodeId,
    new: Seq<NodeId>,
    d: NodeId,
)
    requires
        tree.wf(),
        tree.children_of(node).len() <= usize::MAX,
        tree.children_of(node).contains(d),
        !new.contains(d),
    ensures
        exists|i: int|
            0 <= i < diff_spec(node, tree.children_of(node), new).len() && (#[trigger] diff_spec(
                node,
                tree.children_of(node),
                new,
            )[i]).node == d && diff_spec(node, tree.children_of(node), new)[i].change
                == Change::Deleted,
        !tree.merge(node, diff_spec(node, tree.children_of(node), new)).parents.contains_key(d),
{
    let old = tree.children_of(node);
    let script = diff_spec(node, old, new);
    let del = deleted_steps(node, old, new);
    lemma_deleted_steps(node, old, new);
    let k = choose|k: int| 0 <= k < old.len() && old[k] == d;
    let i = choose|i: int| 0 <= i < del.len() && del[i].node == old[k];
    assert(script[i] == del[i]);
    assert(tree.parents.contains_key(tree.children[node][k]));
    let kept = tree.kept(node, script);
    if kept.contains(d) {
        tree.lemma_kept_source(node, script, d);
        let j = choose|j: int|
            0 <= j < script.len() && (#[trigger] script[j]).node == d && tree.admits(
                node,
                script[j],
            );
        if j < del.len() {
            assert(script[j] == del[j]);
        } else {
            assert(script[j] == kept_steps(node, old, new)[j - del.len()]);
            assert(new[j - del.len()] == d);
        }
    }
}

/// What the host is to run for a widget: the functions of its type, and the
/// copy of the frame before that the update predicate compares with.
#[derive(Clone, Copy, PartialEq, Eq, Structural, Debug)]
pub struct Dispatch {
    pub systems: SystemPair,
    /// The handle of the copy, new where the widget had none; `None` when
    /// the handles have run out.
    pub shadow: Option<Spawned>,
}

/// Looks up what is to run for `node`. A widget without a type name is
/// passed over. A widget whose type has no functions registered is a
/// configuration error, and nothing is changed. Else the widget gets a
/// copy of the frame before unless it has one.
pub fn update_widget(context: &mut KayakRootContext, store: &WidgetStore, node: NodeId) -> (r:
    Result<Option<Dispatch>, ConfigurationError>)
    requires
        old(context).wf(),
    ensures
        final(context).wf(),
        final(context).same_but_shadows(old(context)),
        match r {
            Ok(None) => !store.names@.contains_key(node) && final(context).cloned_widget_entities
                == old(context).cloned_widget_entities && final(context).next_id == old(context).next_id,
            Err(e) => store.names@.contains_key(node) && !old(context).systems@.contains_key(
                store.names@[node]@,
            ) && e.widget_type@ == store.names@[node]@ && final(context).cloned_widget_entities
                == old(context).cloned_widget_entities && final(context).next_id == old(context).next_id,
            Ok(Some(dispatch)) => {
                &&& store.names@.contains_key(node)
                &&& old(context).systems@.contains_key(store.names@[node]@)
                &&& dispatch.systems == old(context).systems@[store.names@[node]@]
                &&& dispatch.shadow == old(context).shadow_for(node)
                &&& ids_of(final(context).cloned_widget_entities) == match dispatch.shadow {
                    Some(s) => ids_of(old(context).cloned_widget_entities).insert(node, s.node),
                    None => ids_of(old(context).cloned_widget_entities),
                }
                &&& final(context).next_id == if old(context).makes_shadow(node) {
                    (old(context).next_id + 1) as u64
                } else {
                    old(context).next_id
                }
            },
        },
{
    let name = match store.names.get(&node) {
        Some(name) => name,
        None => {
            return Ok(None);
        },
    };
    let systems = match context.systems.dispatch(name.as_str()) {
        Ok(systems) => systems,
        Err(e) => {
            return Err(e);
        },
    };
    let shadow = match id_map_get(&context.cloned_widget_entities, node) {
        Some(s) => Some(Spawned { node: s, reused: true }),
        None => {
            if context.next_id == u64::MAX {
                None
            } else {
                let s = context.next_id;
                context.next_id = s + 1;
                id_map_insert(&mut context.cloned_widget_entities, node, s);
                Some(Spawned { node: s, reused: false })
            }
        },
    };
    proof {
        match shadow {
            Some(s) => {
                assert(ids_of(context.cloned_widget_entities) =~= ids_of(
                    old(context).cloned_widget_entities,
                ).insert(node, s.node));
            },
            None => {},
        }
    }
    Ok(Some(Dispatch { systems, shadow }))
}

/// Releases a widget that the host no longer has, with all that is below
/// it, unless a live widget still holds it as a child value.
pub fn remove_dangling(context: &mut KayakRootContext, store: &mut WidgetStore, node: NodeId) -> (r:
    Reconciled)
    requires
        old(context).wf(),
        old(store).wf(),
    ensures
        final(context).wf(),
        final(store).wf(),
        r.changes@.len() == 0,
        held(old(context).tree@, old(context).order_tree@, old(store), node) ==> {
            &&& r.despawned@.len() == 0
            &&& r.shadows@.len() == 0
            &&& *final(context) == *old(context)
            &&& *final(store) == *old(store)
        },
        !held(old(context).tree@, old(context).order_tree@, old(store), node) ==> {
            &&& r.despawned@ == old(context).tree@.subtree(node)
            &&& final(context).tree@ == old(context).tree@.remove(node)
            &&& final(context).order_tree@ == old(context).order_tree@.remove(node)
            &&& !final(context).tree@.contains(node)
            &&& final(context).same_setup(old(context))
            &&& final(context).index == old(context).index
            &&& final(context).next_id == old(context).next_id
            &&& forgotten(
                old(context),
                old(store),
                r.despawned@.to_set(),
                final(context),
                final(store),
            )
            &&& forall|s: u64|
                r.shadows@.contains(s) <==> exists|x: NodeId|
                    r.despawned@.contains(x) && ids_of(
                        old(context).cloned_widget_entities,
                    ).contains_key(x) && #[trigger] ids_of(old(context).cloned_widget_entities)[x]
                        == s
        },
{
    let none = ChildChanges { changes: Vec::new() };
    if is_held(context, store, node) {
        return Reconciled { changes: none, despawned: Vec::new(), shadows: Vec::new() };
    }
    let mut list: Vec<NodeId> = Vec::new();
    list.push(node);
    proof {
        assert(list@.drop_last() =~= Seq::<NodeId>::empty());
        assert(list@.last() == node);
        assert(remove_each(context.tree@, list@.drop_last()) == context.tree@);
        assert(remove_each(context.order_tree@, list@.drop_last()) == context.order_tree@);
        assert(removed_by(context.tree@, list@.drop_last()) =~= Seq::<NodeId>::empty());
        assert(remove_each(context.tree@, list@) == context.tree@.remove(node));
        assert(remove_each(context.order_tree@, list@) == context.order_tree@.remove(node));
        assert(removed_by(context.tree@, list@) =~= context.tree@.subtree(node));
        assert(list@.contains(list@[0]));
    }
    let gone = reclaim(context, &list);
    let shadows = forget_nodes(context, store, &gone);
    Reconciled { changes: none, despawned: gone, shadows }
}

/// Takes `node` into the focus tree where it is focusable.
pub fn track_focus(context: &mut KayakRootContext, store: &WidgetStore, node: NodeId)
    requires
        old(context).wf(),
        store.wf(),
    ensures
        final(context).wf(),
        final(context).same_but_focus(old(context)),
        store.focusable@.contains(node) ==> final(context).focus_tree@.tree == old(
            context,
        ).focus_tree@.tree.add(
            node,
            old(context).tree@.nearest_marked(node, old(context).focus_tree@.members()),
        ),
        !store.focusable@.contains(node) ==> final(context).focus_tree == old(context).focus_tree,
{
    if store.focusable.contains(node) {
        context.focus_tree.add(node, &context.tree);
    }
}

/// The nodes that the update walk of a frame has still to visit.
pub struct FrameWalk {
    stack: Vec<NodeId>,
}

impl View for FrameWalk {
    type V = Seq<NodeId>;

    /// The nodes in the order in which they come up.
    closed spec fn view(&self) -> Seq<NodeId> {
        self.stack@.reverse()
    }
}

impl FrameWalk {
    /// The next node of the walk.
    pub fn next(&mut self) -> (r: Option<NodeId>)
        ensures
            match r {
                Some(n) => old(self)@.len() > 0 && n == old(self)@[0] && final(self)@ == old(self)@.skip(1),
                None => old(self)@.len() == 0 && final(self)@ == old(self)@,
            },
    {
        let r = self.stack.pop();
        proof {
            match r {
                Some(n) => {
                    assert(self.stack@.reverse() =~= old(self).stack@.reverse().skip(1));
                },
                None => {},
            }
        }
        r
    }

    /// Puts the children of a widget that has rendered at the head of the
    /// walk: they come up next, in child order, before what was pending.
    pub fn descend(&mut self, children: &Vec<NodeId>)
        ensures
            final(self)@ == children@ + old(self)@,
    {
        let mut i: usize = children.len();
        assert(children@.skip(i as int) =~= Seq::<NodeId>::empty());
        assert(self@ =~= children@.skip(i as int) + old(self)@);
        while i > 0
            invariant
                i <= children.len(),
                self@ == children@.skip(i as int) + old(self)@,
            decreases i,
        {
            i = i - 1;
            let ghost before = self.stack@;
            self.stack.push(children[i]);
            proof {
                assert(self.stack@.reverse() =~= seq![children@[i as int]] + before.reverse());
                assert(children@.skip(i as int) =~= seq![children@[i as int]] + children@.skip(
                    i + 1,
                ));
            }
        }
        assert(children@.skip(0) =~= children@);
    }

    /// Goes on after `node`, whose update predicate has answered: below a
    /// widget that changed, and has rendered, the walk visits its children
    /// next; the subtree of a widget that did not change is left alone.
    pub fn advance(&mut self, tree: &Tree, node: NodeId, changed: bool)
        ensures
            final(self)@ == if changed {
                tree@.children_of(node) + old(self)@
            } else {
                old(self)@
            },
    {
        if changed {
            let children = tree.children(node);
            self.descend(&children);
        }
    }

    /// Whether the walk is over.
    pub fn is_done(&self) -> (r: bool)
        ensures
            r == (self@.len() == 0),
    {
        self.stack.len() == 0
    }
}

/// Begins the update walk of a frame: the walk starts at the root. The host
/// takes node after node off the walk, runs its update predicate, and for a
/// widget that changed its render function; [`update_widgets`] then takes
/// the result into the tree, and [`FrameWalk::descend`] puts the children up
/// next. The subtree of a widget that did not change is not visited.
pub fn update_widgets_sys(context: &KayakRootContext) -> (walk: FrameWalk)
    ensures
        walk@ == match context.tree@.root {
            Some(root) => seq![root],
            None => Seq::empty(),
        },
{
    let mut stack: Vec<NodeId> = Vec::new();
    match context.tree.root() {
        Some(root) => {
            stack.push(root);
        },
        None => {},
    }
    let walk = FrameWalk { stack };
    proof {
        match context.tree@.root {
            Some(root) => {
                assert(walk.stack@.reverse() =~= seq![root]);
            },
            None => {
                assert(walk.stack@.reverse() =~= Seq::<NodeId>::empty());
            },
        }
    }
    walk
}

/// Taking out subtrees that `n` does not lie below, of nodes that are not
/// children of `n`, leaves the children of `n` as they are.
proof fn lemma_remove_each_keeps_children(tree: TreeModel, list: Seq<NodeId>, n: NodeId)
    requires
        tree.wf(),
        forall|i: int| 0 <= i < list.len() ==> !tree.is_descendant(n, #[trigger] list[i]),
        forall|i: int| 0 <= i < list.len() ==> !tree.children_of(n).contains(#[trigger] list[i]),
    ensures
        remove_each(tree, list).wf(),
        remove_each(tree, list).children_of(n) == tree.children_of(n),
        forall|r: NodeId|
            !tree.is_descendant(n, r) ==> !(#[trigger] remove_each(tree, list).is_descendant(n, r)),
    decreases list.len(),
{
    if list.len() > 0 {
        let front = list.drop_last();
        assert forall|i: int| 0 <= i < front.len() implies !tree.is_descendant(
            n,
            #[trigger] front[i],
        ) && !tree.children_of(n).contains(front[i]) by {
            assert(front[i] == list[i]);
        }
        lemma_remove_each_keeps_children(tree, front, n);
        let mid = remove_each(tree, front);
        let last = list[list.len() - 1];
        assert(!tree.is_descendant(n, last));
        mid.lemma_remove_wf(last);
        mid.lemma_remove_keeps_children(last, n);
    }
}

/// When a widget has rendered, its children are what it rendered, in that
/// order: provided the rendered list names no node twice, and only nodes
/// that are children already or free to become children.
pub proof fn lemma_update_children(
    tree: TreeModel,
    order_tree: TreeModel,
    store: &WidgetStore,
    node: NodeId,
    new: Seq<NodeId>,
)
    requires
        tree.wf(),
        tree.contains(node),
        new.no_duplicates(),
        new.len() <= usize::MAX,
        tree.children_of(node).len() <= usize::MAX,
        forall|x: NodeId| #[trigger] new.contains(x) ==> tree.placeable(x, node),
    ensures
        remove_each(
            tree.merge(node, diff_spec(node, tree.children_of(node), new)),
            reclaimed(tree, order_tree, store, diff_spec(node, tree.children_of(node), new)),
        ).children_of(node) == new,
        remove_each(
            tree.merge(node, diff_spec(node, tree.children_of(node), new)),
            reclaimed(tree, order_tree, store, diff_spec(node, tree.children_of(node), new)),
        ).wf(),
{
    let old = tree.children_of(node);
    let script = diff_spec(node, old, new);
    let merged = tree.merge(node, script);
    let list = reclaimed(tree, order_tree, store, script);
    tree.lemma_merge_diff(node, new);
    lemma_deleted_steps(node, old, new);
    let del = deleted_steps(node, old, new);
    assert forall|i: int| 0 <= i < list.len() implies !merged.is_descendant(
        node,
        #[trigger] list[i],
    ) && !merged.children_of(node).contains(list[i]) by {
        let r = list[i];
        assert(list.contains(r));
        lemma_reclaimed(tree, order_tree, store, script, r);
        let j = choose|j: int|
            0 <= j < script.len() && (#[trigger] script[j]).node == r && script[j].change
                == Change::Deleted;
        if j >= del.len() {
            assert(script[j] == kept_steps(node, old, new)[j - del.len()]);
            assert(new.contains(new[j - del.len()]));
        } else {
            assert(script[j] == del[j]);
        }
        assert(old[del[j].slot as int] == r);
        assert(tree.parents.contains_key(tree.children[node][del[j].slot as int]));
        assert(tree.parents[r] == node);
        if merged.is_descendant(node, r) {
            let k = choose|k: nat| merged.ancestor_at(node, k) == Some(r);
            tree.lemma_set_children_chain(node, new, k);
            tree.lemma_ancestor_step(node, k);
            assert(tree.ancestor_at(node, k + 1) == Some(node));
        }
    }
    lemma_remove_each_keeps_children(merged, list, node);
}

} // verus!
