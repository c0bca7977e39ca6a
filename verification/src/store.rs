//! The per-widget tables: what the host knows of each widget, as far as the
//! core reads it.

use crate::diff::contains_id;
use crate::node::{Node, NodeId};
use crate::node_set::NodeSet;
use crate::styles::KStyle;
use std::collections::HashMap;
use vstd::prelude::*;

verus! {

broadcast use vstd::std_specs::hash::group_hash_axioms;

/// One table per kind of fact, each keyed by the widget's handle.
pub struct WidgetStore {
    /// The style that the widget's last render computed.
    pub styles: HashMap<NodeId, KStyle>,
    /// The snapshot that the last style pass took.
    pub nodes: HashMap<NodeId, Node>,
    /// The children that the widget was handed as a value by whoever
    /// rendered it.
    pub children: HashMap<NodeId, Vec<NodeId>>,
    /// The type name by which the widget's functions are found.
    pub names: HashMap<NodeId, String>,
    /// The widgets that need a style pass.
    pub dirty: NodeSet,
    /// The widgets that entered the tree and have not rendered since.
    pub mounted: NodeSet,
    /// The widgets that can take the keyboard focus.
    pub focusable: NodeSet,
}

impl WidgetStore {
    /// The three sets are in order.
    pub open spec fn wf(&self) -> bool {
        self.dirty.wf() && self.mounted.wf() && self.focusable.wf()
    }

    /// `holder` was handed `child` among its children.
    pub open spec fn declares(&self, holder: NodeId, child: NodeId) -> bool {
        self.children@.contains_key(holder) && self.children@[holder]@.contains(child)
    }

    /// The snapshot of every widget that has one is fully resolved.
    pub open spec fn snapshots_concrete(&self) -> bool {
        forall|n: NodeId| #[trigger]
            self.nodes@.contains_key(n) ==> self.nodes@[n].resolved_styles.is_concrete()
    }

    /// A store without widgets.
    pub fn new() -> (r: WidgetStore)
        ensures
            r.wf(),
            r.styles@ == Map::<NodeId, KStyle>::empty(),
            r.nodes@ == Map::<NodeId, Node>::empty(),
            r.children@ == Map::<NodeId, Vec<NodeId>>::empty(),
            r.names@ == Map::<NodeId, String>::empty(),
            r.dirty@ == Set::<NodeId>::empty(),
            r.mounted@ == Set::<NodeId>::empty(),
            r.focusable@ == Set::<NodeId>::empty(),
    {
        WidgetStore {
            styles: HashMap::new(),
            nodes: HashMap::new(),
            children: HashMap::new(),
            names: HashMap::new(),
            dirty: NodeSet::new(),
            mounted: NodeSet::new(),
            focusable: NodeSet::new(),
        }
    }

    /// Whether `holder` was handed `child` among its children.
    pub fn holds(&self, holder: NodeId, child: NodeId) -> (r: bool)
        ensures
            r == self.declares(holder, child),
    {
        match self.children.get(&holder) {
            Some(list) => contains_id(list, child),
            None => false,
        }
    }

    /// Whether `id` needs a style pass.
    pub fn is_dirty(&self, id: NodeId) -> (r: bool)
        requires
            self.wf(),
        ensures
            r == self.dirty@.contains(id),
    {
        self.dirty.contains(id)
    }

    /// Forgets everything about `id`.
    pub fn despawn(&mut self, id: NodeId)
        requires
            old(self).wf(),
        ensures
            final(self).wf(),
            final(self).styles@ == old(self).styles@.remove(id),
            final(self).nodes@ == old(self).nodes@.remove(id),
            final(self).children@ == old(self).children@.remove(id),
            final(self).names@ == old(self).names@.remove(id),
            final(self).dirty@ == old(self).dirty@.remove(id),
            final(self).mounted@ == old(self).mounted@.remove(id),
            final(self).focusable@ == old(self).focusable@.remove(id),
    {
        self.styles.remove(&id);
        self.nodes.remove(&id);
        self.children.remove(&id);
        self.names.remove(&id);
        self.dirty.remove(id);
        self.mounted.remove(id);
        self.focusable.remove(id);
    }
}

} // verus!
