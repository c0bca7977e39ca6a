//! The root context: the scene tree, the layout cache, the registry and the
//! identity bookkeeping of one user interface.

use crate::focus_tree::FocusTree;
use crate::id_map::{
    id_map_get, id_map_insert, id_map_new, ids_of, key_map_get, key_map_insert, key_map_new,
    keys_of,
};
use crate::layout::{LayoutCache, LayoutModel, Rect};
use crate::node::{Node, NodeId};
use crate::registry::{ConfigurationError, SystemPair, WidgetSystems};
use crate::render_primitive::{extract_primitives, scene_of, RenderPrimitive, MAX_OPACITY_LAYERS};
use crate::tree::Tree;
use crate::tree_model::TreeModel;
use dashmap::DashMap;
use std::collections::HashMap;
use vstd::prelude::*;

verus! {

/// The type name of a widget, by which its update predicate and its render
/// function are found.
#[derive(Debug)]
pub struct WidgetName(pub String);

impl Default for WidgetName {
    /// The name of a widget that was given none.
    fn default() -> (r: WidgetName)
        ensures
            r.0@ == "NO_NAME"@,
    {
        WidgetName("NO_NAME".to_owned())
    }
}

impl From<String> for WidgetName {
    fn from(value: String) -> (r: WidgetName) {
        WidgetName(value)
    }
}

impl vstd::std_specs::convert::FromSpecImpl<String> for WidgetName {
    open spec fn obeys_from_spec() -> bool {
        true
    }

    open spec fn from_spec(value: String) -> WidgetName {
        WidgetName(value)
    }
}

/// Marks a widget that has entered the tree and has not rendered since.
#[derive(Clone, Copy, Debug, Default)]
pub struct Mounted;

/// The kinds of data that a widget type keeps from frame to frame, by name.
pub struct WidgetData {
    pub props: String,
    pub state: String,
}

/// A context value that a subtree shares: all widgets at or below `parent`
/// find `entity` under `kind`.
#[derive(Clone, Copy, PartialEq, Eq, Structural, Debug)]
pub struct ContextEntity {
    pub kind: u64,
    pub parent: Option<NodeId>,
    pub entity: u64,
}

/// What [`KayakRootContext::spawn_widget`] hands out: a handle, and whether
/// it is the handle of a widget of the frame before.
#[derive(Clone, Copy, PartialEq, Eq, Structural, Debug)]
pub struct Spawned {
    pub node: NodeId,
    pub reused: bool,
}

/// All the state of one user interface.
pub struct KayakRootContext {
    /// The scene tree.
    pub tree: Tree,
    pub layout_cache: LayoutCache,
    pub focus_tree: FocusTree,
    pub systems: WidgetSystems,
    /// The type names registered since the host last initialised its
    /// functions, in the order of their registration.
    pub uninitialized_systems: Vec<String>,
    pub data_kinds: Vec<WidgetData>,
    pub current_z: i32,
    pub context_entities: Vec<ContextEntity>,
    /// For each widget the handle of its copy from the frame before.
    pub cloned_widget_entities: DashMap<NodeId, u64>,
    /// The unkeyed children of each widget in the order in which they were
    /// first spawned.
    pub order_tree: Tree,
    /// For each widget the number of unkeyed children it has spawned so far
    /// in this frame.
    pub index: DashMap<NodeId, u64>,
    /// The keyed children: a parent and a key lead to the child.
    pub unique_ids: DashMap<(NodeId, String), NodeId>,
    /// For each keyed child the parent it was spawned under.
    pub unique_ids_parents: DashMap<NodeId, u64>,
    /// The host's handle of the camera that shows this interface.
    pub camera_entity: u64,
    /// The handle that the next new widget gets.
    pub next_id: NodeId,
    /// How many opacity layers may be open at once.
    pub max_opacity_layers: u32,
}

/// The child index after one more unkeyed child.
pub open spec fn bumped(index: u64) -> u64 {
    if index < u64::MAX {
        (index + 1) as u64
    } else {
        index
    }
}

impl Default for KayakRootContext {
    /// A context for the interface that camera 0 shows.
    fn default() -> (r: KayakRootContext)
        ensures
            r.wf(),
            r.is_new(0),
    {
        KayakRootContext::new(0)
    }
}

impl KayakRootContext {
    /// The trees are forests, the focus is on a focusable node, and no type
    /// name is registered twice.
    pub open spec fn wf(&self) -> bool {
        &&& self.tree@.wf()
        &&& self.order_tree@.wf()
        &&& self.focus_tree@.wf()
        &&& self.systems.wf()
    }

    /// What the host set up is as in `other`: the registry, the context
    /// values, the camera, the layer budget; so are the focus tree and the
    /// running depth.
    pub open spec fn same_setup(&self, other: &KayakRootContext) -> bool {
        &&& self.focus_tree == other.focus_tree
        &&& self.systems == other.systems
        &&& self.uninitialized_systems == other.uninitialized_systems
        &&& self.data_kinds == other.data_kinds
        &&& self.context_entities == other.context_entities
        &&& self.current_z == other.current_z
        &&& self.camera_entity == other.camera_entity
        &&& self.max_opacity_layers == other.max_opacity_layers
    }

    /// Everything but the identity bookkeeping is as in `other`.
    pub open spec fn same_scene(&self, other: &KayakRootContext) -> bool {
        &&& self.tree == other.tree
        &&& self.layout_cache == other.layout_cache
        &&& self.focus_tree == other.focus_tree
        &&& self.systems == other.systems
        &&& self.uninitialized_systems == other.uninitialized_systems
        &&& self.data_kinds == other.data_kinds
        &&& self.current_z == other.current_z
        &&& self.context_entities == other.context_entities
        &&& self.cloned_widget_entities == other.cloned_widget_entities
        &&& self.camera_entity == other.camera_entity
        &&& self.max_opacity_layers == other.max_opacity_layers
    }

    /// Everything but the layout cache and the running depth is as in
    /// `other`.
    pub open spec fn same_but_layout(&self, other: &KayakRootContext) -> bool {
        &&& self.tree == other.tree
        &&& self.focus_tree == other.focus_tree
        &&& self.systems == other.systems
        &&& self.uninitialized_systems == other.uninitialized_systems
        &&& self.data_kinds == other.data_kinds
        &&& self.context_entities == other.context_entities
        &&& self.cloned_widget_entities == other.cloned_widget_entities
        &&& self.camera_entity == other.camera_entity
        &&& self.max_opacity_layers == other.max_opacity_layers
        &&& self.order_tree == other.order_tree
        &&& self.index == other.index
        &&& self.unique_ids == other.unique_ids
        &&& self.unique_ids_parents == other.unique_ids_parents
        &&& self.next_id == other.next_id
    }

    /// Everything but the copies of the frame before and the next handle is
    /// as in `other`.
    pub open spec fn same_but_shadows(&self, other: &KayakRootContext) -> bool {
        &&& self.tree == other.tree
        &&& self.layout_cache == other.layout_cache
        &&& self.focus_tree == other.focus_tree
        &&& self.systems == other.systems
        &&& self.uninitialized_systems == other.uninitialized_systems
        &&& self.data_kinds == other.data_kinds
        &&& self.current_z == other.current_z
        &&& self.context_entities == other.context_entities
        &&& self.camera_entity == other.camera_entity
        &&& self.max_opacity_layers == other.max_opacity_layers
        &&& self.order_tree == other.order_tree
        &&& self.index == other.index
        &&& self.unique_ids == other.unique_ids
        &&& self.unique_ids_parents == other.unique_ids_parents
    }

    /// Everything but the focus tree is as in `other`.
    pub open spec fn same_but_focus(&self, other: &KayakRootContext) -> bool {
        &&& self.tree == other.tree
        &&& self.layout_cache == other.layout_cache
        &&& self.systems == other.systems
        &&& self.uninitialized_systems == other.uninitialized_systems
        &&& self.data_kinds == other.data_kinds
        &&& self.current_z == other.current_z
        &&& self.context_entities == other.context_entities
        &&& self.cloned_widget_entities == other.cloned_widget_entities
        &&& self.camera_entity == other.camera_entity
        &&& self.max_opacity_layers == other.max_opacity_layers
        &&& self.order_tree == other.order_tree
        &&& self.index == other.index
        &&& self.unique_ids == other.unique_ids
        &&& self.unique_ids_parents == other.unique_ids_parents
        &&& self.next_id == other.next_id
    }

    /// A widget without a copy of the frame before gets one, unless the
    /// handles have run out.
    pub open spec fn makes_shadow(&self, node: NodeId) -> bool {
        !ids_of(self.cloned_widget_entities).contains_key(node) && self.next_id < u64::MAX
    }

    /// The copy of the frame before that belongs to `node`: the one it has,
    /// else a new one.
    pub open spec fn shadow_for(&self, node: NodeId) -> Option<Spawned> {
        if ids_of(self.cloned_widget_entities).contains_key(node) {
            Some(Spawned { node: ids_of(self.cloned_widget_entities)[node], reused: true })
        } else if self.next_id < u64::MAX {
            Some(Spawned { node: self.next_id, reused: false })
        } else {
            None
        }
    }

    /// How many unkeyed children `parent` has spawned so far in this frame.
    pub open spec fn child_index(&self, parent: NodeId) -> u64 {
        if ids_of(self.index).contains_key(parent) {
            ids_of(self.index)[parent]
        } else {
            0
        }
    }

    /// The widget of the frame before that a spawn under `parent_id` takes
    /// up again: with a key, the child that the parent has under that key,
    /// wherever it stood; without one, the unkeyed child that stands where
    /// this spawn stands among the unkeyed children.
    pub open spec fn reusable(&self, key: Option<&str>, parent_id: Option<NodeId>) -> Option<
        NodeId,
    > {
        match parent_id {
            None => None,
            Some(parent) => match key {
                Some(k) => if keys_of(self.unique_ids).contains_key((parent, k@)) {
                    Some(keys_of(self.unique_ids)[(parent, k@)])
                } else {
                    None
                },
                None => {
                    let ordered = self.order_tree@.children_of(parent);
                    if self.child_index(parent) < ordered.len() {
                        Some(ordered[self.child_index(parent) as int])
                    } else {
                        None
                    }
                },
            },
        }
    }

    /// What a spawn hands out: the widget to take up again where there is
    /// one, else a new handle, unless the handles have run out.
    pub open spec fn spawn_result(&self, key: Option<&str>, parent_id: Option<NodeId>) -> Option<
        Spawned,
    > {
        match self.reusable(key, parent_id) {
            Some(node) => Some(Spawned { node, reused: true }),
            None => if self.next_id == u64::MAX {
                None
            } else {
                Some(Spawned { node: self.next_id, reused: false })
            },
        }
    }

    /// A spawn made a new widget.
    pub open spec fn spawns_new(&self, key: Option<&str>, parent_id: Option<NodeId>) -> bool {
        self.reusable(key, parent_id) is None && self.next_id < u64::MAX
    }

    /// A context as it is made: nothing in it but the camera.
    pub open spec fn is_new(&self, camera_entity: u64) -> bool {
        &&& self.tree@ == TreeModel::empty()
        &&& self.order_tree@ == TreeModel::empty()
        &&& self.layout_cache@ == LayoutModel::empty()
        &&& self.focus_tree@.tree == TreeModel::empty()
        &&& self.focus_tree@.current == None::<NodeId>
        &&& self.systems@ == Map::<Seq<char>, SystemPair>::empty()
        &&& self.uninitialized_systems@.len() == 0
        &&& self.data_kinds@.len() == 0
        &&& self.context_entities@.len() == 0
        &&& ids_of(self.index).dom() == Set::<NodeId>::empty()
        &&& ids_of(self.cloned_widget_entities).dom() == Set::<NodeId>::empty()
        &&& ids_of(self.unique_ids_parents).dom() == Set::<NodeId>::empty()
        &&& keys_of(self.unique_ids).dom() == Set::<(NodeId, Seq<char>)>::empty()
        &&& self.camera_entity == camera_entity
        &&& self.next_id == 0
        &&& self.current_z == 0
        &&& self.max_opacity_layers == MAX_OPACITY_LAYERS
    }

    /// Creates a context for the interface that `camera_entity` shows.
    pub fn new(camera_entity: u64) -> (r: KayakRootContext)
        ensures
            r.wf(),
            r.is_new(camera_entity),
    {
        KayakRootContext {
            tree: Tree::new(),
            layout_cache: LayoutCache::new(),
            focus_tree: FocusTree::new(),
            systems: WidgetSystems::new(),
            uninitialized_systems: Vec::new(),
            data_kinds: Vec::new(),
            current_z: 0,
            context_entities: Vec::new(),
            cloned_widget_entities: id_map_new(),
            order_tree: Tree::new(),
            index: id_map_new(),
            unique_ids: key_map_new(),
            unique_ids_parents: id_map_new(),
            camera_entity,
            next_id: 0,
            max_opacity_layers: MAX_OPACITY_LAYERS,
        }
    }

    /// The rectangle of `id`.
    pub fn get_layout(&self, id: NodeId) -> (r: Option<Rect>)
        ensures
            r == self.layout_cache@.rect_of(id),
    {
        self.layout_cache.get(id)
    }

    /// Whether the last layout pass changed the rectangle of `id`.
    pub fn get_geometry_changed(&self, id: NodeId) -> (r: bool)
        ensures
            r == self.layout_cache@.has_geometry_changed(id),
    {
        self.layout_cache.geometry_changed(id)
    }

    /// The node that has the keyboard focus.
    pub fn focused_node(&self) -> (r: Option<NodeId>)
        ensures
            r == self.focus_tree@.current,
    {
        self.focus_tree.current()
    }

    /// Registers the update predicate and the render function of a widget
    /// type. The update predicate runs every frame and tells whether the
    /// widget changed; the render function runs for a changed widget and
    /// produces its children.
    pub fn add_widget_system(&mut self, widget_type: &str, update: u64, render: u64)
        requires
            old(self).wf(),
        ensures
            final(self).wf(),
            final(self).systems@ == old(self).systems@.insert(
                widget_type@,
                SystemPair { update, render },
            ),
            final(self).uninitialized_systems@.len() == old(self).uninitialized_systems@.len() + 1,
            final(self).uninitialized_systems@.last()@ == widget_type@,
            final(self).uninitialized_systems@.drop_last() == old(self).uninitialized_systems@,
            final(self).tree == old(self).tree,
            final(self).order_tree == old(self).order_tree,
            final(self).layout_cache == old(self).layout_cache,
            final(self).focus_tree == old(self).focus_tree,
            final(self).data_kinds == old(self).data_kinds,
            final(self).next_id == old(self).next_id,
    {
        self.systems.insert(widget_type, SystemPair { update, render });
        self.uninitialized_systems.push(widget_type.to_owned());
    }

    /// The functions of a widget type, or the error that names the type
    /// where none are registered.
    pub fn widget_systems(&self, widget_type: &str) -> (r: Result<SystemPair, ConfigurationError>)
        requires
            self.wf(),
        ensures
            match r {
                Ok(systems) => self.systems@.contains_key(widget_type@) && systems
                    == self.systems@[widget_type@],
                Err(e) => !self.systems@.contains_key(widget_type@) && e.widget_type@
                    == widget_type@,
            },
    {
        self.systems.dispatch(widget_type)
    }

    /// Tells the context which kinds of data a widget type keeps, so that a
    /// copy of them can be held from one frame to the next and compared.
    pub fn add_widget_data(&mut self, props: &str, state: &str)
        ensures
            final(self).data_kinds@.len() == old(self).data_kinds@.len() + 1,
            final(self).data_kinds@.last().props@ == props@,
            final(self).data_kinds@.last().state@ == state@,
            final(self).data_kinds@.drop_last() == old(self).data_kinds@,
            final(self).tree == old(self).tree,
            final(self).order_tree == old(self).order_tree,
            final(self).layout_cache == old(self).layout_cache,
            final(self).focus_tree == old(self).focus_tree,
            final(self).systems == old(self).systems,
            final(self).next_id == old(self).next_id,
    {
        self.data_kinds.push(WidgetData { props: props.to_owned(), state: state.to_owned() });
    }

    /// Adds a widget to the scene tree, below `parent` or as the root, and
    /// gives it an entry in the layout cache.
    pub fn add_widget(&mut self, parent: Option<NodeId>, entity: NodeId)
        requires
            old(self).wf(),
        ensures
            final(self).wf(),
            final(self).tree@ == old(self).tree@.add(entity, parent),
            final(self).layout_cache@.geometry_changed == old(self).layout_cache@.geometry_changed,
            final(self).layout_cache@.rect == if old(self).layout_cache@.rect.contains_key(entity) {
                old(self).layout_cache@.rect
            } else {
                old(self).layout_cache@.rect.insert(entity, Rect::zero())
            },
            final(self).order_tree == old(self).order_tree,
            final(self).focus_tree == old(self).focus_tree,
            final(self).systems == old(self).systems,
            final(self).index == old(self).index,
            final(self).unique_ids == old(self).unique_ids,
            final(self).unique_ids_parents == old(self).unique_ids_parents,
            final(self).next_id == old(self).next_id,
    {
        self.tree.add(entity, parent);
        self.layout_cache.add(entity);
    }

    /// Records the context value of one kind for the subtree below
    /// `parent_id`, in place of the one recorded for it before.
    pub fn set_context_entity(&mut self, kind: u64, parent_id: Option<NodeId>, context_entity: u64)
        ensures
            final(self).tree == old(self).tree,
            final(self).order_tree == old(self).order_tree,
            final(self).layout_cache == old(self).layout_cache,
            final(self).focus_tree == old(self).focus_tree,
            final(self).systems == old(self).systems,
            final(self).next_id == old(self).next_id,
            final(self).context_entity_of(kind, parent_id) == Some(context_entity),
            forall|k: u64, p: Option<NodeId>|
                (k != kind || p != parent_id) ==> final(self).context_entity_of(k, p) == old(
                    self,
                ).context_entity_of(k, p),
    {
        let ghost before = self.context_entities@;
        let found = self.find_context(kind, parent_id);
        let entry = ContextEntity { kind, parent: parent_id, entity: context_entity };
        let ghost at: int;
        match found {
            Some(f) => {
                self.context_entities.set(f, entry);
                proof {
                    at = f as int;
                }
            },
            None => {
                self.context_entities.push(entry);
                proof {
                    at = before.len() as int;
                }
            },
        }
        proof {
            let after = self.context_entities@;
            assert(is_first_context(after, kind, parent_id, at));
            lemma_first_context(after, kind, parent_id, at);
            assert forall|k: u64, p: Option<NodeId>|
                (k != kind || p != parent_id) implies self.context_entity_of(
                k,
                p,
            ) == old(self).context_entity_of(k, p) by {
                assert forall|j: int| 0 <= j < before.len() implies context_matches(
                    #[trigger] after[j],
                    k,
                    p,
                ) == context_matches(before[j], k, p) && (context_matches(before[j], k, p)
                    ==> after[j] == before[j]) by {}
                lemma_context_other(before, after, k, p);
            }
        }
    }

    fn find_context(&self, kind: u64, parent_id: Option<NodeId>) -> (r: Option<usize>)
        ensures
            match r {
                Some(i) => is_first_context(self.context_entities@, kind, parent_id, i as int),
                None => forall|j: int|
                    0 <= j < self.context_entities@.len() ==> !context_matches(
                        #[trigger] self.context_entities@[j],
                        kind,
                        parent_id,
                    ),
            },
    {
        let mut i: usize = 0;
        while i < self.context_entities.len()
            invariant
                i <= self.context_entities@.len(),
                forall|j: int|
                    0 <= j < i ==> !context_matches(
                        #[trigger] self.context_entities@[j],
                        kind,
                        parent_id,
                    ),
            decreases self.context_entities@.len() - i,
        {
            let e = self.context_entities[i];
            let same_parent = match e.parent {
                Some(p) => match parent_id {
                    Some(q) => p == q,
                    None => false,
                },
                None => match parent_id {
                    Some(q) => false,
                    None => true,
                },
            };
            if e.kind == kind && same_parent {
                return Some(i);
            }
            i = i + 1;
        }
        None
    }

    /// The context value recorded for `kind` and `parent_id`.
    pub open spec fn context_entity_of(&self, kind: u64, parent_id: Option<NodeId>) -> Option<u64> {
        match first_context(self.context_entities@, kind, parent_id) {
            Some(i) => Some(self.context_entities@[i].entity),
            None => None,
        }
    }

    /// The context value recorded for `kind` and `parent_id`.
    pub fn get_context_entity(&self, kind: u64, parent_id: Option<NodeId>) -> (r: Option<u64>)
        ensures
            r == self.context_entity_of(kind, parent_id),
    {
        match self.find_context(kind, parent_id) {
            Some(i) => {
                proof {
                    lemma_first_context(self.context_entities@, kind, parent_id, i as int);
                }
                Some(self.context_entities[i].entity)
            },
            None => None,
        }
    }

    /// The unkeyed children of `entity` in the order in which they were
    /// first spawned.
    pub fn get_children_ordered(&self, entity: NodeId) -> (r: Vec<NodeId>)
        ensures
            r@ == self.order_tree@.children_of(entity),
    {
        self.order_tree.children(entity)
    }

    /// The number of unkeyed children that `parent` has spawned so far in
    /// this frame; counts one more from now on.
    pub fn get_and_add_index(&mut self, parent: NodeId) -> (r: u64)
        ensures
            r == old(self).child_index(parent),
            ids_of(final(self).index) == ids_of(old(self).index).insert(parent, bumped(r)),
            final(self).same_scene(old(self)),
            final(self).order_tree == old(self).order_tree,
            final(self).unique_ids == old(self).unique_ids,
            final(self).unique_ids_parents == old(self).unique_ids_parents,
            final(self).next_id == old(self).next_id,
    {
        let current = match id_map_get(&self.index, parent) {
            Some(i) => i,
            None => 0,
        };
        let next = if current < u64::MAX {
            current + 1
        } else {
            current
        };
        id_map_insert(&mut self.index, parent, next);
        current
    }

    /// Hands out the handle for a child that `parent_id` renders: the handle
    /// that the child had in the frame before where it had one (see
    /// [`KayakRootContext::reusable`]), else a new one, recorded under the
    /// key or in spawn order. Returns `None` when the handles have run out.
    pub fn spawn_widget(&mut self, key: Option<&str>, parent_id: Option<NodeId>) -> (r: Option<
        Spawned,
    >)
        requires
            old(self).wf(),
        ensures
            final(self).wf(),
            final(self).same_scene(old(self)),
            r == old(self).spawn_result(key, parent_id),
            ids_of(final(self).index) == if parent_id is Some && key is None {
                ids_of(old(self).index).insert(
                    parent_id->0,
                    bumped(old(self).child_index(parent_id->0)),
                )
            } else {
                ids_of(old(self).index)
            },
            final(self).next_id == if old(self).spawns_new(key, parent_id) {
                (old(self).next_id + 1) as u64
            } else {
                old(self).next_id
            },
            keys_of(final(self).unique_ids) == if old(self).spawns_new(key, parent_id)
                && parent_id is Some && key is Some {
                keys_of(old(self).unique_ids).insert((parent_id->0, (key->0)@), old(self).next_id)
            } else {
                keys_of(old(self).unique_ids)
            },
            ids_of(final(self).unique_ids_parents) == if old(self).spawns_new(key, parent_id)
                && parent_id is Some && key is Some {
                ids_of(old(self).unique_ids_parents).insert(old(self).next_id, parent_id->0)
            } else {
                ids_of(old(self).unique_ids_parents)
            },
            final(self).order_tree@ == if old(self).spawns_new(key, parent_id) && parent_id is Some
                && key is None {
                old(self).order_tree@.add(old(self).next_id, parent_id)
            } else {
                old(self).order_tree@
            },
    {
        let mut entity: Option<NodeId> = None;
        match parent_id {
            Some(parent) => {
                match key {
                    Some(k) => {
                        entity = key_map_get(&self.unique_ids, parent, k);
                    },
                    None => {
                        let children = self.get_children_ordered(parent);
                        let index = self.get_and_add_index(parent);
                        if index < children.len() as u64 {
                            entity = Some(children[index as usize]);
                        }
                    },
                }
            },
            None => {},
        }
        match entity {
            Some(node) => Some(Spawned { node, reused: true }),
            None => {
                if self.next_id == u64::MAX {
                    return None;
                }
                let node = self.next_id;
                self.next_id = node + 1;
                match parent_id {
                    Some(parent) => {
                        match key {
                            Some(k) => {
                                key_map_insert(&mut self.unique_ids, parent, k, node);
                                id_map_insert(&mut self.unique_ids_parents, node, parent);
                            },
                            None => {
                                self.order_tree.add(node, Some(parent));
                            },
                        }
                    },
                    None => {},
                }
                Some(Spawned { node, reused: false })
            },
        }
    }

    /// Forgets how many children each widget has spawned: the next frame
    /// counts from the start.
    pub fn clear_indices(&mut self)
        ensures
            ids_of(final(self).index).dom() == Set::<NodeId>::empty(),
            final(self).same_scene(old(self)),
            final(self).order_tree == old(self).order_tree,
            final(self).unique_ids == old(self).unique_ids,
            final(self).unique_ids_parents == old(self).unique_ids_parents,
            final(self).next_id == old(self).next_id,
    {
        crate::id_map::id_map_clear(&mut self.index);
    }

    /// The paint list of the finished tree, in tree order (see
    /// [`crate::render_primitive::Scene::primitives`]).
    pub fn build_render_primitives(&self, nodes: &HashMap<NodeId, Node>) -> (r: Vec<
        RenderPrimitive,
    >)
        ensures
            r@ == scene_of(
                &self.tree,
                nodes,
                &self.layout_cache,
                match self.tree@.root {
                    Some(root) => self.layout_cache@.rect_of(root).unwrap_or(Rect::zero()),
                    None => Rect::zero(),
                },
                self.max_opacity_layers,
            ).primitives(),
    {
        extract_primitives(&self.tree, nodes, &self.layout_cache, self.max_opacity_layers)
    }
}

/// The position of the first entry for `kind` and `parent`.
pub open spec fn first_context(
    entries: Seq<ContextEntity>,
    kind: u64,
    parent: Option<NodeId>,
) -> Option<int> {
    if exists|i: int| is_first_context(entries, kind, parent, i) {
        Some(choose|i: int| is_first_context(entries, kind, parent, i))
    } else {
        None
    }
}

/// Whether an entry is the one for `kind` and `parent`.
pub open spec fn context_matches(e: ContextEntity, kind: u64, parent: Option<NodeId>) -> bool {
    e.kind == kind && e.parent == parent
}

/// `i` is the position of the first entry for `kind` and `parent`.
pub open spec fn is_first_context(
    entries: Seq<ContextEntity>,
    kind: u64,
    parent: Option<NodeId>,
    i: int,
) -> bool {
    &&& 0 <= i < entries.len()
    &&& context_matches(entries[i], kind, parent)
    &&& forall|j: int| 0 <= j < i ==> !context_matches(#[trigger] entries[j], kind, parent)
}

proof fn lemma_first_context(entries: Seq<ContextEntity>, kind: u64, parent: Option<NodeId>, i: int)
    requires
        is_first_context(entries, kind, parent, i),
    ensures
        first_context(entries, kind, parent) == Some(i),
{
    let c = choose|c: int| is_first_context(entries, kind, parent, c);
    if c < i {
        assert(!context_matches(entries[c], kind, parent));
    }
    if i < c {
        assert(!context_matches(entries[i], kind, parent));
    }
}

/// Entries for another kind or another parent are found where they were,
/// whatever becomes of the others.
proof fn lemma_context_other(
    before: Seq<ContextEntity>,
    after: Seq<ContextEntity>,
    kind: u64,
    parent: Option<NodeId>,
)
    requires
        before.len() <= after.len(),
        forall|j: int|
            0 <= j < before.len() ==> context_matches(#[trigger] after[j], kind, parent)
                == context_matches(before[j], kind, parent) && (context_matches(
                before[j],
                kind,
                parent,
            ) ==> after[j] == before[j]),
        forall|j: int|
            before.len() <= j < after.len() ==> !context_matches(#[trigger] after[j], kind, parent),
    ensures
        match first_context(after, kind, parent) {
            Some(i) => first_context(before, kind, parent) == Some(i) && after[i].entity
                == before[i].entity,
            None => first_context(before, kind, parent) is None,
        },
{
    if exists|i: int| is_first_context(after, kind, parent, i) {
        let i = choose|i: int| is_first_context(after, kind, parent, i);
        assert(context_matches(after[i], kind, parent));
        assert forall|j: int| 0 <= j < i implies !context_matches(
            #[trigger] before[j],
            kind,
            parent,
        ) by {
            assert(!context_matches(after[j], kind, parent));
        }
        lemma_first_context(before, kind, parent, i);
    } else {
        if exists|i: int| is_first_context(before, kind, parent, i) {
            let i = choose|i: int| is_first_context(before, kind, parent, i);
            assert(context_matches(after[i], kind, parent));
            assert forall|j: int| 0 <= j < i implies !context_matches(
                #[trigger] after[j],
                kind,
                parent,
            ) by {
                assert(!context_matches(before[j], kind, parent));
            }
            assert(is_first_context(after, kind, parent, i));
        }
    }
}

} // verus!
