//! Plugins: pieces of setup that a host hands to a context.

use crate::context::KayakRootContext;
use crate::render_primitive::MAX_OPACITY_LAYERS;
use vstd::prelude::*;

verus! {

/// A piece of setup for a context, such as the registration of a family of
/// widget types. An implementation says what its setup makes of a context,
/// and may change the context in any way that leaves it well formed.
pub trait KayakUIPlugin {
    /// `after` is what the setup makes of `before`. A plugin that does not
    /// say leaves open what its setup does.
    open spec fn built(&self, before: &KayakRootContext, after: &KayakRootContext) -> bool {
        true
    }

    /// Sets `context` up.
    fn build(&self, context: &mut KayakRootContext)
        requires
            old(context).wf(),
        ensures
            final(context).wf(),
            self.built(old(context), final(context)),
    ;
}

impl KayakRootContext {
    /// Runs the setup of `plugin` on this context: afterwards the context is
    /// what the plugin's setup makes of it.
    pub fn add_plugin<P: KayakUIPlugin>(&mut self, plugin: P)
        requires
            old(self).wf(),
        ensures
            final(self).wf(),
            plugin.built(old(self), final(self)),
    {
        plugin.build(self)
    }
}

/// The renderer that paints all primitives in one pass. It owns
/// [`MAX_OPACITY_LAYERS`] intermediate surfaces, so a context that it paints
/// may not have more opacity layers open at once.
#[derive(Clone, Copy, Debug, Default)]
pub struct UnifiedRenderPlugin;

impl KayakUIPlugin for UnifiedRenderPlugin {
    /// The layer budget is that of the renderer; nothing else changes.
    open spec fn built(&self, before: &KayakRootContext, after: &KayakRootContext) -> bool {
        &&& after.max_opacity_layers == MAX_OPACITY_LAYERS
        &&& after.tree == before.tree
        &&& after.order_tree == before.order_tree
        &&& after.layout_cache == before.layout_cache
        &&& after.focus_tree == before.focus_tree
        &&& after.systems == before.systems
        &&& after.uninitialized_systems == before.uninitialized_systems
        &&& after.data_kinds == before.data_kinds
        &&& after.current_z == before.current_z
        &&& after.context_entities == before.context_entities
        &&& after.cloned_widget_entities == before.cloned_widget_entities
        &&& after.index == before.index
        &&& after.unique_ids == before.unique_ids
        &&& after.unique_ids_parents == before.unique_ids_parents
        &&& after.camera_entity == before.camera_entity
        &&& after.next_id == before.next_id
    }

    fn build(&self, context: &mut KayakRootContext) {
        context.max_opacity_layers = MAX_OPACITY_LAYERS;
    }
}

/// The identifier under which the host keeps the "expand less" icon.
pub const EXPAND_LESS_HANDLE: u128 = 4238701051302568451;

/// The identifier under which the host keeps the "expand more" icon.
pub const EXPAND_MORE_HANDLE: u128 = 9116091369991258337;

/// The built-in icons. The host loads them and keeps them under the
/// identifiers that this type names.
#[derive(Clone, Copy, Debug, Default)]
pub struct IconsPlugin;

impl IconsPlugin {
    /// The identifiers of the built-in icons: "expand less", then "expand
    /// more".
    pub fn handles(&self) -> (r: [u128; 2])
        ensures
            r@ == seq![EXPAND_LESS_HANDLE, EXPAND_MORE_HANDLE],
    {
        let r = [EXPAND_LESS_HANDLE, EXPAND_MORE_HANDLE];
        assert(r@ =~= seq![EXPAND_LESS_HANDLE, EXPAND_MORE_HANDLE]);
        r
    }
}

} // verus!
