//! Node handles and the per-node render snapshot.

use crate::styles::{KStyle, RenderCommand, Units};
use vstd::prelude::*;

verus! {

/// Stable handle of one widget instance. Handles are compared by value; the
/// numeric order of two handles is the order in which they were created.
pub type NodeId = u64;

/// What the last style pass recorded of a node: all that painting needs to
/// know of it.
#[derive(Debug)]
pub struct Node {
    pub id: NodeId,
    /// The children at the time of the snapshot, in order.
    pub children: Vec<NodeId>,
    /// The style after the cascade.
    pub resolved_styles: KStyle,
    /// The style as authored.
    pub raw_styles: Option<KStyle>,
    /// In thousandths, from 0 to 1000.
    pub opacity: u16,
    /// The explicit depth, or a value not above 0 where none is given.
    pub z: i32,
    /// The depth of the snapshot before this one.
    pub old_z: i32,
    /// The width that the layout solver is given: the measured width for
    /// text that was given none, else the resolved width.
    pub width: Units,
    /// The height that the layout solver is given.
    pub height: Units,
}

/// Mathematical model of a [`Node`].
pub struct NodeModel {
    pub id: NodeId,
    pub children: Seq<NodeId>,
    pub resolved_styles: KStyle,
    pub raw_styles: Option<KStyle>,
    pub opacity: u16,
    pub z: i32,
    pub old_z: i32,
    pub width: Units,
    pub height: Units,
}

impl View for Node {
    type V = NodeModel;

    open spec fn view(&self) -> NodeModel {
        NodeModel {
            id: self.id,
            children: self.children@,
            resolved_styles: self.resolved_styles,
            raw_styles: self.raw_styles,
            opacity: self.opacity,
            z: self.z,
            old_z: self.old_z,
            width: self.width,
            height: self.height,
        }
    }
}

impl Node {
    /// What the node contributes to the picture, going by its resolved style.
    pub open spec fn render_kind(self) -> RenderCommand {
        self.resolved_styles.render_kind()
    }
}

} // verus!
