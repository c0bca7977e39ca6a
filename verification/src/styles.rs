//! Style properties and the two-phase cascade that makes them concrete.
//!
//! Lengths, font sizes and the like are whole numbers in the host's layout
//! unit; opacity is in thousandths, from 0 (transparent) to 1000 (opaque).

use vstd::prelude::*;

verus! {

/// Fully opaque, in thousandths.
pub const OPAQUE: u16 = 1000;

/// What a node contributes to the picture.
#[derive(Clone, Copy, PartialEq, Eq, Structural, Debug)]
pub enum RenderCommand {
    /// Nothing, and no box of its own.
    Empty,
    /// A box for layout only.
    Layout,
    /// A clip region for the subtree.
    Clip,
    /// A run of text.
    Text { word_wrap: bool },
    /// Anything else that paints: a quad, an image, a vector shape.
    Visual,
}

impl RenderCommand {
    /// `Empty` and `Layout` nodes have no painted box that text could be
    /// measured against.
    pub open spec fn is_invisible(self) -> bool {
        self == RenderCommand::Empty || self == RenderCommand::Layout
    }

    /// Whether the node has no painted box of its own.
    pub fn invisible(self) -> (r: bool)
        ensures
            r == self.is_invisible(),
    {
        match self {
            RenderCommand::Empty => true,
            RenderCommand::Layout => true,
            _ => false,
        }
    }
}

/// How a node lays out its children.
#[derive(Clone, Copy, PartialEq, Eq, Structural, Debug)]
pub enum LayoutType {
    /// One after the other, left to right.
    Row,
    /// One below the other.
    Column,
    /// In the cells of a grid.
    Grid,
}

/// A length of the box model.
#[derive(Clone, Copy, PartialEq, Eq, Structural, Debug)]
pub enum Units {
    Pixels(i32),
    Percentage(i32),
    Stretch(i32),
    Auto,
}

impl Units {
    /// The length where it is absolute, else `other`.
    pub fn value_or(self, other: i32) -> (r: i32)
        ensures
            r == match self {
                Units::Pixels(v) => v,
                _ => other,
            },
    {
        match self {
            Units::Pixels(v) => v,
            _ => other,
        }
    }
}

/// Four lengths, one for each side of a box.
#[derive(Clone, Copy, PartialEq, Eq, Structural, Debug)]
pub struct Edge {
    pub top: i32,
    pub right: i32,
    pub bottom: i32,
    pub left: i32,
}

impl Edge {
    /// The same length on all four sides.
    pub fn all(value: i32) -> (r: Edge)
        ensures
            r == (Edge { top: value, right: value, bottom: value, left: value }),
    {
        Edge { top: value, right: value, bottom: value, left: value }
    }
}

/// One style property as authored: left to its initial value, taken from the
/// parent, or given.
#[derive(Copy, PartialEq, Eq, Debug)]
pub enum StyleProp<T> {
    Default,
    Inherit,
    Value(T),
}

impl<T: Copy> Clone for StyleProp<T> {
    fn clone(&self) -> (r: Self)
        ensures
            r == *self,
    {
        *self
    }
}

impl<T: Copy> StyleProp<T> {
    /// Initial-fill: a property still `Default` takes `initial`.
    pub open spec fn applied(self, initial: StyleProp<T>) -> StyleProp<T> {
        match self {
            StyleProp::Default => initial,
            _ => self,
        }
    }

    /// Inherit-fill: a property marked `Inherit` takes `parent`.
    pub open spec fn inherited(self, parent: StyleProp<T>) -> StyleProp<T> {
        match self {
            StyleProp::Inherit => parent,
            _ => self,
        }
    }

    /// The value where one is given, else `default`.
    pub open spec fn resolved_or(self, default: T) -> T {
        match self {
            StyleProp::Value(v) => v,
            _ => default,
        }
    }

    /// Initial-fill: a property still `Default` takes `initial`.
    pub fn apply(self, initial: StyleProp<T>) -> (r: StyleProp<T>)
        ensures
            r == self.applied(initial),
    {
        match self {
            StyleProp::Default => initial,
            _ => self,
        }
    }

    /// Inherit-fill: a property marked `Inherit` takes `parent`.
    pub fn inherit(self, parent: StyleProp<T>) -> (r: StyleProp<T>)
        ensures
            r == self.inherited(parent),
    {
        match self {
            StyleProp::Inherit => parent,
            _ => self,
        }
    }

    /// The value where one is given, else `default`.
    pub fn resolve_or(self, default: T) -> (r: T)
        ensures
            r == self.resolved_or(default),
    {
        match self {
            StyleProp::Value(v) => v,
            _ => default,
        }
    }

    /// Whether a value is given.
    pub fn is_value(self) -> (r: bool)
        ensures
            r == (self is Value),
    {
        match self {
            StyleProp::Value(_) => true,
            _ => false,
        }
    }

    /// Whether the property is left to its initial value.
    pub fn is_default(self) -> (r: bool)
        ensures
            r == (self is Default),
    {
        match self {
            StyleProp::Default => true,
            _ => false,
        }
    }
}

/// The style of one node.
#[derive(Clone, Copy, PartialEq, Eq, Debug)]
pub struct KStyle {
    pub render_command: StyleProp<RenderCommand>,
    pub layout_type: StyleProp<LayoutType>,
    pub width: StyleProp<Units>,
    pub height: StyleProp<Units>,
    pub border: StyleProp<Edge>,
    pub opacity: StyleProp<u16>,
    pub z_index: StyleProp<i32>,
    pub color: StyleProp<u32>,
    pub background_color: StyleProp<u32>,
    pub font: StyleProp<u64>,
    pub font_size: StyleProp<i32>,
    pub line_height: StyleProp<i32>,
}

/// The font size of text that names none.
pub const INITIAL_FONT_SIZE: i32 = 14;

/// The line height that goes with [`INITIAL_FONT_SIZE`]: six fifths of it,
/// rounded down.
pub const INITIAL_LINE_HEIGHT: i32 = 16;

impl KStyle {
    /// The style with every property left to its initial value.
    pub open spec fn unset() -> KStyle {
        KStyle {
            render_command: StyleProp::Default,
            layout_type: StyleProp::Default,
            width: StyleProp::Default,
            height: StyleProp::Default,
            border: StyleProp::Default,
            opacity: StyleProp::Default,
            z_index: StyleProp::Default,
            color: StyleProp::Default,
            background_color: StyleProp::Default,
            font: StyleProp::Default,
            font_size: StyleProp::Default,
            line_height: StyleProp::Default,
        }
    }

    /// The fixed initial value of every property.
    pub open spec fn initial_style() -> KStyle {
        KStyle {
            render_command: StyleProp::Value(RenderCommand::Layout),
            layout_type: StyleProp::Value(LayoutType::Column),
            width: StyleProp::Value(Units::Stretch(1)),
            height: StyleProp::Value(Units::Stretch(1)),
            border: StyleProp::Value(Edge { top: 0, right: 0, bottom: 0, left: 0 }),
            opacity: StyleProp::Value(OPAQUE),
            z_index: StyleProp::Value(0),
            color: StyleProp::Value(0xffff_ffff),
            background_color: StyleProp::Value(0),
            font: StyleProp::Value(0),
            font_size: StyleProp::Value(INITIAL_FONT_SIZE),
            line_height: StyleProp::Value(INITIAL_LINE_HEIGHT),
        }
    }

    /// No property is left `Default` or `Inherit`.
    pub open spec fn is_concrete(self) -> bool {
        &&& self.render_command is Value
        &&& self.layout_type is Value
        &&& self.width is Value
        &&& self.height is Value
        &&& self.border is Value
        &&& self.opacity is Value
        &&& self.z_index is Value
        &&& self.color is Value
        &&& self.background_color is Value
        &&& self.font is Value
        &&& self.font_size is Value
        &&& self.line_height is Value
    }

    /// Initial-fill of every property.
    pub open spec fn applied(self, initial: KStyle) -> KStyle {
        KStyle {
            render_command: self.render_command.applied(initial.render_command),
            layout_type: self.layout_type.applied(initial.layout_type),
            width: self.width.applied(initial.width),
            height: self.height.applied(initial.height),
            border: self.border.applied(initial.border),
            opacity: self.opacity.applied(initial.opacity),
            z_index: self.z_index.applied(initial.z_index),
            color: self.color.applied(initial.color),
            background_color: self.background_color.applied(initial.background_color),
            font: self.font.applied(initial.font),
            font_size: self.font_size.applied(initial.font_size),
            line_height: self.line_height.applied(initial.line_height),
        }
    }

    /// Inherit-fill of every property.
    pub open spec fn inherited(self, parent: KStyle) -> KStyle {
        KStyle {
            render_command: self.render_command.inherited(parent.render_command),
            layout_type: self.layout_type.inherited(parent.layout_type),
            width: self.width.inherited(parent.width),
            height: self.height.inherited(parent.height),
            border: self.border.inherited(parent.border),
            opacity: self.opacity.inherited(parent.opacity),
            z_index: self.z_index.inherited(parent.z_index),
            color: self.color.inherited(parent.color),
            background_color: self.background_color.inherited(parent.background_color),
            font: self.font.inherited(parent.font),
            font_size: self.font_size.inherited(parent.font_size),
            line_height: self.line_height.inherited(parent.line_height),
        }
    }

    /// The cascade: initial-fill, then inherit-fill from the parent's
    /// resolved style.
    pub open spec fn cascaded(self, parent: KStyle) -> KStyle {
        self.applied(KStyle::initial_style()).inherited(parent)
    }

    /// What a node of this style contributes to the picture; nothing where the
    /// style does not say.
    pub open spec fn render_kind(self) -> RenderCommand {
        self.render_command.resolved_or(RenderCommand::Empty)
    }

    /// The style with every property left to its initial value.
    pub fn new_default() -> (r: KStyle)
        ensures
            r == KStyle::unset(),
    {
        KStyle {
            render_command: StyleProp::Default,
            layout_type: StyleProp::Default,
            width: StyleProp::Default,
            height: StyleProp::Default,
            border: StyleProp::Default,
            opacity: StyleProp::Default,
            z_index: StyleProp::Default,
            color: StyleProp::Default,
            background_color: StyleProp::Default,
            font: StyleProp::Default,
            font_size: StyleProp::Default,
            line_height: StyleProp::Default,
        }
    }

    /// The fixed initial value of every property.
    pub fn initial() -> (r: KStyle)
        ensures
            r == KStyle::initial_style(),
            r.is_concrete(),
    {
        KStyle {
            render_command: StyleProp::Value(RenderCommand::Layout),
            layout_type: StyleProp::Value(LayoutType::Column),
            width: StyleProp::Value(Units::Stretch(1)),
            height: StyleProp::Value(Units::Stretch(1)),
            border: StyleProp::Value(Edge::all(0)),
            opacity: StyleProp::Value(OPAQUE),
            z_index: StyleProp::Value(0),
            color: StyleProp::Value(0xffff_ffff),
            background_color: StyleProp::Value(0),
            font: StyleProp::Value(0),
            font_size: StyleProp::Value(INITIAL_FONT_SIZE),
            line_height: StyleProp::Value(INITIAL_LINE_HEIGHT),
        }
    }

    /// Fills every property that is still `Default` from `initial`.
    pub fn apply(&mut self, initial: &KStyle)
        ensures
            *final(self) == old(self).applied(*initial),
    {
        self.render_command = self.render_command.apply(initial.render_command);
        self.layout_type = self.layout_type.apply(initial.layout_type);
        self.width = self.width.apply(initial.width);
        self.height = self.height.apply(initial.height);
        self.border = self.border.apply(initial.border);
        self.opacity = self.opacity.apply(initial.opacity);
        self.z_index = self.z_index.apply(initial.z_index);
        self.color = self.color.apply(initial.color);
        self.background_color = self.background_color.apply(initial.background_color);
        self.font = self.font.apply(initial.font);
        self.font_size = self.font_size.apply(initial.font_size);
        self.line_height = self.line_height.apply(initial.line_height);
    }

    /// Fills every property marked `Inherit` from `parent`.
    pub fn inherit(&mut self, parent: &KStyle)
        ensures
            *final(self) == old(self).inherited(*parent),
    {
        self.render_command = self.render_command.inherit(parent.render_command);
        self.layout_type = self.layout_type.inherit(parent.layout_type);
        self.width = self.width.inherit(parent.width);
        self.height = self.height.inherit(parent.height);
        self.border = self.border.inherit(parent.border);
        self.opacity = self.opacity.inherit(parent.opacity);
        self.z_index = self.z_index.inherit(parent.z_index);
        self.color = self.color.inherit(parent.color);
        self.background_color = self.background_color.inherit(parent.background_color);
        self.font = self.font.inherit(parent.font);
        self.font_size = self.font_size.inherit(parent.font_size);
        self.line_height = self.line_height.inherit(parent.line_height);
    }

    /// Resolves an authored style against the parent's resolved style.
    pub fn cascade(&self, parent: &KStyle) -> (r: KStyle)
        ensures
            r == self.cascaded(*parent),
            parent.is_concrete() ==> r.is_concrete(),
    {
        let mut r = *self;
        let initial = KStyle::initial();
        r.apply(&initial);
        r.inherit(parent);
        r
    }
}

impl Default for KStyle {
    fn default() -> (r: KStyle)
        ensures
            r == KStyle::unset(),
    {
        KStyle::new_default()
    }
}

/// After the cascade no property is left open, whatever was authored, as long
/// as the parent's resolved style is concrete.
pub proof fn lemma_cascade_concrete(raw: KStyle, parent: KStyle)
    requires
        parent.is_concrete(),
    ensures
        raw.cascaded(parent).is_concrete(),
{
}

} // verus!
