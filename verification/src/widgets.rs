//! The layout widgets: image, divider and split view, their builders, and
//! what a builder hands over to be spawned.
use vstd::prelude::*;
use crate::ui::{Val, Color, FlexDirection, Theme, F32_ONE};

verus! {

/// `48.0` as the bits of an `f32`.
pub const F32_48: u32 = 0x4240_0000;
/// `100.0` as the bits of an `f32`.
pub const F32_100: u32 = 0x42c8_0000;
/// `30.0` as the bits of an `f32`.
pub const F32_30: u32 = 0x41f0_0000;
/// `2.0` as the bits of an `f32`.
pub const F32_2: u32 = 0x4000_0000;
/// `0.3` as the bits of an `f32`.
pub const F32_0_3: u32 = 0x3e99_999a;
/// `0.45` as the bits of an `f32`.
pub const F32_0_45: u32 = 0x3ee6_6666;
/// `0.75` as the bits of an `f32`.
pub const F32_0_75: u32 = 0x3f40_0000;

pub open spec fn opaque_white() -> Color {
    Color { red: F32_ONE, green: F32_ONE, blue: F32_ONE, alpha: F32_ONE }
}

pub open spec fn grey(level: u32) -> Color {
    Color { red: level, green: level, blue: level, alpha: F32_ONE }
}

// ---------------------------------------------------------------------------
// Image
// ---------------------------------------------------------------------------

/// An image widget: the image to show, if any, and its tint. The image is
/// whatever handle the renderer loads images by.
pub struct ImageWidget<H> {
    pub image: Option<H>,
    pub color: Color,
}

/// Builds an image widget of a given size.
pub struct ImageBuilder<H> {
    pub widget: ImageWidget<H>,
    pub width: Val,
    pub height: Val,
}

/// What an image builder spawns: the widget, its node's size, and its
/// background colour.
pub struct ImageParts<H> {
    pub widget: ImageWidget<H>,
    pub width: Val,
    pub height: Val,
    pub background: Color,
}

impl<H> ImageBuilder<H> {
    /// The same as `new`: no image, white, 48 by 48 pixels.
    pub fn default() -> (r: Self)
        ensures
            r.widget.image is None,
            r.widget.color == opaque_white(),
            r.width == Val::Px(F32_48),
            r.height == Val::Px(F32_48),
    {
        Self::new()
    }

    /// No image, white, 48 by 48 pixels.
    pub fn new() -> (r: Self)
        ensures
            r.widget.image is None,
            r.widget.color == opaque_white(),
            r.width == Val::Px(F32_48),
            r.height == Val::Px(F32_48),
    {
        ImageBuilder {
            widget: ImageWidget { image: None, color: Color::white() },
            width: Val::Px(F32_48),
            height: Val::Px(F32_48),
        }
    }

    pub fn image(self, image: H) -> (r: Self)
        ensures
            r.widget.image == Some(image),
            r.widget.color == self.widget.color,
            r.width == self.width,
            r.height == self.height,
    {
        ImageBuilder { widget: ImageWidget { image: Some(image), color: self.widget.color }, width: self.width, height: self.height }
    }

    pub fn color(self, color: Color) -> (r: Self)
        ensures
            r.widget.image == self.widget.image,
            r.widget.color == color,
            r.width == self.width,
            r.height == self.height,
    {
        ImageBuilder { widget: ImageWidget { image: self.widget.image, color }, width: self.width, height: self.height }
    }

    pub fn width(self, width: Val) -> (r: Self)
        ensures
            r.widget == self.widget,
            r.width == width,
            r.height == self.height,
    {
        ImageBuilder { width, ..self }
    }

    pub fn height(self, height: Val) -> (r: Self)
        ensures
            r.widget == self.widget,
            r.width == self.width,
            r.height == height,
    {
        ImageBuilder { height, ..self }
    }

    /// The widget, a node of the builder's size, and the widget's colour as
    /// background.
    pub fn build(self) -> (r: ImageParts<H>)
        ensures
            r.widget == self.widget,
            r.width == self.width,
            r.height == self.height,
            r.background == self.widget.color,
    {
        let background = self.widget.color;
        ImageParts { widget: self.widget, width: self.width, height: self.height, background }
    }
}

/// The background an image widget's node should get: its colour, when it
/// differs from the current one.
pub fn sync_image_widgets<H>(widget: &ImageWidget<H>, background: Color) -> (r: Option<Color>)
    ensures
        r == (if background != widget.color { Some(widget.color) } else { None::<Color> }),
{
    if background != widget.color {
        Some(widget.color)
    } else {
        None
    }
}

// ---------------------------------------------------------------------------
// Divider
// ---------------------------------------------------------------------------

/// Which way a divider runs.
#[derive(Clone, Copy, Debug, PartialEq, Eq, Structural)]
pub enum DividerAxis {
    Vertical,
    Horizontal,
}

impl DividerAxis {
    /// A vertical divider.
    pub fn default() -> (r: Self)
        ensures
            r == DividerAxis::Vertical,
    {
        DividerAxis::Vertical
    }
}

/// A divider line: its direction, thickness, and colours (the theme's when none).
#[derive(Clone, Copy, Debug, PartialEq, Eq, Structural)]
pub struct Divider {
    pub axis: DividerAxis,
    pub thickness: Val,
    pub color: Option<Color>,
    pub hover_color: Option<Color>,
}

impl Divider {
    /// Vertical, two pixels thick, with the theme's colours.
    pub fn default() -> (r: Self)
        ensures
            r == (Divider { axis: DividerAxis::Vertical, thickness: Val::Px(F32_2), color: None, hover_color: None }),
    {
        Divider { axis: DividerAxis::Vertical, thickness: Val::Px(F32_2), color: None, hover_color: None }
    }
}

/// Builds a divider.
#[derive(Clone, Copy, Debug, PartialEq, Eq, Structural)]
pub struct DividerBuilder {
    pub divider: Divider,
}

/// What a divider builder spawns: the node's size, its background, and the divider.
#[derive(Clone, Copy, Debug, PartialEq, Eq, Structural)]
pub struct DividerParts {
    pub width: Val,
    pub height: Val,
    pub background: Color,
    pub divider: Divider,
}

/// The colour a divider is drawn in: its own, else the theme's outline
/// variant, else a mid grey.
pub open spec fn divider_color(theme: Option<Theme>, divider: Divider) -> Color {
    match divider.color {
        Some(c) => c,
        None => match theme {
            Some(t) => t.palette.outline_variant,
            None => grey(F32_0_3),
        },
    }
}

/// The colour a divider is drawn in under the pointer: its own, else the
/// theme's primary colour at three quarters alpha, else a lighter grey.
pub open spec fn divider_hover_color(theme: Option<Theme>, divider: Divider) -> Color {
    match divider.hover_color {
        Some(c) => c,
        None => match theme {
            Some(t) => Color { alpha: F32_0_75, ..t.palette.primary },
            None => grey(F32_0_45),
        },
    }
}

pub open spec fn opt_theme(theme: Option<&Theme>) -> Option<Theme> {
    match theme {
        Some(t) => Some(*t),
        None => None,
    }
}

pub fn resolve_divider_color(theme: Option<&Theme>, divider: &Divider) -> (r: Color)
    ensures
        r == divider_color(opt_theme(theme), *divider),
{
    match divider.color {
        Some(c) => c,
        None => match theme {
            Some(t) => t.palette.outline_variant,
            None => Color::srgb(F32_0_3, F32_0_3, F32_0_3),
        },
    }
}

pub fn resolve_divider_hover_color(theme: Option<&Theme>, divider: &Divider) -> (r: Color)
    ensures
        r == divider_hover_color(opt_theme(theme), *divider),
{
    match divider.hover_color {
        Some(c) => c,
        None => match theme {
            Some(t) => t.palette.primary.with_alpha(F32_0_75),
            None => Color::srgb(F32_0_45, F32_0_45, F32_0_45),
        },
    }
}

impl DividerBuilder {
    /// The same as `new`: a builder for the default divider.
    pub fn default() -> (r: Self)
        ensures
            r.divider == (Divider { axis: DividerAxis::Vertical, thickness: Val::Px(F32_2), color: None, hover_color: None }),
    {
        Self::new()
    }

    /// A builder for the default divider.
    pub fn new() -> (r: Self)
        ensures
            r.divider == (Divider { axis: DividerAxis::Vertical, thickness: Val::Px(F32_2), color: None, hover_color: None }),
    {
        DividerBuilder { divider: Divider::default() }
    }

    pub fn axis(self, axis: DividerAxis) -> (r: Self)
        ensures
            r.divider == (Divider { axis, ..self.divider }),
    {
        DividerBuilder { divider: Divider { axis, ..self.divider } }
    }

    pub fn thickness(self, thickness: Val) -> (r: Self)
        ensures
            r.divider == (Divider { thickness, ..self.divider }),
    {
        DividerBuilder { divider: Divider { thickness, ..self.divider } }
    }

    pub fn color(self, color: Color) -> (r: Self)
        ensures
            r.divider == (Divider { color: Some(color), ..self.divider }),
    {
        DividerBuilder { divider: Divider { color: Some(color), ..self.divider } }
    }

    pub fn hover_color(self, color: Color) -> (r: Self)
        ensures
            r.divider == (Divider { hover_color: Some(color), ..self.divider }),
    {
        DividerBuilder { divider: Divider { hover_color: Some(color), ..self.divider } }
    }

    /// A vertical divider is as wide as it is thick and as tall as its
    /// parent; a horizontal one the other way round. It is drawn in its
    /// resolved colour.
    pub fn build(self, theme: Option<&Theme>) -> (r: DividerParts)
        ensures
            r.divider == self.divider,
            r.background == divider_color(opt_theme(theme), self.divider),
            self.divider.axis == DividerAxis::Vertical ==> r.width == self.divider.thickness && r.height == Val::Percent(F32_100),
            self.divider.axis == DividerAxis::Horizontal ==> r.width == Val::Percent(F32_100) && r.height == self.divider.thickness,
    {
        let divider = self.divider;
        let background = resolve_divider_color(theme, &divider);
        match divider.axis {
            DividerAxis::Vertical => DividerParts { width: divider.thickness, height: Val::Percent(F32_100), background, divider },
            DividerAxis::Horizontal => DividerParts { width: Val::Percent(F32_100), height: divider.thickness, background, divider },
        }
    }
}

// ---------------------------------------------------------------------------
// Split view
// ---------------------------------------------------------------------------

/// How a split view places its two panels: side by side, or one above the other.
#[derive(Clone, Copy, Debug, PartialEq, Eq, Structural)]
pub enum SplitViewAxis {
    Horizontal,
    Vertical,
}

impl SplitViewAxis {
    /// Panels side by side are parted by a vertical divider, and the other way round.
    pub fn divider_axis(self) -> (r: DividerAxis)
        ensures
            r == (if self == SplitViewAxis::Horizontal { DividerAxis::Vertical } else { DividerAxis::Horizontal }),
    {
        match self {
            SplitViewAxis::Horizontal => DividerAxis::Vertical,
            SplitViewAxis::Vertical => DividerAxis::Horizontal,
        }
    }

    /// Panels side by side go in a row, the others in a column.
    pub fn flex_direction(self) -> (r: FlexDirection)
        ensures
            r == (if self == SplitViewAxis::Horizontal { FlexDirection::Row } else { FlexDirection::Column }),
    {
        match self {
            SplitViewAxis::Horizontal => FlexDirection::Row,
            SplitViewAxis::Vertical => FlexDirection::Column,
        }
    }
}

/// Two panels and a divider between them.
#[derive(Clone, Copy, Debug, PartialEq, Eq, Structural)]
pub struct SplitView {
    pub axis: SplitViewAxis,
    pub default_first_size: Val,
    pub divider_size: Val,
    pub min_first_size: Val,
    pub min_second_size: Val,
    pub draggable: bool,
}

pub open spec fn default_split_view() -> SplitView {
    SplitView {
        axis: SplitViewAxis::Horizontal,
        default_first_size: Val::Percent(F32_30),
        divider_size: Val::Px(F32_2),
        min_first_size: Val::Px(F32_100),
        min_second_size: Val::Px(F32_100),
        draggable: true,
    }
}

impl SplitView {
    /// Side by side, the first panel at thirty percent, a two pixel divider,
    /// each panel at least a hundred pixels, draggable.
    pub fn default() -> (r: Self)
        ensures
            r == default_split_view(),
    {
        SplitView {
            axis: SplitViewAxis::Horizontal,
            default_first_size: Val::Percent(F32_30),
            divider_size: Val::Px(F32_2),
            min_first_size: Val::Px(F32_100),
            min_second_size: Val::Px(F32_100),
            draggable: true,
        }
    }
}

/// The layout a split view gives one of its panels. A panel that `fills`
/// grows and shrinks with the room left (flex grow and shrink one, flex
/// basis as given); one that does not keeps its size (grow and shrink zero).
#[derive(Clone, Copy, Debug, PartialEq, Eq, Structural)]
pub struct PanelNode {
    pub width: Val,
    pub height: Val,
    pub min_width: Val,
    pub min_height: Val,
    pub flex_basis: Option<Val>,
    pub fills: bool,
}

/// The layouts of the first and second panel of a split view.
pub open spec fn panel_layout(s: SplitView) -> (PanelNode, PanelNode) {
    match s.axis {
        SplitViewAxis::Horizontal => (
            PanelNode { width: s.default_first_size, height: Val::Percent(F32_100), min_width: s.min_first_size, min_height: Val::Auto, flex_basis: None, fills: false },
            PanelNode { width: Val::Auto, height: Val::Percent(F32_100), min_width: s.min_second_size, min_height: Val::Auto, flex_basis: Some(Val::Auto), fills: true },
        ),
        SplitViewAxis::Vertical => (
            PanelNode { width: Val::Percent(F32_100), height: s.default_first_size, min_width: Val::Auto, min_height: s.min_first_size, flex_basis: None, fills: false },
            PanelNode { width: Val::Percent(F32_100), height: Val::Auto, min_width: Val::Auto, min_height: s.min_second_size, flex_basis: Some(Val::Auto), fills: true },
        ),
    }
}

/// The first panel takes the default size along the axis and the full
/// length across it; the second takes the rest.
pub fn apply_panel_layout(split_view: &SplitView) -> (r: (PanelNode, PanelNode))
    ensures
        r == panel_layout(*split_view),
{
    let default_first_size = split_view.default_first_size;
    let min_first_size = split_view.min_first_size;
    let min_second_size = split_view.min_second_size;
    match split_view.axis {
        SplitViewAxis::Horizontal => (
            PanelNode { width: default_first_size, height: Val::Percent(F32_100), min_width: min_first_size, min_height: Val::Auto, flex_basis: None, fills: false },
            PanelNode { width: Val::Auto, height: Val::Percent(F32_100), min_width: min_second_size, min_height: Val::Auto, flex_basis: Some(Val::Auto), fills: true },
        ),
        SplitViewAxis::Vertical => (
            PanelNode { width: Val::Percent(F32_100), height: default_first_size, min_width: Val::Auto, min_height: min_first_size, flex_basis: None, fills: false },
            PanelNode { width: Val::Percent(F32_100), height: Val::Auto, min_width: Val::Auto, min_height: min_second_size, flex_basis: Some(Val::Auto), fills: true },
        ),
    }
}

/// Builds a split view of a given size.
#[derive(Clone, Copy, Debug, PartialEq, Eq, Structural)]
pub struct SplitViewBuilder {
    pub split_view: SplitView,
    pub width: Val,
    pub height: Val,
}

/// What a split view builder spawns: the root node (size and direction, and
/// it grows), the two panel layouts, the divider between them, and the split
/// view itself.
#[derive(Clone, Copy, Debug, PartialEq, Eq, Structural)]
pub struct SplitViewParts {
    pub width: Val,
    pub height: Val,
    pub flex_direction: FlexDirection,
    pub first: PanelNode,
    pub second: PanelNode,
    pub divider: DividerParts,
    pub split_view: SplitView,
}

impl SplitViewBuilder {
    /// The default split view, sized automatically.
    pub fn new() -> (r: Self)
        ensures
            r == (SplitViewBuilder { split_view: default_split_view(), width: Val::Auto, height: Val::Auto }),
    {
        SplitViewBuilder { split_view: SplitView::default(), width: Val::Auto, height: Val::Auto }
    }

    pub fn axis(self, axis: SplitViewAxis) -> (r: Self)
        ensures
            r == (SplitViewBuilder { split_view: SplitView { axis, ..self.split_view }, ..self }),
    {
        SplitViewBuilder { split_view: SplitView { axis, ..self.split_view }, ..self }
    }

    pub fn default_first_size(self, size: Val) -> (r: Self)
        ensures
            r == (SplitViewBuilder { split_view: SplitView { default_first_size: size, ..self.split_view }, ..self }),
    {
        SplitViewBuilder { split_view: SplitView { default_first_size: size, ..self.split_view }, ..self }
    }

    pub fn divider_size(self, size: Val) -> (r: Self)
        ensures
            r == (SplitViewBuilder { split_view: SplitView { divider_size: size, ..self.split_view }, ..self }),
    {
        SplitViewBuilder { split_view: SplitView { divider_size: size, ..self.split_view }, ..self }
    }

    pub fn min_first_size(self, size: Val) -> (r: Self)
        ensures
            r == (SplitViewBuilder { split_view: SplitView { min_first_size: size, ..self.split_view }, ..self }),
    {
        SplitViewBuilder { split_view: SplitView { min_first_size: size, ..self.split_view }, ..self }
    }

    pub fn min_second_size(self, size: Val) -> (r: Self)
        ensures
            r == (SplitViewBuilder { split_view: SplitView { min_second_size: size, ..self.split_view }, ..self }),
    {
        SplitViewBuilder { split_view: SplitView { min_second_size: size, ..self.split_view }, ..self }
    }

    pub fn draggable(self, draggable: bool) -> (r: Self)
        ensures
            r == (SplitViewBuilder { split_view: SplitView { draggable, ..self.split_view }, ..self }),
    {
        SplitViewBuilder { split_view: SplitView { draggable, ..self.split_view }, ..self }
    }

    pub fn width(self, width: Val) -> (r: Self)
        ensures
            r == (SplitViewBuilder { width, ..self }),
    {
        SplitViewBuilder { width, ..self }
    }

    pub fn height(self, height: Val) -> (r: Self)
        ensures
            r == (SplitViewBuilder { height, ..self }),
    {
        SplitViewBuilder { height, ..self }
    }

    /// The parts of the split view: the root takes the builder's size and
    /// places the panels along the axis; the panels are laid out by
    /// `apply_panel_layout`; the divider runs across the axis, as thick as
    /// the divider size.
    pub fn build(self, theme: Option<&Theme>) -> (r: SplitViewParts)
        ensures
            r.width == self.width,
            r.height == self.height,
            r.flex_direction == (if self.split_view.axis == SplitViewAxis::Horizontal { FlexDirection::Row } else { FlexDirection::Column }),
            (r.first, r.second) == panel_layout(self.split_view),
            r.divider.divider == (Divider {
                axis: if self.split_view.axis == SplitViewAxis::Horizontal { DividerAxis::Vertical } else { DividerAxis::Horizontal },
                thickness: self.split_view.divider_size,
                color: None,
                hover_color: None,
            }),
            r.divider.background == divider_color(opt_theme(theme), r.divider.divider),
            r.divider.divider.axis == DividerAxis::Vertical ==> r.divider.width == self.split_view.divider_size && r.divider.height == Val::Percent(F32_100),
            r.divider.divider.axis == DividerAxis::Horizontal ==> r.divider.width == Val::Percent(F32_100) && r.divider.height == self.split_view.divider_size,
            r.split_view == self.split_view,
    {
        let split_view = self.split_view;
        let (first, second) = apply_panel_layout(&split_view);
        let divider = DividerBuilder::new()
            .axis(split_view.axis.divider_axis())
            .thickness(split_view.divider_size)
            .build(theme);
        SplitViewParts {
            width: self.width,
            height: self.height,
            flex_direction: split_view.axis.flex_direction(),
            first,
            second,
            divider,
            split_view,
        }
    }
}

} // verus!
