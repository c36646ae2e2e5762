//! The input widgets: checkbox and dropdown, what a click does to them, and
//! which colour each of their parts shows.
use vstd::prelude::*;
use crate::ui::{Val, Color, Interaction, Theme, F32_ONE};
use crate::widgets::{grey, opaque_white, opt_theme};

verus! {

/// `0.1` as the bits of an `f32`.
pub const F32_0_1: u32 = 0x3dcc_cccd;
/// `0.14` as the bits of an `f32`.
pub const F32_0_14: u32 = 0x3e0f_5c29;
/// `0.15` as the bits of an `f32`.
pub const F32_0_15: u32 = 0x3e19_999a;
/// `0.2` as the bits of an `f32`.
pub const F32_0_2: u32 = 0x3e4c_cccd;
/// `0.22` as the bits of an `f32`.
pub const F32_0_22: u32 = 0x3e61_47ae;
/// `0.25` as the bits of an `f32`.
pub const F32_0_25: u32 = 0x3e80_0000;
/// `0.3` as the bits of an `f32`.
pub const F32_0_3: u32 = 0x3e99_999a;
/// `0.35` as the bits of an `f32`.
pub const F32_0_35: u32 = 0x3eb3_3333;
/// `0.4` as the bits of an `f32`.
pub const F32_0_4: u32 = 0x3ecc_cccd;
/// `0.52` as the bits of an `f32`.
pub const F32_0_52: u32 = 0x3f05_1eb8;
/// `0.9` as the bits of an `f32`.
pub const F32_0_9: u32 = 0x3f66_6666;
/// `13.0` as the bits of an `f32`.
pub const F32_13: u32 = 0x4150_0000;
/// `20.0` as the bits of an `f32`.
pub const F32_20: u32 = 0x41a0_0000;
/// `160.0` as the bits of an `f32`.
pub const F32_160: u32 = 0x4320_0000;
/// `320.0` as the bits of an `f32`.
pub const F32_320: u32 = 0x43a0_0000;

/// The accent blue that marks an active checkbox or a selected option.
pub open spec fn accent() -> Color {
    Color { red: F32_0_22, green: F32_0_35, blue: F32_0_52, alpha: F32_ONE }
}

// ---------------------------------------------------------------------------
// Checkbox
// ---------------------------------------------------------------------------

/// A checkbox: whether it is checked, and whether it takes clicks.
#[derive(Clone, Copy, Debug, PartialEq, Eq, Structural)]
pub struct Checkbox {
    pub checked: bool,
    pub disabled: bool,
}

impl Checkbox {
    /// Unchecked and enabled.
    pub fn default() -> (r: Self)
        ensures
            r == (Checkbox { checked: false, disabled: false }),
    {
        Checkbox { checked: false, disabled: false }
    }
}

/// The message a checkbox sends when a click toggles it.
#[derive(Clone, Copy, Debug, PartialEq, Eq, Structural)]
pub struct CheckboxChange {
    pub entity: u64,
    pub checked: bool,
}

/// The colours of a checkbox's parts.
#[derive(Clone, Copy, Debug, PartialEq, Eq, Structural)]
pub struct CheckboxColors {
    pub normal_bg: Color,
    pub hovered_bg: Color,
    pub pressed_bg: Color,
    pub active_bg: Color,
    pub border: Color,
    pub mark: Color,
    pub disabled_bg: Color,
}

/// A checkbox's colours: from the theme's palette, or a dark grey set.
pub open spec fn spec_checkbox_colors(theme: Option<Theme>) -> CheckboxColors {
    match theme {
        Some(t) => CheckboxColors {
            normal_bg: t.palette.surface,
            hovered_bg: t.palette.surface_variant,
            pressed_bg: t.palette.outline_variant,
            active_bg: t.palette.primary_container,
            border: t.palette.outline,
            mark: t.palette.on_primary_container,
            disabled_bg: t.palette.disabled_container,
        },
        None => CheckboxColors {
            normal_bg: grey(F32_0_15),
            hovered_bg: grey(F32_0_22),
            pressed_bg: grey(F32_0_3),
            active_bg: accent(),
            border: grey(F32_0_4),
            mark: opaque_white(),
            disabled_bg: grey(F32_0_1),
        },
    }
}

pub fn checkbox_colors(theme: Option<&Theme>) -> (r: CheckboxColors)
    ensures
        r == spec_checkbox_colors(opt_theme(theme)),
{
    match theme {
        Some(t) => CheckboxColors {
            normal_bg: t.palette.surface,
            hovered_bg: t.palette.surface_variant,
            pressed_bg: t.palette.outline_variant,
            active_bg: t.palette.primary_container,
            border: t.palette.outline,
            mark: t.palette.on_primary_container,
            disabled_bg: t.palette.disabled_container,
        },
        None => CheckboxColors {
            normal_bg: Color::srgb(F32_0_15, F32_0_15, F32_0_15),
            hovered_bg: Color::srgb(F32_0_22, F32_0_22, F32_0_22),
            pressed_bg: Color::srgb(F32_0_3, F32_0_3, F32_0_3),
            active_bg: Color::srgb(F32_0_22, F32_0_35, F32_0_52),
            border: Color::srgb(F32_0_4, F32_0_4, F32_0_4),
            mark: Color::white(),
            disabled_bg: Color::srgb(F32_0_1, F32_0_1, F32_0_1),
        },
    }
}

/// What a click leaves of a checkbox: a disabled one as it was, an enabled
/// one flipped.
pub open spec fn clicked(c: Checkbox) -> Checkbox {
    if c.disabled { c } else { Checkbox { checked: !c.checked, ..c } }
}

/// A click on a checkbox: a disabled one stays as it is and says nothing;
/// an enabled one flips and announces its new state.
pub fn on_checkbox_click(checkbox: &mut Checkbox, entity: u64) -> (r: Option<CheckboxChange>)
    ensures
        *final(checkbox) == clicked(*old(checkbox)),
        r == (if old(checkbox).disabled { None } else { Some(CheckboxChange { entity, checked: !old(checkbox).checked }) }),
{
    if checkbox.disabled {
        return None;
    }
    checkbox.checked = !checkbox.checked;
    Some(CheckboxChange { entity, checked: checkbox.checked })
}

/// How a checkbox looks: its background, whether its mark shows, and the
/// mark's colour.
#[derive(Clone, Copy, Debug, PartialEq, Eq, Structural)]
pub struct CheckboxVisual {
    pub background: Color,
    pub mark_visible: bool,
    pub mark_color: Color,
}

/// The background of a checkbox: disabled wins, then checked, then what the
/// pointer does.
pub open spec fn checkbox_background(checkbox: Checkbox, colors: CheckboxColors, interaction: Interaction) -> Color {
    if checkbox.disabled {
        colors.disabled_bg
    } else if checkbox.checked {
        colors.active_bg
    } else {
        match interaction {
            Interaction::Pressed => colors.pressed_bg,
            Interaction::Hovered => colors.hovered_bg,
            Interaction::Idle => colors.normal_bg,
        }
    }
}

pub fn sync_checkbox_interaction(checkbox: &Checkbox, colors: &CheckboxColors, interaction: Interaction) -> (r: CheckboxVisual)
    ensures
        r.background == checkbox_background(*checkbox, *colors, interaction),
        r.mark_visible == checkbox.checked,
        r.mark_color == colors.mark,
{
    let background = if checkbox.disabled {
        colors.disabled_bg
    } else if checkbox.checked {
        colors.active_bg
    } else {
        match interaction {
            Interaction::Pressed => colors.pressed_bg,
            Interaction::Hovered => colors.hovered_bg,
            Interaction::Idle => colors.normal_bg,
        }
    };
    CheckboxVisual { background, mark_visible: checkbox.checked, mark_color: colors.mark }
}

/// Builds a checkbox; the size is the bits of an `f32` number of pixels.
#[derive(Clone, Copy, Debug, PartialEq, Eq, Structural)]
pub struct CheckboxBuilder {
    pub checkbox: Checkbox,
    pub size: u32,
}

impl CheckboxBuilder {
    /// Unchecked, enabled, twenty pixels.
    pub fn new() -> (r: Self)
        ensures
            r == (CheckboxBuilder { checkbox: Checkbox { checked: false, disabled: false }, size: F32_20 }),
    {
        CheckboxBuilder { checkbox: Checkbox::default(), size: F32_20 }
    }

    pub fn checked(self, checked: bool) -> (r: Self)
        ensures
            r == (CheckboxBuilder { checkbox: Checkbox { checked, ..self.checkbox }, ..self }),
    {
        CheckboxBuilder { checkbox: Checkbox { checked, ..self.checkbox }, ..self }
    }

    pub fn disabled(self, disabled: bool) -> (r: Self)
        ensures
            r == (CheckboxBuilder { checkbox: Checkbox { disabled, ..self.checkbox }, ..self }),
    {
        CheckboxBuilder { checkbox: Checkbox { disabled, ..self.checkbox }, ..self }
    }
}

// ---------------------------------------------------------------------------
// Dropdown
// ---------------------------------------------------------------------------

/// A dropdown: its options, the selected one, whether its menu is open and
/// whether it takes clicks, the widest its menu may grow and its font size
/// (each the bits of an `f32`), and how many options show at once.
pub struct Dropdown {
    pub options: Vec<String>,
    pub selected: usize,
    pub expanded: bool,
    pub disabled: bool,
    pub max_popup_width: u32,
    pub font_size: u32,
    pub max_visible_items: usize,
}

/// A dropdown as plain values.
pub struct DropdownView {
    pub options: Seq<Seq<char>>,
    pub selected: usize,
    pub expanded: bool,
    pub disabled: bool,
    pub max_popup_width: u32,
    pub font_size: u32,
    pub max_visible_items: usize,
}

impl View for Dropdown {
    type V = DropdownView;

    open spec fn view(&self) -> DropdownView {
        DropdownView {
            options: self.options@.map_values(|s: String| s@),
            selected: self.selected,
            expanded: self.expanded,
            disabled: self.disabled,
            max_popup_width: self.max_popup_width,
            font_size: self.font_size,
            max_visible_items: self.max_visible_items,
        }
    }
}

/// Two options, the first selected, closed, enabled, at most 320 pixels
/// wide, 13 point text, eight options at once.
pub open spec fn default_dropdown() -> DropdownView {
    DropdownView {
        options: seq!["Option A"@, "Option B"@],
        selected: 0,
        expanded: false,
        disabled: false,
        max_popup_width: F32_320,
        font_size: F32_13,
        max_visible_items: 8,
    }
}

impl Dropdown {
    /// The default dropdown.
    pub fn default() -> (r: Self)
        ensures
            r@ == default_dropdown(),
    {
        let mut options: Vec<String> = Vec::new();
        options.push("Option A".to_owned());
        options.push("Option B".to_owned());
        let r = Dropdown {
            options,
            selected: 0,
            expanded: false,
            disabled: false,
            max_visible_items: 8,
            max_popup_width: F32_320,
            font_size: F32_13,
        };
        assert(r@.options =~= seq!["Option A"@, "Option B"@]);
        r
    }
}

/// The message a dropdown sends when an option is picked.
pub struct DropdownChange {
    pub entity: u64,
    pub selected: usize,
    pub value: String,
}

/// What a click on the header leaves of a dropdown: a disabled one as it
/// was, an enabled one with its menu opened or closed.
pub open spec fn header_clicked(d: DropdownView) -> DropdownView {
    if d.disabled { d } else { DropdownView { expanded: !d.expanded, ..d } }
}

/// A click on a dropdown's header opens or closes its menu, unless it is
/// disabled; the result says whether the click was taken.
pub fn on_dropdown_header_click(dropdown: &mut Dropdown) -> (taken: bool)
    ensures
        taken == !old(dropdown).disabled,
        final(dropdown)@ == header_clicked(old(dropdown)@),
{
    if dropdown.disabled {
        return false;
    }
    dropdown.expanded = !dropdown.expanded;
    true
}

/// A click on the option at `index` of the dropdown `owner`: unless the
/// dropdown is disabled or has no such option, the option becomes selected,
/// the menu closes, and the change is announced.
pub fn on_dropdown_option_click(dropdown: &mut Dropdown, owner: u64, index: usize) -> (r: Option<DropdownChange>)
    ensures
        (old(dropdown).disabled || index >= old(dropdown)@.options.len()) ==> final(dropdown)@ == old(dropdown)@ && r is None,
        !(old(dropdown).disabled || index >= old(dropdown)@.options.len()) ==> {
            &&& final(dropdown)@ == (DropdownView { selected: index, expanded: false, ..old(dropdown)@ })
            &&& r matches Some(c) && c.entity == owner && c.selected == index && c.value@ == old(dropdown)@.options[index as int]
        },
{
    if dropdown.disabled || index >= dropdown.options.len() {
        return None;
    }
    dropdown.selected = index;
    dropdown.expanded = false;
    let value = dropdown.options[index].clone();
    Some(DropdownChange { entity: owner, selected: index, value })
}

/// A click outside an open dropdown's header and menu closes it.
pub fn close_dropdown_on_outside_click(dropdown: &mut Dropdown, header_hit: bool, menu_hit: bool)
    ensures
        final(dropdown)@ == (if old(dropdown).expanded && !header_hit && !menu_hit {
            DropdownView { expanded: false, ..old(dropdown)@ }
        } else {
            old(dropdown)@
        }),
{
    if dropdown.expanded && !header_hit && !menu_hit {
        dropdown.expanded = false;
    }
}

/// How many options an open menu shows at once: all of them, but no more
/// than the dropdown allows (and that limit is at least one).
pub fn visible_option_count(dropdown: &Dropdown) -> (r: usize)
    ensures
        r == (if dropdown@.options.len() < (if dropdown.max_visible_items < 1 { 1 } else { dropdown.max_visible_items }) {
            dropdown@.options.len() as usize
        } else if dropdown.max_visible_items < 1 {
            1
        } else {
            dropdown.max_visible_items
        }),
{
    let limit = if dropdown.max_visible_items < 1 { 1 } else { dropdown.max_visible_items };
    if dropdown.options.len() < limit {
        dropdown.options.len()
    } else {
        limit
    }
}

/// The text the header shows: the selected option, or "Select" when there is none.
pub fn selected_label(dropdown: &Dropdown) -> (r: String)
    ensures
        r@ == (if dropdown.selected < dropdown@.options.len() { dropdown@.options[dropdown.selected as int] } else { "Select"@ }),
{
    if dropdown.selected < dropdown.options.len() {
        dropdown.options[dropdown.selected].clone()
    } else {
        "Select".to_owned()
    }
}

/// The colours of a dropdown's parts.
#[derive(Clone, Copy, Debug, PartialEq, Eq, Structural)]
pub struct DropdownColors {
    pub normal_bg: Color,
    pub hovered_bg: Color,
    pub pressed_bg: Color,
    pub border: Color,
    pub menu_bg: Color,
    pub text: Color,
    pub selected_bg: Color,
    pub disabled_bg: Color,
}

/// A dropdown's colours: from the theme's palette, or a dark grey set.
pub open spec fn spec_dropdown_colors(theme: Option<Theme>) -> DropdownColors {
    match theme {
        Some(t) => DropdownColors {
            normal_bg: t.palette.surface,
            hovered_bg: t.palette.surface_variant,
            pressed_bg: t.palette.outline_variant,
            border: t.palette.outline,
            menu_bg: t.palette.surface,
            text: t.palette.on_surface,
            selected_bg: t.palette.primary_container,
            disabled_bg: t.palette.disabled_container,
        },
        None => DropdownColors {
            normal_bg: grey(F32_0_15),
            hovered_bg: grey(F32_0_2),
            pressed_bg: grey(F32_0_25),
            border: grey(F32_0_35),
            menu_bg: grey(F32_0_14),
            text: grey(F32_0_9),
            selected_bg: accent(),
            disabled_bg: grey(F32_0_1),
        },
    }
}

/// The text size of a dropdown's labels: the theme's medium body size, or
/// 13 without a theme.
pub fn dropdown_font_size(theme: Option<&Theme>) -> (r: u32)
    ensures
        r == match opt_theme(theme) {
            Some(t) => t.body_medium_font_size,
            None => F32_13,
        },
{
    match theme {
        Some(t) => t.body_medium_font_size,
        None => F32_13,
    }
}

pub fn dropdown_colors(theme: Option<&Theme>) -> (r: DropdownColors)
    ensures
        r == spec_dropdown_colors(opt_theme(theme)),
{
    match theme {
        Some(t) => DropdownColors {
            normal_bg: t.palette.surface,
            hovered_bg: t.palette.surface_variant,
            pressed_bg: t.palette.outline_variant,
            border: t.palette.outline,
            menu_bg: t.palette.surface,
            text: t.palette.on_surface,
            selected_bg: t.palette.primary_container,
            disabled_bg: t.palette.disabled_container,
        },
        None => DropdownColors {
            normal_bg: Color::srgb(F32_0_15, F32_0_15, F32_0_15),
            hovered_bg: Color::srgb(F32_0_2, F32_0_2, F32_0_2),
            pressed_bg: Color::srgb(F32_0_25, F32_0_25, F32_0_25),
            border: Color::srgb(F32_0_35, F32_0_35, F32_0_35),
            menu_bg: Color::srgb(F32_0_14, F32_0_14, F32_0_14),
            text: Color::srgb(F32_0_9, F32_0_9, F32_0_9),
            selected_bg: Color::srgb(F32_0_22, F32_0_35, F32_0_52),
            disabled_bg: Color::srgb(F32_0_1, F32_0_1, F32_0_1),
        },
    }
}

/// The background of a dropdown's header when nothing points at it.
pub fn header_background(dropdown: &Dropdown, colors: &DropdownColors) -> (r: Color)
    ensures
        r == (if dropdown.disabled { colors.disabled_bg } else { colors.normal_bg }),
{
    if dropdown.disabled { colors.disabled_bg } else { colors.normal_bg }
}

/// The background of the option at `index` when nothing points at it.
pub open spec fn option_base(disabled: bool, selected: usize, colors: DropdownColors, index: usize) -> Color {
    if disabled {
        colors.disabled_bg
    } else if index == selected {
        colors.selected_bg
    } else {
        colors.menu_bg
    }
}

pub fn option_background(dropdown: &Dropdown, colors: &DropdownColors, index: usize) -> (r: Color)
    ensures
        r == option_base(dropdown.disabled, dropdown.selected, *colors, index),
{
    if dropdown.disabled {
        colors.disabled_bg
    } else if index == dropdown.selected {
        colors.selected_bg
    } else {
        colors.menu_bg
    }
}

/// The background of a dropdown's header under the pointer.
pub fn header_interaction_background(dropdown: &Dropdown, colors: &DropdownColors, interaction: Interaction) -> (r: Color)
    ensures
        r == (if dropdown.disabled { colors.disabled_bg } else {
            match interaction {
                Interaction::Pressed => colors.pressed_bg,
                Interaction::Hovered => colors.hovered_bg,
                Interaction::Idle => colors.normal_bg,
            }
        }),
{
    if dropdown.disabled {
        colors.disabled_bg
    } else {
        match interaction {
            Interaction::Pressed => colors.pressed_bg,
            Interaction::Hovered => colors.hovered_bg,
            Interaction::Idle => colors.normal_bg,
        }
    }
}

/// The background of an option under the pointer; a disabled dropdown
/// ignores the pointer.
pub fn option_interaction_background(dropdown: &Dropdown, colors: &DropdownColors, index: usize, interaction: Interaction) -> (r: Color)
    ensures
        r == (if dropdown.disabled { colors.disabled_bg } else {
            match interaction {
                Interaction::Pressed => colors.pressed_bg,
                Interaction::Hovered => colors.hovered_bg,
                Interaction::Idle => option_base(false, dropdown.selected, *colors, index),
            }
        }),
{
    let base = option_background(dropdown, colors, index);
    if dropdown.disabled {
        base
    } else {
        match interaction {
            Interaction::Pressed => colors.pressed_bg,
            Interaction::Hovered => colors.hovered_bg,
            Interaction::Idle => base,
        }
    }
}

/// Builds a dropdown of a given width.
pub struct DropdownBuilder {
    pub dropdown: Dropdown,
    pub width: Val,
}

impl DropdownBuilder {
    /// The default dropdown, 160 pixels wide.
    pub fn new() -> (r: Self)
        ensures
            r.dropdown@ == default_dropdown(),
            r.width == Val::Px(F32_160),
    {
        DropdownBuilder { dropdown: Dropdown::default(), width: Val::Px(F32_160) }
    }

    /// New options, the first selected.
    pub fn options(self, options: Vec<String>) -> (r: Self)
        ensures
            r.dropdown@ == (DropdownView { options: options@.map_values(|s: String| s@), selected: 0, ..self.dropdown@ }),
            r.width == self.width,
    {
        let d = self.dropdown;
        DropdownBuilder { dropdown: Dropdown { options, selected: 0, ..d }, width: self.width }
    }

    pub fn selected(self, selected: usize) -> (r: Self)
        ensures
            r.dropdown@ == (DropdownView { selected, ..self.dropdown@ }),
            r.width == self.width,
    {
        let d = self.dropdown;
        DropdownBuilder { dropdown: Dropdown { selected, ..d }, width: self.width }
    }

    pub fn width(self, width: Val) -> (r: Self)
        ensures
            r.dropdown@ == self.dropdown@,
            r.width == width,
    {
        DropdownBuilder { width, ..self }
    }

    pub fn disabled(self, disabled: bool) -> (r: Self)
        ensures
            r.dropdown@ == (DropdownView { disabled, ..self.dropdown@ }),
            r.width == self.width,
    {
        let d = self.dropdown;
        DropdownBuilder { dropdown: Dropdown { disabled, ..d }, width: self.width }
    }

    /// At least one option shows at once.
    pub fn max_visible_items(self, max_visible_items: usize) -> (r: Self)
        ensures
            r.dropdown@ == (DropdownView { max_visible_items: if max_visible_items < 1 { 1 } else { max_visible_items }, ..self.dropdown@ }),
            r.width == self.width,
    {
        let d = self.dropdown;
        let m = if max_visible_items < 1 { 1 } else { max_visible_items };
        DropdownBuilder { dropdown: Dropdown { max_visible_items: m, ..d }, width: self.width }
    }
}

} // verus!
