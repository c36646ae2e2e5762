use bevy_vista::ui::{Color, FlexDirection, Interaction, Palette, Theme, Val, F32_ONE};
use bevy_vista::widgets::{
    apply_panel_layout, resolve_divider_color, resolve_divider_hover_color, sync_image_widgets, Divider, DividerAxis, DividerBuilder,
    ImageBuilder, SplitView, SplitViewAxis, SplitViewBuilder,
};
use bevy_vista::inputs::{
    checkbox_colors, close_dropdown_on_outside_click, dropdown_colors, dropdown_font_size, header_background, header_interaction_background,
    on_checkbox_click, on_dropdown_header_click, on_dropdown_option_click, option_background, option_interaction_background,
    selected_label, sync_checkbox_interaction, Checkbox, CheckboxBuilder, CheckboxChange, Dropdown, DropdownBuilder,
    visible_option_count,
};
use bevy_vista::editor_state::{
    sync_vista_editor_mode, EditingMode, VistaEditorActive, VistaEditorExpanded, VistaEditorMode, VistaEditorSelection, VistaEditorViewOptions,
};

fn bits(x: f32) -> u32 {
    x.to_bits()
}

fn grey(x: f32) -> Color {
    Color { red: bits(x), green: bits(x), blue: bits(x), alpha: bits(1.0) }
}

fn theme() -> Theme {
    let c = |n: f32| Color { red: bits(n), green: 0, blue: 0, alpha: bits(1.0) };
    Theme {
        palette: Palette {
            primary: c(0.9),
            primary_container: c(0.8),
            on_primary_container: c(0.7),
            surface: c(0.6),
            surface_variant: c(0.5),
            on_surface: c(0.4),
            outline: c(0.3),
            outline_variant: c(0.2),
            disabled_container: c(0.1),
        },
        body_medium_font_size: bits(14.0),
    }
}

#[test]
fn image_builder_defaults_and_setters() {
    let b: ImageBuilder<u32> = ImageBuilder::new();
    assert!(b.widget.image.is_none());
    assert_eq!(b.widget.color, Color { red: F32_ONE, green: F32_ONE, blue: F32_ONE, alpha: F32_ONE });
    assert_eq!(b.width, Val::Px(bits(48.0)));
    assert_eq!(b.height, Val::Px(bits(48.0)));
    let red = Color { red: bits(1.0), green: 0, blue: 0, alpha: bits(1.0) };
    let parts = ImageBuilder::new().image(7u32).color(red).width(Val::Percent(bits(50.0))).height(Val::Auto).build();
    assert_eq!(parts.widget.image, Some(7));
    assert_eq!(parts.background, red);
    assert_eq!(parts.width, Val::Percent(bits(50.0)));
    assert_eq!(parts.height, Val::Auto);
    assert_eq!(sync_image_widgets(&parts.widget, red), None);
    assert_eq!(sync_image_widgets(&parts.widget, grey(0.5)), Some(red));
}

#[test]
fn divider_colors_fall_back_to_theme_then_grey() {
    let plain = Divider::default();
    assert_eq!(plain.axis, DividerAxis::Vertical);
    assert_eq!(plain.thickness, Val::Px(bits(2.0)));
    assert_eq!(resolve_divider_color(None, &plain), grey(0.3));
    assert_eq!(resolve_divider_hover_color(None, &plain), grey(0.45));
    let t = theme();
    assert_eq!(resolve_divider_color(Some(&t), &plain), t.palette.outline_variant);
    assert_eq!(resolve_divider_hover_color(Some(&t), &plain), Color { alpha: bits(0.75), ..t.palette.primary });
    let own = DividerBuilder::new().color(grey(0.9)).hover_color(grey(0.8)).divider;
    assert_eq!(resolve_divider_color(Some(&t), &own), grey(0.9));
    assert_eq!(resolve_divider_hover_color(Some(&t), &own), grey(0.8));
}

#[test]
fn divider_build_lays_out_along_its_axis() {
    let v = DividerBuilder::new().thickness(Val::Px(bits(4.0))).build(None);
    assert_eq!(v.width, Val::Px(bits(4.0)));
    assert_eq!(v.height, Val::Percent(bits(100.0)));
    assert_eq!(v.background, grey(0.3));
    let h = DividerBuilder::new().axis(DividerAxis::Horizontal).build(None);
    assert_eq!(h.width, Val::Percent(bits(100.0)));
    assert_eq!(h.height, Val::Px(bits(2.0)));
    assert_eq!(h.divider.axis, DividerAxis::Horizontal);
}

#[test]
fn split_view_defaults() {
    let s = SplitView::default();
    assert_eq!(s.axis, SplitViewAxis::Horizontal);
    assert_eq!(s.default_first_size, Val::Percent(bits(30.0)));
    assert_eq!(s.divider_size, Val::Px(bits(2.0)));
    assert_eq!(s.min_first_size, Val::Px(bits(100.0)));
    assert_eq!(s.min_second_size, Val::Px(bits(100.0)));
    assert!(s.draggable);
    let b = SplitViewBuilder::new();
    assert_eq!(b.width, Val::Auto);
    assert_eq!(b.height, Val::Auto);
    assert_eq!(SplitViewAxis::Horizontal.divider_axis(), DividerAxis::Vertical);
    assert_eq!(SplitViewAxis::Vertical.divider_axis(), DividerAxis::Horizontal);
    assert_eq!(SplitViewAxis::Horizontal.flex_direction(), FlexDirection::Row);
    assert_eq!(SplitViewAxis::Vertical.flex_direction(), FlexDirection::Column);
}

#[test]
fn split_view_panels_follow_the_axis() {
    let s = SplitView::default();
    let (first, second) = apply_panel_layout(&s);
    assert_eq!(first.width, Val::Percent(bits(30.0)));
    assert_eq!(first.height, Val::Percent(bits(100.0)));
    assert_eq!(first.min_width, Val::Px(bits(100.0)));
    assert!(!first.fills);
    assert_eq!(second.width, Val::Auto);
    assert_eq!(second.min_width, Val::Px(bits(100.0)));
    assert_eq!(second.flex_basis, Some(Val::Auto));
    assert!(second.fills);
    let v = SplitView { axis: SplitViewAxis::Vertical, ..s };
    let (first, second) = apply_panel_layout(&v);
    assert_eq!(first.width, Val::Percent(bits(100.0)));
    assert_eq!(first.height, Val::Percent(bits(30.0)));
    assert_eq!(first.min_height, Val::Px(bits(100.0)));
    assert_eq!(second.height, Val::Auto);
    assert_eq!(second.min_height, Val::Px(bits(100.0)));
}

#[test]
fn split_view_build_gives_root_panels_and_divider() {
    let parts = SplitViewBuilder::new()
        .axis(SplitViewAxis::Vertical)
        .divider_size(Val::Px(bits(6.0)))
        .default_first_size(Val::Px(bits(80.0)))
        .min_first_size(Val::Px(bits(10.0)))
        .min_second_size(Val::Px(bits(20.0)))
        .draggable(false)
        .width(Val::Px(bits(260.0)))
        .height(Val::Px(bits(120.0)))
        .build(None);
    assert_eq!(parts.width, Val::Px(bits(260.0)));
    assert_eq!(parts.height, Val::Px(bits(120.0)));
    assert_eq!(parts.flex_direction, FlexDirection::Column);
    assert_eq!(parts.divider.divider.axis, DividerAxis::Horizontal);
    assert_eq!(parts.divider.width, Val::Percent(bits(100.0)));
    assert_eq!(parts.divider.height, Val::Px(bits(6.0)));
    assert_eq!(parts.first.height, Val::Px(bits(80.0)));
    assert_eq!(parts.first.min_height, Val::Px(bits(10.0)));
    assert_eq!(parts.second.min_height, Val::Px(bits(20.0)));
    assert!(!parts.split_view.draggable);
}

#[test]
fn checkbox_click_toggles_unless_disabled() {
    let mut c = Checkbox::default();
    assert_eq!(on_checkbox_click(&mut c, 5), Some(CheckboxChange { entity: 5, checked: true }));
    assert!(c.checked);
    assert_eq!(on_checkbox_click(&mut c, 5), Some(CheckboxChange { entity: 5, checked: false }));
    let mut d = Checkbox { checked: true, disabled: true };
    assert_eq!(on_checkbox_click(&mut d, 5), None);
    assert!(d.checked);
    let b = CheckboxBuilder::new().checked(true).disabled(true);
    assert_eq!(b.checkbox, Checkbox { checked: true, disabled: true });
    assert_eq!(b.size, bits(20.0));
}

#[test]
fn checkbox_background_priorities() {
    let colors = checkbox_colors(None);
    assert_eq!(colors.normal_bg, grey(0.15));
    assert_eq!(colors.active_bg, Color { red: bits(0.22), green: bits(0.35), blue: bits(0.52), alpha: bits(1.0) });
    assert_eq!(colors.mark, Color { red: F32_ONE, green: F32_ONE, blue: F32_ONE, alpha: F32_ONE });
    let disabled = sync_checkbox_interaction(&Checkbox { checked: true, disabled: true }, &colors, Interaction::Pressed);
    assert_eq!(disabled.background, colors.disabled_bg);
    assert!(disabled.mark_visible);
    let checked = sync_checkbox_interaction(&Checkbox { checked: true, disabled: false }, &colors, Interaction::Hovered);
    assert_eq!(checked.background, colors.active_bg);
    let hovered = sync_checkbox_interaction(&Checkbox::default(), &colors, Interaction::Hovered);
    assert_eq!(hovered.background, colors.hovered_bg);
    assert!(!hovered.mark_visible);
    let pressed = sync_checkbox_interaction(&Checkbox::default(), &colors, Interaction::Pressed);
    assert_eq!(pressed.background, colors.pressed_bg);
    let idle = sync_checkbox_interaction(&Checkbox::default(), &colors, Interaction::Idle);
    assert_eq!(idle.background, colors.normal_bg);
    let t = theme();
    assert_eq!(checkbox_colors(Some(&t)).active_bg, t.palette.primary_container);
    assert_eq!(checkbox_colors(Some(&t)).mark, t.palette.on_primary_container);
}

#[test]
fn dropdown_defaults_and_clicks() {
    let mut d = Dropdown::default();
    assert_eq!(d.options, vec!["Option A".to_owned(), "Option B".to_owned()]);
    assert_eq!(d.selected, 0);
    assert_eq!(d.max_visible_items, 8);
    assert_eq!(d.max_popup_width, bits(320.0));
    assert_eq!(d.font_size, bits(13.0));
    assert!(on_dropdown_header_click(&mut d));
    assert!(d.expanded);
    let change = on_dropdown_option_click(&mut d, 9, 1).expect("option 1 exists");
    assert_eq!(change.entity, 9);
    assert_eq!(change.selected, 1);
    assert_eq!(change.value, "Option B");
    assert!(!d.expanded);
    assert_eq!(d.selected, 1);
    assert!(on_dropdown_option_click(&mut d, 9, 2).is_none());
    assert_eq!(selected_label(&d), "Option B");
    d.selected = 5;
    assert_eq!(selected_label(&d), "Select");
    d.disabled = true;
    assert!(!on_dropdown_header_click(&mut d));
    assert!(!d.expanded);
    assert!(on_dropdown_option_click(&mut d, 9, 0).is_none());
}

#[test]
fn dropdown_closes_on_outside_click_only() {
    let mut d = Dropdown::default();
    d.expanded = true;
    close_dropdown_on_outside_click(&mut d, true, false);
    assert!(d.expanded);
    close_dropdown_on_outside_click(&mut d, false, true);
    assert!(d.expanded);
    close_dropdown_on_outside_click(&mut d, false, false);
    assert!(!d.expanded);
}

#[test]
fn dropdown_backgrounds() {
    let colors = dropdown_colors(None);
    assert_eq!(colors.menu_bg, grey(0.14));
    assert_eq!(colors.text, grey(0.9));
    let mut d = Dropdown::default();
    assert_eq!(header_background(&d, &colors), colors.normal_bg);
    assert_eq!(option_background(&d, &colors, 0), colors.selected_bg);
    assert_eq!(option_background(&d, &colors, 1), colors.menu_bg);
    assert_eq!(option_interaction_background(&d, &colors, 1, Interaction::Hovered), colors.hovered_bg);
    assert_eq!(option_interaction_background(&d, &colors, 0, Interaction::Idle), colors.selected_bg);
    assert_eq!(header_interaction_background(&d, &colors, Interaction::Pressed), colors.pressed_bg);
    d.disabled = true;
    assert_eq!(header_background(&d, &colors), colors.disabled_bg);
    assert_eq!(option_interaction_background(&d, &colors, 1, Interaction::Pressed), colors.disabled_bg);
    assert_eq!(header_interaction_background(&d, &colors, Interaction::Hovered), colors.disabled_bg);
    let t = theme();
    assert_eq!(dropdown_colors(Some(&t)).menu_bg, t.palette.surface);
    assert_eq!(dropdown_colors(Some(&t)).text, t.palette.on_surface);
}

#[test]
fn dropdown_text_size_comes_from_the_theme() {
    assert_eq!(f32::from_bits(dropdown_font_size(None)), 13.0);
    assert_eq!(f32::from_bits(dropdown_font_size(Some(&theme()))), 14.0);
}

#[test]
fn dropdown_builder_setters() {
    let b = DropdownBuilder::new()
        .selected(1)
        .options(vec!["x".to_owned(), "y".to_owned(), "z".to_owned()])
        .disabled(true)
        .max_visible_items(0)
        .width(Val::Px(bits(200.0)));
    assert_eq!(b.dropdown.selected, 0);
    assert_eq!(b.dropdown.options.len(), 3);
    assert!(b.dropdown.disabled);
    assert_eq!(b.dropdown.max_visible_items, 1);
    assert_eq!(b.width, Val::Px(bits(200.0)));
    assert_eq!(DropdownBuilder::new().width, Val::Px(bits(160.0)));
}

#[test]
fn editor_state_defaults_and_mode() {
    assert_eq!(VistaEditorActive::default(), VistaEditorActive(false));
    assert_eq!(VistaEditorMode::default(), VistaEditorMode::Floating);
    assert_eq!(EditingMode::default(), EditingMode::Select);
    let s = VistaEditorSelection::default();
    assert_eq!(s.selected_entity, None);
    assert_eq!(s.widget_to_add, None);
    assert!(!VistaEditorViewOptions::default().show_grid);
    let mut e = VistaEditorExpanded::default();
    assert!(!sync_vista_editor_mode(VistaEditorMode::Floating, &mut e));
    assert!(sync_vista_editor_mode(VistaEditorMode::Fullscreen, &mut e));
    assert_eq!(e, VistaEditorExpanded(true));
    assert!(sync_vista_editor_mode(VistaEditorMode::Floating, &mut e));
}

#[test]
fn open_menus_show_a_bounded_number_of_options() {
    let mut d = Dropdown::default();
    assert_eq!(visible_option_count(&d), 2);
    d.max_visible_items = 1;
    assert_eq!(visible_option_count(&d), 1);
    d.max_visible_items = 0;
    assert_eq!(visible_option_count(&d), 1);
    d.options.clear();
    assert_eq!(visible_option_count(&d), 0);
}

#[test]
fn builder_defaults_are_new_builders() {
    assert_eq!(DividerBuilder::default(), DividerBuilder::new());
    let d: ImageBuilder<u32> = ImageBuilder::default();
    let n: ImageBuilder<u32> = ImageBuilder::new();
    assert_eq!(d.widget.image, n.widget.image);
    assert_eq!(d.widget.color, n.widget.color);
    assert_eq!(d.width, n.width);
    assert_eq!(d.height, n.height);
    assert_eq!(d.width, Val::Px(bits(48.0)));
}
