use tiled_map_web_viewer::view_settings::{
    DockPanel, MobileWebUiState, RenderDockLayoutState, RenderSettingsState, badge_color, initial_window_resolution,
    menu_item_label, panel_for_menu_action, panel_id_named, panel_ids_containing,
};

#[test]
fn render_settings_defaults() {
    let s = RenderSettingsState::default();
    assert_eq!(s.preview_background, [26, 26, 38, 255]);
    assert!(s.show_preview_grid);
    assert_eq!(s.preview_grid_color, [160, 160, 160, 96]);
    assert!(s.show_world_grid);
    assert_eq!(s.world_grid_color, [255, 255, 255, 255]);
}

#[test]
fn mobile_layout_switches_grids_off_once() {
    let mut settings = RenderSettingsState::default();
    let mut mobile = MobileWebUiState::default();
    assert!(!mobile.observe(false, &mut settings));
    assert!(settings.show_preview_grid);

    assert!(mobile.observe(true, &mut settings));
    assert!(!settings.show_preview_grid);
    assert!(!settings.show_world_grid);

    settings.show_world_grid = true;
    assert!(mobile.observe(true, &mut settings));
    assert!(settings.show_world_grid);
    mobile.layout_done();
    assert!(!mobile.observe(true, &mut settings));

    assert!(!mobile.observe(false, &mut settings));
    assert!(!mobile.layout_applied);
    assert!(mobile.observe(true, &mut settings));
    assert!(!settings.show_world_grid);
}

#[test]
fn badge_colors_by_tone() {
    assert_eq!(badge_color(Some("success")), Some((80, 190, 120)));
    assert_eq!(badge_color(Some("info")), Some((80, 170, 220)));
    assert_eq!(badge_color(Some("warning")), Some((235, 180, 70)));
    assert_eq!(badge_color(Some("danger")), Some((230, 100, 100)));
    assert_eq!(badge_color(Some("muted")), Some((150, 150, 150)));
    assert_eq!(badge_color(Some("accent")), Some((180, 120, 230)));
    assert_eq!(badge_color(Some("Success")), None);
    assert_eq!(badge_color(None), None);
}

#[test]
fn window_resolution_fits_the_viewport() {
    assert_eq!(initial_window_resolution((1280, 720), None), (1280, 720));
    assert_eq!(
        initial_window_resolution((1280, 720), Some((800, 900))),
        (800, 720)
    );
}

#[test]
fn menu_labels_mark_visible_panels() {
    assert_eq!(menu_item_label(true, "Console"), "\u{2713} Console");
    assert_eq!(menu_item_label(false, "Console"), "  Console");
}

#[test]
fn panel_numbers_by_name() {
    let panels = vec![
        DockPanel { number: 7, name: "map_list_b".into() },
        DockPanel { number: 2, name: "map_preview".into() },
        DockPanel { number: 5, name: "map_list_a".into() },
        DockPanel { number: 1, name: "map_list".into() },
    ];
    assert_eq!(panel_ids_containing(&panels, "map_list"), vec![1, 5, 7]);
    assert_eq!(panel_ids_containing(&panels, "nothing"), Vec::<usize>::new());
    assert_eq!(panel_id_named(&panels, "map_preview"), Some(2));
    assert_eq!(panel_id_named(&panels, "map"), None);
}

#[test]
fn menu_actions_name_their_panels() {
    assert_eq!(panel_for_menu_action("toggle_inspector"), Some("workbench_inspector"));
    assert_eq!(panel_for_menu_action("toggle_console"), Some("workbench_console"));
    assert_eq!(panel_for_menu_action("other"), None);
}

#[test]
fn desktop_dock_is_arranged_once() {
    let mut layout = RenderDockLayoutState::default();
    assert!(!layout.due(true));
    assert!(layout.due(false));
    layout.done();
    assert!(layout.applied);
    assert!(!layout.due(false));
    assert!(!layout.due(true));
}
