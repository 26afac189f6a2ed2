use meshviewer::dialogs::{
    handle_dialog_poll, handle_file_action, request_dialog, spawn_blender_browse_dialog,
    ActionEffect, DialogKind, DialogPoll, FileDialogState, PollEffect,
};
use meshviewer::events::{ModelLoadError, ModelLoadRequest, UiAction};
use meshviewer::file_browser::FileBrowserState;
use meshviewer::file_state::{record_loaded_file, FileState};
use meshviewer::render_mode::{RenderMode, RenderModeState, StartupRenderMode, Theme};
use meshviewer::render_plan::{
    material_override, render_plan, Alpha, BaseColor, Culling, Metallic, RenderSwitches,
    Roughness, WireColor,
};
use meshviewer::shortcuts::{apply_keyboard_shortcuts, ShortcutKeys};
use meshviewer::ui_state::{toggle_right_panel, RightPanelTab, UiState};

fn no_keys() -> ShortcutKeys {
    ShortcutKeys {
        text_input_focused: false,
        ctrl: false,
        shift: false,
        key_o: false,
        key_comma: false,
        key_b: false,
        digit1: false,
        digit2: false,
        digit3: false,
        digit4: false,
        digit5: false,
        key_f: false,
        key_i: false,
        key_m: false,
        key_u: false,
    }
}

const SWITCHES: RenderSwitches =
    RenderSwitches { specular_highlights: true, backface_culling: false, wireframe_xray: false };

#[test]
fn defaults_of_the_viewer_state() {
    assert_eq!(RenderMode::default(), RenderMode::Solid);
    assert_eq!(RenderModeState::default().current_mode, RenderMode::Component);
    assert_eq!(Theme::default(), Theme::Dark);
    assert_eq!(StartupRenderMode::default(), StartupRenderMode::Component);
    assert_eq!(RightPanelTab::default(), RightPanelTab::Info);
    let ui = UiState::default();
    assert!(!ui.show_sidebar && !ui.show_right_panel && ui.show_stats_overlay);
    assert!(!ui.show_settings_dialog && !ui.show_loading_overlay);
    assert_eq!((ui.sidebar_width, ui.right_panel_width), (280, 320));
    let fs = FileState::default();
    assert!(fs.current_file_path.is_none() && fs.current_directory.is_none() && fs.file_name.is_none());
    assert!(FileDialogState::default().pending.is_none());
}

#[test]
fn startup_modes_map_to_render_modes() {
    assert_eq!(StartupRenderMode::Solid.to_render_mode(), RenderMode::Solid);
    assert_eq!(StartupRenderMode::Wireframe.to_render_mode(), RenderMode::Wireframe);
    assert_eq!(StartupRenderMode::Material.to_render_mode(), RenderMode::Material);
    assert_eq!(StartupRenderMode::Component.to_render_mode(), RenderMode::Component);
    assert_eq!(StartupRenderMode::Skeleton.to_render_mode(), RenderMode::Skeleton);
}

#[test]
fn right_panel_toggling() {
    let mut ui = UiState::default();
    toggle_right_panel(&mut ui, RightPanelTab::Material);
    assert!(ui.show_right_panel);
    assert_eq!(ui.right_panel_tab, RightPanelTab::Material);
    toggle_right_panel(&mut ui, RightPanelTab::Uv);
    assert!(ui.show_right_panel);
    assert_eq!(ui.right_panel_tab, RightPanelTab::Uv);
    toggle_right_panel(&mut ui, RightPanelTab::Uv);
    assert!(!ui.show_right_panel);
    assert_eq!(ui.right_panel_tab, RightPanelTab::Uv);
    toggle_right_panel(&mut ui, RightPanelTab::Uv);
    assert!(ui.show_right_panel);
}

#[test]
fn toggling_the_active_tab_twice_restores_the_state() {
    let start = UiState { show_right_panel: true, right_panel_tab: RightPanelTab::Info, ..UiState::default() };
    let mut ui = start;
    toggle_right_panel(&mut ui, RightPanelTab::Info);
    toggle_right_panel(&mut ui, RightPanelTab::Info);
    assert_eq!(ui, start);
}

#[test]
fn shortcuts_open_dialogs_and_fit() {
    let mut ui = UiState::default();
    let mut mode = RenderModeState::default();
    let keys = ShortcutKeys { ctrl: true, key_o: true, ..no_keys() };
    let actions = apply_keyboard_shortcuts(&keys, &mut ui, &mut mode);
    assert_eq!(actions.len(), 1);
    assert!(matches!(actions[0], UiAction::OpenFileDialog));
    let keys = ShortcutKeys { ctrl: true, shift: true, key_o: true, key_f: true, ..no_keys() };
    let actions = apply_keyboard_shortcuts(&keys, &mut ui, &mut mode);
    assert_eq!(actions.len(), 1);
    assert!(matches!(actions[0], UiAction::OpenDirectoryDialog));
    let keys = ShortcutKeys { key_f: true, key_o: true, ..no_keys() };
    let actions = apply_keyboard_shortcuts(&keys, &mut ui, &mut mode);
    assert_eq!(actions.len(), 1);
    assert!(matches!(actions[0], UiAction::FitToView));
    assert_eq!(ui, UiState::default());
}

#[test]
fn shortcuts_change_modes_and_panels() {
    let mut ui = UiState::default();
    let mut mode = RenderModeState::default();
    let keys = ShortcutKeys { digit1: true, digit4: true, key_b: true, key_i: true, ..no_keys() };
    let actions = apply_keyboard_shortcuts(&keys, &mut ui, &mut mode);
    assert!(actions.is_empty());
    assert_eq!(mode.current_mode, RenderMode::Material);
    assert!(ui.show_sidebar);
    assert!(ui.show_right_panel);
    assert_eq!(ui.right_panel_tab, RightPanelTab::Info);
    // I, M and U in one frame toggle in that order.
    let keys = ShortcutKeys { key_i: true, key_m: true, key_u: true, ..no_keys() };
    apply_keyboard_shortcuts(&keys, &mut ui, &mut mode);
    assert!(ui.show_right_panel);
    assert_eq!(ui.right_panel_tab, RightPanelTab::Uv);
    let keys = ShortcutKeys { ctrl: true, key_comma: true, digit2: true, key_b: true, ..no_keys() };
    apply_keyboard_shortcuts(&keys, &mut ui, &mut mode);
    assert!(ui.show_settings_dialog);
    assert!(ui.show_sidebar);
    assert_eq!(mode.current_mode, RenderMode::Material);
    for (k, m) in [
        (ShortcutKeys { digit1: true, ..no_keys() }, RenderMode::Wireframe),
        (ShortcutKeys { digit2: true, ..no_keys() }, RenderMode::Solid),
        (ShortcutKeys { digit3: true, ..no_keys() }, RenderMode::Component),
        (ShortcutKeys { digit4: true, ..no_keys() }, RenderMode::Material),
        (ShortcutKeys { digit5: true, ..no_keys() }, RenderMode::Skeleton),
    ] {
        apply_keyboard_shortcuts(&k, &mut ui, &mut mode);
        assert_eq!(mode.current_mode, m);
    }
}

#[test]
fn shortcuts_are_ignored_while_typing() {
    let mut ui = UiState::default();
    let mut mode = RenderModeState::default();
    let keys = ShortcutKeys {
        text_input_focused: true,
        ctrl: true,
        key_o: true,
        key_b: true,
        digit1: true,
        key_i: true,
        ..no_keys()
    };
    let actions = apply_keyboard_shortcuts(&keys, &mut ui, &mut mode);
    assert!(actions.is_empty());
    assert_eq!(ui, UiState::default());
    assert_eq!(mode.current_mode, RenderMode::Component);
}

#[test]
fn pressing_the_info_key_twice_restores_the_panel() {
    let start = UiState { right_panel_tab: RightPanelTab::Info, ..UiState::default() };
    let mut ui = start;
    let mut mode = RenderModeState::default();
    let keys = ShortcutKeys { key_i: true, ..no_keys() };
    apply_keyboard_shortcuts(&keys, &mut ui, &mut mode);
    assert!(ui.show_right_panel);
    apply_keyboard_shortcuts(&keys, &mut ui, &mut mode);
    assert_eq!(ui, start);
}

#[test]
fn render_plans_per_mode() {
    let p = render_plan(RenderMode::Wireframe, SWITCHES);
    assert!(p.wireframe_overlay && p.restore_geometry && !p.component_colors);
    assert_eq!(p.wire_color, WireColor::Opaque);
    let xray = RenderSwitches { wireframe_xray: true, ..SWITCHES };
    assert_eq!(render_plan(RenderMode::Wireframe, xray).wire_color, WireColor::Translucent);
    let p = render_plan(RenderMode::Animation, SWITCHES);
    assert!(!p.wireframe_overlay && !p.restore_geometry);
    assert_eq!(p.wire_color, WireColor::Unchanged);
    assert!(render_plan(RenderMode::Component, SWITCHES).component_colors);
    assert!(!render_plan(RenderMode::Solid, SWITCHES).component_colors);
}

#[test]
fn material_overrides_per_mode() {
    let solid = material_override(RenderMode::Solid, SWITCHES, 3);
    assert_eq!(solid.base_color, BaseColor::SolidColor);
    assert_eq!(solid.alpha, Alpha::Opaque);
    assert_eq!(solid.metallic, Metallic::Zero);
    assert_eq!(solid.roughness, Roughness::SolidSetting);
    assert_eq!((solid.unlit, solid.double_sided), (Some(false), Some(true)));
    assert_eq!(solid.culling, Culling::NoCulling);
    let culled = RenderSwitches { specular_highlights: false, backface_culling: true, ..SWITCHES };
    let solid2 = material_override(RenderMode::Solid, culled, 0);
    assert_eq!(solid2.roughness, Roughness::Full);
    assert_eq!((solid2.double_sided, solid2.culling), (Some(false), Culling::BackFaces));
    let skel = material_override(RenderMode::Skeleton, SWITCHES, 0);
    assert_eq!((skel.base_color, skel.alpha), (BaseColor::SolidColorWithMeshAlpha, Alpha::Blend));
    assert_eq!(material_override(RenderMode::Animation, SWITCHES, 1), material_override(RenderMode::Solid, SWITCHES, 2));
    let wire = material_override(RenderMode::Wireframe, SWITCHES, 0);
    assert_eq!((wire.base_color, wire.metallic, wire.roughness), (BaseColor::GreyShell, Metallic::Half, Roughness::Half));
    assert_eq!(wire.unlit, Some(false));
    let wire_x = material_override(RenderMode::Wireframe, RenderSwitches { wireframe_xray: true, ..SWITCHES }, 0);
    assert_eq!((wire_x.base_color, wire_x.unlit), (BaseColor::FaintGreyShell, Some(true)));
    let mat = material_override(RenderMode::Material, SWITCHES, 0);
    assert_eq!((mat.base_color, mat.alpha, mat.unlit, mat.double_sided), (BaseColor::Original, Alpha::Original, None, None));
    let normal = material_override(RenderMode::Normal, SWITCHES, 0);
    assert_eq!((normal.base_color, normal.roughness, normal.culling), (BaseColor::NormalPreview, Roughness::Full, Culling::Original));
    let comp = material_override(RenderMode::Component, SWITCHES, 7);
    assert_eq!(comp.base_color, BaseColor::Palette(7));
    assert_ne!(material_override(RenderMode::Component, SWITCHES, 8).base_color, comp.base_color);
    assert_eq!(comp.roughness, Roughness::Matte);
}

#[test]
fn recording_a_loaded_file() {
    let mut fs = FileState::default();
    record_loaded_file(&mut fs, String::from("/models/robot.glb"), String::from("robot.glb"));
    assert_eq!(fs.current_file_path.as_deref(), Some("/models/robot.glb"));
    assert_eq!(fs.file_name.as_deref(), Some("robot.glb"));
    assert_eq!(fs.current_directory.as_deref(), Some("/models"));
    record_loaded_file(&mut fs, String::from("plain.obj"), String::from("plain.obj"));
    assert_eq!(fs.current_directory.as_deref(), Some(""));
    record_loaded_file(&mut fs, String::from("/"), String::from("unknown"));
    assert_eq!(fs.current_directory.as_deref(), Some(""));
    assert_eq!(fs.current_file_path.as_deref(), Some("/"));
}

#[test]
fn one_dialog_at_a_time() {
    let mut d = FileDialogState::default();
    assert!(request_dialog(&mut d, DialogKind::OpenFile));
    assert_eq!(d.pending, Some(DialogKind::OpenFile));
    assert!(!request_dialog(&mut d, DialogKind::OpenDirectory));
    assert!(!spawn_blender_browse_dialog(&mut d));
    assert_eq!(d.pending, Some(DialogKind::OpenFile));
    let mut b = FileBrowserState::default();
    let mut ui = UiState::default();
    let e = handle_dialog_poll(DialogPoll::Cancelled, &mut d, &mut b, &mut ui);
    assert!(matches!(e, PollEffect::Nothing));
    assert!(d.pending.is_none());
    assert!(spawn_blender_browse_dialog(&mut d));
    assert_eq!(d.pending, Some(DialogKind::BrowseBlender));
}

#[test]
fn file_actions() {
    let mut d = FileDialogState::default();
    let mut b = FileBrowserState::default();
    let mut ui = UiState::default();
    let e = handle_file_action(UiAction::OpenFileDialog, &mut d, &mut b, &mut ui);
    assert!(matches!(e, ActionEffect::SpawnDialog(DialogKind::OpenFile)));
    let e = handle_file_action(UiAction::OpenDirectoryDialog, &mut d, &mut b, &mut ui);
    assert!(matches!(e, ActionEffect::Nothing));
    assert_eq!(d.pending, Some(DialogKind::OpenFile));
    match handle_file_action(UiAction::OpenFile(String::from("/a.glb")), &mut d, &mut b, &mut ui) {
        ActionEffect::LoadModel(p) => assert_eq!(p, "/a.glb"),
        other => panic!("unexpected {:?}", other),
    }
    let e = handle_file_action(UiAction::OpenDirectory(String::from("/data/x")), &mut d, &mut b, &mut ui);
    assert!(matches!(e, ActionEffect::Nothing));
    assert_eq!(b.root_path.as_deref(), Some("/data/x"));
    assert_eq!(b.tree_nodes[0].name, "x");
    assert_eq!(b.tree_nodes.len(), 1);
    assert_eq!((b.tree_nodes[0].size, b.tree_nodes[0].modified, b.tree_nodes[0].depth), (0, 0, 0));
    assert!(b.tree_nodes[0].is_directory && !b.tree_nodes[0].is_loaded);
    assert!(ui.show_sidebar);
    let e = handle_file_action(UiAction::SetRenderMode(RenderMode::Normal), &mut d, &mut b, &mut ui);
    assert!(matches!(e, ActionEffect::Nothing));
    let e = handle_file_action(UiAction::ToggleRightPanel(RightPanelTab::Uv), &mut d, &mut b, &mut ui);
    assert!(matches!(e, ActionEffect::Nothing));
    assert!(!ui.show_right_panel);
}

#[test]
fn dialog_answers_are_routed_by_kind() {
    let mut b = FileBrowserState::default();
    let mut ui = UiState::default();
    let mut d = FileDialogState { pending: Some(DialogKind::OpenFile) };
    let e = handle_dialog_poll(DialogPoll::Waiting, &mut d, &mut b, &mut ui);
    assert!(matches!(e, PollEffect::Nothing));
    assert_eq!(d.pending, Some(DialogKind::OpenFile));
    match handle_dialog_poll(DialogPoll::Picked(String::from("/m/a.fbx")), &mut d, &mut b, &mut ui) {
        PollEffect::LoadModel(p) => assert_eq!(p, "/m/a.fbx"),
        other => panic!("unexpected {:?}", other),
    }
    assert!(d.pending.is_none());
    let mut d = FileDialogState { pending: Some(DialogKind::OpenDirectory) };
    let e = handle_dialog_poll(DialogPoll::Picked(String::from("/m/dir")), &mut d, &mut b, &mut ui);
    assert!(matches!(e, PollEffect::Nothing));
    assert_eq!(b.root_path.as_deref(), Some("/m/dir"));
    assert_eq!(b.expanded_dirs, vec!["/m/dir"]);
    assert!(ui.show_sidebar);
    let mut d = FileDialogState { pending: Some(DialogKind::BrowseBlender) };
    match handle_dialog_poll(DialogPoll::Picked(String::from("/usr/bin/blender")), &mut d, &mut b, &mut ui) {
        PollEffect::SetBlenderPath(p) => assert_eq!(p, "/usr/bin/blender"),
        other => panic!("unexpected {:?}", other),
    }
    let mut d = FileDialogState { pending: Some(DialogKind::OpenFile) };
    let e = handle_dialog_poll(DialogPoll::Disconnected, &mut d, &mut b, &mut ui);
    assert!(matches!(e, PollEffect::Nothing));
    assert!(d.pending.is_none());
    let mut d = FileDialogState::default();
    let e = handle_dialog_poll(DialogPoll::Picked(String::from("/x")), &mut d, &mut b, &mut ui);
    assert!(matches!(e, PollEffect::Nothing));
    assert!(d.pending.is_none());
}

#[test]
fn events_carry_paths_and_messages() {
    let r = ModelLoadRequest { path: String::from("/m/a.glb") };
    let e = ModelLoadError { error: String::from("bad file") };
    assert_eq!(r.path, "/m/a.glb");
    assert_eq!(e.error, "bad file");
    assert!(matches!(UiAction::OpenDirectory(String::from("/m")), UiAction::OpenDirectory(_)));
}
