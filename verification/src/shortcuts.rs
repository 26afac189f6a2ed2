//! What the keyboard shortcuts do.

use vstd::prelude::*;
use crate::events::UiAction;
use crate::render_mode::{RenderMode, RenderModeState};
use crate::ui_state::{spec_toggle_right_panel, toggle_right_panel, RightPanelTab, UiState};

verus! {

/// The keyboard as one frame sees it: held modifiers and the keys that went
/// down in this frame.
#[derive(Clone, Copy, Debug)]
pub struct ShortcutKeys {
    /// A text field has keyboard focus; shortcuts are then ignored.
    pub text_input_focused: bool,
    /// Command (Super) or Control is held.
    pub ctrl: bool,
    /// Shift is held.
    pub shift: bool,
    pub key_o: bool,
    pub key_comma: bool,
    pub key_b: bool,
    pub digit1: bool,
    pub digit2: bool,
    pub digit3: bool,
    pub digit4: bool,
    pub digit5: bool,
    pub key_f: bool,
    pub key_i: bool,
    pub key_m: bool,
    pub key_u: bool,
}

/// The actions emitted for `k`, in order: a file or directory dialog for
/// Ctrl+O / Ctrl+Shift+O, then fit-to-view for F.
pub open spec fn shortcut_actions(k: ShortcutKeys) -> Seq<UiAction> {
    if k.text_input_focused {
        Seq::empty()
    } else {
        let open = if k.ctrl && k.key_o {
            if k.shift {
                seq![UiAction::OpenDirectoryDialog]
            } else {
                seq![UiAction::OpenFileDialog]
            }
        } else {
            Seq::empty()
        };
        let fit = if k.key_f && !k.ctrl {
            seq![UiAction::FitToView]
        } else {
            Seq::empty()
        };
        open + fit
    }
}

/// The render mode after the number keys of `k` (the highest pressed one wins).
pub open spec fn shortcut_mode(k: ShortcutKeys, m: RenderMode) -> RenderMode {
    if k.text_input_focused || k.ctrl {
        m
    } else if k.digit5 {
        RenderMode::Skeleton
    } else if k.digit4 {
        RenderMode::Material
    } else if k.digit3 {
        RenderMode::Component
    } else if k.digit2 {
        RenderMode::Solid
    } else if k.digit1 {
        RenderMode::Wireframe
    } else {
        m
    }
}

/// The UI state after the shortcuts of `k`: Ctrl+, opens the settings,
/// B toggles the sidebar, then I, M and U toggle the right panel tabs in turn.
pub open spec fn shortcut_ui_state(k: ShortcutKeys, s: UiState) -> UiState {
    if k.text_input_focused {
        s
    } else {
        let s1 = if k.ctrl && k.key_comma {
            UiState { show_settings_dialog: true, ..s }
        } else {
            s
        };
        let s2 = if k.key_b && !k.ctrl {
            UiState { show_sidebar: !s1.show_sidebar, ..s1 }
        } else {
            s1
        };
        let s3 = if k.key_i && !k.ctrl {
            spec_toggle_right_panel(s2, RightPanelTab::Info)
        } else {
            s2
        };
        let s4 = if k.key_m && !k.ctrl {
            spec_toggle_right_panel(s3, RightPanelTab::Material)
        } else {
            s3
        };
        if k.key_u && !k.ctrl {
            spec_toggle_right_panel(s4, RightPanelTab::Uv)
        } else {
            s4
        }
    }
}

/// Apply one frame of keyboard shortcuts to the UI state and render mode, and
/// return the actions to send.
pub fn apply_keyboard_shortcuts(
    keys: &ShortcutKeys,
    ui_state: &mut UiState,
    render_mode: &mut RenderModeState,
) -> (actions: Vec<UiAction>)
    ensures
        *final(ui_state) == shortcut_ui_state(*keys, *old(ui_state)),
        final(render_mode).current_mode == shortcut_mode(*keys, old(render_mode).current_mode),
        actions@ == shortcut_actions(*keys),
{
    let mut actions: Vec<UiAction> = Vec::new();
    if keys.text_input_focused {
        proof {
            assert(actions@ =~= shortcut_actions(*keys));
        }
        return actions;
    }
    let ctrl = keys.ctrl;
    if ctrl && keys.key_o {
        if keys.shift {
            actions.push(UiAction::OpenDirectoryDialog);
        } else {
            actions.push(UiAction::OpenFileDialog);
        }
    }
    if ctrl && keys.key_comma {
        ui_state.show_settings_dialog = true;
    }
    if keys.key_b && !ctrl {
        ui_state.show_sidebar = !ui_state.show_sidebar;
    }
    if keys.digit1 && !ctrl {
        render_mode.current_mode = RenderMode::Wireframe;
    }
    if keys.digit2 && !ctrl {
        render_mode.current_mode = RenderMode::Solid;
    }
    if keys.digit3 && !ctrl {
        render_mode.current_mode = RenderMode::Component;
    }
    if keys.digit4 && !ctrl {
        render_mode.current_mode = RenderMode::Material;
    }
    if keys.digit5 && !ctrl {
        render_mode.current_mode = RenderMode::Skeleton;
    }
    if keys.key_f && !ctrl {
        actions.push(UiAction::FitToView);
    }
    if keys.key_i && !ctrl {
        toggle_right_panel(ui_state, RightPanelTab::Info);
    }
    if keys.key_m && !ctrl {
        toggle_right_panel(ui_state, RightPanelTab::Material);
    }
    if keys.key_u && !ctrl {
        toggle_right_panel(ui_state, RightPanelTab::Uv);
    }
    proof {
        assert(actions@ =~= shortcut_actions(*keys));
    }
    actions
}

/// Pressing the same panel key in two frames (with nothing else pressed)
/// hides the panel again when that tab was already the active one.
pub proof fn law_panel_key_twice_restores(k: ShortcutKeys, s: UiState)
    requires
        !k.text_input_focused,
        !k.ctrl,
        !k.key_comma,
        !k.key_b,
        k.key_i,
        !k.key_m,
        !k.key_u,
        s.right_panel_tab == RightPanelTab::Info,
    ensures
        shortcut_ui_state(k, shortcut_ui_state(k, s)) == s,
{
}

/// Each panel key, pressed alone (no Ctrl, no text focus, no other panel
/// key), toggles its own tab: I the Info tab, M the Material tab, U the UV
/// tab. Afterwards the panel shows that tab exactly when it was not showing it
/// before, and the panel's tab is that key's tab either way.
pub proof fn law_panel_keys_toggle_their_tabs(k: ShortcutKeys, s: UiState)
    requires
        !k.text_input_focused,
        !k.ctrl,
    ensures
        k.key_i && !k.key_m && !k.key_u ==> ({
            let t = shortcut_ui_state(k, s);
            &&& t.right_panel_tab == RightPanelTab::Info
            &&& t.show_right_panel == !(s.show_right_panel && s.right_panel_tab
                == RightPanelTab::Info)
        }),
        !k.key_i && k.key_m && !k.key_u ==> ({
            let t = shortcut_ui_state(k, s);
            &&& t.right_panel_tab == RightPanelTab::Material
            &&& t.show_right_panel == !(s.show_right_panel && s.right_panel_tab
                == RightPanelTab::Material)
        }),
        !k.key_i && !k.key_m && k.key_u ==> ({
            let t = shortcut_ui_state(k, s);
            &&& t.right_panel_tab == RightPanelTab::Uv
            &&& t.show_right_panel == !(s.show_right_panel && s.right_panel_tab
                == RightPanelTab::Uv)
        }),
        !k.key_i && !k.key_m && !k.key_u ==> ({
            let t = shortcut_ui_state(k, s);
            &&& t.right_panel_tab == s.right_panel_tab
            &&& t.show_right_panel == s.show_right_panel
        }),
{
}

} // verus!
