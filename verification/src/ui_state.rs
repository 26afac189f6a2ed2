//! Layout state of the user interface: which panels are visible.

use vstd::prelude::*;

verus! {

/// Which tab is active in the right panel.
#[derive(PartialEq, Eq, Structural, Clone, Copy, Debug)]
pub enum RightPanelTab {
    Info,
    Material,
    Uv,
}

impl Default for RightPanelTab {
    fn default() -> (r: Self)
        ensures
            r == RightPanelTab::Info,
    {
        RightPanelTab::Info
    }
}

/// UI layout state: panel visibility, remembered panel widths, active tab.
#[derive(PartialEq, Eq, Structural, Clone, Copy, Debug)]
pub struct UiState {
    /// Left-side file browser panel visible.
    pub show_sidebar: bool,
    /// Right-side properties panel visible.
    pub show_right_panel: bool,
    /// Active tab inside the right panel.
    pub right_panel_tab: RightPanelTab,
    /// Stats overlay floating window visible.
    pub show_stats_overlay: bool,
    /// Settings dialog visible.
    pub show_settings_dialog: bool,
    /// Loading overlay visible.
    pub show_loading_overlay: bool,
    /// Remembered sidebar width, in logical pixels.
    pub sidebar_width: u32,
    /// Remembered right panel width, in logical pixels.
    pub right_panel_width: u32,
}

impl Default for UiState {
    fn default() -> (r: Self)
        ensures
            !r.show_sidebar,
            !r.show_right_panel,
            r.right_panel_tab == RightPanelTab::Info,
            r.show_stats_overlay,
            !r.show_settings_dialog,
            !r.show_loading_overlay,
            r.sidebar_width == 280,
            r.right_panel_width == 320,
    {
        UiState {
            show_sidebar: false,
            show_right_panel: false,
            right_panel_tab: RightPanelTab::Info,
            show_stats_overlay: true,
            show_settings_dialog: false,
            show_loading_overlay: false,
            sidebar_width: 280,
            right_panel_width: 320,
        }
    }
}

/// The state after the right panel is toggled for `tab`.
pub open spec fn spec_toggle_right_panel(s: UiState, tab: RightPanelTab) -> UiState {
    if s.show_right_panel && s.right_panel_tab == tab {
        UiState { show_right_panel: false, ..s }
    } else {
        UiState { show_right_panel: true, right_panel_tab: tab, ..s }
    }
}

/// Toggle the right panel. If the requested tab is already active and the panel
/// is visible, hide the panel; otherwise show the panel with the requested tab.
pub fn toggle_right_panel(state: &mut UiState, tab: RightPanelTab)
    ensures
        *final(state) == spec_toggle_right_panel(*old(state), tab),
{
    if state.show_right_panel && state.right_panel_tab == tab {
        state.show_right_panel = false;
    } else {
        state.show_right_panel = true;
        state.right_panel_tab = tab;
    }
}

/// After a toggle, the panel shows `tab` exactly when it was not showing
/// `tab` before; nothing but the panel's visibility and tab changes.
pub proof fn law_toggle_shows_tab_iff_not_shown(s: UiState, tab: RightPanelTab)
    ensures
        ({
            let t = spec_toggle_right_panel(s, tab);
            &&& (t.show_right_panel && t.right_panel_tab == tab) <==> !(s.show_right_panel
                && s.right_panel_tab == tab)
            &&& t.right_panel_tab == tab
            &&& t.show_sidebar == s.show_sidebar
            &&& t.show_stats_overlay == s.show_stats_overlay
            &&& t.show_settings_dialog == s.show_settings_dialog
            &&& t.show_loading_overlay == s.show_loading_overlay
            &&& t.sidebar_width == s.sidebar_width
            &&& t.right_panel_width == s.right_panel_width
        }),
{
}

/// Toggling the same tab twice restores the state whenever that tab was the
/// active one.
pub proof fn law_toggle_twice_restores(s: UiState, tab: RightPanelTab)
    requires
        s.right_panel_tab == tab,
    ensures
        spec_toggle_right_panel(spec_toggle_right_panel(s, tab), tab) == s,
{
}

} // verus!
