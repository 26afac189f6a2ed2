//! Messages passed between the parts of the application.

use vstd::prelude::*;
use crate::render_mode::RenderMode;
use crate::ui_state::RightPanelTab;

verus! {

/// High-level UI actions emitted by toolbar buttons, shortcuts, etc.
/// Paths are carried as text.
#[derive(Clone, Debug)]
pub enum UiAction {
    OpenFile(String),
    OpenDirectory(String),
    OpenFileDialog,
    OpenDirectoryDialog,
    SetRenderMode(RenderMode),
    ToggleSidebar,
    ToggleRightPanel(RightPanelTab),
    OpenInBlender,
    OpenSettings,
    ResetCamera,
    FitToView,
}

/// Request to load a model from the given path.
#[derive(Debug)]
pub struct ModelLoadRequest {
    pub path: String,
}

/// Fired when model loading fails.
#[derive(Debug)]
pub struct ModelLoadError {
    pub error: String,
}

} // verus!
