//! Core logic of a desktop 3D model viewer: file-type detection, display
//! formatting, file-browser tree state, UI panel state, keyboard shortcut
//! decisions and skeleton topology, each with a machine-checked contract.

pub mod text;
pub mod file_utils;
pub mod format_helpers;
pub mod render_mode;
pub mod render_plan;
pub mod ui_state;
pub mod events;
pub mod shortcuts;
pub mod file_browser;
pub mod listing_order;
pub mod model_import;
pub mod mesh_stats;
pub mod skeleton;
pub mod bone_order;
pub mod file_state;
pub mod dialogs;
