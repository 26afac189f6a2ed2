//! Coordination of the native file dialogs with the rest of the application:
//! at most one dialog is open at a time, and what a dialog returns is routed
//! by the kind of dialog that was opened.

use vstd::prelude::*;
use crate::events::UiAction;
use crate::file_browser::{open_directory, FileBrowserState};
use crate::ui_state::UiState;

verus! {

/// What kind of dialog was opened.
#[derive(PartialEq, Eq, Structural, Clone, Copy, Debug)]
pub enum DialogKind {
    OpenFile,
    OpenDirectory,
    BrowseBlender,
}

/// The dialog currently waiting for the user, if any.
#[derive(Debug)]
pub struct FileDialogState {
    pub pending: Option<DialogKind>,
}

impl Default for FileDialogState {
    fn default() -> (r: Self)
        ensures
            r.pending is None,
    {
        FileDialogState { pending: None }
    }
}

/// The waiting dialog after a request for `kind`, and whether the request
/// opened a dialog.
pub open spec fn spec_request_dialog(pending: Option<DialogKind>, kind: DialogKind) -> (
    Option<DialogKind>,
    bool,
) {
    if pending is None {
        (Some(kind), true)
    } else {
        (pending, false)
    }
}

/// Ask to open a dialog of `kind`. It opens (and the call returns `true`)
/// only when no other dialog is waiting.
pub fn request_dialog(dialog_state: &mut FileDialogState, kind: DialogKind) -> (open: bool)
    ensures
        (final(dialog_state).pending, open) == spec_request_dialog(old(dialog_state).pending, kind),
{
    if dialog_state.pending.is_some() {
        return false;
    }
    dialog_state.pending = Some(kind);
    true
}

/// Ask for the dialog that picks the Blender executable: it opens (and the
/// call returns `true`) only when no other dialog is waiting.
pub fn spawn_blender_browse_dialog(dialog_state: &mut FileDialogState) -> (open: bool)
    ensures
        (final(dialog_state).pending, open) == spec_request_dialog(
            old(dialog_state).pending,
            DialogKind::BrowseBlender,
        ),
{
    request_dialog(dialog_state, DialogKind::BrowseBlender)
}

/// What must happen outside the library after a UI action.
#[derive(Debug)]
pub enum ActionEffect {
    /// Show a native dialog of this kind.
    SpawnDialog(DialogKind),
    /// Load the model at this path.
    LoadModel(String),
    /// Nothing beyond the state changes already made.
    Nothing,
}

/// Handle one UI action that concerns files: dialog requests open a dialog
/// unless one is waiting, a chosen file is loaded, and a chosen directory
/// becomes the browser's root with the sidebar shown. Other actions have no
/// effect here.
pub fn handle_file_action(
    action: UiAction,
    dialog_state: &mut FileDialogState,
    browser: &mut FileBrowserState,
    ui_state: &mut UiState,
) -> (effect: ActionEffect)
    ensures
        match action {
            UiAction::OpenFileDialog => {
                &&& old(dialog_state).pending is None ==> final(dialog_state).pending == Some(
                    DialogKind::OpenFile,
                ) && effect == ActionEffect::SpawnDialog(DialogKind::OpenFile)
                &&& old(dialog_state).pending is Some ==> final(dialog_state).pending == old(
                    dialog_state,
                ).pending && effect is Nothing
                &&& *final(browser) == *old(browser)
                &&& *final(ui_state) == *old(ui_state)
            },
            UiAction::OpenDirectoryDialog => {
                &&& old(dialog_state).pending is None ==> final(dialog_state).pending == Some(
                    DialogKind::OpenDirectory,
                ) && effect == ActionEffect::SpawnDialog(DialogKind::OpenDirectory)
                &&& old(dialog_state).pending is Some ==> final(dialog_state).pending == old(
                    dialog_state,
                ).pending && effect is Nothing
                &&& *final(browser) == *old(browser)
                &&& *final(ui_state) == *old(ui_state)
            },
            UiAction::OpenFile(path) => {
                &&& effect == ActionEffect::LoadModel(path)
                &&& final(dialog_state).pending == old(dialog_state).pending
                &&& *final(browser) == *old(browser)
                &&& *final(ui_state) == *old(ui_state)
            },
            UiAction::OpenDirectory(path) => {
                &&& effect is Nothing
                &&& final(dialog_state).pending == old(dialog_state).pending
                &&& opened_directory(*old(browser), *final(browser), path@)
                &&& *final(ui_state) == (UiState { show_sidebar: true, ..*old(ui_state) })
            },
            _ => {
                &&& effect is Nothing
                &&& final(dialog_state).pending == old(dialog_state).pending
                &&& *final(browser) == *old(browser)
                &&& *final(ui_state) == *old(ui_state)
            },
        },
{
    match action {
        UiAction::OpenFileDialog => {
            if request_dialog(dialog_state, DialogKind::OpenFile) {
                ActionEffect::SpawnDialog(DialogKind::OpenFile)
            } else {
                ActionEffect::Nothing
            }
        },
        UiAction::OpenDirectoryDialog => {
            if request_dialog(dialog_state, DialogKind::OpenDirectory) {
                ActionEffect::SpawnDialog(DialogKind::OpenDirectory)
            } else {
                ActionEffect::Nothing
            }
        },
        UiAction::OpenFile(path) => ActionEffect::LoadModel(path),
        UiAction::OpenDirectory(path) => {
            open_directory(browser, ui_state, path);
            ActionEffect::Nothing
        },
        _ => ActionEffect::Nothing,
    }
}

/// `after` is `before` with `path` opened as the browser's root, as
/// `open_directory` describes it.
pub open spec fn opened_directory(
    before: FileBrowserState,
    after: FileBrowserState,
    path: Seq<char>,
) -> bool {
    &&& after.wf()
    &&& after.root_path matches Some(r) && r@ == path
    &&& after.tree_nodes@.len() == 1
    &&& after.tree_nodes@[0].name@ == crate::file_browser::spec_root_name(path)
    &&& after.tree_nodes@[0].path@ == path
    &&& after.tree_nodes@[0].is_directory
    &&& !after.tree_nodes@[0].is_loaded
    &&& after.tree_nodes@[0].size == 0
    &&& after.tree_nodes@[0].modified == 0
    &&& after.tree_nodes@[0].depth == 0
    &&& after.tree_nodes@[0].children@.len() == 0
    &&& crate::file_browser::path_views(after.expanded_dirs@) == seq![path]
    &&& after.search_query == before.search_query
    &&& after.show_only_3d_files == before.show_only_3d_files
    &&& after.show_directories == before.show_directories
    &&& after.sort_field == before.sort_field
    &&& after.sort_ascending == before.sort_ascending
    &&& after.selected_path == before.selected_path
}

/// What the waiting dialog has to report.
#[derive(Debug)]
pub enum DialogPoll {
    /// The user picked this path.
    Picked(String),
    /// The user closed the dialog without a choice.
    Cancelled,
    /// The dialog is still open.
    Waiting,
    /// The dialog went away without an answer.
    Disconnected,
}

/// What must happen outside the library after a dialog answered.
#[derive(Debug)]
pub enum PollEffect {
    /// Load the model at this path.
    LoadModel(String),
    /// Remember this path as the Blender executable.
    SetBlenderPath(String),
    /// Nothing beyond the state changes already made.
    Nothing,
}

/// Route the answer of the waiting dialog: a picked file is loaded, a picked
/// directory opened in the browser, a picked Blender path remembered. Any
/// answer but `Waiting` closes the dialog. Without a waiting dialog nothing
/// happens.
pub fn handle_dialog_poll(
    poll: DialogPoll,
    dialog_state: &mut FileDialogState,
    browser: &mut FileBrowserState,
    ui_state: &mut UiState,
) -> (effect: PollEffect)
    ensures
        final(dialog_state).pending == spec_pending_after_poll(old(dialog_state).pending, poll),
        old(dialog_state).pending is None ==> effect is Nothing
            && *final(browser) == *old(browser) && *final(ui_state) == *old(ui_state),
        old(dialog_state).pending is Some ==> match poll {
            DialogPoll::Waiting => {
                &&& final(dialog_state).pending == old(dialog_state).pending
                &&& effect is Nothing
                &&& *final(browser) == *old(browser)
                &&& *final(ui_state) == *old(ui_state)
            },
            DialogPoll::Picked(path) => {
                &&& final(dialog_state).pending is None
                &&& match old(dialog_state).pending->0 {
                    DialogKind::OpenFile => {
                        &&& effect == PollEffect::LoadModel(path)
                        &&& *final(browser) == *old(browser)
                        &&& *final(ui_state) == *old(ui_state)
                    },
                    DialogKind::OpenDirectory => {
                        &&& effect is Nothing
                        &&& opened_directory(*old(browser), *final(browser), path@)
                        &&& *final(ui_state) == (UiState { show_sidebar: true, ..*old(ui_state) })
                    },
                    DialogKind::BrowseBlender => {
                        &&& effect == PollEffect::SetBlenderPath(path)
                        &&& *final(browser) == *old(browser)
                        &&& *final(ui_state) == *old(ui_state)
                    },
                }
            },
            _ => {
                &&& final(dialog_state).pending is None
                &&& effect is Nothing
                &&& *final(browser) == *old(browser)
                &&& *final(ui_state) == *old(ui_state)
            },
        },
{
    let kind = match dialog_state.pending {
        Some(k) => k,
        None => {
            return PollEffect::Nothing;
        },
    };
    match poll {
        DialogPoll::Waiting => PollEffect::Nothing,
        DialogPoll::Picked(path) => {
            dialog_state.pending = None;
            match kind {
                DialogKind::OpenFile => PollEffect::LoadModel(path),
                DialogKind::OpenDirectory => {
                    open_directory(browser, ui_state, path);
                    PollEffect::Nothing
                },
                DialogKind::BrowseBlender => PollEffect::SetBlenderPath(path),
            }
        },
        _ => {
            dialog_state.pending = None;
            PollEffect::Nothing
        },
    }
}

/// The waiting dialog after the dialog reported `poll`: any answer but
/// `Waiting` closes it.
pub open spec fn spec_pending_after_poll(pending: Option<DialogKind>, poll: DialogPoll) -> Option<
    DialogKind,
> {
    if poll is Waiting {
        pending
    } else {
        None
    }
}

/// At most one dialog waits at a time: after a request, whatever was waiting
/// before, a second request opens nothing and leaves the waiting dialog as it
/// is.
pub proof fn law_one_dialog_at_a_time(pending: Option<DialogKind>, first: DialogKind, second: DialogKind)
    ensures
        spec_request_dialog(pending, first).0 is Some,
        spec_request_dialog(spec_request_dialog(pending, first).0, second) == (
            spec_request_dialog(pending, first).0,
            false,
        ),
{
}

/// Once the waiting dialog has answered (picked, cancelled or gone), the next
/// request opens a dialog again.
pub proof fn law_answer_frees_dialog_slot(pending: Option<DialogKind>, poll: DialogPoll, kind: DialogKind)
    requires
        !(poll is Waiting),
    ensures
        spec_request_dialog(spec_pending_after_poll(pending, poll), kind) == (Some(kind), true),
{
}

} // verus!
