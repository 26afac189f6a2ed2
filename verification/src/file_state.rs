//! The currently opened file and directory.

use vstd::prelude::*;
use crate::file_utils::{path_parent, unix_parent};

verus! {

/// Tracks the currently opened file and directory.
#[derive(Debug)]
pub struct FileState {
    /// Full path to the currently loaded model file.
    pub current_file_path: Option<String>,
    /// Directory currently shown in the file browser.
    pub current_directory: Option<String>,
    /// Display name of the currently loaded file.
    pub file_name: Option<String>,
}

impl Default for FileState {
    fn default() -> (r: Self)
        ensures
            r.current_file_path is None,
            r.current_directory is None,
            r.file_name is None,
    {
        FileState { current_file_path: None, current_directory: None, file_name: None }
    }
}

/// Record a successfully loaded model: its path, its display name, and its
/// parent directory when the path has one (otherwise the directory is kept).
pub fn record_loaded_file(state: &mut FileState, path: String, file_name: String)
    ensures
        final(state).current_file_path == Some(path),
        final(state).file_name == Some(file_name),
        match unix_parent(path@) {
            Some(d) => final(state).current_directory matches Some(c) && c@ == d,
            None => final(state).current_directory == old(state).current_directory,
        },
{
    let parent = path_parent(path.as_str());
    state.current_file_path = Some(path);
    state.file_name = Some(file_name);
    match parent {
        Some(d) => {
            state.current_directory = Some(d);
        },
        None => {},
    }
}

} // verus!
