//! Phases of a game session.

use vstd::prelude::*;

verus! {

/// Where a session is: loading the catalog folders, loading the catalogs,
/// or running the simulation.
#[derive(Debug, Clone, Copy, PartialEq, Eq, Structural, Hash)]
pub enum AppState {
    LoadingAssetFolders,
    LoadingAssets,
    InGame,
}

impl Default for AppState {
    /// A session starts by loading its catalog folders.
    fn default() -> (r: AppState)
        ensures
            r == AppState::LoadingAssetFolders,
    {
        AppState::LoadingAssetFolders
    }
}

} // verus!
