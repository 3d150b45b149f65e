//! The command-line verbs, as plain data; reading them from the command
//! line lives with the callers.

use vstd::prelude::*;

verus! {

/// What the user asked for.
pub enum Opt {
    /// Builds the whole hack.
    Build {
        /// Compile in debug mode.
        debug: bool,
        /// Emit a patch file instead of an image.
        patch: bool,
    },
    /// Applies a patch file to an original game.
    Apply { patch: String, original_game: String, output: String },
    /// Creates a new project with the given name.
    New { name: String },
}

} // verus!
