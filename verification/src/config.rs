//! The build's configuration, as the orchestrator hands it to the core:
//! plain paths and names. Reading it from disk, and the serialised form,
//! live with the callers.

use vstd::prelude::*;

verus! {

/// Where the inputs come from.
pub struct Src {
    /// The compiled module's source directory, when the caller builds it.
    pub src: Option<String>,
    /// The original game image.
    pub iso: String,
    /// The hand-written patch's text.
    pub patch: Option<String>,
    /// The game's legacy symbol map inside the image.
    pub map: Option<String>,
}

/// The banner's replacement texts and image.
pub struct Info {
    pub game_name: Option<String>,
    pub developer_name: Option<String>,
    pub full_game_name: Option<String>,
    pub full_developer_name: Option<String>,
    pub description: Option<String>,
    pub image: Option<String>,
}

/// Where the outputs go.
pub struct Build {
    /// The fresh build's symbol map, when one is wanted.
    pub map: Option<String>,
    /// The patched game image.
    pub iso: String,
}

/// What the linker is given.
pub struct Link {
    /// The entry symbols the patch calls into.
    pub entries: Vec<String>,
    /// The base load address, as a literal.
    pub base: String,
    /// Further archives to link after the compiled module.
    pub libs: Option<Vec<String>>,
}

/// One build invocation's whole configuration.
pub struct Config {
    pub info: Info,
    pub src: Src,
    /// Image paths replaced from local files: `(path in image, local path)`.
    pub files: Vec<(String, String)>,
    pub build: Build,
    pub link: Link,
}

} // verus!
