//! The configuration of a repository.

use vstd::prelude::*;

verus! {

/// The configuration of a repository and the path of the file that holds it.
#[derive(Debug, Clone, PartialEq)]
pub struct Config {
    pub path: String,
    pub contents: ConfigContents,
}

/// What a configuration file holds.
#[derive(Debug, Clone, PartialEq)]
pub struct ConfigContents {
    pub core: CoreContents,
}

/// The core section of a configuration.
#[derive(Debug, Clone, Copy, PartialEq, Eq, Structural)]
pub struct CoreContents {
    pub repository_format_version: i8,
    pub filemode: bool,
    pub bare: bool,
}

impl CoreContents {
    /// The core section of a fresh repository: format 0, no file modes, not
    /// bare.
    pub fn new() -> (core: Self)
        ensures
            core == (CoreContents { repository_format_version: 0, filemode: false, bare: false }),
    {
        CoreContents { repository_format_version: 0, filemode: false, bare: false }
    }
}

impl Config {
    /// The configuration of a fresh repository, to be kept at `path`.
    pub fn new(path: String) -> (config: Self)
        ensures
            config.path == path,
            config.contents.core == (CoreContents {
                repository_format_version: 0,
                filemode: false,
                bare: false,
            }),
    {
        Config { path, contents: ConfigContents { core: CoreContents::new() } }
    }
}

} // verus!
