use vstd::prelude::*;

verus! {

/// The error cases of the scaffolding library.
///
/// Path-carrying variants hold the path as its list of components.
#[derive(Debug)]
pub enum Error {
    /// The git executable could not be resolved on the current PATH.
    MissingGitInstallation,
    /// A directory was expected at `path`, but something else is there.
    NotADirectory { path: Vec<String> },
    /// A directory at `path` was expected to be empty, but is not.
    DirectoryNotEmpty { path: Vec<String> },
    /// A string could not be parsed into a project kind.
    InvalidProjectKind { kind: String },
    /// A string could not be parsed into a CI provider.
    InvalidProjectCiProvider { provider: String },
    /// The standard local-data location of the operating system could not
    /// be resolved.
    MissingLocalDataDir,
    /// A filesystem operation failed at `path`: the path is missing, or an
    /// entry of the wrong kind is in the way.
    Io { path: Vec<String> },
}

} // verus!
