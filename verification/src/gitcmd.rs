//! The git invocations of the template store, as data.
//!
//! The store's refresh protocol drives git through four subcommands.  This
//! module builds the exact argument list of each; running the commands is
//! the caller's concern.

use vstd::prelude::*;

verus! {

/// The remote repository that holds the templates: where it lives, which
/// branch to use, and the subdirectory of the working tree to check out.
pub struct GitRepository {
    pub url: String,
    pub branch: String,
    pub directory: String,
}

/// The arguments that ask git for its version, used to probe whether git
/// is installed at all.
pub fn version_args() -> (r: Vec<String>)
    ensures
        r@.len() == 1,
        r@[0]@ == "--version"@,
{
    let mut r: Vec<String> = Vec::new();
    r.push("--version".to_owned());
    r
}

/// The arguments of a blob-filtered, sparse clone of `origin`, optionally
/// into the directory `destination`.
pub fn clone_args(origin: &str, destination: Option<&str>) -> (r: Vec<String>)
    ensures
        match destination {
            Some(d) => r@.len() == 5 && r@[4]@ == d@,
            None => r@.len() == 4,
        },
        r@[0]@ == "clone"@,
        r@[1]@ == "--filter=blob:none"@,
        r@[2]@ == "--sparse"@,
        r@[3]@ == origin@,
{
    let mut r: Vec<String> = Vec::new();
    r.push("clone".to_owned());
    r.push("--filter=blob:none".to_owned());
    r.push("--sparse".to_owned());
    r.push(origin.to_owned());
    match destination {
        Some(d) => {
            r.push(d.to_owned());
        },
        None => {},
    }
    r
}

/// The arguments that initialize sparse checkout in cone mode.
pub fn sparse_checkout_init_args() -> (r: Vec<String>)
    ensures
        r@.len() == 3,
        r@[0]@ == "sparse-checkout"@,
        r@[1]@ == "init"@,
        r@[2]@ == "--cone"@,
{
    let mut r: Vec<String> = Vec::new();
    r.push("sparse-checkout".to_owned());
    r.push("init".to_owned());
    r.push("--cone".to_owned());
    r
}

/// The arguments that restrict the sparse checkout to `path`.
pub fn sparse_checkout_set_args(path: &str) -> (r: Vec<String>)
    ensures
        r@.len() == 3,
        r@[0]@ == "sparse-checkout"@,
        r@[1]@ == "set"@,
        r@[2]@ == path@,
{
    let mut r: Vec<String> = Vec::new();
    r.push("sparse-checkout".to_owned());
    r.push("set".to_owned());
    r.push(path.to_owned());
    r
}

} // verus!
