//! The application's configuration: its name-derived local paths and the
//! remote template repository, together with the template store's refresh
//! protocol.
//!
//! The store keeps a local cache of the remote templates.  Refreshing it
//! means: check that git is installed, make sure the local data and scratch
//! directories exist, run the clone and sparse-checkout commands (the
//! caller's concern, see [`crate::gitcmd`]), and finally move the checked
//! out templates into the cache ([`Config::install_templates`]).

use vstd::prelude::*;

use crate::error::Error;
use crate::fstree::Fs;
use crate::fstree::Item;
use crate::fstree::clone_path;
use crate::fstree::copy_dir_all;
use crate::fstree::copy_ok;
use crate::fstree::copy_spec;
use crate::fstree::create_dir_all;
use crate::fstree::dirs_to;
use crate::fstree::dirs_to_ok;
use crate::fstree::path_view;
use crate::fstree::recreate_dir;
use crate::fstree::recreate_spec;
use crate::fstree::remove_except_spec;
use crate::fstree::remove_files_except;
use crate::fstree::string_copy;
use crate::gitcmd::GitRepository;

verus! {

/// The process-wide configuration: the application's name, the three local
/// paths derived from it, and the remote template repository.
pub struct Config {
    pub name: String,
    pub local_data_dir: Vec<String>,
    pub templates_dir: Vec<String>,
    pub temp_dir: Vec<String>,
    pub git_repository: GitRepository,
}

impl Config {
    /// The paths hang together: the templates cache and the scratch
    /// directory are subdirectories of the local data directory, which
    /// itself ends in the application's name.
    pub open spec fn wf(&self) -> bool {
        &&& self.local_data_dir@.len() >= 1
        &&& self.local_data_dir@.last()@ == self.name@
        &&& path_view(self.templates_dir@) == path_view(self.local_data_dir@) + seq![
            "templates"@,
        ]
        &&& path_view(self.temp_dir@) == path_view(self.local_data_dir@) + seq![".tmp"@]
    }

    /// The configuration for application `app_name`, its data rooted at
    /// the directory `root`.
    pub fn with_root(root: &Vec<String>, app_name: &str, git_repository: GitRepository) -> (r:
        Config)
        ensures
            r.wf(),
            r.name@ == app_name@,
            r.git_repository == git_repository,
            path_view(r.local_data_dir@) == path_view(root@) + seq![app_name@],
    {
        let mut local_data_dir = clone_path(root);
        local_data_dir.push(app_name.to_owned());
        let mut templates_dir = clone_path(&local_data_dir);
        templates_dir.push("templates".to_owned());
        let mut temp_dir = clone_path(&local_data_dir);
        temp_dir.push(".tmp".to_owned());
        let r = Config { name: app_name.to_owned(), local_data_dir, templates_dir, temp_dir, git_repository };
        proof {
            assert(path_view(r.local_data_dir@) =~= path_view(root@) + seq![app_name@]);
            assert(path_view(r.templates_dir@) =~= path_view(r.local_data_dir@) + seq![
                "templates"@,
            ]);
            assert(path_view(r.temp_dir@) =~= path_view(r.local_data_dir@) + seq![".tmp"@]);
        }
        r
    }

    /// The configuration for application `app_name`, its data rooted at
    /// the operating system's local-data directory.  Fails when the
    /// operating system defines no such place.
    pub fn new(app_name: &str, git_repository: GitRepository) -> (r: Result<Config, Error>)
        ensures
            r matches Ok(c) ==> c.wf() && c.name@ == app_name@ && c.git_repository
                == git_repository,
            r matches Err(e) ==> e is MissingLocalDataDir,
    {
        match os_local_data_dir() {
            Some(root) => Ok(Self::with_root(&root, app_name, git_repository)),
            None => Err(Error::MissingLocalDataDir),
        }
    }

    /// The remote repository the templates come from.
    pub fn git_repository(&self) -> (r: &GitRepository)
        ensures
            *r == self.git_repository,
    {
        &self.git_repository
    }

    /// The application's name.
    pub fn name(&self) -> (r: &str)
        ensures
            r@ == self.name@,
    {
        self.name.as_str()
    }

    /// The application's local data directory.
    pub fn local_data_dir(&self) -> (r: &Vec<String>)
        ensures
            *r == self.local_data_dir,
    {
        &self.local_data_dir
    }

    /// The local cache of templates.
    pub fn templates_dir(&self) -> (r: &Vec<String>)
        ensures
            *r == self.templates_dir,
    {
        &self.templates_dir
    }

    /// The scratch directory the remote repository is cloned into.
    pub fn temp_dir(&self) -> (r: &Vec<String>)
        ensures
            *r == self.temp_dir,
    {
        &self.temp_dir
    }

    /// The refresh protocol's first decision: without git on the PATH, the
    /// store cannot be synced.
    pub fn check_git(installed: bool) -> (r: Result<(), Error>)
        ensures
            r is Ok <==> installed,
            r matches Err(e) ==> e is MissingGitInstallation,
    {
        if installed {
            Ok(())
        } else {
            Err(Error::MissingGitInstallation)
        }
    }

    /// The tree after the local data and scratch directories are created.
    pub open spec fn prepare_dirs_spec(&self, m: Map<Seq<Seq<char>>, Item>) -> Map<
        Seq<Seq<char>>,
        Item,
    > {
        dirs_to(dirs_to(m, path_view(self.local_data_dir@)), path_view(self.temp_dir@))
    }

    /// When preparing the two directories succeeds: no file blocks either.
    pub open spec fn prepare_dirs_ok(&self, m: Map<Seq<Seq<char>>, Item>) -> bool {
        &&& dirs_to_ok(m, path_view(self.local_data_dir@))
        &&& dirs_to_ok(
            dirs_to(m, path_view(self.local_data_dir@)),
            path_view(self.temp_dir@),
        )
    }

    /// Makes sure the local data directory and the scratch directory
    /// exist, creating whatever is missing.
    pub fn prepare_sync_dirs(&self, fs: &mut Fs) -> (r: Result<(), Error>)
        requires
            old(fs).wf(),
            self.wf(),
        ensures
            final(fs).wf(),
            r is Ok <==> self.prepare_dirs_ok(old(fs)@),
            r is Ok ==> final(fs)@ == self.prepare_dirs_spec(old(fs)@),
            r matches Err(e) ==> e is Io,
    {
        proof {
            assert(self.temp_dir@.len() >= 1) by {
                assert(path_view(self.temp_dir@).len() == self.temp_dir@.len());
            }
        }
        match create_dir_all(fs, &self.local_data_dir) {
            Ok(()) => {},
            Err(e) => {
                return Err(e);
            },
        }
        create_dir_all(fs, &self.temp_dir)
    }

    /// The tree after the checked out templates are installed into the
    /// cache: the cache recreated empty, the scratch tree cleaned down to
    /// its `templates` subdirectory, and that subdirectory copied in.
    pub open spec fn install_templates_spec(&self, m: Map<Seq<Seq<char>>, Item>) -> Map<
        Seq<Seq<char>>,
        Item,
    > {
        let m1 = recreate_spec(m, path_view(self.templates_dir@));
        let m2 = remove_except_spec(m1, path_view(self.temp_dir@), seq!["templates"@]);
        copy_spec(
            m2,
            path_view(self.temp_dir@) + seq![self.git_repository.directory@],
            path_view(self.templates_dir@),
        )
    }

    /// When installing succeeds: the cache can be recreated, the scratch
    /// directory exists, and its checked out subdirectory can be copied.
    pub open spec fn install_templates_ok(&self, m: Map<Seq<Seq<char>>, Item>) -> bool {
        let m1 = recreate_spec(m, path_view(self.templates_dir@));
        let m2 = remove_except_spec(m1, path_view(self.temp_dir@), seq!["templates"@]);
        &&& dirs_to_ok(m, path_view(self.templates_dir@))
        &&& m1.dom().contains(path_view(self.temp_dir@)) && m1[path_view(self.temp_dir@)]
            is Dir
        &&& copy_ok(
            m2,
            path_view(self.temp_dir@) + seq![self.git_repository.directory@],
            path_view(self.templates_dir@),
        )
    }

    /// Installs the templates checked out in the scratch directory into
    /// the cache: the cache is recreated from scratch, everything but the
    /// `templates` subdirectory is removed from the scratch tree, and the
    /// checked out subdirectory is copied into the cache.
    pub fn install_templates(&self, fs: &mut Fs) -> (r: Result<(), Error>)
        requires
            old(fs).wf(),
            self.wf(),
        ensures
            final(fs).wf(),
            r is Ok <==> self.install_templates_ok(old(fs)@),
            r is Ok ==> final(fs)@ == self.install_templates_spec(old(fs)@),
            r matches Err(e) ==> e is Io || e is NotADirectory,
    {
        proof {
            assert(self.templates_dir@.len() >= 1 && self.temp_dir@.len() >= 1) by {
                assert(path_view(self.templates_dir@).len() == self.templates_dir@.len());
                assert(path_view(self.temp_dir@).len() == self.temp_dir@.len());
            }
        }
        match recreate_dir(fs, &self.templates_dir) {
            Ok(()) => {},
            Err(e) => {
                return Err(e);
            },
        }
        let mut keep: Vec<String> = Vec::new();
        keep.push("templates".to_owned());
        proof {
            assert(path_view(keep@) =~= seq!["templates"@]);
        }
        match remove_files_except(fs, &self.temp_dir, &keep) {
            Ok(()) => {},
            Err(e) => {
                return Err(e);
            },
        }
        let mut checkout = clone_path(&self.temp_dir);
        checkout.push(string_copy(&self.git_repository.directory));
        proof {
            assert(path_view(checkout@) =~= path_view(self.temp_dir@) + seq![
                self.git_repository.directory@,
            ]);
        }
        copy_dir_all(fs, &checkout, &self.templates_dir)
    }
}

/// Relies on `dirs::data_local_dir`: the operating system's standard
/// local-data directory, if it defines one, handed out as its list of path
/// components.  What comes back depends on the environment, so nothing is
/// promised of it.
#[verifier::external_body]
fn os_local_data_dir() -> (r: Option<Vec<String>>) {
    dirs::data_local_dir().map(
        |p| p.components().map(|c| c.as_os_str().to_string_lossy().into_owned()).collect(),
    )
}

} // verus!
