//! The values behind the `new` command's arguments, and the decision they
//! drive: which project type to scaffold.

use vstd::prelude::*;

use crate::project::CI;
use crate::project::ProjectType;

verus! {

/// The mutually exclusive type flags of the `new` command; with neither
/// set, a standalone project is scaffolded.
pub struct ProjectKind {
    /// Scaffold a standalone project (the default).
    pub standalone: bool,
    /// Scaffold a workspace project.
    pub workspace: bool,
}

impl Default for ProjectKind {
    /// Neither flag set: the standalone default.
    fn default() -> (r: ProjectKind)
        ensures
            !r.standalone,
            !r.workspace,
    {
        ProjectKind { standalone: false, workspace: false }
    }
}

/// The arguments of the `new` command: the project's name, where to put
/// it, its kind, and the extras to set up.
pub struct NewProjectArgs {
    /// The name of the project.
    pub name: String,
    /// The directory where project files will be generated; the caller's
    /// working directory when absent.
    pub root_dir: Option<Vec<String>>,
    /// The continuous-integration provider to set up, if any.
    pub setup_ci: Option<CI>,
    /// Whether to add container setup to the generated project.
    pub setup_docker: bool,
    /// The requested project kind.
    pub project_kind: ProjectKind,
}

impl NewProjectArgs {
    /// The project type the flags ask for: a workspace only when the
    /// workspace flag stands alone, a standalone project otherwise.
    pub fn project_type(&self) -> (r: ProjectType)
        ensures
            r == (if self.project_kind.workspace && !self.project_kind.standalone {
                ProjectType::Workspace
            } else {
                ProjectType::Standalone
            }),
    {
        if self.project_kind.workspace && !self.project_kind.standalone {
            ProjectType::Workspace
        } else {
            ProjectType::Standalone
        }
    }
}

} // verus!
