//! Projects and the builder that scaffolds them.
//!
//! A [`Project`] is a name, a kind, a target directory and a set of extras.
//! [`ProjectBuilder`] is the fluent way to describe one; its [`build`]
//! (ProjectBuilder::build) copies the right template subtrees into the
//! target, and [`Project::compile`] then rewrites the placeholder variables
//! in every file of the result.

use vstd::prelude::*;

use crate::config::Config;
use crate::error::Error;
use crate::fstree::Fs;
use crate::fstree::Item;
use crate::fstree::clone_path;
use crate::fstree::contains_path;
use crate::fstree::copy_dir_all;
use crate::fstree::copy_ok;
use crate::fstree::copy_spec;
use crate::fstree::lemma_concat_skip;
use crate::fstree::lemma_copy_preserves_files;
use crate::fstree::lemma_prefix_comparable;
use crate::fstree::lemma_prefix_transitive;
use crate::fstree::path_view;
use crate::fstree::string_copy;
use crate::interpolate::VarMap;
use crate::interpolate::replace_all_spec;
use crate::interpolate::replace_template_vars_all;
use crate::interpolate::visited_display;

verus! {

/// The type of a scaffolded project: a single crate, or a workspace of
/// crates.
#[derive(Clone, Copy, PartialEq, Eq, Structural)]
pub enum ProjectType {
    /// A standalone project.
    Standalone,
    /// A workspace project, typically containing multiple crates.
    Workspace,
}

/// The directory name under which the templates of a project type are
/// cached.
pub open spec fn type_dir_name(t: ProjectType) -> Seq<char> {
    if t is Standalone {
        "standalone"@
    } else {
        "workspace"@
    }
}

impl ProjectType {
    /// The type's name, as the template layout spells it.
    pub fn to_string(&self) -> (r: String)
        ensures
            r@ == type_dir_name(*self),
    {
        match self {
            ProjectType::Standalone => "standalone".to_owned(),
            ProjectType::Workspace => "workspace".to_owned(),
        }
    }

    /// The type a name denotes; any other string is rejected.
    pub fn from_str(s: &str) -> (r: Result<ProjectType, Error>)
        ensures
            match r {
                Ok(t) => (t is Standalone && s@ == "standalone"@) || (t is Workspace && s@
                    == "workspace"@),
                Err(e) => s@ != "standalone"@ && s@ != "workspace"@ && (e matches
                    Error::InvalidProjectKind { kind } && kind@ == s@),
            },
    {
        if str_eq(s, "standalone") {
            Ok(ProjectType::Standalone)
        } else if str_eq(s, "workspace") {
            Ok(ProjectType::Workspace)
        } else {
            Err(Error::InvalidProjectKind { kind: s.to_owned() })
        }
    }
}

/// A continuous-integration provider a project can be set up for.
#[derive(Clone, Copy, PartialEq, Eq, Structural)]
pub enum CI {
    /// GitHub Actions.
    GitHub,
}

/// The directory name under which a provider's CI templates are cached.
pub open spec fn ci_dir_name(ci: CI) -> Seq<char> {
    "github"@
}

impl CI {
    /// The provider's name, as the template layout spells it.
    pub fn to_string(&self) -> (r: String)
        ensures
            r@ == ci_dir_name(*self),
    {
        match self {
            CI::GitHub => "github".to_owned(),
        }
    }

    /// The provider a name denotes; any other string is rejected.
    pub fn from_str(s: &str) -> (r: Result<CI, Error>)
        ensures
            match r {
                Ok(ci) => ci is GitHub && s@ == "github"@,
                Err(e) => s@ != "github"@ && (e matches Error::InvalidProjectCiProvider {
                    provider,
                } && provider@ == s@),
            },
    {
        if str_eq(s, "github") {
            Ok(CI::GitHub)
        } else {
            Err(Error::InvalidProjectCiProvider { provider: s.to_owned() })
        }
    }
}

/// Whether the characters of the two strings are equal.
pub fn str_eq(a: &str, b: &str) -> (r: bool)
    ensures
        r == (a@ == b@),
{
    let x = a.to_owned();
    let y = b.to_owned();
    x == y
}

/// The optional add-ons a project can be scaffolded with.
#[derive(Clone, Copy, PartialEq, Eq, Structural)]
pub enum ProjectExtra {
    /// Container setup.
    Docker,
    /// A continuous-integration workflow.
    CI,
}

/// No extra occurs twice: the extras form a set.
pub open spec fn distinct_extras(s: Seq<ProjectExtra>) -> bool {
    forall|i: int, j: int| 0 <= i < j < s.len() ==> s[i] != s[j]
}

/// A project: its name, its type, the directory its files go to, and the
/// extras it is scaffolded with.
pub struct Project {
    pub name: String,
    pub typ: ProjectType,
    pub src_root: Vec<String>,
    pub extras: Vec<ProjectExtra>,
}

impl Project {
    /// The extras invariant: each extra at most once.
    pub open spec fn wf(&self) -> bool {
        distinct_extras(self.extras@)
    }

    /// A project with the given fields; the extras must name each variant
    /// at most once.
    pub fn new(typ: ProjectType, name: &str, src_root: &Vec<String>, extras: &Vec<
        ProjectExtra,
    >) -> (r: Project)
        requires
            distinct_extras(extras@),
        ensures
            r.wf(),
            r.typ == typ,
            r.name@ == name@,
            r.src_root@ == src_root@,
            r.extras@ == extras@,
    {
        let mut es: Vec<ProjectExtra> = Vec::new();
        let mut i: usize = 0;
        while i < extras.len()
            invariant
                i <= extras@.len(),
                es@.len() == i,
                forall|j: int| 0 <= j < i ==> es@[j] == extras@[j],
            decreases extras@.len() - i,
        {
            es.push(extras[i]);
            i += 1;
        }
        proof {
            assert(es@ =~= extras@);
        }
        Project { name: name.to_owned(), typ, src_root: clone_path(src_root), extras: es }
    }

    /// The project's type.
    pub fn typ(&self) -> (r: &ProjectType)
        ensures
            *r == self.typ,
    {
        &self.typ
    }

    /// The directory the project's files go to.
    pub fn src_root(&self) -> (r: &Vec<String>)
        ensures
            *r == self.src_root,
    {
        &self.src_root
    }

    /// The project's name.
    pub fn name(&self) -> (r: &str)
        ensures
            r@ == self.name@,
    {
        self.name.as_str()
    }

    /// The extras the project is scaffolded with.
    pub fn extras(&self) -> (r: &Vec<ProjectExtra>)
        ensures
            *r == self.extras,
    {
        &self.extras
    }

    /// Whether the given extra is present.
    pub fn has_extra(&self, extra: &ProjectExtra) -> (r: bool)
        ensures
            r == self.extras@.contains(*extra),
    {
        let mut i: usize = 0;
        let n = self.extras.len();
        while i < n
            invariant
                i <= n,
                n == self.extras@.len(),
                forall|j: int| 0 <= j < i ==> self.extras@[j] != *extra,
            decreases n - i,
        {
            if self.extras[i] == *extra {
                assert(self.extras@[i as int] == *extra);
                return true;
            }
            i += 1;
        }
        proof {
            if self.extras@.contains(*extra) {
                let j = choose|j: int| 0 <= j < self.extras@.len() && self.extras@[j] == *extra;
                assert(false);
            }
        }
        false
    }

    /// Replaces the extras wholesale; the new list must name each variant
    /// at most once.
    pub fn set_extras(&mut self, extras: Vec<ProjectExtra>)
        requires
            distinct_extras(extras@),
        ensures
            final(self).wf(),
            final(self).extras@ == extras@,
            final(self).name == old(self).name,
            final(self).typ == old(self).typ,
            final(self).src_root == old(self).src_root,
    {
        self.extras = extras;
    }

    /// Adds an extra; adding one already present changes nothing.
    pub fn add_extra(&mut self, extra: ProjectExtra)
        requires
            old(self).wf(),
        ensures
            final(self).wf(),
            old(self).extras@.contains(extra) ==> *final(self) == *old(self),
            !old(self).extras@.contains(extra) ==> final(self).extras@ == old(
                self,
            ).extras@.push(extra),
            final(self).name == old(self).name,
            final(self).typ == old(self).typ,
            final(self).src_root == old(self).src_root,
    {
        if !self.has_extra(&extra) {
            self.extras.push(extra);
            proof {
                assert forall|i: int, j: int|
                    0 <= i < j < self.extras@.len() implies self.extras@[i] != self.extras@[j] by {
                    if j == self.extras@.len() - 1 {
                        if self.extras@[i] == extra {
                            assert(old(self).extras@[i] == extra);
                            assert(old(self).extras@.contains(extra));
                        }
                    }
                }
            }
        }
    }

    /// Removes an extra if present, reporting whether it was; the other
    /// extras stay.
    pub fn remove_extra(&mut self, extra: &ProjectExtra) -> (r: bool)
        requires
            old(self).wf(),
        ensures
            final(self).wf(),
            r == old(self).extras@.contains(*extra),
            !r ==> *final(self) == *old(self),
            r ==> final(self).extras@.len() == old(self).extras@.len() - 1,
            forall|x: ProjectExtra|
                final(self).extras@.contains(x) <==> (old(self).extras@.contains(x) && x
                    != *extra),
            final(self).name == old(self).name,
            final(self).typ == old(self).typ,
            final(self).src_root == old(self).src_root,
    {
        let ghost olde = old(self).extras@;
        let mut i: usize = 0;
        let n = self.extras.len();
        while i < n
            invariant
                i <= n,
                n == self.extras@.len(),
                self == old(self),
                old(self).wf(),
                olde == self.extras@,
                forall|j: int| 0 <= j < i ==> self.extras@[j] != *extra,
            decreases n - i,
        {
            if self.extras[i] == *extra {
                assert(olde[i as int] == *extra);
                assert(olde.contains(*extra));
                self.extras.remove(i);
                proof {
                    let news = self.extras@;
                    assert(news =~= olde.subrange(0, i as int) + olde.subrange(
                        i + 1,
                        olde.len() as int,
                    ));
                    assert forall|a: int, b: int| 0 <= a < b < news.len() implies news[a]
                        != news[b] by {
                        assert(news[a] == (if a < i { olde[a] } else { olde[a + 1] }));
                        assert(news[b] == (if b < i { olde[b] } else { olde[b + 1] }));
                    }
                    assert forall|x: ProjectExtra| news.contains(x) implies (olde.contains(x) && x
                        != *extra) by {
                        let a = choose|a: int| 0 <= a < news.len() && news[a] == x;
                        if a < i {
                            assert(olde[a] == x);
                        } else {
                            assert(olde[a + 1] == x);
                        }
                    }
                    assert forall|x: ProjectExtra| olde.contains(x) && x != *extra implies
                        news.contains(x) by {
                        let a = choose|a: int| 0 <= a < olde.len() && olde[a] == x;
                        if a < i {
                            assert(news[a] == x);
                        } else {
                            assert(a != i);
                            assert(news[a - 1] == x);
                        }
                    }
                }
                return true;
            }
            i += 1;
        }
        proof {
            if olde.contains(*extra) {
                let j = choose|j: int| 0 <= j < olde.len() && olde[j] == *extra;
                assert(false);
            }
        }
        false
    }
}

/// The cached template subtree for a project type.
pub open spec fn template_dir_path(cfg: Config, t: ProjectType) -> Seq<Seq<char>> {
    path_view(cfg.templates_dir@) + seq![type_dir_name(t)]
}

/// The cached template subtree of the Docker extra.
pub open spec fn extras_docker_path(cfg: Config) -> Seq<Seq<char>> {
    path_view(cfg.templates_dir@) + seq!["extras"@, "docker"@]
}

/// The cached `.github` template subtree of a CI provider.
pub open spec fn extras_ci_path(cfg: Config, ci: CI) -> Seq<Seq<char>> {
    path_view(cfg.templates_dir@) + seq!["extras"@, "ci"@, ci_dir_name(ci), ".github"@]
}

/// Where the CI extra lands in the project: its `.github` directory.
pub open spec fn ci_target_path(p: Project) -> Seq<Seq<char>> {
    path_view(p.src_root@) + seq![".github"@]
}

/// Where a workspace's initial member lands: a directory named like the
/// project, inside the project root.
pub open spec fn member_target_path(p: Project) -> Seq<Seq<char>> {
    path_view(p.src_root@) + seq![p.name@]
}

/// The directory the templates of `project_type` are cached in.
pub fn get_template_dir(config: &Config, project_type: &ProjectType) -> (r: Vec<String>)
    ensures
        path_view(r@) == template_dir_path(*config, *project_type),
        r@.len() >= 1,
{
    let mut r = clone_path(config.templates_dir());
    r.push(project_type.to_string());
    proof {
        assert(path_view(r@) =~= template_dir_path(*config, *project_type));
    }
    r
}

/// Copies the Docker extra's templates into the project root.
pub fn setup_docker(config: &Config, fs: &mut Fs, project: &Project) -> (r: Result<(), Error>)
    requires
        old(fs).wf(),
        project.src_root@.len() >= 1,
    ensures
        final(fs).wf(),
        r is Ok <==> copy_ok(old(fs)@, extras_docker_path(*config), path_view(project.src_root@)),
        r is Ok ==> final(fs)@ == copy_spec(
            old(fs)@,
            extras_docker_path(*config),
            path_view(project.src_root@),
        ),
        r matches Err(e) ==> *final(fs) == *old(fs) && e is Io,
{
    let mut src = clone_path(config.templates_dir());
    src.push("extras".to_owned());
    src.push("docker".to_owned());
    proof {
        assert(path_view(src@) =~= extras_docker_path(*config));
    }
    copy_dir_all(fs, &src, project.src_root())
}

/// Copies the CI provider's `.github` templates into the project's
/// `.github` directory.
pub fn setup_ci(config: &Config, fs: &mut Fs, project: &Project, ci: &CI) -> (r: Result<
    (),
    Error,
>)
    requires
        old(fs).wf(),
        project.src_root@.len() >= 1,
    ensures
        final(fs).wf(),
        r is Ok <==> copy_ok(old(fs)@, extras_ci_path(*config, *ci), ci_target_path(*project)),
        r is Ok ==> final(fs)@ == copy_spec(
            old(fs)@,
            extras_ci_path(*config, *ci),
            ci_target_path(*project),
        ),
        r matches Err(e) ==> *final(fs) == *old(fs) && e is Io,
{
    let mut src = clone_path(config.templates_dir());
    src.push("extras".to_owned());
    src.push("ci".to_owned());
    src.push(ci.to_string());
    src.push(".github".to_owned());
    let mut dst = clone_path(project.src_root());
    dst.push(".github".to_owned());
    proof {
        assert(path_view(src@) =~= extras_ci_path(*config, *ci));
        assert(path_view(dst@) =~= ci_target_path(*project));
    }
    copy_dir_all(fs, &src, &dst)
}

/// When scaffolding `p` from the template cache succeeds: each copy it
/// performs, on the tree the ones before it left, succeeds.
pub open spec fn build_ok(m: Map<Seq<Seq<char>>, Item>, cfg: Config, p: Project) -> bool {
    let rootv = path_view(p.src_root@);
    let ok1 = copy_ok(m, template_dir_path(cfg, p.typ), rootv);
    let m1 = copy_spec(m, template_dir_path(cfg, p.typ), rootv);
    let ok2 = (p.typ is Workspace ==> copy_ok(
        m1,
        template_dir_path(cfg, ProjectType::Standalone),
        member_target_path(p),
    ));
    let m2 = if p.typ is Workspace {
        copy_spec(m1, template_dir_path(cfg, ProjectType::Standalone), member_target_path(p))
    } else {
        m1
    };
    let ok3 = (p.extras@.contains(ProjectExtra::Docker) ==> copy_ok(
        m2,
        extras_docker_path(cfg),
        rootv,
    ));
    let m3 = if p.extras@.contains(ProjectExtra::Docker) {
        copy_spec(m2, extras_docker_path(cfg), rootv)
    } else {
        m2
    };
    let ok4 = (p.extras@.contains(ProjectExtra::CI) ==> copy_ok(
        m3,
        extras_ci_path(cfg, CI::GitHub),
        ci_target_path(p),
    ));
    ok1 && ok2 && ok3 && ok4
}

/// The tree after scaffolding `p`: the type's template subtree copied into
/// the project root, for a workspace the standalone template copied into
/// the member directory, and the chosen extras layered on.  A failing copy
/// ends the build, and the map holds what the copies before it produced.
pub open spec fn build_map(m: Map<Seq<Seq<char>>, Item>, cfg: Config, p: Project) -> Map<
    Seq<Seq<char>>,
    Item,
> {
    let rootv = path_view(p.src_root@);
    if !copy_ok(m, template_dir_path(cfg, p.typ), rootv) {
        m
    } else {
        let m1 = copy_spec(m, template_dir_path(cfg, p.typ), rootv);
        if p.typ is Workspace && !copy_ok(
            m1,
            template_dir_path(cfg, ProjectType::Standalone),
            member_target_path(p),
        ) {
            m1
        } else {
            let m2 = if p.typ is Workspace {
                copy_spec(
                    m1,
                    template_dir_path(cfg, ProjectType::Standalone),
                    member_target_path(p),
                )
            } else {
                m1
            };
            if p.extras@.contains(ProjectExtra::Docker) && !copy_ok(
                m2,
                extras_docker_path(cfg),
                rootv,
            ) {
                m2
            } else {
                let m3 = if p.extras@.contains(ProjectExtra::Docker) {
                    copy_spec(m2, extras_docker_path(cfg), rootv)
                } else {
                    m2
                };
                if p.extras@.contains(ProjectExtra::CI) && !copy_ok(
                    m3,
                    extras_ci_path(cfg, CI::GitHub),
                    ci_target_path(p),
                ) {
                    m3
                } else {
                    if p.extras@.contains(ProjectExtra::CI) {
                        copy_spec(m3, extras_ci_path(cfg, CI::GitHub), ci_target_path(p))
                    } else {
                        m3
                    }
                }
            }
        }
    }
}

/// A fluent builder for [`Project`] values: configure name, type, target
/// directory and extras, then scaffold with [`ProjectBuilder::build`].
pub struct ProjectBuilder {
    pub config: Config,
    pub project: Project,
}

impl ProjectBuilder {
    /// A builder over the given configuration, describing an unnamed
    /// standalone project with no extras.
    pub fn new(config: Config) -> (r: ProjectBuilder)
        ensures
            r.config == config,
            r.project.wf(),
            r.project.name@ == Seq::<char>::empty(),
            r.project.typ == ProjectType::Standalone,
            r.project.src_root@.len() == 0,
            r.project.extras@.len() == 0,
    {
        ProjectBuilder {
            config,
            project: Project {
                name: String::new(),
                typ: ProjectType::Standalone,
                src_root: Vec::new(),
                extras: Vec::new(),
            },
        }
    }

    /// Sets the project's name.
    pub fn name(self, name: &str) -> (r: Self)
        ensures
            r.config == self.config,
            r.project.name@ == name@,
            r.project.typ == self.project.typ,
            r.project.src_root == self.project.src_root,
            r.project.extras == self.project.extras,
    {
        let mut b = self;
        b.project.name = name.to_owned();
        b
    }

    /// Sets the project's type.
    pub fn typ(self, typ: ProjectType) -> (r: Self)
        ensures
            r.config == self.config,
            r.project.typ == typ,
            r.project.name == self.project.name,
            r.project.src_root == self.project.src_root,
            r.project.extras == self.project.extras,
    {
        let mut b = self;
        b.project.typ = typ;
        b
    }

    /// Sets the directory the project's files go to.
    pub fn src_root(self, dir: &Vec<String>) -> (r: Self)
        ensures
            r.config == self.config,
            r.project.src_root@ == dir@,
            r.project.name == self.project.name,
            r.project.typ == self.project.typ,
            r.project.extras == self.project.extras,
    {
        let mut b = self;
        b.project.src_root = clone_path(dir);
        b
    }

    /// Turns the CI extra on or off: on ensures it is present once, off
    /// removes it.
    pub fn setup_ci(self, yes: bool) -> (r: Self)
        requires
            self.project.wf(),
        ensures
            r.config == self.config,
            r.project.wf(),
            r.project.extras@.contains(ProjectExtra::CI) == yes,
            forall|x: ProjectExtra|
                x != ProjectExtra::CI ==> (r.project.extras@.contains(x)
                    == self.project.extras@.contains(x)),
            r.project.name == self.project.name,
            r.project.typ == self.project.typ,
            r.project.src_root == self.project.src_root,
    {
        let mut b = self;
        if yes {
            b.project.add_extra(ProjectExtra::CI);
            proof {
                if !self.project.extras@.contains(ProjectExtra::CI) {
                    assert(b.project.extras@.last() == ProjectExtra::CI);
                    assert forall|x: ProjectExtra| x != ProjectExtra::CI implies (
                    b.project.extras@.contains(x) == self.project.extras@.contains(x)) by {
                        lemma_push_membership(self.project.extras@, ProjectExtra::CI, x);
                    }
                }
            }
        } else {
            b.project.remove_extra(&ProjectExtra::CI);
        }
        b
    }

    /// Turns the Docker extra on or off: on ensures it is present once,
    /// off removes it.
    pub fn setup_docker(self, yes: bool) -> (r: Self)
        requires
            self.project.wf(),
        ensures
            r.config == self.config,
            r.project.wf(),
            r.project.extras@.contains(ProjectExtra::Docker) == yes,
            forall|x: ProjectExtra|
                x != ProjectExtra::Docker ==> (r.project.extras@.contains(x)
                    == self.project.extras@.contains(x)),
            r.project.name == self.project.name,
            r.project.typ == self.project.typ,
            r.project.src_root == self.project.src_root,
    {
        let mut b = self;
        if yes {
            b.project.add_extra(ProjectExtra::Docker);
            proof {
                if !self.project.extras@.contains(ProjectExtra::Docker) {
                    assert(b.project.extras@.last() == ProjectExtra::Docker);
                    assert forall|x: ProjectExtra| x != ProjectExtra::Docker implies (
                    b.project.extras@.contains(x) == self.project.extras@.contains(x)) by {
                        lemma_push_membership(self.project.extras@, ProjectExtra::Docker, x);
                    }
                }
            }
        } else {
            b.project.remove_extra(&ProjectExtra::Docker);
        }
        b
    }

    /// Whether the template cache lacks the subtree this project needs, so
    /// that the store must be synced before building.
    pub fn needs_sync(&self, fs: &Fs) -> (r: bool)
        requires
            fs.wf(),
        ensures
            r == !fs@.dom().contains(template_dir_path(self.config, self.project.typ)),
    {
        let tdir = get_template_dir(&self.config, &self.project.typ);
        !contains_path(fs, &tdir)
    }

    /// Scaffolds the project: copies the type's template subtree into the
    /// project root, for a workspace seeds the initial member from the
    /// standalone template, and layers the chosen extras on.  Returns the
    /// described project; the tree holds whatever the copies up to the
    /// first failure produced.
    pub fn build(self, fs: &mut Fs) -> (r: Result<Project, Error>)
        requires
            old(fs).wf(),
            self.project.src_root@.len() >= 1,
        ensures
            final(fs).wf(),
            r is Ok <==> build_ok(old(fs)@, self.config, self.project),
            final(fs)@ == build_map(old(fs)@, self.config, self.project),
            r matches Ok(p) ==> p == self.project,
            r matches Err(e) ==> e is Io,
    {
        let tdir = get_template_dir(&self.config, &self.project.typ);
        match copy_dir_all(fs, &tdir, &self.project.src_root) {
            Ok(()) => {},
            Err(e) => {
                return Err(e);
            },
        }
        if matches!(&self.project.typ, ProjectType::Workspace) {
            let member_dir = get_template_dir(&self.config, &ProjectType::Standalone);
            let mut crate_path = clone_path(&self.project.src_root);
            crate_path.push(string_copy(&self.project.name));
            proof {
                assert(path_view(crate_path@) =~= member_target_path(self.project));
            }
            match copy_dir_all(fs, &member_dir, &crate_path) {
                Ok(()) => {},
                Err(e) => {
                    return Err(e);
                },
            }
        }
        if self.project.has_extra(&ProjectExtra::Docker) {
            match setup_docker(&self.config, fs, &self.project) {
                Ok(()) => {},
                Err(e) => {
                    return Err(e);
                },
            }
        }
        if self.project.has_extra(&ProjectExtra::CI) {
            match setup_ci(&self.config, fs, &self.project, &CI::GitHub) {
                Ok(()) => {},
                Err(e) => {
                    return Err(e);
                },
            }
        }
        Ok(self.project)
    }
}

/// Membership in a pushed sequence: everything but the new element is
/// reached exactly as before.
proof fn lemma_push_membership(s: Seq<ProjectExtra>, e: ProjectExtra, x: ProjectExtra)
    requires
        x != e,
    ensures
        s.push(e).contains(x) == s.contains(x),
{
    if s.push(e).contains(x) {
        let i = choose|i: int| 0 <= i < s.push(e).len() && s.push(e)[i] == x;
        assert(s[i] == x);
    }
    if s.contains(x) {
        let i = choose|i: int| 0 <= i < s.len() && s[i] == x;
        assert(s.push(e)[i] == x);
    }
}

/// Neither path leads into the other: the two subtrees are disjoint.
pub open spec fn disjoint_paths(a: Seq<Seq<char>>, b: Seq<Seq<char>>) -> bool {
    !a.is_prefix_of(b) && !b.is_prefix_of(a)
}

/// A copy touches only the destination subtree and the way to it: a key
/// unrelated to the destination keeps its standing and its content.
proof fn lemma_copy_keeps_unrelated(
    m: Map<Seq<Seq<char>>, Item>,
    src: Seq<Seq<char>>,
    dst: Seq<Seq<char>>,
    k: Seq<Seq<char>>,
)
    requires
        !dst.is_prefix_of(k),
        !k.is_prefix_of(dst),
    ensures
        copy_spec(m, src, dst).dom().contains(k) <==> m.dom().contains(k),
        m.dom().contains(k) ==> copy_spec(m, src, dst)[k] == m[k],
{
}

/// A key inside the template cache is unrelated to a project root that is
/// disjoint from the cache.
proof fn lemma_template_key_unrelated(
    tpl: Seq<Seq<char>>,
    root: Seq<Seq<char>>,
    k: Seq<Seq<char>>,
)
    requires
        tpl.is_prefix_of(k),
        disjoint_paths(tpl, root),
    ensures
        !root.is_prefix_of(k),
        !k.is_prefix_of(root),
{
    if root.is_prefix_of(k) {
        if tpl.len() <= root.len() {
            lemma_prefix_comparable(tpl, root, k);
        } else {
            lemma_prefix_comparable(root, tpl, k);
        }
    }
    if k.is_prefix_of(root) {
        lemma_prefix_transitive(tpl, k, root);
    }
}

/// Workspace scaffolding lays both templates out: after a successful,
/// extras-free build of a workspace project whose target is disjoint from
/// the template cache, every path of the workspace template reappears
/// under the project root (outside the member directory, which the next
/// copy owns), and every path of the standalone template reappears under
/// `<root>/<name>` — the member is seeded from the standalone template.
pub proof fn lemma_workspace_build_layout(
    m: Map<Seq<Seq<char>>, Item>,
    cfg: Config,
    p: Project,
    q: Seq<Seq<char>>,
)
    requires
        p.typ is Workspace,
        p.extras@.len() == 0,
        build_ok(m, cfg, p),
        disjoint_paths(path_view(cfg.templates_dir@), path_view(p.src_root@)),
    ensures
        m.dom().contains(template_dir_path(cfg, ProjectType::Workspace) + q) && (q.len() == 0
            || q[0] != p.name@) ==> {
            &&& build_map(m, cfg, p).dom().contains(path_view(p.src_root@) + q)
            &&& build_map(m, cfg, p)[path_view(p.src_root@) + q] == m[template_dir_path(
                cfg,
                ProjectType::Workspace,
            ) + q]
        },
        m.dom().contains(template_dir_path(cfg, ProjectType::Standalone) + q) ==> {
            &&& build_map(m, cfg, p).dom().contains(member_target_path(p) + q)
            &&& build_map(m, cfg, p)[member_target_path(p) + q] == m[template_dir_path(
                cfg,
                ProjectType::Standalone,
            ) + q]
        },
{
    let tpl = path_view(cfg.templates_dir@);
    let tws = template_dir_path(cfg, ProjectType::Workspace);
    let tsa = template_dir_path(cfg, ProjectType::Standalone);
    let rootv = path_view(p.src_root@);
    let member = member_target_path(p);
    assert(!p.extras@.contains(ProjectExtra::Docker) && !p.extras@.contains(ProjectExtra::CI))
        by {
        if p.extras@.contains(ProjectExtra::Docker) {
            let i = choose|i: int| 0 <= i < p.extras@.len() && p.extras@[i] == ProjectExtra::Docker;
            assert(false);
        }
        if p.extras@.contains(ProjectExtra::CI) {
            let i = choose|i: int| 0 <= i < p.extras@.len() && p.extras@[i] == ProjectExtra::CI;
            assert(false);
        }
    }
    let m1 = copy_spec(m, tws, rootv);
    let m2 = copy_spec(m1, tsa, member);
    assert(build_map(m, cfg, p) == m2);
    // The member directory is the root extended by the project's name.
    lemma_concat_skip(rootv, seq![p.name@]);
    if m.dom().contains(tws + q) && (q.len() == 0 || q[0] != p.name@) {
        // Laid out by the first copy.
        lemma_copy_preserves_files(m, tws, rootv, q);
        lemma_concat_skip(rootv, q);
        // The member copy does not reach back over it.
        assert(!member.is_prefix_of(rootv + q)) by {
            if member.is_prefix_of(rootv + q) {
                assert((rootv + q).len() >= member.len());
                assert(q.len() >= 1);
                assert(member[rootv.len() as int] == (rootv + q)[rootv.len() as int]);
                assert((rootv + q)[rootv.len() as int] == q[0]);
                assert(member[rootv.len() as int] == p.name@);
            }
        }
        if (rootv + q).is_prefix_of(member) {
            // Only the root itself lies on the way to the member, and it
            // is already present.
            assert((rootv + q).len() <= member.len());
            if q.len() == 0 {
                assert(rootv + q =~= rootv);
            } else {
                assert((rootv + q).len() == member.len());
                assert(rootv + q =~= member);
                assert((rootv + q)[rootv.len() as int] == q[0]);
                assert(member[rootv.len() as int] == p.name@);
                assert(false);
            }
        }
        assert(m2.dom().contains(rootv + q) && m2[rootv + q] == m1[rootv + q]);
    }
    if m.dom().contains(tsa + q) {
        // The standalone template survives the first copy untouched...
        assert(tpl.is_prefix_of(tsa + q)) by {
            lemma_concat_skip(tpl, seq![type_dir_name(ProjectType::Standalone)]);
            lemma_concat_skip(tsa, q);
            lemma_prefix_transitive(tpl, tsa, tsa + q);
        }
        lemma_template_key_unrelated(tpl, rootv, tsa + q);
        lemma_copy_keeps_unrelated(m, tws, rootv, tsa + q);
        // ...and the member copy transplants it below `<root>/<name>`.
        lemma_copy_preserves_files(m1, tsa, member, q);
    }
}

/// Standalone scaffolding with both extras lays the three subtrees out:
/// after a successful build of a standalone project with the Docker and
/// CI extras, whose target is disjoint from the template cache, a path of
/// the standalone template reappears under the project root wherever the
/// Docker extra does not shadow it, a path of the Docker extra reappears
/// under the root, and a path of the CI extra's `.github` subtree
/// reappears under `<root>/.github`.  The first two hold outside
/// `.github`, which the CI extra owns.
#[verifier::rlimit(60)]
pub proof fn lemma_standalone_build_layout(
    m: Map<Seq<Seq<char>>, Item>,
    cfg: Config,
    p: Project,
    q: Seq<Seq<char>>,
)
    requires
        p.typ is Standalone,
        p.extras@.contains(ProjectExtra::Docker),
        p.extras@.contains(ProjectExtra::CI),
        build_ok(m, cfg, p),
        disjoint_paths(path_view(cfg.templates_dir@), path_view(p.src_root@)),
    ensures
        m.dom().contains(template_dir_path(cfg, ProjectType::Standalone) + q)
            && !m.dom().contains(extras_docker_path(cfg) + q) && (q.len() == 0 || q[0]
            != ".github"@) ==> {
            &&& build_map(m, cfg, p).dom().contains(path_view(p.src_root@) + q)
            &&& build_map(m, cfg, p)[path_view(p.src_root@) + q] == m[template_dir_path(
                cfg,
                ProjectType::Standalone,
            ) + q]
        },
        m.dom().contains(extras_docker_path(cfg) + q) && (q.len() == 0 || q[0] != ".github"@)
            ==> {
            &&& build_map(m, cfg, p).dom().contains(path_view(p.src_root@) + q)
            &&& build_map(m, cfg, p)[path_view(p.src_root@) + q] == m[extras_docker_path(cfg)
                + q]
        },
        m.dom().contains(extras_ci_path(cfg, CI::GitHub) + q) ==> {
            &&& build_map(m, cfg, p).dom().contains(ci_target_path(p) + q)
            &&& build_map(m, cfg, p)[ci_target_path(p) + q] == m[extras_ci_path(cfg, CI::GitHub)
                + q]
        },
{
    let tpl = path_view(cfg.templates_dir@);
    let tsa = template_dir_path(cfg, ProjectType::Standalone);
    let dkr = extras_docker_path(cfg);
    let ci = extras_ci_path(cfg, CI::GitHub);
    let rootv = path_view(p.src_root@);
    let cit = ci_target_path(p);
    let m1 = copy_spec(m, tsa, rootv);
    let m3 = copy_spec(m1, dkr, rootv);
    let m4 = copy_spec(m3, ci, cit);
    assert(build_map(m, cfg, p) == m4);
    // Every template source lies inside the cache, so the copies into the
    // project leave all of them untouched.
    lemma_concat_skip(rootv, seq![".github"@]);
    assert forall|k: Seq<Seq<char>>| tpl.is_prefix_of(k) implies (m1.dom().contains(k)
        <==> m.dom().contains(k)) && (m.dom().contains(k) ==> m1[k] == m[k]) && (
    m3.dom().contains(k) <==> m.dom().contains(k)) && (m.dom().contains(k) ==> m3[k] == m[k]) by {
        lemma_template_key_unrelated(tpl, rootv, k);
        lemma_copy_keeps_unrelated(m, tsa, rootv, k);
        lemma_copy_keeps_unrelated(m1, dkr, rootv, k);
    }
    assert(tpl.is_prefix_of(tsa + q) && tpl.is_prefix_of(dkr + q) && tpl.is_prefix_of(ci + q))
        by {
        lemma_concat_skip(tpl, seq![type_dir_name(ProjectType::Standalone)]);
        lemma_concat_skip(tsa, q);
        lemma_prefix_transitive(tpl, tsa, tsa + q);
        lemma_concat_skip(tpl, seq!["extras"@, "docker"@]);
        lemma_concat_skip(dkr, q);
        lemma_prefix_transitive(tpl, dkr, dkr + q);
        lemma_concat_skip(tpl, seq!["extras"@, "ci"@, ci_dir_name(CI::GitHub), ".github"@]);
        lemma_concat_skip(ci, q);
        lemma_prefix_transitive(tpl, ci, ci + q);
    }
    // The CI copy reaches only into `.github`.
    if q.len() == 0 || q[0] != ".github"@ {
        lemma_concat_skip(rootv, q);
        assert(!cit.is_prefix_of(rootv + q)) by {
            if cit.is_prefix_of(rootv + q) {
                assert((rootv + q).len() >= cit.len());
                assert(q.len() >= 1);
                assert(cit[rootv.len() as int] == (rootv + q)[rootv.len() as int]);
                assert((rootv + q)[rootv.len() as int] == q[0]);
                assert(cit[rootv.len() as int] == ".github"@);
            }
        }
        if (rootv + q).is_prefix_of(cit) {
            assert((rootv + q).len() <= cit.len());
            if q.len() == 0 {
                assert(rootv + q =~= rootv);
            } else {
                assert((rootv + q).len() == cit.len());
                assert(rootv + q =~= cit);
                assert((rootv + q)[rootv.len() as int] == q[0]);
                assert(cit[rootv.len() as int] == ".github"@);
                assert(false);
            }
        }
        if m.dom().contains(tsa + q) && !m.dom().contains(dkr + q) {
            lemma_copy_preserves_files(m, tsa, rootv, q);
            // The Docker copy has nothing to put at this path.
            assert(m3.dom().contains(rootv + q) && m3[rootv + q] == m1[rootv + q]);
            // The CI copy does not reach it.
            assert(m4.dom().contains(rootv + q) && m4[rootv + q] == m3[rootv + q]);
        }
        if m.dom().contains(dkr + q) {
            lemma_copy_preserves_files(m1, dkr, rootv, q);
            assert(m4.dom().contains(rootv + q) && m4[rootv + q] == m3[rootv + q]);
        }
    }
    if m.dom().contains(ci + q) {
        lemma_copy_preserves_files(m3, ci, cit, q);
    }
}

/// The variables each compile pass substitutes: the crate's name and the
/// pinned toolchain version.
pub open spec fn compile_vars(p: Project) -> Map<Seq<char>, Seq<char>> {
    Map::<Seq<char>, Seq<char>>::empty().insert("crate_name"@, p.name@).insert(
        "rust_version"@,
        "1.75"@,
    )
}

impl Project {
    /// Rewrites the `{{ ... }}` placeholders in every file under the
    /// project root, substituting the project's template variables, and
    /// returns the files it visited.
    pub fn compile(&self, fs: &mut Fs) -> (r: Result<Vec<String>, Error>)
        requires
            old(fs).wf(),
        ensures
            final(fs).wf(),
            r is Ok <==> (old(fs)@.dom().contains(path_view(self.src_root@)) && old(
                fs,
            )@[path_view(self.src_root@)] is Dir),
            r matches Ok(files) ==> {
                &&& final(fs)@ == replace_all_spec(
                    old(fs)@,
                    path_view(self.src_root@),
                    Seq::empty(),
                    compile_vars(*self),
                )
                &&& files@.map_values(|s: String| s@) == visited_display(
                    old(fs).entries@,
                    path_view(self.src_root@),
                    Seq::empty(),
                )
            },
            r matches Err(e) ==> *final(fs) == *old(fs) && e is Io,
    {
        let mut vars = VarMap::new();
        vars.insert("crate_name".to_owned(), string_copy(&self.name));
        vars.insert("rust_version".to_owned(), "1.75".to_owned());
        let exclude: Vec<String> = Vec::new();
        proof {
            assert(vars@ =~= compile_vars(*self));
            assert(path_view(exclude@) =~= Seq::<Seq<char>>::empty());
        }
        replace_template_vars_all(fs, &self.src_root, &exclude, &vars)
    }
}

} // verus!
