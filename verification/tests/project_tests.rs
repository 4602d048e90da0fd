use rustx::args::NewProjectArgs;
use rustx::args::ProjectKind;
use rustx::config::Config;
use rustx::error::Error;
use rustx::fstree::Fs;
use rustx::fstree::create_dir_all;
use rustx::fstree::is_dir;
use rustx::fstree::is_file;
use rustx::fstree::read_file;
use rustx::fstree::write_file;
use rustx::gitcmd::GitRepository;
use rustx::gitcmd::clone_args;
use rustx::gitcmd::sparse_checkout_init_args;
use rustx::gitcmd::sparse_checkout_set_args;
use rustx::gitcmd::version_args;
use rustx::project::CI;
use rustx::project::Project;
use rustx::project::ProjectBuilder;
use rustx::project::ProjectExtra;
use rustx::project::ProjectType;

fn path(parts: &[&str]) -> Vec<String> {
    parts.iter().map(|s| s.to_string()).collect()
}

fn test_repository() -> GitRepository {
    GitRepository {
        url: "git@github.com:ekkolon/rustx.git".to_string(),
        branch: "main".to_string(),
        directory: "templates".to_string(),
    }
}

fn test_config() -> Config {
    Config::with_root(&path(&["home", "data"]), "rustx", test_repository())
}

/// A template store with a standalone template, a workspace template, and
/// both extras, as the remote layout contract describes.
fn seeded_store() -> Fs {
    let mut fs = Fs::new();
    let cfg = test_config();
    let t = cfg.templates_dir().clone();
    let sub = |extra: &[&str]| {
        let mut p = t.clone();
        for part in extra {
            p.push(part.to_string());
        }
        p
    };
    create_dir_all(&mut fs, &sub(&["standalone", "src"])).unwrap();
    write_file(&mut fs, &sub(&["standalone", "Cargo.toml"]), "name = \"{{ crate_name }}\"".to_string()).unwrap();
    write_file(&mut fs, &sub(&["standalone", "src", "main.rs"]), "fn main() {}".to_string()).unwrap();
    create_dir_all(&mut fs, &sub(&["workspace"])).unwrap();
    write_file(&mut fs, &sub(&["workspace", "Cargo.toml"]), "[workspace]".to_string()).unwrap();
    create_dir_all(&mut fs, &sub(&["extras", "docker"])).unwrap();
    write_file(&mut fs, &sub(&["extras", "docker", "Dockerfile"]), "FROM rust:{{ rust_version }}".to_string()).unwrap();
    create_dir_all(&mut fs, &sub(&["extras", "ci", "github", ".github"])).unwrap();
    write_file(
        &mut fs,
        &sub(&["extras", "ci", "github", ".github", "ci.yml"]),
        "name: ci".to_string(),
    )
    .unwrap();
    fs
}

#[test]
fn test_project_type_strings() {
    assert_eq!(ProjectType::Standalone.to_string(), "standalone");
    assert_eq!(ProjectType::Workspace.to_string(), "workspace");
    assert!(matches!(ProjectType::from_str("standalone"), Ok(ProjectType::Standalone)));
    assert!(matches!(ProjectType::from_str("workspace"), Ok(ProjectType::Workspace)));
    let err = ProjectType::from_str("library");
    assert!(matches!(err, Err(Error::InvalidProjectKind { .. })));
}

#[test]
fn test_ci_strings() {
    assert_eq!(CI::GitHub.to_string(), "github");
    assert!(matches!(CI::from_str("github"), Ok(CI::GitHub)));
    assert!(matches!(CI::from_str("gitlab"), Err(Error::InvalidProjectCiProvider { .. })));
}

#[test]
fn test_project_extras_are_a_set() {
    let mut p = Project::new(ProjectType::Standalone, "demo", &path(&["p"]), &Vec::new());
    assert!(!p.has_extra(&ProjectExtra::Docker));
    p.add_extra(ProjectExtra::Docker);
    p.add_extra(ProjectExtra::Docker);
    assert_eq!(p.extras().len(), 1);
    assert!(p.has_extra(&ProjectExtra::Docker));
    assert!(p.remove_extra(&ProjectExtra::Docker));
    assert!(!p.remove_extra(&ProjectExtra::Docker));
    assert_eq!(p.extras().len(), 0);
}

#[test]
fn test_project_set_extras() {
    let mut p = Project::new(ProjectType::Standalone, "demo", &path(&["p"]), &Vec::new());
    p.set_extras(vec![ProjectExtra::CI, ProjectExtra::Docker]);
    assert!(p.has_extra(&ProjectExtra::CI));
    assert!(p.has_extra(&ProjectExtra::Docker));
}

#[test]
fn test_builder_toggles() {
    let b = ProjectBuilder::new(test_config())
        .name("demo")
        .typ(ProjectType::Standalone)
        .src_root(&path(&["proj", "demo"]))
        .setup_ci(true)
        .setup_docker(true)
        .setup_ci(true)
        .setup_docker(false);
    assert!(b.project.has_extra(&ProjectExtra::CI));
    assert!(!b.project.has_extra(&ProjectExtra::Docker));
    assert_eq!(b.project.name(), "demo");
}

#[test]
fn test_needs_sync() {
    let fs = Fs::new();
    let b = ProjectBuilder::new(test_config()).typ(ProjectType::Standalone);
    assert!(b.needs_sync(&fs));
    let seeded = seeded_store();
    assert!(!b.needs_sync(&seeded));
}

#[test]
fn test_build_standalone_with_extras() {
    let mut fs = seeded_store();
    let project = ProjectBuilder::new(test_config())
        .name("demo")
        .typ(ProjectType::Standalone)
        .src_root(&path(&["proj", "demo"]))
        .setup_ci(true)
        .setup_docker(true)
        .build(&mut fs)
        .unwrap();

    assert!(is_file(&fs, &path(&["proj", "demo", "Cargo.toml"])));
    assert!(is_file(&fs, &path(&["proj", "demo", "Dockerfile"])));
    assert!(is_dir(&fs, &path(&["proj", "demo", ".github"])));
    assert!(is_file(&fs, &path(&["proj", "demo", ".github", "ci.yml"])));

    let files = project.compile(&mut fs).unwrap();
    assert!(files.contains(&"proj/demo/Cargo.toml".to_string()));
    assert!(files.contains(&"proj/demo/Dockerfile".to_string()));
    assert!(files.contains(&"proj/demo/.github/ci.yml".to_string()));

    assert_eq!(
        read_file(&fs, &path(&["proj", "demo", "Cargo.toml"])).unwrap(),
        "name = \"demo\""
    );
    assert_eq!(
        read_file(&fs, &path(&["proj", "demo", "Dockerfile"])).unwrap(),
        "FROM rust:1.75"
    );
}

#[test]
fn test_build_workspace_seeds_member_from_standalone() {
    let mut fs = seeded_store();
    let project = ProjectBuilder::new(test_config())
        .name("ws")
        .typ(ProjectType::Workspace)
        .src_root(&path(&["proj", "ws"]))
        .build(&mut fs)
        .unwrap();

    // The workspace template contents sit at the root.
    assert_eq!(read_file(&fs, &path(&["proj", "ws", "Cargo.toml"])).unwrap(), "[workspace]");
    // A full standalone copy sits under ws/ws.
    assert!(is_file(&fs, &path(&["proj", "ws", "ws", "Cargo.toml"])));
    assert!(is_file(&fs, &path(&["proj", "ws", "ws", "src", "main.rs"])));

    project.compile(&mut fs).unwrap();
    assert_eq!(
        read_file(&fs, &path(&["proj", "ws", "ws", "Cargo.toml"])).unwrap(),
        "name = \"ws\""
    );
}

#[test]
fn test_build_without_templates_fails() {
    let mut fs = Fs::new();
    let result = ProjectBuilder::new(test_config())
        .name("demo")
        .src_root(&path(&["proj", "demo"]))
        .build(&mut fs);
    assert!(matches!(result, Err(Error::Io { .. })));
}

#[test]
fn test_check_git() {
    assert!(Config::check_git(true).is_ok());
    assert!(matches!(Config::check_git(false), Err(Error::MissingGitInstallation)));
}

#[test]
fn test_config_paths() {
    let cfg = test_config();
    assert_eq!(cfg.name(), "rustx");
    assert_eq!(cfg.local_data_dir(), &path(&["home", "data", "rustx"]));
    assert_eq!(cfg.templates_dir(), &path(&["home", "data", "rustx", "templates"]));
    assert_eq!(cfg.temp_dir(), &path(&["home", "data", "rustx", ".tmp"]));
    assert_eq!(cfg.git_repository().directory, "templates");
}

#[test]
fn test_prepare_sync_dirs() {
    let mut fs = Fs::new();
    let cfg = test_config();
    cfg.prepare_sync_dirs(&mut fs).unwrap();
    assert!(is_dir(&fs, cfg.local_data_dir()));
    assert!(is_dir(&fs, cfg.temp_dir()));
}

#[test]
fn test_install_templates() {
    let mut fs = Fs::new();
    let cfg = test_config();
    cfg.prepare_sync_dirs(&mut fs).unwrap();
    // A checkout in the scratch directory: the templates subtree and some
    // repository clutter next to it.
    let mut checkout = cfg.temp_dir().clone();
    checkout.push("templates".to_string());
    let mut tmpl = checkout.clone();
    tmpl.push("standalone".to_string());
    create_dir_all(&mut fs, &tmpl).unwrap();
    let mut f = tmpl.clone();
    f.push("Cargo.toml".to_string());
    write_file(&mut fs, &f, "{{ crate_name }}".to_string()).unwrap();
    let mut junk = cfg.temp_dir().clone();
    junk.push("README.md".to_string());
    write_file(&mut fs, &junk, "clutter".to_string()).unwrap();

    cfg.install_templates(&mut fs).unwrap();

    let mut cached = cfg.templates_dir().clone();
    cached.push("standalone".to_string());
    cached.push("Cargo.toml".to_string());
    assert_eq!(read_file(&fs, &cached).unwrap(), "{{ crate_name }}");
    // The clutter was removed before the copy.
    assert!(!rustx::fstree::contains_path(&fs, &junk));
}

#[test]
fn test_git_argument_lists() {
    assert_eq!(version_args(), vec!["--version".to_string()]);
    assert_eq!(
        clone_args("git@github.com:ekkolon/rustx.git", Some(".")),
        vec![
            "clone".to_string(),
            "--filter=blob:none".to_string(),
            "--sparse".to_string(),
            "git@github.com:ekkolon/rustx.git".to_string(),
            ".".to_string(),
        ]
    );
    assert_eq!(
        sparse_checkout_init_args(),
        vec!["sparse-checkout".to_string(), "init".to_string(), "--cone".to_string()]
    );
    assert_eq!(
        sparse_checkout_set_args("templates"),
        vec!["sparse-checkout".to_string(), "set".to_string(), "templates".to_string()]
    );
}

#[test]
fn test_project_type_from_flags() {
    let mut args = NewProjectArgs {
        name: "demo".to_string(),
        root_dir: None,
        setup_ci: None,
        setup_docker: false,
        project_kind: ProjectKind::default(),
    };
    assert!(matches!(args.project_type(), ProjectType::Standalone));
    args.project_kind.workspace = true;
    assert!(matches!(args.project_type(), ProjectType::Workspace));
    args.project_kind.standalone = true;
    assert!(matches!(args.project_type(), ProjectType::Standalone));
}
