use cargo_affect::config::{
    CiConfig, CiProfilePolicy, CiTaskPolicy, CiTaskWhenPolicy, PackageSetPolicy, PlatformPolicy,
    PolicyConfig,
};
use cargo_affect::input::cargo_subcommand_args;
use cargo_affect::paths::{canonical_or_normalized, changed_file_lookup, choose_changed_file, ChangedFileLookup};
use cargo_affect::planner::{plan, CommonArgs, Plan};
use cargo_affect::workspace::{ResolveNode, Workspace, WorkspacePackage};

/// The workspace of the planner's scenarios: packages a, b and c under
/// `root`, where b depends on a.
fn test_workspace(root: &str) -> Workspace {
    let package = |name: &str| WorkspacePackage {
        id: format!("{name} 0.1.0 (path+file://{root}/{name})"),
        name: name.to_string(),
        root: format!("{root}/{name}"),
    };
    let packages = vec![package("c"), package("a"), package("b")];
    let nodes = vec![
        ResolveNode { id: packages[1].id.clone(), deps: Vec::new() },
        ResolveNode { id: packages[2].id.clone(), deps: vec![packages[1].id.clone()] },
        ResolveNode { id: packages[0].id.clone(), deps: Vec::new() },
    ];
    Workspace::new(packages, &Some(nodes))
}

fn empty_config() -> PolicyConfig {
    PolicyConfig {
        global: Vec::new(),
        paths: Vec::new(),
        platform: Vec::new(),
        sets: Vec::new(),
        ci: CiConfig { profiles: Vec::new() },
    }
}

fn args() -> CommonArgs {
    CommonArgs {
        base: "origin/main".to_string(),
        package_sets: Vec::new(),
        platform: None,
        profile: None,
    }
}

/// A changed file given relative to the workspace root, resolved as the
/// command line resolves it when the file system has nothing to say.
fn resolve(root: &str, file: &str) -> String {
    match changed_file_lookup(file, root, &None) {
        ChangedFileLookup::Resolved(p) => p,
        ChangedFileLookup::Candidates { workspace, repository } => {
            let workspace = canonical_or_normalized(&workspace, &None);
            let repository = repository.map(|r| canonical_or_normalized(&r, &None));
            choose_changed_file(root, workspace, repository)
        }
    }
}

fn plan_with(config: &PolicyConfig, args: &CommonArgs, files: &[&str]) -> Plan {
    let root = "/ws";
    let workspace = test_workspace(root);
    let changed: Vec<String> = files.iter().map(|f| resolve(root, f)).collect();
    plan(args, root, &workspace, &changed, config, "linux", &None).unwrap()
}

fn reasons<'a>(plan: &'a Plan, package: &str) -> &'a Vec<String> {
    &plan
        .reasons
        .iter()
        .find(|(name, _)| name == package)
        .expect("package has reasons")
        .1
}

fn has_reasons(plan: &Plan, package: &str) -> bool {
    plan.reasons.iter().any(|(name, _)| name == package)
}

fn strings(items: &[&str]) -> Vec<String> {
    items.iter().map(|s| s.to_string()).collect()
}

#[test]
fn direct_change_selects_package_and_dependents() {
    let plan = plan_with(&empty_config(), &args(), &["a/src/lib.rs"]);

    assert_eq!(plan.packages, vec!["a", "b"]);
    assert!(!plan.select_all);
    assert_eq!(reasons(&plan, "a"), &vec!["changed: a/src/lib.rs"]);
    assert_eq!(reasons(&plan, "b"), &vec!["depends on a"]);
}

#[test]
fn leaf_change_selects_only_leaf_package() {
    let plan = plan_with(&empty_config(), &args(), &["b/src/lib.rs"]);

    assert_eq!(plan.packages, vec!["b"]);
    assert!(!plan.select_all);
}

#[test]
fn unmapped_change_selects_all_packages() {
    let plan = plan_with(&empty_config(), &args(), &["README.md"]);

    assert_eq!(plan.packages, vec!["a", "b", "c"]);
    assert!(plan.select_all);
    assert!(reasons(&plan, "a")[0].contains("global impact:"));
}

#[test]
fn cargo_lock_selects_all_packages() {
    let plan = plan_with(&empty_config(), &args(), &["Cargo.lock"]);

    assert_eq!(plan.packages, vec!["a", "b", "c"]);
    assert!(plan.select_all);
}

#[test]
fn output_formats_are_stable() {
    let plan = plan_with(&empty_config(), &args(), &["a/src/lib.rs"]);

    assert_eq!(plan.package_args, "-p a -p b");
    assert_eq!(plan.nextest_expr, "package(a) | package(b)");
    assert_eq!(plan.cache_dimensions.package_group, "a,b");
}

#[test]
fn config_global_rule_selects_all_packages() {
    let mut config = empty_config();
    config.global = strings(&["schema/**"]);

    let plan = plan_with(&config, &args(), &["schema/gpu.json"]);

    assert_eq!(plan.packages, vec!["a", "b", "c"]);
    assert!(plan.select_all);
}

#[test]
fn path_mapping_selects_package_and_dependents() {
    let mut config = empty_config();
    config.paths = vec![("schema/**".to_string(), strings(&["a"]))];

    let plan = plan_with(&config, &args(), &["schema/gpu.json"]);

    assert_eq!(plan.packages, vec!["a", "b"]);
    assert_eq!(reasons(&plan, "a"), &vec!["path rule: schema/gpu.json"]);
    assert_eq!(reasons(&plan, "b"), &vec!["depends on a"]);
}

#[test]
fn empty_path_mapping_selects_no_packages() {
    let mut config = empty_config();
    config.paths = vec![("docs/**".to_string(), Vec::new())];

    let plan = plan_with(&config, &args(), &["docs/readme.md"]);

    assert!(plan.packages.is_empty());
    assert_eq!(plan.package_args, "");
    assert_eq!(plan.nextest_expr, "");
    assert!(!plan.select_all);
}

#[test]
fn platform_excludes_remove_matching_packages() {
    let mut config = empty_config();
    config.platform = vec![("macos".to_string(), PlatformPolicy { exclude: strings(&["b"]) })];
    let mut args = args();
    args.platform = Some("macos".to_string());

    let plan = plan_with(&config, &args, &["a/src/lib.rs"]);

    assert_eq!(plan.packages, vec!["a"]);
    assert!(!has_reasons(&plan, "b"));
}

#[test]
fn package_set_filters_selection() {
    let mut config = empty_config();
    config.sets = vec![("core".to_string(), PackageSetPolicy { packages: strings(&["a"]) })];
    let mut args = args();
    args.package_sets = vec!["core".to_string()];

    let plan = plan_with(&config, &args, &["a/src/lib.rs"]);

    assert_eq!(plan.packages, vec!["a"]);
    assert_eq!(plan.cache_dimensions.package_group, "a");
}

fn task(id: &str, stage: &str, run: &str, packages: &[&str], paths: &[&str]) -> CiTaskPolicy {
    CiTaskPolicy {
        id: id.to_string(),
        stage: stage.to_string(),
        run: run.to_string(),
        working_directory: None,
        when: CiTaskWhenPolicy { packages: strings(packages), paths: strings(paths) },
    }
}

#[test]
fn ci_profile_supplies_set_platform_and_tasks() {
    let mut config = empty_config();
    config.platform = vec![("linux".to_string(), PlatformPolicy { exclude: strings(&["b"]) })];
    config.sets = vec![("core".to_string(), PackageSetPolicy { packages: strings(&["a", "b"]) })];
    config.ci.profiles = vec![(
        "core-linux".to_string(),
        CiProfilePolicy {
            set: Some("core".to_string()),
            sets: Vec::new(),
            platform: Some("linux".to_string()),
            backend: Some("warpbuild".to_string()),
            cache: Some("core-linux".to_string()),
            tasks: vec![
                task("build", "build", "cargo build {{ package_args }}", &[], &[]),
                task("nextest", "test", "cargo nextest run -E '{{ nextest_expr }}'", &["a"], &[]),
                task("docs", "test", "cargo test -p c", &[], &["docs/**"]),
            ],
        },
    )];
    let mut args = args();
    args.profile = Some("core-linux".to_string());

    let plan = plan_with(&config, &args, &["a/src/lib.rs"]);

    assert_eq!(plan.packages, vec!["a"]);
    let ci = plan.ci.unwrap();
    assert_eq!(ci.profile, "core-linux");
    assert_eq!(ci.backend.as_deref(), Some("warpbuild"));
    assert_eq!(ci.cache.as_deref(), Some("core-linux"));
    assert_eq!(
        ci.tasks.iter().map(|task| task.id.as_str()).collect::<Vec<_>>(),
        vec!["build", "nextest"]
    );
    assert_eq!(ci.tasks[0].run, "cargo build -p a");
    assert_eq!(ci.tasks[1].run, "cargo nextest run -E 'package(a)'");
}

#[test]
fn ci_tasks_are_optional_without_profile() {
    let mut config = empty_config();
    config.sets = vec![("core".to_string(), PackageSetPolicy { packages: strings(&["a"]) })];
    config.ci.profiles = vec![(
        "core".to_string(),
        CiProfilePolicy {
            set: Some("core".to_string()),
            sets: Vec::new(),
            platform: None,
            backend: None,
            cache: None,
            tasks: Vec::new(),
        },
    )];

    let plan = plan_with(&config, &args(), &["a/src/lib.rs"]);

    assert_eq!(plan.packages, vec!["a", "b"]);
    assert!(plan.ci.is_none());
}

#[test]
fn repo_relative_paths_work_for_nested_workspace() {
    let repo_root = "/repo";
    let workspace_root = "/repo/crates";
    let workspace = test_workspace(workspace_root);

    let changed = match changed_file_lookup("crates/a/src/lib.rs", workspace_root, &Some(repo_root.to_string())) {
        ChangedFileLookup::Candidates { workspace, repository } => {
            // The file exists under the repository root only.
            let workspace = canonical_or_normalized(&workspace, &None);
            let repository = repository.map(|r| canonical_or_normalized(&r, &Some(r.clone())));
            choose_changed_file(workspace_root, workspace, repository)
        }
        ChangedFileLookup::Resolved(p) => p,
    };
    let plan = plan(
        &args(),
        workspace_root,
        &workspace,
        &vec![changed],
        &empty_config(),
        "linux",
        &Some(repo_root.to_string()),
    )
    .unwrap();

    assert_eq!(plan.changed_files, vec!["a/src/lib.rs"]);
    assert_eq!(plan.cache_dimensions.workspace, "crates");
    assert_eq!(plan.packages, vec!["a", "b"]);
    assert!(!plan.select_all);
}

#[test]
fn cargo_subcommand_invocation_is_accepted() {
    let direct = strings(&["cargo-affect", "packages", "--workspace", ".", "--changed-file", "src/main.rs"]);
    assert_eq!(cargo_subcommand_args(direct.clone()), direct);

    let args = strings(&["cargo-affect", "affect", "packages"]);
    assert_eq!(cargo_subcommand_args(args), strings(&["cargo-affect", "packages"]));
}
