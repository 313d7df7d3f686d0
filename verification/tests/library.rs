use cargo_affect::ci::{planned_tasks, render_task_run, task_match_reasons, task_stage, PlannedTask, CiPlan};
use cargo_affect::config::{
    apply_package_set_filters, apply_platform_excludes, effective_package_sets, effective_platform,
    mapped_policy_packages, resolve_ci_profile, CiConfig, CiProfilePolicy, CiTaskPolicy,
    CiTaskWhenPolicy, PackageSetPolicy, PlatformPolicy, PolicyConfig,
};
use cargo_affect::error::AffectError;
use cargo_affect::glob::{glob_matches, matches_glob_patterns};
use cargo_affect::input::{diff_lines, git_diff_names, git_root_text, split_lines, trimmed, GitReadError};
use cargo_affect::paths::{
    absolute_path, is_absolute_path, is_global_impact_path, manifest_parent, normalize_path,
    path_under, policy_config_path, relative_path, task_working_directory, workspace_manifest_path,
    ConfigLocation,
};
use cargo_affect::planner::{plan, CacheDimensions, CommonArgs, Plan};
use cargo_affect::report::{after_command, ci_run_steps, explanation_lines, selected_ci_tasks, CiStep};
use cargo_affect::selection::owning_package;
use cargo_affect::text::{is_blank, join, replace_all, str_lt};
use cargo_affect::workspace::{
    package_root, reverse_workspace_dependencies, sort_packages, workspace_members, PackageRecord,
    ResolveNode, Workspace, WorkspacePackage,
};

fn invalid_glob(err: AffectError) -> Option<String> {
    match err {
        AffectError::InvalidGlob { pattern, cause } => {
            assert!(!cause.is_empty());
            Some(pattern)
        }
        _ => None,
    }
}

fn strings(items: &[&str]) -> Vec<String> {
    items.iter().map(|s| s.to_string()).collect()
}

fn package(name: &str, root: &str) -> WorkspacePackage {
    WorkspacePackage { id: format!("{name}-id"), name: name.to_string(), root: root.to_string() }
}

fn empty_config() -> PolicyConfig {
    PolicyConfig {
        global: Vec::new(),
        paths: Vec::new(),
        platform: Vec::new(),
        sets: Vec::new(),
        ci: CiConfig { profiles: Vec::new() },
    }
}

fn args() -> CommonArgs {
    CommonArgs { base: "origin/main".to_string(), package_sets: Vec::new(), platform: None, profile: None }
}

/// Packages a, b, c under /ws; b depends on a, c depends on b.
fn chain_workspace() -> Workspace {
    let packages = vec![package("a", "/ws/a"), package("b", "/ws/b"), package("c", "/ws/c")];
    let nodes = vec![
        ResolveNode { id: "b-id".to_string(), deps: strings(&["a-id"]) },
        ResolveNode { id: "c-id".to_string(), deps: strings(&["b-id", "serde-id"]) },
    ];
    Workspace::new(packages, &Some(nodes))
}

fn task(id: &str, stage: &str, run: &str) -> CiTaskPolicy {
    CiTaskPolicy {
        id: id.to_string(),
        stage: stage.to_string(),
        run: run.to_string(),
        working_directory: None,
        when: CiTaskWhenPolicy { packages: Vec::new(), paths: Vec::new() },
    }
}

fn profile(tasks: Vec<CiTaskPolicy>) -> CiProfilePolicy {
    CiProfilePolicy { set: None, sets: Vec::new(), platform: None, backend: None, cache: None, tasks }
}

fn planned(id: &str, stage: &str, run: &str, working_directory: &str) -> PlannedTask {
    PlannedTask {
        id: id.to_string(),
        stage: stage.to_string(),
        run: run.to_string(),
        working_directory: working_directory.to_string(),
        reasons: strings(&["always"]),
    }
}

fn plan_of(packages: &[&str], reasons: Vec<(String, Vec<String>)>, ci: Option<CiPlan>) -> Plan {
    Plan {
        workspace_root: "/ws".to_string(),
        base: "origin/main".to_string(),
        changed_files: Vec::new(),
        packages: strings(packages),
        package_args: String::new(),
        nextest_expr: String::new(),
        select_all: false,
        cache_dimensions: CacheDimensions { workspace: "/ws".to_string(), package_group: String::new() },
        ci,
        reasons,
    }
}

#[test]
fn dependents_are_followed_transitively() {
    let workspace = chain_workspace();
    let plan = plan(&args(), "/ws", &workspace, &strings(&["/ws/a/src/lib.rs"]), &empty_config(), "linux", &None).unwrap();
    assert_eq!(plan.packages, vec!["a", "b", "c"]);
    assert_eq!(plan.reasons[2], ("c".to_string(), strings(&["depends on b"])));
    assert_eq!(plan.changed_files, vec!["a/src/lib.rs"]);
    assert_eq!(plan.base, "origin/main");
    assert_eq!(plan.workspace_root, "/ws");
}

#[test]
fn planned_packages_are_selected_sorted_and_explained() {
    let workspace = Workspace::new(
        vec![package("zeta", "/ws/zeta"), package("alpha", "/ws/alpha"), package("mid", "/ws/mid")],
        &Some(vec![ResolveNode { id: "alpha-id".to_string(), deps: strings(&["zeta-id"]) }]),
    );
    let plan = plan(&args(), "/ws", &workspace, &strings(&["/ws/zeta/src/lib.rs"]), &empty_config(), "linux", &None)
        .unwrap();
    assert_eq!(plan.packages, vec!["alpha", "zeta"]);
    let keys: Vec<&str> = plan.reasons.iter().map(|(k, _)| k.as_str()).collect();
    assert_eq!(keys, vec!["alpha", "zeta"]);
    assert!(plan.reasons.iter().all(|(_, r)| !r.is_empty()));
}

#[test]
fn global_change_gives_every_package_a_reason() {
    let workspace = chain_workspace();
    let plan = plan(&args(), "/ws", &workspace, &strings(&["/ws/.github/workflows/ci.yml"]), &empty_config(), "linux", &None)
        .unwrap();
    assert!(plan.select_all);
    assert_eq!(plan.packages, vec!["a", "b", "c"]);
    for (_, reasons) in &plan.reasons {
        assert_eq!(reasons, &strings(&["global impact: /ws/.github/workflows/ci.yml"]));
    }
}

#[test]
fn two_changes_of_one_package_give_two_reasons() {
    let workspace = chain_workspace();
    let plan = plan(
        &args(),
        "/ws",
        &workspace,
        &strings(&["/ws/c/src/lib.rs", "/ws/c/Cargo.toml"]),
        &empty_config(),
        "linux",
        &None,
    )
    .unwrap();
    assert_eq!(plan.packages, vec!["c"]);
    assert_eq!(plan.reasons, vec![("c".to_string(), strings(&["changed: c/src/lib.rs", "changed: c/Cargo.toml"]))]);
}

#[test]
fn empty_plan_has_no_ci_tasks() {
    let mut config = empty_config();
    config.paths = vec![("docs/**".to_string(), Vec::new())];
    config.ci.profiles = vec![("p".to_string(), profile(vec![task("build", "build", "cargo build")]))];
    let mut a = args();
    a.profile = Some("p".to_string());
    let plan = plan(&a, "/ws", &chain_workspace(), &strings(&["/ws/docs/x.md"]), &config, "linux", &None).unwrap();
    assert!(plan.packages.is_empty());
    assert_eq!(plan.cache_dimensions.package_group, "");
    assert!(plan.ci.unwrap().tasks.is_empty());
}

#[test]
fn errors_of_the_policy_are_reported() {
    let workspace = chain_workspace();
    let file = strings(&["/ws/a/src/lib.rs"]);

    let mut config = empty_config();
    config.global = strings(&["a["]);
    let err = plan(&args(), "/ws", &workspace, &file, &config, "linux", &None).unwrap_err();
    assert_eq!(invalid_glob(err), Some("a[".to_string()));

    let mut a = args();
    a.profile = Some("nope".to_string());
    let err = plan(&a, "/ws", &workspace, &file, &empty_config(), "linux", &None).unwrap_err();
    assert_eq!(err, AffectError::UnknownCiProfile { profile: "nope".to_string() });

    let mut a = args();
    a.package_sets = strings(&["nope"]);
    let err = plan(&a, "/ws", &workspace, &file, &empty_config(), "linux", &None).unwrap_err();
    assert_eq!(err, AffectError::UnknownPackageSet { set: "nope".to_string() });

    let mut config = empty_config();
    config.paths = vec![("docs/**".to_string(), strings(&["ghost"]))];
    let err = plan(&args(), "/ws", &workspace, &strings(&["/ws/docs/x.md"]), &config, "linux", &None).unwrap_err();
    assert_eq!(err, AffectError::UnknownMappedPackage { path: "docs/x.md".to_string(), package: "ghost".to_string() });

    let mut config = empty_config();
    config.ci.profiles = vec![("p".to_string(), profile(vec![task("  ", "build", "cargo build")]))];
    let mut a = args();
    a.profile = Some("p".to_string());
    let err = plan(&a, "/ws", &workspace, &file, &config, "linux", &None).unwrap_err();
    assert_eq!(err, AffectError::MissingTaskId);

    config.ci.profiles = vec![("p".to_string(), profile(vec![task("build", "build", " ")]))];
    let err = plan(&a, "/ws", &workspace, &file, &config, "linux", &None).unwrap_err();
    assert_eq!(err, AffectError::MissingTaskRun { id: "build".to_string() });
}

#[test]
fn stage_without_profile_is_an_error() {
    let plan = plan_of(&["a"], Vec::new(), None);
    assert_eq!(selected_ci_tasks(&plan, Some("test")).unwrap_err(), AffectError::StageWithoutProfile);
    assert!(selected_ci_tasks(&plan, None).unwrap().is_empty());
}

#[test]
fn manifest_without_parent_is_an_error() {
    let record = PackageRecord { id: "x-id".to_string(), name: "x".to_string(), manifest_path: "/".to_string() };
    assert_eq!(package_root(&record).unwrap_err(), AffectError::NoManifestParent { package: "x".to_string() });
    let record = PackageRecord {
        id: "x-id".to_string(),
        name: "x".to_string(),
        manifest_path: "/ws/x/Cargo.toml".to_string(),
    };
    assert_eq!(package_root(&record).unwrap(), "/ws/x");
}

#[test]
fn stage_filter_picks_tasks() {
    let ci = CiPlan {
        profile: "p".to_string(),
        backend: None,
        cache: None,
        tasks: vec![planned("build", "build", "cargo build", "."), planned("test", "test", "cargo test", "sub")],
    };
    let plan = plan_of(&["a"], Vec::new(), Some(ci));
    let ids = |stage: Option<&str>| -> Vec<String> {
        selected_ci_tasks(&plan, stage).unwrap().into_iter().map(|t| t.id).collect()
    };
    assert_eq!(ids(None), strings(&["build", "test"]));
    assert_eq!(ids(Some("test")), strings(&["test"]));
    assert!(ids(Some("deploy")).is_empty());
}

#[test]
fn ci_run_steps_print_or_run() {
    let ci = CiPlan {
        profile: "p".to_string(),
        backend: None,
        cache: None,
        tasks: vec![planned("test", "test", "cargo test", "sub/../tools")],
    };
    let plan = plan_of(&["a"], Vec::new(), Some(ci));
    let dry = ci_run_steps(&plan, None, true).unwrap();
    assert_eq!(
        dry,
        vec![CiStep::Print { line: "test [test] (/ws/tools)\ncargo test".to_string() }]
    );
    let run = ci_run_steps(&plan, Some("test"), false).unwrap();
    assert_eq!(
        run,
        vec![
            CiStep::Print { line: "Running CI task test [test]".to_string() },
            CiStep::Run {
                id: "test".to_string(),
                stage: "test".to_string(),
                command: "cargo test".to_string(),
                working_directory: "/ws/tools".to_string(),
            },
        ]
    );
    let none = ci_run_steps(&plan, Some("build"), false).unwrap();
    assert_eq!(none, vec![CiStep::Print { line: "No CI tasks selected.".to_string() }]);
}

#[test]
fn explanation_lists_packages_and_reasons() {
    let plan = plan_of(
        &["a", "b"],
        vec![
            ("a".to_string(), strings(&["changed: a/src/lib.rs"])),
            ("b".to_string(), strings(&["depends on a", "changed: b/x.rs"])),
        ],
        None,
    );
    assert_eq!(
        explanation_lines(&plan),
        strings(&["a", "  - changed: a/src/lib.rs", "b", "  - depends on a", "  - changed: b/x.rs"])
    );
    let empty = plan_of(&[], Vec::new(), None);
    assert_eq!(explanation_lines(&empty), strings(&["No affected packages."]));
}

#[test]
fn task_stage_defaults_when_blank() {
    assert_eq!(task_stage(&task("a", " \t", "x")), "default");
    assert_eq!(task_stage(&task("a", "test", "x")), "test");
}

#[test]
fn task_run_placeholders_are_rendered() {
    let t = task("a", "test", "run {{ package_args }} / {{ nextest_expr }} / {{ packages }} {{ other }}");
    let rendered = render_task_run(&t, &strings(&["a", "b"]), "-p a -p b", "package(a) | package(b)");
    assert_eq!(rendered, "run -p a -p b / package(a) | package(b) / a b {{ other }}");
}

#[test]
fn task_conditions_give_reasons() {
    let mut t = task("t", "test", "x");
    assert_eq!(task_match_reasons(&t, &strings(&["a"]), &Vec::new()).unwrap(), Some(strings(&["always"])));
    t.when.packages = strings(&["gpu-*", "z"]);
    t.when.paths = strings(&["docs/**"]);
    let r = task_match_reasons(&t, &strings(&["core", "gpu-a", "gpu-b"]), &strings(&["src/x.rs", "docs/a.md"]))
        .unwrap();
    assert_eq!(r, Some(strings(&["package gpu-a matches gpu-*", "path docs/a.md matches docs/**"])));
    let none = task_match_reasons(&t, &strings(&["core"]), &strings(&["src/x.rs"])).unwrap();
    assert_eq!(none, None);
}

#[test]
fn planned_tasks_keep_profile_order() {
    let mut docs = task("docs", "", "make docs");
    docs.working_directory = Some("docs".to_string());
    docs.when.paths = strings(&["docs/**"]);
    let p = profile(vec![task("build", "build", "cargo build {{ packages }}"), docs]);
    let tasks = planned_tasks(&p, &strings(&["a"]), &strings(&["docs/x.md"]), "-p a", "package(a)").unwrap();
    assert_eq!(tasks.len(), 2);
    assert_eq!(tasks[0].run, "cargo build a");
    assert_eq!(tasks[0].working_directory, ".");
    assert_eq!(tasks[1].stage, "default");
    assert_eq!(tasks[1].working_directory, "docs");
    assert_eq!(tasks[1].reasons, strings(&["path docs/x.md matches docs/**"]));
    assert!(planned_tasks(&p, &Vec::new(), &Vec::new(), "", "").unwrap().is_empty());
}

#[test]
fn globs_match_through_globset() {
    assert!(glob_matches("gpu-*", "gpu-core").unwrap());
    assert!(!glob_matches("gpu-*", "cpu-core").unwrap());
    assert!(glob_matches("schema/**", "schema/a/b.json").unwrap());
    assert_eq!(invalid_glob(glob_matches("[", "x").unwrap_err()), Some("[".to_string()));
    assert!(matches_glob_patterns(&strings(&["x", "a*"]), "abc").unwrap());
    assert!(!matches_glob_patterns(&Vec::new(), "abc").unwrap());
}

#[test]
fn path_rules_map_to_sorted_packages() {
    let mut config = empty_config();
    config.paths = vec![
        ("docs/**".to_string(), strings(&["z", "b"])),
        ("docs/api/**".to_string(), strings(&["a", "b"])),
    ];
    assert_eq!(mapped_policy_packages(&config, "docs/api/x.md").unwrap(), Some(strings(&["a", "b", "z"])));
    assert_eq!(mapped_policy_packages(&config, "src/x.rs").unwrap(), None);
}

#[test]
fn profile_and_request_combine_sets_and_platform() {
    let mut config = empty_config();
    let mut p = profile(Vec::new());
    p.set = Some("one".to_string());
    p.sets = strings(&["two"]);
    p.platform = Some("linux".to_string());
    config.ci.profiles = vec![("p".to_string(), p)];
    let resolved = resolve_ci_profile(&config, Some("p")).unwrap();
    assert_eq!(effective_package_sets(&strings(&["three"]), resolved), strings(&["one", "two", "three"]));
    assert_eq!(effective_platform(&None, resolved, "macos"), "linux");
    assert_eq!(effective_platform(&Some("windows".to_string()), resolved, "macos"), "windows");
    assert_eq!(effective_platform(&None, None, "macos"), "macos");
    assert!(resolve_ci_profile(&config, None).unwrap().is_none());
}

#[test]
fn filters_only_remove() {
    let mut config = empty_config();
    config.sets = vec![("core".to_string(), PackageSetPolicy { packages: strings(&["a*"]) })];
    config.platform = vec![("macos".to_string(), PlatformPolicy { exclude: strings(&["ab"]) })];
    let selected = strings(&["aa", "ab", "b"]);
    assert_eq!(apply_package_set_filters(selected.clone(), &config, &Vec::new()).unwrap(), selected);
    let kept = apply_package_set_filters(selected.clone(), &config, &strings(&["core"])).unwrap();
    assert_eq!(kept, strings(&["aa", "ab"]));
    assert_eq!(apply_platform_excludes(kept.clone(), &config, "macos").unwrap(), strings(&["aa"]));
    assert_eq!(apply_platform_excludes(kept.clone(), &config, "linux").unwrap(), kept);
}

#[test]
fn deepest_package_owns_a_file() {
    let packages = vec![package("outer", "/ws/outer"), package("inner", "/ws/outer/inner")];
    assert_eq!(owning_package("/ws/outer/inner/src/lib.rs", &packages), Some(1));
    assert_eq!(owning_package("/ws/outer/src/lib.rs", &packages), Some(0));
    assert_eq!(owning_package("/ws/outerx/src/lib.rs", &packages), None);
}

#[test]
fn workspace_graph_from_metadata() {
    let sorted = sort_packages(vec![package("c", "/c"), package("a", "/a"), package("b", "/b")]);
    let names: Vec<&str> = sorted.iter().map(|p| p.name.as_str()).collect();
    assert_eq!(names, vec!["a", "b", "c"]);
    let deps = reverse_workspace_dependencies(
        &sorted,
        &Some(vec![
            ResolveNode { id: "b-id".to_string(), deps: strings(&["a-id"]) },
            ResolveNode { id: "c-id".to_string(), deps: strings(&["a-id", "b-id"]) },
        ]),
    );
    assert_eq!(deps, vec![vec![1, 2], vec![2], vec![]]);
    assert_eq!(reverse_workspace_dependencies(&sorted, &None), vec![Vec::<usize>::new(); 3]);
    let records = vec![
        PackageRecord { id: "a-id".to_string(), name: "a".to_string(), manifest_path: "/a/Cargo.toml".to_string() },
        PackageRecord { id: "x-id".to_string(), name: "x".to_string(), manifest_path: "/x/Cargo.toml".to_string() },
    ];
    let members = workspace_members(&records, &strings(&["a-id"]));
    assert_eq!(members.len(), 1);
    assert_eq!(members[0].name, "a");
}

#[test]
fn paths_are_normalized_and_related() {
    assert_eq!(normalize_path("/a/./b/../c"), "/a/c");
    assert_eq!(normalize_path("a/b/.."), "a");
    assert_eq!(absolute_path("x/./y", "/cwd"), "/cwd/x/y");
    assert_eq!(absolute_path("/abs/../p", "/cwd"), "/p");
    assert_eq!(relative_path("/ws/a/src/lib.rs", "/ws"), "a/src/lib.rs");
    assert_eq!(relative_path("/other/x", "/ws"), "/other/x");
    assert!(is_absolute_path("/ws"));
    assert!(!is_absolute_path("ws"));
    assert!(path_under("/ws/a/src", "/ws/a"));
    assert!(!path_under("/ws/ab", "/ws/a"));
    assert_eq!(manifest_parent("/ws/a/Cargo.toml"), Some("/ws/a".to_string()));
    assert_eq!(task_working_directory("/ws", "sub/../x"), "/ws/x");
    assert_eq!(task_working_directory("/ws", "/abs/./y"), "/abs/y");
    assert_eq!(workspace_manifest_path("/ws", true), "/ws/Cargo.toml");
    assert_eq!(workspace_manifest_path("/ws/Cargo.toml", false), "/ws/Cargo.toml");
}

#[test]
fn global_impact_paths() {
    assert!(is_global_impact_path("/ws/Cargo.lock"));
    assert!(is_global_impact_path("/ws/.cargo/config.toml"));
    assert!(is_global_impact_path("/ws/.github/workflows/ci.yml"));
    assert!(!is_global_impact_path("/ws/a/src/lib.rs"));
    assert!(!is_global_impact_path("/ws/a/Cargo.lock.bak"));
}

#[test]
fn config_path_is_found() {
    match policy_config_path("/ws", &None) {
        ConfigLocation::Default(p) => assert_eq!(p, "/ws/affect.toml"),
        ConfigLocation::Explicit(_) => panic!("expected the default location"),
    }
    match policy_config_path("/ws", &Some("cfg/../policy.toml".to_string())) {
        ConfigLocation::Explicit(p) => assert_eq!(p, "/ws/policy.toml"),
        ConfigLocation::Default(_) => panic!("expected an explicit location"),
    }
}

#[test]
fn git_output_is_split_into_names() {
    assert_eq!(split_lines("a\r\nb\n\nc"), strings(&["a", "b", "", "c"]));
    assert_eq!(split_lines("a\n"), strings(&["a"]));
    assert_eq!(split_lines("x\r"), strings(&["x\r"]));
    assert!(split_lines("").is_empty());
    assert_eq!(diff_lines("a/src/lib.rs\n  \n\nb/x.rs\n"), strings(&["a/src/lib.rs", "b/x.rs"]));
    assert_eq!(trimmed("  /repo \n"), "/repo");
    assert_eq!(trimmed(" \t "), "");
}

#[test]
fn text_helpers() {
    assert_eq!(replace_all("a{{x}}b{{x}}", "{{x}}", "-"), "a-b-");
    assert_eq!(join(&strings(&["a", "b", "c"]), ", "), "a, b, c");
    assert_eq!(join(&Vec::new(), ","), "");
    assert!(is_blank(" \t\n"));
    assert!(!is_blank(" x "));
    assert!(str_lt("a", "b"));
    assert!(str_lt("a", "ab"));
    assert!(!str_lt("b", "ab"));
}

#[test]
fn deeply_nested_glob_is_an_error() {
    let nested = format!("{}a{}", "{".repeat(300), "}".repeat(300));
    assert_eq!(invalid_glob(glob_matches(&nested, "a").unwrap_err()), Some(nested.clone()));
    let too_deep = format!("{}a{}", "{".repeat(1001), "}".repeat(1001));
    match glob_matches(&too_deep, "a").unwrap_err() {
        AffectError::InvalidGlob { pattern, cause } => {
            assert_eq!(pattern, too_deep);
            assert!(cause.contains("limits"));
        }
        other => panic!("unexpected error {other:?}"),
    }
    let many = "{a}".repeat(1001);
    assert!(glob_matches(&many, &"a".repeat(1001)).unwrap());
    let classes = "[}]{a}".repeat(1001);
    assert!(!glob_matches(&classes, "x").unwrap());
    let fine = "{a,b}".repeat(3);
    assert!(glob_matches(&fine, "aba").unwrap());
    assert!(glob_matches("{x,{y,z}}", "z").unwrap());
}

#[test]
fn unicode_white_space_makes_a_stage_blank() {
    assert_eq!(task_stage(&task("a", "\u{3000}\u{2009}\u{85}", "x")), "default");
    assert_eq!(task_stage(&task("a", "\u{200B}", "x")), "\u{200B}");
    assert!(is_blank("\u{a0}\u{1680}\u{2028}\u{2029}\u{202f}\u{205f}\u{b}\u{c}\r"));
    assert!(!is_blank("\u{180e}"));
}

#[test]
fn package_sets_combine_by_union() {
    let mut config = empty_config();
    config.sets = vec![
        ("none".to_string(), PackageSetPolicy { packages: Vec::new() }),
        ("one".to_string(), PackageSetPolicy { packages: strings(&["a*"]) }),
        ("two".to_string(), PackageSetPolicy { packages: strings(&["c"]) }),
    ];
    let selected = strings(&["aa", "b", "c"]);
    let kept = apply_package_set_filters(selected.clone(), &config, &strings(&["one", "two"])).unwrap();
    assert_eq!(kept, strings(&["aa", "c"]));
    let kept = apply_package_set_filters(selected, &config, &strings(&["none"])).unwrap();
    assert!(kept.is_empty());
}

#[test]
fn select_all_only_when_a_file_calls_for_it() {
    let workspace = chain_workspace();
    let first = plan(&args(), "/ws", &workspace, &strings(&["/ws/a/src/lib.rs", "/ws/b/x.rs"]), &empty_config(), "linux", &None)
        .unwrap();
    assert!(!first.select_all);
    let mut config = empty_config();
    config.platform = vec![("linux".to_string(), PlatformPolicy { exclude: strings(&["b"]) })];
    let plan = plan(&args(), "/ws", &workspace, &strings(&["/ws/a/src/lib.rs", "/ws/notes.txt"]), &config, "linux", &None)
        .unwrap();
    assert!(plan.select_all);
    assert_eq!(plan.packages, vec!["a", "c"]);
}

#[test]
fn workspace_without_resolve_graph_has_no_dependents() {
    let workspace = Workspace::new(vec![package("b", "/ws/b"), package("a", "/ws/a")], &None);
    assert_eq!(workspace.dependents, vec![Vec::<usize>::new(), Vec::new()]);
    let plan = plan(&args(), "/ws", &workspace, &strings(&["/ws/a/x.rs"]), &empty_config(), "linux", &None).unwrap();
    assert_eq!(plan.packages, vec!["a"]);
}

#[test]
fn policy_tables_must_be_keyed_in_order() {
    let mut config = empty_config();
    assert!(config.is_wf());
    config.sets = vec![
        ("b".to_string(), PackageSetPolicy { packages: Vec::new() }),
        ("a".to_string(), PackageSetPolicy { packages: Vec::new() }),
    ];
    assert!(!config.is_wf());
    config.sets.reverse();
    assert!(config.is_wf());
    config.paths = vec![("x".to_string(), Vec::new()), ("x".to_string(), Vec::new())];
    assert!(!config.is_wf());
}

#[test]
fn git_output_is_read_or_refused() {
    assert_eq!(git_diff_names(false, Some("a\n")), Err(GitReadError::Failed));
    assert_eq!(git_diff_names(true, None), Err(GitReadError::NotUtf8));
    assert_eq!(git_diff_names(true, Some("a/x.rs\n \nb.rs\n")), Ok(strings(&["a/x.rs", "b.rs"])));
    assert_eq!(git_root_text(true, Some("/repo\n")), Ok("/repo".to_string()));
    assert_eq!(git_root_text(false, Some("/repo\n")), Err(GitReadError::Failed));
}

#[test]
fn a_failed_command_stops_the_run() {
    assert_eq!(after_command("build", true), None);
    assert_eq!(after_command("build", false), Some("build".to_string()));
}

#[test]
fn cache_workspace_is_relative_to_the_repository() {
    let workspace = Workspace::new(vec![package("a", "/repo/crates/a")], &None);
    let files = strings(&["/repo/crates/a/x.rs"]);
    let nested = plan(&args(), "/repo/crates", &workspace, &files, &empty_config(), "linux", &Some("/repo".to_string()))
        .unwrap();
    assert_eq!(nested.cache_dimensions.workspace, "crates");
    assert_eq!(nested.workspace_root, "/repo/crates");
    let same = plan(&args(), "/repo/crates", &workspace, &files, &empty_config(), "linux", &Some("/repo/crates".to_string()))
        .unwrap();
    assert_eq!(same.cache_dimensions.workspace, ".");
    let outside = plan(&args(), "/repo/crates", &workspace, &files, &empty_config(), "linux", &None).unwrap();
    assert_eq!(outside.cache_dimensions.workspace, "/repo/crates");
}

#[test]
fn profile_without_filters_keeps_dependents_and_reasons() {
    let mut config = empty_config();
    config.ci.profiles = vec![("plain".to_string(), profile(Vec::new()))];
    let mut a = args();
    a.profile = Some("plain".to_string());
    let plan = plan(&a, "/ws", &chain_workspace(), &strings(&["/ws/a/src/lib.rs"]), &config, "linux", &None).unwrap();
    assert_eq!(plan.packages, vec!["a", "b", "c"]);
    assert_eq!(plan.reasons[1], ("b".to_string(), strings(&["depends on a"])));
    assert_eq!(plan.reasons[2], ("c".to_string(), strings(&["depends on b"])));
    assert!(plan.ci.unwrap().tasks.is_empty());
}
