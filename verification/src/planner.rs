//! The plan: the selected packages after the policy's filters, the Cargo
//! and nextest arguments that name them, the reasons for each, and the CI
//! plan of the profile in force.

use vstd::prelude::*;

use crate::ci::{plan_ci, plan_ci_spec, CiPlan, CiPlanView};
use crate::config::{
    apply_package_set_filters, apply_platform_excludes, effective_package_sets,
    effective_platform, effective_platform_spec, effective_sets_spec,
    option_str_view, package_set_filter_spec, platform_filter_spec, resolve_ci_profile,
    resolve_profile_spec, PolicyConfig,
};
use crate::error::{AffectError, ErrorView};
use crate::names::{contains_name, sorted_names};
use crate::paths::{opt_view, relative_path, relative_spec};
use crate::selection::{dependent_views, reason_views, select_packages, selection_spec};
use crate::text::{join, join_seqs, string_views};
use crate::workspace::{package_names, Workspace};

verus! {

/// What the planner reads of the command line.
#[derive(Debug, Clone)]
pub struct CommonArgs {
    /// The git base ref.
    pub base: String,
    /// Package sets requested with `--set`.
    pub package_sets: Vec<String>,
    /// The platform requested with `--platform`.
    pub platform: Option<String>,
    /// The CI profile requested with `--profile`.
    pub profile: Option<String>,
}

/// What caches can be keyed by: the workspace and the selected packages.
#[derive(Debug)]
pub struct CacheDimensions {
    pub workspace: String,
    pub package_group: String,
}

/// The plan.
#[derive(Debug)]
pub struct Plan {
    pub workspace_root: String,
    pub base: String,
    pub changed_files: Vec<String>,
    pub packages: Vec<String>,
    pub package_args: String,
    pub nextest_expr: String,
    pub select_all: bool,
    pub cache_dimensions: CacheDimensions,
    pub ci: Option<CiPlan>,
    /// The reasons for each selected package, in package order.
    pub reasons: Vec<(String, Vec<String>)>,
}

/// A plan with its text as character sequences.
pub struct PlanView {
    pub workspace_root: Seq<char>,
    pub base: Seq<char>,
    pub changed_files: Seq<Seq<char>>,
    pub packages: Seq<Seq<char>>,
    pub package_args: Seq<char>,
    pub nextest_expr: Seq<char>,
    pub select_all: bool,
    pub cache_workspace: Seq<char>,
    pub package_group: Seq<char>,
    pub ci: Option<CiPlanView>,
    pub reasons: Seq<(Seq<char>, Seq<Seq<char>>)>,
}

/// Reason entries, as character sequences.
pub open spec fn entry_views(r: Seq<(String, Vec<String>)>) -> Seq<(Seq<char>, Seq<Seq<char>>)> {
    r.map_values(|e: (String, Vec<String>)| (e.0@, string_views(e.1@)))
}

impl View for Plan {
    type V = PlanView;

    open spec fn view(&self) -> PlanView {
        PlanView {
            workspace_root: self.workspace_root@,
            base: self.base@,
            changed_files: string_views(self.changed_files@),
            packages: string_views(self.packages@),
            package_args: self.package_args@,
            nextest_expr: self.nextest_expr@,
            select_all: self.select_all,
            cache_workspace: self.cache_dimensions.workspace@,
            package_group: self.cache_dimensions.package_group@,
            ci: match self.ci {
                Some(c) => Some(c@),
                None => None,
            },
            reasons: entry_views(self.reasons@),
        }
    }
}

/// The names of the selected packages, in order.
pub open spec fn picked(names: Seq<Seq<char>>, selected: Seq<bool>) -> Seq<Seq<char>>
    decreases names.len(),
{
    if names.len() == 0 {
        Seq::empty()
    } else {
        let rest = picked(names.drop_last(), selected);
        if selected[names.len() - 1] {
            rest.push(names.last())
        } else {
            rest
        }
    }
}

/// Picking keeps a subsequence: what it picks is a name, and sorted names
/// give sorted picks.
pub proof fn lemma_picked_subsequence(names: Seq<Seq<char>>, selected: Seq<bool>)
    ensures
        forall|x: Seq<char>| picked(names, selected).contains(x) ==> names.contains(x),
        sorted_names(names) ==> sorted_names(picked(names, selected)),
    decreases names.len(),
{
    if names.len() > 0 {
        let init = names.drop_last();
        lemma_picked_subsequence(init, selected);
        let rest = picked(init, selected);
        let p = picked(names, selected);
        assert forall|x: Seq<char>| p.contains(x) implies names.contains(x) by {
            let k = choose|k: int| 0 <= k < p.len() && p[k] == x;
            if k < rest.len() {
                assert(rest[k] == x);
                assert(rest.contains(x));
                assert(picked(init, selected).contains(x));
                assert(init.contains(x));
                let m = choose|m: int| 0 <= m < init.len() && init[m] == x;
                assert(init == names.subrange(0, names.len() - 1));
                assert(init[m] == names[m]);
                assert(names[m] == x);
            } else {
                assert(selected[names.len() - 1]);
                assert(p == rest.push(names.last()));
                assert(names[names.len() - 1] == x);
            }
        }
        if sorted_names(names) {
            assert(sorted_names(init));
            if selected[names.len() - 1] {
                assert forall|a: int, b: int| 0 <= a < b < p.len() implies crate::text::seq_lt(
                    #[trigger] p[a],
                    #[trigger] p[b],
                ) by {
                    if b < rest.len() {
                        assert(p[a] == rest[a]);
                        assert(p[b] == rest[b]);
                    } else {
                        assert(p[a] == rest[a]);
                        assert(rest.contains(rest[a]));
                        assert(picked(init, selected).contains(rest[a]));
                        assert(init.contains(rest[a]));
                        let m = choose|m: int| 0 <= m < init.len() && init[m] == rest[a];
                        assert(init == names.subrange(0, names.len() - 1));
                        assert(init[m] == names[m]);
                        assert(names[m] == p[a]);
                        assert(p[b] == names[names.len() - 1]);
                        assert(m < names.len() - 1);
                    }
                }
            }
        }
    }
}

/// The reasons of the packages still selected after the filters, in
/// package order, for each package that has any.
pub open spec fn reason_entries(
    names: Seq<Seq<char>>,
    reasons: Seq<Seq<Seq<char>>>,
    kept: Seq<Seq<char>>,
) -> Seq<(Seq<char>, Seq<Seq<char>>)>
    decreases names.len(),
{
    if names.len() == 0 {
        Seq::empty()
    } else {
        let rest = reason_entries(names.drop_last(), reasons, kept);
        let i = names.len() - 1;
        if reasons[i].len() > 0 && kept.contains(names[i]) {
            rest.push((names[i], reasons[i]))
        } else {
            rest
        }
    }
}

/// "-p NAME" for each package, joined with spaces.
pub open spec fn package_args_spec(packages: Seq<Seq<char>>) -> Seq<char> {
    join_seqs(packages.map_values(|p: Seq<char>| "-p "@ + p), " "@)
}

/// "package(NAME)" for each package, joined with " | ".
pub open spec fn nextest_expr_spec(packages: Seq<Seq<char>>) -> Seq<char> {
    join_seqs(packages.map_values(|p: Seq<char>| "package("@ + p + ")"@), " | "@)
}

/// The workspace as a cache dimension: its root relative to the root of
/// the repository that holds it, "." where the two are the same; the root
/// itself outside a repository.
pub open spec fn cache_workspace_spec(root: Seq<char>, repository: Option<Seq<char>>) -> Seq<char> {
    let rel = match repository {
        Some(r) => relative_spec(root, r),
        None => root,
    };
    if rel.len() == 0 {
        "."@
    } else {
        rel
    }
}

/// The plan for a set of changed files (absolute, normalized) in a
/// workspace whose root is `root`, in the repository whose root is
/// `repository`, where there is one.
pub open spec fn plan_spec(
    args: CommonArgs,
    root: Seq<char>,
    workspace: Workspace,
    files: Seq<Seq<char>>,
    config: PolicyConfig,
    default_platform: Seq<char>,
    repository: Option<Seq<char>>,
) -> Result<PlanView, ErrorView> {
    let profile_name = opt_view(args.profile);
    match resolve_profile_spec(config, profile_name) {
        Err(e) => Err(e),
        Ok(profile) => {
            let sets = effective_sets_spec(string_views(args.package_sets@), profile);
            let platform = effective_platform_spec(opt_view(args.platform), profile, default_platform);
            let names = package_names(workspace.packages@);
            let rel_files = files.map_values(|f: Seq<char>| relative_spec(f, root));
            match selection_spec(workspace.packages@, dependent_views(workspace.dependents@), config, root, files) {
                Err(e) => Err(e),
                Ok(st) => match package_set_filter_spec(picked(names, st.selected), config, sets) {
                    Err(e) => Err(e),
                    Ok(s1) => match platform_filter_spec(s1, config, platform) {
                        Err(e) => Err(e),
                        Ok(kept) => {
                            let pa = package_args_spec(kept);
                            let ne = nextest_expr_spec(kept);
                            match plan_ci_spec(profile_name, profile, kept, rel_files, pa, ne) {
                                Err(e) => Err(e),
                                Ok(ci) => Ok(
                                    PlanView {
                                        workspace_root: root,
                                        base: args.base@,
                                        changed_files: rel_files,
                                        packages: kept,
                                        package_args: pa,
                                        nextest_expr: ne,
                                        select_all: st.select_all,
                                        cache_workspace: cache_workspace_spec(root, repository),
                                        package_group: join_seqs(kept, ","@),
                                        ci,
                                        reasons: reason_entries(names, st.reasons, kept),
                                    },
                                ),
                            }
                        },
                    },
                },
            }
        },
    }
}

/// The names of the selected packages, in workspace order.
fn selected_names(workspace: &Workspace, selected: &Vec<bool>) -> (res: Vec<String>)
    requires
        selected@.len() == workspace.packages@.len(),
    ensures
        string_views(res@) == picked(package_names(workspace.packages@), selected@),
{
    let ghost names = package_names(workspace.packages@);
    let mut res: Vec<String> = Vec::new();
    let mut i: usize = 0;
    while i < workspace.packages.len()
        invariant
            names == package_names(workspace.packages@),
            selected@.len() == workspace.packages@.len(),
            i <= workspace.packages.len(),
            string_views(res@) == picked(names.take(i as int), selected@),
        decreases workspace.packages.len() - i,
    {
        let ghost before = string_views(res@);
        if selected[i] {
            res.push(workspace.packages[i].name.clone());
        }
        proof {
            let t = names.take(i + 1);
            assert(t.drop_last() =~= names.take(i as int));
            assert(t.last() == workspace.packages@[i as int].name@);
            if selected@[i as int] {
                assert(string_views(res@) =~= before.push(t.last()));
            } else {
                assert(string_views(res@) =~= before);
            }
        }
        i = i + 1;
    }
    assert(names.take(workspace.packages.len() as int) =~= names);
    res
}

/// The reasons of the packages kept, in workspace order.
fn kept_reasons(workspace: &Workspace, reasons: &Vec<Vec<String>>, kept: &Vec<String>) -> (res: Vec<
    (String, Vec<String>),
>)
    requires
        reasons@.len() == workspace.packages@.len(),
    ensures
        entry_views(res@) == reason_entries(
            package_names(workspace.packages@),
            reason_views(reasons@),
            string_views(kept@),
        ),
{
    let ghost names = package_names(workspace.packages@);
    let ghost rv = reason_views(reasons@);
    let mut res: Vec<(String, Vec<String>)> = Vec::new();
    let mut i: usize = 0;
    while i < workspace.packages.len()
        invariant
            names == package_names(workspace.packages@),
            rv == reason_views(reasons@),
            reasons@.len() == workspace.packages@.len(),
            i <= workspace.packages.len(),
            entry_views(res@) == reason_entries(names.take(i as int), rv, string_views(kept@)),
        decreases workspace.packages.len() - i,
    {
        let ghost before = entry_views(res@);
        let name = &workspace.packages[i].name;
        let take = reasons[i].len() > 0 && contains_name(kept, name.as_str());
        if take {
            res.push((name.clone(), crate::ci::clone_strings(&reasons[i])));
        }
        proof {
            let t = names.take(i + 1);
            assert(t.drop_last() =~= names.take(i as int));
            assert(t[i as int] == name@);
            assert(rv[i as int] == string_views(reasons@[i as int]@));
            if take {
                assert(entry_views(res@) =~= before.push((t[i as int], rv[i as int])));
            } else {
                assert(entry_views(res@) =~= before);
            }
        }
        i = i + 1;
    }
    assert(names.take(workspace.packages.len() as int) =~= names);
    res
}

/// Each name with `prefix` before it and `suffix` after it.
fn decorated(names: &Vec<String>, prefix: &str, suffix: &str) -> (res: Vec<String>)
    ensures
        string_views(res@) == string_views(names@).map_values(|p: Seq<char>| prefix@ + p + suffix@),
{
    let mut res: Vec<String> = Vec::new();
    let mut i: usize = 0;
    while i < names.len()
        invariant
            i <= names.len(),
            res@.len() == i,
            string_views(res@) == string_views(names@).take(i as int).map_values(|p: Seq<char>| prefix@ + p + suffix@),
        decreases names.len() - i,
    {
        let mut s = prefix.to_string();
        s.append(names[i].as_str());
        s.append(suffix);
        let ghost before = string_views(res@);
        let ghost old_res = res@;
        let ghost sv = s@;
        res.push(s);
        proof {
            let target = string_views(names@).take(i + 1).map_values(|p: Seq<char>| prefix@ + p + suffix@);
            assert(sv == prefix@ + names@[i as int]@ + suffix@);
            assert forall|k: int| 0 <= k < i + 1 implies #[trigger] string_views(res@)[k] == target[k] by {
                if k < i {
                    assert(res@[k] == old_res[k]);
                    assert(string_views(res@)[k] == res@[k]@);
                    assert(before[k] == old_res[k]@);
                }
            }
            assert(string_views(res@) =~= target);
        }
        i = i + 1;
    }
    assert(string_views(names@).take(names.len() as int) =~= string_views(names@));
    res
}

/// The paths of the changed files relative to the workspace root.
fn relative_files(changed_files: &Vec<String>, root: &str) -> (res: Vec<String>)
    ensures
        string_views(res@) == string_views(changed_files@).map_values(|f: Seq<char>| relative_spec(f, root@)),
{
    let mut res: Vec<String> = Vec::new();
    let mut i: usize = 0;
    while i < changed_files.len()
        invariant
            i <= changed_files.len(),
            res@.len() == i,
            string_views(res@) == string_views(changed_files@).take(i as int).map_values(|f: Seq<char>| relative_spec(f, root@)),
        decreases changed_files.len() - i,
    {
        let ghost before = string_views(res@);
        let ghost old_res = res@;
        res.push(relative_path(changed_files[i].as_str(), root));
        proof {
            let target = string_views(changed_files@).take(i + 1).map_values(|f: Seq<char>| relative_spec(f, root@));
            assert forall|k: int| 0 <= k < i + 1 implies #[trigger] string_views(res@)[k] == target[k] by {
                if k < i {
                    assert(res@[k] == old_res[k]);
                    assert(string_views(res@)[k] == res@[k]@);
                    assert(before[k] == old_res[k]@);
                }
            }
            assert(string_views(res@) =~= target);
        }
        i = i + 1;
    }
    assert(string_views(changed_files@).take(changed_files.len() as int) =~= string_views(changed_files@));
    res
}

/// The workspace as a cache dimension.
fn cache_workspace(workspace_root: &str, repository_root: &Option<String>) -> (res: String)
    ensures
        res@ == cache_workspace_spec(workspace_root@, opt_view(*repository_root)),
{
    let rel = match repository_root {
        Some(r) => relative_path(workspace_root, r.as_str()),
        None => workspace_root.to_string(),
    };
    if rel.unicode_len() == 0 {
        ".".to_string()
    } else {
        rel
    }
}

/// The plan for a set of changed files (absolute, normalized) in a
/// workspace whose root is `workspace_root`, in the repository whose root
/// is `repository_root` where there is one; `default_platform` is the
/// platform in force where neither `--platform` nor the profile names one.
/// The policy's tables must hold their keys in order, each once.
pub fn plan(
    args: &CommonArgs,
    workspace_root: &str,
    workspace: &Workspace,
    changed_files: &Vec<String>,
    config: &PolicyConfig,
    default_platform: &str,
    repository_root: &Option<String>,
) -> (res: Result<Plan, AffectError>)
    requires
        workspace.wf(),
        config.wf(),
    ensures
        match plan_spec(
            *args,
            workspace_root@,
            *workspace,
            string_views(changed_files@),
            *config,
            default_platform@,
            opt_view(*repository_root),
        ) {
            Ok(p) => res matches Ok(x) && x@ == p,
            Err(e) => res matches Err(x) && x@ == e,
        },
{
    let profile_name: Option<&str> = match &args.profile {
        Some(p) => Some(p.as_str()),
        None => None,
    };
    assert(option_str_view(profile_name) == opt_view(args.profile));
    let profile = match resolve_ci_profile(config, profile_name) {
        Ok(p) => p,
        Err(e) => {
            return Err(e);
        },
    };
    let package_sets = effective_package_sets(&args.package_sets, profile);
    let platform = effective_platform(&args.platform, profile, default_platform);
    let changed_relative_files = relative_files(changed_files, workspace_root);
    let sel = match select_packages(workspace, config, workspace_root, changed_files) {
        Ok(s) => s,
        Err(e) => {
            return Err(e);
        },
    };
    let selected = selected_names(workspace, &sel.selected);
    let selected = match apply_package_set_filters(selected, config, &package_sets) {
        Ok(s) => s,
        Err(e) => {
            return Err(e);
        },
    };
    let selected = match apply_platform_excludes(selected, config, platform.as_str()) {
        Ok(s) => s,
        Err(e) => {
            return Err(e);
        },
    };
    let reasons = kept_reasons(workspace, &sel.reasons, &selected);
    let package_group = join(&selected, ",");
    let package_args = join(&decorated(&selected, "-p ", ""), " ");
    let nextest_expr = join(&decorated(&selected, "package(", ")"), " | ");
    proof {
        reveal_strlit("");
        assert forall|p: Seq<char>| "-p "@ + p + ""@ == "-p "@ + p by {
            assert("-p "@ + p + ""@ =~= "-p "@ + p);
        }
        assert(string_views(selected@).map_values(|p: Seq<char>| "-p "@ + p + ""@) =~= string_views(selected@).map_values(|p: Seq<char>| "-p "@ + p));
    }
    let ci = match plan_ci(
        profile_name,
        profile,
        &selected,
        &changed_relative_files,
        package_args.as_str(),
        nextest_expr.as_str(),
    ) {
        Ok(c) => c,
        Err(e) => {
            return Err(e);
        },
    };
    Ok(
        Plan {
            workspace_root: workspace_root.to_string(),
            base: args.base.clone(),
            changed_files: changed_relative_files,
            packages: selected,
            package_args,
            nextest_expr,
            select_all: sel.select_all,
            cache_dimensions: CacheDimensions {
                workspace: cache_workspace(workspace_root, repository_root),
                package_group,
            },
            ci,
            reasons,
        },
    )
}

} // verus!
