//! What holds of every plan: the planned packages are selected workspace
//! packages in name order, each explained by at least one reason; the
//! filters only remove; an empty plan has empty outputs and no CI tasks;
//! CI tasks come only with a profile.

use vstd::prelude::*;

use crate::config::{
    lemma_glob_filter_subsequence, lookup, package_set_filter_spec, platform_filter_spec, PolicyConfig,
};
use crate::names::sorted_names;
use crate::paths::opt_view;
use crate::planner::{lemma_picked_subsequence, picked, plan_spec, reason_entries, CommonArgs};
use crate::selection::{
    add_global, bfs, count_unselected, deps_of, dependent_views, expand, file_step, initial_state,
    lemma_expand_measure, map_names, mark, name_index, owns,
    owner_spec, scan_files, selection_spec, SelState,
};
use crate::workspace::{package_names, Workspace, WorkspacePackage};
use crate::ci::{first_match, pattern_reasons, planned_spec, task_match_spec};
use crate::glob::glob_match;

verus! {

/// Sizes fit `n` packages; every selected package has a reason; where
/// everything is selected, every package has one.
pub open spec fn reasons_inv(st: SelState, n: nat) -> bool {
    &&& st.selected.len() == n
    &&& st.reasons.len() == n
    &&& forall|i: int| 0 <= i < n && #[trigger] st.selected[i] ==> st.reasons[i].len() > 0
    &&& st.select_all ==> forall|i: int| 0 <= i < n ==> (#[trigger] st.reasons[i]).len() > 0
}

proof fn lemma_mark_reasons(st: SelState, n: nat, i: int, msg: Seq<char>)
    requires
        reasons_inv(st, n),
        0 <= i < n,
    ensures
        reasons_inv(mark(st, i, msg), n),
{
    let r = mark(st, i, msg);
    assert forall|j: int| 0 <= j < n && #[trigger] r.selected[j] implies r.reasons[j].len() > 0 by {
        if j != i {
            assert(st.selected[j]);
        }
    }
    if r.select_all {
        assert forall|j: int| 0 <= j < n implies (#[trigger] r.reasons[j]).len() > 0 by {
            if j != i {
                assert(st.reasons[j].len() > 0);
            }
        }
    }
}

proof fn lemma_add_global_reasons(st: SelState, n: nat, file: Seq<char>)
    requires
        reasons_inv(st, n),
    ensures
        reasons_inv(add_global(st, file), n),
{
    let r = add_global(st, file);
    assert forall|j: int| 0 <= j < n implies (#[trigger] r.reasons[j]).len() > 0 by {
        assert(r.reasons[j] == st.reasons[j].push("global impact: "@ + file));
    }
}

proof fn lemma_map_names_reasons(names: Seq<Seq<char>>, mapped: Seq<Seq<char>>, rel: Seq<char>, st: SelState)
    requires
        reasons_inv(st, names.len()),
    ensures
        map_names(names, mapped, rel, st) matches Ok(r) ==> reasons_inv(r, names.len()),
    decreases mapped.len(),
{
    if mapped.len() > 0 {
        match name_index(names, mapped[0]) {
            None => {},
            Some(i) => {
                lemma_mark_reasons(st, names.len(), i, "path rule: "@ + rel);
                lemma_map_names_reasons(names, mapped.drop_first(), rel, mark(st, i, "path rule: "@ + rel));
            },
        }
    }
}

proof fn lemma_scan_reasons(
    packages: Seq<WorkspacePackage>,
    config: PolicyConfig,
    root: Seq<char>,
    files: Seq<Seq<char>>,
    st: SelState,
)
    requires
        reasons_inv(st, packages.len()),
    ensures
        scan_files(packages, config, root, files, st) matches Ok(r) ==> reasons_inv(r, packages.len()),
    decreases files.len(),
{
    if files.len() > 0 {
        let n = packages.len();
        let rel = crate::paths::relative_spec(files[0], root);
        assert(package_names(packages).len() == n);
        lemma_add_global_reasons(st, n, files[0]);
        match file_step(packages, config, root, files[0], st) {
            Err(_) => {},
            Ok(next) => {
                if !crate::paths::global_impact(files[0]) {
                    match crate::glob::any_glob(crate::text::string_views(config.global@), rel) {
                        Err(_) => {},
                        Ok(true) => {},
                        Ok(false) => match crate::config::mapped_spec(config.paths@, rel) {
                            Err(_) => {},
                            Ok(Some(set)) => {
                                lemma_map_names_reasons(
                                    package_names(packages),
                                    crate::selection::sorted_of(set),
                                    rel,
                                    st,
                                );
                            },
                            Ok(None) => match owner_spec(packages, files[0]) {
                                Some(i) => {
                                    assert(owns(packages, files[0], i));
                                    lemma_mark_reasons(st, n, i, "changed: "@ + rel);
                                },
                                None => {},
                            },
                        },
                    }
                }
                lemma_scan_reasons(packages, config, root, files.drop_first(), next);
            },
        }
    }
}

proof fn lemma_expand_reasons(deps: Seq<usize>, msg: Seq<char>, st: SelState, n: nat)
    requires
        reasons_inv(st, n),
    ensures
        reasons_inv(expand(deps, msg, st), n),
    decreases deps.len(),
{
    if deps.len() > 0 {
        let d = deps[0] as int;
        if d < st.selected.len() && !st.selected[d] {
            lemma_mark_reasons(st, n, d, msg);
            lemma_expand_reasons(deps.drop_first(), msg, mark(st, d, msg), n);
        } else {
            lemma_expand_reasons(deps.drop_first(), msg, st, n);
        }
    }
}

proof fn lemma_bfs_reasons(dependents: Seq<Seq<usize>>, names: Seq<Seq<char>>, st: SelState, n: nat)
    requires
        reasons_inv(st, n),
    ensures
        reasons_inv(bfs(dependents, names, st), n),
    decreases count_unselected(st.selected) + st.queue.len(),
{
    if st.queue.len() > 0 {
        let p = st.queue[0];
        let popped = SelState {
            selected: st.selected,
            reasons: st.reasons,
            queue: st.queue.drop_first(),
            select_all: st.select_all,
        };
        let msg = "depends on "@ + names[p as int];
        lemma_expand_measure(deps_of(dependents, p), msg, popped);
        lemma_expand_reasons(deps_of(dependents, p), msg, popped, n);
        lemma_bfs_reasons(dependents, names, expand(deps_of(dependents, p), msg, popped), n);
    }
}

/// Every selected package is explained: the selection gives each package it
/// selects at least one reason.
pub proof fn law_selected_packages_have_reasons(
    packages: Seq<WorkspacePackage>,
    dependents: Seq<Seq<usize>>,
    config: PolicyConfig,
    root: Seq<char>,
    files: Seq<Seq<char>>,
)
    ensures
        selection_spec(packages, dependents, config, root, files) matches Ok(st) ==> {
            &&& st.selected.len() == packages.len()
            &&& st.reasons.len() == packages.len()
            &&& forall|i: int| 0 <= i < packages.len() && #[trigger] st.selected[i] ==> st.reasons[i].len() > 0
        },
{
    let n = packages.len();
    let init = initial_state(n);
    assert(reasons_inv(init, n));
    lemma_scan_reasons(packages, config, root, files, init);
    match scan_files(packages, config, root, files, init) {
        Err(_) => {},
        Ok(direct) => {
            if !direct.select_all {
                lemma_bfs_reasons(dependents, package_names(packages), direct, n);
            }
        },
    }
}

/// What picking selected names keeps: each picked name is the name of a
/// selected place.
proof fn lemma_picked_index(names: Seq<Seq<char>>, selected: Seq<bool>, x: Seq<char>)
    requires
        picked(names, selected).contains(x),
    ensures
        exists|i: int| 0 <= i < names.len() && selected[i] && #[trigger] names[i] == x,
    decreases names.len(),
{
    let init = names.drop_last();
    let rest = picked(init, selected);
    if rest.contains(x) {
        lemma_picked_index(init, selected, x);
        let i = choose|i: int| 0 <= i < init.len() && selected[i] && #[trigger] init[i] == x;
        assert(names[i] == init[i]);
    } else {
        assert(selected[names.len() - 1]);
        let p = picked(names, selected);
        assert(p == rest.push(names.last()));
        let k = choose|k: int| 0 <= k < p.len() && p[k] == x;
        if k < rest.len() {
            assert(rest[k] == x);
            assert(rest.contains(x));
        }
        assert(names[names.len() - 1] == x);
    }
}

/// Each selected place's name is picked.
proof fn lemma_index_picked(names: Seq<Seq<char>>, selected: Seq<bool>, i: int)
    requires
        0 <= i < names.len(),
        selected[i],
    ensures
        picked(names, selected).contains(names[i]),
    decreases names.len(),
{
    let init = names.drop_last();
    let rest = picked(init, selected);
    if i < names.len() - 1 {
        lemma_index_picked(init, selected, i);
        assert(init[i] == names[i]);
        let k = choose|k: int| 0 <= k < rest.len() && rest[k] == names[i];
        if selected[names.len() - 1] {
            assert(picked(names, selected)[k] == rest[k]);
        }
    } else {
        assert(picked(names, selected) == rest.push(names.last()));
        assert(picked(names, selected)[rest.len() as int] == names[i]);
    }
}

/// The reason entries name only kept packages, each with reasons.
proof fn lemma_reason_entries_kept(
    names: Seq<Seq<char>>,
    reasons: Seq<Seq<Seq<char>>>,
    kept: Seq<Seq<char>>,
    e: (Seq<char>, Seq<Seq<char>>),
)
    requires
        reason_entries(names, reasons, kept).contains(e),
    ensures
        kept.contains(e.0),
        e.1.len() > 0,
    decreases names.len(),
{
    let rest = reason_entries(names.drop_last(), reasons, kept);
    if rest.contains(e) {
        lemma_reason_entries_kept(names.drop_last(), reasons, kept, e);
    } else {
        let r = reason_entries(names, reasons, kept);
        let k = choose|k: int| 0 <= k < r.len() && r[k] == e;
        let i = names.len() - 1;
        if !(reasons[i].len() > 0 && kept.contains(names[i])) {
            assert(r == rest);
            assert(rest.contains(e));
        } else {
            assert(r == rest.push((names[i], reasons[i])));
            if k < rest.len() {
                assert(rest[k] == e);
                assert(rest.contains(e));
            }
        }
    }
}

/// A kept package with reasons has its entry.
proof fn lemma_reason_entries_has(
    names: Seq<Seq<char>>,
    reasons: Seq<Seq<Seq<char>>>,
    kept: Seq<Seq<char>>,
    i: int,
)
    requires
        0 <= i < names.len(),
        reasons[i].len() > 0,
        kept.contains(names[i]),
    ensures
        reason_entries(names, reasons, kept).contains((names[i], reasons[i])),
    decreases names.len(),
{
    let init = names.drop_last();
    let rest = reason_entries(init, reasons, kept);
    let r = reason_entries(names, reasons, kept);
    let last = names.len() - 1;
    if i < last {
        assert(init[i] == names[i]);
        lemma_reason_entries_has(init, reasons, kept, i);
        let k = choose|k: int| 0 <= k < rest.len() && rest[k] == (init[i], reasons[i]);
        if reasons[last].len() > 0 && kept.contains(names[last]) {
            assert(r[k] == rest[k]);
        }
    } else {
        assert(r == rest.push((names[i], reasons[i])));
        assert(r[rest.len() as int] == (names[i], reasons[i]));
    }
}

/// The names of reason entries.
pub open spec fn entry_names(e: Seq<(Seq<char>, Seq<Seq<char>>)>) -> Seq<Seq<char>> {
    e.map_values(|x: (Seq<char>, Seq<Seq<char>>)| x.0)
}

/// Reason entries follow the order of the names, each name at most once.
proof fn lemma_reason_entries_sorted(names: Seq<Seq<char>>, reasons: Seq<Seq<Seq<char>>>, kept: Seq<Seq<char>>)
    requires
        sorted_names(names),
    ensures
        sorted_names(entry_names(reason_entries(names, reasons, kept))),
        forall|k: int|
            0 <= k < reason_entries(names, reasons, kept).len() ==> names.contains(
                #[trigger] reason_entries(names, reasons, kept)[k].0,
            ),
    decreases names.len(),
{
    if names.len() > 0 {
        let init = names.drop_last();
        assert(sorted_names(init));
        lemma_reason_entries_sorted(init, reasons, kept);
        let rest = reason_entries(init, reasons, kept);
        let r = reason_entries(names, reasons, kept);
        let i = names.len() - 1;
        assert forall|k: int| 0 <= k < rest.len() implies names.contains(#[trigger] rest[k].0) by {
            assert(init.contains(rest[k].0));
            let m = choose|m: int| 0 <= m < init.len() && init[m] == rest[k].0;
            assert(names[m] == init[m]);
        }
        if reasons[i].len() > 0 && kept.contains(names[i]) {
            assert(r == rest.push((names[i], reasons[i])));
            assert forall|k: int| 0 <= k < r.len() implies names.contains(#[trigger] r[k].0) by {
                if k < rest.len() {
                    assert(r[k] == rest[k]);
                } else {
                    assert(names[i] == r[k].0);
                }
            }
            let en = entry_names(r);
            let er = entry_names(rest);
            assert forall|a: int, b: int| 0 <= a < b < en.len() implies crate::text::seq_lt(
                #[trigger] en[a],
                #[trigger] en[b],
            ) by {
                assert(en[a] == r[a].0);
                assert(en[b] == r[b].0);
                if b < rest.len() {
                    assert(er[a] == rest[a].0);
                    assert(er[b] == rest[b].0);
                } else {
                    assert(r[a] == rest[a]);
                    assert(init.contains(rest[a].0));
                    let m = choose|m: int| 0 <= m < init.len() && init[m] == rest[a].0;
                    assert(names[m] == init[m]);
                    assert(m < i);
                }
            }
        } else {
            assert(r == rest);
        }
    }
}

/// The packages that survive the two filters of a plan.
proof fn lemma_filters_keep_subsequence(
    selected: Seq<Seq<char>>,
    config: PolicyConfig,
    sets: Seq<Seq<char>>,
    platform: Seq<char>,
)
    ensures
        package_set_filter_spec(selected, config, sets) matches Ok(s1) ==> {
            &&& forall|x: Seq<char>| s1.contains(x) ==> selected.contains(x)
            &&& sorted_names(selected) ==> sorted_names(s1)
            &&& platform_filter_spec(s1, config, platform) matches Ok(kept) ==> {
                &&& forall|x: Seq<char>| kept.contains(x) ==> selected.contains(x)
                &&& sorted_names(selected) ==> sorted_names(kept)
            }
        },
{
    if sets.len() > 0 {
        match crate::config::set_patterns(config.sets@, sets) {
            Err(_) => {},
            Ok(patterns) => {
                lemma_glob_filter_subsequence(selected, patterns, true);
            },
        }
    }
    match package_set_filter_spec(selected, config, sets) {
        Err(_) => {},
        Ok(s1) => match lookup(config.platform@, platform) {
            None => {},
            Some(policy) => {
                lemma_glob_filter_subsequence(s1, crate::text::string_views(policy.exclude@), false);
            },
        },
    }
}

/// The selection of a plan's inputs.
pub open spec fn plan_selection(
    workspace: Workspace,
    config: PolicyConfig,
    root: Seq<char>,
    files: Seq<Seq<char>>,
) -> SelState {
    selection_spec(workspace.packages@, dependent_views(workspace.dependents@), config, root, files)->Ok_0
}

/// Filters only remove: every planned package is a workspace package that
/// the changed files selected, and the planned packages come in name order,
/// each once.
pub proof fn law_planned_packages_are_selected(
    args: CommonArgs,
    root: Seq<char>,
    workspace: Workspace,
    files: Seq<Seq<char>>,
    config: PolicyConfig,
    default_platform: Seq<char>,
    repository: Option<Seq<char>>,
)
    requires
        workspace.wf(),
    ensures
        plan_spec(args, root, workspace, files, config, default_platform, repository) matches Ok(p) ==> {
            let names = package_names(workspace.packages@);
            let st = plan_selection(workspace, config, root, files);
            &&& sorted_names(p.packages)
            &&& forall|x: Seq<char>|
                #[trigger] p.packages.contains(x) ==> exists|i: int|
                    0 <= i < names.len() && st.selected[i] && #[trigger] names[i] == x
        },
{
    lemma_plan_packages(args, root, workspace, files, config, default_platform, repository);
}

proof fn lemma_plan_packages(
    args: CommonArgs,
    root: Seq<char>,
    workspace: Workspace,
    files: Seq<Seq<char>>,
    config: PolicyConfig,
    default_platform: Seq<char>,
    repository: Option<Seq<char>>,
)
    requires
        workspace.wf(),
    ensures
        plan_spec(args, root, workspace, files, config, default_platform, repository) matches Ok(p) ==> {
            let names = package_names(workspace.packages@);
            let st = plan_selection(workspace, config, root, files);
            &&& sorted_names(p.packages)
            &&& forall|x: Seq<char>|
                p.packages.contains(x) ==> picked(names, st.selected).contains(x)
            &&& forall|x: Seq<char>|
                #[trigger] p.packages.contains(x) ==> exists|i: int|
                    0 <= i < names.len() && st.selected[i] && #[trigger] names[i] == x
        },
{
    let names = package_names(workspace.packages@);
    let profile_name = opt_view(args.profile);
    match crate::config::resolve_profile_spec(config, profile_name) {
        Err(_) => {},
        Ok(profile) => {
            let sets = crate::config::effective_sets_spec(crate::text::string_views(args.package_sets@), profile);
            let platform = crate::config::effective_platform_spec(opt_view(args.platform), profile, default_platform);
            match selection_spec(workspace.packages@, dependent_views(workspace.dependents@), config, root, files) {
                Err(_) => {},
                Ok(st) => {
                    let chosen = picked(names, st.selected);
                    lemma_picked_subsequence(names, st.selected);
                    lemma_filters_keep_subsequence(chosen, config, sets, platform);
                    if plan_spec(args, root, workspace, files, config, default_platform, repository) is Ok {
                        let p = plan_spec(args, root, workspace, files, config, default_platform, repository)->Ok_0;
                        let s1 = package_set_filter_spec(chosen, config, sets)->Ok_0;
                        assert(platform_filter_spec(s1, config, platform) == Ok::<Seq<Seq<char>>, crate::error::ErrorView>(p.packages));
                        assert forall|x: Seq<char>| #[trigger] p.packages.contains(x) implies exists|i: int|
                            0 <= i < names.len() && st.selected[i] && #[trigger] names[i] == x by {
                            lemma_picked_index(names, st.selected, x);
                        }
                    }
                },
            }
        },
    }
}

/// Every planned package is explained, and only planned packages are: the
/// reasons of a plan name exactly its packages, in name order and each
/// once, each with at least one reason.
pub proof fn law_reasons_explain_exactly_the_planned_packages(
    args: CommonArgs,
    root: Seq<char>,
    workspace: Workspace,
    files: Seq<Seq<char>>,
    config: PolicyConfig,
    default_platform: Seq<char>,
    repository: Option<Seq<char>>,
)
    requires
        workspace.wf(),
    ensures
        plan_spec(args, root, workspace, files, config, default_platform, repository) matches Ok(p) ==> {
            &&& sorted_names(entry_names(p.reasons))
            &&& forall|k: int| 0 <= k < p.reasons.len() ==> p.packages.contains(#[trigger] p.reasons[k].0)
                && p.reasons[k].1.len() > 0
            &&& forall|x: Seq<char>|
                #[trigger] p.packages.contains(x) ==> exists|k: int|
                    0 <= k < p.reasons.len() && (#[trigger] p.reasons[k]).0 == x
        },
{
    lemma_plan_packages(args, root, workspace, files, config, default_platform, repository);
    let names = package_names(workspace.packages@);
    law_selected_packages_have_reasons(
        workspace.packages@,
        dependent_views(workspace.dependents@),
        config,
        root,
        files,
    );
    if plan_spec(args, root, workspace, files, config, default_platform, repository) is Ok {
        let p = plan_spec(args, root, workspace, files, config, default_platform, repository)->Ok_0;
        let st = plan_selection(workspace, config, root, files);
        assert(p.reasons == reason_entries(names, st.reasons, p.packages));
        lemma_reason_entries_sorted(names, st.reasons, p.packages);
        assert forall|k: int| 0 <= k < p.reasons.len() implies p.packages.contains(#[trigger] p.reasons[k].0)
            && p.reasons[k].1.len() > 0 by {
            assert(p.reasons.contains(p.reasons[k]));
            lemma_reason_entries_kept(names, st.reasons, p.packages, p.reasons[k]);
        }
        assert forall|x: Seq<char>| #[trigger] p.packages.contains(x) implies exists|k: int|
            0 <= k < p.reasons.len() && (#[trigger] p.reasons[k]).0 == x by {
            let i = choose|i: int| 0 <= i < names.len() && st.selected[i] && #[trigger] names[i] == x;
            assert(st.reasons[i].len() > 0);
            lemma_reason_entries_has(names, st.reasons, p.packages, i);
            let k = choose|k: int| 0 <= k < p.reasons.len() && p.reasons[k] == (names[i], st.reasons[i]);
            assert(p.reasons[k].0 == x);
        }
    }
}

/// A plan that selects no package has empty Cargo arguments, an empty
/// nextest expression, an empty package group, and no CI tasks.
pub proof fn law_empty_plan_has_empty_outputs(
    args: CommonArgs,
    root: Seq<char>,
    workspace: Workspace,
    files: Seq<Seq<char>>,
    config: PolicyConfig,
    default_platform: Seq<char>,
    repository: Option<Seq<char>>,
)
    ensures
        plan_spec(args, root, workspace, files, config, default_platform, repository) matches Ok(p) ==> (p.packages.len()
            == 0 ==> {
            &&& p.package_args.len() == 0
            &&& p.nextest_expr.len() == 0
            &&& p.package_group.len() == 0
            &&& p.ci matches Some(c) ==> c.tasks.len() == 0
        }),
{
}

/// CI tasks come only with a profile: without `--profile` a plan has no CI
/// part; with one, its CI part carries the profile's name.
pub proof fn law_ci_plan_follows_profile(
    args: CommonArgs,
    root: Seq<char>,
    workspace: Workspace,
    files: Seq<Seq<char>>,
    config: PolicyConfig,
    default_platform: Seq<char>,
    repository: Option<Seq<char>>,
)
    ensures
        plan_spec(args, root, workspace, files, config, default_platform, repository) matches Ok(p) ==> {
            &&& args.profile is None ==> p.ci is None
            &&& args.profile matches Some(name) ==> p.ci matches Some(c) && c.profile == name@
        },
{
}

/// Picking every place picks every name.
proof fn lemma_picked_all(names: Seq<Seq<char>>, selected: Seq<bool>)
    requires
        forall|i: int| 0 <= i < names.len() ==> #[trigger] selected[i],
    ensures
        picked(names, selected) == names,
    decreases names.len(),
{
    if names.len() > 0 {
        lemma_picked_all(names.drop_last(), selected);
        assert(names.drop_last().push(names.last()) =~= names);
    }
}

/// Where no package set is in force (from `--set` or the profile) and the
/// platform in force has no policy, the plan keeps the selection whole; and where a changed file selects everything
/// it plans every workspace package.
pub proof fn law_unfiltered_plan_keeps_selection(
    args: CommonArgs,
    root: Seq<char>,
    workspace: Workspace,
    files: Seq<Seq<char>>,
    config: PolicyConfig,
    default_platform: Seq<char>,
    repository: Option<Seq<char>>,
)
    requires
        workspace.wf(),
        plan_sets(args, config).len() == 0,
        lookup(config.platform@, plan_platform(args, config, default_platform)) is None,
    ensures
        plan_spec(args, root, workspace, files, config, default_platform, repository) matches Ok(p) ==> {
            let names = package_names(workspace.packages@);
            let st = plan_selection(workspace, config, root, files);
            &&& p.packages == picked(names, st.selected)
            &&& st.select_all ==> p.packages == names
        },
{
    let names = package_names(workspace.packages@);
    match selection_spec(workspace.packages@, dependent_views(workspace.dependents@), config, root, files) {
        Err(_) => {},
        Ok(st) => {
            if st.select_all {
                match scan_files(
                    workspace.packages@,
                    config,
                    root,
                    files,
                    initial_state(workspace.packages@.len()),
                ) {
                    Err(_) => {},
                    Ok(direct) => {
                        if !direct.select_all {
                            lemma_bfs_keeps_flag(
                                dependent_views(workspace.dependents@),
                                names,
                                direct,
                            );
                        }
                    },
                }
                lemma_picked_all(names, st.selected);
            }
        },
    }
}

/// The expansion leaves the flag that everything is selected as it is.
proof fn lemma_bfs_keeps_flag(dependents: Seq<Seq<usize>>, names: Seq<Seq<char>>, st: SelState)
    ensures
        bfs(dependents, names, st).select_all == st.select_all,
    decreases count_unselected(st.selected) + st.queue.len(),
{
    if st.queue.len() > 0 {
        let p = st.queue[0];
        let popped = SelState {
            selected: st.selected,
            reasons: st.reasons,
            queue: st.queue.drop_first(),
            select_all: st.select_all,
        };
        let msg = "depends on "@ + names[p as int];
        lemma_expand_measure(deps_of(dependents, p), msg, popped);
        lemma_expand_flag(deps_of(dependents, p), msg, popped);
        lemma_bfs_keeps_flag(dependents, names, expand(deps_of(dependents, p), msg, popped));
    }
}

proof fn lemma_expand_flag(deps: Seq<usize>, msg: Seq<char>, st: SelState)
    ensures
        expand(deps, msg, st).select_all == st.select_all,
    decreases deps.len(),
{
    if deps.len() > 0 {
        let d = deps[0] as int;
        if d < st.selected.len() && !st.selected[d] {
            lemma_expand_flag(deps.drop_first(), msg, mark(st, d, msg));
        } else {
            lemma_expand_flag(deps.drop_first(), msg, st);
        }
    }
}

/// Whether a changed file makes the selection take every package: a
/// global-impact file, one that a `global` pattern matches, or one that no
/// path rule maps and no package owns.
pub open spec fn selects_everything(
    packages: Seq<WorkspacePackage>,
    config: PolicyConfig,
    root: Seq<char>,
    file: Seq<char>,
) -> bool {
    let rel = crate::paths::relative_spec(file, root);
    ||| crate::paths::global_impact(file)
    ||| crate::glob::any_glob(crate::text::string_views(config.global@), rel) == Ok::<bool, crate::error::ErrorView>(true)
    ||| {
        &&& crate::glob::any_glob(crate::text::string_views(config.global@), rel) == Ok::<bool, crate::error::ErrorView>(false)
        &&& crate::config::mapped_spec(config.paths@, rel) == Ok::<Option<Set<Seq<char>>>, crate::error::ErrorView>(None)
        &&& owner_spec(packages, file) is None
    }
}

proof fn lemma_map_names_keeps_flag(names: Seq<Seq<char>>, mapped: Seq<Seq<char>>, rel: Seq<char>, st: SelState)
    ensures
        map_names(names, mapped, rel, st) matches Ok(r) ==> r.select_all == st.select_all,
    decreases mapped.len(),
{
    if mapped.len() > 0 {
        match name_index(names, mapped[0]) {
            None => {},
            Some(i) => {
                lemma_map_names_keeps_flag(names, mapped.drop_first(), rel, mark(st, i, "path rule: "@ + rel));
            },
        }
    }
}

/// Once a file selects everything, the rest of the scan keeps it so; and a
/// file that selects everything sets it.
proof fn lemma_scan_flag(
    packages: Seq<WorkspacePackage>,
    config: PolicyConfig,
    root: Seq<char>,
    files: Seq<Seq<char>>,
    st: SelState,
)
    ensures
        scan_files(packages, config, root, files, st) matches Ok(r) ==> {
            &&& st.select_all ==> r.select_all
            &&& (exists|k: int| 0 <= k < files.len() && selects_everything(packages, config, root, #[trigger] files[k])) ==> r.select_all
            &&& !st.select_all && !(exists|k: int| 0 <= k < files.len() && selects_everything(packages, config, root, #[trigger] files[k])) ==> !r.select_all
        },
    decreases files.len(),
{
    if files.len() > 0 {
        let rel = crate::paths::relative_spec(files[0], root);
        match file_step(packages, config, root, files[0], st) {
            Err(_) => {},
            Ok(next) => {
                if !crate::paths::global_impact(files[0]) {
                    match crate::glob::any_glob(crate::text::string_views(config.global@), rel) {
                        Ok(false) => match crate::config::mapped_spec(config.paths@, rel) {
                            Ok(Some(set)) => {
                                lemma_map_names_keeps_flag(
                                    package_names(packages),
                                    crate::selection::sorted_of(set),
                                    rel,
                                    st,
                                );
                            },
                            _ => {},
                        },
                        _ => {},
                    }
                }
                assert(st.select_all ==> next.select_all);
                assert(selects_everything(packages, config, root, files[0]) ==> next.select_all);
                assert(!selects_everything(packages, config, root, files[0]) ==> next.select_all == st.select_all);
                let rest = files.drop_first();
                lemma_scan_flag(packages, config, root, rest, next);
                if exists|k: int| 0 <= k < files.len() && selects_everything(packages, config, root, #[trigger] files[k]) {
                    let k = choose|k: int| 0 <= k < files.len() && selects_everything(packages, config, root, #[trigger] files[k]);
                    if k > 0 {
                        assert(rest[k - 1] == files[k]);
                    }
                }
                if exists|k: int| 0 <= k < rest.len() && selects_everything(packages, config, root, #[trigger] rest[k]) {
                    let k = choose|k: int| 0 <= k < rest.len() && selects_everything(packages, config, root, #[trigger] rest[k]);
                    assert(files[k + 1] == rest[k]);
                }
            },
        }
    }
}

/// Fail open: where some changed file is a global-impact file, matches a
/// `global` pattern, or is neither mapped by a path rule nor owned by any
/// package, every workspace package is selected.
pub proof fn law_unmapped_change_selects_everything(
    packages: Seq<WorkspacePackage>,
    dependents: Seq<Seq<usize>>,
    config: PolicyConfig,
    root: Seq<char>,
    files: Seq<Seq<char>>,
    k: int,
)
    requires
        0 <= k < files.len(),
        selects_everything(packages, config, root, files[k]),
    ensures
        selection_spec(packages, dependents, config, root, files) matches Ok(st) ==> {
            &&& st.select_all
            &&& forall|i: int| 0 <= i < packages.len() ==> #[trigger] st.selected[i]
        },
{
    lemma_scan_flag(packages, config, root, files, initial_state(packages.len()));
    assert(selects_everything(packages, config, root, files[k]));
}

/// The CI profile a plan's inputs name.
pub open spec fn plan_profile(args: CommonArgs, config: PolicyConfig) -> Option<crate::config::CiProfilePolicy> {
    crate::config::resolve_profile_spec(config, opt_view(args.profile))->Ok_0
}

/// The package sets in force for a plan's inputs.
pub open spec fn plan_sets(args: CommonArgs, config: PolicyConfig) -> Seq<Seq<char>> {
    crate::config::effective_sets_spec(crate::text::string_views(args.package_sets@), plan_profile(args, config))
}

/// The platform in force for a plan's inputs.
pub open spec fn plan_platform(args: CommonArgs, config: PolicyConfig, default_platform: Seq<char>) -> Seq<char> {
    crate::config::effective_platform_spec(opt_view(args.platform), plan_profile(args, config), default_platform)
}

/// The policy's filters hold of every planned package: where package sets
/// are in force, some pattern of theirs matches it; where the platform in
/// force has a policy, none of its exclude patterns matches it.
pub proof fn law_planned_packages_pass_the_filters(
    args: CommonArgs,
    root: Seq<char>,
    workspace: Workspace,
    files: Seq<Seq<char>>,
    config: PolicyConfig,
    default_platform: Seq<char>,
    repository: Option<Seq<char>>,
)
    ensures
        plan_spec(args, root, workspace, files, config, default_platform, repository) matches Ok(p) ==> forall|x: Seq<char>|
            #[trigger] p.packages.contains(x) ==> {
                &&& plan_sets(args, config).len() > 0 ==> (crate::config::set_patterns(
                    config.sets@,
                    plan_sets(args, config),
                ) matches Ok(patterns) && crate::glob::any_glob(patterns, x) == Ok::<bool, crate::error::ErrorView>(true))
                &&& lookup(config.platform@, plan_platform(args, config, default_platform)) matches Some(policy)
                    ==> crate::glob::any_glob(crate::text::string_views(policy.exclude@), x) == Ok::<
                    bool,
                    crate::error::ErrorView,
                >(false)
            },
{
    if plan_spec(args, root, workspace, files, config, default_platform, repository) is Ok {
        let p = plan_spec(args, root, workspace, files, config, default_platform, repository)->Ok_0;
        let names = package_names(workspace.packages@);
        let st = plan_selection(workspace, config, root, files);
        let chosen = picked(names, st.selected);
        let sets = plan_sets(args, config);
        let platform = plan_platform(args, config, default_platform);
        let s1 = package_set_filter_spec(chosen, config, sets)->Ok_0;
        assert(platform_filter_spec(s1, config, platform) == Ok::<Seq<Seq<char>>, crate::error::ErrorView>(p.packages));
        if sets.len() > 0 {
            let patterns = crate::config::set_patterns(config.sets@, sets)->Ok_0;
            lemma_glob_filter_subsequence(chosen, patterns, true);
        }
        match lookup(config.platform@, platform) {
            None => {},
            Some(policy) => {
                lemma_glob_filter_subsequence(s1, crate::text::string_views(policy.exclude@), false);
            },
        }
        lemma_filters_keep_subsequence(chosen, config, sets, platform);
    }
}

/// Everything is selected exactly when some changed file calls for it; and
/// then the plan holds every workspace package that the package sets and
/// the platform excludes in force let through.
pub proof fn law_select_all_exactly_when_a_file_calls_for_it(
    args: CommonArgs,
    root: Seq<char>,
    workspace: Workspace,
    files: Seq<Seq<char>>,
    config: PolicyConfig,
    default_platform: Seq<char>,
    repository: Option<Seq<char>>,
)
    requires
        workspace.wf(),
    ensures
        plan_spec(args, root, workspace, files, config, default_platform, repository) matches Ok(p) ==> {
            let names = package_names(workspace.packages@);
            &&& p.select_all <==> exists|k: int|
                0 <= k < files.len() && selects_everything(workspace.packages@, config, root, #[trigger] files[k])
            &&& p.select_all ==> (package_set_filter_spec(names, config, plan_sets(args, config)) matches Ok(s1)
                && platform_filter_spec(s1, config, plan_platform(args, config, default_platform)) == Ok::<
                Seq<Seq<char>>,
                crate::error::ErrorView,
            >(p.packages))
        },
{
    let packages = workspace.packages@;
    let names = package_names(packages);
    let deps = dependent_views(workspace.dependents@);
    lemma_scan_flag(packages, config, root, files, initial_state(packages.len()));
    match scan_files(packages, config, root, files, initial_state(packages.len())) {
        Err(_) => {},
        Ok(direct) => {
            if !direct.select_all {
                lemma_bfs_keeps_flag(deps, names, direct);
            } else {
                let st = selection_spec(packages, deps, config, root, files)->Ok_0;
                lemma_picked_all(names, st.selected);
            }
        },
    }
}

/// While nothing selects everything, a package not selected has no reason.
pub open spec fn quiet_inv(st: SelState, n: nat) -> bool {
    &&& st.selected.len() == n
    &&& st.reasons.len() == n
    &&& !st.select_all ==> forall|i: int| 0 <= i < n && !(#[trigger] st.selected[i]) ==> st.reasons[i].len() == 0
}

proof fn lemma_mark_quiet(st: SelState, n: nat, i: int, msg: Seq<char>)
    requires
        quiet_inv(st, n),
        0 <= i < n,
    ensures
        quiet_inv(mark(st, i, msg), n),
{
    let r = mark(st, i, msg);
    if !r.select_all {
        assert forall|j: int| 0 <= j < n && !(#[trigger] r.selected[j]) implies r.reasons[j].len() == 0 by {
            assert(j != i);
            assert(!st.selected[j]);
        }
    }
}

proof fn lemma_map_names_quiet(names: Seq<Seq<char>>, mapped: Seq<Seq<char>>, rel: Seq<char>, st: SelState)
    requires
        quiet_inv(st, names.len()),
    ensures
        map_names(names, mapped, rel, st) matches Ok(r) ==> quiet_inv(r, names.len()),
    decreases mapped.len(),
{
    if mapped.len() > 0 {
        match name_index(names, mapped[0]) {
            None => {},
            Some(i) => {
                lemma_mark_quiet(st, names.len(), i, "path rule: "@ + rel);
                lemma_map_names_quiet(names, mapped.drop_first(), rel, mark(st, i, "path rule: "@ + rel));
            },
        }
    }
}

proof fn lemma_scan_quiet(
    packages: Seq<WorkspacePackage>,
    config: PolicyConfig,
    root: Seq<char>,
    files: Seq<Seq<char>>,
    st: SelState,
)
    requires
        quiet_inv(st, packages.len()),
    ensures
        scan_files(packages, config, root, files, st) matches Ok(r) ==> quiet_inv(r, packages.len()),
    decreases files.len(),
{
    if files.len() > 0 {
        let n = packages.len();
        let rel = crate::paths::relative_spec(files[0], root);
        assert(package_names(packages).len() == n);
        match file_step(packages, config, root, files[0], st) {
            Err(_) => {},
            Ok(next) => {
                if !crate::paths::global_impact(files[0]) {
                    match crate::glob::any_glob(crate::text::string_views(config.global@), rel) {
                        Ok(false) => match crate::config::mapped_spec(config.paths@, rel) {
                            Ok(Some(set)) => {
                                lemma_map_names_quiet(
                                    package_names(packages),
                                    crate::selection::sorted_of(set),
                                    rel,
                                    st,
                                );
                            },
                            Ok(None) => match owner_spec(packages, files[0]) {
                                Some(i) => {
                                    assert(owns(packages, files[0], i));
                                    lemma_mark_quiet(st, n, i, "changed: "@ + rel);
                                },
                                None => {},
                            },
                            _ => {},
                        },
                        _ => {},
                    }
                }
                assert(quiet_inv(next, n));
                lemma_scan_quiet(packages, config, root, files.drop_first(), next);
            },
        }
    }
}

/// During the expansion, a package that the changed files did not select
/// has no reason while it is unselected, and once selected exactly one:
/// "depends on M" for a selected package M that it depends on.
pub open spec fn dep_inv(dependents: Seq<Seq<usize>>, names: Seq<Seq<char>>, seeds: Seq<bool>, st: SelState) -> bool {
    let n = seeds.len();
    &&& st.reasons.len() == n
    &&& forall|i: int| 0 <= i < n && !(#[trigger] seeds[i]) && !st.selected[i] ==> st.reasons[i].len() == 0
    &&& forall|i: int|
        0 <= i < n && !(#[trigger] seeds[i]) && st.selected[i] ==> exists|m: int|
            0 <= m < n && st.selected[m] && #[trigger] dependents[m].contains(i as usize) && st.reasons[i]
                == seq!["depends on "@ + names[m]]
}

proof fn lemma_expand_dep(
    dependents: Seq<Seq<usize>>,
    names: Seq<Seq<char>>,
    seeds: Seq<bool>,
    deps: Seq<usize>,
    p: int,
    st: SelState,
)
    requires
        dep_inv(dependents, names, seeds, st),
        st.selected.len() == seeds.len(),
        forall|i: int| 0 <= i < seeds.len() && #[trigger] seeds[i] ==> st.selected[i],
        0 <= p < seeds.len(),
        p < dependents.len(),
        st.selected[p],
        forall|k: int| 0 <= k < deps.len() ==> dependents[p].contains(#[trigger] deps[k]),
    ensures
        ({
            let r = expand(deps, "depends on "@ + names[p], st);
            &&& dep_inv(dependents, names, seeds, r)
            &&& r.selected.len() == seeds.len()
            &&& forall|i: int| 0 <= i < seeds.len() && st.selected[i] ==> #[trigger] r.selected[i]
        }),
    decreases deps.len(),
{
    let n = seeds.len();
    let msg = "depends on "@ + names[p];
    if deps.len() > 0 {
        let d = deps[0] as int;
        let rest = deps.drop_first();
        assert forall|k: int| 0 <= k < rest.len() implies dependents[p].contains(#[trigger] rest[k]) by {
            assert(rest[k] == deps[k + 1]);
        }
        if d < st.selected.len() && !st.selected[d] {
            let next = mark(st, d, msg);
            assert(!seeds[d]);
            assert(st.reasons[d].len() == 0);
            assert(next.reasons[d] =~= seq![msg]);
            assert(dependents[p].contains(deps[0]));
            assert forall|i: int|
                0 <= i < n && !(#[trigger] seeds[i]) && next.selected[i] implies exists|m: int|
                    0 <= m < n && next.selected[m] && #[trigger] dependents[m].contains(i as usize)
                        && next.reasons[i] == seq!["depends on "@ + names[m]] by {
                if i == d {
                    assert(dependents[p].contains(i as usize));
                } else {
                    let m = choose|m: int|
                        0 <= m < n && st.selected[m] && #[trigger] dependents[m].contains(i as usize)
                            && st.reasons[i] == seq!["depends on "@ + names[m]];
                    assert(next.selected[m]);
                }
            }
            lemma_expand_dep(dependents, names, seeds, rest, p, next);
        } else {
            lemma_expand_dep(dependents, names, seeds, rest, p, st);
        }
    }
}

proof fn lemma_bfs_dep(dependents: Seq<Seq<usize>>, names: Seq<Seq<char>>, seeds: Seq<bool>, st: SelState)
    requires
        crate::selection::graph_wf(dependents, seeds.len()),
        crate::selection::bfs_inv(dependents, seeds, st),
        dep_inv(dependents, names, seeds, st),
    ensures
        dep_inv(dependents, names, seeds, bfs(dependents, names, st)),
    decreases count_unselected(st.selected) + st.queue.len(),
{
    if st.queue.len() > 0 {
        let p = st.queue[0];
        let popped = SelState {
            selected: st.selected,
            reasons: st.reasons,
            queue: st.queue.drop_first(),
            select_all: st.select_all,
        };
        let msg = "depends on "@ + names[p as int];
        assert(p < seeds.len());
        assert(deps_of(dependents, p) == dependents[p as int]);
        assert forall|k: int| 0 <= k < deps_of(dependents, p).len() implies dependents[p as int].contains(
            #[trigger] deps_of(dependents, p)[k],
        ) by {}
        lemma_expand_measure(deps_of(dependents, p), msg, popped);
        lemma_expand_dep(dependents, names, seeds, deps_of(dependents, p), p as int, popped);
        crate::selection::lemma_bfs_step(dependents, names, seeds, st);
        lemma_bfs_dep(dependents, names, seeds, expand(deps_of(dependents, p), msg, popped));
    }
}

/// After the scan (which did not select everything), the expansion keeps
/// every package that the changed files did not select either without
/// reasons or with the one reason of its dependency.
proof fn lemma_selection_dep(
    packages: Seq<WorkspacePackage>,
    deps: Seq<Seq<usize>>,
    config: PolicyConfig,
    root: Seq<char>,
    files: Seq<Seq<char>>,
)
    requires
        crate::selection::graph_wf(deps, packages.len()),
        packages.len() <= usize::MAX,
    ensures
        scan_files(packages, config, root, files, initial_state(packages.len())) matches Ok(direct) ==> (
        !direct.select_all ==> dep_inv(
            deps,
            package_names(packages),
            direct.selected,
            bfs(deps, package_names(packages), direct),
        )),
{
    let n = packages.len();
    let names = package_names(packages);
    lemma_scan_quiet(packages, config, root, files, initial_state(n));
    lemma_scan_reasons(packages, config, root, files, initial_state(n));
    crate::selection::lemma_scan_inv(packages, config, root, files, initial_state(n));
    match scan_files(packages, config, root, files, initial_state(n)) {
        Err(_) => {},
        Ok(direct) => {
            if !direct.select_all {
                let seeds = direct.selected;
                assert forall|i: int| 0 <= i < n && #[trigger] direct.selected[i] implies crate::selection::reaches(deps, seeds, i) by {
                    let c = seq![i as usize];
                    assert(c[0] as int == i);
                    assert(crate::selection::is_chain(deps, seeds, c));
                }
                assert(crate::selection::bfs_inv(deps, seeds, direct));
                assert(dep_inv(deps, names, seeds, direct));
                lemma_bfs_dep(deps, names, seeds, direct);
            }
        },
    }
}

/// Changed packages plus their dependents, each dependent explained by the
/// dependency that brought it in. Where no changed file selects everything,
/// no package set is in force and the platform in force has no policy, a
/// package is planned exactly when the changed files select it directly or
/// it depends, through workspace dependents, on one they select; and a
/// planned package that the changed files did not select has the one
/// reason "depends on M", for a planned package M that it depends on.
#[verifier::rlimit(80)]
#[verifier::spinoff_prover]
pub proof fn law_dependents_are_explained_by_their_dependency(
    args: CommonArgs,
    root: Seq<char>,
    workspace: Workspace,
    files: Seq<Seq<char>>,
    config: PolicyConfig,
    default_platform: Seq<char>,
    repository: Option<Seq<char>>,
)
    requires
        workspace.wf(),
        plan_sets(args, config).len() == 0,
        lookup(config.platform@, plan_platform(args, config, default_platform)) is None,
    ensures
        plan_spec(args, root, workspace, files, config, default_platform, repository) matches Ok(p) ==> (!p.select_all ==> {
            let names = package_names(workspace.packages@);
            let deps = dependent_views(workspace.dependents@);
            let direct = scan_files(workspace.packages@, config, root, files, initial_state(names.len()))->Ok_0;
            &&& forall|x: int|
                0 <= x < names.len() ==> (p.packages.contains(#[trigger] names[x]) <==> crate::selection::reaches(
                    deps,
                    direct.selected,
                    x,
                ))
            &&& forall|x: int|
                0 <= x < names.len() && p.packages.contains(#[trigger] names[x]) && !direct.selected[x] ==> exists|m: int|
                    0 <= m < names.len() && p.packages.contains(names[m]) && #[trigger] deps[m].contains(x as usize)
                        && p.reasons.contains((names[x], seq!["depends on "@ + names[m]]))
        }),
{
    let packages = workspace.packages@;
    let n = packages.len();
    let names = package_names(packages);
    let deps = dependent_views(workspace.dependents@);
    assert(n == workspace.packages.len());
    law_unfiltered_plan_keeps_selection(args, root, workspace, files, config, default_platform, repository);
    assert(crate::selection::graph_wf(deps, n)) by {
        assert forall|i: int, k: int| 0 <= i < n && 0 <= k < deps[i].len() implies (#[trigger] deps[i][k]) < n by {
            assert(deps[i] == workspace.dependents@[i]@);
            assert(crate::workspace::increasing_indices(workspace.dependents@[i]@, n as int));
        }
    }
    crate::selection::law_selection_is_dependent_closure(packages, deps, config, root, files);
    lemma_selection_dep(packages, deps, config, root, files);
    assert(reasons_inv(initial_state(n), n));
    lemma_scan_reasons(packages, config, root, files, initial_state(n));
    if plan_spec(args, root, workspace, files, config, default_platform, repository) is Ok {
        let p = plan_spec(args, root, workspace, files, config, default_platform, repository)->Ok_0;
        if !p.select_all {
            let direct = scan_files(packages, config, root, files, initial_state(n))->Ok_0;
            let st = plan_selection(workspace, config, root, files);
            lemma_bfs_keeps_flag(deps, names, direct);
            assert(!direct.select_all);
            assert(st == bfs(deps, names, direct));
            assert(dep_inv(deps, names, direct.selected, st));
            assert(p.packages == picked(names, st.selected));
            crate::names::lemma_sorted_no_duplicates(names);
            assert forall|x: int| 0 <= x < n implies (p.packages.contains(#[trigger] names[x]) <==> st.selected[x]) by {
                if st.selected[x] {
                    lemma_index_picked(names, st.selected, x);
                }
                if p.packages.contains(names[x]) {
                    lemma_picked_index(names, st.selected, names[x]);
                    let i = choose|i: int| 0 <= i < names.len() && st.selected[i] && #[trigger] names[i] == names[x];
                    assert(i == x);
                }
            }
            assert forall|x: int|
                0 <= x < n && p.packages.contains(#[trigger] names[x]) && !direct.selected[x] implies exists|m: int|
                    0 <= m < n && p.packages.contains(names[m]) && #[trigger] deps[m].contains(x as usize)
                        && p.reasons.contains((names[x], seq!["depends on "@ + names[m]])) by {
                assert(st.selected[x]);
                assert(!direct.selected[x]);
                assert(exists|m: int|
                    0 <= m < n && st.selected[m] && #[trigger] deps[m].contains(x as usize) && st.reasons[x]
                        == seq!["depends on "@ + names[m]]);
                let m = choose|m: int|
                    0 <= m < n && st.selected[m] && #[trigger] deps[m].contains(x as usize) && st.reasons[x]
                        == seq!["depends on "@ + names[m]];
                assert(p.packages.contains(names[m]));
                assert(st.reasons[x].len() > 0);
                lemma_reason_entries_has(names, st.reasons, p.packages, x);
            }
        }
    }
}

/// A pattern that finds no first match matches none of the values.
proof fn lemma_first_match_none(pattern: Seq<char>, values: Seq<Seq<char>>, b: int)
    requires
        first_match(pattern, values) == Ok::<Option<Seq<char>>, crate::error::ErrorView>(None),
        0 <= b < values.len(),
    ensures
        !glob_match(pattern, values[b]),
    decreases values.len(),
{
    if b > 0 {
        lemma_first_match_none(pattern, values.drop_first(), b - 1);
        assert(values.drop_first()[b - 1] == values[b]);
    }
}

/// A condition list that evaluates, and one of whose patterns matches one of
/// the values, gives at least one reason.
proof fn lemma_pattern_reasons_found(
    patterns: Seq<Seq<char>>,
    values: Seq<Seq<char>>,
    is_package: bool,
    a: int,
    b: int,
)
    requires
        pattern_reasons(patterns, values, is_package) is Ok,
        0 <= a < patterns.len(),
        0 <= b < values.len(),
        glob_match(patterns[a], values[b]),
    ensures
        pattern_reasons(patterns, values, is_package)->Ok_0.len() > 0,
    decreases patterns.len(),
{
    if a == 0 {
        if first_match(patterns[0], values) == Ok::<Option<Seq<char>>, crate::error::ErrorView>(None) {
            lemma_first_match_none(patterns[0], values, b);
        }
    } else {
        let rest = patterns.drop_first();
        assert(rest[a - 1] == patterns[a]);
        lemma_pattern_reasons_found(rest, values, is_package, a - 1, b);
    }
}

/// The planned tasks hold every task of the profile whose conditions apply.
proof fn lemma_planned_holds(
    tasks: Seq<crate::config::CiTaskPolicy>,
    selected: Seq<Seq<char>>,
    changed: Seq<Seq<char>>,
    package_args: Seq<char>,
    nextest_expr: Seq<char>,
    k: int,
)
    requires
        planned_spec(tasks, selected, changed, package_args, nextest_expr) is Ok,
        0 <= k < tasks.len(),
    ensures
        task_match_spec(tasks[k], selected, changed) is Ok,
        task_match_spec(tasks[k], selected, changed)->Ok_0 is Some ==> exists|j: int|
            0 <= j < planned_spec(tasks, selected, changed, package_args, nextest_expr)->Ok_0.len()
                && (#[trigger] planned_spec(tasks, selected, changed, package_args, nextest_expr)->Ok_0[j]).id
                == tasks[k].id@,
    decreases tasks.len(),
{
    let rest = tasks.drop_first();
    let all = planned_spec(tasks, selected, changed, package_args, nextest_expr)->Ok_0;
    let tail = planned_spec(rest, selected, changed, package_args, nextest_expr);
    match task_match_spec(tasks[0], selected, changed) {
        Err(_) => {},
        Ok(None) => {
            if k > 0 {
                assert(rest[k - 1] == tasks[k]);
                lemma_planned_holds(rest, selected, changed, package_args, nextest_expr, k - 1);
            }
        },
        Ok(Some(_)) => {
            if k == 0 {
                assert(all[0].id == tasks[0].id@);
            } else {
                assert(rest[k - 1] == tasks[k]);
                lemma_planned_holds(rest, selected, changed, package_args, nextest_expr, k - 1);
                if task_match_spec(tasks[k], selected, changed)->Ok_0 is Some {
                    let t = tail->Ok_0;
                    let j = choose|j: int| 0 <= j < t.len() && (#[trigger] t[j]).id == tasks[k].id@;
                    assert(all[j + 1] == t[j]);
                }
            }
        },
    }
}

/// A CI task is planned from the plan's own changed files, taken relative
/// to the workspace root: where the plan selects packages and some path
/// condition of a profile task matches one of `p.changed_files`, that task
/// is among the plan's CI tasks.
pub proof fn law_ci_tasks_follow_the_plans_changed_files(
    args: CommonArgs,
    root: Seq<char>,
    workspace: Workspace,
    files: Seq<Seq<char>>,
    config: PolicyConfig,
    default_platform: Seq<char>,
    repository: Option<Seq<char>>,
    k: int,
    a: int,
    b: int,
)
    ensures
        plan_spec(args, root, workspace, files, config, default_platform, repository) matches Ok(p) ==> (
        args.profile is Some && p.packages.len() > 0 && 0 <= k < plan_profile(args, config)->Some_0.tasks@.len()
            && 0 <= a < plan_profile(args, config)->Some_0.tasks@[k].when.paths@.len() && 0 <= b
            < p.changed_files.len() && glob_match(
            plan_profile(args, config)->Some_0.tasks@[k].when.paths@[a]@,
            p.changed_files[b],
        ) ==> (p.ci matches Some(c) && exists|j: int|
            0 <= j < c.tasks.len() && (#[trigger] c.tasks[j]).id == plan_profile(args, config)->Some_0.tasks@[k].id@)),
{
    if plan_spec(args, root, workspace, files, config, default_platform, repository) is Ok {
        let p = plan_spec(args, root, workspace, files, config, default_platform, repository)->Ok_0;
        if args.profile is Some && p.packages.len() > 0 && 0 <= k < plan_profile(args, config)->Some_0.tasks@.len()
            && 0 <= a < plan_profile(args, config)->Some_0.tasks@[k].when.paths@.len() && 0 <= b
            < p.changed_files.len() && glob_match(
            plan_profile(args, config)->Some_0.tasks@[k].when.paths@[a]@,
            p.changed_files[b],
        ) {
            let prof = plan_profile(args, config)->Some_0;
            let tasks = prof.tasks@;
            let pa = p.package_args;
            let ne = p.nextest_expr;
            let name = args.profile->Some_0@;
            assert(crate::config::resolve_profile_spec(config, opt_view(args.profile)) == Ok::<
                Option<crate::config::CiProfilePolicy>,
                crate::error::ErrorView,
            >(Some(prof)));
            assert(crate::ci::plan_ci_spec(Some(name), Some(prof), p.packages, p.changed_files, pa, ne) == Ok::<
                Option<crate::ci::CiPlanView>,
                crate::error::ErrorView,
            >(p.ci));
            assert(crate::ci::planned_tasks_spec(prof, p.packages, p.changed_files, pa, ne) is Ok);
            assert(planned_spec(tasks, p.packages, p.changed_files, pa, ne) is Ok);
            assert(p.ci->Some_0.tasks == planned_spec(tasks, p.packages, p.changed_files, pa, ne)->Ok_0);
            lemma_planned_holds(tasks, p.packages, p.changed_files, pa, ne, k);
            let t = tasks[k];
            let paths = crate::text::string_views(t.when.paths@);
            assert(paths[a] == t.when.paths@[a]@);
            if !(t.when.packages@.len() == 0 && t.when.paths@.len() == 0) {
                if pattern_reasons(crate::text::string_views(t.when.packages@), p.packages, true) is Ok {
                    lemma_pattern_reasons_found(paths, p.changed_files, false, a, b);
                }
            }
        }
    }
}

} // verus!
