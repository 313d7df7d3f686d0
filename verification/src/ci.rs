//! CI planning: which tasks of a profile apply to a selection, how their
//! commands are rendered, and which of them a stage picks.

use vstd::prelude::*;

use crate::config::{CiProfilePolicy, CiTaskPolicy};
use crate::error::{AffectError, ErrorView};
use crate::glob::{glob_match, glob_matches, glob_ok};
use crate::paths::opt_view;
use crate::text::{blank, is_blank, join, join_seqs, replace_all, replace_seq, string_views};

verus! {

/// A CI task chosen for a plan, with its command rendered.
#[derive(Debug)]
pub struct PlannedTask {
    pub id: String,
    pub stage: String,
    pub run: String,
    pub working_directory: String,
    pub reasons: Vec<String>,
}

/// A planned task with its text as character sequences.
pub struct PlannedTaskView {
    pub id: Seq<char>,
    pub stage: Seq<char>,
    pub run: Seq<char>,
    pub working_directory: Seq<char>,
    pub reasons: Seq<Seq<char>>,
}

impl View for PlannedTask {
    type V = PlannedTaskView;

    open spec fn view(&self) -> PlannedTaskView {
        PlannedTaskView {
            id: self.id@,
            stage: self.stage@,
            run: self.run@,
            working_directory: self.working_directory@,
            reasons: string_views(self.reasons@),
        }
    }
}

impl Clone for PlannedTask {
    fn clone(&self) -> (res: Self)
        ensures
            res@ == self@,
    {
        PlannedTask {
            id: self.id.clone(),
            stage: self.stage.clone(),
            run: self.run.clone(),
            working_directory: self.working_directory.clone(),
            reasons: clone_strings(&self.reasons),
        }
    }
}

/// A copy of a vector of strings.
pub fn clone_strings(v: &Vec<String>) -> (res: Vec<String>)
    ensures
        res@ == v@,
{
    let mut res: Vec<String> = Vec::new();
    let mut i: usize = 0;
    while i < v.len()
        invariant
            i <= v.len(),
            res@ == v@.take(i as int),
        decreases v.len() - i,
    {
        res.push(v[i].clone());
        i = i + 1;
        assert(res@ =~= v@.take(i as int));
    }
    assert(v@.take(v.len() as int) =~= v@);
    res
}

/// The CI part of a plan: the profile, its backend and cache names, and the
/// tasks that apply.
#[derive(Debug)]
pub struct CiPlan {
    pub profile: String,
    pub backend: Option<String>,
    pub cache: Option<String>,
    pub tasks: Vec<PlannedTask>,
}

/// A CI plan with its text as character sequences.
pub struct CiPlanView {
    pub profile: Seq<char>,
    pub backend: Option<Seq<char>>,
    pub cache: Option<Seq<char>>,
    pub tasks: Seq<PlannedTaskView>,
}

/// The views of planned tasks.
pub open spec fn task_views(s: Seq<PlannedTask>) -> Seq<PlannedTaskView> {
    s.map_values(|t: PlannedTask| t@)
}

impl View for CiPlan {
    type V = CiPlanView;

    open spec fn view(&self) -> CiPlanView {
        CiPlanView {
            profile: self.profile@,
            backend: opt_view(self.backend),
            cache: opt_view(self.cache),
            tasks: task_views(self.tasks@),
        }
    }
}

/// The first of `values` that `pattern` matches. A pattern that does not
/// parse is an error as soon as there is a value to try it on.
pub open spec fn first_match(pattern: Seq<char>, values: Seq<Seq<char>>) -> Result<
    Option<Seq<char>>,
    ErrorView,
>
    decreases values.len(),
{
    if values.len() == 0 {
        Ok(None)
    } else if !glob_ok(pattern) {
        Err(ErrorView::InvalidGlob(pattern))
    } else if glob_match(pattern, values[0]) {
        Ok(Some(values[0]))
    } else {
        first_match(pattern, values.drop_first())
    }
}

/// The reason a task gives for a match: "package P matches X" for package
/// conditions, "path P matches X" for path conditions.
pub open spec fn match_reason(is_package: bool, value: Seq<char>, pattern: Seq<char>) -> Seq<char> {
    if is_package {
        "package "@ + value + " matches "@ + pattern
    } else {
        "path "@ + value + " matches "@ + pattern
    }
}

/// For each pattern in order, the reason for the first value it matches;
/// the first pattern error met is the result instead.
pub open spec fn pattern_reasons(
    patterns: Seq<Seq<char>>,
    values: Seq<Seq<char>>,
    is_package: bool,
) -> Result<Seq<Seq<char>>, ErrorView>
    decreases patterns.len(),
{
    if patterns.len() == 0 {
        Ok(Seq::empty())
    } else {
        match first_match(patterns[0], values) {
            Err(e) => Err(e),
            Ok(m) => match pattern_reasons(patterns.drop_first(), values, is_package) {
                Err(e) => Err(e),
                Ok(rest) => Ok(
                    match m {
                        Some(v) => seq![match_reason(is_package, v, patterns[0])] + rest,
                        None => rest,
                    },
                ),
            },
        }
    }
}

/// Why a task applies: "always" for a task without conditions; otherwise
/// the reasons of its package conditions, then of its path conditions, and
/// none where no condition matches.
pub open spec fn task_match_spec(
    task: CiTaskPolicy,
    selected_packages: Seq<Seq<char>>,
    changed_files: Seq<Seq<char>>,
) -> Result<Option<Seq<Seq<char>>>, ErrorView> {
    if task.when.packages@.len() == 0 && task.when.paths@.len() == 0 {
        Ok(Some(seq!["always"@]))
    } else {
        match pattern_reasons(string_views(task.when.packages@), selected_packages, true) {
            Err(e) => Err(e),
            Ok(r1) => match pattern_reasons(string_views(task.when.paths@), changed_files, false) {
                Err(e) => Err(e),
                Ok(r2) => if r1.len() + r2.len() == 0 {
                    Ok(None)
                } else {
                    Ok(Some(r1 + r2))
                },
            },
        }
    }
}

/// Whether some of `patterns` matches some of `values`.
pub open spec fn some_match(patterns: Seq<Seq<char>>, values: Seq<Seq<char>>) -> bool {
    exists|a: int, b: int|
        0 <= a < patterns.len() && 0 <= b < values.len() && #[trigger] glob_match(patterns[a], values[b])
}

proof fn lemma_first_match_accepted(pattern: Seq<char>, values: Seq<Seq<char>>)
    requires
        glob_ok(pattern),
    ensures
        first_match(pattern, values) is Ok,
        first_match(pattern, values)->Ok_0 is None <==> !exists|b: int|
            0 <= b < values.len() && #[trigger] glob_match(pattern, values[b]),
    decreases values.len(),
{
    if values.len() > 0 {
        let rest = values.drop_first();
        lemma_first_match_accepted(pattern, rest);
        if exists|b: int| 0 <= b < rest.len() && #[trigger] glob_match(pattern, rest[b]) {
            let b = choose|b: int| 0 <= b < rest.len() && #[trigger] glob_match(pattern, rest[b]);
            assert(values[b + 1] == rest[b]);
        }
        if exists|b: int| 0 <= b < values.len() && #[trigger] glob_match(pattern, values[b]) {
            let b = choose|b: int| 0 <= b < values.len() && #[trigger] glob_match(pattern, values[b]);
            if b > 0 {
                assert(rest[b - 1] == values[b]);
            }
        }
    }
}

proof fn lemma_pattern_reasons_accepted(patterns: Seq<Seq<char>>, values: Seq<Seq<char>>, is_package: bool)
    requires
        forall|a: int| 0 <= a < patterns.len() ==> glob_ok(#[trigger] patterns[a]),
    ensures
        pattern_reasons(patterns, values, is_package) is Ok,
        pattern_reasons(patterns, values, is_package)->Ok_0.len() == 0 <==> !some_match(patterns, values),
    decreases patterns.len(),
{
    if patterns.len() > 0 {
        let rest = patterns.drop_first();
        assert forall|a: int| 0 <= a < rest.len() implies glob_ok(#[trigger] rest[a]) by {
            assert(rest[a] == patterns[a + 1]);
        }
        lemma_pattern_reasons_accepted(rest, values, is_package);
        assert(glob_ok(patterns[0]));
        lemma_first_match_accepted(patterns[0], values);
        if some_match(rest, values) {
            let (a, b) = choose|a: int, b: int|
                0 <= a < rest.len() && 0 <= b < values.len() && #[trigger] glob_match(rest[a], values[b]);
            assert(patterns[a + 1] == rest[a]);
        }
        if some_match(patterns, values) {
            let (a, b) = choose|a: int, b: int|
                0 <= a < patterns.len() && 0 <= b < values.len() && #[trigger] glob_match(patterns[a], values[b]);
            if a > 0 {
                assert(rest[a - 1] == patterns[a]);
            } else {
                assert(glob_match(patterns[0], values[b]));
            }
        }
    }
}

/// The conditions of a task combine by "or": where every pattern is
/// accepted, a task applies unless it has conditions and none of them
/// matches, that is, no package pattern matches a selected package and no
/// path pattern matches a changed file.
pub proof fn law_task_applies_when_any_condition_matches(
    task: CiTaskPolicy,
    selected_packages: Seq<Seq<char>>,
    changed_files: Seq<Seq<char>>,
)
    requires
        forall|a: int| 0 <= a < task.when.packages@.len() ==> glob_ok(#[trigger] task.when.packages@[a]@),
        forall|a: int| 0 <= a < task.when.paths@.len() ==> glob_ok(#[trigger] task.when.paths@[a]@),
    ensures
        task_match_spec(task, selected_packages, changed_files) is Ok,
        task_match_spec(task, selected_packages, changed_files)->Ok_0 is None <==> {
            &&& (task.when.packages@.len() > 0 || task.when.paths@.len() > 0)
            &&& !some_match(string_views(task.when.packages@), selected_packages)
            &&& !some_match(string_views(task.when.paths@), changed_files)
        },
{
    let pk = string_views(task.when.packages@);
    let pt = string_views(task.when.paths@);
    assert forall|a: int| 0 <= a < pk.len() implies glob_ok(#[trigger] pk[a]) by {
        assert(pk[a] == task.when.packages@[a]@);
    }
    assert forall|a: int| 0 <= a < pt.len() implies glob_ok(#[trigger] pt[a]) by {
        assert(pt[a] == task.when.paths@[a]@);
    }
    lemma_pattern_reasons_accepted(pk, selected_packages, true);
    lemma_pattern_reasons_accepted(pt, changed_files, false);
}

/// The first of `values` that `pattern` matches.
fn find_first_match(pattern: &str, values: &Vec<String>) -> (res: Result<Option<usize>, AffectError>)
    ensures
        match res {
            Ok(Some(k)) => k < values.len() && first_match(pattern@, string_views(values@)) == Ok::<
                Option<Seq<char>>,
                ErrorView,
            >(Some(values@[k as int]@)),
            Ok(None) => first_match(pattern@, string_views(values@)) == Ok::<
                Option<Seq<char>>,
                ErrorView,
            >(None),
            Err(e) => first_match(pattern@, string_views(values@)) == Err::<
                Option<Seq<char>>,
                ErrorView,
            >(e@),
        },
{
    let ghost all = string_views(values@);
    let mut k: usize = 0;
    assert(all.skip(0) =~= all);
    while k < values.len()
        invariant
            all == string_views(values@),
            k <= values.len(),
            first_match(pattern@, all) == first_match(pattern@, all.skip(k as int)),
        decreases values.len() - k,
    {
        assert(all.skip(k as int)[0] == values@[k as int]@);
        assert(all.skip(k as int).drop_first() =~= all.skip(k + 1));
        if glob_matches(pattern, values[k].as_str())? {
            return Ok(Some(k));
        }
        k = k + 1;
    }
    Ok(None)
}

/// The text "package P matches X" or "path P matches X".
fn match_reason_text(is_package: bool, value: &str, pattern: &str) -> (res: String)
    ensures
        res@ == match_reason(is_package, value@, pattern@),
{
    let mut s = if is_package {
        "package ".to_string()
    } else {
        "path ".to_string()
    };
    s.append(value);
    s.append(" matches ");
    s.append(pattern);
    s
}

/// Appends to `reasons` the reason of each pattern that matches one of
/// `values`.
fn push_pattern_reasons(
    reasons: &mut Vec<String>,
    patterns: &Vec<String>,
    values: &Vec<String>,
    is_package: bool,
) -> (res: Result<(), AffectError>)
    ensures
        match pattern_reasons(string_views(patterns@), string_views(values@), is_package) {
            Ok(r) => res is Ok && string_views(final(reasons)@) == string_views(old(reasons)@) + r,
            Err(e) => res matches Err(x) && x@ == e,
        },
{
    let ghost pats = string_views(patterns@);
    let ghost vals = string_views(values@);
    let ghost start = string_views(reasons@);
    let mut i: usize = 0;
    assert(pats.skip(0) =~= pats);
    assert(start =~= start + Seq::<Seq<char>>::empty());
    while i < patterns.len()
        invariant
            pats == string_views(patterns@),
            vals == string_views(values@),
            i <= patterns.len(),
            pattern_reasons(pats, vals, is_package) == match pattern_reasons(
                pats.skip(i as int),
                vals,
                is_package,
            ) {
                Ok(r) => Ok(string_views(reasons@).subrange(start.len() as int, string_views(reasons@).len() as int) + r),
                Err(e) => Err::<Seq<Seq<char>>, ErrorView>(e),
            },
            string_views(reasons@).subrange(0, start.len() as int) == start,
            start.len() <= string_views(reasons@).len(),
        decreases patterns.len() - i,
    {
        assert(pats.skip(i as int)[0] == patterns@[i as int]@);
        assert(pats.skip(i as int).drop_first() =~= pats.skip(i + 1));
        let ghost before = string_views(reasons@);
        let found = find_first_match(patterns[i].as_str(), values);
        match found {
            Err(e) => {
                return Err(e);
            },
            Ok(None) => {},
            Ok(Some(k)) => {
                let text = match_reason_text(is_package, values[k].as_str(), patterns[i].as_str());
                reasons.push(text);
                proof {
                    let now = string_views(reasons@);
                    assert(now =~= before.push(match_reason(is_package, vals[k as int], pats[i as int])));
                    assert(now.subrange(0, start.len() as int) =~= before.subrange(0, start.len() as int));
                    match pattern_reasons(pats.skip(i + 1), vals, is_package) {
                        Ok(r) => {
                            assert(before.subrange(start.len() as int, before.len() as int) + (seq![
                                match_reason(is_package, vals[k as int], pats[i as int])] + r) =~= now.subrange(
                                start.len() as int,
                                now.len() as int,
                            ) + r);
                        },
                        Err(_) => {},
                    }
                }
            },
        }
        i = i + 1;
    }
    proof {
        assert(pats.skip(i as int) =~= Seq::<Seq<char>>::empty());
        let now = string_views(reasons@);
        assert(now =~= now.subrange(0, start.len() as int) + now.subrange(start.len() as int, now.len() as int));
        assert(now.subrange(start.len() as int, now.len() as int) + Seq::<Seq<char>>::empty() =~= now.subrange(start.len() as int, now.len() as int));
    }
    Ok(())
}

/// Why a CI task applies to the selection, if it does.
pub fn task_match_reasons(
    task: &CiTaskPolicy,
    selected_packages: &Vec<String>,
    changed_relative_files: &Vec<String>,
) -> (res: Result<Option<Vec<String>>, AffectError>)
    ensures
        match res {
            Ok(Some(v)) => task_match_spec(*task, string_views(selected_packages@), string_views(
                changed_relative_files@,
            )) == Ok::<Option<Seq<Seq<char>>>, ErrorView>(Some(string_views(v@))),
            Ok(None) => task_match_spec(*task, string_views(selected_packages@), string_views(
                changed_relative_files@,
            )) == Ok::<Option<Seq<Seq<char>>>, ErrorView>(None),
            Err(e) => task_match_spec(*task, string_views(selected_packages@), string_views(
                changed_relative_files@,
            )) == Err::<Option<Seq<Seq<char>>>, ErrorView>(e@),
        },
{
    if task.when.packages.len() == 0 && task.when.paths.len() == 0 {
        let mut v: Vec<String> = Vec::new();
        v.push("always".to_string());
        assert(string_views(v@) =~= seq!["always"@]);
        return Ok(Some(v));
    }
    let mut reasons: Vec<String> = Vec::new();
    assert(string_views(reasons@) =~= Seq::<Seq<char>>::empty());
    push_pattern_reasons(&mut reasons, &task.when.packages, selected_packages, true)?;
    let ghost r1 = string_views(reasons@);
    proof {
        match pattern_reasons(string_views(task.when.packages@), string_views(selected_packages@), true) {
            Ok(r) => {
                assert(Seq::<Seq<char>>::empty() + r =~= r);
            },
            Err(_) => {},
        }
    }
    push_pattern_reasons(&mut reasons, &task.when.paths, changed_relative_files, false)?;
    proof {
        let p1 = pattern_reasons(string_views(task.when.packages@), string_views(selected_packages@), true);
        let p2 = pattern_reasons(string_views(task.when.paths@), string_views(changed_relative_files@), false);
        assert(p1 is Ok && p2 is Ok);
        assert(string_views(reasons@) == p1->Ok_0 + p2->Ok_0);
        assert(string_views(reasons@).len() == reasons@.len());
    }
    if reasons.len() == 0 {
        Ok(None)
    } else {
        Ok(Some(reasons))
    }
}

/// A task's stage, "default" where it is blank.
pub open spec fn stage_spec(stage: Seq<char>) -> Seq<char> {
    if blank(stage) {
        "default"@
    } else {
        stage
    }
}

/// A task's stage, "default" where it is blank.
pub fn task_stage(task: &CiTaskPolicy) -> (res: String)
    ensures
        res@ == stage_spec(task.stage@),
{
    if is_blank(task.stage.as_str()) {
        "default".to_string()
    } else {
        task.stage.clone()
    }
}

/// A task's command with `{{ package_args }}`, `{{ nextest_expr }}` and
/// `{{ packages }}` replaced, in that order.
pub open spec fn render_spec(
    run: Seq<char>,
    selected_packages: Seq<Seq<char>>,
    package_args: Seq<char>,
    nextest_expr: Seq<char>,
) -> Seq<char> {
    replace_seq(
        replace_seq(replace_seq(run, "{{ package_args }}"@, package_args), "{{ nextest_expr }}"@, nextest_expr),
        "{{ packages }}"@,
        join_seqs(selected_packages, " "@),
    )
}

/// A task's command with its placeholders replaced.
pub fn render_task_run(
    task: &CiTaskPolicy,
    selected_packages: &Vec<String>,
    package_args: &str,
    nextest_expr: &str,
) -> (res: String)
    ensures
        res@ == render_spec(task.run@, string_views(selected_packages@), package_args@, nextest_expr@),
{
    proof {
        reveal_strlit("{{ package_args }}");
        reveal_strlit("{{ nextest_expr }}");
        reveal_strlit("{{ packages }}");
    }
    let a = replace_all(task.run.as_str(), "{{ package_args }}", package_args);
    let b = replace_all(a.as_str(), "{{ nextest_expr }}", nextest_expr);
    let packages = join(selected_packages, " ");
    replace_all(b.as_str(), "{{ packages }}", packages.as_str())
}

/// A task's working directory, "." where it gives none.
pub open spec fn working_directory_spec(wd: Option<String>) -> Seq<char> {
    match wd {
        Some(w) => w@,
        None => "."@,
    }
}

/// The tasks that apply, in the profile's order, each planned; an error
/// for the first task whose conditions fail to evaluate, or that applies
/// with a blank id or a blank command.
pub open spec fn planned_spec(
    tasks: Seq<CiTaskPolicy>,
    selected_packages: Seq<Seq<char>>,
    changed_files: Seq<Seq<char>>,
    package_args: Seq<char>,
    nextest_expr: Seq<char>,
) -> Result<Seq<PlannedTaskView>, ErrorView>
    decreases tasks.len(),
{
    if tasks.len() == 0 {
        Ok(Seq::empty())
    } else {
        let task = tasks[0];
        match task_match_spec(task, selected_packages, changed_files) {
            Err(e) => Err(e),
            Ok(None) => planned_spec(tasks.drop_first(), selected_packages, changed_files, package_args, nextest_expr),
            Ok(Some(reasons)) => if blank(task.id@) {
                Err(ErrorView::MissingTaskId)
            } else if blank(task.run@) {
                Err(ErrorView::MissingTaskRun(task.id@))
            } else {
                match planned_spec(tasks.drop_first(), selected_packages, changed_files, package_args, nextest_expr) {
                    Err(e) => Err(e),
                    Ok(rest) => Ok(
                        seq![
                            PlannedTaskView {
                                id: task.id@,
                                stage: stage_spec(task.stage@),
                                run: render_spec(task.run@, selected_packages, package_args, nextest_expr),
                                working_directory: working_directory_spec(task.working_directory),
                                reasons,
                            },
                        ] + rest,
                    ),
                }
            },
        }
    }
}

/// The tasks of a profile planned for a selection: none where nothing is
/// selected.
pub open spec fn planned_tasks_spec(
    profile: CiProfilePolicy,
    selected_packages: Seq<Seq<char>>,
    changed_files: Seq<Seq<char>>,
    package_args: Seq<char>,
    nextest_expr: Seq<char>,
) -> Result<Seq<PlannedTaskView>, ErrorView> {
    if selected_packages.len() == 0 {
        Ok(Seq::empty())
    } else {
        planned_spec(profile.tasks@, selected_packages, changed_files, package_args, nextest_expr)
    }
}

/// The tasks of the profile that apply to the selection, planned.
pub fn planned_tasks(
    profile: &CiProfilePolicy,
    selected_packages: &Vec<String>,
    changed_relative_files: &Vec<String>,
    package_args: &str,
    nextest_expr: &str,
) -> (res: Result<Vec<PlannedTask>, AffectError>)
    ensures
        match res {
            Ok(v) => planned_tasks_spec(*profile, string_views(selected_packages@), string_views(
                changed_relative_files@,
            ), package_args@, nextest_expr@) == Ok::<Seq<PlannedTaskView>, ErrorView>(task_views(v@)),
            Err(e) => planned_tasks_spec(*profile, string_views(selected_packages@), string_views(
                changed_relative_files@,
            ), package_args@, nextest_expr@) == Err::<Seq<PlannedTaskView>, ErrorView>(e@),
        },
{
    let mut planned: Vec<PlannedTask> = Vec::new();
    if selected_packages.len() == 0 {
        assert(task_views(planned@) =~= Seq::<PlannedTaskView>::empty());
        return Ok(planned);
    }
    let tasks = &profile.tasks;
    let ghost sel = string_views(selected_packages@);
    let ghost changed = string_views(changed_relative_files@);
    let mut i: usize = 0;
    assert(tasks@.skip(0) =~= tasks@);
    assert(task_views(planned@) =~= Seq::<PlannedTaskView>::empty());
    while i < tasks.len()
        invariant
            tasks@ == profile.tasks@,
            selected_packages.len() > 0,
            sel == string_views(selected_packages@),
            changed == string_views(changed_relative_files@),
            i <= tasks.len(),
            planned_spec(tasks@, sel, changed, package_args@, nextest_expr@) == match planned_spec(
                tasks@.skip(i as int),
                sel,
                changed,
                package_args@,
                nextest_expr@,
            ) {
                Ok(r) => Ok(task_views(planned@) + r),
                Err(e) => Err::<Seq<PlannedTaskView>, ErrorView>(e),
            },
        decreases tasks.len() - i,
    {
        assert(tasks@.skip(i as int)[0] == tasks@[i as int]);
        assert(tasks@.skip(i as int).drop_first() =~= tasks@.skip(i + 1));
        let task = &tasks[i];
        let ghost rest_spec = planned_spec(tasks@.skip(i as int), sel, changed, package_args@, nextest_expr@);
        let matched = match task_match_reasons(task, selected_packages, changed_relative_files) {
            Ok(m) => m,
            Err(e) => {
                assert(rest_spec == Err::<Seq<PlannedTaskView>, ErrorView>(e@));
                return Err(e);
            },
        };
        match matched {
            None => {},
            Some(reasons) => {
                if is_blank(task.id.as_str()) {
                    assert(rest_spec == Err::<Seq<PlannedTaskView>, ErrorView>(ErrorView::MissingTaskId));
                    return Err(AffectError::MissingTaskId);
                }
                if is_blank(task.run.as_str()) {
                    let id = task.id.clone();
                    assert(rest_spec == Err::<Seq<PlannedTaskView>, ErrorView>(ErrorView::MissingTaskRun(id@)));
                    return Err(AffectError::MissingTaskRun { id });
                }
                let working_directory = match &task.working_directory {
                    Some(w) => w.clone(),
                    None => ".".to_string(),
                };
                let t = PlannedTask {
                    id: task.id.clone(),
                    stage: task_stage(task),
                    run: render_task_run(task, selected_packages, package_args, nextest_expr),
                    working_directory,
                    reasons,
                };
                let ghost before = task_views(planned@);
                let ghost tv = t@;
                planned.push(t);
                proof {
                    assert(task_views(planned@) =~= before.push(tv));
                    match planned_spec(tasks@.skip(i + 1), sel, changed, package_args@, nextest_expr@) {
                        Ok(r) => {
                            assert(before + (seq![tv] + r) =~= task_views(planned@) + r);
                        },
                        Err(_) => {},
                    }
                }
            },
        }
        i = i + 1;
    }
    assert(tasks@.skip(i as int) =~= Seq::<CiTaskPolicy>::empty());
    assert(task_views(planned@) + Seq::<PlannedTaskView>::empty() =~= task_views(planned@));
    Ok(planned)
}

/// The CI plan: none without a profile name or profile; otherwise the
/// profile's name, backend, cache and planned tasks.
pub open spec fn plan_ci_spec(
    profile_name: Option<Seq<char>>,
    profile: Option<CiProfilePolicy>,
    selected_packages: Seq<Seq<char>>,
    changed_files: Seq<Seq<char>>,
    package_args: Seq<char>,
    nextest_expr: Seq<char>,
) -> Result<Option<CiPlanView>, ErrorView> {
    match profile_name {
        None => Ok(None),
        Some(name) => match profile {
            None => Ok(None),
            Some(p) => match planned_tasks_spec(p, selected_packages, changed_files, package_args, nextest_expr) {
                Err(e) => Err(e),
                Ok(tasks) => Ok(
                    Some(
                        CiPlanView {
                            profile: name,
                            backend: opt_view(p.backend),
                            cache: opt_view(p.cache),
                            tasks,
                        },
                    ),
                ),
            },
        },
    }
}

/// The CI plan for a selection.
pub fn plan_ci(
    profile_name: Option<&str>,
    profile: Option<&CiProfilePolicy>,
    selected_packages: &Vec<String>,
    changed_relative_files: &Vec<String>,
    package_args: &str,
    nextest_expr: &str,
) -> (res: Result<Option<CiPlan>, AffectError>)
    ensures
        match res {
            Ok(c) => plan_ci_spec(
                crate::config::option_str_view(profile_name),
                match profile {
                    Some(p) => Some(*p),
                    None => None,
                },
                string_views(selected_packages@),
                string_views(changed_relative_files@),
                package_args@,
                nextest_expr@,
            ) == Ok::<Option<CiPlanView>, ErrorView>(match c {
                Some(x) => Some(x@),
                None => None,
            }),
            Err(e) => plan_ci_spec(
                crate::config::option_str_view(profile_name),
                match profile {
                    Some(p) => Some(*p),
                    None => None,
                },
                string_views(selected_packages@),
                string_views(changed_relative_files@),
                package_args@,
                nextest_expr@,
            ) == Err::<Option<CiPlanView>, ErrorView>(e@),
        },
{
    let name = match profile_name {
        None => {
            return Ok(None);
        },
        Some(n) => n,
    };
    let p = match profile {
        None => {
            return Ok(None);
        },
        Some(p) => p,
    };
    let tasks = planned_tasks(p, selected_packages, changed_relative_files, package_args, nextest_expr)?;
    Ok(
        Some(
            CiPlan {
                profile: name.to_string(),
                backend: p.backend.clone(),
                cache: p.cache.clone(),
                tasks,
            },
        ),
    )
}

} // verus!
