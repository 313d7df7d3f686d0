//! What the commands make of a plan: the explanation lines, the CI tasks a
//! stage picks, and the steps of a CI run.

use vstd::prelude::*;

use crate::ci::{task_views, PlannedTask, PlannedTaskView};
use crate::config::{lookup, option_str_view};
use crate::error::{AffectError, ErrorView};
use crate::paths::{joined_path, normalized, path_is_absolute, task_working_directory};
use crate::planner::{entry_views, Plan, PlanView};
use crate::text::string_views;

verus! {

/// The reasons recorded for `name`: those of its first entry, none where it
/// has no entry.
pub open spec fn reasons_for(entries: Seq<(Seq<char>, Seq<Seq<char>>)>, name: Seq<char>) -> Seq<
    Seq<char>,
>
    decreases entries.len(),
{
    if entries.len() == 0 {
        Seq::empty()
    } else if entries[0].0 == name {
        entries[0].1
    } else {
        reasons_for(entries.drop_first(), name)
    }
}

/// The explanation of one package: its name, then "  - REASON" for each of
/// its reasons.
pub open spec fn package_block(name: Seq<char>, entries: Seq<(Seq<char>, Seq<Seq<char>>)>) -> Seq<
    Seq<char>,
> {
    seq![name] + reasons_for(entries, name).map_values(|r: Seq<char>| "  - "@ + r)
}

/// The explanations of the packages, in order.
pub open spec fn package_blocks(packages: Seq<Seq<char>>, entries: Seq<(Seq<char>, Seq<Seq<char>>)>) -> Seq<
    Seq<char>,
>
    decreases packages.len(),
{
    if packages.len() == 0 {
        Seq::empty()
    } else {
        package_blocks(packages.drop_last(), entries) + package_block(packages.last(), entries)
    }
}

/// The lines that explain a plan: "No affected packages." where it selects
/// none, else each package followed by its reasons.
pub open spec fn explanation_spec(plan: PlanView) -> Seq<Seq<char>> {
    if plan.packages.len() == 0 {
        seq!["No affected packages."@]
    } else {
        package_blocks(plan.packages, plan.reasons)
    }
}

/// The reasons of a key, taken through the views of the entries.
proof fn lemma_reasons_for_lookup(rs: Seq<(String, Vec<String>)>, key: Seq<char>)
    ensures
        reasons_for(entry_views(rs), key) == match lookup(rs, key) {
            Some(v) => string_views(v@),
            None => Seq::<Seq<char>>::empty(),
        },
    decreases rs.len(),
{
    if rs.len() > 0 {
        assert(entry_views(rs).drop_first() =~= entry_views(rs.drop_first()));
        lemma_reasons_for_lookup(rs.drop_first(), key);
    }
}

/// The lines that explain a plan.
pub fn explanation_lines(plan: &Plan) -> (res: Vec<String>)
    ensures
        string_views(res@) == explanation_spec(plan@),
{
    let mut lines: Vec<String> = Vec::new();
    if plan.packages.len() == 0 {
        lines.push("No affected packages.".to_string());
        assert(string_views(lines@) =~= seq!["No affected packages."@]);
        return lines;
    }
    let ghost packages = string_views(plan.packages@);
    let ghost entries = entry_views(plan.reasons@);
    let mut i: usize = 0;
    while i < plan.packages.len()
        invariant
            packages == string_views(plan.packages@),
            entries == entry_views(plan.reasons@),
            i <= plan.packages.len(),
            string_views(lines@) == package_blocks(packages.take(i as int), entries),
        decreases plan.packages.len() - i,
    {
        let name = &plan.packages[i];
        let ghost before = string_views(lines@);
        lines.push(name.clone());
        proof {
            lemma_reasons_for_lookup(plan.reasons@, name@);
        }
        let ghost reasons = reasons_for(entries, name@);
        let ghost block_start = string_views(lines@);
        assert(block_start =~= before + seq![name@]);
        match crate::config::find_entry(&plan.reasons, name.as_str()) {
            None => {
                assert(reasons =~= Seq::<Seq<char>>::empty());
            },
            Some(k) => {
                let rs = &plan.reasons[k].1;
                assert(reasons == string_views(rs@));
                let mut j: usize = 0;
                while j < rs.len()
                    invariant
                        j <= rs.len(),
                        reasons == string_views(rs@),
                        string_views(lines@) == block_start + reasons.take(j as int).map_values(
                            |r: Seq<char>| "  - "@ + r,
                        ),
                    decreases rs.len() - j,
                {
                    let mut line = "  - ".to_string();
                    line.append(rs[j].as_str());
                    let ghost prior = string_views(lines@);
                    lines.push(line);
                    proof {
                        assert(string_views(lines@) =~= prior.push("  - "@ + rs@[j as int]@));
                        assert(reasons.take(j + 1).map_values(|r: Seq<char>| "  - "@ + r) =~= reasons.take(
                            j as int,
                        ).map_values(|r: Seq<char>| "  - "@ + r).push("  - "@ + reasons[j as int]));
                    }
                    j = j + 1;
                }
                assert(reasons.take(rs.len() as int) =~= reasons);
            },
        }
        proof {
            let t = packages.take(i + 1);
            assert(t.drop_last() =~= packages.take(i as int));
            assert(t.last() == name@);
            assert(reasons.map_values(|r: Seq<char>| "  - "@ + r) =~= reasons.take(reasons.len() as int).map_values(
                |r: Seq<char>| "  - "@ + r,
            ));
            assert(string_views(lines@) =~= before + package_block(name@, entries));
        }
        i = i + 1;
    }
    assert(packages.take(plan.packages.len() as int) =~= packages);
    lines
}

/// Whether a stage filter picks a task: no filter picks every task.
pub open spec fn stage_picks(stage: Option<Seq<char>>, task: PlannedTaskView) -> bool {
    match stage {
        None => true,
        Some(s) => task.stage == s,
    }
}

/// The tasks of a plan that a stage picks, in order; a stage without a CI
/// plan is an error.
pub open spec fn selected_tasks_spec(ci: Option<crate::ci::CiPlanView>, stage: Option<Seq<char>>) -> Result<
    Seq<PlannedTaskView>,
    ErrorView,
> {
    match ci {
        None => if stage is Some {
            Err(ErrorView::StageWithoutProfile)
        } else {
            Ok(Seq::empty())
        },
        Some(c) => Ok(c.tasks.filter(|t: PlannedTaskView| stage_picks(stage, t))),
    }
}

/// The CI tasks of a plan that `stage` picks.
pub fn selected_ci_tasks(plan: &Plan, stage: Option<&str>) -> (res: Result<Vec<PlannedTask>, AffectError>)
    ensures
        match selected_tasks_spec(plan@.ci, option_str_view(stage)) {
            Ok(ts) => res matches Ok(v) && task_views(v@) == ts,
            Err(e) => res matches Err(x) && x@ == e,
        },
{
    let ci = match &plan.ci {
        None => {
            if stage.is_some() {
                return Err(AffectError::StageWithoutProfile);
            }
            let none: Vec<PlannedTask> = Vec::new();
            assert(task_views(none@) =~= Seq::<PlannedTaskView>::empty());
            return Ok(none);
        },
        Some(c) => c,
    };
    let ghost pick = |t: PlannedTaskView| stage_picks(option_str_view(stage), t);
    let ghost tasks = task_views(ci.tasks@);
    let mut res: Vec<PlannedTask> = Vec::new();
    let mut i: usize = 0;
    while i < ci.tasks.len()
        invariant
            i <= ci.tasks.len(),
            tasks == task_views(ci.tasks@),
            pick == (|t: PlannedTaskView| stage_picks(option_str_view(stage), t)),
            task_views(res@) == tasks.take(i as int).filter(pick),
        decreases ci.tasks.len() - i,
    {
        let task = &ci.tasks[i];
        let picks = match stage {
            None => true,
            Some(s) => crate::names::str_eq(task.stage.as_str(), s),
        };
        let ghost before = task_views(res@);
        if picks {
            res.push(task.clone());
        }
        proof {
            reveal(Seq::filter);
            let t = tasks.take(i + 1);
            assert(t.drop_last() =~= tasks.take(i as int));
            assert(t.last() == task@);
            assert(picks == pick(task@));
            if picks {
                assert(task_views(res@) =~= before.push(task@));
            } else {
                assert(task_views(res@) =~= before);
            }
        }
        i = i + 1;
    }
    assert(tasks.take(ci.tasks.len() as int) =~= tasks);
    Ok(res)
}

/// A step of a CI run: a line to print, or a task command to run in a
/// directory (the run stops at the first command that fails).
#[derive(Debug, Clone, PartialEq, Eq)]
pub enum CiStep {
    Print { line: String },
    Run { id: String, stage: String, command: String, working_directory: String },
}

/// A CI step with its text as character sequences.
pub enum CiStepView {
    Print(Seq<char>),
    Run { id: Seq<char>, stage: Seq<char>, command: Seq<char>, working_directory: Seq<char> },
}

impl View for CiStep {
    type V = CiStepView;

    open spec fn view(&self) -> CiStepView {
        match self {
            CiStep::Print { line } => CiStepView::Print(line@),
            CiStep::Run { id, stage, command, working_directory } => CiStepView::Run {
                id: id@,
                stage: stage@,
                command: command@,
                working_directory: working_directory@,
            },
        }
    }
}

/// The views of CI steps.
pub open spec fn step_views(s: Seq<CiStep>) -> Seq<CiStepView> {
    s.map_values(|x: CiStep| x@)
}

/// The directory a task runs in: its working directory against the
/// workspace root where relative, normalized.
pub open spec fn run_directory(root: Seq<char>, wd: Seq<char>) -> Seq<char> {
    if path_is_absolute(wd) {
        normalized(wd)
    } else {
        normalized(joined_path(root, wd))
    }
}

/// The steps for one task: in a dry run, the line "ID [STAGE] (DIR)"
/// followed by the command on a line of its own; else the line "Running CI
/// task ID [STAGE]" and the command run in the task's directory.
pub open spec fn task_steps(root: Seq<char>, t: PlannedTaskView, dry_run: bool) -> Seq<CiStepView> {
    let dir = run_directory(root, t.working_directory);
    if dry_run {
        seq![CiStepView::Print(t.id + " ["@ + t.stage + "] ("@ + dir + ")\n"@ + t.run)]
    } else {
        seq![
            CiStepView::Print("Running CI task "@ + t.id + " ["@ + t.stage + "]"@),
            CiStepView::Run { id: t.id, stage: t.stage, command: t.run, working_directory: dir },
        ]
    }
}

/// The steps for the tasks, in order.
pub open spec fn tasks_steps(root: Seq<char>, ts: Seq<PlannedTaskView>, dry_run: bool) -> Seq<CiStepView>
    decreases ts.len(),
{
    if ts.len() == 0 {
        Seq::empty()
    } else {
        tasks_steps(root, ts.drop_last(), dry_run) + task_steps(root, ts.last(), dry_run)
    }
}

/// The steps of a CI run: "No CI tasks selected." where the stage picks no
/// task, else the steps of each picked task; the error of the task
/// selection where it fails.
pub open spec fn ci_run_spec(plan: PlanView, stage: Option<Seq<char>>, dry_run: bool) -> Result<
    Seq<CiStepView>,
    ErrorView,
> {
    match selected_tasks_spec(plan.ci, stage) {
        Err(e) => Err(e),
        Ok(ts) => Ok(
            if ts.len() == 0 {
                seq![CiStepView::Print("No CI tasks selected."@)]
            } else {
                tasks_steps(plan.workspace_root, ts, dry_run)
            },
        ),
    }
}

/// The text `a`, then `b`, then `c`, then `d`.
fn concat4(a: &str, b: &str, c: &str, d: &str) -> (res: String)
    ensures
        res@ == a@ + b@ + c@ + d@,
{
    let mut s = a.to_string();
    s.append(b);
    s.append(c);
    s.append(d);
    s
}

/// The steps of a CI run of the tasks that `stage` picks; `dry_run` prints
/// the commands in place of running them.
pub fn ci_run_steps(plan: &Plan, stage: Option<&str>, dry_run: bool) -> (res: Result<Vec<CiStep>, AffectError>)
    ensures
        match ci_run_spec(plan@, option_str_view(stage), dry_run) {
            Ok(steps) => res matches Ok(v) && step_views(v@) == steps,
            Err(e) => res matches Err(x) && x@ == e,
        },
{
    let tasks = match selected_ci_tasks(plan, stage) {
        Ok(t) => t,
        Err(e) => {
            return Err(e);
        },
    };
    let mut steps: Vec<CiStep> = Vec::new();
    if tasks.len() == 0 {
        steps.push(CiStep::Print { line: "No CI tasks selected.".to_string() });
        assert(step_views(steps@) =~= seq![CiStepView::Print("No CI tasks selected."@)]);
        return Ok(steps);
    }
    let ghost ts = task_views(tasks@);
    let ghost root = plan.workspace_root@;
    let mut i: usize = 0;
    while i < tasks.len()
        invariant
            i <= tasks.len(),
            ts == task_views(tasks@),
            root == plan.workspace_root@,
            step_views(steps@) == tasks_steps(root, ts.take(i as int), dry_run),
        decreases tasks.len() - i,
    {
        let task = &tasks[i];
        let dir = task_working_directory(plan.workspace_root.as_str(), task.working_directory.as_str());
        let ghost before = step_views(steps@);
        if dry_run {
            let head = concat4(task.id.as_str(), " [", task.stage.as_str(), "] (");
            let line = concat4(head.as_str(), dir.as_str(), ")\n", task.run.as_str());
            let step = CiStep::Print { line };
            let ghost sv = step@;
            steps.push(step);
            proof {
                assert(step_views(steps@) =~= before.push(sv));
                assert(task_steps(root, task@, dry_run) =~= seq![sv]);
            }
        } else {
            let announce = concat4("Running CI task ", task.id.as_str(), " [", task.stage.as_str());
            let line = concat4(announce.as_str(), "]", "", "");
            proof {
                reveal_strlit("");
                assert(line@ =~= "Running CI task "@ + task.id@ + " ["@ + task.stage@ + "]"@);
            }
            let first = CiStep::Print { line };
            let second = CiStep::Run {
                id: task.id.clone(),
                stage: task.stage.clone(),
                command: task.run.clone(),
                working_directory: dir,
            };
            let ghost v1 = first@;
            let ghost v2 = second@;
            steps.push(first);
            steps.push(second);
            proof {
                assert(step_views(steps@) =~= before + seq![v1, v2]);
                assert(task_steps(root, task@, dry_run) =~= seq![v1, v2]);
            }
        }
        proof {
            let t = ts.take(i + 1);
            assert(t.drop_last() =~= ts.take(i as int));
            assert(t.last() == task@);
        }
        i = i + 1;
    }
    assert(ts.take(tasks.len() as int) =~= ts);
    Ok(steps)
}

/// What a CI run does once a task's command has finished: it stops, naming
/// the task, where the command failed, and carries on otherwise.
pub fn after_command(id: &str, succeeded: bool) -> (res: Option<String>)
    ensures
        match res {
            None => succeeded,
            Some(failed) => !succeeded && failed@ == id@,
        },
{
    if succeeded {
        None
    } else {
        Some(id.to_string())
    }
}

/// A stage picks exactly its own tasks: with a stage filter, every task
/// picked has that stage, and every task of the plan with that stage is
/// picked; without one, every task is picked, in order.
pub proof fn law_stage_picks_exactly_its_tasks(ci: crate::ci::CiPlanView, stage: Option<Seq<char>>)
    ensures
        selected_tasks_spec(Some(ci), stage) is Ok,
        stage is None ==> selected_tasks_spec(Some(ci), stage)->Ok_0 == ci.tasks,
        stage matches Some(s) ==> {
            let picked = selected_tasks_spec(Some(ci), stage)->Ok_0;
            &&& forall|i: int| 0 <= i < picked.len() ==> (#[trigger] picked[i]).stage == s
            &&& forall|j: int| 0 <= j < ci.tasks.len() && (#[trigger] ci.tasks[j]).stage == s ==> picked.contains(ci.tasks[j])
            &&& picked.len() <= ci.tasks.len()
        },
{
    let pick = |t: PlannedTaskView| stage_picks(stage, t);
    broadcast use vstd::seq_lib::group_filter_ensures;
    if stage is None {
        assert(ci.tasks.filter(pick) =~= ci.tasks) by {
            lemma_filter_all(ci.tasks, pick);
        }
    } else {
        let picked = ci.tasks.filter(pick);
        assert forall|i: int| 0 <= i < picked.len() implies (#[trigger] picked[i]).stage == stage->Some_0 by {
            assert(pick(picked[i]));
        }
        assert forall|j: int| 0 <= j < ci.tasks.len() && (#[trigger] ci.tasks[j]).stage == stage->Some_0 implies picked.contains(ci.tasks[j]) by {
            assert(pick(ci.tasks[j]));
        }
    }
}

/// A filter that keeps everything keeps the sequence.
proof fn lemma_filter_all(s: Seq<PlannedTaskView>, pred: spec_fn(PlannedTaskView) -> bool)
    requires
        forall|i: int| 0 <= i < s.len() ==> pred(#[trigger] s[i]),
    ensures
        s.filter(pred) == s,
    decreases s.len(),
{
    reveal(Seq::filter);
    if s.len() > 0 {
        lemma_filter_all(s.drop_last(), pred);
        assert(s.drop_last().push(s.last()) =~= s);
    }
}

/// A CI run goes through the tasks in their order: the steps for tasks
/// `first` followed by tasks `second` are the steps for `first` followed by
/// the steps for `second`, and a single task's steps are its own, so the
/// steps of the k-th task come before those of the (k+1)-th.
pub proof fn law_ci_run_keeps_task_order(
    root: Seq<char>,
    first: Seq<PlannedTaskView>,
    second: Seq<PlannedTaskView>,
    t: PlannedTaskView,
    dry_run: bool,
)
    ensures
        tasks_steps(root, first + second, dry_run) == tasks_steps(root, first, dry_run) + tasks_steps(
            root,
            second,
            dry_run,
        ),
        tasks_steps(root, seq![t], dry_run) == task_steps(root, t, dry_run),
        dry_run ==> tasks_steps(root, first, dry_run).len() == first.len(),
        !dry_run ==> tasks_steps(root, first, dry_run).len() == 2 * first.len(),
    decreases second.len(),
{
    let single = seq![t];
    assert(single.drop_last() =~= Seq::<PlannedTaskView>::empty());
    assert(single.last() == t);
    assert(tasks_steps(root, single.drop_last(), dry_run) == Seq::<CiStepView>::empty());
    assert(tasks_steps(root, single, dry_run) == tasks_steps(root, single.drop_last(), dry_run) + task_steps(
        root,
        t,
        dry_run,
    ));
    assert(Seq::<CiStepView>::empty() + task_steps(root, t, dry_run) =~= task_steps(root, t, dry_run));
    lemma_steps_len(root, first, dry_run);
    if second.len() == 0 {
        assert(first + second =~= first);
        assert(tasks_steps(root, first, dry_run) + Seq::<CiStepView>::empty() =~= tasks_steps(root, first, dry_run));
    } else {
        law_ci_run_keeps_task_order(root, first, second.drop_last(), t, dry_run);
        assert((first + second).drop_last() =~= first + second.drop_last());
        assert((first + second).last() == second.last());
        assert(tasks_steps(root, first, dry_run) + (tasks_steps(root, second.drop_last(), dry_run) + task_steps(
            root,
            second.last(),
            dry_run,
        )) =~= tasks_steps(root, first, dry_run) + tasks_steps(root, second.drop_last(), dry_run) + task_steps(
            root,
            second.last(),
            dry_run,
        ));
    }
}

proof fn lemma_steps_len(root: Seq<char>, ts: Seq<PlannedTaskView>, dry_run: bool)
    ensures
        dry_run ==> tasks_steps(root, ts, dry_run).len() == ts.len(),
        !dry_run ==> tasks_steps(root, ts, dry_run).len() == 2 * ts.len(),
    decreases ts.len(),
{
    if ts.len() > 0 {
        lemma_steps_len(root, ts.drop_last(), dry_run);
    }
}

} // verus!
