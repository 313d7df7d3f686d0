//! Selection of packages from changed files: each file selects the package
//! that owns it, the packages a path rule maps it to, or (for global-impact
//! and unowned files) every package; then the workspace dependents of the
//! selected packages are added, breadth first.

use vstd::prelude::*;

use crate::config::{mapped_policy_packages, mapped_spec, PolicyConfig};
use crate::error::{AffectError, ErrorView};
use crate::glob::{any_glob, matches_glob_patterns};
use crate::names::{lemma_sorted_no_duplicates, lemma_sorted_unique, sorted_names, str_eq};
use crate::paths::{
    global_impact, is_global_impact_path, path_starts_with, path_under, relative_path, relative_spec,
};
use crate::text::string_views;
use crate::workspace::{increasing_indices, package_names, WorkspacePackage, Workspace};

verus! {

/// The length in bytes of a string holding `s`, as `str::len` gives it.
pub open spec fn byte_len(s: Seq<char>) -> usize {
    vstd::utf8::encode_utf8(s).len() as usize
}

/// Whether package `i` owns `file`: its root contains the file and no root
/// that contains it is deeper (longer), nor equally deep at a later place.
pub open spec fn owns(packages: Seq<WorkspacePackage>, file: Seq<char>, i: int) -> bool {
    &&& 0 <= i < packages.len()
    &&& path_starts_with(file, packages[i].root@)
    &&& forall|j: int|
        0 <= j < packages.len() && path_starts_with(file, (#[trigger] packages[j]).root@) ==> byte_len(
            packages[j].root@,
        ) <= byte_len(packages[i].root@) && (j > i ==> byte_len(packages[j].root@) < byte_len(
            packages[i].root@,
        ))
}

/// The package that owns `file`: the one with the deepest root that
/// contains it (the last of equally deep ones); none where no root does.
pub open spec fn owner_spec(packages: Seq<WorkspacePackage>, file: Seq<char>) -> Option<int> {
    if exists|i: int| owns(packages, file, i) {
        Some(choose|i: int| owns(packages, file, i))
    } else {
        None
    }
}

/// At most one package owns a file.
pub proof fn lemma_owner_unique(packages: Seq<WorkspacePackage>, file: Seq<char>, i: int, j: int)
    requires
        owns(packages, file, i),
        owns(packages, file, j),
    ensures
        i == j,
{
    assert(path_starts_with(file, packages[j].root@));
    assert(path_starts_with(file, packages[i].root@));
}

/// The package whose root is the deepest that contains `changed_file`.
pub fn owning_package(changed_file: &str, packages: &Vec<WorkspacePackage>) -> (res: Option<usize>)
    ensures
        match res {
            Some(i) => owns(packages@, changed_file@, i as int),
            None => forall|j: int|
                0 <= j < packages@.len() ==> !path_starts_with(changed_file@, (#[trigger] packages@[j]).root@),
        },
        opt_index(res) == owner_spec(packages@, changed_file@),
{
    let mut best: Option<usize> = None;
    let mut best_len: usize = 0;
    let mut j: usize = 0;
    while j < packages.len()
        invariant
            j <= packages.len(),
            match best {
                Some(b) => b < j && path_starts_with(changed_file@, packages@[b as int].root@)
                    && best_len == byte_len(packages@[b as int].root@) && forall|k: int|
                    0 <= k < j && path_starts_with(changed_file@, (#[trigger] packages@[k]).root@)
                        ==> byte_len(packages@[k].root@) <= best_len && (k > b ==> byte_len(
                        packages@[k].root@,
                    ) < best_len),
                None => forall|k: int|
                    0 <= k < j ==> !path_starts_with(changed_file@, (#[trigger] packages@[k]).root@),
            },
        decreases packages.len() - j,
    {
        if path_under(changed_file, packages[j].root.as_str()) {
            let len = packages[j].root.as_str().len();
            match best {
                None => {
                    best = Some(j);
                    best_len = len;
                },
                Some(_) => {
                    if len >= best_len {
                        best = Some(j);
                        best_len = len;
                    }
                },
            }
        }
        j = j + 1;
    }
    proof {
        match best {
            Some(b) => {
                assert(owns(packages@, changed_file@, b as int));
                if owner_spec(packages@, changed_file@) != Some(b as int) {
                    let c = choose|i: int| owns(packages@, changed_file@, i);
                    lemma_owner_unique(packages@, changed_file@, b as int, c);
                }
            },
            None => {
                if exists|i: int| owns(packages@, changed_file@, i) {
                    let c = choose|i: int| owns(packages@, changed_file@, i);
                    assert(path_starts_with(changed_file@, packages@[c].root@));
                }
            },
        }
    }
    best
}

/// An optional index as an optional integer.
pub open spec fn opt_index(o: Option<usize>) -> Option<int> {
    match o {
        Some(i) => Some(i as int),
        None => None,
    }
}

/// The state of a selection: which packages are selected, the reasons
/// given for each, the packages still to be expanded to their dependents,
/// and whether every package is selected.
pub struct SelState {
    pub selected: Seq<bool>,
    pub reasons: Seq<Seq<Seq<char>>>,
    pub queue: Seq<usize>,
    pub select_all: bool,
}

/// Nothing selected yet, in a workspace of `n` packages.
pub open spec fn initial_state(n: nat) -> SelState {
    SelState {
        selected: Seq::new(n, |i: int| false),
        reasons: Seq::new(n, |i: int| Seq::empty()),
        queue: Seq::empty(),
        select_all: false,
    }
}

/// Package `i` selected with reason `msg`: queued where it was not selected
/// yet; the reason is recorded either way.
pub open spec fn mark(st: SelState, i: int, msg: Seq<char>) -> SelState {
    SelState {
        selected: st.selected.update(i, true),
        reasons: st.reasons.update(i, st.reasons[i].push(msg)),
        queue: if st.selected[i] {
            st.queue
        } else {
            st.queue.push(i as usize)
        },
        select_all: st.select_all,
    }
}

/// Every package selected, each with the reason "global impact: FILE".
pub open spec fn add_global(st: SelState, file: Seq<char>) -> SelState {
    SelState {
        selected: st.selected,
        reasons: st.reasons.map_values(|r: Seq<Seq<char>>| r.push("global impact: "@ + file)),
        queue: st.queue,
        select_all: true,
    }
}

/// The place of `name` among `names`.
pub open spec fn name_index(names: Seq<Seq<char>>, name: Seq<char>) -> Option<int> {
    if names.contains(name) {
        Some(choose|i: int| 0 <= i < names.len() && names[i] == name)
    } else {
        None
    }
}

/// The packages that a path rule maps `rel` to, marked in order with the
/// reason "path rule: REL"; an error for the first that is not a workspace
/// package.
pub open spec fn map_names(
    names: Seq<Seq<char>>,
    mapped: Seq<Seq<char>>,
    rel: Seq<char>,
    st: SelState,
) -> Result<SelState, ErrorView>
    decreases mapped.len(),
{
    if mapped.len() == 0 {
        Ok(st)
    } else {
        match name_index(names, mapped[0]) {
            None => Err(ErrorView::UnknownMappedPackage(rel, mapped[0])),
            Some(i) => map_names(names, mapped.drop_first(), rel, mark(st, i, "path rule: "@ + rel)),
        }
    }
}

/// A finite set of names in lexicographic order.
pub open spec fn sorted_of(s: Set<Seq<char>>) -> Seq<Seq<char>> {
    choose|q: Seq<Seq<char>>| sorted_names(q) && q.to_set() == s
}

/// What one changed file does to the selection. A global-impact file, or
/// one that a `global` pattern matches, selects everything; else a file
/// that path rules map selects their packages; else the package that owns
/// it; else, unowned, everything.
pub open spec fn file_step(
    packages: Seq<WorkspacePackage>,
    config: PolicyConfig,
    root: Seq<char>,
    file: Seq<char>,
    st: SelState,
) -> Result<SelState, ErrorView> {
    let rel = relative_spec(file, root);
    if global_impact(file) {
        Ok(add_global(st, file))
    } else {
        match any_glob(string_views(config.global@), rel) {
            Err(e) => Err(e),
            Ok(true) => Ok(add_global(st, file)),
            Ok(false) => match mapped_spec(config.paths@, rel) {
                Err(e) => Err(e),
                Ok(Some(set)) => map_names(package_names(packages), sorted_of(set), rel, st),
                Ok(None) => match owner_spec(packages, file) {
                    Some(i) => Ok(mark(st, i, "changed: "@ + rel)),
                    None => Ok(add_global(st, file)),
                },
            },
        }
    }
}

/// The changed files applied in order; the first error stops.
pub open spec fn scan_files(
    packages: Seq<WorkspacePackage>,
    config: PolicyConfig,
    root: Seq<char>,
    files: Seq<Seq<char>>,
    st: SelState,
) -> Result<SelState, ErrorView>
    decreases files.len(),
{
    if files.len() == 0 {
        Ok(st)
    } else {
        match file_step(packages, config, root, files[0], st) {
            Err(e) => Err(e),
            Ok(next) => scan_files(packages, config, root, files.drop_first(), next),
        }
    }
}

/// The number of packages not selected.
pub open spec fn count_unselected(s: Seq<bool>) -> nat
    decreases s.len(),
{
    if s.len() == 0 {
        0
    } else {
        (if s[0] {
            0nat
        } else {
            1nat
        }) + count_unselected(s.drop_first())
    }
}

pub proof fn lemma_count_unselected_update(s: Seq<bool>, d: int)
    requires
        0 <= d < s.len(),
        !s[d],
    ensures
        count_unselected(s.update(d, true)) + 1 == count_unselected(s),
    decreases s.len(),
{
    if d == 0 {
        assert(s.update(d, true).drop_first() =~= s.drop_first());
    } else {
        assert(s.update(d, true).drop_first() =~= s.drop_first().update(d - 1, true));
        lemma_count_unselected_update(s.drop_first(), d - 1);
    }
}

/// The dependents `deps` of a package expanded in order: each one not yet
/// selected is selected, queued, and given the reason `msg`.
pub open spec fn expand(deps: Seq<usize>, msg: Seq<char>, st: SelState) -> SelState
    decreases deps.len(),
{
    if deps.len() == 0 {
        st
    } else {
        let d = deps[0] as int;
        let next = if d < st.selected.len() && !st.selected[d] {
            mark(st, d, msg)
        } else {
            st
        };
        expand(deps.drop_first(), msg, next)
    }
}

pub proof fn lemma_expand_measure(deps: Seq<usize>, msg: Seq<char>, st: SelState)
    ensures
        count_unselected(expand(deps, msg, st).selected) + expand(deps, msg, st).queue.len()
            == count_unselected(st.selected) + st.queue.len(),
        expand(deps, msg, st).selected.len() == st.selected.len(),
    decreases deps.len(),
{
    if deps.len() > 0 {
        let d = deps[0] as int;
        if d < st.selected.len() && !st.selected[d] {
            lemma_count_unselected_update(st.selected, d);
            lemma_expand_measure(deps.drop_first(), msg, mark(st, d, msg));
        } else {
            lemma_expand_measure(deps.drop_first(), msg, st);
        }
    }
}

/// The dependents of package `p`, or none for an index out of range.
pub open spec fn deps_of(dependents: Seq<Seq<usize>>, p: usize) -> Seq<usize> {
    if (p as int) < dependents.len() {
        dependents[p as int]
    } else {
        Seq::empty()
    }
}

/// The queue worked off in order: each package taken from its front has its
/// dependents expanded with the reason "depends on NAME".
pub open spec fn bfs(dependents: Seq<Seq<usize>>, names: Seq<Seq<char>>, st: SelState) -> SelState
    decreases count_unselected(st.selected) + st.queue.len(),
{
    if st.queue.len() == 0 {
        st
    } else {
        let p = st.queue[0];
        let popped = SelState {
            selected: st.selected,
            reasons: st.reasons,
            queue: st.queue.drop_first(),
            select_all: st.select_all,
        };
        proof {
            lemma_expand_measure(deps_of(dependents, p), "depends on "@ + names[p as int], popped);
        }
        bfs(dependents, names, expand(deps_of(dependents, p), "depends on "@ + names[p as int], popped))
    }
}

/// The selection that the changed files make: after the files, everything
/// where some file selected everything, else the selected packages and
/// their dependents.
pub open spec fn selection_spec(
    packages: Seq<WorkspacePackage>,
    dependents: Seq<Seq<usize>>,
    config: PolicyConfig,
    root: Seq<char>,
    files: Seq<Seq<char>>,
) -> Result<SelState, ErrorView> {
    match scan_files(packages, config, root, files, initial_state(packages.len())) {
        Err(e) => Err(e),
        Ok(st) => Ok(
            if st.select_all {
                SelState {
                    selected: Seq::new(packages.len(), |i: int| true),
                    reasons: st.reasons,
                    queue: st.queue,
                    select_all: true,
                }
            } else {
                bfs(dependents, package_names(packages), st)
            },
        ),
    }
}

/// A selection in progress.
pub struct Selection {
    pub selected: Vec<bool>,
    pub reasons: Vec<Vec<String>>,
    pub queue: Vec<usize>,
    pub head: usize,
    pub select_all: bool,
}

/// The reasons, as character sequences.
pub open spec fn reason_views(r: Seq<Vec<String>>) -> Seq<Seq<Seq<char>>> {
    r.map_values(|v: Vec<String>| string_views(v@))
}

impl Selection {
    /// The state that the selection holds; the queue is what lies at and
    /// after `head`.
    pub open spec fn state(&self) -> SelState {
        SelState {
            selected: self.selected@,
            reasons: reason_views(self.reasons@),
            queue: self.queue@.skip(self.head as int),
            select_all: self.select_all,
        }
    }

    /// Sizes agree with a workspace of `n` packages.
    pub open spec fn sized(&self, n: nat) -> bool {
        &&& self.selected@.len() == n
        &&& self.reasons@.len() == n
        &&& self.head <= self.queue@.len()
        &&& forall|k: int| 0 <= k < self.queue@.len() ==> (#[trigger] self.queue@[k]) < n
    }
}

/// Package `i` selected with reason `msg`.
fn mark_package(sel: &mut Selection, i: usize, msg: String, Ghost(n): Ghost<nat>)
    requires
        old(sel).sized(n),
        i < n,
    ensures
        final(sel).sized(n),
        final(sel).state() == mark(old(sel).state(), i as int, msg@),
{
    let ghost before = sel.state();
    if !sel.selected[i] {
        sel.selected.set(i, true);
        sel.queue.push(i);
    }
    let ghost msg_view = msg@;
    sel.reasons[i].push(msg);
    proof {
        let after = sel.state();
        assert forall|k: int| 0 <= k < after.reasons.len() implies #[trigger] after.reasons[k] == before.reasons.update(i as int, before.reasons[i as int].push(msg_view))[k] by {
            if k == i {
                assert(string_views(sel.reasons@[k]@) =~= before.reasons[k].push(msg_view));
            }
        }
        assert(after.selected =~= before.selected.update(i as int, true));
        assert(after.reasons =~= before.reasons.update(i as int, before.reasons[i as int].push(msg_view)));
        if before.selected[i as int] {
            assert(after.queue =~= before.queue);
        } else {
            assert(after.queue =~= before.queue.push(i));
        }
    }
}

/// Every package selected, each with the reason "global impact: FILE".
fn add_global_reason(sel: &mut Selection, file: &str, Ghost(n): Ghost<nat>)
    requires
        old(sel).sized(n),
    ensures
        final(sel).sized(n),
        final(sel).state() == add_global(old(sel).state(), file@),
{
    let ghost before = sel.state();
    let mut msg = "global impact: ".to_string();
    msg.append(file);
    let mut i: usize = 0;
    while i < sel.reasons.len()
        invariant
            sel.sized(n),
            before.reasons.len() == n,
            sel.selected@ == before.selected,
            sel.queue@.skip(sel.head as int) == before.queue,
            msg@ == "global impact: "@ + file@,
            i <= sel.reasons@.len(),
            forall|k: int| 0 <= k < i ==> #[trigger] reason_views(sel.reasons@)[k] == before.reasons[k].push(msg@),
            forall|k: int| i <= k < sel.reasons@.len() ==> #[trigger] reason_views(sel.reasons@)[k] == before.reasons[k],
        decreases sel.reasons@.len() - i,
    {
        let ghost prev = reason_views(sel.reasons@);
        sel.reasons[i].push(msg.clone());
        proof {
            assert(reason_views(sel.reasons@)[i as int] =~= prev[i as int].push(msg@));
            assert forall|k: int| 0 <= k < i + 1 implies #[trigger] reason_views(sel.reasons@)[k] == before.reasons[k].push(msg@) by {
                if k < i {
                    assert(reason_views(sel.reasons@)[k] == prev[k]);
                }
            }
            assert forall|k: int| i + 1 <= k < sel.reasons@.len() implies #[trigger] reason_views(sel.reasons@)[k] == before.reasons[k] by {
                assert(reason_views(sel.reasons@)[k] == prev[k]);
            }
        }
        i = i + 1;
    }
    sel.select_all = true;
    proof {
        assert(sel.state().reasons =~= before.reasons.map_values(|r: Seq<Seq<char>>| r.push("global impact: "@ + file@)));
    }
}

/// The place of `name` among the packages.
fn find_package(packages: &Vec<WorkspacePackage>, name: &str) -> (res: Option<usize>)
    requires
        sorted_names(package_names(packages@)),
    ensures
        opt_index(res) == name_index(package_names(packages@), name@),
        res matches Some(i) ==> i < packages.len(),
{
    let ghost names = package_names(packages@);
    let mut i: usize = 0;
    while i < packages.len()
        invariant
            names == package_names(packages@),
            sorted_names(names),
            i <= packages.len(),
            forall|k: int| 0 <= k < i ==> names[k] != name@,
        decreases packages.len() - i,
    {
        if str_eq(packages[i].name.as_str(), name) {
            proof {
                assert(names[i as int] == name@);
                assert(names.contains(name@));
                let c = choose|c: int| 0 <= c < names.len() && names[c] == name@;
                lemma_sorted_no_duplicates(names);
            }
            return Some(i);
        }
        i = i + 1;
    }
    None
}

/// The text "PREFIX" followed by `s`.
fn prefixed(prefix: &str, s: &str) -> (res: String)
    ensures
        res@ == prefix@ + s@,
{
    let mut r = prefix.to_string();
    r.append(s);
    r
}

/// The packages a path rule maps a file to, marked in order.
fn apply_mapped(
    sel: &mut Selection,
    packages: &Vec<WorkspacePackage>,
    mapped: &Vec<String>,
    rel: &str,
) -> (res: Result<(), AffectError>)
    requires
        old(sel).sized(packages@.len()),
        sorted_names(package_names(packages@)),
    ensures
        final(sel).sized(packages@.len()),
        match map_names(package_names(packages@), string_views(mapped@), rel@, old(sel).state()) {
            Ok(st) => res is Ok && final(sel).state() == st,
            Err(e) => res matches Err(x) && x@ == e,
        },
{
    let ghost names = package_names(packages@);
    let ghost all = string_views(mapped@);
    let ghost start = sel.state();
    let mut i: usize = 0;
    assert(all.skip(0) =~= all);
    while i < mapped.len()
        invariant
            names == package_names(packages@),
            sorted_names(names),
            all == string_views(mapped@),
            start == old(sel).state(),
            sel.sized(packages@.len()),
            i <= mapped.len(),
            map_names(names, all, rel@, start) == map_names(names, all.skip(i as int), rel@, sel.state()),
        decreases mapped.len() - i,
    {
        assert(all.skip(i as int)[0] == mapped@[i as int]@);
        assert(all.skip(i as int).drop_first() =~= all.skip(i + 1));
        match find_package(packages, mapped[i].as_str()) {
            None => {
                let e = AffectError::UnknownMappedPackage {
                    path: rel.to_string(),
                    package: mapped[i].clone(),
                };
                return Err(e);
            },
            Some(k) => {
                let msg = prefixed("path rule: ", rel);
                mark_package(sel, k, msg, Ghost(packages@.len()));
            },
        }
        i = i + 1;
    }
    Ok(())
}

/// The sorted names whose set is `s` are `sorted_of(s)`.
proof fn lemma_sorted_of(v: Seq<Seq<char>>)
    requires
        sorted_names(v),
    ensures
        sorted_of(v.to_set()) == v,
{
    let q = sorted_of(v.to_set());
    assert(sorted_names(v) && v.to_set() == v.to_set());
    assert(sorted_names(q) && q.to_set() == v.to_set());
    assert forall|x: Seq<char>| q.contains(x) <==> v.contains(x) by {
        assert(q.to_set().contains(x) == q.contains(x));
        assert(v.to_set().contains(x) == v.contains(x));
    }
    lemma_sorted_unique(q, v);
}

/// What one changed file does to the selection.
fn process_file(
    sel: &mut Selection,
    packages: &Vec<WorkspacePackage>,
    config: &PolicyConfig,
    root: &str,
    file: &str,
) -> (res: Result<(), AffectError>)
    requires
        old(sel).sized(packages@.len()),
        sorted_names(package_names(packages@)),
    ensures
        final(sel).sized(packages@.len()),
        match file_step(packages@, *config, root@, file@, old(sel).state()) {
            Ok(st) => res is Ok && final(sel).state() == st,
            Err(e) => res matches Err(x) && x@ == e,
        },
{
    let n: Ghost<nat> = Ghost(packages@.len());
    let rel = relative_path(file, root);
    if is_global_impact_path(file) {
        add_global_reason(sel, file, n);
        return Ok(());
    }
    let global = match matches_glob_patterns(&config.global, rel.as_str()) {
        Ok(g) => g,
        Err(e) => {
            return Err(e);
        },
    };
    if global {
        add_global_reason(sel, file, n);
        return Ok(());
    }
    let mapped = match mapped_policy_packages(config, rel.as_str()) {
        Ok(m) => m,
        Err(e) => {
            return Err(e);
        },
    };
    match mapped {
        Some(list) => {
            proof {
                lemma_sorted_of(string_views(list@));
            }
            return apply_mapped(sel, packages, &list, rel.as_str());
        },
        None => {},
    }
    match owning_package(file, packages) {
        Some(i) => {
            let msg = prefixed("changed: ", rel.as_str());
            mark_package(sel, i, msg, n);
        },
        None => {
            add_global_reason(sel, file, n);
        },
    }
    Ok(())
}

/// The dependents of each package, as sequences.
pub open spec fn dependent_views(d: Seq<Vec<usize>>) -> Seq<Seq<usize>> {
    d.map_values(|v: Vec<usize>| v@)
}

/// The changed files applied in order to a selection.
fn scan_changed_files(
    sel: &mut Selection,
    packages: &Vec<WorkspacePackage>,
    config: &PolicyConfig,
    root: &str,
    changed_files: &Vec<String>,
) -> (res: Result<(), AffectError>)
    requires
        old(sel).sized(packages@.len()),
        sorted_names(package_names(packages@)),
    ensures
        final(sel).sized(packages@.len()),
        match scan_files(packages@, *config, root@, string_views(changed_files@), old(sel).state()) {
            Ok(st) => res is Ok && final(sel).state() == st,
            Err(e) => res matches Err(x) && x@ == e,
        },
{
    let ghost files = string_views(changed_files@);
    let ghost start = sel.state();
    let mut i: usize = 0;
    assert(files.skip(0) =~= files);
    while i < changed_files.len()
        invariant
            files == string_views(changed_files@),
            start == old(sel).state(),
            sorted_names(package_names(packages@)),
            sel.sized(packages@.len()),
            i <= changed_files.len(),
            scan_files(packages@, *config, root@, files, start) == scan_files(
                packages@,
                *config,
                root@,
                files.skip(i as int),
                sel.state(),
            ),
        decreases changed_files.len() - i,
    {
        assert(files.skip(i as int)[0] == changed_files@[i as int]@);
        assert(files.skip(i as int).drop_first() =~= files.skip(i + 1));
        match process_file(sel, packages, config, root, changed_files[i].as_str()) {
            Ok(()) => {},
            Err(e) => {
                return Err(e);
            },
        }
        i = i + 1;
    }
    Ok(())
}

/// The queue worked off: each package taken from it has its dependents
/// selected, with the reason "depends on NAME".
fn expand_queue(sel: &mut Selection, workspace: &Workspace)
    requires
        workspace.wf(),
        old(sel).sized(workspace.packages@.len()),
    ensures
        final(sel).sized(workspace.packages@.len()),
        final(sel).state() == bfs(
            dependent_views(workspace.dependents@),
            package_names(workspace.packages@),
            old(sel).state(),
        ),
{
    let ghost n = workspace.packages@.len();
    let ghost deps_all = dependent_views(workspace.dependents@);
    let ghost names = package_names(workspace.packages@);
    let ghost start = sel.state();
    while sel.head < sel.queue.len()
        invariant
            workspace.wf(),
            n == workspace.packages@.len(),
            deps_all == dependent_views(workspace.dependents@),
            names == package_names(workspace.packages@),
            sel.sized(n),
            bfs(deps_all, names, start) == bfs(deps_all, names, sel.state()),
        decreases count_unselected(sel.selected@) + sel.queue@.len() - sel.head,
    {
        let ghost before = sel.state();
        let p = sel.queue[sel.head];
        sel.head = sel.head + 1;
        let ghost popped = sel.state();
        assert(popped.queue =~= before.queue.drop_first());
        assert(before.queue[0] == p);
        let msg = prefixed("depends on ", workspace.packages[p].name.as_str());
        let deps = &workspace.dependents[p];
        assert(deps_of(deps_all, p) == deps@);
        assert(names[p as int] == workspace.packages@[p as int].name@);
        assert(increasing_indices(deps@, n as int));
        let mut k: usize = 0;
        assert(deps@.skip(0) =~= deps@);
        while k < deps.len()
            invariant
                sel.sized(n),
                increasing_indices(deps@, n as int),
                k <= deps.len(),
                expand(deps@, msg@, popped) == expand(deps@.skip(k as int), msg@, sel.state()),
            decreases deps.len() - k,
        {
            assert(deps@.skip(k as int)[0] == deps@[k as int]);
            assert(deps@.skip(k as int).drop_first() =~= deps@.skip(k + 1));
            let d = deps[k];
            if !sel.selected[d] {
                mark_package(sel, d, msg.clone(), Ghost(n));
            }
            k = k + 1;
        }
        proof {
            assert(deps@.skip(k as int) =~= Seq::<usize>::empty());
            lemma_expand_measure(deps@, msg@, popped);
        }
    }
    proof {
        assert(sel.state().queue =~= Seq::<usize>::empty());
    }
}

/// Every package selected.
fn select_everything(sel: &mut Selection, Ghost(n): Ghost<nat>)
    requires
        old(sel).sized(n),
    ensures
        final(sel).sized(n),
        final(sel).state() == (SelState {
            selected: Seq::new(n, |i: int| true),
            reasons: old(sel).state().reasons,
            queue: old(sel).state().queue,
            select_all: old(sel).state().select_all,
        }),
{
    let mut i: usize = 0;
    while i < sel.selected.len()
        invariant
            sel.sized(n),
            sel.reasons@ == old(sel).reasons@,
            sel.queue@ == old(sel).queue@,
            sel.head == old(sel).head,
            sel.select_all == old(sel).select_all,
            i <= sel.selected@.len(),
            forall|k: int| 0 <= k < i ==> sel.selected@[k],
        decreases sel.selected@.len() - i,
    {
        sel.selected.set(i, true);
        i = i + 1;
    }
    assert(sel.selected@ =~= Seq::new(n, |i: int| true));
}

/// The selection that the changed files make in the workspace: the
/// directly selected packages and their dependents, or every package.
pub fn select_packages(
    workspace: &Workspace,
    config: &PolicyConfig,
    root: &str,
    changed_files: &Vec<String>,
) -> (res: Result<Selection, AffectError>)
    requires
        workspace.wf(),
    ensures
        match selection_spec(
            workspace.packages@,
            dependent_views(workspace.dependents@),
            *config,
            root@,
            string_views(changed_files@),
        ) {
            Ok(st) => res matches Ok(sel) && sel.sized(workspace.packages@.len()) && sel.state() == st,
            Err(e) => res matches Err(x) && x@ == e,
        },
{
    let n = workspace.packages.len();
    let mut selected: Vec<bool> = Vec::new();
    let mut reasons: Vec<Vec<String>> = Vec::new();
    let mut i: usize = 0;
    while i < n
        invariant
            i <= n,
            selected@.len() == i,
            reasons@.len() == i,
            forall|k: int| 0 <= k < i ==> !selected@[k],
            forall|k: int| 0 <= k < i ==> (#[trigger] reasons@[k])@.len() == 0,
        decreases n - i,
    {
        selected.push(false);
        reasons.push(Vec::new());
        i = i + 1;
    }
    let mut sel = Selection { selected, reasons, queue: Vec::new(), head: 0, select_all: false };
    proof {
        assert(sel.state().selected =~= initial_state(n as nat).selected);
        assert forall|k: int| 0 <= k < n implies #[trigger] sel.state().reasons[k] == initial_state(n as nat).reasons[k] by {
            assert(sel.reasons@[k]@.len() == 0);
            assert(string_views(sel.reasons@[k]@) =~= Seq::<Seq<char>>::empty());
        }
        assert(sel.state().reasons =~= initial_state(n as nat).reasons);
        assert(sel.state().queue =~= initial_state(n as nat).queue);
    }
    match scan_changed_files(&mut sel, &workspace.packages, config, root, changed_files) {
        Ok(()) => {},
        Err(e) => {
            return Err(e);
        },
    }
    if sel.select_all {
        select_everything(&mut sel, Ghost(n as nat));
    } else {
        expand_queue(&mut sel, workspace);
    }
    Ok(sel)
}

/// `c` is a path from a seed along dependent edges.
pub open spec fn is_chain(dependents: Seq<Seq<usize>>, seeds: Seq<bool>, c: Seq<usize>) -> bool {
    &&& c.len() > 0
    &&& forall|k: int| 0 <= k < c.len() ==> (#[trigger] c[k] as int) < seeds.len()
    &&& seeds[c[0] as int]
    &&& forall|k: int|
        0 <= k < c.len() - 1 ==> (#[trigger] c[k] as int) < dependents.len() && dependents[c[k] as int].contains(
            c[k + 1],
        )
}

/// Package `x` is a seed or depends, through workspace dependents, on one.
pub open spec fn reaches(dependents: Seq<Seq<usize>>, seeds: Seq<bool>, x: int) -> bool {
    exists|c: Seq<usize>| #[trigger] is_chain(dependents, seeds, c) && c.last() as int == x
}

/// Every dependent index lies among the `n` packages.
pub open spec fn graph_wf(dependents: Seq<Seq<usize>>, n: nat) -> bool {
    &&& dependents.len() == n
    &&& forall|i: int, k: int|
        0 <= i < n && 0 <= k < dependents[i].len() ==> (#[trigger] dependents[i][k]) < n
}

/// What a breadth-first expansion keeps: queued packages are selected; a
/// selected package no longer queued has its dependents selected; every
/// selected package is reached from the seeds; every seed is selected.
pub open spec fn bfs_inv(dependents: Seq<Seq<usize>>, seeds: Seq<bool>, st: SelState) -> bool {
    let n = seeds.len();
    &&& n <= usize::MAX
    &&& st.selected.len() == n
    &&& forall|k: int| 0 <= k < st.queue.len() ==> (#[trigger] st.queue[k]) < n && st.selected[st.queue[k] as int]
    &&& forall|i: int|
        0 <= i < n && #[trigger] st.selected[i] && !st.queue.contains(i as usize) ==> forall|k: int|
            0 <= k < dependents[i].len() ==> st.selected[#[trigger] dependents[i][k] as int]
    &&& forall|i: int| 0 <= i < n && #[trigger] st.selected[i] ==> reaches(dependents, seeds, i)
    &&& forall|i: int| 0 <= i < n && #[trigger] seeds[i] ==> st.selected[i]
}

proof fn lemma_expand_facts(deps: Seq<usize>, msg: Seq<char>, st: SelState)
    ensures
        ({
            let r = expand(deps, msg, st);
            &&& r.selected.len() == st.selected.len()
            &&& forall|i: int| 0 <= i < st.selected.len() && st.selected[i] ==> #[trigger] r.selected[i]
            &&& forall|k: int|
                0 <= k < deps.len() && (deps[k] as int) < st.selected.len() ==> r.selected[#[trigger] deps[k] as int]
            &&& r.queue.len() >= st.queue.len()
            &&& forall|k: int| 0 <= k < st.queue.len() ==> #[trigger] r.queue[k] == st.queue[k]
            &&& forall|k: int|
                st.queue.len() <= k < r.queue.len() ==> (#[trigger] r.queue[k] as int) < st.selected.len()
                    && r.selected[r.queue[k] as int] && deps.contains(r.queue[k])
            &&& forall|i: int|
                0 <= i < st.selected.len() && #[trigger] r.selected[i] && !st.selected[i] ==> r.queue.contains(
                    i as usize,
                ) && deps.contains(i as usize)
        }),
    decreases deps.len(),
{
    if deps.len() > 0 {
        let d = deps[0] as int;
        let rest = deps.drop_first();
        let next = if d < st.selected.len() && !st.selected[d] {
            mark(st, d, msg)
        } else {
            st
        };
        lemma_expand_facts(rest, msg, next);
        let r = expand(deps, msg, st);
        assert(r == expand(rest, msg, next));
        assert forall|k: int|
            0 <= k < deps.len() && (deps[k] as int) < st.selected.len() implies r.selected[#[trigger] deps[k] as int] by {
            if k > 0 {
                assert(rest[k - 1] == deps[k]);
            } else {
                assert(next.selected[d]);
            }
        }
        assert forall|k: int|
            st.queue.len() <= k < r.queue.len() implies (#[trigger] r.queue[k] as int) < st.selected.len()
                && r.selected[r.queue[k] as int] && deps.contains(r.queue[k]) by {
            if k < next.queue.len() {
                assert(next.queue[k] == deps[0]);
                assert(deps[0] == deps[0]);
                assert(deps.contains(deps[0]));
            } else {
                let m = choose|m: int| 0 <= m < rest.len() && rest[m] == r.queue[k];
                assert(deps[m + 1] == r.queue[k]);
            }
        }
        assert forall|i: int|
            0 <= i < st.selected.len() && #[trigger] r.selected[i] && !st.selected[i] implies r.queue.contains(
                i as usize,
            ) && deps.contains(i as usize) by {
            if next.selected[i] {
                assert(i == d);
                assert(r.queue[st.queue.len() as int] == next.queue[st.queue.len() as int]);
                assert(deps[0] as int == i);
            } else {
                let m = choose|m: int| 0 <= m < rest.len() && rest[m] == i as usize;
                assert(deps[m + 1] == i as usize);
            }
        }
    }
}

/// A chain to `p` extends to each dependent of `p`.
proof fn lemma_chain_extend(dependents: Seq<Seq<usize>>, seeds: Seq<bool>, p: usize, x: usize)
    requires
        reaches(dependents, seeds, p as int),
        (p as int) < dependents.len(),
        dependents[p as int].contains(x),
        (x as int) < seeds.len(),
    ensures
        reaches(dependents, seeds, x as int),
{
    let c = choose|c: Seq<usize>| #[trigger] is_chain(dependents, seeds, c) && c.last() as int == p as int;
    let c2 = c.push(x);
    assert forall|k: int| 0 <= k < c2.len() implies (#[trigger] c2[k] as int) < seeds.len() by {
        if k < c.len() {
            assert(c2[k] == c[k]);
        }
    }
    assert forall|k: int| 0 <= k < c2.len() - 1 implies (#[trigger] c2[k] as int) < dependents.len()
        && dependents[c2[k] as int].contains(c2[k + 1]) by {
        if k < c.len() - 1 {
            assert(c2[k] == c[k]);
            assert(c2[k + 1] == c[k + 1]);
        } else {
            assert(c2[k] == p);
            assert(c2[k + 1] == x);
        }
    }
    assert(is_chain(dependents, seeds, c2));
}

/// The state after one step of the expansion.
pub open spec fn bfs_step(dependents: Seq<Seq<usize>>, names: Seq<Seq<char>>, st: SelState) -> SelState {
    let p = st.queue[0];
    let popped = SelState {
        selected: st.selected,
        reasons: st.reasons,
        queue: st.queue.drop_first(),
        select_all: st.select_all,
    };
    expand(deps_of(dependents, p), "depends on "@ + names[p as int], popped)
}

/// One step of the expansion keeps its invariant.
#[verifier::rlimit(40)]
pub(crate) proof fn lemma_bfs_step(dependents: Seq<Seq<usize>>, names: Seq<Seq<char>>, seeds: Seq<bool>, st: SelState)
    requires
        graph_wf(dependents, seeds.len()),
        bfs_inv(dependents, seeds, st),
        st.queue.len() > 0,
    ensures
        bfs_inv(dependents, seeds, bfs_step(dependents, names, st)),
{
    let n = seeds.len();
    let p = st.queue[0];
    let popped = SelState {
        selected: st.selected,
        reasons: st.reasons,
        queue: st.queue.drop_first(),
        select_all: st.select_all,
    };
    let msg = "depends on "@ + names[p as int];
    let deps = deps_of(dependents, p);
    assert(p < n);
    assert(deps == dependents[p as int]);
    lemma_expand_facts(deps, msg, popped);
    let r = expand(deps, msg, popped);
    assert(r == bfs_step(dependents, names, st));
    assert forall|k: int| 0 <= k < r.queue.len() implies (#[trigger] r.queue[k]) < n && r.selected[r.queue[k] as int] by {
        if k < popped.queue.len() {
            assert(popped.queue[k] == st.queue[k + 1]);
        }
    }
    assert forall|i: int|
        0 <= i < n && #[trigger] r.selected[i] && !r.queue.contains(i as usize) implies forall|k: int|
            0 <= k < dependents[i].len() ==> r.selected[#[trigger] dependents[i][k] as int] by {
        lemma_bfs_step_closed_at(dependents, seeds, st, deps, msg, popped, r, i);
    }
    assert forall|i: int| 0 <= i < n && #[trigger] r.selected[i] implies reaches(dependents, seeds, i) by {
        if !st.selected[i] {
            assert(deps.contains(i as usize));
            assert(st.selected[p as int]);
            lemma_chain_extend(dependents, seeds, p, i as usize);
        }
    }
}

/// After a step, package `i`, selected and no longer queued, has its
/// dependents selected.
#[verifier::spinoff_prover]
proof fn lemma_bfs_step_closed_at(
    dependents: Seq<Seq<usize>>,
    seeds: Seq<bool>,
    st: SelState,
    deps: Seq<usize>,
    msg: Seq<char>,
    popped: SelState,
    r: SelState,
    i: int,
)
    requires
        graph_wf(dependents, seeds.len()),
        bfs_inv(dependents, seeds, st),
        st.queue.len() > 0,
        deps == dependents[st.queue[0] as int],
        popped == (SelState {
            selected: st.selected,
            reasons: st.reasons,
            queue: st.queue.drop_first(),
            select_all: st.select_all,
        }),
        r == expand(deps, msg, popped),
        0 <= i < seeds.len(),
        r.selected[i],
        !r.queue.contains(i as usize),
    ensures
        forall|k: int| 0 <= k < dependents[i].len() ==> r.selected[#[trigger] dependents[i][k] as int],
{
    let n = seeds.len();
    let p = st.queue[0];
    lemma_expand_facts(deps, msg, popped);
    if i == p as int {
        assert forall|k: int| 0 <= k < dependents[i].len() implies r.selected[#[trigger] dependents[i][k] as int] by {
            assert(deps[k] == dependents[i][k]);
            assert(dependents[i][k] < n);
        }
    } else {
        assert(st.selected[i]);
        if st.queue.contains(i as usize) {
            let m = choose|m: int| 0 <= m < st.queue.len() && st.queue[m] == i as usize;
            assert(m != 0);
            assert(popped.queue[m - 1] == i as usize);
            assert(r.queue[m - 1] == i as usize);
        }
        assert forall|k: int| 0 <= k < dependents[i].len() implies r.selected[#[trigger] dependents[i][k] as int] by {
            assert(dependents[i][k] < n);
            assert(st.selected[dependents[i][k] as int]);
        }
    }
}

/// The expansion keeps its invariant, and ends with an empty queue.
proof fn lemma_bfs_inv(dependents: Seq<Seq<usize>>, names: Seq<Seq<char>>, seeds: Seq<bool>, st: SelState)
    requires
        graph_wf(dependents, seeds.len()),
        bfs_inv(dependents, seeds, st),
    ensures
        bfs_inv(dependents, seeds, bfs(dependents, names, st)),
        bfs(dependents, names, st).queue.len() == 0,
    decreases count_unselected(st.selected) + st.queue.len(),
{
    if st.queue.len() > 0 {
        let p = st.queue[0];
        let popped = SelState {
            selected: st.selected,
            reasons: st.reasons,
            queue: st.queue.drop_first(),
            select_all: st.select_all,
        };
        lemma_expand_measure(deps_of(dependents, p), "depends on "@ + names[p as int], popped);
        lemma_bfs_step(dependents, names, seeds, st);
        lemma_bfs_inv(dependents, names, seeds, bfs_step(dependents, names, st));
    }
}

/// Every package reached from the seeds is selected once the expansion is
/// done.
proof fn lemma_reached_selected(dependents: Seq<Seq<usize>>, seeds: Seq<bool>, st: SelState, c: Seq<usize>, k: int)
    requires
        bfs_inv(dependents, seeds, st),
        st.queue.len() == 0,
        graph_wf(dependents, seeds.len()),
        is_chain(dependents, seeds, c),
        0 <= k < c.len(),
    ensures
        (c[k] as int) < seeds.len(),
        st.selected[c[k] as int],
    decreases k,
{
    assert((c[k] as int) < seeds.len());
    if k == 0 {
        assert(seeds[c[0] as int]);
    } else {
        lemma_reached_selected(dependents, seeds, st, c, k - 1);
        let p = c[k - 1] as int;
        assert((c[k - 1] as int) < dependents.len());
        assert(dependents[p].contains(c[k]));
        let m = choose|m: int| 0 <= m < dependents[p].len() && dependents[p][m] == c[k];
        assert(!st.queue.contains(p as usize));
        assert(st.selected[p]);
        assert(st.selected[dependents[p][m] as int]);
    }
}

/// What every step of the file scan keeps: queued packages are selected,
/// and every selected package is queued.
pub open spec fn scan_inv(st: SelState, n: nat) -> bool {
    &&& n <= usize::MAX
    &&& st.selected.len() == n
    &&& st.reasons.len() == n
    &&& forall|k: int| 0 <= k < st.queue.len() ==> (#[trigger] st.queue[k]) < n && st.selected[st.queue[k] as int]
    &&& forall|i: int| 0 <= i < n && #[trigger] st.selected[i] ==> st.queue.contains(i as usize)
}

proof fn lemma_mark_scan_inv(st: SelState, n: nat, i: int, msg: Seq<char>)
    requires
        scan_inv(st, n),
        0 <= i < n,
    ensures
        scan_inv(mark(st, i, msg), n),
{
    let r = mark(st, i, msg);
    assert forall|k: int| 0 <= k < r.queue.len() implies (#[trigger] r.queue[k]) < n && r.selected[r.queue[k] as int] by {
        if k < st.queue.len() {
            assert(r.queue[k] == st.queue[k]);
        } else {
            assert(r.queue[k] == i as usize);
        }
    }
    assert forall|j: int| 0 <= j < n && #[trigger] r.selected[j] implies r.queue.contains(j as usize) by {
        if j == i {
            if st.selected[i] {
                assert(st.queue.contains(i as usize));
            } else {
                assert(r.queue[st.queue.len() as int] == i as usize);
            }
        } else {
            assert(st.queue.contains(j as usize));
            let m = choose|m: int| 0 <= m < st.queue.len() && st.queue[m] == j as usize;
            assert(r.queue[m] == j as usize);
        }
    }
}

proof fn lemma_map_names_scan_inv(names: Seq<Seq<char>>, mapped: Seq<Seq<char>>, rel: Seq<char>, st: SelState)
    requires
        scan_inv(st, names.len()),
    ensures
        map_names(names, mapped, rel, st) matches Ok(r) ==> scan_inv(r, names.len()) && r.select_all == st.select_all,
    decreases mapped.len(),
{
    if mapped.len() > 0 {
        match name_index(names, mapped[0]) {
            None => {},
            Some(i) => {
                lemma_mark_scan_inv(st, names.len(), i, "path rule: "@ + rel);
                lemma_map_names_scan_inv(names, mapped.drop_first(), rel, mark(st, i, "path rule: "@ + rel));
            },
        }
    }
}

pub(crate) proof fn lemma_scan_inv(
    packages: Seq<WorkspacePackage>,
    config: PolicyConfig,
    root: Seq<char>,
    files: Seq<Seq<char>>,
    st: SelState,
)
    requires
        scan_inv(st, packages.len()),
    ensures
        scan_files(packages, config, root, files, st) matches Ok(r) ==> scan_inv(r, packages.len()),
    decreases files.len(),
{
    if files.len() > 0 {
        let n = packages.len();
        let rel = relative_spec(files[0], root);
        assert(package_names(packages).len() == n);
        match file_step(packages, config, root, files[0], st) {
            Err(_) => {},
            Ok(next) => {
                if global_impact(files[0]) {
                } else {
                    match any_glob(string_views(config.global@), rel) {
                        Err(_) => {},
                        Ok(true) => {},
                        Ok(false) => match mapped_spec(config.paths@, rel) {
                            Err(_) => {},
                            Ok(Some(set)) => {
                                lemma_map_names_scan_inv(package_names(packages), sorted_of(set), rel, st);
                            },
                            Ok(None) => match owner_spec(packages, files[0]) {
                                Some(i) => {
                                    let c = choose|i: int| owns(packages, files[0], i);
                                    lemma_mark_scan_inv(st, n, i, "changed: "@ + rel);
                                },
                                None => {},
                            },
                        },
                    }
                }
                assert(next.reasons.len() == n);
                lemma_scan_inv(packages, config, root, files.drop_first(), next);
            },
        }
    }
}

/// Changed packages and all their workspace dependents: where no changed
/// file selects every package, a package ends up selected exactly when the
/// changed files select it directly or it depends, through workspace
/// dependents, on one they select; where one does, every package is
/// selected.
pub proof fn law_selection_is_dependent_closure(
    packages: Seq<WorkspacePackage>,
    dependents: Seq<Seq<usize>>,
    config: PolicyConfig,
    root: Seq<char>,
    files: Seq<Seq<char>>,
)
    requires
        graph_wf(dependents, packages.len()),
        packages.len() <= usize::MAX,
    ensures
        scan_files(packages, config, root, files, initial_state(packages.len())) matches Ok(direct) ==> {
            let st = selection_spec(packages, dependents, config, root, files)->Ok_0;
            &&& st.selected.len() == packages.len()
            &&& direct.select_all ==> forall|x: int| 0 <= x < packages.len() ==> st.selected[x]
            &&& !direct.select_all ==> forall|x: int|
                0 <= x < packages.len() ==> (st.selected[x] <==> reaches(dependents, direct.selected, x))
        },
{
    let n = packages.len();
    let init = initial_state(n);
    assert(scan_inv(init, n));
    lemma_scan_inv(packages, config, root, files, init);
    match scan_files(packages, config, root, files, init) {
        Err(_) => {},
        Ok(direct) => {
            if !direct.select_all {
                let seeds = direct.selected;
                assert forall|i: int| 0 <= i < n && #[trigger] direct.selected[i] implies reaches(dependents, seeds, i) by {
                    let c = seq![i as usize];
                    assert(c[0] as int == i);
                    assert(is_chain(dependents, seeds, c));
                }
                assert(bfs_inv(dependents, seeds, direct));
                lemma_bfs_inv(dependents, package_names(packages), seeds, direct);
                let st = bfs(dependents, package_names(packages), direct);
                assert forall|x: int| 0 <= x < n implies (st.selected[x] <==> reaches(dependents, seeds, x)) by {
                    if reaches(dependents, seeds, x) {
                        let c = choose|c: Seq<usize>| #[trigger] is_chain(dependents, seeds, c) && c.last() as int == x;
                        lemma_reached_selected(dependents, seeds, st, c, c.len() - 1);
                    }
                }
            }
        },
    }
}

} // verus!
