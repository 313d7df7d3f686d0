//! The workspace: its member packages in name order and, for each, the
//! workspace packages that depend on it.

use vstd::prelude::*;

use crate::error::{AffectError, ErrorView};
use crate::names::{sorted_names, str_eq};
use crate::paths::{manifest_parent, parent_path};
use crate::text::{lemma_seq_lt_total, lemma_seq_lt_transitive, seq_lt, str_lt};

verus! {

/// A package of the workspace: its id, its name and its root directory
/// (absolute and normalized).
#[derive(Debug)]
pub struct WorkspacePackage {
    pub id: String,
    pub name: String,
    pub root: String,
}

impl Clone for WorkspacePackage {
    fn clone(&self) -> (res: Self)
        ensures
            res == *self,
    {
        WorkspacePackage { id: self.id.clone(), name: self.name.clone(), root: self.root.clone() }
    }
}

/// A package as the metadata lists it: id, name and manifest path.
#[derive(Debug)]
pub struct PackageRecord {
    pub id: String,
    pub name: String,
    pub manifest_path: String,
}

impl Clone for PackageRecord {
    fn clone(&self) -> (res: Self)
        ensures
            res == *self,
    {
        PackageRecord {
            id: self.id.clone(),
            name: self.name.clone(),
            manifest_path: self.manifest_path.clone(),
        }
    }
}

/// A node of the resolved dependency graph: a package id and the ids of the
/// packages it depends on.
#[derive(Debug, Clone)]
pub struct ResolveNode {
    pub id: String,
    pub deps: Vec<String>,
}

/// The names of packages, in order.
pub open spec fn package_names(packages: Seq<WorkspacePackage>) -> Seq<Seq<char>> {
    packages.map_values(|p: WorkspacePackage| p.name@)
}

/// No two packages share a name, and no two share an id.
pub open spec fn distinct_packages(packages: Seq<WorkspacePackage>) -> bool {
    forall|i: int, j: int|
        0 <= i < packages.len() && 0 <= j < packages.len() && i != j ==> (#[trigger] packages[i]).name@
            != (#[trigger] packages[j]).name@ && packages[i].id@ != packages[j].id@
}

/// Whether the package at `dependent` depends on the package at
/// `dependency`: some resolve node of the first lists the second's id.
pub open spec fn depends_on(
    packages: Seq<WorkspacePackage>,
    resolve: Option<Vec<ResolveNode>>,
    dependent: int,
    dependency: int,
) -> bool {
    match resolve {
        None => false,
        Some(nodes) => exists|k: int, d: int|
            #![trigger nodes@[k].deps@[d]]
            0 <= k < nodes@.len() && nodes@[k].id@ == packages[dependent].id@ && 0 <= d
                < nodes@[k].deps@.len() && nodes@[k].deps@[d]@ == packages[dependency].id@,
    }
}

/// Strictly increasing indices below `n`.
pub open spec fn increasing_indices(s: Seq<usize>, n: int) -> bool {
    &&& forall|i: int| 0 <= i < s.len() ==> (#[trigger] s[i]) < n
    &&& forall|i: int, j: int| 0 <= i < j < s.len() ==> (#[trigger] s[i]) < (#[trigger] s[j])
}

/// The workspace's packages in name order, and for each package the
/// indices of the workspace packages that depend on it, in increasing
/// order (so in name order).
#[derive(Debug, Clone)]
pub struct Workspace {
    pub packages: Vec<WorkspacePackage>,
    pub dependents: Vec<Vec<usize>>,
}

impl Workspace {
    /// Names strictly increasing; one list of dependents per package, each
    /// strictly increasing and within bounds.
    pub open spec fn wf(&self) -> bool {
        &&& sorted_names(package_names(self.packages@))
        &&& self.dependents@.len() == self.packages@.len()
        &&& forall|i: int|
            0 <= i < self.dependents@.len() ==> increasing_indices(
                #[trigger] self.dependents@[i]@,
                self.packages@.len() as int,
            )
    }

    /// The workspace of `packages`, sorted by name, with the dependents
    /// that `resolve` gives; without a resolve graph no package has any.
    pub fn new(packages: Vec<WorkspacePackage>, resolve: &Option<Vec<ResolveNode>>) -> (res: Workspace)
        requires
            distinct_packages(packages@),
        ensures
            res.wf(),
            res.packages@.len() == packages@.len(),
            forall|p: WorkspacePackage| res.packages@.contains(p) <==> packages@.contains(p),
            forall|i: int, j: int|
                0 <= i < res.packages@.len() && 0 <= j < res.packages@.len() ==> (
                #[trigger] res.dependents@[i]@.contains(j as usize) <==> depends_on(
                    res.packages@,
                    *resolve,
                    j,
                    i,
                )),
            resolve is None ==> forall|i: int|
                0 <= i < res.dependents@.len() ==> (#[trigger] res.dependents@[i])@.len() == 0,
    {
        let sorted = sort_packages(packages);
        let dependents = reverse_workspace_dependencies(&sorted, resolve);
        let res = Workspace { packages: sorted, dependents };
        proof {
            if resolve is None {
                assert forall|i: int| 0 <= i < res.dependents@.len() implies (#[trigger] res.dependents@[i])@.len() == 0 by {
                    if res.dependents@[i]@.len() > 0 {
                        let jj: int = res.dependents@[i]@[0] as int;
                        assert(increasing_indices(res.dependents@[i]@, res.packages@.len() as int));
                        assert(res.dependents@[i]@[0] < res.packages@.len());
                        assert(res.dependents@[i]@.contains(jj as usize));
                        assert(!depends_on(res.packages@, *resolve, jj, i));
                    }
                }
            }
        }
        res
    }
}

/// Whether `a`'s name precedes `b`'s.
fn name_lt(a: &WorkspacePackage, b: &WorkspacePackage) -> (res: bool)
    ensures
        res == seq_lt(a.name@, b.name@),
{
    str_lt(a.name.as_str(), b.name.as_str())
}

/// The packages sorted by name.
pub fn sort_packages(packages: Vec<WorkspacePackage>) -> (res: Vec<WorkspacePackage>)
    requires
        distinct_packages(packages@),
    ensures
        sorted_names(package_names(res@)),
        distinct_packages(res@),
        res@.len() == packages@.len(),
        forall|p: WorkspacePackage| res@.contains(p) <==> packages@.contains(p),
{
    let mut res: Vec<WorkspacePackage> = Vec::new();
    let mut i: usize = 0;
    while i < packages.len()
        invariant
            distinct_packages(packages@),
            i <= packages.len(),
            res@.len() == i,
            sorted_names(package_names(res@)),
            distinct_packages(res@),
            forall|p: WorkspacePackage| res@.contains(p) <==> exists|r: int| 0 <= r < i && #[trigger] packages@[r] == p,
        decreases packages.len() - i,
    {
        let p = packages[i].clone();
        let ghost pn = packages@[i as int].name@;
        let ghost old_res = res@;
        let mut k: usize = 0;
        while k < res.len() && name_lt(&res[k], &p)
            invariant
                res@ == old_res,
                k <= res.len(),
                p.name@ == pn,
                forall|m: int| 0 <= m < k ==> seq_lt(#[trigger] old_res[m].name@, pn),
            decreases res.len() - k,
        {
            k = k + 1;
        }
        proof {
            // The new name differs from every name already placed.
            assert forall|m: int| 0 <= m < old_res.len() implies (#[trigger] old_res[m]).name@ != pn
                && old_res[m].id@ != packages@[i as int].id@ by {
                assert(old_res.contains(old_res[m]));
                let q = choose|q: int| 0 <= q < i && #[trigger] packages@[q] == old_res[m];
                assert(packages@[q] == old_res[m]);
            }
            if k < old_res.len() {
                lemma_seq_lt_total(old_res[k as int].name@, pn);
            }
            assert forall|m: int| k <= m < old_res.len() implies seq_lt(pn, #[trigger] old_res[m].name@) by {
                if m > k {
                    assert(package_names(old_res)[k as int] == old_res[k as int].name@);
                    assert(package_names(old_res)[m] == old_res[m].name@);
                    lemma_seq_lt_transitive(pn, old_res[k as int].name@, old_res[m].name@);
                }
            }
        }
        res.insert(k, p);
        proof {
            let nr = res@;
            assert(nr =~= old_res.insert(k as int, packages@[i as int]));
            assert forall|a: int, b: int| 0 <= a < b < nr.len() implies seq_lt(
                #[trigger] package_names(nr)[a],
                #[trigger] package_names(nr)[b],
            ) by {
                if b < k {
                    assert(package_names(old_res)[a] == nr[a].name@);
                    assert(package_names(old_res)[b] == nr[b].name@);
                } else if a < k && b == k {
                } else if a < k && b > k {
                    lemma_seq_lt_transitive(nr[a].name@, pn, nr[b].name@);
                } else if a == k {
                } else {
                    assert(package_names(old_res)[a - 1] == nr[a].name@);
                    assert(package_names(old_res)[b - 1] == nr[b].name@);
                }
            }
            assert forall|a: int, b: int|
                0 <= a < nr.len() && 0 <= b < nr.len() && a != b implies (#[trigger] nr[a]).name@
                != (#[trigger] nr[b]).name@ && nr[a].id@ != nr[b].id@ by {
                if a != k && b != k {
                    let a2 = if a < k { a } else { a - 1 };
                    let b2 = if b < k { b } else { b - 1 };
                    assert(nr[a] == old_res[a2]);
                    assert(nr[b] == old_res[b2]);
                } else if a == k {
                    let b2 = if b < k { b } else { b - 1 };
                    assert(nr[b] == old_res[b2]);
                } else {
                    let a2 = if a < k { a } else { a - 1 };
                    assert(nr[a] == old_res[a2]);
                }
            }
            assert forall|q: WorkspacePackage| nr.contains(q) <==> exists|r: int| 0 <= r < i + 1 && #[trigger] packages@[r] == q by {
                if nr.contains(q) {
                    let m = choose|m: int| 0 <= m < nr.len() && nr[m] == q;
                    if m < k {
                        assert(old_res.contains(q));
                    } else if m > k {
                        assert(old_res[m - 1] == q);
                        assert(old_res.contains(q));
                    } else {
                        assert(packages@[i as int] == q);
                    }
                }
                if exists|r: int| 0 <= r < i + 1 && #[trigger] packages@[r] == q {
                    let r = choose|r: int| 0 <= r < i + 1 && #[trigger] packages@[r] == q;
                    if r < i {
                        assert(old_res.contains(q));
                        let m = choose|m: int| 0 <= m < old_res.len() && old_res[m] == q;
                        if m < k {
                            assert(nr[m] == q);
                        } else {
                            assert(nr[m + 1] == q);
                        }
                    } else {
                        assert(nr[k as int] == q);
                    }
                }
            }
        }
        i = i + 1;
    }
    proof {
        assert forall|p: WorkspacePackage| res@.contains(p) <==> packages@.contains(p) by {
            if packages@.contains(p) {
                let r = choose|r: int| 0 <= r < packages@.len() && packages@[r] == p;
                assert(exists|r: int| 0 <= r < i && #[trigger] packages@[r] == p);
            }
        }
    }
    res
}

/// The index of the package whose id is `id`.
fn find_package_by_id(packages: &Vec<WorkspacePackage>, id: &str) -> (res: Option<usize>)
    ensures
        match res {
            Some(j) => j < packages.len() && packages@[j as int].id@ == id@,
            None => forall|j: int| 0 <= j < packages.len() ==> packages@[j].id@ != id@,
        },
{
    let mut j: usize = 0;
    while j < packages.len()
        invariant
            j <= packages.len(),
            forall|m: int| 0 <= m < j ==> packages@[m].id@ != id@,
        decreases packages.len() - j,
    {
        if str_eq(packages[j].id.as_str(), id) {
            return Some(j);
        }
        j = j + 1;
    }
    None
}

/// Whether `id` is one of `ids`.
fn lists_id(ids: &Vec<String>, id: &str) -> (res: bool)
    ensures
        res == exists|d: int| 0 <= d < ids@.len() && (#[trigger] ids@[d])@ == id@,
{
    let mut d: usize = 0;
    while d < ids.len()
        invariant
            d <= ids.len(),
            forall|m: int| 0 <= m < d ==> ids@[m]@ != id@,
        decreases ids.len() - d,
    {
        if str_eq(ids[d].as_str(), id) {
            return true;
        }
        d = d + 1;
    }
    false
}

/// Adds `x` to a strictly increasing vector of indices.
pub fn insert_index(v: &mut Vec<usize>, x: usize, n: usize)
    requires
        increasing_indices(old(v)@, n as int),
        x < n,
    ensures
        increasing_indices(final(v)@, n as int),
        forall|y: usize| #[trigger] final(v)@.contains(y) <==> (old(v)@.contains(y) || y == x),
{
    let ghost before = v@;
    let mut k: usize = 0;
    while k < v.len() && v[k] < x
        invariant
            v@ == before,
            k <= v.len(),
            forall|m: int| 0 <= m < k ==> v@[m] < x,
        decreases v.len() - k,
    {
        k = k + 1;
    }
    if k < v.len() && v[k] == x {
        assert(before[k as int] == x);
        assert(before.contains(x));
        return;
    }
    v.insert(k, x);
    proof {
        assert(before == old(v)@);
        assert(v@ =~= before.insert(k as int, x));
        assert forall|y: usize| #[trigger] v@.contains(y) <==> (before.contains(y) || y == x) by {
            if v@.contains(y) {
                let m = choose|m: int| 0 <= m < v@.len() && v@[m] == y;
                if m < k {
                    assert(before[m] == y);
                } else if m > k {
                    assert(before[m - 1] == y);
                }
            }
            if before.contains(y) {
                let m = choose|m: int| 0 <= m < before.len() && before[m] == y;
                if m < k {
                    assert(v@[m] == y);
                } else {
                    assert(v@[m + 1] == y);
                }
            }
            if y == x {
                assert(v@[k as int] == y);
            }
        }
    }
}

/// Whether resolve node `k` is the node of package `j` and lists the id of
/// package `i` among its dependencies.
pub open spec fn node_links(
    nodes: Seq<ResolveNode>,
    k: int,
    packages: Seq<WorkspacePackage>,
    j: int,
    i: int,
) -> bool {
    &&& nodes[k].id@ == packages[j].id@
    &&& exists|d: int| 0 <= d < nodes[k].deps@.len() && (#[trigger] nodes[k].deps@[d])@ == packages[i].id@
}

/// For each package, the indices of the workspace packages that depend on
/// it, in increasing order.
pub fn reverse_workspace_dependencies(
    packages: &Vec<WorkspacePackage>,
    resolve: &Option<Vec<ResolveNode>>,
) -> (res: Vec<Vec<usize>>)
    requires
        distinct_packages(packages@),
    ensures
        res@.len() == packages@.len(),
        forall|i: int|
            0 <= i < res@.len() ==> increasing_indices(#[trigger] res@[i]@, packages@.len() as int),
        forall|i: int, j: int|
            0 <= i < packages@.len() && 0 <= j < packages@.len() ==> (
            #[trigger] res@[i]@.contains(j as usize) <==> depends_on(packages@, *resolve, j, i)),
{
    let n = packages.len();
    let mut res: Vec<Vec<usize>> = Vec::new();
    let mut i: usize = 0;
    while i < n
        invariant
            n == packages@.len(),
            distinct_packages(packages@),
            i <= n,
            res@.len() == i,
            forall|a: int| 0 <= a < i ==> increasing_indices(#[trigger] res@[a]@, n as int),
            forall|a: int, j: int|
                0 <= a < i && 0 <= j < n ==> (#[trigger] res@[a]@.contains(j as usize)
                    <==> depends_on(packages@, *resolve, j, a)),
        decreases n - i,
    {
        let mut list: Vec<usize> = Vec::new();
        match resolve {
            None => {},
            Some(nodes) => {
                let mut k: usize = 0;
                while k < nodes.len()
                    invariant
                        n == packages@.len(),
                        distinct_packages(packages@),
                        i < n,
                        *resolve == Some(*nodes),
                        k <= nodes.len(),
                        increasing_indices(list@, n as int),
                        forall|j: int|
                            0 <= j < n ==> (#[trigger] list@.contains(j as usize) <==> exists|kk: int|
                                0 <= kk < k && #[trigger] node_links(nodes@, kk, packages@, j, i as int)),
                    decreases nodes.len() - k,
                {
                    let node = &nodes[k];
                    let found = find_package_by_id(packages, node.id.as_str());
                    let ghost before = list@;
                    let mut linked = false;
                    match found {
                        Some(j) => {
                            if lists_id(&node.deps, packages[i].id.as_str()) {
                                insert_index(&mut list, j, n);
                                linked = true;
                            }
                        },
                        None => {},
                    }
                    proof {
                        assert forall|jj: int| 0 <= jj < n implies (#[trigger] list@.contains(jj as usize)
                            <==> exists|kk: int| 0 <= kk < k + 1 && #[trigger] node_links(nodes@, kk, packages@, jj, i as int)) by {
                            if node_links(nodes@, k as int, packages@, jj, i as int) {
                                match found {
                                    Some(j) => {
                                        if jj != j {
                                            assert(packages@[jj].id@ != packages@[j as int].id@);
                                        }
                                        let d = choose|d: int| 0 <= d < nodes@[k as int].deps@.len() && (#[trigger] nodes@[k as int].deps@[d])@ == packages@[i as int].id@;
                                        assert(node.deps@[d] == nodes@[k as int].deps@[d]);
                                    },
                                    None => {},
                                }
                            }
                            if linked {
                                if jj == found->0 {
                                    let d = choose|d: int| 0 <= d < node.deps@.len() && (#[trigger] node.deps@[d])@ == packages@[i as int].id@;
                                    assert(nodes@[k as int].deps@[d] == node.deps@[d]);
                                    assert(node_links(nodes@, k as int, packages@, jj, i as int));
                                }
                            }
                        }
                    }
                    k = k + 1;
                }
                proof {
                    assert forall|j: int| 0 <= j < n implies (#[trigger] list@.contains(j as usize) <==> depends_on(packages@, *resolve, j, i as int)) by {
                        if depends_on(packages@, *resolve, j, i as int) {
                            let (kk, d) = choose|kk: int, d: int|
                                #![trigger nodes@[kk].deps@[d]]
                                0 <= kk < nodes@.len() && nodes@[kk].id@ == packages@[j].id@ && 0 <= d
                                    < nodes@[kk].deps@.len() && nodes@[kk].deps@[d]@ == packages@[i as int].id@;
                            assert(node_links(nodes@, kk, packages@, j, i as int));
                        }
                        if list@.contains(j as usize) {
                            let kk = choose|kk: int| 0 <= kk < nodes.len() && #[trigger] node_links(nodes@, kk, packages@, j, i as int);
                            let d = choose|d: int| 0 <= d < nodes@[kk].deps@.len() && (#[trigger] nodes@[kk].deps@[d])@ == packages@[i as int].id@;
                        }
                    }
                }
            },
        }
        res.push(list);
        proof {
            assert forall|a: int, j: int|
                0 <= a < i + 1 && 0 <= j < n implies (#[trigger] res@[a]@.contains(j as usize)
                    <==> depends_on(packages@, *resolve, j, a)) by {
                if a == i {
                    assert(res@[a] == list);
                }
            }
        }
        i = i + 1;
    }
    res
}

/// The records of `packages` whose id is one of `members`, in order.
pub fn workspace_members(packages: &Vec<PackageRecord>, members: &Vec<String>) -> (res: Vec<
    PackageRecord,
>)
    ensures
        res@ == packages@.filter(|p: PackageRecord| exists|d: int| 0 <= d < members@.len() && (#[trigger] members@[d])@ == p.id@),
{
    let ghost pred = |p: PackageRecord| exists|d: int| 0 <= d < members@.len() && (#[trigger] members@[d])@ == p.id@;
    let mut res: Vec<PackageRecord> = Vec::new();
    let mut i: usize = 0;
    while i < packages.len()
        invariant
            i <= packages.len(),
            pred == (|p: PackageRecord| exists|d: int| 0 <= d < members@.len() && (#[trigger] members@[d])@ == p.id@),
            res@ == packages@.take(i as int).filter(pred),
        decreases packages.len() - i,
    {
        let member = lists_id(members, packages[i].id.as_str());
        if member {
            res.push(packages[i].clone());
        }
        proof {
            reveal(Seq::filter);
            let t = packages@.take(i + 1);
            assert(t.drop_last() =~= packages@.take(i as int));
            assert(t.last() == packages@[i as int]);
            assert(member == pred(packages@[i as int]));
            assert(t.filter(pred) == (if pred(t.last()) {
                t.drop_last().filter(pred).push(t.last())
            } else {
                t.drop_last().filter(pred)
            }));
        }
        i = i + 1;
    }
    assert(packages@.take(packages.len() as int) =~= packages@);
    res
}

/// The root directory of a package: its manifest's parent; an error where
/// the manifest path has none.
pub fn package_root(record: &PackageRecord) -> (res: Result<String, AffectError>)
    ensures
        match res {
            Ok(r) => parent_path(record.manifest_path@) == Some(r@),
            Err(e) => parent_path(record.manifest_path@) is None && e@ == ErrorView::NoManifestParent(
                record.name@,
            ),
        },
{
    match manifest_parent(record.manifest_path.as_str()) {
        Some(r) => Ok(r),
        None => Err(AffectError::NoManifestParent { package: record.name.clone() }),
    }
}

} // verus!
