//! The `affect.toml` policy: global-impact patterns, path rules, platform
//! excludes, package sets and CI profiles, and how each narrows or widens
//! the selection.

use vstd::prelude::*;

use crate::error::{AffectError, ErrorView};
use crate::glob::{any_glob, glob_match, glob_matches, glob_ok, matches_glob_patterns};
use crate::names::{insert_name, sorted_names, str_eq};
use crate::text::string_views;

verus! {

/// Packages that a platform leaves out.
#[derive(Debug, Clone)]
pub struct PlatformPolicy {
    pub exclude: Vec<String>,
}

/// A named group of package patterns.
#[derive(Debug, Clone)]
pub struct PackageSetPolicy {
    pub packages: Vec<String>,
}

/// When a CI task applies: some selected package matches one of `packages`,
/// or some changed path matches one of `paths`.
#[derive(Debug, Clone)]
pub struct CiTaskWhenPolicy {
    pub packages: Vec<String>,
    pub paths: Vec<String>,
}

/// A CI task of a profile.
#[derive(Debug, Clone)]
pub struct CiTaskPolicy {
    pub id: String,
    pub stage: String,
    pub run: String,
    pub working_directory: Option<String>,
    pub when: CiTaskWhenPolicy,
}

/// A CI profile: the sets and platform it selects with, its backend and
/// cache names, and its tasks.
#[derive(Debug, Clone)]
pub struct CiProfilePolicy {
    pub set: Option<String>,
    pub sets: Vec<String>,
    pub platform: Option<String>,
    pub backend: Option<String>,
    pub cache: Option<String>,
    pub tasks: Vec<CiTaskPolicy>,
}

/// The CI profiles, by name, in name order.
#[derive(Debug, Clone)]
pub struct CiConfig {
    pub profiles: Vec<(String, CiProfilePolicy)>,
}

/// The policy. Each keyed table is a list of entries in key order, as the
/// config file's tables are read; a lookup takes the first entry with the
/// key.
#[derive(Debug, Clone)]
pub struct PolicyConfig {
    pub global: Vec<String>,
    pub paths: Vec<(String, Vec<String>)>,
    pub platform: Vec<(String, PlatformPolicy)>,
    pub sets: Vec<(String, PackageSetPolicy)>,
    pub ci: CiConfig,
}

/// The keys of a table's entries, in order.
pub open spec fn entry_keys<T>(entries: Seq<(String, T)>) -> Seq<Seq<char>> {
    entries.map_values(|e: (String, T)| e.0@)
}

impl PolicyConfig {
    /// Every table holds its keys in strictly increasing order, each once,
    /// as the config file's tables are read.
    pub open spec fn wf(&self) -> bool {
        &&& sorted_names(entry_keys(self.paths@))
        &&& sorted_names(entry_keys(self.platform@))
        &&& sorted_names(entry_keys(self.sets@))
        &&& sorted_names(entry_keys(self.ci.profiles@))
    }

    /// Whether every table holds its keys in strictly increasing order.
    pub fn is_wf(&self) -> (res: bool)
        ensures
            res == self.wf(),
    {
        keys_sorted(&self.paths) && keys_sorted(&self.platform) && keys_sorted(&self.sets)
            && keys_sorted(&self.ci.profiles)
    }
}

/// Whether the keys of `entries` are strictly increasing.
pub fn keys_sorted<T>(entries: &Vec<(String, T)>) -> (res: bool)
    ensures
        res == sorted_names(entry_keys(entries@)),
{
    let ghost keys = entry_keys(entries@);
    if entries.len() == 0 {
        return true;
    }
    let mut i: usize = 1;
    assert(sorted_names(keys.take(1)));
    while i < entries.len()
        invariant
            keys == entry_keys(entries@),
            1 <= i <= entries.len(),
            sorted_names(keys.take(i as int)),
        decreases entries.len() - i,
    {
        let before = crate::text::str_lt(entries[i - 1].0.as_str(), entries[i].0.as_str());
        assert(keys[i - 1] == entries@[i - 1].0@);
        assert(keys[i as int] == entries@[i as int].0@);
        if !before {
            assert(!crate::text::seq_lt(keys[i - 1], keys[i as int]));
            return false;
        }
        proof {
            let t = keys.take(i + 1);
            assert forall|a: int, b: int| 0 <= a < b < t.len() implies crate::text::seq_lt(
                #[trigger] t[a],
                #[trigger] t[b],
            ) by {
                assert(t[a] == keys[a]);
                assert(t[b] == keys[b]);
                if b < i {
                    assert(keys.take(i as int)[a] == keys[a]);
                    assert(keys.take(i as int)[b] == keys[b]);
                } else if a < i - 1 {
                    assert(keys.take(i as int)[a] == keys[a]);
                    assert(keys.take(i as int)[i - 1] == keys[i - 1]);
                    crate::text::lemma_seq_lt_transitive(keys[a], keys[i - 1], keys[b]);
                }
            }
        }
        i = i + 1;
    }
    assert(keys.take(entries.len() as int) =~= keys);
    true
}

/// The first entry whose key is `key`.
pub open spec fn lookup<T>(entries: Seq<(String, T)>, key: Seq<char>) -> Option<T>
    decreases entries.len(),
{
    if entries.len() == 0 {
        None
    } else if entries[0].0@ == key {
        Some(entries[0].1)
    } else {
        lookup(entries.drop_first(), key)
    }
}

/// The index of the first entry whose key is `key`.
pub fn find_entry<T>(entries: &Vec<(String, T)>, key: &str) -> (res: Option<usize>)
    ensures
        match res {
            Some(i) => {
                &&& i < entries.len()
                &&& entries@[i as int].0@ == key@
                &&& forall|k: int| 0 <= k < i ==> (#[trigger] entries@[k]).0@ != key@
                &&& lookup(entries@, key@) == Some(entries@[i as int].1)
            },
            None => {
                &&& forall|k: int| 0 <= k < entries.len() ==> (#[trigger] entries@[k]).0@ != key@
                &&& lookup(entries@, key@) is None
            },
        },
{
    let mut i: usize = 0;
    assert(entries@.skip(0) =~= entries@);
    while i < entries.len()
        invariant
            i <= entries.len(),
            forall|k: int| 0 <= k < i ==> (#[trigger] entries@[k]).0@ != key@,
            lookup(entries@, key@) == lookup(entries@.skip(i as int), key@),
        decreases entries.len() - i,
    {
        assert(entries@.skip(i as int)[0] == entries@[i as int]);
        assert(entries@.skip(i as int).drop_first() =~= entries@.skip(i + 1));
        if str_eq(entries[i].0.as_str(), key) {
            return Some(i);
        }
        i = i + 1;
    }
    None
}

/// The profile named by `--profile`: none without the option, an error for
/// a name the policy does not define.
pub open spec fn resolve_profile_spec(config: PolicyConfig, profile_name: Option<Seq<char>>) -> Result<
    Option<CiProfilePolicy>,
    ErrorView,
> {
    match profile_name {
        None => Ok(None),
        Some(n) => match lookup(config.ci.profiles@, n) {
            Some(p) => Ok(Some(p)),
            None => Err(ErrorView::UnknownCiProfile(n)),
        },
    }
}

/// The CI profile named by `profile_name`, where one is named.
pub fn resolve_ci_profile<'a>(config: &'a PolicyConfig, profile_name: Option<&str>) -> (res: Result<
    Option<&'a CiProfilePolicy>,
    AffectError,
>)
    ensures
        match res {
            Ok(p) => resolve_profile_spec(*config, option_str_view(profile_name)) == Ok::<
                Option<CiProfilePolicy>,
                ErrorView,
            >(match p {
                Some(r) => Some(*r),
                None => None,
            }),
            Err(e) => resolve_profile_spec(*config, option_str_view(profile_name)) == Err::<
                Option<CiProfilePolicy>,
                ErrorView,
            >(e@),
        },
{
    match profile_name {
        None => Ok(None),
        Some(n) => match find_entry(&config.ci.profiles, n) {
            Some(i) => Ok(Some(&config.ci.profiles[i].1)),
            None => Err(AffectError::UnknownCiProfile { profile: n.to_string() }),
        },
    }
}

/// An optional string slice, as an optional character sequence.
pub open spec fn option_str_view(o: Option<&str>) -> Option<Seq<char>> {
    match o {
        Some(s) => Some(s@),
        None => None,
    }
}

/// The package sets in force: the profile's `set`, then its `sets`, then
/// those given with `--set`.
pub open spec fn effective_sets_spec(
    requested: Seq<Seq<char>>,
    profile: Option<CiProfilePolicy>,
) -> Seq<Seq<char>> {
    match profile {
        Some(p) => match p.set {
            Some(s) => seq![s@] + string_views(p.sets@) + requested,
            None => string_views(p.sets@) + requested,
        },
        None => requested,
    }
}

/// The package sets in force.
pub fn effective_package_sets(requested: &Vec<String>, profile: Option<&CiProfilePolicy>) -> (res:
    Vec<String>)
    ensures
        string_views(res@) == effective_sets_spec(
            string_views(requested@),
            match profile {
                Some(p) => Some(*p),
                None => None,
            },
        ),
{
    let mut sets: Vec<String> = Vec::new();
    if let Some(p) = profile {
        if let Some(s) = &p.set {
            sets.push(s.clone());
        }
        extend_strings(&mut sets, &p.sets);
    }
    extend_strings(&mut sets, requested);
    proof {
        match profile {
            Some(p) => match &p.set {
                Some(s) => {
                    assert(string_views(sets@) =~= seq![s@] + string_views(p.sets@) + string_views(
                        requested@,
                    ));
                },
                None => {
                    assert(string_views(sets@) =~= string_views(p.sets@) + string_views(
                        requested@,
                    ));
                },
            },
            None => {
                assert(string_views(sets@) =~= string_views(requested@));
            },
        }
    }
    sets
}

/// Appends clones of `more` to `v`.
pub fn extend_strings(v: &mut Vec<String>, more: &Vec<String>)
    ensures
        final(v)@ == old(v)@ + more@,
{
    let mut i: usize = 0;
    let ghost start = v@;
    while i < more.len()
        invariant
            i <= more.len(),
            v@ == start + more@.take(i as int),
        decreases more.len() - i,
    {
        v.push(more[i].clone());
        i = i + 1;
        assert(v@ =~= start + more@.take(i as int));
    }
    assert(more@.take(more.len() as int) =~= more@);
}

/// The platform in force: `--platform`, else the profile's, else
/// `default_platform` (the host's operating system).
pub open spec fn effective_platform_spec(
    requested: Option<Seq<char>>,
    profile: Option<CiProfilePolicy>,
    default_platform: Seq<char>,
) -> Seq<char> {
    match requested {
        Some(p) => p,
        None => match profile {
            Some(prof) => match prof.platform {
                Some(p) => p@,
                None => default_platform,
            },
            None => default_platform,
        },
    }
}

/// The platform in force.
pub fn effective_platform(
    requested: &Option<String>,
    profile: Option<&CiProfilePolicy>,
    default_platform: &str,
) -> (res: String)
    ensures
        res@ == effective_platform_spec(
            crate::paths::opt_view(*requested),
            match profile {
                Some(p) => Some(*p),
                None => None,
            },
            default_platform@,
        ),
{
    match requested {
        Some(p) => p.clone(),
        None => match profile {
            Some(prof) => match &prof.platform {
                Some(p) => p.clone(),
                None => default_platform.to_string(),
            },
            None => default_platform.to_string(),
        },
    }
}

/// The `[paths]` rules applied to a relative path, in order: an error for
/// the first pattern that is not accepted; otherwise, where some pattern
/// matches, the union of the packages that the matching rules name.
pub open spec fn mapped_spec(rules: Seq<(String, Vec<String>)>, path: Seq<char>) -> Result<
    Option<Set<Seq<char>>>,
    ErrorView,
>
    decreases rules.len(),
{
    if rules.len() == 0 {
        Ok(None)
    } else if !glob_ok(rules[0].0@) {
        Err(ErrorView::InvalidGlob(rules[0].0@))
    } else {
        match mapped_spec(rules.drop_first(), path) {
            Err(e) => Err(e),
            Ok(rest) => if glob_match(rules[0].0@, path) {
                Ok(
                    Some(
                        string_views(rules[0].1@).to_set() + match rest {
                            Some(s) => s,
                            None => Set::empty(),
                        },
                    ),
                )
            } else {
                Ok(rest)
            },
        }
    }
}

/// Whether some rule among the first `n` matches `path` and names `x`.
pub open spec fn named_by(rules: Seq<(String, Vec<String>)>, path: Seq<char>, n: int, x: Seq<char>) -> bool {
    exists|k: int, q: int|
        #![trigger glob_match(rules[k].0@, path), rules[k].1@[q]]
        0 <= k < n && 0 <= q < rules[k].1@.len() && glob_match(rules[k].0@, path) && rules[k].1@[q]@
            == x
}

/// The packages that the `[paths]` rules map a relative path to, in name
/// order; none where no rule matches.
pub fn mapped_policy_packages(config: &PolicyConfig, relative_path: &str) -> (res: Result<
    Option<Vec<String>>,
    AffectError,
>)
    ensures
        match res {
            Ok(Some(v)) => sorted_names(string_views(v@)) && mapped_spec(config.paths@, relative_path@)
                == Ok::<Option<Set<Seq<char>>>, ErrorView>(Some(string_views(v@).to_set())),
            Ok(None) => mapped_spec(config.paths@, relative_path@) == Ok::<
                Option<Set<Seq<char>>>,
                ErrorView,
            >(None),
            Err(e) => mapped_spec(config.paths@, relative_path@) == Err::<
                Option<Set<Seq<char>>>,
                ErrorView,
            >(e@),
        },
{
    let rules = &config.paths;
    let mut matched = false;
    let mut packages: Vec<String> = Vec::new();
    let mut i: usize = 0;
    while i < rules.len()
        invariant
            rules@ == config.paths@,
            i <= rules.len(),
            sorted_names(string_views(packages@)),
            forall|k: int| 0 <= k < i ==> glob_ok(#[trigger] rules@[k].0@),
            matched <==> exists|k: int| 0 <= k < i && #[trigger] glob_match(rules@[k].0@, relative_path@),
            forall|x: Seq<char>|
                #[trigger] string_views(packages@).contains(x) <==> named_by(rules@, relative_path@, i as int, x),
        decreases rules.len() - i,
    {
        let m = glob_matches(rules[i].0.as_str(), relative_path);
        match m {
            Err(e) => {
                proof {
                    lemma_mapped_first_error(rules@, relative_path@, i as int);
                }
                return Err(e);
            },
            Ok(b) => {
                if b {
                    matched = true;
                    let ghost before = string_views(packages@);
                    let pkgs = &rules[i].1;
                    let mut j: usize = 0;
                    while j < pkgs.len()
                        invariant
                            j <= pkgs.len(),
                            sorted_names(string_views(packages@)),
                            forall|x: Seq<char>|
                                #[trigger] string_views(packages@).contains(x) <==> (before.contains(x)
                                    || exists|q: int| 0 <= q < j && pkgs@[q]@ == x),
                        decreases pkgs.len() - j,
                    {
                        insert_name(&mut packages, pkgs[j].clone());
                        proof {
                            assert forall|x: Seq<char>|
                                #[trigger] string_views(packages@).contains(x) <==> (before.contains(x)
                                    || exists|q: int| 0 <= q < j + 1 && pkgs@[q]@ == x) by {
                                if x == pkgs@[j as int]@ {
                                    assert(0 <= j < j + 1 && pkgs@[j as int]@ == x);
                                }
                            }
                        }
                        j = j + 1;
                    }
                    proof {
                        assert forall|x: Seq<char>|
                            #[trigger] string_views(packages@).contains(x) <==> named_by(rules@, relative_path@, i + 1, x) by {
                            if named_by(rules@, relative_path@, i + 1, x) {
                                let (k, q) = choose|k: int, q: int|
                                    #![trigger glob_match(rules@[k].0@, relative_path@), rules@[k].1@[q]]
                                    0 <= k < i + 1 && 0 <= q < rules@[k].1@.len() && glob_match(rules@[k].0@, relative_path@) && rules@[k].1@[q]@ == x;
                                if k < i {
                                    assert(named_by(rules@, relative_path@, i as int, x));
                                } else {
                                    assert(pkgs@[q]@ == x);
                                }
                            }
                            if before.contains(x) {
                                assert(named_by(rules@, relative_path@, i as int, x));
                                let (k, q) = choose|k: int, q: int|
                                    #![trigger glob_match(rules@[k].0@, relative_path@), rules@[k].1@[q]]
                                    0 <= k < i && 0 <= q < rules@[k].1@.len() && glob_match(rules@[k].0@, relative_path@) && rules@[k].1@[q]@ == x;
                                assert(0 <= k < i + 1);
                            }
                            if exists|q: int| 0 <= q < pkgs.len() && pkgs@[q]@ == x {
                                let q = choose|q: int| 0 <= q < pkgs.len() && pkgs@[q]@ == x;
                                assert(rules@[i as int].1@[q] == pkgs@[q]);
                            }
                        }
                    }
                } else {
                    proof {
                        assert forall|x: Seq<char>|
                            #[trigger] string_views(packages@).contains(x) <==> named_by(rules@, relative_path@, i + 1, x) by {
                            if named_by(rules@, relative_path@, i + 1, x) {
                                let (k, q) = choose|k: int, q: int|
                                    #![trigger glob_match(rules@[k].0@, relative_path@), rules@[k].1@[q]]
                                    0 <= k < i + 1 && 0 <= q < rules@[k].1@.len() && glob_match(rules@[k].0@, relative_path@) && rules@[k].1@[q]@ == x;
                                assert(k < i);
                                assert(named_by(rules@, relative_path@, i as int, x));
                            }
                            if named_by(rules@, relative_path@, i as int, x) {
                                let (k, q) = choose|k: int, q: int|
                                    #![trigger glob_match(rules@[k].0@, relative_path@), rules@[k].1@[q]]
                                    0 <= k < i && 0 <= q < rules@[k].1@.len() && glob_match(rules@[k].0@, relative_path@) && rules@[k].1@[q]@ == x;
                                assert(0 <= k < i + 1);
                            }
                        }
                    }
                }
            },
        }
        i = i + 1;
    }
    proof {
        lemma_mapped_all_valid(rules@, relative_path@);
        if matched {
            assert forall|x: Seq<char>| string_views(packages@).to_set().contains(x) <==> mapped_union(rules@, relative_path@).contains(x) by {
                lemma_mapped_union_contains(rules@, relative_path@, x);
                assert(string_views(packages@).to_set().contains(x) == string_views(packages@).contains(x));
            }
            assert(string_views(packages@).to_set() =~= mapped_union(rules@, relative_path@));
        }
    }
    if matched {
        Ok(Some(packages))
    } else {
        Ok(None)
    }
}

/// The union of the packages that the matching rules name.
pub open spec fn mapped_union(rules: Seq<(String, Vec<String>)>, path: Seq<char>) -> Set<Seq<char>>
    decreases rules.len(),
{
    if rules.len() == 0 {
        Set::empty()
    } else if glob_match(rules[0].0@, path) {
        string_views(rules[0].1@).to_set() + mapped_union(rules.drop_first(), path)
    } else {
        mapped_union(rules.drop_first(), path)
    }
}

proof fn lemma_mapped_union_contains(rules: Seq<(String, Vec<String>)>, path: Seq<char>, x: Seq<char>)
    ensures
        mapped_union(rules, path).contains(x) <==> named_by(rules, path, rules.len() as int, x),
    decreases rules.len(),
{
    if rules.len() > 0 {
        let rest = rules.drop_first();
        lemma_mapped_union_contains(rest, path, x);
        if named_by(rest, path, rest.len() as int, x) {
            let (k, q) = choose|k: int, q: int|
                #![trigger glob_match(rest[k].0@, path), rest[k].1@[q]]
                0 <= k < rest.len() && 0 <= q < rest[k].1@.len() && glob_match(rest[k].0@, path) && rest[k].1@[q]@ == x;
            assert(rules[k + 1] == rest[k]);
            assert(named_by(rules, path, rules.len() as int, x));
        }
        if named_by(rules, path, rules.len() as int, x) {
            let (k, q) = choose|k: int, q: int|
                #![trigger glob_match(rules[k].0@, path), rules[k].1@[q]]
                0 <= k < rules.len() && 0 <= q < rules[k].1@.len() && glob_match(rules[k].0@, path) && rules[k].1@[q]@ == x;
            if k > 0 {
                assert(rest[k - 1] == rules[k]);
                assert(named_by(rest, path, rest.len() as int, x));
            } else {
                assert(string_views(rules[0].1@)[q] == x);
            }
        }
        if glob_match(rules[0].0@, path) && string_views(rules[0].1@).to_set().contains(x) {
            let q = choose|q: int| 0 <= q < string_views(rules[0].1@).len() && string_views(rules[0].1@)[q] == x;
            assert(rules[0].1@[q]@ == x);
            assert(named_by(rules, path, rules.len() as int, x));
        }
    }
}

/// Where every pattern parses, the rules give the union of the matching
/// rules' packages, or none where no rule matches.
proof fn lemma_mapped_all_valid(rules: Seq<(String, Vec<String>)>, path: Seq<char>)
    requires
        forall|k: int| 0 <= k < rules.len() ==> glob_ok(#[trigger] rules[k].0@),
    ensures
        mapped_spec(rules, path) == (if exists|k: int|
            0 <= k < rules.len() && #[trigger] glob_match(rules[k].0@, path) {
            Ok::<Option<Set<Seq<char>>>, ErrorView>(Some(mapped_union(rules, path)))
        } else {
            Ok::<Option<Set<Seq<char>>>, ErrorView>(None)
        }),
    decreases rules.len(),
{
    if rules.len() > 0 {
        let rest = rules.drop_first();
        assert forall|k: int| 0 <= k < rest.len() implies glob_ok(#[trigger] rest[k].0@) by {
            assert(rest[k] == rules[k + 1]);
        }
        lemma_mapped_all_valid(rest, path);
        assert(glob_ok(rules[0].0@));
        if exists|k: int| 0 <= k < rest.len() && #[trigger] glob_match(rest[k].0@, path) {
            let k = choose|k: int| 0 <= k < rest.len() && #[trigger] glob_match(rest[k].0@, path);
            assert(rules[k + 1] == rest[k]);
        }
        if exists|k: int| 0 <= k < rules.len() && #[trigger] glob_match(rules[k].0@, path) {
            let k = choose|k: int| 0 <= k < rules.len() && #[trigger] glob_match(rules[k].0@, path);
            if k > 0 {
                assert(rest[k - 1] == rules[k]);
            }
        }
        if glob_match(rules[0].0@, path) {
            if !(exists|k: int| 0 <= k < rest.len() && #[trigger] glob_match(rest[k].0@, path)) {
                assert forall|x: Seq<char>| !mapped_union(rest, path).contains(x) by {
                    lemma_mapped_union_contains(rest, path, x);
                }
                assert(mapped_union(rest, path) =~= Set::empty());
                assert(string_views(rules[0].1@).to_set() + Set::empty() =~= string_views(
                    rules[0].1@,
                ).to_set());
            }
        }
    }
}

/// Path rules take the union of the matching rules: where every pattern is
/// accepted, a path that no rule matches is unmapped, and otherwise it maps
/// to exactly the packages that some matching rule names (none, for rules
/// that name none).
pub proof fn law_path_rules_map_to_union(rules: Seq<(String, Vec<String>)>, path: Seq<char>)
    requires
        forall|k: int| 0 <= k < rules.len() ==> glob_ok(#[trigger] rules[k].0@),
    ensures
        mapped_spec(rules, path) is Ok,
        mapped_spec(rules, path)->Ok_0 is None <==> !exists|k: int|
            0 <= k < rules.len() && #[trigger] glob_match(rules[k].0@, path),
        mapped_spec(rules, path)->Ok_0 matches Some(set) ==> forall|x: Seq<char>|
            #[trigger] set.contains(x) <==> named_by(rules, path, rules.len() as int, x),
{
    lemma_mapped_all_valid(rules, path);
    assert forall|x: Seq<char>| #[trigger] mapped_union(rules, path).contains(x) <==> named_by(
        rules,
        path,
        rules.len() as int,
        x,
    ) by {
        lemma_mapped_union_contains(rules, path, x);
    }
}

/// The first pattern that is not accepted, after valid ones, decides the
/// rules' error.
proof fn lemma_mapped_first_error(rules: Seq<(String, Vec<String>)>, path: Seq<char>, i: int)
    requires
        0 <= i < rules.len(),
        forall|k: int| 0 <= k < i ==> glob_ok(#[trigger] rules[k].0@),
        !glob_ok(rules[i].0@),
    ensures
        mapped_spec(rules, path) == Err::<Option<Set<Seq<char>>>, ErrorView>(
            ErrorView::InvalidGlob(rules[i].0@),
        ),
    decreases i,
{
    if i > 0 {
        let rest = rules.drop_first();
        assert forall|k: int| 0 <= k < i - 1 implies glob_ok(#[trigger] rest[k].0@) by {
            assert(rest[k] == rules[k + 1]);
        }
        assert(rest[i - 1] == rules[i]);
        lemma_mapped_first_error(rest, path, i - 1);
        assert(glob_ok(rules[0].0@));
    }
}

/// The patterns of the named package sets, in order: an error for the
/// first name the policy does not define.
pub open spec fn set_patterns(sets: Seq<(String, PackageSetPolicy)>, names: Seq<Seq<char>>) -> Result<
    Seq<Seq<char>>,
    ErrorView,
>
    decreases names.len(),
{
    if names.len() == 0 {
        Ok(Seq::empty())
    } else {
        match lookup(sets, names[0]) {
            None => Err(ErrorView::UnknownPackageSet(names[0])),
            Some(set) => match set_patterns(sets, names.drop_first()) {
                Err(e) => Err(e),
                Ok(rest) => Ok(string_views(set.packages@) + rest),
            },
        }
    }
}

/// `prefix` before the names of `r`, or the error of `r`.
pub open spec fn prepend(prefix: Seq<Seq<char>>, r: Result<Seq<Seq<char>>, ErrorView>) -> Result<
    Seq<Seq<char>>,
    ErrorView,
> {
    match r {
        Ok(rest) => Ok(prefix + rest),
        Err(e) => Err(e),
    }
}

/// The names, in order, that `patterns` match (`keep_matching`) or do not
/// match (otherwise); the first pattern error met is the result instead.
pub open spec fn glob_filter(names: Seq<Seq<char>>, patterns: Seq<Seq<char>>, keep_matching: bool) -> Result<
    Seq<Seq<char>>,
    ErrorView,
>
    decreases names.len(),
{
    if names.len() == 0 {
        Ok(Seq::empty())
    } else {
        match any_glob(patterns, names[0]) {
            Err(e) => Err(e),
            Ok(m) => if m == keep_matching {
                prepend(seq![names[0]], glob_filter(names.drop_first(), patterns, keep_matching))
            } else {
                glob_filter(names.drop_first(), patterns, keep_matching)
            },
        }
    }
}

/// A filter keeps a subsequence: what it keeps was there, and a strictly
/// increasing input gives a strictly increasing result.
pub proof fn lemma_glob_filter_subsequence(
    names: Seq<Seq<char>>,
    patterns: Seq<Seq<char>>,
    keep_matching: bool,
)
    ensures
        glob_filter(names, patterns, keep_matching) matches Ok(r) ==> {
            &&& forall|x: Seq<char>| r.contains(x) ==> names.contains(x)
            &&& sorted_names(names) ==> sorted_names(r)
            &&& forall|x: Seq<char>| r.contains(x) ==> any_glob(patterns, x) == Ok::<bool, ErrorView>(keep_matching)
        },
    decreases names.len(),
{
    if names.len() > 0 {
        let rest = names.drop_first();
        lemma_glob_filter_subsequence(rest, patterns, keep_matching);
        if glob_filter(names, patterns, keep_matching) is Ok {
            let r = glob_filter(names, patterns, keep_matching)->Ok_0;
            let r2 = glob_filter(rest, patterns, keep_matching)->Ok_0;
            assert forall|x: Seq<char>| r.contains(x) implies names.contains(x) && any_glob(patterns, x) == Ok::<bool, ErrorView>(keep_matching) by {
                let k = choose|k: int| 0 <= k < r.len() && r[k] == x;
                if any_glob(patterns, names[0]) == Ok::<bool, ErrorView>(keep_matching) {
                    if k == 0 {
                        assert(names[0] == x);
                    } else {
                        assert(r2[k - 1] == x);
                        assert(r2.contains(x));
                        let m = choose|m: int| 0 <= m < rest.len() && rest[m] == x;
                        assert(names[m + 1] == x);
                    }
                } else {
                    assert(r2.contains(x));
                    let m = choose|m: int| 0 <= m < rest.len() && rest[m] == x;
                    assert(names[m + 1] == x);
                }
            }
            if sorted_names(names) {
                assert(sorted_names(rest));
                if any_glob(patterns, names[0]) == Ok::<bool, ErrorView>(keep_matching) {
                    assert forall|a: int, b: int| 0 <= a < b < r.len() implies crate::text::seq_lt(
                        #[trigger] r[a],
                        #[trigger] r[b],
                    ) by {
                        if a == 0 {
                            assert(r2.contains(r[b]));
                            let m = choose|m: int| 0 <= m < rest.len() && rest[m] == r[b];
                            assert(names[m + 1] == r[b]);
                        } else {
                            assert(r[a] == r2[a - 1]);
                            assert(r[b] == r2[b - 1]);
                        }
                    }
                }
            }
        }
    }
}

/// A filter by the patterns of the named package sets, when any is named.
pub open spec fn package_set_filter_spec(
    selected: Seq<Seq<char>>,
    config: PolicyConfig,
    sets: Seq<Seq<char>>,
) -> Result<Seq<Seq<char>>, ErrorView> {
    if sets.len() == 0 {
        Ok(selected)
    } else {
        match set_patterns(config.sets@, sets) {
            Err(e) => Err(e),
            Ok(patterns) => glob_filter(selected, patterns, true),
        }
    }
}

/// A filter that drops the packages the platform's policy excludes, where
/// the policy has one for the platform.
pub open spec fn platform_filter_spec(
    selected: Seq<Seq<char>>,
    config: PolicyConfig,
    platform: Seq<char>,
) -> Result<Seq<Seq<char>>, ErrorView> {
    match lookup(config.platform@, platform) {
        None => Ok(selected),
        Some(policy) => glob_filter(selected, string_views(policy.exclude@), false),
    }
}

/// The patterns of the named package sets.
pub fn package_set_patterns(config: &PolicyConfig, package_sets: &Vec<String>) -> (res: Result<
    Vec<String>,
    AffectError,
>)
    ensures
        match res {
            Ok(p) => set_patterns(config.sets@, string_views(package_sets@)) == Ok::<
                Seq<Seq<char>>,
                ErrorView,
            >(string_views(p@)),
            Err(e) => set_patterns(config.sets@, string_views(package_sets@)) == Err::<
                Seq<Seq<char>>,
                ErrorView,
            >(e@),
        },
{
    let ghost names = string_views(package_sets@);
    let mut patterns: Vec<String> = Vec::new();
    let mut i: usize = 0;
    assert(names.skip(0) =~= names);
    assert(string_views(patterns@) =~= Seq::<Seq<char>>::empty());
    while i < package_sets.len()
        invariant
            names == string_views(package_sets@),
            i <= package_sets.len(),
            set_patterns(config.sets@, names) == prepend(
                string_views(patterns@),
                set_patterns(config.sets@, names.skip(i as int)),
            ),
        decreases package_sets.len() - i,
    {
        assert(names.skip(i as int)[0] == package_sets@[i as int]@);
        assert(names.skip(i as int).drop_first() =~= names.skip(i + 1));
        match find_entry(&config.sets, package_sets[i].as_str()) {
            None => {
                return Err(AffectError::UnknownPackageSet { set: package_sets[i].clone() });
            },
            Some(k) => {
                let ghost before = string_views(patterns@);
                extend_strings(&mut patterns, &config.sets[k].1.packages);
                proof {
                    assert(string_views(patterns@) =~= before + string_views(
                        config.sets@[k as int].1.packages@,
                    ));
                    let rest = set_patterns(config.sets@, names.skip(i + 1));
                    match rest {
                        Ok(r) => {
                            assert(before + (string_views(config.sets@[k as int].1.packages@) + r)
                                =~= string_views(patterns@) + r);
                        },
                        Err(_) => {},
                    }
                }
            },
        }
        i = i + 1;
    }
    assert(names.skip(i as int) =~= Seq::<Seq<char>>::empty());
    assert(string_views(patterns@) + Seq::<Seq<char>>::empty() =~= string_views(patterns@));
    Ok(patterns)
}

/// The names of `selected` that `patterns` match (`keep_matching`) or do
/// not match (otherwise), in order.
pub fn filter_by_globs(selected: &Vec<String>, patterns: &Vec<String>, keep_matching: bool) -> (res:
    Result<Vec<String>, AffectError>)
    ensures
        match res {
            Ok(v) => glob_filter(string_views(selected@), string_views(patterns@), keep_matching)
                == Ok::<Seq<Seq<char>>, ErrorView>(string_views(v@)),
            Err(e) => glob_filter(string_views(selected@), string_views(patterns@), keep_matching)
                == Err::<Seq<Seq<char>>, ErrorView>(e@),
        },
{
    let ghost names = string_views(selected@);
    let ghost pats = string_views(patterns@);
    let mut kept: Vec<String> = Vec::new();
    let mut i: usize = 0;
    assert(names.skip(0) =~= names);
    assert(string_views(kept@) =~= Seq::<Seq<char>>::empty());
    while i < selected.len()
        invariant
            names == string_views(selected@),
            pats == string_views(patterns@),
            i <= selected.len(),
            glob_filter(names, pats, keep_matching) == prepend(
                string_views(kept@),
                glob_filter(names.skip(i as int), pats, keep_matching),
            ),
        decreases selected.len() - i,
    {
        assert(names.skip(i as int)[0] == selected@[i as int]@);
        assert(names.skip(i as int).drop_first() =~= names.skip(i + 1));
        let m = matches_glob_patterns(patterns, selected[i].as_str());
        match m {
            Err(e) => {
                return Err(e);
            },
            Ok(b) => {
                if b == keep_matching {
                    let ghost before = string_views(kept@);
                    kept.push(selected[i].clone());
                    proof {
                        assert(string_views(kept@) =~= before + seq![names[i as int]]);
                        match glob_filter(names.skip(i + 1), pats, keep_matching) {
                            Ok(r) => {
                                assert(before + (seq![names[i as int]] + r) =~= string_views(kept@) + r);
                            },
                            Err(_) => {},
                        }
                    }
                }
            },
        }
        i = i + 1;
    }
    assert(names.skip(i as int) =~= Seq::<Seq<char>>::empty());
    assert(string_views(kept@) + Seq::<Seq<char>>::empty() =~= string_views(kept@));
    Ok(kept)
}

/// The selection kept by the named package sets: unchanged where none is
/// named, else the packages that some pattern of the sets matches.
pub fn apply_package_set_filters(
    selected: Vec<String>,
    config: &PolicyConfig,
    package_sets: &Vec<String>,
) -> (res: Result<Vec<String>, AffectError>)
    ensures
        match res {
            Ok(v) => package_set_filter_spec(string_views(selected@), *config, string_views(package_sets@))
                == Ok::<Seq<Seq<char>>, ErrorView>(string_views(v@)),
            Err(e) => package_set_filter_spec(string_views(selected@), *config, string_views(package_sets@))
                == Err::<Seq<Seq<char>>, ErrorView>(e@),
        },
{
    if package_sets.len() == 0 {
        return Ok(selected);
    }
    let patterns = package_set_patterns(config, package_sets)?;
    filter_by_globs(&selected, &patterns, true)
}

/// The selection without the packages that the platform's policy
/// excludes.
pub fn apply_platform_excludes(selected: Vec<String>, config: &PolicyConfig, platform: &str) -> (res:
    Result<Vec<String>, AffectError>)
    ensures
        match res {
            Ok(v) => platform_filter_spec(string_views(selected@), *config, platform@) == Ok::<
                Seq<Seq<char>>,
                ErrorView,
            >(string_views(v@)),
            Err(e) => platform_filter_spec(string_views(selected@), *config, platform@) == Err::<
                Seq<Seq<char>>,
                ErrorView,
            >(e@),
        },
{
    match find_entry(&config.platform, platform) {
        None => Ok(selected),
        Some(k) => filter_by_globs(&selected, &config.platform[k].1.exclude, false),
    }
}

/// Whether some of `patterns` matches `x`.
pub open spec fn any_match(patterns: Seq<Seq<char>>, x: Seq<char>) -> bool {
    exists|q: int| 0 <= q < patterns.len() && #[trigger] glob_match(patterns[q], x)
}

/// Every pattern is accepted.
pub open spec fn all_accepted(patterns: Seq<Seq<char>>) -> bool {
    forall|q: int| 0 <= q < patterns.len() ==> glob_ok(#[trigger] patterns[q])
}

proof fn lemma_any_glob_accepted(patterns: Seq<Seq<char>>, x: Seq<char>)
    requires
        all_accepted(patterns),
    ensures
        any_glob(patterns, x) == Ok::<bool, ErrorView>(any_match(patterns, x)),
    decreases patterns.len(),
{
    if patterns.len() > 0 {
        let rest = patterns.drop_first();
        assert forall|q: int| 0 <= q < rest.len() implies glob_ok(#[trigger] rest[q]) by {
            assert(rest[q] == patterns[q + 1]);
        }
        lemma_any_glob_accepted(rest, x);
        assert(glob_ok(patterns[0]));
        if any_match(rest, x) {
            let q = choose|q: int| 0 <= q < rest.len() && #[trigger] glob_match(rest[q], x);
            assert(patterns[q + 1] == rest[q]);
        }
        if any_match(patterns, x) && !glob_match(patterns[0], x) {
            let q = choose|q: int| 0 <= q < patterns.len() && #[trigger] glob_match(patterns[q], x);
            assert(rest[q - 1] == patterns[q]);
        }
    }
}

proof fn lemma_glob_filter_accepted(names: Seq<Seq<char>>, patterns: Seq<Seq<char>>, x: Seq<char>)
    requires
        all_accepted(patterns),
    ensures
        glob_filter(names, patterns, true) is Ok,
        glob_filter(names, patterns, true)->Ok_0.contains(x) <==> names.contains(x) && any_match(patterns, x),
    decreases names.len(),
{
    if names.len() > 0 {
        let rest = names.drop_first();
        lemma_glob_filter_accepted(rest, patterns, x);
        lemma_any_glob_accepted(patterns, names[0]);
        lemma_any_glob_accepted(patterns, x);
        let r2 = glob_filter(rest, patterns, true)->Ok_0;
        let r = glob_filter(names, patterns, true)->Ok_0;
        if any_match(patterns, names[0]) {
            assert(r == seq![names[0]] + r2);
            if r.contains(x) {
                let k = choose|k: int| 0 <= k < r.len() && r[k] == x;
                if k > 0 {
                    assert(r2[k - 1] == x);
                    assert(r2.contains(x));
                }
            }
            if r2.contains(x) {
                let k = choose|k: int| 0 <= k < r2.len() && r2[k] == x;
                assert(r[k + 1] == x);
            }
            if x == names[0] {
                assert(r[0] == x);
            }
        } else {
            assert(r == r2);
        }
        if names.contains(x) {
            let k = choose|k: int| 0 <= k < names.len() && names[k] == x;
            if k > 0 {
                assert(rest[k - 1] == x);
            }
        }
        if rest.contains(x) {
            let k = choose|k: int| 0 <= k < rest.len() && rest[k] == x;
            assert(names[k + 1] == x);
        }
    }
}

/// Whether some pattern of the named package sets matches `x`.
pub open spec fn in_named_sets(sets: Seq<(String, PackageSetPolicy)>, names: Seq<Seq<char>>, x: Seq<char>) -> bool {
    exists|s: int| 0 <= s < names.len() && any_match(string_views(#[trigger] lookup(sets, names[s])->Some_0.packages@), x)
}

/// Every named set is defined and all its patterns are accepted.
pub open spec fn sets_accepted(sets: Seq<(String, PackageSetPolicy)>, names: Seq<Seq<char>>) -> bool {
    forall|s: int|
        0 <= s < names.len() ==> #[trigger] lookup(sets, names[s]) is Some && all_accepted(
            string_views(lookup(sets, names[s])->Some_0.packages@),
        )
}

proof fn lemma_set_patterns_accepted(sets: Seq<(String, PackageSetPolicy)>, names: Seq<Seq<char>>, x: Seq<char>)
    requires
        sets_accepted(sets, names),
    ensures
        set_patterns(sets, names) is Ok,
        all_accepted(set_patterns(sets, names)->Ok_0),
        any_match(set_patterns(sets, names)->Ok_0, x) <==> in_named_sets(sets, names, x),
    decreases names.len(),
{
    if names.len() > 0 {
        let rest = names.drop_first();
        assert forall|s: int| 0 <= s < rest.len() implies #[trigger] lookup(sets, rest[s]) is Some && all_accepted(
            string_views(lookup(sets, rest[s])->Some_0.packages@),
        ) by {
            assert(rest[s] == names[s + 1]);
        }
        lemma_set_patterns_accepted(sets, rest, x);
        assert(lookup(sets, names[0]) is Some);
        let head = string_views(lookup(sets, names[0])->Some_0.packages@);
        let tail = set_patterns(sets, rest)->Ok_0;
        let all = set_patterns(sets, names)->Ok_0;
        assert(all == head + tail);
        assert(all_accepted(head));
        assert forall|q: int| 0 <= q < all.len() implies glob_ok(#[trigger] all[q]) by {
            if q < head.len() {
                assert(all[q] == head[q]);
            } else {
                assert(all[q] == tail[q - head.len()]);
            }
        }
        if any_match(all, x) {
            let q = choose|q: int| 0 <= q < all.len() && #[trigger] glob_match(all[q], x);
            if q < head.len() {
                assert(all[q] == head[q]);
                assert(any_match(head, x));
                assert(lookup(sets, names[0])->Some_0.packages@ == lookup(sets, names[0])->Some_0.packages@);
            } else {
                assert(all[q] == tail[q - head.len()]);
                assert(any_match(tail, x));
                let s = choose|s: int| 0 <= s < rest.len() && any_match(string_views(#[trigger] lookup(sets, rest[s])->Some_0.packages@), x);
                assert(rest[s] == names[s + 1]);
            }
        }
        if in_named_sets(sets, names, x) {
            let s = choose|s: int| 0 <= s < names.len() && any_match(string_views(#[trigger] lookup(sets, names[s])->Some_0.packages@), x);
            if s == 0 {
                let q = choose|q: int| 0 <= q < head.len() && #[trigger] glob_match(head[q], x);
                assert(all[q] == head[q]);
            } else {
                assert(rest[s - 1] == names[s]);
                assert(in_named_sets(sets, rest, x));
                let q = choose|q: int| 0 <= q < tail.len() && #[trigger] glob_match(tail[q], x);
                assert(all[q + head.len()] == tail[q]);
            }
        }
    }
}

/// Package sets combine by union: where the named sets are all defined and
/// their patterns accepted, the filter keeps exactly the selected packages
/// that some pattern of some named set matches (a set without patterns
/// adds none).
pub proof fn law_package_sets_keep_their_union(
    selected: Seq<Seq<char>>,
    config: PolicyConfig,
    sets: Seq<Seq<char>>,
)
    requires
        sets.len() > 0,
        sets_accepted(config.sets@, sets),
    ensures
        package_set_filter_spec(selected, config, sets) is Ok,
        forall|x: Seq<char>|
            #[trigger] package_set_filter_spec(selected, config, sets)->Ok_0.contains(x) <==> selected.contains(x)
                && in_named_sets(config.sets@, sets, x),
{
    assert forall|x: Seq<char>|
        #[trigger] package_set_filter_spec(selected, config, sets)->Ok_0.contains(x) <==> selected.contains(x)
            && in_named_sets(config.sets@, sets, x) by {
        lemma_set_patterns_accepted(config.sets@, sets, x);
        lemma_glob_filter_accepted(selected, set_patterns(config.sets@, sets)->Ok_0, x);
    }
    lemma_set_patterns_accepted(config.sets@, sets, Seq::empty());
    lemma_glob_filter_accepted(selected, set_patterns(config.sets@, sets)->Ok_0, Seq::empty());
}

/// The package sets in force gather every source: with a profile, its
/// `set` (where it names one) comes first, then all of its `sets`, then the
/// sets requested with `--set`, nothing dropped and nothing else added;
/// without a profile, just the requested sets.
pub proof fn law_package_sets_in_force(requested: Seq<Seq<char>>, profile: Option<CiProfilePolicy>)
    ensures
        profile is None ==> effective_sets_spec(requested, profile) == requested,
        profile matches Some(p) ==> {
            let sets = effective_sets_spec(requested, profile);
            let own = string_views(p.sets@);
            let lead: int = if p.set is Some { 1 } else { 0 };
            &&& sets.len() == lead + own.len() + requested.len()
            &&& p.set matches Some(s) ==> sets[0] == s@
            &&& forall|i: int| 0 <= i < own.len() ==> sets[lead + i] == #[trigger] own[i]
            &&& forall|i: int| 0 <= i < requested.len() ==> sets[lead + own.len() + i] == #[trigger] requested[i]
        },
{
}

/// The platform in force: the one requested with `--platform` where there
/// is one; else the profile's platform where a profile names one; else the
/// default (host) platform, with or without a profile.
pub proof fn law_platform_in_force(
    requested: Option<Seq<char>>,
    profile: Option<CiProfilePolicy>,
    default_platform: Seq<char>,
)
    ensures
        requested matches Some(r) ==> effective_platform_spec(requested, profile, default_platform) == r,
        requested is None && profile is Some && profile->Some_0.platform is Some ==> effective_platform_spec(
            requested,
            profile,
            default_platform,
        ) == profile->Some_0.platform->Some_0@,
        requested is None && (profile is None || profile->Some_0.platform is None) ==> effective_platform_spec(
            requested,
            profile,
            default_platform,
        ) == default_platform,
{
}

} // verus!
