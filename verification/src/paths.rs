//! Path logic over UTF-8 paths, through `camino`: relative paths, global
//! impact files, lexical normalization and the resolution of the paths that
//! the planner is given.

use vstd::prelude::*;

use camino::{Utf8Component, Utf8Path};

use crate::names::str_eq;

verus! {

/// The kind of a path component, as `camino::Utf8Component` tells them apart.
#[derive(Debug, Clone, Copy, PartialEq, Eq, Structural)]
pub enum ComponentKind {
    Prefix,
    RootDir,
    CurDir,
    ParentDir,
    Normal,
}

/// One component of a path: its kind and its text (`as_str`).
#[derive(Debug, Clone)]
pub struct PathComponent {
    pub kind: ComponentKind,
    pub text: String,
}

/// A path component with its text as a character sequence.
pub struct ComponentView {
    pub kind: ComponentKind,
    pub text: Seq<char>,
}

impl View for PathComponent {
    type V = ComponentView;

    open spec fn view(&self) -> ComponentView {
        ComponentView { kind: self.kind, text: self.text@ }
    }
}

/// The views of a sequence of components.
pub open spec fn component_views(s: Seq<PathComponent>) -> Seq<ComponentView> {
    s.map_values(|c: PathComponent| c@)
}

/// An optional string, as an optional character sequence.
pub open spec fn opt_view(o: Option<String>) -> Option<Seq<char>> {
    match o {
        Some(s) => Some(s@),
        None => None,
    }
}

/// Whether `camino::Utf8Path::starts_with` holds: `base` is a prefix of
/// `path`, whole components compared.
pub uninterp spec fn path_starts_with(path: Seq<char>, base: Seq<char>) -> bool;

/// The text of the path that `camino::Utf8Path::strip_prefix` returns.
pub uninterp spec fn stripped_path(path: Seq<char>, base: Seq<char>) -> Seq<char>;

/// What `camino::Utf8Path::file_name` returns.
pub uninterp spec fn file_name_of(path: Seq<char>) -> Option<Seq<char>>;

/// The components that `camino::Utf8Path::components` yields.
pub uninterp spec fn components_of(path: Seq<char>) -> Seq<ComponentView>;

/// What `camino::Utf8Path::is_absolute` returns.
pub uninterp spec fn path_is_absolute(path: Seq<char>) -> bool;

/// The text of `base.join(part)` (`camino::Utf8Path::join`).
pub uninterp spec fn joined_path(base: Seq<char>, part: Seq<char>) -> Seq<char>;

/// The text of a path buffer after `camino::Utf8PathBuf::pop`.
pub uninterp spec fn popped_path(path: Seq<char>) -> Seq<char>;

/// What `camino::Utf8Path::parent` returns, as text.
pub uninterp spec fn parent_path(path: Seq<char>) -> Option<Seq<char>>;

/// `camino::Utf8Path::starts_with`. Trusted: the result is
/// `path_starts_with` of the two texts.
#[verifier::external_body]
fn starts_with(path: &str, base: &str) -> (res: bool)
    ensures
        res == path_starts_with(path@, base@),
{
    Utf8Path::new(path).starts_with(base)
}

/// `camino::Utf8Path::strip_prefix`, the result as text. Trusted: as its
/// documentation says, it fails exactly when `starts_with` is false; the
/// text it returns is `stripped_path` of the two texts.
#[verifier::external_body]
fn strip_prefix(path: &str, base: &str) -> (res: Option<String>)
    ensures
        res is Some <==> path_starts_with(path@, base@),
        res matches Some(s) ==> s@ == stripped_path(path@, base@),
{
    match Utf8Path::new(path).strip_prefix(base) {
        Ok(rest) => Some(rest.to_string()),
        Err(_) => None,
    }
}

/// `camino::Utf8Path::file_name`. Trusted: the result is `file_name_of`.
#[verifier::external_body]
fn file_name(path: &str) -> (res: Option<String>)
    ensures
        opt_view(res) == file_name_of(path@),
{
    Utf8Path::new(path).file_name().map(|name| name.to_string())
}

/// `camino::Utf8Path::components`, each component converted to its kind and
/// text. Trusted: the result is `components_of`.
#[verifier::external_body]
fn components(path: &str) -> (res: Vec<PathComponent>)
    ensures
        component_views(res@) == components_of(path@),
{
    Utf8Path::new(path).components().map(|c| PathComponent {
        kind: match c {
            Utf8Component::Prefix(_) => ComponentKind::Prefix,
            Utf8Component::RootDir => ComponentKind::RootDir,
            Utf8Component::CurDir => ComponentKind::CurDir,
            Utf8Component::ParentDir => ComponentKind::ParentDir,
            Utf8Component::Normal(_) => ComponentKind::Normal,
        },
        text: c.as_str().to_string(),
    }).collect()
}

/// `camino::Utf8Path::is_absolute`. Trusted: the result is
/// `path_is_absolute`.
#[verifier::external_body]
fn is_absolute(path: &str) -> (res: bool)
    ensures
        res == path_is_absolute(path@),
{
    Utf8Path::new(path).is_absolute()
}

/// `camino::Utf8Path::join`, the result as text. Trusted: the text is
/// `joined_path`.
#[verifier::external_body]
fn join(base: &str, part: &str) -> (res: String)
    ensures
        res@ == joined_path(base@, part@),
{
    Utf8Path::new(base).join(part).into_string()
}

/// `camino::Utf8PathBuf::pop` on a buffer holding `path`, the buffer's text
/// afterwards. Trusted: the text is `popped_path`.
#[verifier::external_body]
fn pop(path: &str) -> (res: String)
    ensures
        res@ == popped_path(path@),
{
    let mut buf = camino::Utf8PathBuf::from(path);
    buf.pop();
    buf.into_string()
}

/// `camino::Utf8Path::parent`, the result as text. Trusted: the result is
/// `parent_path`.
#[verifier::external_body]
fn parent(path: &str) -> (res: Option<String>)
    ensures
        opt_view(res) == parent_path(path@),
{
    Utf8Path::new(path).parent().map(|p| p.to_string())
}

/// Whether a path is absolute.
pub fn is_absolute_path(path: &str) -> (res: bool)
    ensures
        res == path_is_absolute(path@),
{
    is_absolute(path)
}

/// `path` relative to `root` where `root` is a prefix of it, else `path`
/// itself.
pub open spec fn relative_spec(path: Seq<char>, root: Seq<char>) -> Seq<char> {
    if path_starts_with(path, root) {
        stripped_path(path, root)
    } else {
        path
    }
}

/// `path` relative to `root` where `root` is a prefix of it, else `path`
/// itself.
pub fn relative_path(path: &str, root: &str) -> (res: String)
    ensures
        res@ == relative_spec(path@, root@),
{
    match strip_prefix(path, root) {
        Some(rest) => rest,
        None => path.to_string(),
    }
}

/// A change to this path affects the whole workspace: it is a `Cargo.lock`,
/// or it lies under a `.cargo` or `.github` directory.
pub open spec fn global_impact(path: Seq<char>) -> bool {
    ||| file_name_of(path) == Some("Cargo.lock"@)
    ||| exists|i: int|
        0 <= i < components_of(path).len() && (#[trigger] components_of(path)[i]).kind
            == ComponentKind::Normal && (components_of(path)[i].text == ".cargo"@
            || components_of(path)[i].text == ".github"@)
}

/// Whether a change to `path` affects the whole workspace.
pub fn is_global_impact_path(path: &str) -> (res: bool)
    ensures
        res == global_impact(path@),
{
    let name = file_name(path);
    if let Some(n) = name {
        if str_eq(n.as_str(), "Cargo.lock") {
            return true;
        }
    }
    let comps = components(path);
    let mut i: usize = 0;
    while i < comps.len()
        invariant
            component_views(comps@) == components_of(path@),
            file_name_of(path@) != Some("Cargo.lock"@),
            i <= comps.len(),
            forall|k: int|
                0 <= k < i ==> !((#[trigger] components_of(path@)[k]).kind == ComponentKind::Normal
                    && (components_of(path@)[k].text == ".cargo"@ || components_of(path@)[k].text
                    == ".github"@)),
        decreases comps.len() - i,
    {
        assert(components_of(path@)[i as int] == comps@[i as int]@);
        if comps[i].kind == ComponentKind::Normal && (str_eq(comps[i].text.as_str(), ".cargo")
            || str_eq(comps[i].text.as_str(), ".github")) {
            return true;
        }
        i = i + 1;
    }
    false
}

/// One step of lexical normalization: a prefix, the root or a normal
/// component is pushed, `.` is dropped, and `..` pops the last component.
pub open spec fn normalize_step(acc: Seq<char>, c: ComponentView) -> Seq<char> {
    match c.kind {
        ComponentKind::CurDir => acc,
        ComponentKind::ParentDir => popped_path(acc),
        _ => joined_path(acc, c.text),
    }
}

/// Lexical normalization of the components `comps` onto `acc`.
pub open spec fn normalize_from(acc: Seq<char>, comps: Seq<ComponentView>) -> Seq<char>
    decreases comps.len(),
{
    if comps.len() == 0 {
        acc
    } else {
        normalize_from(normalize_step(acc, comps[0]), comps.drop_first())
    }
}

/// `path` normalized lexically, starting from an empty path.
pub open spec fn normalized(path: Seq<char>) -> Seq<char> {
    normalize_from(Seq::empty(), components_of(path))
}

/// Normalizes `path` lexically, resolving `.` and `..` without looking at
/// the file system.
pub fn normalize_path(path: &str) -> (res: String)
    ensures
        res@ == normalized(path@),
{
    let comps = components(path);
    let ghost all = components_of(path@);
    let mut acc = String::new();
    let mut i: usize = 0;
    assert(all.skip(0) =~= all);
    while i < comps.len()
        invariant
            component_views(comps@) == all,
            all == components_of(path@),
            i <= comps.len(),
            normalized(path@) == normalize_from(acc@, all.skip(i as int)),
        decreases comps.len() - i,
    {
        assert(all.skip(i as int)[0] == comps@[i as int]@);
        assert(all.skip(i as int).drop_first() =~= all.skip(i + 1));
        let c = &comps[i];
        match c.kind {
            ComponentKind::CurDir => {},
            ComponentKind::ParentDir => {
                acc = pop(acc.as_str());
            },
            _ => {
                acc = join(acc.as_str(), c.text.as_str());
            },
        }
        i = i + 1;
    }
    assert(all.skip(i as int) =~= Seq::<ComponentView>::empty());
    acc
}

/// `path` made absolute against `cwd` where it is relative, then normalized.
pub open spec fn absolute_spec(path: Seq<char>, cwd: Seq<char>) -> Seq<char> {
    if path_is_absolute(path) {
        normalized(path)
    } else {
        normalized(joined_path(cwd, path))
    }
}

/// `path` made absolute against the current directory `cwd` where it is
/// relative, then normalized.
pub fn absolute_path(path: &str, cwd: &str) -> (res: String)
    ensures
        res@ == absolute_spec(path@, cwd@),
{
    if is_absolute(path) {
        normalize_path(path)
    } else {
        let full = join(cwd, path);
        normalize_path(full.as_str())
    }
}

/// The manifest of a workspace given by `workspace`, an absolute path: its
/// `Cargo.toml` where it is a directory, else the path itself.
pub fn workspace_manifest_path(workspace: &str, is_dir: bool) -> (res: String)
    ensures
        res@ == (if is_dir {
            joined_path(workspace@, "Cargo.toml"@)
        } else {
            workspace@
        }),
{
    if is_dir {
        join(workspace, "Cargo.toml")
    } else {
        workspace.to_string()
    }
}

/// Where the policy config is looked for.
#[derive(Debug, Clone)]
pub enum ConfigLocation {
    /// Given with `--config`: it must be read.
    Explicit(String),
    /// `affect.toml` in the workspace root: read only where it exists.
    Default(String),
}

/// The policy config's path: a given path, absolute or relative to the
/// workspace root, normalized; else `affect.toml` in the workspace root.
pub fn policy_config_path(workspace_root: &str, config: &Option<String>) -> (res: ConfigLocation)
    ensures
        match config {
            Some(p) => res matches ConfigLocation::Explicit(q) && q@ == (if path_is_absolute(p@) {
                normalized(p@)
            } else {
                normalized(joined_path(workspace_root@, p@))
            }),
            None => res matches ConfigLocation::Default(q) && q@ == joined_path(
                workspace_root@,
                "affect.toml"@,
            ),
        },
{
    match config {
        Some(p) => {
            if is_absolute(p.as_str()) {
                ConfigLocation::Explicit(normalize_path(p.as_str()))
            } else {
                let full = join(workspace_root, p.as_str());
                ConfigLocation::Explicit(normalize_path(full.as_str()))
            }
        },
        None => ConfigLocation::Default(join(workspace_root, "affect.toml")),
    }
}

/// A path after an attempt to canonicalize it: the canonical path
/// normalized where the file system gave one, else the path normalized.
pub fn canonical_or_normalized(path: &str, canonical: &Option<String>) -> (res: String)
    ensures
        res@ == (match canonical {
            Some(c) => normalized(c@),
            None => normalized(path@),
        }),
{
    match canonical {
        Some(c) => normalize_path(c.as_str()),
        None => normalize_path(path),
    }
}

/// How a changed file given on the command line is to be resolved.
#[derive(Debug, Clone)]
pub enum ChangedFileLookup {
    /// An absolute path: resolved, normalized.
    Resolved(String),
    /// A relative path: these candidates are to be canonicalized, the first
    /// against the workspace root, the second against the git root.
    Candidates { workspace: String, repository: Option<String> },
}

/// The resolution of a changed file `file`: absolute paths are normalized;
/// relative ones are joined onto the workspace root and onto the git root,
/// where there is one.
pub fn changed_file_lookup(file: &str, workspace_root: &str, git_root: &Option<String>) -> (res:
    ChangedFileLookup)
    ensures
        match res {
            ChangedFileLookup::Resolved(p) => path_is_absolute(file@) && p@ == normalized(file@),
            ChangedFileLookup::Candidates { workspace, repository } => {
                &&& !path_is_absolute(file@)
                &&& workspace@ == joined_path(workspace_root@, file@)
                &&& opt_view(repository) == match git_root {
                    Some(g) => Some(joined_path(g@, file@)),
                    None => None::<Seq<char>>,
                }
            },
        },
{
    if is_absolute(file) {
        ChangedFileLookup::Resolved(normalize_path(file))
    } else {
        let workspace = join(workspace_root, file);
        let repository = match git_root {
            Some(g) => Some(join(g.as_str(), file)),
            None => None,
        };
        ChangedFileLookup::Candidates { workspace, repository }
    }
}

/// The choice between the two canonicalized candidates of a relative
/// changed file: the one under the git root where it lies inside the
/// workspace root, else the one under the workspace root.
pub fn choose_changed_file(workspace_root: &str, workspace: String, repository: Option<String>) -> (res: String)
    ensures
        res@ == (match repository {
            Some(r) => if path_starts_with(r@, workspace_root@) {
                r@
            } else {
                workspace@
            },
            None => workspace@,
        }),
{
    match repository {
        Some(r) => {
            if starts_with(r.as_str(), workspace_root) {
                r
            } else {
                workspace
            }
        },
        None => workspace,
    }
}

/// The directory a CI task runs in: its working directory, taken against
/// the workspace root where it is relative, normalized.
pub fn task_working_directory(workspace_root: &str, working_directory: &str) -> (res: String)
    ensures
        res@ == (if path_is_absolute(working_directory@) {
            normalized(working_directory@)
        } else {
            normalized(joined_path(workspace_root@, working_directory@))
        }),
{
    if is_absolute(working_directory) {
        normalize_path(working_directory)
    } else {
        let full = join(workspace_root, working_directory);
        normalize_path(full.as_str())
    }
}

/// The directory that holds a package manifest.
pub fn manifest_parent(manifest_path: &str) -> (res: Option<String>)
    ensures
        opt_view(res) == parent_path(manifest_path@),
{
    parent(manifest_path)
}

/// Whether `path` lies under `base`, whole components compared.
pub fn path_under(path: &str, base: &str) -> (res: bool)
    ensures
        res == path_starts_with(path@, base@),
{
    starts_with(path, base)
}

} // verus!
