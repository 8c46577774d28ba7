//! Synchronization decisions: the options of an apply, the library's errors,
//! for each directory entry met while applying, adding or re-adding, what
//! happens to it, and, for each file met, where the whole walk takes it.
//! Listing directories and copying are done by the caller, which hands each
//! entry's path and kind, or a file's names from the top of the walk, to
//! these functions.
use vstd::prelude::*;

use crate::ignore::{IgnoreRules, ignored_by};
use crate::paths::{
    components_of, file_name, file_name_of, join_path, joined, lemma_components_of_joined,
    lemma_components_of_sep_join, lemma_join_parts_plain, lemma_joined_twice, lemma_strip_below,
    lemma_strip_joined, parent, parent_of, path_components, plain_name, plain_names, sep_join,
    strip_path_prefix, stripped, views,
};
use crate::text::{
    chars_of, has_prefix, pieces_of, range_has_prefix, split_on, str_concat, str_eq, string_of,
};

verus! {

#[verifier::external_type_specification]
#[verifier::external_body]
pub struct ExIoError(std::io::Error);

/// Public synchronization options.
#[derive(Debug, Clone, PartialEq, Eq)]
pub struct SyncOptions {
    pub origin_dir: String,
    pub destination_dir: String,
    pub dry_run: bool,
    /// When true, logs every copied file. Warnings and errors are always shown.
    pub verbose: bool,
    /// When set, `.dotsyncignore` is loaded from this directory instead of `origin_dir`.
    /// Needed for scoped applies where `origin_dir` is a subdirectory of the repo.
    pub ignore_root: Option<String>,
}

impl SyncOptions {
    /// Options to apply `origin_dir` onto `destination_dir`, neither dry nor
    /// verbose, with the ignore rules read from `origin_dir`.
    pub fn new(origin_dir: String, destination_dir: String) -> (r: Self)
        ensures
            r.origin_dir == origin_dir,
            r.destination_dir == destination_dir,
            !r.dry_run,
            !r.verbose,
            r.ignore_root is None,
    {
        SyncOptions { origin_dir, destination_dir, dry_run: false, verbose: false, ignore_root: None }
    }

    /// The same options with `dry_run` set as given.
    pub fn with_dry_run(self, dry_run: bool) -> (r: Self)
        ensures
            r.dry_run == dry_run,
            r.origin_dir == self.origin_dir,
            r.destination_dir == self.destination_dir,
            r.verbose == self.verbose,
            r.ignore_root == self.ignore_root,
    {
        let mut s = self;
        s.dry_run = dry_run;
        s
    }

    /// The same options with `verbose` set as given.
    pub fn with_verbose(self, verbose: bool) -> (r: Self)
        ensures
            r.verbose == verbose,
            r.origin_dir == self.origin_dir,
            r.destination_dir == self.destination_dir,
            r.dry_run == self.dry_run,
            r.ignore_root == self.ignore_root,
    {
        let mut s = self;
        s.verbose = verbose;
        s
    }

    /// The same options with the ignore rules read from `root`.
    pub fn with_ignore_root(self, root: String) -> (r: Self)
        ensures
            r.ignore_root == Some(root),
            r.origin_dir == self.origin_dir,
            r.destination_dir == self.destination_dir,
            r.dry_run == self.dry_run,
            r.verbose == self.verbose,
    {
        let mut s = self;
        s.ignore_root = Some(root);
        s
    }

    /// The directory whose `.dotsyncignore` governs this apply: the ignore
    /// root when one is set, else the origin.
    pub fn rules_dir(&self) -> (r: &str)
        ensures
            r@ == match self.ignore_root {
                Some(root) => root@,
                None => self.origin_dir@,
            },
    {
        match &self.ignore_root {
            Some(root) => root.as_str(),
            None => self.origin_dir.as_str(),
        }
    }
}

/// The errors of synchronization.
#[allow(inconsistent_fields)]
#[derive(Debug)]
pub enum DotSyncError {
    InvalidOriginDir(String),
    NotUnderHome { source: String, home: String },
    RelativePath { path: String, base: String },
    Io { context: String, source: std::io::Error },
    CommandFailed { command: String, status: String },
}

/// `s` written `'s'`.
pub open spec fn quoted(s: Seq<char>) -> Seq<char> {
    seq!['\''] + s + seq!['\'']
}

impl DotSyncError {
    /// Whether `m` is the text shown for this error.
    pub open spec fn message_is(&self, m: String) -> bool {
            match self {
                DotSyncError::InvalidOriginDir(path) => m@ == "Error: origin directory "@ + quoted(
                    path@,
                ) + " does not exist."@,
                DotSyncError::NotUnderHome { source, home } => m@ == "Error: "@ + quoted(source@)
                    + " is not under HOME "@ + quoted(home@) + seq!['.'],
                DotSyncError::RelativePath { path, base } => m@
                    == "Could not compute relative path for "@ + quoted(path@) + " from base "@
                    + quoted(base@),
                DotSyncError::Io { context, source } => exists|t: String|
                    vstd::string::to_string_from_display_ensures::<std::io::Error>(source, t)
                        && m@ == context@ + ": "@ + t@,
                DotSyncError::CommandFailed { command, status } => m@
                    == "Command failed with exit code "@ + status@ + ": "@ + command@,
            }
    }

    /// The text shown for this error.
    pub fn message(&self) -> (m: String)
        ensures
            self.message_is(m),
    {
        proof {
            reveal_strlit("'");
            reveal_strlit(".");
        }
        match self {
            DotSyncError::InvalidOriginDir(path) => {
                let a = str_concat("Error: origin directory '", path.as_str());
                let m = str_concat(a.as_str(), "' does not exist.");
                proof {
                    reveal_strlit("Error: origin directory '");
                    reveal_strlit("Error: origin directory ");
                    reveal_strlit("' does not exist.");
                    reveal_strlit(" does not exist.");
                }
                assert(m@ =~= "Error: origin directory "@ + quoted(path@) + " does not exist."@);
                m
            },
            DotSyncError::NotUnderHome { source, home } => {
                let a = str_concat("Error: '", source.as_str());
                let b = str_concat(a.as_str(), "' is not under HOME '");
                let c = str_concat(b.as_str(), home.as_str());
                let m = str_concat(c.as_str(), "'.");
                proof {
                    reveal_strlit("Error: '");
                    reveal_strlit("Error: ");
                    reveal_strlit("' is not under HOME '");
                    reveal_strlit(" is not under HOME ");
                    reveal_strlit("'.");
                }
                assert(m@ =~= "Error: "@ + quoted(source@) + " is not under HOME "@ + quoted(home@)
                    + seq!['.']);
                m
            },
            DotSyncError::RelativePath { path, base } => {
                let a = str_concat("Could not compute relative path for '", path.as_str());
                let b = str_concat(a.as_str(), "' from base '");
                let c = str_concat(b.as_str(), base.as_str());
                let m = str_concat(c.as_str(), "'");
                proof {
                    reveal_strlit("Could not compute relative path for '");
                    reveal_strlit("Could not compute relative path for ");
                    reveal_strlit("' from base '");
                    reveal_strlit(" from base ");
                }
                assert(m@ =~= "Could not compute relative path for "@ + quoted(path@)
                    + " from base "@ + quoted(base@));
                m
            },
            DotSyncError::Io { context, source } => {
                let t = source.to_string();
                let a = str_concat(context.as_str(), ": ");
                let m = str_concat(a.as_str(), t.as_str());
                assert(m@ =~= context@ + ": "@ + t@);
                m
            },
            DotSyncError::CommandFailed { command, status } => {
                let a = str_concat("Command failed with exit code ", status.as_str());
                let b = str_concat(a.as_str(), ": ");
                let m = str_concat(b.as_str(), command.as_str());
                assert(m@ =~= "Command failed with exit code "@ + status@ + ": "@ + command@);
                m
            },
        }
    }
}

/// The name `.git`.
pub open spec fn git_name() -> Seq<char> {
    seq!['.', 'g', 'i', 't']
}

/// The name `.dotsyncignore`.
pub open spec fn ignore_file_name() -> Seq<char> {
    seq!['.', 'd', 'o', 't', 's', 'y', 'n', 'c', 'i', 'g', 'n', 'o', 'r', 'e']
}

/// The name `.config`.
pub open spec fn config_dir_name() -> Seq<char> {
    seq!['.', 'c', 'o', 'n', 'f', 'i', 'g']
}

/// Whether `path` names the repository's own `.git` or `.dotsyncignore`.
pub open spec fn is_internal(path: Seq<char>) -> bool {
    file_name_of(path) == Some(git_name()) || file_name_of(path) == Some(ignore_file_name())
}

/// Whether `path` is the repository's own `.git` or `.dotsyncignore`, which
/// are never copied.
pub fn is_internal_entry(path: &str) -> (b: bool)
    ensures
        b == is_internal(path@),
{
    match file_name(path) {
        Some(name) => {
            proof {
                reveal_strlit(".git");
                reveal_strlit(".dotsyncignore");
            }
            assert(".git"@ =~= git_name());
            assert(".dotsyncignore"@ =~= ignore_file_name());
            str_eq(name.as_str(), ".git") || str_eq(name.as_str(), ".dotsyncignore")
        },
        None => false,
    }
}

/// An origin directory is usable when it exists and is a directory;
/// otherwise the error names it.
pub fn validate_origin_dir(origin_dir: &str, origin_exists: bool, is_dir: bool) -> (r: Result<
    (),
    DotSyncError,
>)
    ensures
        r is Ok <==> (origin_exists && is_dir),
        r matches Err(e) ==> (e matches DotSyncError::InvalidOriginDir(p) && p@ == origin_dir@),
{
    if !origin_exists || !is_dir {
        return Err(DotSyncError::InvalidOriginDir(origin_dir.to_owned()));
    }
    Ok(())
}

/// What becomes of one directory entry met while applying or adding.
pub enum EntryStep {
    /// A `.git` or `.dotsyncignore` of the repository: left alone.
    Skip,
    /// Matched by the ignore rules: left alone.
    Ignored,
    /// A directory: its entries are visited in turn.
    Descend,
    /// A file: copied to the path given.
    CopyTo(String),
}

/// Whether `step` is the step for an entry whose path for the rules is
/// `rule_path` and whose path relative to the tree being copied is
/// `relative`, of kind `is_dir`: ignored when the rules ignore `rule_path`,
/// else descended into when a directory, else copied to `target_root`
/// joined with `relative`.
pub open spec fn is_copy_step(
    step: EntryStep,
    rules: Seq<(Seq<char>, bool)>,
    rule_path: Seq<char>,
    relative: Seq<char>,
    is_dir: bool,
    target_root: Seq<char>,
) -> bool {
    if ignored_by(rules, rule_path) {
        step is Ignored
    } else if is_dir {
        step is Descend
    } else {
        step matches EntryStep::CopyTo(t) && t@ == joined(target_root, relative)
    }
}

fn copy_step(rule_path: &str, relative: &str, is_dir: bool, target_root: &str, rules: &IgnoreRules) -> (s:
    EntryStep)
    ensures
        is_copy_step(s, rules@, rule_path@, relative@, is_dir, target_root@),
{
    if rules.is_ignored(rule_path) {
        EntryStep::Ignored
    } else if is_dir {
        EntryStep::Descend
    } else {
        EntryStep::CopyTo(join_path(target_root, relative))
    }
}

/// The path on which `apply` tests the rules for the entry `path`, whose
/// path relative to the applied directory is `relative`: its path relative
/// to `rules_dir`, where `.dotsyncignore` is read (the repository root), or
/// `relative` for an entry outside `rules_dir`.
pub open spec fn rule_path(path: Seq<char>, relative: Seq<char>, rules_dir: Seq<char>) -> Seq<char> {
    match stripped(path, rules_dir) {
        Some(key) => key,
        None => relative,
    }
}

/// The step of applying the repository entry `entry` (a directory when
/// `is_dir`) found under `base_dir`, with the ignore rules read from
/// `rules_dir`: the repository's own files are skipped; an entry outside
/// `base_dir` is an error; otherwise the rules are tested on its
/// `rule_path` and a file is copied to `destination_dir` joined with its
/// path relative to `base_dir` (`is_copy_step`).
pub fn apply_entry_step(
    entry: &str,
    is_dir: bool,
    base_dir: &str,
    rules_dir: &str,
    destination_dir: &str,
    rules: &IgnoreRules,
) -> (r: Result<EntryStep, DotSyncError>)
    ensures
        is_internal(entry@) ==> r matches Ok(EntryStep::Skip),
        !is_internal(entry@) && stripped(entry@, base_dir@) is None ==> (r matches Err(
            DotSyncError::RelativePath { path, base },
        ) && path@ == entry@ && base@ == base_dir@),
        !is_internal(entry@) ==> (stripped(entry@, base_dir@) matches Some(rel) ==> (r matches Ok(s)
            && is_copy_step(s, rules@, rule_path(entry@, rel, rules_dir@), rel, is_dir, destination_dir@))),
{
    if is_internal_entry(entry) {
        return Ok(EntryStep::Skip);
    }
    match strip_path_prefix(entry, base_dir) {
        Some(relative) => {
            let key = match strip_path_prefix(entry, rules_dir) {
                Some(key) => key,
                None => relative.clone(),
            };
            Ok(copy_step(key.as_str(), relative.as_str(), is_dir, destination_dir, rules))
        },
        None => Err(DotSyncError::RelativePath { path: entry.to_owned(), base: base_dir.to_owned() }),
    }
}

/// Whether the walk of `apply` over `origin`, with the rules read from
/// `rules_dir`, stops at `path`: one of the repository's own files, or an
/// entry whose `rule_path` the rules ignore. It is not copied and, being a
/// directory, not looked into.
pub open spec fn walk_stops_at(
    path: Seq<char>,
    origin: Seq<char>,
    rules_dir: Seq<char>,
    rules: Seq<(Seq<char>, bool)>,
) -> bool {
    is_internal(path) || (stripped(path, origin) matches Some(rel) && ignored_by(
        rules,
        rule_path(path, rel, rules_dir),
    ))
}

/// Where `apply` copies the file found below `origin` through the plain
/// names `parts`: nowhere when the walk stops at a directory on the way
/// (`origin` joined with the first names) or at the file itself; otherwise
/// to `destination` joined with the file's path relative to `origin`.
pub open spec fn applied_target(
    origin: Seq<char>,
    parts: Seq<Seq<char>>,
    rules_dir: Seq<char>,
    destination: Seq<char>,
    rules: Seq<(Seq<char>, bool)>,
) -> Option<Seq<char>> {
    if exists|j: int|
        1 <= j <= parts.len() && #[trigger] walk_stops_at(
            joined(origin, sep_join(parts.take(j))),
            origin,
            rules_dir,
            rules,
        ) {
        None
    } else {
        Some(joined(destination, sep_join(parts)))
    }
}

/// Where `apply` copies the file found below `origin` through the names
/// `parts` (`applied_target`): the walk is followed from `origin` down, one
/// `apply_entry_step` per directory on the way and one for the file.
pub fn apply_file_target(
    origin: &str,
    parts: &Vec<String>,
    rules_dir: &str,
    destination_dir: &str,
    rules: &IgnoreRules,
) -> (r: Option<String>)
    requires
        parts@.len() > 0,
        plain_names(views(parts@)),
    ensures
        r matches Some(t) ==> applied_target(origin@, views(parts@), rules_dir@, destination_dir@, rules@)
            == Some(t@),
        r is None ==> applied_target(origin@, views(parts@), rules_dir@, destination_dir@, rules@) is None,
{
    let ghost vs = views(parts@);
    let mut path = origin.to_owned();
    let mut j: usize = 0;
    loop
        invariant
            j < parts@.len(),
            vs == views(parts@),
            plain_names(vs),
            j == 0 ==> path@ == origin@,
            j > 0 ==> path@ == joined(origin@, sep_join(vs.take(j as int))),
            forall|k: int|
                1 <= k <= j ==> !#[trigger] walk_stops_at(
                    joined(origin@, sep_join(vs.take(k))),
                    origin@,
                    rules_dir@,
                    rules@,
                ),
        decreases parts@.len() - j,
    {
        let next = join_path(path.as_str(), parts[j].as_str());
        let ghost q = vs.take(j + 1);
        proof {
            lemma_walk_next(origin@, vs, j as int, path@, parts@[j as int]@);
            lemma_strip_joined(origin@, q);
        }
        let is_dir = j < parts.len() - 1;
        match apply_entry_step(next.as_str(), is_dir, origin, rules_dir, destination_dir, rules) {
            Ok(EntryStep::Descend) => {
                path = next;
                j = j + 1;
            },
            Ok(EntryStep::CopyTo(t)) => {
                proof {
                    assert(q =~= vs);
                    assert forall|k: int|
                        1 <= k <= vs.len() implies !#[trigger] walk_stops_at(
                            joined(origin@, sep_join(vs.take(k))),
                            origin@,
                            rules_dir@,
                            rules@,
                        ) by {
                        if k == j + 1 {
                            assert(vs.take(k) == q);
                        }
                    }
                }
                return Some(t);
            },
            _ => {
                proof {
                    assert(walk_stops_at(joined(origin@, sep_join(vs.take(j + 1))), origin@, rules_dir@, rules@));
                }
                return None;
            },
        }
    }
}

/// What `apply` does with a file of the repository, found below `origin`
/// through plain names: when the walk stops at a directory on the way or at
/// the file itself (a repository file, or one that the rules ignore), the
/// file is not copied; otherwise it is copied to `destination` joined with
/// its path relative to `origin`.
pub proof fn lemma_apply_walk(
    origin: Seq<char>,
    parts: Seq<Seq<char>>,
    rules_dir: Seq<char>,
    destination: Seq<char>,
    rules: Seq<(Seq<char>, bool)>,
)
    requires
        parts.len() > 0,
        plain_names(parts),
    ensures
        (exists|j: int|
            1 <= j <= parts.len() && #[trigger] walk_stops_at(
                joined(origin, sep_join(parts.take(j))),
                origin,
                rules_dir,
                rules,
            )) ==> applied_target(origin, parts, rules_dir, destination, rules) is None,
        (forall|j: int|
            1 <= j <= parts.len() ==> !#[trigger] walk_stops_at(
                joined(origin, sep_join(parts.take(j))),
                origin,
                rules_dir,
                rules,
            )) ==> (stripped(joined(origin, sep_join(parts)), origin) matches Some(rel)
            && applied_target(origin, parts, rules_dir, destination, rules) == Some(
            joined(destination, rel),
        )),
{
    lemma_strip_joined(origin, parts);
}

/// The path of `source` relative to `home`, or `NotUnderHome` when `source`
/// is not under `home`.
pub fn home_relative(source: &str, home: &str) -> (r: Result<String, DotSyncError>)
    ensures
        stripped(source@, home@) matches Some(rel) ==> (r matches Ok(s) && s@ == rel),
        stripped(source@, home@) is None ==> (r matches Err(DotSyncError::NotUnderHome { source: s, home: h })
            && s@ == source@ && h@ == home@),
{
    match strip_path_prefix(source, home) {
        Some(relative) => Ok(relative),
        None => Err(DotSyncError::NotUnderHome { source: source.to_owned(), home: home.to_owned() }),
    }
}

/// The step of adding the path `source` (a directory when `is_dir`), given
/// its path `relative` to home: ignored by the rules, descended into, or
/// copied to `repo_dir` joined with `relative`.
pub fn add_source_step(relative: &str, is_dir: bool, repo_dir: &str, rules: &IgnoreRules) -> (s:
    EntryStep)
    ensures
        is_copy_step(s, rules@, relative@, relative@, is_dir, repo_dir@),
{
    copy_step(relative, relative, is_dir, repo_dir, rules)
}

/// The step of adding the entry `entry` (a directory when `is_dir`) met
/// inside an added directory: an entry outside `home_dir` is an error;
/// otherwise its path relative to `home_dir` decides, files going to
/// `repo_dir`.
pub fn add_entry_step(
    entry: &str,
    is_dir: bool,
    home_dir: &str,
    repo_dir: &str,
    rules: &IgnoreRules,
) -> (r: Result<EntryStep, DotSyncError>)
    ensures
        stripped(entry@, home_dir@) is None ==> (r matches Err(
            DotSyncError::RelativePath { path, base },
        ) && path@ == entry@ && base@ == home_dir@),
        stripped(entry@, home_dir@) matches Some(rel) ==> (r matches Ok(s) && is_copy_step(
            s,
            rules@,
            rel,
            rel,
            is_dir,
            repo_dir@,
        )),
{
    match strip_path_prefix(entry, home_dir) {
        Some(relative) => Ok(copy_step(relative.as_str(), relative.as_str(), is_dir, repo_dir, rules)),
        None => Err(DotSyncError::RelativePath { path: entry.to_owned(), base: home_dir.to_owned() }),
    }
}

/// Whether the walk of `add` stops at `path`: an entry whose path relative
/// to `home` the rules ignore. It is not copied and, being a directory, not
/// looked into.
pub open spec fn add_walk_stops_at(path: Seq<char>, home: Seq<char>, rules: Seq<(Seq<char>, bool)>) -> bool {
    stripped(path, home) matches Some(rel) && ignored_by(rules, rel)
}

/// Where `add` copies the file found below the added directory `source`
/// through the plain names `parts`: nowhere when the walk stops at a
/// directory on the way (`source` joined with the first names) or at the
/// file itself; otherwise to `repo` joined with the file's path relative to
/// `home`.
pub open spec fn added_target(
    source: Seq<char>,
    parts: Seq<Seq<char>>,
    home: Seq<char>,
    repo: Seq<char>,
    rules: Seq<(Seq<char>, bool)>,
) -> Option<Seq<char>> {
    if exists|j: int|
        1 <= j <= parts.len() && #[trigger] add_walk_stops_at(
            joined(source, sep_join(parts.take(j))),
            home,
            rules,
        ) {
        None
    } else {
        match stripped(joined(source, sep_join(parts)), home) {
            Some(rel) => Some(joined(repo, rel)),
            None => None,
        }
    }
}

/// The path `source` joined with the first `j + 1` of the names `vs`, given
/// `path`, the path joined with the first `j` (`source` itself for none).
proof fn lemma_walk_next(source: Seq<char>, vs: Seq<Seq<char>>, j: int, path: Seq<char>, name: Seq<char>)
    requires
        0 <= j < vs.len(),
        plain_names(vs),
        name == vs[j],
        j == 0 ==> path == source,
        j > 0 ==> path == joined(source, sep_join(vs.take(j))),
    ensures
        plain_names(vs.take(j + 1)),
        vs.take(j + 1).len() > 0,
        joined(path, name) == joined(source, sep_join(vs.take(j + 1))),
{
    let q = vs.take(j + 1);
    assert(plain_names(q)) by {
        assert forall|i: int| 0 <= i < q.len() implies plain_name(#[trigger] q[i]) by {
            assert(q[i] == vs[i]);
        }
    }
    let one = seq![vs[j]];
    assert(plain_names(one)) by {
        assert forall|i: int| 0 <= i < one.len() implies plain_name(#[trigger] one[i]) by {
            assert(one[i] == vs[j]);
        }
    }
    assert(sep_join(one) == vs[j]);
    if j == 0 {
        assert(q =~= one);
    } else {
        let t = vs.take(j);
        assert(plain_names(t)) by {
            assert forall|i: int| 0 <= i < t.len() implies plain_name(#[trigger] t[i]) by {
                assert(t[i] == vs[i]);
            }
        }
        lemma_joined_twice(source, t, one);
        assert(t + one =~= q);
    }
}

/// Where `add` copies the file found below the added directory `source`
/// through the names `parts` (`added_target`): the walk is followed from
/// `source` down, one `add_entry_step` per directory on the way and one for
/// the file.
pub fn add_file_target(
    source: &str,
    parts: &Vec<String>,
    home_dir: &str,
    repo_dir: &str,
    rules: &IgnoreRules,
) -> (r: Option<String>)
    requires
        parts@.len() > 0,
        plain_names(views(parts@)),
        stripped(source@, home_dir@) is Some,
    ensures
        r matches Some(t) ==> added_target(source@, views(parts@), home_dir@, repo_dir@, rules@) == Some(t@),
        r is None ==> added_target(source@, views(parts@), home_dir@, repo_dir@, rules@) is None,
{
    let ghost vs = views(parts@);
    let mut path = source.to_owned();
    let mut j: usize = 0;
    loop
        invariant
            j < parts@.len(),
            vs == views(parts@),
            plain_names(vs),
            stripped(source@, home_dir@) is Some,
            j == 0 ==> path@ == source@,
            j > 0 ==> path@ == joined(source@, sep_join(vs.take(j as int))),
            forall|k: int|
                1 <= k <= j ==> !#[trigger] add_walk_stops_at(
                    joined(source@, sep_join(vs.take(k))),
                    home_dir@,
                    rules@,
                ),
        decreases parts@.len() - j,
    {
        let next = join_path(path.as_str(), parts[j].as_str());
        let ghost q = vs.take(j + 1);
        proof {
            lemma_walk_next(source@, vs, j as int, path@, parts@[j as int]@);
            lemma_strip_below(source@, home_dir@, q);
        }
        let is_dir = j < parts.len() - 1;
        match add_entry_step(next.as_str(), is_dir, home_dir, repo_dir, rules) {
            Ok(EntryStep::Descend) => {
                path = next;
                j = j + 1;
            },
            Ok(EntryStep::CopyTo(t)) => {
                proof {
                    assert(q =~= vs);
                    assert forall|k: int|
                        1 <= k <= vs.len() implies !#[trigger] add_walk_stops_at(
                            joined(source@, sep_join(vs.take(k))),
                            home_dir@,
                            rules@,
                        ) by {
                        if k == j + 1 {
                            assert(vs.take(k) == q);
                        }
                    }
                }
                return Some(t);
            },
            _ => {
                proof {
                    assert(add_walk_stops_at(joined(source@, sep_join(vs.take(j + 1))), home_dir@, rules@));
                }
                return None;
            },
        }
    }
}

/// The copy unit of a tracked file at `relative` when re-adding by
/// directory: a file directly in HOME is its own unit; under `.config` the
/// unit is `.config/<app>`, never `.config` itself; anywhere else it is the
/// file's parent directory.
pub open spec fn dir_unit(relative: Seq<char>) -> Seq<char> {
    let pc = path_components(relative);
    if pc.len() == 1 {
        relative
    } else if pc.len() >= 2 && pc[0] == config_dir_name() {
        joined(pc[0], pc[1])
    } else {
        match parent_of(relative) {
            Some(p) => p,
            None => relative,
        }
    }
}

/// Determines the copy unit for a file path when `--dirs` is active
/// (`dir_unit`).
pub fn effective_dir_unit(relative: &str) -> (r: String)
    ensures
        r@ == dir_unit(relative@),
{
    let comps = components_of(relative);
    if comps.len() == 1 {
        return relative.to_owned();
    }
    proof {
        reveal_strlit(".config");
    }
    assert(".config"@ =~= config_dir_name());
    if comps.len() >= 2 && str_eq(comps[0].as_str(), ".config") {
        join_path(comps[0].as_str(), comps[1].as_str())
    } else {
        match parent(relative) {
            Some(p) => p,
            None => relative.to_owned(),
        }
    }
}

/// What becomes of one repository entry when collecting what to re-add.
pub enum UnitStep {
    /// The repository's own files, or an ignored entry: left out.
    Skip,
    /// A directory: its entries are visited in turn.
    Descend,
    /// A tracked file: the unit (path relative to the repository) to re-add.
    Unit(String),
}

/// The step for the repository entry `entry` (a directory when `is_dir`)
/// when collecting re-add units: internal and ignored entries are left out,
/// directories descended into, and a file gives its path relative to
/// `repo_dir`, or its `dir_unit` when `dirs`.
pub fn readd_entry_step(
    entry: &str,
    is_dir: bool,
    repo_dir: &str,
    dirs: bool,
    rules: &IgnoreRules,
) -> (r: Result<UnitStep, DotSyncError>)
    ensures
        is_internal(entry@) ==> r matches Ok(UnitStep::Skip),
        !is_internal(entry@) && stripped(entry@, repo_dir@) is None ==> (r matches Err(
            DotSyncError::RelativePath { path, base },
        ) && path@ == entry@ && base@ == repo_dir@),
        !is_internal(entry@) ==> (stripped(entry@, repo_dir@) matches Some(rel) ==> (r matches Ok(s)
            && if ignored_by(rules@, rel) {
            s is Skip
        } else if is_dir {
            s is Descend
        } else {
            s matches UnitStep::Unit(u) && u@ == (if dirs {
                dir_unit(rel)
            } else {
                rel
            })
        })),
{
    if is_internal_entry(entry) {
        return Ok(UnitStep::Skip);
    }
    match strip_path_prefix(entry, repo_dir) {
        Some(relative) => {
            if rules.is_ignored(relative.as_str()) {
                Ok(UnitStep::Skip)
            } else if is_dir {
                Ok(UnitStep::Descend)
            } else if dirs {
                Ok(UnitStep::Unit(effective_dir_unit(relative.as_str())))
            } else {
                Ok(UnitStep::Unit(relative))
            }
        },
        None => Err(DotSyncError::RelativePath { path: entry.to_owned(), base: repo_dir.to_owned() }),
    }
}

/// The re-add unit of the file found below `repo` through the plain names
/// `parts`: none when the walk stops at a directory on the way (`repo`
/// joined with the first names) or at the file itself; otherwise its path
/// relative to `repo`, or the `dir_unit` of that path when `dirs`.
pub open spec fn readd_unit_of(
    repo: Seq<char>,
    parts: Seq<Seq<char>>,
    dirs: bool,
    rules: Seq<(Seq<char>, bool)>,
) -> Option<Seq<char>> {
    if exists|j: int|
        1 <= j <= parts.len() && #[trigger] walk_stops_at(
            joined(repo, sep_join(parts.take(j))),
            repo,
            repo,
            rules,
        ) {
        None
    } else if dirs {
        Some(dir_unit(sep_join(parts)))
    } else {
        Some(sep_join(parts))
    }
}

/// The re-add unit of the file found below `repo_dir` through the names
/// `parts` (`readd_unit_of`): the walk is followed from `repo_dir` down, one
/// `readd_entry_step` per directory on the way and one for the file.
pub fn readd_file_unit(repo_dir: &str, parts: &Vec<String>, dirs: bool, rules: &IgnoreRules) -> (r:
    Option<String>)
    requires
        parts@.len() > 0,
        plain_names(views(parts@)),
    ensures
        r matches Some(u) ==> readd_unit_of(repo_dir@, views(parts@), dirs, rules@) == Some(u@),
        r is None ==> readd_unit_of(repo_dir@, views(parts@), dirs, rules@) is None,
{
    let ghost vs = views(parts@);
    let mut path = repo_dir.to_owned();
    let mut j: usize = 0;
    loop
        invariant
            j < parts@.len(),
            vs == views(parts@),
            plain_names(vs),
            j == 0 ==> path@ == repo_dir@,
            j > 0 ==> path@ == joined(repo_dir@, sep_join(vs.take(j as int))),
            forall|k: int|
                1 <= k <= j ==> !#[trigger] walk_stops_at(
                    joined(repo_dir@, sep_join(vs.take(k))),
                    repo_dir@,
                    repo_dir@,
                    rules@,
                ),
        decreases parts@.len() - j,
    {
        let next = join_path(path.as_str(), parts[j].as_str());
        let ghost q = vs.take(j + 1);
        proof {
            lemma_walk_next(repo_dir@, vs, j as int, path@, parts@[j as int]@);
            lemma_strip_joined(repo_dir@, q);
        }
        let is_dir = j < parts.len() - 1;
        match readd_entry_step(next.as_str(), is_dir, repo_dir, dirs, rules) {
            Ok(UnitStep::Descend) => {
                path = next;
                j = j + 1;
            },
            Ok(UnitStep::Unit(u)) => {
                proof {
                    assert(q =~= vs);
                    assert forall|k: int|
                        1 <= k <= vs.len() implies !#[trigger] walk_stops_at(
                            joined(repo_dir@, sep_join(vs.take(k))),
                            repo_dir@,
                            repo_dir@,
                            rules@,
                        ) by {
                        if k == j + 1 {
                            assert(vs.take(k) == q);
                        }
                    }
                }
                return Some(u);
            },
            _ => {
                proof {
                    assert(walk_stops_at(joined(repo_dir@, sep_join(vs.take(j + 1))), repo_dir@, repo_dir@, rules@));
                }
                return None;
            },
        }
    }
}

/// What re-adding does with one unit, given what is found at its source
/// under home.
pub enum UnitAction {
    /// The source is a symbolic link: warned about and left alone.
    SkipSymlink,
    /// Nothing is at the source: warned about and left alone.
    SkipMissing,
    /// The source is a directory: synchronized recursively (rsync).
    SyncDirectory,
    /// The source is a file: copied.
    CopyFile,
}

/// The action for a re-add unit whose source is a symbolic link
/// (`is_symlink`), exists (`source_exists`) and is a directory (`is_dir`):
/// links first, then missing sources, are skipped; directories are
/// synchronized and files copied.
pub fn readd_unit_action(is_symlink: bool, source_exists: bool, is_dir: bool) -> (a: UnitAction)
    ensures
        is_symlink ==> a is SkipSymlink,
        !is_symlink && !source_exists ==> a is SkipMissing,
        !is_symlink && source_exists && is_dir ==> a is SyncDirectory,
        !is_symlink && source_exists && !is_dir ==> a is CopyFile,
{
    if is_symlink {
        UnitAction::SkipSymlink
    } else if !source_exists {
        UnitAction::SkipMissing
    } else if is_dir {
        UnitAction::SyncDirectory
    } else {
        UnitAction::CopyFile
    }
}

/// Where a re-add unit is read from (under `home_dir`) and written to (under
/// `repo_dir`).
pub fn readd_paths(unit: &str, home_dir: &str, repo_dir: &str) -> (r: (String, String))
    ensures
        r.0@ == joined(home_dir@, unit@),
        r.1@ == joined(repo_dir@, unit@),
{
    (join_path(home_dir, unit), join_path(repo_dir, unit))
}

/// `add` keeps a file's place relative to home: a source at `home` joined
/// with a relative path `r` of plain names is taken as `r`, and when it is a
/// file that the rules do not ignore it is copied to `repo` joined with `r`.
pub proof fn lemma_add_keeps_relative_path(
    home: Seq<char>,
    repo: Seq<char>,
    parts: Seq<Seq<char>>,
    rules: Seq<(Seq<char>, bool)>,
    step: EntryStep,
)
    requires
        parts.len() > 0,
        plain_names(parts),
        !ignored_by(rules, sep_join(parts)),
        is_copy_step(step, rules, sep_join(parts), sep_join(parts), false, repo),
    ensures
        stripped(joined(home, sep_join(parts)), home) == Some(sep_join(parts)),
        step matches EntryStep::CopyTo(t) && t@ == joined(repo, sep_join(parts)),
{
    lemma_strip_joined(home, parts);
}

/// `apply` mirrors the repository onto the destination. Let the apply be
/// scoped to `origin`, the repository `root` joined with the plain names
/// `scope` (the whole repository when `scope` is empty), with the ignore
/// rules read from `root`. An entry at `origin` joined with plain names
/// `parts` is, relative to `origin`, those names, and relative to `root`,
/// `scope` followed by them. So the rules decide on its path from the
/// repository root, and a file that they do not ignore is copied to
/// `destination` joined with its path relative to `origin`.
pub proof fn lemma_apply_mirrors_relative_path(
    root: Seq<char>,
    scope: Seq<Seq<char>>,
    destination: Seq<char>,
    parts: Seq<Seq<char>>,
    rules: Seq<(Seq<char>, bool)>,
    is_dir: bool,
    step: EntryStep,
)
    requires
        parts.len() > 0,
        plain_names(scope),
        plain_names(parts),
        is_copy_step(step, rules, sep_join(scope + parts), sep_join(parts), is_dir, destination),
    ensures
        ({
            let origin = if scope.len() == 0 {
                root
            } else {
                joined(root, sep_join(scope))
            };
            let entry = joined(origin, sep_join(parts));
            &&& stripped(entry, origin) == Some(sep_join(parts))
            &&& stripped(entry, root) == Some(sep_join(scope + parts))
            &&& rule_path(entry, sep_join(parts), root) == sep_join(scope + parts)
        }),
        ignored_by(rules, sep_join(scope + parts)) <==> step is Ignored,
        !ignored_by(rules, sep_join(scope + parts)) && !is_dir ==> (step matches EntryStep::CopyTo(t)
            && t@ == joined(destination, sep_join(parts))),
{
    if scope.len() == 0 {
        assert(scope + parts =~= parts);
        lemma_strip_joined(root, parts);
    } else {
        let origin = joined(root, sep_join(scope));
        lemma_strip_joined(origin, parts);
        lemma_joined_twice(root, scope, parts);
        assert(plain_names(scope + parts)) by {
            assert forall|i: int| 0 <= i < (scope + parts).len() implies plain_name(
                #[trigger] (scope + parts)[i],
            ) by {
                if i < scope.len() {
                    assert((scope + parts)[i] == scope[i]);
                } else {
                    assert((scope + parts)[i] == parts[i - scope.len()]);
                }
            }
        }
        lemma_strip_joined(root, scope + parts);
    }
}

/// What `add` stores, `apply` puts back where it was. Adding the directory
/// `home` joined with the plain names `scope` stores the file found in it
/// through the plain names `parts`, when the rules let it through, at `repo`
/// joined with `scope` then `parts`: the very entry that applying the whole
/// repository onto `home` finds through those names. And that apply, when
/// its own walk lets the file through, copies it to the file's original
/// place.
pub proof fn lemma_add_then_apply(
    home: Seq<char>,
    repo: Seq<char>,
    scope: Seq<Seq<char>>,
    parts: Seq<Seq<char>>,
    rules: Seq<(Seq<char>, bool)>,
)
    requires
        scope.len() > 0,
        parts.len() > 0,
        plain_names(scope),
        plain_names(parts),
    ensures
        added_target(joined(home, sep_join(scope)), parts, home, repo, rules) is Some ==> added_target(
            joined(home, sep_join(scope)),
            parts,
            home,
            repo,
            rules,
        ) == Some(joined(repo, sep_join(scope + parts))),
        applied_target(repo, scope + parts, repo, home, rules) is Some ==> applied_target(
            repo,
            scope + parts,
            repo,
            home,
            rules,
        ) == Some(joined(joined(home, sep_join(scope)), sep_join(parts))),
{
    let all = scope + parts;
    assert(plain_names(all)) by {
        assert forall|i: int| 0 <= i < all.len() implies plain_name(#[trigger] all[i]) by {
            if i < scope.len() {
                assert(all[i] == scope[i]);
            } else {
                assert(all[i] == parts[i - scope.len()]);
            }
        }
    }
    lemma_joined_twice(home, scope, parts);
    lemma_strip_joined(home, all);
}

/// Whether `name` is `.git` or `.dotsyncignore`, spelled out.
pub open spec fn repository_file_name(name: Seq<char>) -> bool {
    name == seq!['.', 'g', 'i', 't'] || name == seq![
        '.',
        'd',
        'o',
        't',
        's',
        'y',
        'n',
        'c',
        'i',
        'g',
        'n',
        'o',
        'r',
        'e',
    ]
}

/// The path `base` joined with the first `k` of the plain names `parts`: its
/// path relative to `base` is those names joined with `/`, its file name is
/// the `k`-th name, and it is one of the repository's own files exactly when
/// that name is `.git` or `.dotsyncignore`.
pub proof fn lemma_walk_path(base: Seq<char>, parts: Seq<Seq<char>>, k: int)
    requires
        plain_names(parts),
        1 <= k <= parts.len(),
    ensures
        stripped(joined(base, sep_join(parts.take(k))), base) == Some(sep_join(parts.take(k))),
        parts[k - 1] != crate::paths::parent_dir() ==> file_name_of(
            joined(base, sep_join(parts.take(k))),
        ) == Some(parts[k - 1]),
        is_internal(joined(base, sep_join(parts.take(k)))) <==> repository_file_name(parts[k - 1]),
{
    let q = parts.take(k);
    assert(plain_names(q)) by {
        assert forall|i: int| 0 <= i < q.len() implies plain_name(#[trigger] q[i]) by {
            assert(q[i] == parts[i]);
        }
    }
    lemma_strip_joined(base, q);
    lemma_components_of_joined(base, q);
    let pc = path_components(base) + q;
    assert(pc.last() == parts[k - 1]);
    let n = parts[k - 1];
    assert(plain_name(q[k - 1]));
    assert(n != crate::paths::root_dir()) by {
        if n == crate::paths::root_dir() {
            assert(n.contains('/')) by {
                assert(n[0] == '/');
            }
        }
    }
    assert(n != crate::paths::cur_dir());
    if n == crate::paths::parent_dir() {
        assert(n.len() == 2);
        assert(!crate::paths::is_normal(pc.last()));
    } else {
        assert(crate::paths::is_normal(pc.last()));
    }
    assert(git_name() =~= seq!['.', 'g', 'i', 't']);
    assert(ignore_file_name() =~= seq![
        '.',
        'd',
        'o',
        't',
        's',
        'y',
        'n',
        'c',
        'i',
        'g',
        'n',
        'o',
        'r',
        'e',
    ]);
}

/// `apply` never copies the repository's own files, nor anything below
/// them: when one of the names on the way to a file (or the file's own) is
/// `.git` or `.dotsyncignore`, the file is not copied, whatever the origin
/// and the rules directory.
pub proof fn lemma_apply_skips_repository_files(
    origin: Seq<char>,
    parts: Seq<Seq<char>>,
    rules_dir: Seq<char>,
    destination: Seq<char>,
    rules: Seq<(Seq<char>, bool)>,
    k: int,
)
    requires
        plain_names(parts),
        1 <= k <= parts.len(),
        repository_file_name(parts[k - 1]),
    ensures
        applied_target(origin, parts, rules_dir, destination, rules) is None,
{
    lemma_walk_path(origin, parts, k);
    assert(walk_stops_at(joined(origin, sep_join(parts.take(k))), origin, rules_dir, rules));
}

/// `apply` tests the rules on paths from the rules directory: when the path
/// relative to `rules_dir` of the file or of a directory on the way is one
/// the rules ignore, the file is not copied; and for a path outside
/// `rules_dir`, the same holds of its path relative to `origin`.
pub proof fn lemma_apply_skips_ignored(
    origin: Seq<char>,
    parts: Seq<Seq<char>>,
    rules_dir: Seq<char>,
    destination: Seq<char>,
    rules: Seq<(Seq<char>, bool)>,
    k: int,
)
    requires
        plain_names(parts),
        1 <= k <= parts.len(),
        match stripped(joined(origin, sep_join(parts.take(k))), rules_dir) {
            Some(key) => ignored_by(rules, key),
            None => ignored_by(rules, sep_join(parts.take(k))),
        },
    ensures
        applied_target(origin, parts, rules_dir, destination, rules) is None,
{
    lemma_walk_path(origin, parts, k);
    assert(walk_stops_at(joined(origin, sep_join(parts.take(k))), origin, rules_dir, rules));
}

/// `apply` copies every other file: when no name on the way to a file is
/// `.git` or `.dotsyncignore` and the rules ignore none of the paths on the
/// way (each taken relative to `rules_dir`, or to `origin` when outside
/// `rules_dir`), the file is copied to `destination` joined with its names.
pub proof fn lemma_apply_copies_the_rest(
    origin: Seq<char>,
    parts: Seq<Seq<char>>,
    rules_dir: Seq<char>,
    destination: Seq<char>,
    rules: Seq<(Seq<char>, bool)>,
)
    requires
        plain_names(parts),
        parts.len() > 0,
        forall|k: int| 1 <= k <= parts.len() ==> !repository_file_name(#[trigger] parts[k - 1]),
        forall|k: int|
            1 <= k <= parts.len() ==> match stripped(
                #[trigger] joined(origin, sep_join(parts.take(k))),
                rules_dir,
            ) {
                Some(key) => !ignored_by(rules, key),
                None => !ignored_by(rules, sep_join(parts.take(k))),
            },
    ensures
        applied_target(origin, parts, rules_dir, destination, rules) == Some(
            joined(destination, sep_join(parts)),
        ),
{
    assert forall|j: int| 1 <= j <= parts.len() implies !#[trigger] walk_stops_at(
        joined(origin, sep_join(parts.take(j))),
        origin,
        rules_dir,
        rules,
    ) by {
        lemma_walk_path(origin, parts, j);
        assert(!repository_file_name(parts[j - 1]));
    }
}

/// `add` tests the rules on paths from home: when the path relative to
/// `home` of the file or of a directory on the way is one the rules ignore,
/// the file is not copied.
pub proof fn lemma_add_skips_ignored(
    source: Seq<char>,
    parts: Seq<Seq<char>>,
    home: Seq<char>,
    repo: Seq<char>,
    rules: Seq<(Seq<char>, bool)>,
    k: int,
    relative: Seq<char>,
)
    requires
        1 <= k <= parts.len(),
        stripped(joined(source, sep_join(parts.take(k))), home) == Some(relative),
        ignored_by(rules, relative),
    ensures
        added_target(source, parts, home, repo, rules) is None,
{
    assert(add_walk_stops_at(joined(source, sep_join(parts.take(k))), home, rules));
}

/// `add` copies every other file: for an added directory `source` under
/// `home`, when the rules ignore none of the paths relative to `home` on the
/// way to a file, the file is copied to `repo` joined with its path
/// relative to `home`.
pub proof fn lemma_add_copies_the_rest(
    source: Seq<char>,
    parts: Seq<Seq<char>>,
    home: Seq<char>,
    repo: Seq<char>,
    rules: Seq<(Seq<char>, bool)>,
)
    requires
        plain_names(parts),
        parts.len() > 0,
        stripped(source, home) is Some,
        forall|k: int|
            1 <= k <= parts.len() ==> match stripped(
                #[trigger] joined(source, sep_join(parts.take(k))),
                home,
            ) {
                Some(r) => !ignored_by(rules, r),
                None => true,
            },
    ensures
        stripped(joined(source, sep_join(parts)), home) matches Some(rel) && added_target(
            source,
            parts,
            home,
            repo,
            rules,
        ) == Some(joined(repo, rel)),
{
    lemma_strip_below(source, home, parts);
    assert(parts.take(parts.len() as int) =~= parts);
    assert forall|j: int| 1 <= j <= parts.len() implies !#[trigger] add_walk_stops_at(
        joined(source, sep_join(parts.take(j))),
        home,
        rules,
    ) by {
        assert(match stripped(joined(source, sep_join(parts.take(j))), home) {
            Some(r) => !ignored_by(rules, r),
            None => true,
        });
    }
}

/// `readd` leaves out what `apply` would: a file is not re-added when one of
/// the names on the way to it (or its own) is `.git` or `.dotsyncignore`,
/// or when the rules ignore its path relative to the repository or that of
/// a directory on the way.
pub proof fn lemma_readd_skips(
    repo: Seq<char>,
    parts: Seq<Seq<char>>,
    dirs: bool,
    rules: Seq<(Seq<char>, bool)>,
    k: int,
)
    requires
        plain_names(parts),
        1 <= k <= parts.len(),
        repository_file_name(parts[k - 1]) || ignored_by(rules, sep_join(parts.take(k))),
    ensures
        readd_unit_of(repo, parts, dirs, rules) is None,
{
    lemma_walk_path(repo, parts, k);
    assert(walk_stops_at(joined(repo, sep_join(parts.take(k))), repo, repo, rules));
}

/// `readd` re-adds every other file: when no name on the way is `.git` or
/// `.dotsyncignore` and the rules ignore none of the paths on the way, the
/// unit is the file's path relative to the repository, or its directory
/// unit when `dirs`.
pub proof fn lemma_readd_keeps_the_rest(
    repo: Seq<char>,
    parts: Seq<Seq<char>>,
    dirs: bool,
    rules: Seq<(Seq<char>, bool)>,
)
    requires
        plain_names(parts),
        parts.len() > 0,
        forall|k: int|
            1 <= k <= parts.len() ==> !repository_file_name(#[trigger] parts[k - 1]) && !ignored_by(
                rules,
                sep_join(parts.take(k)),
            ),
    ensures
        readd_unit_of(repo, parts, dirs, rules) == Some(
            if dirs {
                dir_unit(sep_join(parts))
            } else {
                sep_join(parts)
            },
        ),
{
    assert forall|j: int| 1 <= j <= parts.len() implies !#[trigger] walk_stops_at(
        joined(repo, sep_join(parts.take(j))),
        repo,
        repo,
        rules,
    ) by {
        lemma_walk_path(repo, parts, j);
        assert(!repository_file_name(parts[j - 1]));
    }
}

/// The re-add unit of a tracked file is the file itself or one of its
/// ancestors: its components are a non-empty prefix of the file's; and for
/// a file below the top level the unit is never `.config` itself.
pub proof fn lemma_dir_unit_is_ancestor(parts: Seq<Seq<char>>)
    requires
        parts.len() > 0,
        plain_names(parts),
    ensures
        ({
            let u = path_components(dir_unit(sep_join(parts)));
            &&& 0 < u.len() <= parts.len()
            &&& u == parts.subrange(0, u.len() as int)
            &&& parts.len() >= 2 ==> u != seq![config_dir_name()]
        }),
{
    let rel = sep_join(parts);
    lemma_components_of_sep_join(parts);
    if parts.len() == 1 {
        assert(parts.subrange(0, 1) =~= parts);
    } else if parts[0] == config_dir_name() {
        let two = parts.subrange(0, 2);
        assert(plain_names(two)) by {
            assert forall|i: int| 0 <= i < two.len() implies plain_name(#[trigger] two[i]) by {
                assert(two[i] == parts[i]);
            }
        }
        assert(seq![parts[0]] + seq![parts[1]] =~= two);
        assert(plain_names(seq![parts[1]])) by {
            assert forall|i: int| 0 <= i < 1 implies plain_name(#[trigger] seq![parts[1]][i]) by {
                assert(seq![parts[1]][i] == parts[1]);
            }
        }
        assert(sep_join(seq![parts[1]]) == parts[1]);
        lemma_components_of_joined(parts[0], seq![parts[1]]);
        assert(plain_names(seq![parts[0]])) by {
            assert forall|i: int| 0 <= i < 1 implies plain_name(#[trigger] seq![parts[0]][i]) by {
                assert(seq![parts[0]][i] == parts[0]);
            }
        }
        assert(sep_join(seq![parts[0]]) == parts[0]);
        lemma_components_of_sep_join(seq![parts[0]]);
        assert(path_components(joined(parts[0], parts[1])) =~= two);
        assert(two.len() == 2);
    } else {
        let init = parts.drop_last();
        assert(plain_names(init)) by {
            assert forall|i: int| 0 <= i < init.len() implies plain_name(#[trigger] init[i]) by {
                assert(init[i] == parts[i]);
            }
        }
        assert(plain_name(parts[parts.len() - 1]));
        assert(parts.last() != crate::paths::root_dir()) by {
            if parts.last() == crate::paths::root_dir() {
                assert(parts.last().contains('/')) by {
                    assert(parts.last()[0] == '/');
                }
            }
        }
        lemma_join_parts_plain(init);
        lemma_components_of_sep_join(init);
        assert(parts.subrange(0, init.len() as int) =~= init);
        assert(init[0] == parts[0]);
    }
}

/// `s` without every leading occurrence of `p` (`str::trim_start_matches`
/// with a text pattern).
pub open spec fn strip_leading(s: Seq<char>, p: Seq<char>) -> Seq<char>
    decreases s.len(),
{
    if p.len() > 0 && has_prefix(s, p) {
        strip_leading(s.skip(p.len() as int), p)
    } else {
        s
    }
}

/// The lines of `s` as `str::lines` gives them: split at `\n`, a `\r`
/// before a `\n` dropped, and no final empty line.
pub open spec fn text_lines(s: Seq<char>) -> Seq<Seq<char>> {
    let pieces = split_on(s, '\n');
    let ended = pieces.drop_last().map_values(|l: Seq<char>| chomp_cr(l));
    if pieces.last().len() > 0 {
        ended.push(pieces.last())
    } else {
        ended
    }
}

/// `l` without a final `\r`.
pub open spec fn chomp_cr(l: Seq<char>) -> Seq<char> {
    if l.len() > 0 && l.last() == '\r' {
        l.drop_last()
    } else {
        l
    }
}

/// The report line for the rsync output line `l` into `dst_dir`.
pub open spec fn report_entry(dst_dir: Seq<char>, l: Seq<char>) -> Seq<char> {
    dst_dir + seq!['/'] + strip_leading(l, copied_prefix())
}

/// The prefix that the rsync output format puts before each file.
pub open spec fn copied_prefix() -> Seq<char> {
    "Copied: "@
}

/// The source argument of rsync for `src_dir`: with a trailing `/`, so
/// that the contents of `src_dir` are copied into the destination.
pub fn rsync_source(src_dir: &str) -> (r: String)
    ensures
        r@ == src_dir@ + seq!['/'],
{
    proof {
        reveal_strlit("/");
    }
    str_concat(src_dir, "/")
}

/// The rsync options: archive, skip symbolic links, report each copied file;
/// and, when `only_existing`, never create new files.
pub fn rsync_options(only_existing: bool) -> (r: Vec<String>)
    ensures
        views(r@) == if only_existing {
            seq!["-a"@, "--no-links"@, "--out-format=Copied: %n"@, "--existing"@]
        } else {
            seq!["-a"@, "--no-links"@, "--out-format=Copied: %n"@]
        },
{
    let mut r: Vec<String> = Vec::new();
    r.push("-a".to_owned());
    r.push("--no-links".to_owned());
    r.push("--out-format=Copied: %n".to_owned());
    if only_existing {
        r.push("--existing".to_owned());
    }
    if only_existing {
        assert(views(r@) =~= seq!["-a"@, "--no-links"@, "--out-format=Copied: %n"@, "--existing"@]);
    } else {
        assert(views(r@) =~= seq!["-a"@, "--no-links"@, "--out-format=Copied: %n"@]);
    }
    r
}

/// The command line reported when rsync fails.
pub fn rsync_command_text(src_with_slash: &str, dst_dir: &str) -> (r: String)
    ensures
        r@ == "rsync -a --no-links "@ + src_with_slash@ + " "@ + dst_dir@,
{
    let a = str_concat("rsync -a --no-links ", src_with_slash);
    let b = str_concat(a.as_str(), " ");
    str_concat(b.as_str(), dst_dir)
}

/// The text of an exit status: its code, or `unknown` when there is none.
pub fn exit_status_text(code: Option<i32>) -> (r: String)
    ensures
        match code {
            Some(c) => vstd::string::to_string_from_display_ensures::<i32>(&c, r),
            None => r@ == "unknown"@,
        },
{
    match code {
        Some(c) => c.to_string(),
        None => "unknown".to_owned(),
    }
}

/// `line` without every leading `Copied: `.
fn strip_copied(line: &str) -> (r: String)
    ensures
        r@ == strip_leading(line@, copied_prefix()),
{
    let cs = chars_of(line);
    let p = chars_of("Copied: ");
    proof {
        reveal_strlit("Copied: ");
    }
    let mut k: usize = 0;
    assert(cs@.subrange(0, cs@.len() as int) =~= cs@);
    while k < cs.len() && range_has_prefix(&cs, k, cs.len(), &p)
        invariant
            k <= cs@.len(),
            cs@ == line@,
            p@ == copied_prefix(),
            p@.len() == 8,
            strip_leading(line@, copied_prefix()) == strip_leading(cs@.subrange(k as int, cs@.len() as int), copied_prefix()),
        decreases cs.len() - k,
    {
        assert(cs@.subrange(k as int, cs@.len() as int).skip(8) =~= cs@.subrange(k + 8, cs@.len() as int));
        k = k + 8;
    }
    if k == cs.len() {
        assert(!has_prefix(cs@.subrange(k as int, cs@.len() as int), copied_prefix()));
    }
    string_of(&cs, k, cs.len())
}

/// What verbose re-adding by directory reports for rsync's output `output`
/// into `dst_dir`: for each line of the output, `dst_dir`, `/` and the
/// line without its leading `Copied: `.
pub fn rsync_report_lines(dst_dir: &str, output: &str) -> (r: Vec<String>)
    ensures
        views(r@) == text_lines(output@).map_values(|l: Seq<char>| report_entry(dst_dir@, l)),
{
    let pieces = pieces_of(output, '\n');
    let ghost ps = split_on(output@, '\n');
    proof {
        crate::text::lemma_split_on_nonempty(output@, '\n');
    }
    let mut r: Vec<String> = Vec::new();
    let mut i: usize = 0;
    let n = pieces.len() - 1;
    let prefix = rsync_source(dst_dir);
    assert(views(r@) =~= ps.take(0).map_values(|l: Seq<char>| chomp_cr(l)).map_values(
        |l: Seq<char>| report_entry(dst_dir@, l),
    ));
    while i < n
        invariant
            n + 1 == pieces@.len(),
            i <= n,
            views(pieces@) == ps,
            prefix@ == dst_dir@ + seq!['/'],
            views(r@) == ps.take(i as int).map_values(|l: Seq<char>| chomp_cr(l)).map_values(
                |l: Seq<char>| report_entry(dst_dir@, l),
            ),
        decreases n - i,
    {
        let lc = chars_of(pieces[i].as_str());
        assert(lc@ == ps[i as int]);
        let line = if lc.len() > 0 && lc[lc.len() - 1] == '\r' {
            assert(lc@.subrange(0, lc@.len() - 1) =~= lc@.drop_last());
            string_of(&lc, 0, lc.len() - 1)
        } else {
            assert(lc@.subrange(0, lc@.len() as int) =~= lc@);
            string_of(&lc, 0, lc.len())
        };
        assert(line@ == chomp_cr(ps[i as int]));
        let stripped_line = strip_copied(line.as_str());
        let entry = str_concat(prefix.as_str(), stripped_line.as_str());
        let ghost before = views(r@);
        r.push(entry);
        assert(views(r@) =~= before.push(report_entry(dst_dir@, chomp_cr(ps[i as int]))));
        assert(ps.take(i + 1).map_values(|l: Seq<char>| chomp_cr(l)).map_values(
            |l: Seq<char>| report_entry(dst_dir@, l),
        ) =~= ps.take(i as int).map_values(|l: Seq<char>| chomp_cr(l)).map_values(
            |l: Seq<char>| report_entry(dst_dir@, l),
        ).push(report_entry(dst_dir@, chomp_cr(ps[i as int]))));
        i = i + 1;
    }
    assert(ps.take(n as int) =~= ps.drop_last());
    let last = pieces[n].as_str();
    assert(last@ == ps.last());
    if chars_of(last).len() > 0 {
        let stripped_line = strip_copied(last);
        let entry = str_concat(prefix.as_str(), stripped_line.as_str());
        let ghost before = views(r@);
        r.push(entry);
        assert(views(r@) =~= before.push(report_entry(dst_dir@, ps.last())));
        assert(ps.drop_last().map_values(|l: Seq<char>| chomp_cr(l)).push(ps.last()).map_values(
            |l: Seq<char>| report_entry(dst_dir@, l),
        ) =~= ps.drop_last().map_values(|l: Seq<char>| chomp_cr(l)).map_values(
            |l: Seq<char>| report_entry(dst_dir@, l),
        ).push(report_entry(dst_dir@, ps.last())));
    }
    r
}

} // verus!
