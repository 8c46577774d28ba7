//! `.dotsyncignore` rules: how a pattern line becomes a glob, and which
//! relative paths a list of rules ignores (gitignore-style, last match wins).
//! Glob compilation and matching are done by `globset`.
use vstd::prelude::*;

use globset::{GlobBuilder, GlobSet, GlobSetBuilder};

use crate::paths::lemma_split_on_concat;
use crate::text::{
    chars_of, has_prefix, is_ws, lemma_split_on_without_sep, lines_of, range_contains,
    range_has_prefix, split_lines, split_on, str_concat, string_of, trim, trim_bounds, trim_end,
    trim_end_char, trim_start,
};

verus! {

#[verifier::external_type_specification]
#[verifier::external_body]
pub struct ExGlobSet(globset::GlobSet);

#[verifier::external_type_specification]
#[verifier::external_body]
pub struct ExGlobError(globset::Error);

/// The longest glob, in characters, that this library hands to `globset`.
pub const MAX_GLOB_CHARS: usize = 0x1000_0000;

/// Whether the glob `glob`, built by `GlobBuilder` with `literal_separator`
/// (the other options at their defaults), parses.
pub uninterp spec fn glob_parses(glob: Seq<char>, literal_separator: bool) -> bool;

/// Whether the glob `glob`, built by `GlobBuilder` with `literal_separator`
/// (the other options at their defaults), parses and a `GlobSet` of it alone
/// builds.
pub uninterp spec fn glob_compiles(glob: Seq<char>, literal_separator: bool) -> bool;

/// The globs that the set `set` was built from, in the order they were
/// added: each one's text and its `literal_separator` option.
pub uninterp spec fn set_globs(set: GlobSet) -> Seq<(Seq<char>, bool)>;

/// Whether the glob built from `glob` with `literal_separator` (the other
/// options at their defaults) matches the path `path`.
pub uninterp spec fn glob_accepts(glob: Seq<char>, literal_separator: bool, path: Seq<char>) -> bool;

/// What compiling a glob gave.
enum GlobOutcome {
    /// The glob parsed and the set of it alone built.
    Compiled(GlobSet),
    /// The glob does not parse.
    Unparsed(globset::Error),
    /// The glob parsed but its regular expression was refused (past the size
    /// limit of `globset`).
    RegexRefused(globset::Error),
}

/// Builds the glob `glob` with `globset::GlobBuilder` (`new`,
/// `literal_separator`, `build`) and a `globset::GlobSet` of it alone
/// (`GlobSetBuilder::new`, `add`, `build`), telling apart the failure of the
/// first step (the glob does not parse) from that of the second (its regular
/// expression is past the size limit of `globset`). The set holds this one
/// glob.
///
/// The bound on the glob's length keeps the literal prefix or suffix that
/// `GlobSet` hands to `AhoCorasick::new` far below the pattern length and
/// state count that `aho-corasick` accepts; `GlobSet` unwraps that result.
#[verifier::external_body]
fn compile_glob(glob: &str, literal_separator: bool) -> (r: GlobOutcome)
    requires
        glob@.len() <= MAX_GLOB_CHARS,
    ensures
        r is Compiled <==> glob_compiles(glob@, literal_separator),
        r is Unparsed <==> !glob_parses(glob@, literal_separator),
        r matches GlobOutcome::Compiled(set) ==> set_globs(set) == seq![(glob@, literal_separator)],
{
    match GlobBuilder::new(glob).literal_separator(literal_separator).build() {
        Ok(g) => {
            let mut builder = GlobSetBuilder::new();
            builder.add(g);
            match builder.build() {
                Ok(set) => GlobOutcome::Compiled(set),
                Err(e) => GlobOutcome::RegexRefused(e),
            }
        },
        Err(e) => GlobOutcome::Unparsed(e),
    }
}

/// Calls `globset::GlobSet::is_match`: whether some glob of `set` matches
/// the path `path`.
#[verifier::external_body]
fn set_is_match(set: &GlobSet, path: &str) -> (r: bool)
    ensures
        r == (exists|i: int| 0 <= i < set_globs(*set).len() && #[trigger] glob_accepts(set_globs(*set)[i].0, set_globs(*set)[i].1, path@)),
{
    set.is_match(path)
}

/// The comment header of a freshly scaffolded `.dotsyncignore`.
pub const IGNORE_FILE_HEADER: &'static str = "# .dotsyncignore \u{2014} paths that dotsync will never copy or apply.\n# Patterns follow gitignore semantics:\n#   - No slash \u{2192} matches name at any depth        (.DS_Store, *.log)\n#   - With slash \u{2192} relative to the repo root      (.config/nvim/sessions/)\n#   - Leading /  \u{2192} anchored to root               (/.zshrc.bak)\n#   - Prefix !   \u{2192} negate a previous pattern      (!important.log)\n#   - Lines starting with # are comments\n";

/// The prefix `**/` that makes a glob match at any depth.
pub open spec fn any_depth() -> Seq<char> {
    seq!['*', '*', '/']
}

/// The glob that a raw `.dotsyncignore` pattern stands for:
/// trailing `/` are dropped; then a pattern that starts with `**/` is kept, a
/// leading `/` (anchored to the root) is removed, a pattern without `/` gets
/// `**/` in front (any depth), and any other pattern is kept (relative to the
/// root).
pub open spec fn normalized_pattern(pattern: Seq<char>) -> Seq<char> {
    let p = trim_end_char(pattern, '/');
    if has_prefix(p, any_depth()) {
        p
    } else if p.len() > 0 && p[0] == '/' {
        p.drop_first()
    } else if !p.contains('/') {
        any_depth() + p
    } else {
        p
    }
}

/// Turns a raw pattern line into the glob that `globset` compiles
/// (`normalized_pattern`).
pub fn normalize_pattern(pattern: &str) -> (r: String)
    ensures
        r@ == normalized_pattern(pattern@),
        r@.len() <= pattern@.len() + 3,
{
    let cs = chars_of(pattern);
    let mut end = cs.len();
    assert(cs@.subrange(0, cs@.len() as int) =~= cs@);
    while end > 0 && cs[end - 1] == '/'
        invariant
            end <= cs@.len(),
            cs@ == pattern@,
            trim_end_char(pattern@, '/') == trim_end_char(cs@.subrange(0, end as int), '/'),
        decreases end,
    {
        assert(cs@.subrange(0, end as int).drop_last() =~= cs@.subrange(0, end - 1));
        end = end - 1;
    }
    assert(cs@.subrange(0, cs@.len() as int) =~= cs@);
    let ghost p = cs@.subrange(0, end as int);
    assert(trim_end_char(p, '/') == p);
    let prefix: Vec<char> = vec!['*', '*', '/'];
    assert(prefix@ =~= any_depth());
    if range_has_prefix(&cs, 0, end, &prefix) {
        string_of(&cs, 0, end)
    } else if end > 0 && cs[0] == '/' {
        assert(p.drop_first() =~= cs@.subrange(1, end as int));
        string_of(&cs, 1, end)
    } else if !range_contains(&cs, 0, end, '/') {
        let rest = string_of(&cs, 0, end);
        proof {
            reveal_strlit("**/");
        }
        assert("**/"@ =~= any_depth());
        str_concat("**/", rest.as_str())
    } else {
        string_of(&cs, 0, end)
    }
}

/// One compiled rule: the glob it was compiled from, whether it was written
/// with `!`, and the one-glob set that matches it.
struct IgnoreRule {
    glob: String,
    negated: bool,
    set: GlobSet,
}

/// The rules of a `.dotsyncignore` file, in file order.
pub struct IgnoreRules {
    rules: Vec<IgnoreRule>,
}

/// A pattern line whose glob `globset` refused, with the raw pattern and the
/// error `globset` gave.
pub struct InvalidPattern {
    pub raw: String,
    pub error: globset::Error,
}

/// Whether `rules` (glob, negated) ignore `path`: the last rule whose glob
/// accepts the path decides, a negated one un-ignoring it; a path that no rule
/// accepts is not ignored.
pub open spec fn ignored_by(rules: Seq<(Seq<char>, bool)>, path: Seq<char>) -> bool
    decreases rules.len(),
{
    if rules.len() == 0 {
        false
    } else if glob_accepts(rules.last().0, true, path) {
        !rules.last().1
    } else {
        ignored_by(rules.drop_last(), path)
    }
}

/// What a line of a `.dotsyncignore` file holds once trimmed: nothing (a
/// blank line or a `#` comment), or a raw pattern and whether a leading `!`
/// negates it.
pub open spec fn ignore_line_entry(line: Seq<char>) -> Option<(Seq<char>, bool)> {
    let t = trim(line);
    if t.len() == 0 || t[0] == '#' {
        None
    } else if t[0] == '!' {
        Some((t.drop_first(), true))
    } else {
        Some((t, false))
    }
}

/// What a line of a `.dotsyncignore` file holds (`ignore_line_entry`): the
/// raw pattern and whether it is negated, or nothing for a blank line or a
/// comment.
pub fn parse_ignore_line(line: &str) -> (r: Option<(String, bool)>)
    ensures
        match ignore_line_entry(line@) {
            Some((raw, negated)) => r matches Some((s, n)) && s@ == raw && n == negated,
            None => r is None,
        },
        r matches Some((s, n)) ==> s@.len() <= line@.len(),
{
    let lc = chars_of(line);
    let (a, b) = trim_bounds(&lc, 0, lc.len());
    assert(lc@.subrange(0, lc@.len() as int) =~= lc@);
    let ghost t = lc@.subrange(a as int, b as int);
    if a == b || lc[a] == '#' {
        return None;
    }
    if lc[a] == '!' {
        assert(t.drop_first() =~= lc@.subrange(a + 1, b as int));
        Some((string_of(&lc, a + 1, b), true))
    } else {
        Some((string_of(&lc, a, b), false))
    }
}

/// Whether every line of `content` is short enough for its pattern to be
/// compiled: with the `**/` that normalizing may put in front, it stays within
/// `MAX_GLOB_CHARS` characters.
pub open spec fn lines_fit(content: Seq<char>) -> bool {
    forall|i: int|
        0 <= i < split_lines(content).len() ==> #[trigger] split_lines(content)[i].len() + 3
            <= MAX_GLOB_CHARS
}

/// Whether the glob of the raw pattern `raw`, once normalized, compiles
/// whenever it parses: its regular expression is not past the size limit of
/// `globset`.
pub open spec fn pattern_compiles(raw: Seq<char>) -> bool {
    glob_parses(normalized_pattern(raw), true) ==> glob_compiles(normalized_pattern(raw), true)
}

/// Whether every pattern line of `content` compiles whenever it parses
/// (`pattern_compiles`).
pub open spec fn patterns_compile(content: Seq<char>) -> bool {
    forall|i: int|
        0 <= i < split_lines(content).len() ==> match ignore_line_entry(
            #[trigger] split_lines(content)[i],
        ) {
            Some((raw, negated)) => pattern_compiles(raw),
            None => true,
        }
}

/// Whether every line of `content` is short enough for its pattern to be
/// compiled (`lines_fit`).
pub fn pattern_lines_fit(content: &str) -> (r: bool)
    ensures
        r == lines_fit(content@),
{
    let lines = lines_of(content);
    let ghost ls = split_lines(content@);
    let mut i: usize = 0;
    while i < lines.len()
        invariant
            i <= lines@.len(),
            lines@.map_values(|x: String| x@) == ls,
            ls == split_lines(content@),
            forall|k: int| 0 <= k < i ==> #[trigger] ls[k].len() + 3 <= MAX_GLOB_CHARS,
        decreases lines.len() - i,
    {
        assert(ls[i as int] == lines@[i as int]@);
        let n = chars_of(lines[i].as_str()).len();
        if n > MAX_GLOB_CHARS - 3 {
            return false;
        }
        i = i + 1;
    }
    true
}

/// The rules that `lines` give, in order: each pattern line's normalized glob
/// with its negation, for the globs that `globset` builds.
pub open spec fn rules_of_lines(lines: Seq<Seq<char>>) -> Seq<(Seq<char>, bool)>
    decreases lines.len(),
{
    if lines.len() == 0 {
        Seq::empty()
    } else {
        let prev = rules_of_lines(lines.drop_last());
        match ignore_line_entry(lines.last()) {
            Some((raw, negated)) => if glob_compiles(normalized_pattern(raw), true) {
                prev.push((normalized_pattern(raw), negated))
            } else {
                prev
            },
            None => prev,
        }
    }
}

/// The raw patterns of `lines` whose normalized glob `globset` refuses, in order.
pub open spec fn rejected_of_lines(lines: Seq<Seq<char>>) -> Seq<Seq<char>>
    decreases lines.len(),
{
    if lines.len() == 0 {
        Seq::empty()
    } else {
        let prev = rejected_of_lines(lines.drop_last());
        match ignore_line_entry(lines.last()) {
            Some((raw, negated)) => if glob_compiles(normalized_pattern(raw), true) {
                prev
            } else {
                prev.push(raw)
            },
            None => prev,
        }
    }
}

/// Last match wins: `rules` ignore `path` exactly when some rule that is not
/// negated accepts it and no later rule accepts it.
pub proof fn lemma_last_match_wins(rules: Seq<(Seq<char>, bool)>, path: Seq<char>)
    ensures
        ignored_by(rules, path) <==> exists|i: int|
            0 <= i < rules.len() && #[trigger] glob_accepts(rules[i].0, true, path) && !rules[i].1
                && forall|j: int| i < j < rules.len() ==> !glob_accepts(rules[j].0, true, path),
    decreases rules.len(),
{
    if rules.len() > 0 {
        let prev = rules.drop_last();
        let n = rules.len() - 1;
        lemma_last_match_wins(prev, path);
        if glob_accepts(rules[n].0, true, path) {
            if ignored_by(rules, path) {
                assert(glob_accepts(rules[n].0, true, path));
            } else {
                assert forall|i: int|
                    0 <= i < rules.len() && #[trigger] glob_accepts(rules[i].0, true, path) && !rules[i].1
                        implies !(forall|j: int| i < j < rules.len() ==> !glob_accepts(rules[j].0, true, path)) by {
                    assert(i != n);
                    assert(i < n && !glob_accepts(rules[n].0, true, path) ==> false);
                }
            }
        } else {
            if ignored_by(rules, path) {
                let i = choose|i: int|
                    0 <= i < prev.len() && #[trigger] glob_accepts(prev[i].0, true, path) && !prev[i].1
                        && forall|j: int| i < j < prev.len() ==> !glob_accepts(prev[j].0, true, path);
                assert(rules[i] == prev[i]);
                assert forall|j: int| i < j < rules.len() implies !glob_accepts(rules[j].0, true, path) by {
                    if j < n {
                        assert(rules[j] == prev[j]);
                    }
                }
            } else {
                assert forall|i: int|
                    0 <= i < rules.len() && #[trigger] glob_accepts(rules[i].0, true, path) && !rules[i].1
                        implies !(forall|j: int| i < j < rules.len() ==> !glob_accepts(rules[j].0, true, path)) by {
                    assert(i < n);
                    assert(rules[i] == prev[i]);
                    if forall|j: int| i < j < rules.len() ==> !glob_accepts(rules[j].0, true, path) {
                        assert forall|j: int| i < j < prev.len() implies !glob_accepts(prev[j].0, true, path) by {
                            assert(rules[j] == prev[j]);
                        }
                    }
                }
            }
        }
    }
}

impl View for IgnoreRules {
    type V = Seq<(Seq<char>, bool)>;

    /// The rules as (glob, negated) pairs, in order.
    closed spec fn view(&self) -> Seq<(Seq<char>, bool)> {
        self.rules@.map_values(|r: IgnoreRule| (r.glob@, r.negated))
    }
}

impl IgnoreRules {
    /// Each rule's set holds just its glob, with a literal separator.
    #[verifier::type_invariant]
    closed spec fn sets_hold_globs(self) -> bool {
        forall|i: int|
            0 <= i < self.rules@.len() ==> #[trigger] set_globs(self.rules@[i].set) == seq![
                (self.rules@[i].glob@, true),
            ]
    }

    /// No rules: nothing is ignored.
    pub fn new() -> (r: Self)
        ensures
            r@ == Seq::<(Seq<char>, bool)>::empty(),
    {
        let r = IgnoreRules { rules: Vec::new() };
        assert(r@ =~= Seq::<(Seq<char>, bool)>::empty());
        r
    }

    /// Compiles `glob` (with `*` and `?` not matching `/`) and appends it as a
    /// rule, negated or not; a glob that `globset` refuses leaves the rules as
    /// they were and its error is returned.
    pub fn push_glob(&mut self, glob: &str, negated: bool) -> (r: Result<(), globset::Error>)
        requires
            glob@.len() <= MAX_GLOB_CHARS,
            glob_parses(glob@, true) ==> glob_compiles(glob@, true),
        ensures
            r is Ok <==> glob_compiles(glob@, true),
            r is Ok ==> final(self)@ == old(self)@.push((glob@, negated)),
            r is Err ==> final(self)@ == old(self)@,
    {
        proof {
            use_type_invariant(&*self);
        }
        match compile_glob(glob, true) {
            GlobOutcome::Compiled(set) => {
                let rule = IgnoreRule { glob: glob.to_owned(), negated, set };
                let ghost old_rules = self.rules@;
                let mut rules: Vec<IgnoreRule> = Vec::new();
                std::mem::swap(&mut rules, &mut self.rules);
                rules.push(rule);
                assert(rules@ == old_rules.push(rule));
                assert forall|i: int| 0 <= i < rules@.len() implies #[trigger] set_globs(
                    rules@[i].set,
                ) == seq![(rules@[i].glob@, true)] by {
                    if i < old_rules.len() {
                        assert(rules@[i] == old_rules[i]);
                    }
                }
                *self = IgnoreRules { rules };
                assert(self@ =~= old(self)@.push((glob@, negated)));
                Ok(())
            },
            GlobOutcome::Unparsed(e) => Err(e),
            GlobOutcome::RegexRefused(e) => Err(e),
        }
    }

    /// The rules of a `.dotsyncignore` file whose text is `content`: blank
    /// lines and `#` comments are skipped, `!` negates, each pattern is
    /// normalized; the patterns whose glob does not parse are returned apart,
    /// with their errors, and make no rule. (Lines are split at `\n`; a
    /// trailing `\r` is whitespace and goes with the trimming.) Every pattern
    /// that parses must compile (`patterns_compile`); `try_from_content`
    /// tests that.
    pub fn from_content(content: &str) -> (r: (IgnoreRules, Vec<InvalidPattern>))
        requires
            lines_fit(content@),
            patterns_compile(content@),
        ensures
            r.0@ == rules_of_lines(split_lines(content@)),
            r.1@.map_values(|w: InvalidPattern| w.raw@) == rejected_of_lines(split_lines(content@)),
    {
        let lines = lines_of(content);
        let ghost ls = split_lines(content@);
        let mut rules = IgnoreRules::new();
        let mut invalid: Vec<InvalidPattern> = Vec::new();
        let mut i: usize = 0;
        assert(ls.take(0) =~= Seq::<Seq<char>>::empty());
        assert(invalid@.map_values(|w: InvalidPattern| w.raw@) =~= Seq::<Seq<char>>::empty());
        while i < lines.len()
            invariant
                i <= lines@.len(),
                lines@.map_values(|x: String| x@) == ls,
                ls == split_lines(content@),
                lines_fit(content@),
                patterns_compile(content@),
                rules@ == rules_of_lines(ls.take(i as int)),
                invalid@.map_values(|w: InvalidPattern| w.raw@) == rejected_of_lines(ls.take(i as int)),
            decreases lines.len() - i,
        {
            assert(ls.take(i + 1).drop_last() =~= ls.take(i as int));
            assert(ls.take(i + 1).last() == lines@[i as int]@);
            assert(ls[i as int] == lines@[i as int]@);
            if let Some((raw, negated)) = parse_ignore_line(lines[i].as_str()) {
                let glob = normalize_pattern(raw.as_str());
                let ghost before = invalid@.map_values(|w: InvalidPattern| w.raw@);
                match rules.push_glob(glob.as_str(), negated) {
                    Ok(()) => {},
                    Err(error) => {
                        invalid.push(InvalidPattern { raw, error });
                        assert(invalid@.map_values(|w: InvalidPattern| w.raw@) =~= before.push(raw@));
                    },
                }
            }
            i = i + 1;
        }
        assert(ls.take(lines@.len() as int) =~= ls);
        (rules, invalid)
    }

    /// The rules of a `.dotsyncignore` file whose text is `content`
    /// (`from_content`), or `None` when one of its patterns parses but its
    /// regular expression is past the size limit of `globset`.
    pub fn try_from_content(content: &str) -> (r: Option<(IgnoreRules, Vec<InvalidPattern>)>)
        requires
            lines_fit(content@),
        ensures
            r is None <==> !patterns_compile(content@),
            r matches Some(x) ==> (x.0@ == rules_of_lines(split_lines(content@)) && x.1@.map_values(
                |w: InvalidPattern| w.raw@,
            ) == rejected_of_lines(split_lines(content@))),
    {
        let lines = lines_of(content);
        let ghost ls = split_lines(content@);
        let mut i: usize = 0;
        while i < lines.len()
            invariant
                i <= lines@.len(),
                lines@.map_values(|x: String| x@) == ls,
                ls == split_lines(content@),
                lines_fit(content@),
                forall|k: int|
                    0 <= k < i ==> match ignore_line_entry(#[trigger] ls[k]) {
                        Some((raw, negated)) => pattern_compiles(raw),
                        None => true,
                    },
            decreases lines.len() - i,
        {
            assert(ls[i as int] == lines@[i as int]@);
            if let Some((raw, negated)) = parse_ignore_line(lines[i].as_str()) {
                let glob = normalize_pattern(raw.as_str());
                match compile_glob(glob.as_str(), true) {
                    GlobOutcome::RegexRefused(_) => {
                        assert(!pattern_compiles(raw@));
                        assert(!patterns_compile(content@)) by {
                            assert(match ignore_line_entry(split_lines(content@)[i as int]) {
                                Some((raw, negated)) => !pattern_compiles(raw),
                                None => false,
                            });
                        }
                        return None;
                    },
                    _ => {},
                }
            }
            i = i + 1;
        }
        Some(Self::from_content(content))
    }

    /// Whether `relative_path` is ignored: rules are tried in order and the last
    /// one that matches decides (gitignore semantics).
    pub fn is_ignored(&self, relative_path: &str) -> (r: bool)
        ensures
            r == ignored_by(self@, relative_path@),
    {
        proof {
            use_type_invariant(self);
        }
        let mut outcomes: Vec<(bool, bool)> = Vec::new();
        let mut i: usize = 0;
        while i < self.rules.len()
            invariant
                i <= self.rules@.len(),
                outcomes@ == rule_outcomes(self@.take(i as int), relative_path@),
                forall|k: int|
                    0 <= k < self.rules@.len() ==> #[trigger] set_globs(self.rules@[k].set)
                        == seq![(self.rules@[k].glob@, true)],
            decreases self.rules.len() - i,
        {
            let rule = &self.rules[i];
            assert(self@[i as int] == (rule.glob@, rule.negated));
            let matched = set_is_match(&rule.set, relative_path);
            assert(set_globs(rule.set) == seq![(rule.glob@, true)]);
            assert(matched == glob_accepts(rule.glob@, true, relative_path@)) by {
                let g = set_globs(rule.set);
                assert(g[0] == (rule.glob@, true));
                if glob_accepts(rule.glob@, true, relative_path@) {
                    assert(glob_accepts(g[0].0, g[0].1, relative_path@));
                }
            }
            outcomes.push((matched, rule.negated));
            assert(outcomes@ =~= rule_outcomes(self@.take(i + 1), relative_path@));
            i = i + 1;
        }
        assert(self@.take(self.rules@.len() as int) =~= self@);
        proof {
            lemma_ignored_by_outcomes(self@, relative_path@);
        }
        decide_ignored(&outcomes)
    }
}

/// Whether rule outcomes `(matched, negated)`, in rule order, ignore the
/// path: the last rule that matched decides; none matched, not ignored.
pub open spec fn last_match_ignores(outcomes: Seq<(bool, bool)>) -> bool
    decreases outcomes.len(),
{
    if outcomes.len() == 0 {
        false
    } else if outcomes.last().0 {
        !outcomes.last().1
    } else {
        last_match_ignores(outcomes.drop_last())
    }
}

/// The outcome `(matched, negated)` of each of `rules` for `path`.
pub open spec fn rule_outcomes(rules: Seq<(Seq<char>, bool)>, path: Seq<char>) -> Seq<(bool, bool)> {
    rules.map_values(|r: (Seq<char>, bool)| (glob_accepts(r.0, true, path), r.1))
}

/// `ignored_by` is the last-match decision over the rules' outcomes.
pub proof fn lemma_ignored_by_outcomes(rules: Seq<(Seq<char>, bool)>, path: Seq<char>)
    ensures
        ignored_by(rules, path) == last_match_ignores(rule_outcomes(rules, path)),
    decreases rules.len(),
{
    if rules.len() > 0 {
        lemma_ignored_by_outcomes(rules.drop_last(), path);
        assert(rule_outcomes(rules, path).drop_last() =~= rule_outcomes(rules.drop_last(), path));
    }
}

/// Decides from the rule outcomes `(matched, negated)`, in rule order,
/// whether the path is ignored (`last_match_ignores`).
pub fn decide_ignored(outcomes: &[(bool, bool)]) -> (r: bool)
    ensures
        r == last_match_ignores(outcomes@),
{
    let mut ignored = false;
    let mut i: usize = 0;
    while i < outcomes.len()
        invariant
            i <= outcomes@.len(),
            ignored == last_match_ignores(outcomes@.take(i as int)),
        decreases outcomes.len() - i,
    {
        assert(outcomes@.take(i + 1).drop_last() =~= outcomes@.take(i as int));
        let (matched, negated) = outcomes[i];
        if matched {
            ignored = !negated;
        }
        i = i + 1;
    }
    assert(outcomes@.take(outcomes@.len() as int) =~= outcomes@);
    ignored
}


/// A non-empty text that does not start with whitespace keeps its first
/// character when trailing whitespace is trimmed.
proof fn lemma_trim_end_keeps_first(s: Seq<char>)
    requires
        s.len() > 0,
        !is_ws(s[0]),
    ensures
        trim_end(s).len() > 0,
        trim_end(s)[0] == s[0],
    decreases s.len(),
{
    if is_ws(s.last()) {
        assert(s.len() > 1);
        lemma_trim_end_keeps_first(s.drop_last());
    }
}

/// A line that starts with `#` is a comment.
proof fn lemma_comment_line(line: Seq<char>)
    requires
        line.len() > 0,
        line[0] == '#',
    ensures
        ignore_line_entry(line) is None,
{
    assert(!is_ws('#'));
    assert(trim_start(line) == line);
    lemma_trim_end_keeps_first(line);
}

/// Lines that are all blank or comments give no rule and no refused pattern.
proof fn lemma_no_pattern_lines(lines: Seq<Seq<char>>)
    requires
        forall|i: int| 0 <= i < lines.len() ==> (#[trigger] ignore_line_entry(lines[i])) is None,
    ensures
        rules_of_lines(lines) == Seq::<(Seq<char>, bool)>::empty(),
        rejected_of_lines(lines) == Seq::<Seq<char>>::empty(),
    decreases lines.len(),
{
    if lines.len() > 0 {
        let init = lines.drop_last();
        assert forall|i: int| 0 <= i < init.len() implies (#[trigger] ignore_line_entry(init[i])) is None by {
            assert(init[i] == lines[i]);
        }
        lemma_no_pattern_lines(init);
        assert(ignore_line_entry(lines[lines.len() - 1]) is None);
    }
}

/// A freshly scaffolded `.dotsyncignore` ignores nothing: every line of
/// `IGNORE_FILE_HEADER` is a comment, so it gives no rule and no refused
/// pattern.
pub proof fn lemma_scaffold_has_no_rules()
    ensures
        rules_of_lines(split_lines(IGNORE_FILE_HEADER@)) == Seq::<(Seq<char>, bool)>::empty(),
        rejected_of_lines(split_lines(IGNORE_FILE_HEADER@)) == Seq::<Seq<char>>::empty(),
        patterns_compile(IGNORE_FILE_HEADER@),
{
    let nl = '\n';
    reveal_strlit("# .dotsyncignore \u{2014} paths that dotsync will never copy or apply.\n# Patterns follow gitignore semantics:\n#   - No slash \u{2192} matches name at any depth        (.DS_Store, *.log)\n#   - With slash \u{2192} relative to the repo root      (.config/nvim/sessions/)\n#   - Leading /  \u{2192} anchored to root               (/.zshrc.bak)\n#   - Prefix !   \u{2192} negate a previous pattern      (!important.log)\n#   - Lines starting with # are comments\n");
    reveal_strlit("# .dotsyncignore \u{2014} paths that dotsync will never copy or apply.");
    reveal_strlit("# Patterns follow gitignore semantics:");
    reveal_strlit("#   - No slash \u{2192} matches name at any depth        (.DS_Store, *.log)");
    reveal_strlit("#   - With slash \u{2192} relative to the repo root      (.config/nvim/sessions/)");
    reveal_strlit("#   - Leading /  \u{2192} anchored to root               (/.zshrc.bak)");
    reveal_strlit("#   - Prefix !   \u{2192} negate a previous pattern      (!important.log)");
    reveal_strlit("#   - Lines starting with # are comments");
    let l1: Seq<char> = "# .dotsyncignore \u{2014} paths that dotsync will never copy or apply."@;
    let l2: Seq<char> = "# Patterns follow gitignore semantics:"@;
    let l3: Seq<char> = "#   - No slash \u{2192} matches name at any depth        (.DS_Store, *.log)"@;
    let l4: Seq<char> = "#   - With slash \u{2192} relative to the repo root      (.config/nvim/sessions/)"@;
    let l5: Seq<char> = "#   - Leading /  \u{2192} anchored to root               (/.zshrc.bak)"@;
    let l6: Seq<char> = "#   - Prefix !   \u{2192} negate a previous pattern      (!important.log)"@;
    let l7: Seq<char> = "#   - Lines starting with # are comments"@;
    assert(!l1.contains(nl));
    lemma_split_on_without_sep(l1, nl);
    assert(!l2.contains(nl));
    lemma_split_on_without_sep(l2, nl);
    assert(!l3.contains(nl));
    lemma_split_on_without_sep(l3, nl);
    assert(!l4.contains(nl));
    lemma_split_on_without_sep(l4, nl);
    assert(!l5.contains(nl));
    lemma_split_on_without_sep(l5, nl);
    assert(!l6.contains(nl));
    lemma_split_on_without_sep(l6, nl);
    assert(!l7.contains(nl));
    lemma_split_on_without_sep(l7, nl);
    let s8: Seq<char> = Seq::empty();
    assert(split_on(s8, nl) =~= seq![Seq::<char>::empty()]);
    let s7 = l7 + seq![nl] + s8;
    lemma_split_on_concat(l7, s8, nl);
    let s6 = l6 + seq![nl] + s7;
    lemma_split_on_concat(l6, s7, nl);
    let s5 = l5 + seq![nl] + s6;
    lemma_split_on_concat(l5, s6, nl);
    let s4 = l4 + seq![nl] + s5;
    lemma_split_on_concat(l4, s5, nl);
    let s3 = l3 + seq![nl] + s4;
    lemma_split_on_concat(l3, s4, nl);
    let s2 = l2 + seq![nl] + s3;
    lemma_split_on_concat(l2, s3, nl);
    let s1 = l1 + seq![nl] + s2;
    lemma_split_on_concat(l1, s2, nl);
    assert(IGNORE_FILE_HEADER@ =~= l1 + seq![nl] + l2 + seq![nl] + l3 + seq![nl] + l4 + seq![nl] + l5 + seq![nl] + l6 + seq![nl] + l7 + seq![nl]);
    assert(IGNORE_FILE_HEADER@ =~= s1);
    let lines = seq![l1, l2, l3, l4, l5, l6, l7, Seq::<char>::empty()];
    assert(split_lines(IGNORE_FILE_HEADER@) =~= lines);
    lemma_comment_line(l1);
    lemma_comment_line(l2);
    lemma_comment_line(l3);
    lemma_comment_line(l4);
    lemma_comment_line(l5);
    lemma_comment_line(l6);
    lemma_comment_line(l7);
    assert(ignore_line_entry(Seq::<char>::empty()) is None);
    assert forall|i: int| 0 <= i < lines.len() implies (#[trigger] ignore_line_entry(lines[i])) is None by {
        assert(lines[0] == l1 && lines[1] == l2 && lines[2] == l3 && lines[3] == l4);
        assert(lines[4] == l5 && lines[5] == l6 && lines[6] == l7 && lines[7] == Seq::<char>::empty());
    }
    lemma_no_pattern_lines(lines);
}


/// Trimming trailing `c` from a text holding something besides `c` leaves a
/// non-empty text that does not end with `c`.
proof fn lemma_trim_end_char_last(t: Seq<char>, c: char)
    requires
        exists|i: int| 0 <= i < t.len() && t[i] != c,
    ensures
        trim_end_char(t, c).len() > 0,
        trim_end_char(t, c).last() != c,
    decreases t.len(),
{
    if t.last() == c {
        let i = choose|i: int| 0 <= i < t.len() && t[i] != c;
        assert(t.drop_last()[i] == t[i]);
        lemma_trim_end_char_last(t.drop_last(), c);
    }
}

/// A trailing `/` never changes a pattern's glob: `p/` and `p` give the
/// same glob; and the glob of a pattern holding something besides `/` never
/// ends with `/`.
pub proof fn lemma_normalize_trailing_slash(p: Seq<char>)
    ensures
        normalized_pattern(p.push('/')) == normalized_pattern(p),
        (exists|i: int| 0 <= i < p.len() && p[i] != '/') ==> (normalized_pattern(p).len() > 0
            && normalized_pattern(p).last() != '/'),
{
    assert(p.push('/').drop_last() =~= p);
    assert(trim_end_char(p.push('/'), '/') == trim_end_char(p, '/'));
    if exists|i: int| 0 <= i < p.len() && p[i] != '/' {
        lemma_trim_end_char_last(p, '/');
        let t = trim_end_char(p, '/');
        if !has_prefix(t, any_depth()) && t.len() > 0 && t[0] == '/' {
            assert(t.len() > 1);
            assert(t.drop_first().last() == t.last());
        }
        if !has_prefix(t, any_depth()) && !(t.len() > 0 && t[0] == '/') && !t.contains('/') {
            assert((any_depth() + t).last() == t.last());
        }
    }
}

/// A pattern with a `/` only at its start is anchored at the root: the
/// leading `/` goes and the rest is the glob, unchanged.
pub proof fn lemma_normalize_anchored(name: Seq<char>)
    requires
        name.len() > 0,
        !name.contains('/'),
    ensures
        normalized_pattern(seq!['/'] + name) == name,
        normalized_pattern(seq!['/'] + name + seq!['/']) == name,
{
    let p = seq!['/'] + name;
    assert(p.last() == name.last());
    assert(name.last() != '/') by {
        assert(name.contains(name[name.len() - 1]));
    }
    assert(trim_end_char(p, '/') == p);
    assert(!has_prefix(p, any_depth())) by {
        assert(p[0] == '/');
        assert(any_depth()[0] == '*');
        if has_prefix(p, any_depth()) {
            assert(p.subrange(0, 3)[0] == p[0]);
        }
    }
    assert(p.drop_first() =~= name);
    assert(p + seq!['/'] =~= p.push('/'));
    lemma_normalize_trailing_slash(p);
}

/// A pattern without `/` matches at any depth: its glob is `**/` in front
/// of it.
pub proof fn lemma_normalize_any_depth(name: Seq<char>)
    requires
        name.len() > 0,
        !name.contains('/'),
        !has_prefix(name, any_depth()),
    ensures
        normalized_pattern(name) == any_depth() + name,
{
    assert(name.last() != '/') by {
        assert(name.contains(name[name.len() - 1]));
    }
    assert(trim_end_char(name, '/') == name);
    assert(name[0] != '/') by {
        assert(name.contains(name[0]));
    }
}

} // verus!
