//! The configuration file `~/.config/dotsync/config.toml`: where it lives,
//! the line that records the repository, and how that line is read back.
use vstd::prelude::*;

use crate::paths::{join_path, joined};
use crate::text::{
    chars_of, has_prefix, lemma_split_on_without_sep, lines_of, range_has_prefix,
    skip_char_end, skip_char_start, split_lines, str_concat, string_of, trim, trim_bounds,
    trim_char, trim_end, trim_end_char, trim_start, trim_start_char,
};

verus! {

/// The configuration file's path under the home directory.
pub open spec fn config_file_suffix() -> Seq<char> {
    ".config/dotsync/config.toml"@
}

/// The configuration file's path: `.config/dotsync/config.toml` under the
/// home directory `home`, or `None` when the home directory is unknown.
pub fn config_file_path(home: Option<String>) -> (r: Option<String>)
    ensures
        match home {
            Some(h) => r matches Some(p) && p@ == joined(h@, config_file_suffix()),
            None => r is None,
        },
{
    match home {
        Some(h) => Some(join_path(h.as_str(), ".config/dotsync/config.toml")),
        None => None,
    }
}

/// The key of the destination line.
pub open spec fn destination_key() -> Seq<char> {
    "destination"@
}

/// The destination that one line of the configuration gives: after
/// trimming, a line that is neither empty nor a `#` comment, starts with
/// `destination`, then (after whitespace) `=`, and whose value, trimmed and
/// stripped of surrounding `"`, is not empty.
pub open spec fn destination_of_line(line: Seq<char>) -> Option<Seq<char>> {
    let t = trim(line);
    if t.len() == 0 || t[0] == '#' || !has_prefix(t, destination_key()) {
        None
    } else {
        let rest = trim(t.skip(destination_key().len() as int));
        if rest.len() > 0 && rest[0] == '=' {
            let value = trim_char(trim(rest.drop_first()), '"');
            if value.len() > 0 {
                Some(value)
            } else {
                None
            }
        } else {
            None
        }
    }
}

/// The destination given by the first line of `lines` that gives one.
pub open spec fn destination_of_lines(lines: Seq<Seq<char>>) -> Option<Seq<char>>
    decreases lines.len(),
{
    if lines.len() == 0 {
        None
    } else {
        match destination_of_line(lines[0]) {
            Some(v) => Some(v),
            None => destination_of_lines(lines.drop_first()),
        }
    }
}

/// The destination line of `line` (`destination_of_line`).
fn destination_in_line(line: &str) -> (r: Option<String>)
    ensures
        r matches Some(v) ==> destination_of_line(line@) == Some(v@),
        r is None ==> destination_of_line(line@) is None,
{
    let cs = chars_of(line);
    assert(cs@.subrange(0, cs@.len() as int) =~= cs@);
    let (a, b) = trim_bounds(&cs, 0, cs.len());
    let ghost t = cs@.subrange(a as int, b as int);
    let key = chars_of("destination");
    if a == b || cs[a] == '#' || !range_has_prefix(&cs, a, b, &key) {
        return None;
    }
    let k = a + key.len();
    assert(t.skip(key@.len() as int) =~= cs@.subrange(k as int, b as int));
    let (c, d) = trim_bounds(&cs, k, b);
    let ghost rest = cs@.subrange(c as int, d as int);
    if c == d || cs[c] != '=' {
        return None;
    }
    assert(rest.drop_first() =~= cs@.subrange(c + 1, d as int));
    let (e, f) = trim_bounds(&cs, c + 1, d);
    let g = skip_char_start(&cs, e, f, '"');
    let h = skip_char_end(&cs, g, f, '"');
    if g == h {
        return None;
    }
    Some(string_of(&cs, g, h))
}

/// The destination recorded in the configuration text `content`
/// (`destination_of_lines` of its lines).
pub fn parse_destination(content: &str) -> (r: Option<String>)
    ensures
        r matches Some(v) ==> destination_of_lines(split_lines(content@)) == Some(v@),
        r is None ==> destination_of_lines(split_lines(content@)) is None,
{
    let lines = lines_of(content);
    let ghost ls = split_lines(content@);
    let mut i: usize = 0;
    assert(ls.skip(0) =~= ls);
    while i < lines.len()
        invariant
            i <= lines@.len(),
            lines@.map_values(|x: String| x@) == ls,
            ls == split_lines(content@),
            destination_of_lines(ls) == destination_of_lines(ls.skip(i as int)),
        decreases lines.len() - i,
    {
        assert(ls.skip(i as int).drop_first() =~= ls.skip(i + 1));
        assert(ls.skip(i as int)[0] == lines@[i as int]@);
        match destination_in_line(lines[i].as_str()) {
            Some(v) => {
                assert(destination_of_line(ls.skip(i as int)[0]) == Some(v@));
                return Some(v);
            },
            None => {},
        }
        i = i + 1;
    }
    assert(ls.skip(lines@.len() as int) =~= Seq::<Seq<char>>::empty());
    None
}

/// The configuration text that records `destination`:
/// `destination = "<destination>"` and a line break.
pub open spec fn destination_entry_text(destination: Seq<char>) -> Seq<char> {
    "destination = \""@ + destination + "\"\n"@
}

/// The configuration text that records `destination`.
pub fn destination_entry(destination: &str) -> (r: String)
    ensures
        r@ == destination_entry_text(destination@),
{
    let a = str_concat("destination = \"", destination);
    str_concat(a.as_str(), "\"\n")
}

/// Reading back what was written: the configuration text recording
/// `destination` gives `destination` back, for a destination on one line,
/// not empty, and neither starting nor ending with `"`.
pub proof fn lemma_destination_roundtrip(destination: Seq<char>)
    requires
        destination.len() > 0,
        !destination.contains('\n'),
        destination[0] != '"',
        destination.last() != '"',
    ensures
        destination_of_lines(split_lines(destination_entry_text(destination))) == Some(destination),
{
    let d = destination;
    reveal_strlit("destination = \"");
    reveal_strlit("\"\n");
    reveal_strlit("destination");
    let head: Seq<char> = "destination = \""@;
    let line = head + d + seq!['"'];
    let content = destination_entry_text(d);
    assert(content =~= line.push('\n'));
    assert(!line.contains('\n')) by {
        if line.contains('\n') {
            let i = choose|i: int| 0 <= i < line.len() && line[i] == '\n';
            if i >= head.len() && i < head.len() + d.len() {
                assert(d[i - head.len()] == '\n');
            }
        }
    }
    lemma_split_on_without_sep(line, '\n');
    assert(content.drop_last() =~= line);
    let lines = split_lines(content);
    assert(lines =~= seq![line, Seq::<char>::empty()]);
    // the line is already trimmed
    assert(trim_start(line) == line);
    assert(trim_end(line) == line) by {
        assert(line.last() == '"');
    }
    assert(trim(line) == line);
    let key = destination_key();
    assert(key.len() == 11);
    assert(line.subrange(0, 11) =~= key);
    // after the key: ` = "d"`
    let after = line.skip(11);
    assert(after =~= seq![' '] + (seq!['=', ' ', '"'] + d + seq!['"']));
    let rest = seq!['=', ' ', '"'] + d + seq!['"'];
    assert(after.drop_first() =~= rest);
    assert(trim_start(after) == trim_start(rest));
    assert(trim_start(rest) == rest);
    assert(trim_end(rest) == rest) by {
        assert(rest.last() == '"');
    }
    assert(trim(after) == rest);
    // after `=`: ` "d"`
    let quoted = seq!['"'] + d + seq!['"'];
    assert(rest.drop_first() =~= seq![' '] + quoted);
    assert((seq![' '] + quoted).drop_first() =~= quoted);
    assert(trim_start(seq![' '] + quoted) == trim_start(quoted));
    assert(trim_start(quoted) == quoted);
    assert(trim_end(quoted) == quoted) by {
        assert(quoted.last() == '"');
    }
    assert(trim(rest.drop_first()) == quoted);
    // the quotes go
    let inner = d + seq!['"'];
    assert(quoted.drop_first() =~= inner);
    assert(trim_start_char(inner, '"') == inner) by {
        assert(inner[0] == d[0]);
    }
    assert(trim_start_char(quoted, '"') == inner);
    assert(inner.drop_last() =~= d);
    assert(trim_end_char(d, '"') == d);
    assert(trim_end_char(inner, '"') == d);
    assert(trim_char(quoted, '"') == d);
    assert(destination_of_line(line) == Some(d));
}

} // verus!
