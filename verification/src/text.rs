//! Character-level text handling shared by the configuration file, the
//! ignore file and the command line: Unicode whitespace trimming, line
//! splitting, prefixes and string building.
use vstd::prelude::*;

verus! {

/// The Unicode `White_Space` property, which `char::is_whitespace` tests.
pub open spec fn is_ws(c: char) -> bool {
    ||| ('\u{9}' <= c && c <= '\u{d}')
    ||| c == ' '
    ||| c == '\u{85}'
    ||| c == '\u{a0}'
    ||| c == '\u{1680}'
    ||| ('\u{2000}' <= c && c <= '\u{200a}')
    ||| c == '\u{2028}'
    ||| c == '\u{2029}'
    ||| c == '\u{202f}'
    ||| c == '\u{205f}'
    ||| c == '\u{3000}'
}

/// Whether `c` has the Unicode `White_Space` property.
pub fn is_whitespace(c: char) -> (b: bool)
    ensures
        b == is_ws(c),
{
    ('\u{9}' <= c && c <= '\u{d}') || c == ' ' || c == '\u{85}' || c == '\u{a0}' || c
        == '\u{1680}' || ('\u{2000}' <= c && c <= '\u{200a}') || c == '\u{2028}' || c
        == '\u{2029}' || c == '\u{202f}' || c == '\u{205f}' || c == '\u{3000}'
}

/// `s` without its leading whitespace.
pub open spec fn trim_start(s: Seq<char>) -> Seq<char>
    decreases s.len(),
{
    if s.len() > 0 && is_ws(s[0]) {
        trim_start(s.drop_first())
    } else {
        s
    }
}

/// `s` without its trailing whitespace.
pub open spec fn trim_end(s: Seq<char>) -> Seq<char>
    decreases s.len(),
{
    if s.len() > 0 && is_ws(s.last()) {
        trim_end(s.drop_last())
    } else {
        s
    }
}

/// `s` without leading and trailing whitespace (`str::trim`).
pub open spec fn trim(s: Seq<char>) -> Seq<char> {
    trim_end(trim_start(s))
}

/// `s` without any trailing occurrence of `c` (`str::trim_end_matches`).
pub open spec fn trim_end_char(s: Seq<char>, c: char) -> Seq<char>
    decreases s.len(),
{
    if s.len() > 0 && s.last() == c {
        trim_end_char(s.drop_last(), c)
    } else {
        s
    }
}

/// `s` without any leading occurrence of `c` (`str::trim_start_matches`).
pub open spec fn trim_start_char(s: Seq<char>, c: char) -> Seq<char>
    decreases s.len(),
{
    if s.len() > 0 && s[0] == c {
        trim_start_char(s.drop_first(), c)
    } else {
        s
    }
}

/// `s` without leading and trailing occurrences of `c` (`str::trim_matches`).
pub open spec fn trim_char(s: Seq<char>, c: char) -> Seq<char> {
    trim_end_char(trim_start_char(s, c), c)
}

/// Whether `p` is a prefix of `s`.
pub open spec fn has_prefix(s: Seq<char>, p: Seq<char>) -> bool {
    p.len() <= s.len() && s.subrange(0, p.len() as int) == p
}

/// The pieces of `s` between occurrences of `sep`, in order; there is always
/// at least one piece.
pub open spec fn split_on(s: Seq<char>, sep: char) -> Seq<Seq<char>>
    decreases s.len(),
{
    if s.len() == 0 {
        seq![Seq::<char>::empty()]
    } else {
        let prev = split_on(s.drop_last(), sep);
        if s.last() == sep {
            prev.push(Seq::<char>::empty())
        } else {
            prev.update(prev.len() - 1, prev.last().push(s.last()))
        }
    }
}

/// The pieces of `s` between `'\n'` characters, in order.
pub open spec fn split_lines(s: Seq<char>) -> Seq<Seq<char>> {
    split_on(s, '\n')
}

/// `split_on` never yields an empty list.
pub proof fn lemma_split_on_nonempty(s: Seq<char>, sep: char)
    ensures
        split_on(s, sep).len() >= 1,
    decreases s.len(),
{
    if s.len() > 0 {
        lemma_split_on_nonempty(s.drop_last(), sep);
    }
}

/// A text without `sep` is a single piece.
pub proof fn lemma_split_on_without_sep(s: Seq<char>, sep: char)
    requires
        !s.contains(sep),
    ensures
        split_on(s, sep) == seq![s],
    decreases s.len(),
{
    if s.len() > 0 {
        assert(!s.drop_last().contains(sep)) by {
            if s.drop_last().contains(sep) {
                let i = choose|i: int| 0 <= i < s.drop_last().len() && s.drop_last()[i] == sep;
                assert(s[i] == sep);
            }
        }
        lemma_split_on_without_sep(s.drop_last(), sep);
        assert(s.last() != sep) by {
            assert(s[s.len() - 1] == s.last());
        }
        assert(s.drop_last().push(s.last()) =~= s);
        assert(seq![s.drop_last()].update(0, s.drop_last().push(s.last())) =~= seq![s]);
    } else {
        assert(s =~= Seq::<char>::empty());
    }
}

/// The characters of `s`, in order, as a vector.
pub fn chars_of(s: &str) -> (v: Vec<char>)
    ensures
        v@ == s@,
{
    let mut v: Vec<char> = Vec::new();
    for c in it: s.chars()
        invariant
            v@ == it.seq().take(it.index() as int),
            it.seq() == s@,
    {
        v.push(c);
    }
    v
}

/// The pieces of `s` between line breaks (`split_lines`), as strings.
pub fn lines_of(s: &str) -> (v: Vec<String>)
    ensures
        v@.map_values(|x: String| x@) == split_lines(s@),
{
    pieces_of(s, '\n')
}

/// The pieces of `s` between occurrences of `sep` (`split_on`), as strings.
pub fn pieces_of(s: &str, sep: char) -> (v: Vec<String>)
    ensures
        v@.map_values(|x: String| x@) == split_on(s@, sep),
{
    let cs = chars_of(s);
    let mut v: Vec<String> = Vec::new();
    let mut cur = String::new();
    let mut i: usize = 0;
    assert(cs@.take(0) =~= Seq::<char>::empty());
    assert(v@.map_values(|x: String| x@).push(cur@) =~= split_on(cs@.take(0), sep));
    while i < cs.len()
        invariant
            i <= cs@.len(),
            cs@ == s@,
            v@.map_values(|x: String| x@).push(cur@) == split_on(cs@.take(i as int), sep),
        decreases cs.len() - i,
    {
        let ghost before = v@.map_values(|x: String| x@);
        assert(cs@.take(i + 1).drop_last() =~= cs@.take(i as int));
        assert(cs@.take(i + 1).last() == cs@[i as int]);
        if cs[i] == sep {
            v.push(cur);
            cur = String::new();
            assert(v@.map_values(|x: String| x@) =~= before.push(split_on(cs@.take(i as int), sep).last()));
            assert(v@.map_values(|x: String| x@).push(cur@) =~= split_on(cs@.take(i + 1), sep));
        } else {
            let ghost old_cur = cur@;
            push_char(&mut cur, cs[i]);
            assert(before.push(cur@) =~= before.push(old_cur).update(before.len() as int, old_cur.push(cs@[i as int])));
        }
        i = i + 1;
    }
    v.push(cur);
    assert(cs@.take(cs@.len() as int) =~= cs@);
    v
}

/// Appends `c` to `s` (`String::push`).
#[verifier::external_body]
fn push_char(s: &mut String, c: char)
    ensures
        final(s)@ == old(s)@.push(c),
{
    s.push(c);
}

/// The string made of `chars[lo..hi]`.
pub fn string_of(chars: &[char], lo: usize, hi: usize) -> (s: String)
    requires
        lo <= hi <= chars@.len(),
    ensures
        s@ == chars@.subrange(lo as int, hi as int),
{
    let mut s = String::new();
    let mut i = lo;
    while i < hi
        invariant
            lo <= i <= hi <= chars@.len(),
            s@ == chars@.subrange(lo as int, i as int),
        decreases hi - i,
    {
        push_char(&mut s, chars[i]);
        i = i + 1;
        assert(s@ =~= chars@.subrange(lo as int, i as int));
    }
    s
}

/// The string `a` followed by `b`.
pub fn str_concat(a: &str, b: &str) -> (s: String)
    ensures
        s@ == a@ + b@,
{
    let ca = chars_of(a);
    let cb = chars_of(b);
    let mut s = string_of(&ca, 0, ca.len());
    let mut i: usize = 0;
    while i < cb.len()
        invariant
            i <= cb@.len(),
            ca@ == a@,
            cb@ == b@,
            s@ == a@ + b@.subrange(0, i as int),
        decreases cb.len() - i,
    {
        push_char(&mut s, cb[i]);
        i = i + 1;
        assert(s@ =~= a@ + b@.subrange(0, i as int));
    }
    assert(b@.subrange(0, b@.len() as int) =~= b@);
    s
}

/// The index of the first character of `chars[lo..hi]` that is not whitespace,
/// or `hi` when there is none.
pub fn skip_ws_start(chars: &[char], lo: usize, hi: usize) -> (k: usize)
    requires
        lo <= hi <= chars@.len(),
    ensures
        lo <= k <= hi,
        trim_start(chars@.subrange(lo as int, hi as int)) == chars@.subrange(k as int, hi as int),
{
    let mut k = lo;
    while k < hi && is_whitespace(chars[k])
        invariant
            lo <= k <= hi <= chars@.len(),
            trim_start(chars@.subrange(lo as int, hi as int)) == trim_start(
                chars@.subrange(k as int, hi as int),
            ),
        decreases hi - k,
    {
        assert(chars@.subrange(k as int, hi as int).drop_first() =~= chars@.subrange(
            k + 1,
            hi as int,
        ));
        k = k + 1;
    }
    k
}

/// The end of `chars[lo..hi]` once trailing whitespace is dropped.
pub fn skip_ws_end(chars: &[char], lo: usize, hi: usize) -> (k: usize)
    requires
        lo <= hi <= chars@.len(),
    ensures
        lo <= k <= hi,
        trim_end(chars@.subrange(lo as int, hi as int)) == chars@.subrange(lo as int, k as int),
{
    let mut k = hi;
    while k > lo && is_whitespace(chars[k - 1])
        invariant
            lo <= k <= hi <= chars@.len(),
            trim_end(chars@.subrange(lo as int, hi as int)) == trim_end(
                chars@.subrange(lo as int, k as int),
            ),
        decreases k - lo,
    {
        assert(chars@.subrange(lo as int, k as int).drop_last() =~= chars@.subrange(
            lo as int,
            k - 1,
        ));
        k = k - 1;
    }
    k
}

/// The index of the first character of `chars[lo..hi]` other than `c`, or
/// `hi` when there is none.
pub fn skip_char_start(chars: &[char], lo: usize, hi: usize, c: char) -> (k: usize)
    requires
        lo <= hi <= chars@.len(),
    ensures
        lo <= k <= hi,
        trim_start_char(chars@.subrange(lo as int, hi as int), c) == chars@.subrange(k as int, hi as int),
{
    let mut k = lo;
    while k < hi && chars[k] == c
        invariant
            lo <= k <= hi <= chars@.len(),
            trim_start_char(chars@.subrange(lo as int, hi as int), c) == trim_start_char(
                chars@.subrange(k as int, hi as int),
                c,
            ),
        decreases hi - k,
    {
        assert(chars@.subrange(k as int, hi as int).drop_first() =~= chars@.subrange(
            k + 1,
            hi as int,
        ));
        k = k + 1;
    }
    k
}

/// The end of `chars[lo..hi]` once trailing occurrences of `c` are dropped.
pub fn skip_char_end(chars: &[char], lo: usize, hi: usize, c: char) -> (k: usize)
    requires
        lo <= hi <= chars@.len(),
    ensures
        lo <= k <= hi,
        trim_end_char(chars@.subrange(lo as int, hi as int), c) == chars@.subrange(lo as int, k as int),
{
    let mut k = hi;
    while k > lo && chars[k - 1] == c
        invariant
            lo <= k <= hi <= chars@.len(),
            trim_end_char(chars@.subrange(lo as int, hi as int), c) == trim_end_char(
                chars@.subrange(lo as int, k as int),
                c,
            ),
        decreases k - lo,
    {
        assert(chars@.subrange(lo as int, k as int).drop_last() =~= chars@.subrange(
            lo as int,
            k - 1,
        ));
        k = k - 1;
    }
    k
}

/// The bounds `[a, b)` of `chars[lo..hi]` once surrounding whitespace is dropped.
pub fn trim_bounds(chars: &[char], lo: usize, hi: usize) -> (r: (usize, usize))
    requires
        lo <= hi <= chars@.len(),
    ensures
        lo <= r.0 <= r.1 <= hi,
        trim(chars@.subrange(lo as int, hi as int)) == chars@.subrange(r.0 as int, r.1 as int),
{
    let a = skip_ws_start(chars, lo, hi);
    let b = skip_ws_end(chars, a, hi);
    (a, b)
}

/// Whether `chars[lo..hi]` begins with `p`.
pub fn range_has_prefix(chars: &[char], lo: usize, hi: usize, p: &[char]) -> (b: bool)
    requires
        lo <= hi <= chars@.len(),
    ensures
        b == has_prefix(chars@.subrange(lo as int, hi as int), p@),
{
    if p.len() > hi - lo {
        return false;
    }
    let mut i: usize = 0;
    while i < p.len()
        invariant
            i <= p@.len() <= hi - lo,
            lo <= hi <= chars@.len(),
            forall|j: int| 0 <= j < i ==> chars@[lo + j] == p@[j],
        decreases p.len() - i,
    {
        if chars[lo + i] != p[i] {
            assert(chars@.subrange(lo as int, hi as int).subrange(0, p@.len() as int)[i as int]
                != p@[i as int]);
            return false;
        }
        i = i + 1;
    }
    assert(chars@.subrange(lo as int, hi as int).subrange(0, p@.len() as int) =~= p@);
    true
}

/// Whether `chars[lo..hi]` holds `c`.
pub fn range_contains(chars: &[char], lo: usize, hi: usize, c: char) -> (b: bool)
    requires
        lo <= hi <= chars@.len(),
    ensures
        b == chars@.subrange(lo as int, hi as int).contains(c),
{
    let mut i = lo;
    while i < hi
        invariant
            lo <= i <= hi <= chars@.len(),
            forall|j: int| lo <= j < i ==> chars@[j] != c,
        decreases hi - i,
    {
        if chars[i] == c {
            assert(chars@.subrange(lo as int, hi as int)[i - lo] == c);
            return true;
        }
        i = i + 1;
    }
    assert forall|j: int| 0 <= j < hi - lo implies chars@.subrange(lo as int, hi as int)[j]
        != c by {
        assert(chars@[lo + j] != c);
    }
    false
}

/// Whether `s` begins with the character `c`.
pub fn str_starts_with_char(s: &str, c: char) -> (b: bool)
    ensures
        b == (s@.len() > 0 && s@[0] == c),
{
    let cs = chars_of(s);
    cs.len() > 0 && cs[0] == c
}

/// Whether the strings `a` and `b` are equal.
pub fn str_eq(a: &str, b: &str) -> (r: bool)
    ensures
        r == (a@ == b@),
{
    let ca = chars_of(a);
    let cb = chars_of(b);
    if ca.len() != cb.len() {
        return false;
    }
    let mut i: usize = 0;
    while i < ca.len()
        invariant
            ca@ == a@,
            cb@ == b@,
            ca@.len() == cb@.len(),
            i <= ca@.len(),
            forall|j: int| 0 <= j < i ==> ca@[j] == cb@[j],
        decreases ca.len() - i,
    {
        if ca[i] != cb[i] {
            return false;
        }
        i = i + 1;
    }
    assert(ca@ =~= cb@);
    true
}

} // verus!
