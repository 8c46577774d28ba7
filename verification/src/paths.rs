//! The path model: paths are `/`-separated text (Unix), read as a list of
//! components the way `std::path::Path::components` reads them, and joined,
//! stripped and cut the way `Path::join`, `Path::strip_prefix`,
//! `Path::parent` and `Path::file_name` do on such paths.
use vstd::prelude::*;

use crate::text::{
    chars_of, lemma_split_on_nonempty, lemma_split_on_without_sep, pieces_of, split_on, str_concat,
    string_of,
};

verus! {

/// The views of a sequence of strings.
pub open spec fn views(v: Seq<String>) -> Seq<Seq<char>> {
    v.map_values(|x: String| x@)
}

/// The root component `/`.
pub open spec fn root_dir() -> Seq<char> {
    seq!['/']
}

/// The current-directory component `.`.
pub open spec fn cur_dir() -> Seq<char> {
    seq!['.']
}

/// The parent-directory component `..`.
pub open spec fn parent_dir() -> Seq<char> {
    seq!['.', '.']
}

/// Whether the component `c` is an ordinary name (not `/`, `.` or `..`).
pub open spec fn is_normal(c: Seq<char>) -> bool {
    c != root_dir() && c != cur_dir() && c != parent_dir()
}

/// The pieces in `ps` that name something: neither empty nor `.`.
pub open spec fn keep_parts(ps: Seq<Seq<char>>) -> Seq<Seq<char>>
    decreases ps.len(),
{
    if ps.len() == 0 {
        Seq::empty()
    } else {
        let prev = keep_parts(ps.drop_last());
        if ps.last().len() == 0 || ps.last() == cur_dir() {
            prev
        } else {
            prev.push(ps.last())
        }
    }
}

/// The components of the path `s`: a leading `/` is the root, a leading `.`
/// piece of a relative path is kept, and otherwise empty pieces (repeated or
/// trailing `/`) and `.` pieces are dropped.
pub open spec fn path_components(s: Seq<char>) -> Seq<Seq<char>> {
    if s.len() > 0 && s[0] == '/' {
        seq![root_dir()] + keep_parts(split_on(s.drop_first(), '/'))
    } else {
        let ps = split_on(s, '/');
        if ps[0] == cur_dir() {
            seq![cur_dir()] + keep_parts(ps.drop_first())
        } else {
            keep_parts(ps)
        }
    }
}

/// `parts` with `/` between consecutive parts.
pub open spec fn sep_join(parts: Seq<Seq<char>>) -> Seq<char>
    decreases parts.len(),
{
    if parts.len() == 0 {
        Seq::empty()
    } else if parts.len() == 1 {
        parts[0]
    } else {
        sep_join(parts.drop_last()) + seq!['/'] + parts.last()
    }
}

/// The path whose components are `parts`: a root part is written once, as
/// the leading `/`.
pub open spec fn join_parts(parts: Seq<Seq<char>>) -> Seq<char> {
    if parts.len() > 0 && parts[0] == root_dir() {
        root_dir() + sep_join(parts.drop_first())
    } else {
        sep_join(parts)
    }
}

/// `base` joined with `rel` (`Path::join`): an absolute `rel` replaces `base`;
/// otherwise a `/` goes between them unless `base` is empty or already ends
/// with one.
pub open spec fn joined(base: Seq<char>, rel: Seq<char>) -> Seq<char> {
    if rel.len() > 0 && rel[0] == '/' {
        rel
    } else if base.len() == 0 || base.last() == '/' {
        base + rel
    } else {
        base + seq!['/'] + rel
    }
}

/// Whether a piece of text between separators names a component: it is
/// neither empty nor `.`.
pub open spec fn named(piece: Seq<char>) -> bool {
    piece.len() > 0 && piece != cur_dir()
}

/// How many characters of `path` come before its body: one for a leading
/// root `/` or a leading `.` component, else none.
pub open spec fn start_len(path: Seq<char>) -> int {
    if path.len() > 0 && path[0] == '/' {
        1
    } else if split_on(path, '/')[0] == cur_dir() {
        1
    } else {
        0
    }
}

/// The pieces of the body of `path`, the text after its root or leading `.`
/// component, between separators.
pub open spec fn body_pieces(path: Seq<char>) -> Seq<Seq<char>> {
    split_on(path.skip(start_len(path)), '/')
}

/// `pieces` without the first `k` named pieces and the pieces among or
/// before them.
pub open spec fn drop_named(pieces: Seq<Seq<char>>, k: nat) -> Seq<Seq<char>>
    decreases pieces.len(),
{
    if k == 0 || pieces.len() == 0 {
        pieces
    } else if named(pieces[0]) {
        drop_named(pieces.drop_first(), (k - 1) as nat)
    } else {
        drop_named(pieces.drop_first(), k)
    }
}

/// `pieces` without the pieces before the first named one.
pub open spec fn trim_front(pieces: Seq<Seq<char>>) -> Seq<Seq<char>>
    decreases pieces.len(),
{
    if pieces.len() > 0 && !named(pieces[0]) {
        trim_front(pieces.drop_first())
    } else {
        pieces
    }
}

/// `pieces` without the pieces after the last named one.
pub open spec fn trim_back(pieces: Seq<Seq<char>>) -> Seq<Seq<char>>
    decreases pieces.len(),
{
    if pieces.len() > 0 && !named(pieces.last()) {
        trim_back(pieces.drop_last())
    } else {
        pieces
    }
}

/// The text of `path` after its first `k` components, as
/// `Components::as_path` gives it back: with no component taken, the path
/// without trailing separators and `.` pieces (its root or leading `.`
/// kept); otherwise the text after the `k`-th component, without leading
/// and trailing separators and `.` pieces. What lies between the remaining
/// components is kept as written.
pub open spec fn rest_text(path: Seq<char>, k: nat) -> Seq<char> {
    let n = start_len(path);
    if k == 0 {
        path.take(n) + sep_join(trim_back(body_pieces(path)))
    } else {
        sep_join(trim_back(trim_front(drop_named(body_pieces(path), (k - n) as nat))))
    }
}

/// `path` relative to `base` (`Path::strip_prefix`): when the components of
/// `base` are the first components of `path`, the text of `path` after them
/// (`rest_text`), else `None`.
pub open spec fn stripped(path: Seq<char>, base: Seq<char>) -> Option<Seq<char>> {
    let pc = path_components(path);
    let bc = path_components(base);
    if bc.len() <= pc.len() && pc.subrange(0, bc.len() as int) == bc {
        Some(rest_text(path, bc.len()))
    } else {
        None
    }
}

/// The last component of `path` when it is an ordinary name
/// (`Path::file_name`).
pub open spec fn file_name_of(path: Seq<char>) -> Option<Seq<char>> {
    let pc = path_components(path);
    if pc.len() > 0 && is_normal(pc.last()) {
        Some(pc.last())
    } else {
        None
    }
}

/// `path` without its last component (`Path::parent`); `None` for a path
/// without components or whose last component is the root.
pub open spec fn parent_of(path: Seq<char>) -> Option<Seq<char>> {
    let pc = path_components(path);
    if pc.len() > 0 && pc.last() != root_dir() {
        Some(join_parts(pc.drop_last()))
    } else {
        None
    }
}

/// The pieces of `ps[from..]` that name something (`keep_parts`), as strings.
fn keep_pieces(ps: &Vec<String>, from: usize) -> (v: Vec<String>)
    requires
        from <= ps@.len(),
    ensures
        views(v@) == keep_parts(views(ps@).subrange(from as int, ps@.len() as int)),
{
    let mut v: Vec<String> = Vec::new();
    let mut i = from;
    let dot: Vec<char> = vec!['.'];
    assert(views(ps@).subrange(from as int, from as int) =~= Seq::<Seq<char>>::empty());
    assert(views(v@) =~= Seq::<Seq<char>>::empty());
    while i < ps.len()
        invariant
            from <= i <= ps@.len(),
            dot@ == cur_dir(),
            views(v@) == keep_parts(views(ps@).subrange(from as int, i as int)),
        decreases ps.len() - i,
    {
        let ghost before = views(v@);
        let ghost sub = views(ps@).subrange(from as int, i + 1);
        assert(sub.drop_last() =~= views(ps@).subrange(from as int, i as int));
        assert(sub.last() == ps@[i as int]@);
        let piece = chars_of(ps[i].as_str());
        let is_dot = piece.len() == 1 && piece[0] == '.';
        assert(is_dot <==> piece@ == cur_dir()) by {
            if piece@.len() == 1 && piece@[0] == '.' {
                assert(piece@ =~= cur_dir());
            }
        }
        if piece.len() > 0 && !is_dot {
            let kept = ps[i].clone();
            v.push(kept);
            assert(views(v@) =~= before.push(ps@[i as int]@));
        }
        i = i + 1;
    }
    v
}

/// The components of the path `s` (`Path::components`), as strings; the root
/// is `/`, the current directory `.` and the parent directory `..`.
pub fn components_of(s: &str) -> (v: Vec<String>)
    ensures
        views(v@) == path_components(s@),
{
    let cs = chars_of(s);
    if cs.len() > 0 && cs[0] == '/' {
        let rest = string_of(&cs, 1, cs.len());
        assert(rest@ =~= s@.drop_first());
        let ps = pieces_of(rest.as_str(), '/');
        assert(views(ps@).subrange(0, ps@.len() as int) =~= views(ps@));
        let kept = keep_pieces(&ps, 0);
        let mut v: Vec<String> = Vec::new();
        let slash: Vec<char> = vec!['/'];
        let root = string_of(&slash, 0, 1);
        assert(root@ =~= root_dir());
        v.push(root);
        let mut v2 = kept;
        let ghost vk = views(v2@);
        let mut out = v;
        out.append(&mut v2);
        assert(views(out@) =~= seq![root_dir()] + vk);
        out
    } else {
        let ps = pieces_of(s, '/');
        proof {
            lemma_split_on_nonempty(s@, '/');
        }
        let first = chars_of(ps[0].as_str());
        let first_is_dot = first.len() == 1 && first[0] == '.';
        assert(first_is_dot <==> views(ps@)[0] == cur_dir()) by {
            if first@.len() == 1 && first@[0] == '.' {
                assert(first@ =~= cur_dir());
            }
        }
        if first_is_dot {
            let kept = keep_pieces(&ps, 1);
            assert(views(ps@).subrange(1, ps@.len() as int) =~= views(ps@).drop_first());
            let mut out: Vec<String> = Vec::new();
            out.push(ps[0].clone());
            let mut k = kept;
            let ghost vk = views(k@);
            out.append(&mut k);
            assert(views(out@) =~= seq![cur_dir()] + vk);
            out
        } else {
            assert(views(ps@).subrange(0, ps@.len() as int) =~= views(ps@));
            keep_pieces(&ps, 0)
        }
    }
}

/// `parts[lo..hi]` with `/` between consecutive parts.
fn sep_join_range(parts: &Vec<String>, lo: usize, hi: usize) -> (s: String)
    requires
        lo <= hi <= parts@.len(),
    ensures
        s@ == sep_join(views(parts@).subrange(lo as int, hi as int)),
{
    let mut s = String::new();
    let mut i = lo;
    assert(views(parts@).subrange(lo as int, lo as int) =~= Seq::<Seq<char>>::empty());
    while i < hi
        invariant
            lo <= i <= hi <= parts@.len(),
            s@ == sep_join(views(parts@).subrange(lo as int, i as int)),
        decreases hi - i,
    {
        let ghost sub = views(parts@).subrange(lo as int, i + 1);
        assert(sub.drop_last() =~= views(parts@).subrange(lo as int, i as int));
        if i == lo {
            s = parts[i].clone();
            assert(sub.len() == 1);
        } else {
            let with_sep = str_concat(s.as_str(), "/");
            proof {
                reveal_strlit("/");
            }
            s = str_concat(with_sep.as_str(), parts[i].as_str());
            assert(s@ =~= sep_join(sub.drop_last()) + seq!['/'] + sub.last());
        }
        i = i + 1;
    }
    s
}

/// The path whose components are `parts[lo..hi]` (`join_parts`).
pub fn join_components(parts: &Vec<String>, lo: usize, hi: usize) -> (s: String)
    requires
        lo <= hi <= parts@.len(),
    ensures
        s@ == join_parts(views(parts@).subrange(lo as int, hi as int)),
{
    if lo < hi && str_is_root(parts[lo].as_str()) {
        let rest = sep_join_range(parts, lo + 1, hi);
        proof {
            reveal_strlit("/");
        }
        assert(views(parts@).subrange(lo as int, hi as int).drop_first() =~= views(parts@).subrange(
            lo + 1,
            hi as int,
        ));
        str_concat("/", rest.as_str())
    } else {
        sep_join_range(parts, lo, hi)
    }
}

/// Whether `s` is the root component `/`.
fn str_is_root(s: &str) -> (b: bool)
    ensures
        b == (s@ == root_dir()),
{
    let cs = chars_of(s);
    let b = cs.len() == 1 && cs[0] == '/';
    assert(b <==> cs@ == root_dir()) by {
        if cs@.len() == 1 && cs@[0] == '/' {
            assert(cs@ =~= root_dir());
        }
    }
    b
}

/// Whether the component `s` is an ordinary name.
fn str_is_normal(s: &str) -> (b: bool)
    ensures
        b == is_normal(s@),
{
    let cs = chars_of(s);
    let root = cs.len() == 1 && cs[0] == '/';
    let cur = cs.len() == 1 && cs[0] == '.';
    let par = cs.len() == 2 && cs[0] == '.' && cs[1] == '.';
    assert(root <==> cs@ == root_dir()) by {
        if cs@.len() == 1 && cs@[0] == '/' {
            assert(cs@ =~= root_dir());
        }
    }
    assert(cur <==> cs@ == cur_dir()) by {
        if cs@.len() == 1 && cs@[0] == '.' {
            assert(cs@ =~= cur_dir());
        }
    }
    assert(par <==> cs@ == parent_dir()) by {
        if cs@.len() == 2 && cs@[0] == '.' && cs@[1] == '.' {
            assert(cs@ =~= parent_dir());
        }
    }
    !root && !cur && !par
}

/// `base` joined with `rel` (`Path::join`).
pub fn join_path(base: &str, rel: &str) -> (s: String)
    ensures
        s@ == joined(base@, rel@),
{
    let bc = chars_of(base);
    let rc = chars_of(rel);
    if rc.len() > 0 && rc[0] == '/' {
        string_of(&rc, 0, rc.len())
    } else if bc.len() == 0 || bc[bc.len() - 1] == '/' {
        str_concat(base, rel)
    } else {
        let with_sep = str_concat(base, "/");
        proof {
            reveal_strlit("/");
        }
        str_concat(with_sep.as_str(), rel)
    }
}

/// Whether `a[..n]` and `b[..n]` hold the same strings.
fn same_prefix(a: &Vec<String>, b: &Vec<String>, n: usize) -> (r: bool)
    requires
        n <= a@.len(),
        n <= b@.len(),
    ensures
        r == (views(a@).subrange(0, n as int) == views(b@).subrange(0, n as int)),
{
    let mut i: usize = 0;
    while i < n
        invariant
            i <= n <= a@.len(),
            n <= b@.len(),
            forall|j: int| 0 <= j < i ==> a@[j]@ == b@[j]@,
        decreases n - i,
    {
        if !crate::text::str_eq(a[i].as_str(), b[i].as_str()) {
            assert(views(a@).subrange(0, n as int)[i as int] != views(b@).subrange(0, n as int)[i as int]);
            return false;
        }
        i = i + 1;
    }
    assert(views(a@).subrange(0, n as int) =~= views(b@).subrange(0, n as int));
    true
}

/// Whether the piece `s` names a component (`named`).
fn is_named(s: &str) -> (b: bool)
    ensures
        b == named(s@),
{
    let cs = chars_of(s);
    let dot = cs.len() == 1 && cs[0] == '.';
    assert(dot <==> cs@ == cur_dir()) by {
        if cs@.len() == 1 && cs@[0] == '.' {
            assert(cs@ =~= cur_dir());
        }
    }
    cs.len() > 0 && !dot
}

/// Where `drop_named` of `ps[from..]` with `k` begins.
fn drop_named_from(ps: &Vec<String>, from: usize, k: usize) -> (i: usize)
    requires
        from <= ps@.len(),
    ensures
        from <= i <= ps@.len(),
        views(ps@).subrange(i as int, ps@.len() as int) == drop_named(
            views(ps@).subrange(from as int, ps@.len() as int),
            k as nat,
        ),
{
    let mut i = from;
    let mut left = k;
    while left > 0 && i < ps.len()
        invariant
            from <= i <= ps@.len(),
            drop_named(views(ps@).subrange(i as int, ps@.len() as int), left as nat) == drop_named(
                views(ps@).subrange(from as int, ps@.len() as int),
                k as nat,
            ),
        decreases ps.len() - i,
    {
        let ghost sub = views(ps@).subrange(i as int, ps@.len() as int);
        assert(sub.drop_first() =~= views(ps@).subrange(i + 1, ps@.len() as int));
        assert(sub[0] == ps@[i as int]@);
        if is_named(ps[i].as_str()) {
            left = left - 1;
        }
        i = i + 1;
    }
    i
}

/// Where `trim_front` of `ps[lo..hi]` begins.
fn trim_front_from(ps: &Vec<String>, lo: usize, hi: usize) -> (i: usize)
    requires
        lo <= hi <= ps@.len(),
    ensures
        lo <= i <= hi,
        views(ps@).subrange(i as int, hi as int) == trim_front(views(ps@).subrange(lo as int, hi as int)),
{
    let mut i = lo;
    while i < hi && !is_named(ps[i].as_str())
        invariant
            lo <= i <= hi <= ps@.len(),
            trim_front(views(ps@).subrange(i as int, hi as int)) == trim_front(
                views(ps@).subrange(lo as int, hi as int),
            ),
        decreases hi - i,
    {
        let ghost sub = views(ps@).subrange(i as int, hi as int);
        assert(sub.drop_first() =~= views(ps@).subrange(i + 1, hi as int));
        assert(sub[0] == ps@[i as int]@);
        i = i + 1;
    }
    proof {
        let sub = views(ps@).subrange(i as int, hi as int);
        if i < hi {
            assert(sub[0] == ps@[i as int]@);
        }
    }
    i
}

/// Where `trim_back` of `ps[lo..hi]` ends.
fn trim_back_to(ps: &Vec<String>, lo: usize, hi: usize) -> (j: usize)
    requires
        lo <= hi <= ps@.len(),
    ensures
        lo <= j <= hi,
        views(ps@).subrange(lo as int, j as int) == trim_back(views(ps@).subrange(lo as int, hi as int)),
{
    let mut j = hi;
    while j > lo && !is_named(ps[j - 1].as_str())
        invariant
            lo <= j <= hi <= ps@.len(),
            trim_back(views(ps@).subrange(lo as int, j as int)) == trim_back(
                views(ps@).subrange(lo as int, hi as int),
            ),
        decreases j,
    {
        let ghost sub = views(ps@).subrange(lo as int, j as int);
        assert(sub.drop_last() =~= views(ps@).subrange(lo as int, j - 1));
        assert(sub.last() == ps@[j - 1]@);
        j = j - 1;
    }
    proof {
        let sub = views(ps@).subrange(lo as int, j as int);
        if j > lo {
            assert(sub.last() == ps@[j - 1]@);
        }
    }
    j
}

/// How many characters of `path` come before its body (`start_len`).
fn start_length(path: &str) -> (n: usize)
    ensures
        n == start_len(path@),
        n <= path@.len(),
{
    let cs = chars_of(path);
    if cs.len() > 0 && cs[0] == '/' {
        return 1;
    }
    let ps = pieces_of(path, '/');
    proof {
        lemma_split_on_nonempty(path@, '/');
    }
    let first = chars_of(ps[0].as_str());
    let first_is_dot = first.len() == 1 && first[0] == '.';
    assert(first_is_dot <==> views(ps@)[0] == cur_dir()) by {
        if first@.len() == 1 && first@[0] == '.' {
            assert(first@ =~= cur_dir());
        }
    }
    if first_is_dot {
        assert(path@.len() > 0) by {
            if path@.len() == 0 {
                assert(split_on(path@, '/') =~= seq![Seq::<char>::empty()]);
            }
        }
        1
    } else {
        0
    }
}

/// The text of `path` after its first `k` components (`rest_text`).
fn rest_of(path: &str, k: usize) -> (r: String)
    ensures
        r@ == rest_text(path@, k as nat),
{
    let cs = chars_of(path);
    let n = start_length(path);
    let body = string_of(&cs, n, cs.len());
    assert(body@ =~= path@.skip(n as int));
    let ps = pieces_of(body.as_str(), '/');
    assert(views(ps@) == body_pieces(path@));
    assert(views(ps@).subrange(0, ps@.len() as int) =~= views(ps@));
    if k == 0 {
        let hi = trim_back_to(&ps, 0, ps.len());
        let head = string_of(&cs, 0, n);
        assert(head@ =~= path@.take(n as int));
        let tail = sep_join_range(&ps, 0, hi);
        str_concat(head.as_str(), tail.as_str())
    } else {
        let lo = drop_named_from(&ps, 0, k - n);
        let lo2 = trim_front_from(&ps, lo, ps.len());
        let hi = trim_back_to(&ps, lo2, ps.len());
        sep_join_range(&ps, lo2, hi)
    }
}

/// `path` relative to `base` (`Path::strip_prefix`): the text of `path`
/// after the components of `base` (`stripped`), or `None` when they are not
/// its first components.
pub fn strip_path_prefix(path: &str, base: &str) -> (r: Option<String>)
    ensures
        r matches Some(s) ==> stripped(path@, base@) == Some(s@),
        r is None ==> stripped(path@, base@) is None,
{
    let pc = components_of(path);
    let bc = components_of(base);
    if bc.len() <= pc.len() && same_prefix(&pc, &bc, bc.len()) {
        assert(views(bc@).subrange(0, bc@.len() as int) =~= views(bc@));
        Some(rest_of(path, bc.len()))
    } else {
        proof {
            if bc@.len() <= pc@.len() {
                assert(views(bc@).subrange(0, bc@.len() as int) =~= views(bc@));
            }
        }
        None
    }
}

/// The final component of `path` when it is an ordinary name
/// (`Path::file_name`).
pub fn file_name(path: &str) -> (r: Option<String>)
    ensures
        r matches Some(s) ==> file_name_of(path@) == Some(s@),
        r is None ==> file_name_of(path@) is None,
{
    let pc = components_of(path);
    if pc.len() > 0 && str_is_normal(pc[pc.len() - 1].as_str()) {
        Some(pc[pc.len() - 1].clone())
    } else {
        None
    }
}

/// `path` without its final component (`Path::parent`).
pub fn parent(path: &str) -> (r: Option<String>)
    ensures
        r matches Some(s) ==> parent_of(path@) == Some(s@),
        r is None ==> parent_of(path@) is None,
{
    let pc = components_of(path);
    if pc.len() > 0 && !str_is_root(pc[pc.len() - 1].as_str()) {
        assert(views(pc@).subrange(0, pc@.len() - 1) =~= views(pc@).drop_last());
        Some(join_components(&pc, 0, pc.len() - 1))
    } else {
        None
    }
}

/// A plain name: not empty, without `/`, and not `.`.
pub open spec fn plain_name(c: Seq<char>) -> bool {
    c.len() > 0 && !c.contains('/') && c != cur_dir()
}

/// A list of plain names.
pub open spec fn plain_names(parts: Seq<Seq<char>>) -> bool {
    forall|i: int| 0 <= i < parts.len() ==> plain_name(#[trigger] parts[i])
}

/// Splitting at a separator splits the two sides apart.
pub proof fn lemma_split_on_concat(a: Seq<char>, b: Seq<char>, sep: char)
    ensures
        split_on(a + seq![sep] + b, sep) == split_on(a, sep) + split_on(b, sep),
    decreases b.len(),
{
    let s = a + seq![sep] + b;
    if b.len() == 0 {
        assert(s.drop_last() =~= a);
        assert(split_on(b, sep) =~= seq![Seq::<char>::empty()]);
        assert(split_on(a, sep).push(Seq::<char>::empty()) =~= split_on(a, sep) + split_on(b, sep));
    } else {
        let b1 = b.drop_last();
        lemma_split_on_concat(a, b1, sep);
        assert(s.drop_last() =~= a + seq![sep] + b1);
        assert(s.last() == b.last());
        lemma_split_on_nonempty(b1, sep);
        lemma_split_on_nonempty(a, sep);
        let x = split_on(a, sep);
        let y = split_on(b1, sep);
        if b.last() == sep {
            assert((x + y).push(Seq::<char>::empty()) =~= x + y.push(Seq::<char>::empty()));
        } else {
            assert((x + y).update((x + y).len() - 1, (x + y).last().push(b.last())) =~= x + y.update(
                y.len() - 1,
                y.last().push(b.last()),
            ));
        }
    }
}

/// A single empty piece names nothing.
pub proof fn lemma_keep_single_empty()
    ensures
        keep_parts(seq![Seq::<char>::empty()]) == Seq::<Seq<char>>::empty(),
{
    let s = seq![Seq::<char>::empty()];
    assert(s.drop_last() =~= Seq::<Seq<char>>::empty());
    assert(keep_parts(s.drop_last()) == Seq::<Seq<char>>::empty());
    assert(s.last().len() == 0);
}

/// Keeping the named pieces of two lists keeps those of each.
pub proof fn lemma_keep_parts_concat(x: Seq<Seq<char>>, y: Seq<Seq<char>>)
    ensures
        keep_parts(x + y) == keep_parts(x) + keep_parts(y),
    decreases y.len(),
{
    if y.len() == 0 {
        assert(x + y =~= x);
        assert(keep_parts(x) + keep_parts(y) =~= keep_parts(x));
    } else {
        lemma_keep_parts_concat(x, y.drop_last());
        assert((x + y).drop_last() =~= x + y.drop_last());
        assert((x + y).last() == y.last());
        assert((keep_parts(x) + keep_parts(y.drop_last())).push(y.last()) =~= keep_parts(x) + keep_parts(
            y.drop_last(),
        ).push(y.last()));
    }
}

/// Plain names are all kept.
pub proof fn lemma_keep_plain(parts: Seq<Seq<char>>)
    requires
        plain_names(parts),
    ensures
        keep_parts(parts) == parts,
    decreases parts.len(),
{
    if parts.len() > 0 {
        assert(plain_names(parts.drop_last())) by {
            assert forall|i: int| 0 <= i < parts.drop_last().len() implies plain_name(
                #[trigger] parts.drop_last()[i],
            ) by {
                assert(parts.drop_last()[i] == parts[i]);
            }
        }
        lemma_keep_plain(parts.drop_last());
        assert(plain_name(parts[parts.len() - 1]));
        assert(parts.drop_last().push(parts.last()) =~= parts);
    }
}

/// The text of plain names joined with `/` splits back into them, and
/// starts with the first name.
pub proof fn lemma_split_sep_join(parts: Seq<Seq<char>>)
    requires
        parts.len() > 0,
        plain_names(parts),
    ensures
        split_on(sep_join(parts), '/') == parts,
        sep_join(parts).len() > 0,
        sep_join(parts)[0] == parts[0][0],
    decreases parts.len(),
{
    assert(plain_name(parts[0]));
    if parts.len() == 1 {
        lemma_split_on_without_sep(parts[0], '/');
        assert(seq![parts[0]] =~= parts);
    } else {
        let init = parts.drop_last();
        assert(plain_names(init)) by {
            assert forall|i: int| 0 <= i < init.len() implies plain_name(#[trigger] init[i]) by {
                assert(init[i] == parts[i]);
            }
        }
        lemma_split_sep_join(init);
        assert(plain_name(parts[parts.len() - 1]));
        lemma_split_on_without_sep(parts.last(), '/');
        lemma_split_on_concat(sep_join(init), parts.last(), '/');
        assert(init + seq![parts.last()] =~= parts);
        assert(init[0] == parts[0]);
    }
}

/// The components of plain names joined with `/` are those names.
pub proof fn lemma_components_of_sep_join(parts: Seq<Seq<char>>)
    requires
        plain_names(parts),
    ensures
        path_components(sep_join(parts)) == parts,
{
    if parts.len() == 0 {
        assert(split_on(Seq::<char>::empty(), '/') =~= seq![Seq::<char>::empty()]);
        lemma_keep_single_empty();
        assert(parts =~= Seq::<Seq<char>>::empty());
    } else {
        lemma_split_sep_join(parts);
        assert(plain_name(parts[0]));
        assert(parts[0][0] != '/') by {
            assert(parts[0].contains(parts[0][0]));
        }
        lemma_keep_plain(parts);
    }
}

/// Plain names joined with `/` give back their own path.
pub proof fn lemma_join_parts_plain(parts: Seq<Seq<char>>)
    requires
        plain_names(parts),
    ensures
        join_parts(parts) == sep_join(parts),
{
    if parts.len() > 0 {
        assert(plain_name(parts[0]));
        assert(parts[0] != root_dir()) by {
            if parts[0] == root_dir() {
                assert(parts[0].contains('/')) by {
                    assert(parts[0][0] == '/');
                }
            }
        }
    }
}

/// The components of `x + "/" + rel`, for `rel` made of plain names, are
/// those of `x` (read as a base, with the separator after it) followed by
/// the names.
proof fn lemma_components_sep_concat(x: Seq<char>, parts: Seq<Seq<char>>)
    requires
        parts.len() > 0,
        plain_names(parts),
    ensures
        path_components(x + seq!['/'] + sep_join(parts)) == path_components(x + seq!['/']) + parts,
        path_components(x + seq!['/']) == (if x.len() == 0 {
            seq![root_dir()]
        } else {
            path_components(x)
        }),
{
    let rel = sep_join(parts);
    let s = x + seq!['/'] + rel;
    let xs = x + seq!['/'];
    lemma_split_sep_join(parts);
    lemma_keep_plain(parts);
    lemma_split_on_concat(x, Seq::<char>::empty(), '/');
    assert(x + seq!['/'] + Seq::<char>::empty() =~= xs);
    assert(split_on(Seq::<char>::empty(), '/') =~= seq![Seq::<char>::empty()]);
    lemma_keep_single_empty();
    if x.len() == 0 {
        assert(s =~= seq!['/'] + rel);
        assert(s.drop_first() =~= rel);
        assert(xs.drop_first() =~= Seq::<char>::empty());
        assert(seq![root_dir()] + Seq::<Seq<char>>::empty() =~= seq![root_dir()]);
    } else if x[0] == '/' {
        let x1 = x.drop_first();
        assert(s.drop_first() =~= x1 + seq!['/'] + rel);
        assert(xs.drop_first() =~= x1 + seq!['/']);
        lemma_split_on_concat(x1, rel, '/');
        lemma_split_on_concat(x1, Seq::<char>::empty(), '/');
        assert(x1 + seq!['/'] + Seq::<char>::empty() =~= x1 + seq!['/']);
        lemma_keep_parts_concat(split_on(x1, '/'), parts);
        lemma_keep_parts_concat(split_on(x1, '/'), seq![Seq::<char>::empty()]);
        assert(keep_parts(split_on(x1, '/')) + Seq::<Seq<char>>::empty() =~= keep_parts(
            split_on(x1, '/'),
        ));
        assert(seq![root_dir()] + (keep_parts(split_on(x1, '/')) + parts) =~= (seq![root_dir()]
            + keep_parts(split_on(x1, '/'))) + parts);
        assert(x.drop_first() == x1);
    } else {
        lemma_split_on_concat(x, rel, '/');
        lemma_split_on_nonempty(x, '/');
        let sx = split_on(x, '/');
        assert(s[0] == x[0]);
        assert(xs[0] == x[0]);
        assert((sx + parts)[0] == sx[0]);
        assert((sx + seq![Seq::<char>::empty()])[0] == sx[0]);
        if sx[0] == cur_dir() {
            assert((sx + parts).drop_first() =~= sx.drop_first() + parts);
            assert((sx + seq![Seq::<char>::empty()]).drop_first() =~= sx.drop_first() + seq![
                Seq::<char>::empty(),
            ]);
            lemma_keep_parts_concat(sx.drop_first(), parts);
            lemma_keep_parts_concat(sx.drop_first(), seq![Seq::<char>::empty()]);
            assert(keep_parts(sx.drop_first()) + Seq::<Seq<char>>::empty() =~= keep_parts(
                sx.drop_first(),
            ));
            assert(seq![cur_dir()] + (keep_parts(sx.drop_first()) + parts) =~= (seq![cur_dir()]
                + keep_parts(sx.drop_first())) + parts);
        } else {
            lemma_keep_parts_concat(sx, parts);
            lemma_keep_parts_concat(sx, seq![Seq::<char>::empty()]);
            assert(keep_parts(sx) + Seq::<Seq<char>>::empty() =~= keep_parts(sx));
        }
    }
}

/// The components of `base` joined with plain names are those of `base`
/// followed by the names.
pub proof fn lemma_components_of_joined(base: Seq<char>, parts: Seq<Seq<char>>)
    requires
        parts.len() > 0,
        plain_names(parts),
    ensures
        path_components(joined(base, sep_join(parts))) == path_components(base) + parts,
{
    let rel = sep_join(parts);
    lemma_split_sep_join(parts);
    assert(plain_name(parts[0]));
    assert(rel[0] != '/') by {
        assert(parts[0].contains(parts[0][0]));
    }
    if base.len() == 0 {
        lemma_components_of_sep_join(parts);
        assert(base + rel =~= rel);
        assert(split_on(base, '/') =~= seq![Seq::<char>::empty()]);
        lemma_keep_single_empty();
        assert(Seq::<Seq<char>>::empty() + parts =~= parts);
    } else if base.last() == '/' {
        let x = base.drop_last();
        assert(x + seq!['/'] =~= base);
        assert(base + rel =~= x + seq!['/'] + rel);
        lemma_components_sep_concat(x, parts);
    } else {
        lemma_components_sep_concat(base, parts);
        // `base + "/"` reads as `base`: the trailing separator adds nothing
        assert(base.len() > 0);
    }
}

/// Joining two non-empty lists of names with `/` puts a `/` between their
/// joined texts.
pub proof fn lemma_sep_join_concat(a: Seq<Seq<char>>, b: Seq<Seq<char>>)
    requires
        a.len() > 0,
        b.len() > 0,
    ensures
        sep_join(a + b) == sep_join(a) + seq!['/'] + sep_join(b),
    decreases b.len(),
{
    if b.len() == 1 {
        assert((a + b).drop_last() =~= a);
        assert((a + b).last() == b[0]);
    } else {
        lemma_sep_join_concat(a, b.drop_last());
        assert((a + b).drop_last() =~= a + b.drop_last());
        assert((a + b).last() == b.last());
        assert(sep_join(a) + seq!['/'] + sep_join(b.drop_last()) + seq!['/'] + b.last() =~= sep_join(a)
            + seq!['/'] + (sep_join(b.drop_last()) + seq!['/'] + b.last()));
    }
}

/// Plain names joined with `/` neither start nor end with `/`.
proof fn lemma_sep_join_ends(parts: Seq<Seq<char>>)
    requires
        parts.len() > 0,
        plain_names(parts),
    ensures
        sep_join(parts).len() > 0,
        sep_join(parts)[0] != '/',
        sep_join(parts).last() != '/',
{
    lemma_split_sep_join(parts);
    assert(plain_name(parts[0]));
    assert(parts[0][0] != '/') by {
        assert(parts[0].contains(parts[0][0]));
    }
    let l = parts.last();
    assert(plain_name(parts[parts.len() - 1]));
    assert(l.last() != '/') by {
        assert(l.contains(l[l.len() - 1]));
    }
    if parts.len() > 1 {
        assert(sep_join(parts).last() == l.last());
    }
}

/// Joining `base` with the names `scope` and then with the names `parts` is
/// joining it with `scope` followed by `parts`.
pub proof fn lemma_joined_twice(base: Seq<char>, scope: Seq<Seq<char>>, parts: Seq<Seq<char>>)
    requires
        scope.len() > 0,
        parts.len() > 0,
        plain_names(scope),
        plain_names(parts),
    ensures
        joined(joined(base, sep_join(scope)), sep_join(parts)) == joined(base, sep_join(scope + parts)),
{
    let sc = sep_join(scope);
    let pa = sep_join(parts);
    lemma_sep_join_ends(scope);
    lemma_sep_join_ends(parts);
    lemma_sep_join_concat(scope, parts);
    let x = joined(base, sc);
    assert(x.len() > 0 && x.last() == sc.last());
    assert((sc + seq!['/'] + pa)[0] == sc[0]);
    if base.len() == 0 {
        assert(x == sc);
    } else if base.last() == '/' {
        assert(base + (sc + seq!['/'] + pa) =~= x + seq!['/'] + pa);
    } else {
        assert(base + seq!['/'] + (sc + seq!['/'] + pa) =~= x + seq!['/'] + pa);
    }
}

/// Taking the first character off a text: when it is the separator, the
/// first piece, empty, goes; otherwise it is taken off the first piece.
pub proof fn lemma_split_on_drop_first(t: Seq<char>, sep: char)
    requires
        t.len() > 0,
    ensures
        ({
            let q = split_on(t.drop_first(), sep);
            if t[0] == sep {
                split_on(t, sep) == seq![Seq::<char>::empty()] + q
            } else {
                split_on(t, sep) == q.update(0, seq![t[0]] + q[0])
            }
        }),
    decreases t.len(),
{
    let q = split_on(t.drop_first(), sep);
    if t.len() == 1 {
        assert(t.drop_first() =~= Seq::<char>::empty());
        assert(t.drop_last() =~= Seq::<char>::empty());
        assert(q =~= seq![Seq::<char>::empty()]);
        if t[0] == sep {
            assert(split_on(t, sep) =~= seq![Seq::<char>::empty()] + q);
        } else {
            assert(Seq::<char>::empty().push(t[0]) =~= seq![t[0]] + Seq::<char>::empty());
            assert(split_on(t, sep) =~= q.update(0, seq![t[0]] + q[0]));
        }
    } else {
        let u = t.drop_last();
        let c = t.last();
        lemma_split_on_drop_first(u, sep);
        let qu = split_on(u.drop_first(), sep);
        lemma_split_on_nonempty(u.drop_first(), sep);
        lemma_split_on_nonempty(u, sep);
        assert(t.drop_first().drop_last() =~= u.drop_first());
        assert(t.drop_first().last() == c);
        assert(u[0] == t[0]);
        if t[0] == sep {
            if c == sep {
                assert(split_on(t, sep) =~= seq![Seq::<char>::empty()] + q);
            } else {
                assert(split_on(t, sep) =~= seq![Seq::<char>::empty()] + q);
            }
        } else {
            if c == sep {
                assert(split_on(t, sep) =~= q.update(0, seq![t[0]] + q[0]));
            } else {
                if qu.len() == 1 {
                    assert((seq![t[0]] + qu[0]).push(c) =~= seq![t[0]] + qu[0].push(c));
                }
                assert(split_on(t, sep) =~= q.update(0, seq![t[0]] + q[0]));
            }
        }
    }
}

/// A leading empty piece names nothing.
proof fn lemma_keep_leading_empty(x: Seq<Seq<char>>)
    ensures
        keep_parts(seq![Seq::<char>::empty()] + x) == keep_parts(x),
{
    lemma_keep_parts_concat(seq![Seq::<char>::empty()], x);
    lemma_keep_single_empty();
    assert(Seq::<Seq<char>>::empty() + keep_parts(x) =~= keep_parts(x));
}

/// The pieces kept from a list that starts with `p` are `p`, when it names
/// something, followed by those kept from the rest.
proof fn lemma_keep_parts_first(ps: Seq<Seq<char>>)
    requires
        ps.len() > 0,
    ensures
        keep_parts(ps) == (if named(ps[0]) {
            seq![ps[0]]
        } else {
            Seq::<Seq<char>>::empty()
        }) + keep_parts(ps.drop_first()),
{
    let one = seq![ps[0]];
    assert(one + ps.drop_first() =~= ps);
    lemma_keep_parts_concat(one, ps.drop_first());
    assert(one.drop_last() =~= Seq::<Seq<char>>::empty());
    assert(keep_parts(Seq::<Seq<char>>::empty()) == Seq::<Seq<char>>::empty());
    assert(one.last() == ps[0]);
    if named(ps[0]) {
        assert(Seq::<Seq<char>>::empty().push(ps[0]) =~= one);
    }
}

/// When no piece is kept, no piece names anything.
proof fn lemma_keep_parts_none(ps: Seq<Seq<char>>)
    requires
        keep_parts(ps).len() == 0,
    ensures
        forall|i: int| 0 <= i < ps.len() ==> !named(#[trigger] ps[i]),
    decreases ps.len(),
{
    if ps.len() > 0 {
        lemma_keep_parts_first(ps);
        lemma_keep_parts_none(ps.drop_first());
        assert forall|i: int| 0 <= i < ps.len() implies !named(#[trigger] ps[i]) by {
            if i > 0 {
                assert(ps[i] == ps.drop_first()[i - 1]);
            }
        }
    }
}

/// A path has as many components as its start (root or leading `.`) and
/// the named pieces of its body.
proof fn lemma_components_count(t: Seq<char>)
    ensures
        path_components(t).len() == start_len(t) + keep_parts(body_pieces(t)).len(),
{
    if t.len() > 0 && t[0] == '/' {
        assert(t.skip(1) =~= t.drop_first());
    } else if split_on(t, '/')[0] == cur_dir() {
        assert(t.len() > 0) by {
            if t.len() == 0 {
                assert(split_on(t, '/') =~= seq![Seq::<char>::empty()]);
                assert(split_on(t, '/')[0].len() == 0);
                assert(cur_dir().len() == 1);
            }
        }
        lemma_split_on_drop_first(t, '/');
        let q = split_on(t.drop_first(), '/');
        lemma_split_on_nonempty(t.drop_first(), '/');
        let ps = split_on(t, '/');
        assert(ps[0] == seq![t[0]] + q[0]);
        assert(q[0].len() == 0);
        assert(q[0] =~= Seq::<char>::empty());
        assert(q =~= seq![Seq::<char>::empty()] + ps.drop_first());
        assert(t.skip(1) =~= t.drop_first());
        lemma_keep_leading_empty(ps.drop_first());
    } else {
        assert(t.skip(0) =~= t);
    }
}

/// A path that is not empty has a component.
proof fn lemma_components_nonempty(t: Seq<char>)
    requires
        t.len() > 0,
    ensures
        path_components(t).len() > 0,
{
    if t[0] != '/' && split_on(t, '/')[0] != cur_dir() {
        lemma_split_on_drop_first(t, '/');
        lemma_split_on_nonempty(t.drop_first(), '/');
        let ps = split_on(t, '/');
        assert(named(ps[0]));
        if keep_parts(ps).len() == 0 {
            lemma_keep_parts_none(ps);
        }
    }
}

/// Taking as many named pieces as `b` has off `b + p` leaves some unnamed
/// pieces `d`, then `p`.
proof fn lemma_drop_named_concat(b: Seq<Seq<char>>, p: Seq<Seq<char>>) -> (d: Seq<Seq<char>>)
    ensures
        forall|i: int| 0 <= i < d.len() ==> !named(#[trigger] d[i]),
        drop_named(b + p, keep_parts(b).len()) == d + p,
    decreases b.len(),
{
    if b.len() == 0 {
        assert(b + p =~= p);
        assert(Seq::<Seq<char>>::empty() + p =~= p);
        Seq::<Seq<char>>::empty()
    } else if keep_parts(b).len() == 0 {
        lemma_keep_parts_none(b);
        b
    } else {
        lemma_keep_parts_first(b);
        assert((b + p).drop_first() =~= b.drop_first() + p);
        assert((b + p)[0] == b[0]);
        lemma_drop_named_concat(b.drop_first(), p)
    }
}

/// Unnamed pieces in front are trimmed away.
proof fn lemma_trim_front_unnamed(d: Seq<Seq<char>>, p: Seq<Seq<char>>)
    requires
        forall|i: int| 0 <= i < d.len() ==> !named(#[trigger] d[i]),
    ensures
        trim_front(d + p) == trim_front(p),
    decreases d.len(),
{
    if d.len() == 0 {
        assert(d + p =~= p);
    } else {
        assert((d + p)[0] == d[0]);
        assert((d + p).drop_first() =~= d.drop_first() + p);
        assert forall|i: int| 0 <= i < d.drop_first().len() implies !named(#[trigger] d.drop_first()[i]) by {
            assert(d.drop_first()[i] == d[i + 1]);
        }
        lemma_trim_front_unnamed(d.drop_first(), p);
    }
}

/// A path `x/rel` starts as the path `x`, or `x/`, does.
proof fn lemma_start_len_joined(base: Seq<char>, x: Seq<char>, rel: Seq<char>)
    requires
        base.len() > 0,
        base == x || base == x + seq!['/'],
        rel.len() > 0,
    ensures
        start_len(x + seq!['/'] + rel) == start_len(base),
{
    let path = x + seq!['/'] + rel;
    if base[0] == '/' {
        if x.len() > 0 {
            assert(path[0] == x[0]);
        }
    } else {
        assert(x.len() > 0);
        assert(path[0] == x[0] && x[0] == base[0]);
        lemma_split_on_concat(x, rel, '/');
        lemma_split_on_nonempty(x, '/');
        assert((split_on(x, '/') + split_on(rel, '/'))[0] == split_on(x, '/')[0]);
        if base != x {
            lemma_split_on_concat(x, Seq::<char>::empty(), '/');
            assert(x + seq!['/'] + Seq::<char>::empty() =~= base);
            assert((split_on(x, '/') + split_on(Seq::<char>::empty(), '/'))[0] == split_on(x, '/')[0]);
        }
    }
}

/// A path below `base`, where `base` lies under `root`, lies under `root`
/// too.
pub proof fn lemma_strip_below(base: Seq<char>, root: Seq<char>, parts: Seq<Seq<char>>)
    requires
        parts.len() > 0,
        plain_names(parts),
        stripped(base, root) is Some,
    ensures
        stripped(joined(base, sep_join(parts)), root) is Some,
{
    lemma_components_of_joined(base, parts);
    let rc = path_components(root);
    let oc = path_components(base);
    assert((oc + parts).subrange(0, rc.len() as int) =~= oc.subrange(0, rc.len() as int));
}

/// Taking `base` off `base` joined with a relative path of plain names gives
/// that relative path back.
pub proof fn lemma_strip_joined(base: Seq<char>, parts: Seq<Seq<char>>)
    requires
        parts.len() > 0,
        plain_names(parts),
    ensures
        stripped(joined(base, sep_join(parts)), base) == Some(sep_join(parts)),
{
    let rel = sep_join(parts);
    let path = joined(base, rel);
    lemma_components_of_joined(base, parts);
    let bc = path_components(base);
    let pc = bc + parts;
    assert(pc.subrange(0, bc.len() as int) =~= bc);
    lemma_split_sep_join(parts);
    lemma_sep_join_ends(parts);
    assert(plain_name(parts[0]));
    assert(plain_name(parts[parts.len() - 1]));
    assert(trim_back(parts) == parts);
    assert(trim_front(parts) == parts);
    if base.len() == 0 {
        assert(path == rel);
        assert(split_on(base, '/') =~= seq![Seq::<char>::empty()]);
        lemma_keep_single_empty();
        assert(bc.len() == 0);
        assert(start_len(rel) == 0);
        assert(rel.skip(0) =~= rel);
        assert(rel.take(0) + sep_join(parts) =~= rel);
    } else {
        let x = if base.last() == '/' {
            base.drop_last()
        } else {
            base
        };
        assert(path =~= x + seq!['/'] + rel);
        assert(base == x || base =~= x + seq!['/']);
        let n = start_len(base);
        lemma_start_len_joined(base, x, rel);
        lemma_components_count(base);
        lemma_components_nonempty(base);
        if x.len() < n {
            assert(x.len() == 0);
            assert(base =~= seq!['/']);
            assert(path.skip(1) =~= rel);
            assert(base.skip(1) =~= Seq::<char>::empty());
            assert(split_on(Seq::<char>::empty(), '/') =~= seq![Seq::<char>::empty()]);
            lemma_keep_single_empty();
        } else {
            let y = x.skip(n);
            assert(path.skip(n) =~= y + seq!['/'] + rel);
            lemma_split_on_concat(y, rel, '/');
            if base.last() == '/' {
                assert(base.skip(n) =~= y + seq!['/'] + Seq::<char>::empty());
                lemma_split_on_concat(y, Seq::<char>::empty(), '/');
                assert(split_on(Seq::<char>::empty(), '/') =~= seq![Seq::<char>::empty()]);
                lemma_keep_parts_concat(split_on(y, '/'), seq![Seq::<char>::empty()]);
                lemma_keep_single_empty();
                assert(keep_parts(split_on(y, '/')) + Seq::<Seq<char>>::empty() =~= keep_parts(
                    split_on(y, '/'),
                ));
            } else {
                assert(base.skip(n) =~= y);
            }
            assert(keep_parts(body_pieces(base)) == keep_parts(split_on(y, '/')));
            let d = lemma_drop_named_concat(split_on(y, '/'), parts);
            lemma_trim_front_unnamed(d, parts);
        }
    }
}

} // verus!
