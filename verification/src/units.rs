//! The set of units that `readd` copies: each unit once, in path order
//! (the order of `std::path::Path`, component by component), as a
//! `BTreeSet` of paths would hold them.
use vstd::prelude::*;

use crate::paths::{components_of, cur_dir, parent_dir, path_components, root_dir, views};
use crate::text::chars_of;

verus! {

/// Lexicographic order of texts, character by character (for UTF-8 text
/// this is the order of its bytes).
pub open spec fn chars_lt(a: Seq<char>, b: Seq<char>) -> bool
    decreases a.len(),
{
    if a.len() == 0 {
        b.len() > 0
    } else if b.len() == 0 {
        false
    } else if a[0] != b[0] {
        a[0] < b[0]
    } else {
        chars_lt(a.drop_first(), b.drop_first())
    }
}

/// The rank of a component's kind: the root, then `.`, then `..`, then names.
pub open spec fn comp_rank(c: Seq<char>) -> int {
    if c == root_dir() {
        0
    } else if c == cur_dir() {
        1
    } else if c == parent_dir() {
        2
    } else {
        3
    }
}

/// The order of components: by kind, and names by their text.
pub open spec fn comp_lt(a: Seq<char>, b: Seq<char>) -> bool {
    comp_rank(a) < comp_rank(b) || (comp_rank(a) == 3 && comp_rank(b) == 3 && chars_lt(a, b))
}

/// Lexicographic order of component lists.
pub open spec fn comps_lt(x: Seq<Seq<char>>, y: Seq<Seq<char>>) -> bool
    decreases x.len(),
{
    if x.len() == 0 {
        y.len() > 0
    } else if y.len() == 0 {
        false
    } else if x[0] != y[0] {
        comp_lt(x[0], y[0])
    } else {
        comps_lt(x.drop_first(), y.drop_first())
    }
}

/// The order of paths: by their components.
pub open spec fn path_lt(a: Seq<char>, b: Seq<char>) -> bool {
    comps_lt(path_components(a), path_components(b))
}

/// `chars_lt` is a strict total order.
pub proof fn lemma_chars_lt_order(a: Seq<char>, b: Seq<char>, c: Seq<char>)
    ensures
        !chars_lt(a, a),
        a != b ==> chars_lt(a, b) || chars_lt(b, a),
        chars_lt(a, b) ==> !chars_lt(b, a),
        chars_lt(a, b) && chars_lt(b, c) ==> chars_lt(a, c),
    decreases a.len(),
{
    if a.len() > 0 && b.len() > 0 && c.len() > 0 {
        lemma_chars_lt_order(a.drop_first(), b.drop_first(), c.drop_first());
    } else if a.len() > 0 && b.len() > 0 {
        lemma_chars_lt_order(a.drop_first(), b.drop_first(), b.drop_first());
    } else if a.len() > 0 {
        lemma_chars_lt_order(a.drop_first(), a.drop_first(), a.drop_first());
    }
    if a != b && a.len() > 0 && b.len() > 0 && a[0] == b[0] {
        assert(a.drop_first() != b.drop_first()) by {
            if a.drop_first() == b.drop_first() {
                assert(a =~= seq![a[0]] + a.drop_first());
                assert(b =~= seq![b[0]] + b.drop_first());
            }
        }
    }
    if a.len() == 0 && b.len() == 0 {
        assert(a =~= b);
    }
}

/// `comp_lt` is a strict total order.
pub proof fn lemma_comp_lt_order(a: Seq<char>, b: Seq<char>, c: Seq<char>)
    ensures
        !comp_lt(a, a),
        a != b ==> comp_lt(a, b) || comp_lt(b, a),
        comp_lt(a, b) ==> !comp_lt(b, a),
        comp_lt(a, b) && comp_lt(b, c) ==> comp_lt(a, c),
{
    lemma_chars_lt_order(a, b, c);
}

/// `comps_lt` is a strict total order.
pub proof fn lemma_comps_lt_order(x: Seq<Seq<char>>, y: Seq<Seq<char>>, z: Seq<Seq<char>>)
    ensures
        !comps_lt(x, x),
        x != y ==> comps_lt(x, y) || comps_lt(y, x),
        comps_lt(x, y) ==> !comps_lt(y, x),
        comps_lt(x, y) && comps_lt(y, z) ==> comps_lt(x, z),
    decreases x.len(),
{
    if x.len() > 0 && y.len() > 0 && z.len() > 0 {
        lemma_comps_lt_order(x.drop_first(), y.drop_first(), z.drop_first());
        lemma_comp_lt_order(x[0], y[0], z[0]);
    } else if x.len() > 0 && y.len() > 0 {
        lemma_comps_lt_order(x.drop_first(), y.drop_first(), y.drop_first());
        lemma_comp_lt_order(x[0], y[0], y[0]);
    } else if x.len() > 0 {
        lemma_comps_lt_order(x.drop_first(), x.drop_first(), x.drop_first());
        lemma_comp_lt_order(x[0], x[0], x[0]);
    }
    if x != y && x.len() > 0 && y.len() > 0 && x[0] == y[0] {
        assert(x.drop_first() != y.drop_first()) by {
            if x.drop_first() == y.drop_first() {
                assert(x =~= seq![x[0]] + x.drop_first());
                assert(y =~= seq![y[0]] + y.drop_first());
            }
        }
    }
    if x.len() == 0 && y.len() == 0 {
        assert(x =~= y);
    }
}

/// Whether the text `a` comes before `b`.
fn text_lt(a: &Vec<char>, b: &Vec<char>) -> (r: bool)
    ensures
        r == chars_lt(a@, b@),
{
    let mut i: usize = 0;
    assert(a@.skip(0) =~= a@);
    assert(b@.skip(0) =~= b@);
    while i < a.len() && i < b.len() && a[i] == b[i]
        invariant
            i <= a@.len(),
            i <= b@.len(),
            chars_lt(a@, b@) == chars_lt(a@.skip(i as int), b@.skip(i as int)),
        decreases a.len() - i,
    {
        assert(a@.skip(i as int).drop_first() =~= a@.skip(i + 1));
        assert(b@.skip(i as int).drop_first() =~= b@.skip(i + 1));
        i = i + 1;
    }
    if i == a.len() {
        i < b.len()
    } else if i == b.len() {
        false
    } else {
        assert(a@.skip(i as int)[0] == a@[i as int]);
        assert(b@.skip(i as int)[0] == b@[i as int]);
        a[i] < b[i]
    }
}

/// The rank of a component's kind (`comp_rank`).
fn rank_of(c: &Vec<char>) -> (r: u8)
    ensures
        r == comp_rank(c@),
{
    if c.len() == 1 && c[0] == '/' {
        assert(c@ =~= root_dir());
        0
    } else if c.len() == 1 && c[0] == '.' {
        assert(c@ =~= cur_dir());
        assert(c@ != root_dir());
        1
    } else if c.len() == 2 && c[0] == '.' && c[1] == '.' {
        assert(c@ =~= parent_dir());
        2
    } else {
        assert(c@ != root_dir() && c@ != cur_dir() && c@ != parent_dir()) by {
            if c@ == root_dir() {
                assert(c@[0] == '/');
            }
            if c@ == cur_dir() {
                assert(c@[0] == '.');
            }
            if c@ == parent_dir() {
                assert(c@[0] == '.' && c@[1] == '.');
            }
        }
        3
    }
}

/// Whether two texts are equal.
fn text_eq(a: &Vec<char>, b: &Vec<char>) -> (r: bool)
    ensures
        r == (a@ == b@),
{
    if a.len() != b.len() {
        return false;
    }
    let mut i: usize = 0;
    while i < a.len()
        invariant
            a@.len() == b@.len(),
            i <= a@.len(),
            forall|j: int| 0 <= j < i ==> a@[j] == b@[j],
        decreases a.len() - i,
    {
        if a[i] != b[i] {
            return false;
        }
        i = i + 1;
    }
    assert(a@ =~= b@);
    true
}

/// The components of a path, each as characters.
fn component_chars(path: &str) -> (v: Vec<Vec<char>>)
    ensures
        v@.map_values(|c: Vec<char>| c@) == path_components(path@),
{
    let comps = components_of(path);
    let mut v: Vec<Vec<char>> = Vec::new();
    let mut i: usize = 0;
    assert(v@.map_values(|c: Vec<char>| c@) =~= views(comps@).take(0));
    while i < comps.len()
        invariant
            i <= comps@.len(),
            views(comps@) == path_components(path@),
            v@.map_values(|c: Vec<char>| c@) == views(comps@).take(i as int),
        decreases comps.len() - i,
    {
        let ghost before = v@.map_values(|c: Vec<char>| c@);
        let cs = chars_of(comps[i].as_str());
        assert(cs@ == views(comps@)[i as int]);
        v.push(cs);
        assert(v@.map_values(|c: Vec<char>| c@) =~= before.push(cs@));
        assert(v@.map_values(|c: Vec<char>| c@) =~= views(comps@).take(i + 1));
        i = i + 1;
    }
    assert(views(comps@).take(comps@.len() as int) =~= views(comps@));
    v
}

/// How the path with components `x` compares with the one with components
/// `y`: less (-1), same components (0) or greater (1).
fn compare_components(x: &Vec<Vec<char>>, y: &Vec<Vec<char>>) -> (r: i8)
    ensures
        r == -1 <==> comps_lt(x@.map_values(|c: Vec<char>| c@), y@.map_values(|c: Vec<char>| c@)),
        r == 0 <==> x@.map_values(|c: Vec<char>| c@) == y@.map_values(|c: Vec<char>| c@),
        r == -1 || r == 0 || r == 1,
{
    let ghost xs = x@.map_values(|c: Vec<char>| c@);
    let ghost ys = y@.map_values(|c: Vec<char>| c@);
    proof {
        lemma_comps_lt_order(xs, ys, ys);
    }
    let mut i: usize = 0;
    assert(xs.skip(0) =~= xs);
    assert(ys.skip(0) =~= ys);
    while i < x.len() && i < y.len() && text_eq(&x[i], &y[i])
        invariant
            i <= x@.len(),
            i <= y@.len(),
            xs == x@.map_values(|c: Vec<char>| c@),
            ys == y@.map_values(|c: Vec<char>| c@),
            comps_lt(xs, ys) == comps_lt(xs.skip(i as int), ys.skip(i as int)),
            forall|j: int| 0 <= j < i ==> xs[j] == ys[j],
        decreases x.len() - i,
    {
        assert(xs.skip(i as int).drop_first() =~= xs.skip(i + 1));
        assert(ys.skip(i as int).drop_first() =~= ys.skip(i + 1));
        assert(xs.skip(i as int)[0] == xs[i as int]);
        assert(ys.skip(i as int)[0] == ys[i as int]);
        i = i + 1;
    }
    if i == x.len() && i == y.len() {
        assert(xs =~= ys);
        0
    } else if i == x.len() {
        assert(xs != ys) by {
            assert(xs.len() != ys.len());
        }
        -1
    } else if i == y.len() {
        assert(xs != ys) by {
            assert(xs.len() != ys.len());
        }
        1
    } else {
        assert(xs.skip(i as int)[0] == xs[i as int]);
        assert(ys.skip(i as int)[0] == ys[i as int]);
        assert(xs != ys) by {
            assert(xs[i as int] != ys[i as int]);
        }
        let ra = rank_of(&x[i]);
        let rb = rank_of(&y[i]);
        let less = ra < rb || (ra == 3 && rb == 3 && text_lt(&x[i], &y[i]));
        if less {
            -1
        } else {
            1
        }
    }
}

/// Each re-add unit once, in path order.
pub struct UnitSet {
    units: Vec<String>,
}

impl View for UnitSet {
    type V = Seq<Seq<char>>;

    /// The units, in order.
    closed spec fn view(&self) -> Seq<Seq<char>> {
        views(self.units@)
    }
}

/// Whether `units` are in strictly increasing path order (so no two have
/// the same components).
pub open spec fn path_sorted(units: Seq<Seq<char>>) -> bool {
    forall|i: int, j: int| 0 <= i < j < units.len() ==> path_lt(units[i], units[j])
}

/// Whether some unit of `units` has the components of `unit`.
pub open spec fn holds_path(units: Seq<Seq<char>>, unit: Seq<char>) -> bool {
    exists|i: int| 0 <= i < units.len() && path_components(units[i]) == path_components(unit)
}

impl UnitSet {
    #[verifier::type_invariant]
    closed spec fn sorted(self) -> bool {
        path_sorted(views(self.units@))
    }

    /// No units.
    pub fn new() -> (s: Self)
        ensures
            s@ == Seq::<Seq<char>>::empty(),
    {
        let s = UnitSet { units: Vec::new() };
        assert(s@ =~= Seq::<Seq<char>>::empty());
        s
    }

    /// Adds `unit` unless a unit with the same components is already held
    /// (`BTreeSet::insert`): it goes in its place in path order.
    pub fn insert(&mut self, unit: String) -> (added: bool)
        ensures
            added == !holds_path(old(self)@, unit@),
            !added ==> final(self)@ == old(self)@,
            added ==> exists|k: int|
                0 <= k <= old(self)@.len() && final(self)@ == old(self)@.insert(k, unit@),
            path_sorted(final(self)@),
    {
        proof {
            use_type_invariant(&*self);
        }
        let ghost old_units = views(self.units@);
        let target = component_chars(unit.as_str());
        let ghost tc = path_components(unit@);
        let mut k: usize = 0;
        let mut found_equal = false;
        while k < self.units.len()
            invariant_except_break
                k <= self.units@.len(),
                old_units == views(self.units@),
                path_sorted(old_units),
                target@.map_values(|c: Vec<char>| c@) == tc,
                tc == path_components(unit@),
                !found_equal,
                forall|i: int| 0 <= i < k ==> path_lt(old_units[i], unit@),
            ensures
                k <= self.units@.len(),
                old_units == views(self.units@),
                forall|i: int| 0 <= i < k ==> path_lt(old_units[i], unit@),
                found_equal ==> k < self.units@.len() && path_components(old_units[k as int])
                    == tc,
                !found_equal ==> (k == self.units@.len() || path_lt(unit@, old_units[k as int])),
            decreases self.units.len() - k,
        {
            let here = component_chars(self.units[k].as_str());
            let c = compare_components(&here, &target);
            if c == 0 {
                found_equal = true;
                break;
            } else if c == 1 {
                proof {
                    lemma_comps_lt_order(
                        path_components(old_units[k as int]),
                        tc,
                        tc,
                    );
                }
                break;
            }
            k = k + 1;
        }
        if found_equal {
            assert(holds_path(old_units, unit@));
            return false;
        }
        assert(!holds_path(old_units, unit@)) by {
            if holds_path(old_units, unit@) {
                let i = choose|i: int|
                    0 <= i < old_units.len() && path_components(old_units[i]) == path_components(
                        unit@,
                    );
                lemma_comps_lt_order(path_components(old_units[i]), tc, tc);
                if i < k {
                    assert(path_lt(old_units[i], unit@));
                } else {
                    assert(path_lt(unit@, old_units[k as int]));
                    if i > k {
                        assert(path_lt(old_units[k as int], old_units[i]));
                        lemma_comps_lt_order(tc, path_components(old_units[k as int]), tc);
                    }
                }
            }
        };
        let mut units: Vec<String> = Vec::new();
        std::mem::swap(&mut units, &mut self.units);
        units.insert(k, unit);
        let ghost new_units = views(units@);
        assert(new_units =~= old_units.insert(k as int, unit@));
        assert forall|i: int, j: int| 0 <= i < j < new_units.len() implies path_lt(
            new_units[i],
            new_units[j],
        ) by {
            if j < k {
                assert(new_units[i] == old_units[i] && new_units[j] == old_units[j]);
            } else if j == k {
                assert(new_units[i] == old_units[i]);
            } else if i > k {
                assert(new_units[i] == old_units[i - 1] && new_units[j] == old_units[j - 1]);
            } else if i == k {
                assert(new_units[j] == old_units[j - 1]);
                if j - 1 > k {
                    assert(path_lt(old_units[k as int], old_units[j - 1]));
                    lemma_comps_lt_order(
                        tc,
                        path_components(old_units[k as int]),
                        path_components(old_units[j - 1]),
                    );
                }
            } else {
                assert(new_units[i] == old_units[i] && new_units[j] == old_units[j - 1]);
                assert(path_lt(old_units[i], unit@));
                if j - 1 == k {
                    lemma_comps_lt_order(
                        path_components(old_units[i]),
                        tc,
                        path_components(old_units[k as int]),
                    );
                } else {
                    assert(path_lt(old_units[i], old_units[j - 1]));
                }
            }
        }
        self.units = units;
        assert(self@ == old(self)@.insert(k as int, unit@));
        true
    }

    /// The number of units.
    pub fn len(&self) -> (n: usize)
        ensures
            n == self@.len(),
    {
        self.units.len()
    }

    /// The unit at position `i`.
    pub fn get(&self, i: usize) -> (u: &String)
        requires
            i < self@.len(),
        ensures
            u@ == self@[i as int],
    {
        &self.units[i]
    }
}

} // verus!
