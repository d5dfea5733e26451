//! The order in which names are listed: by code point, character after
//! character, a name before each of its extensions. Sorting a list of names
//! into that order, each name once.

use vstd::prelude::*;
use vstd::seq_lib::*;
use crate::text::{copy_chars, rows};

verus! {

/// `a` comes before `b`, given that the two agree on all positions before
/// `i`: at the first position from `i` on where they differ, `a` has the
/// smaller code point, or `a` ends there and `b` goes on.
pub open spec fn precedes_from(a: Seq<char>, b: Seq<char>, i: int) -> bool
    decreases a.len() - i,
{
    if i >= b.len() {
        false
    } else if i >= a.len() {
        true
    } else if a[i] != b[i] {
        (a[i] as int) < (b[i] as int)
    } else {
        precedes_from(a, b, i + 1)
    }
}

/// `a` comes strictly before `b` in the order of names.
pub open spec fn precedes(a: Seq<char>, b: Seq<char>) -> bool {
    precedes_from(a, b, 0)
}

/// Each name comes strictly before all that follow it: the list is sorted
/// and holds no name twice.
pub open spec fn ascending(names: Seq<Seq<char>>) -> bool {
    forall|i: int, j: int|
        0 <= i < j < names.len() ==> precedes(#[trigger] names[i], #[trigger] names[j])
}

/// `sorted` lists exactly the names that occur in `names`, in ascending
/// order and each once.
pub open spec fn is_sorted_set_of(sorted: Seq<Seq<char>>, names: Seq<Seq<char>>) -> bool {
    &&& ascending(sorted)
    &&& sorted.to_set() == names.to_set()
}

/// No name comes before itself.
pub proof fn lemma_precedes_irreflexive(a: Seq<char>, i: int)
    requires
        0 <= i,
    ensures
        !precedes_from(a, a, i),
    decreases a.len() - i,
{
    if i < a.len() {
        lemma_precedes_irreflexive(a, i + 1);
    }
}

/// The order is transitive.
pub proof fn lemma_precedes_transitive(a: Seq<char>, b: Seq<char>, c: Seq<char>, i: int)
    requires
        0 <= i,
        precedes_from(a, b, i),
        precedes_from(b, c, i),
    ensures
        precedes_from(a, c, i),
    decreases a.len() - i,
{
    if i < a.len() && a[i] == b[i] && b[i] == c[i] {
        lemma_precedes_transitive(a, b, c, i + 1);
    }
}

/// Of two names, at most one comes before the other.
pub proof fn lemma_precedes_asymmetric(a: Seq<char>, b: Seq<char>)
    ensures
        !(precedes(a, b) && precedes(b, a)),
{
    if precedes(a, b) && precedes(b, a) {
        lemma_precedes_transitive(a, b, a, 0);
        lemma_precedes_irreflexive(a, 0);
    }
}

/// Two names of which neither comes before the other, from a position up to
/// which they agree, are the same name.
pub proof fn lemma_precedes_connected(a: Seq<char>, b: Seq<char>, i: int)
    requires
        0 <= i <= a.len(),
        i <= b.len(),
        a.take(i) == b.take(i),
        !precedes_from(a, b, i),
        !precedes_from(b, a, i),
    ensures
        a == b,
    decreases a.len() - i,
{
    if i < a.len() && i < b.len() {
        assert(a[i] == b[i]);
        assert(a.take(i + 1) =~= a.take(i).push(a[i]));
        assert(b.take(i + 1) =~= b.take(i).push(b[i]));
        lemma_precedes_connected(a, b, i + 1);
    } else {
        assert(a.take(i) =~= a);
        assert(b.take(i) =~= b);
    }
}

/// An ascending list stays ascending when a name that its last name precedes
/// is put at its end.
pub proof fn lemma_ascending_push(names: Seq<Seq<char>>, name: Seq<char>)
    requires
        ascending(names),
        names.len() > 0 ==> precedes(names.last(), name),
    ensures
        ascending(names.push(name)),
{
    let grown = names.push(name);
    assert forall|i: int, j: int| 0 <= i < j < grown.len() implies precedes(
        #[trigger] grown[i],
        #[trigger] grown[j],
    ) by {
        if j == names.len() && i < names.len() - 1 {
            assert(precedes(names[i], names[names.len() - 1]));
            lemma_precedes_transitive(names[i], names.last(), name, 0);
        }
    }
}

/// Two ascending lists of the same names are the same list.
pub proof fn lemma_ascending_unique(x: Seq<Seq<char>>, y: Seq<Seq<char>>)
    requires
        ascending(x),
        ascending(y),
        x.to_set() == y.to_set(),
    ensures
        x == y,
    decreases x.len(),
{
    if x.len() == 0 {
        if y.len() > 0 {
            assert(y.contains(y[0]));
            assert(y.to_set().contains(y[0]));
            assert(x.to_set().contains(y[0]));
        }
        assert(x =~= y);
    } else {
        let top = x.last();
        assert(x.contains(top));
        assert(y.to_set().contains(top));
        assert(y.contains(top));
        let k = choose|k: int| 0 <= k < y.len() && y[k] == top;
        // The last name of `y` occurs in `x`, so it is `top` or precedes it.
        assert(y.contains(y.last()));
        assert(x.to_set().contains(y.last()));
        assert(x.contains(y.last()));
        let m = choose|m: int| 0 <= m < x.len() && x[m] == y.last();
        if k < y.len() - 1 {
            assert(precedes(y[k], y[y.len() - 1]));
            if m < x.len() - 1 {
                assert(precedes(x[m], x[x.len() - 1]));
            }
            lemma_precedes_asymmetric(top, y.last());
            lemma_precedes_irreflexive(top, 0);
        }
        assert(y.last() == top);
        let xs = x.drop_last();
        let ys = y.drop_last();
        assert(ascending(xs)) by {
            assert forall|i: int, j: int| 0 <= i < j < xs.len() implies precedes(
                #[trigger] xs[i],
                #[trigger] xs[j],
            ) by {
                assert(precedes(x[i], x[j]));
            }
        }
        assert(ascending(ys)) by {
            assert forall|i: int, j: int| 0 <= i < j < ys.len() implies precedes(
                #[trigger] ys[i],
                #[trigger] ys[j],
            ) by {
                assert(precedes(y[i], y[j]));
            }
        }
        assert forall|name: Seq<char>| xs.contains(name) <==> ys.contains(name) by {
            lemma_precedes_irreflexive(top, 0);
            if xs.contains(name) {
                let i = choose|i: int| 0 <= i < xs.len() && xs[i] == name;
                assert(precedes(x[i], x[x.len() - 1]));
                assert(x.contains(name));
                assert(y.to_set().contains(name));
                assert(y.contains(name));
                let j = choose|j: int| 0 <= j < y.len() && y[j] == name;
                assert(ys[j] == name);
            }
            if ys.contains(name) {
                let j = choose|j: int| 0 <= j < ys.len() && ys[j] == name;
                assert(precedes(y[j], y[y.len() - 1]));
                assert(y.contains(name));
                assert(x.to_set().contains(name));
                assert(x.contains(name));
                let i = choose|i: int| 0 <= i < x.len() && x[i] == name;
                assert(xs[i] == name);
            }
        }
        assert(xs.to_set() =~= ys.to_set());
        lemma_ascending_unique(xs, ys);
        assert(x =~= xs.push(top));
        assert(y =~= ys.push(top));
    }
}

/// Where one name stands with respect to another.
#[derive(Debug, PartialEq, Eq, Structural, Clone, Copy)]
pub enum Place {
    Before,
    Same,
    After,
}

/// Where `a` stands with respect to `b`.
pub open spec fn place_of(a: Seq<char>, b: Seq<char>) -> Place {
    if precedes(a, b) {
        Place::Before
    } else if precedes(b, a) {
        Place::After
    } else {
        Place::Same
    }
}

/// Finds where `a` stands with respect to `b`.
pub fn place(a: &Vec<char>, b: &Vec<char>) -> (r: Place)
    ensures
        r == place_of(a@, b@),
        r == Place::Same <==> a@ == b@,
{
    let mut i: usize = 0;
    while i < a.len() && i < b.len()
        invariant
            i <= a.len(),
            i <= b.len(),
            a@.take(i as int) == b@.take(i as int),
            precedes(a@, b@) == precedes_from(a@, b@, i as int),
            precedes(b@, a@) == precedes_from(b@, a@, i as int),
        decreases a.len() - i,
    {
        let x = a[i];
        let y = b[i];
        if x != y {
            proof {
                assert(a@ != b@);
            }
            if x < y {
                return Place::Before;
            } else {
                return Place::After;
            }
        }
        proof {
            assert(a@.take(i + 1) =~= a@.take(i as int).push(x));
            assert(b@.take(i + 1) =~= b@.take(i as int).push(y));
        }
        i = i + 1;
    }
    proof {
        lemma_precedes_irreflexive(a@, 0);
        if !precedes_from(a@, b@, i as int) && !precedes_from(b@, a@, i as int) {
            lemma_precedes_connected(a@, b@, i as int);
        }
    }
    if i < b.len() {
        Place::Before
    } else if i < a.len() {
        Place::After
    } else {
        Place::Same
    }
}

/// The names among the first `i + 1` of a list are those among the first
/// `i`, and the one at `i`.
proof fn lemma_take_next(names: Seq<Seq<char>>, i: int)
    requires
        0 <= i < names.len(),
    ensures
        names.take(i + 1).to_set() == names.take(i).to_set().insert(names[i]),
{
    assert(names.take(i + 1) =~= names.take(i).push(names[i]));
    names.take(i).lemma_push_to_set_commute(names[i]);
}

/// Merges two ascending lists into the ascending list of the names of both.
pub fn merge(a: &Vec<Vec<char>>, b: &Vec<Vec<char>>) -> (r: Vec<Vec<char>>)
    requires
        ascending(rows(a@)),
        ascending(rows(b@)),
    ensures
        ascending(rows(r@)),
        rows(r@).to_set() == rows(a@).to_set().union(rows(b@).to_set()),
{
    let mut r: Vec<Vec<char>> = Vec::new();
    let mut i: usize = 0;
    let mut j: usize = 0;
    assert(rows(r@).to_set() =~= rows(a@).take(0).to_set().union(rows(b@).take(0).to_set()));
    while i < a.len() || j < b.len()
        invariant
            i <= a.len(),
            j <= b.len(),
            ascending(rows(a@)),
            ascending(rows(b@)),
            ascending(rows(r@)),
            r@.len() > 0 && i < a.len() ==> precedes(rows(r@).last(), a@[i as int]@),
            r@.len() > 0 && j < b.len() ==> precedes(rows(r@).last(), b@[j as int]@),
            rows(r@).to_set() == rows(a@).take(i as int).to_set().union(
                rows(b@).take(j as int).to_set(),
            ),
        decreases (a.len() - i) + (b.len() - j),
    {
        let which = if j >= b.len() {
            Place::Before
        } else if i >= a.len() {
            Place::After
        } else {
            place(&a[i], &b[j])
        };
        let ghost before = rows(r@);
        let take_a = which != Place::After;
        let take_b = which != Place::Before;
        let name = if take_a {
            copy_chars(&a[i])
        } else {
            copy_chars(&b[j])
        };
        proof {
            assert(rows(r@.push(name)) =~= before.push(name@));
            lemma_ascending_push(before, name@);
            before.lemma_push_to_set_commute(name@);
            if take_a {
                lemma_take_next(rows(a@), i as int);
                assert(rows(a@)[i as int] == name@);
                if i + 1 < a.len() {
                    assert(precedes(rows(a@)[i as int], rows(a@)[i + 1]));
                }
            }
            if take_b {
                lemma_take_next(rows(b@), j as int);
                assert(rows(b@)[j as int] == name@);
                if j + 1 < b.len() {
                    assert(precedes(rows(b@)[j as int], rows(b@)[j + 1]));
                }
            }
            let next_i: int = if take_a { i + 1 } else { i as int };
            let next_j: int = if take_b { j + 1 } else { j as int };
            assert(before.push(name@).to_set() =~= rows(a@).take(next_i).to_set().union(
                rows(b@).take(next_j).to_set(),
            ));
        }
        r.push(name);
        if take_a {
            i = i + 1;
        }
        if take_b {
            j = j + 1;
        }
    }
    proof {
        assert(rows(a@).take(i as int) =~= rows(a@));
        assert(rows(b@).take(j as int) =~= rows(b@));
    }
    r
}

/// Sorts the names from position `lo` up to `hi`, each name once.
fn sort_range(names: &Vec<Vec<char>>, lo: usize, hi: usize) -> (r: Vec<Vec<char>>)
    requires
        lo <= hi <= names.len(),
    ensures
        is_sorted_set_of(rows(r@), rows(names@).subrange(lo as int, hi as int)),
    decreases hi - lo,
{
    let ghost part = rows(names@).subrange(lo as int, hi as int);
    if hi - lo == 0 {
        let r: Vec<Vec<char>> = Vec::new();
        assert(rows(r@).to_set() =~= part.to_set());
        r
    } else if hi - lo == 1 {
        let mut r: Vec<Vec<char>> = Vec::new();
        r.push(copy_chars(&names[lo]));
        proof {
            assert(rows(r@) =~= part);
        }
        r
    } else {
        let mid: usize = lo + (hi - lo) / 2;
        let left = sort_range(names, lo, mid);
        let right = sort_range(names, mid, hi);
        proof {
            let l = rows(names@).subrange(lo as int, mid as int);
            let h = rows(names@).subrange(mid as int, hi as int);
            assert(part =~= l + h);
            seq_to_set_distributes_over_add(l, h);
        }
        merge(&left, &right)
    }
}

/// The names of a list in ascending order, each once. A list that is in
/// ascending order already comes back as it is.
pub fn sorted_distinct(names: &Vec<Vec<char>>) -> (r: Vec<Vec<char>>)
    ensures
        is_sorted_set_of(rows(r@), rows(names@)),
        ascending(rows(names@)) ==> rows(r@) == rows(names@),
{
    assert(rows(names@).subrange(0, names.len() as int) =~= rows(names@));
    let r = sort_range(names, 0, names.len());
    proof {
        if ascending(rows(names@)) {
            lemma_ascending_unique(rows(r@), rows(names@));
        }
    }
    r
}

} // verus!
