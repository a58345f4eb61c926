//! Weighted reductions over index-keyed tables.
//!
//! A table is a `Vec<i64>` whose position is its key; a key past the end of a
//! table reads as zero.
use vstd::prelude::*;
use vstd::string::StrSliceExecFns;

use crate::fixed::{add_spec, clamp, dist, fx_add, fx_dist, fx_mul, mul_spec};

verus! {

/// The entry of `s` at key `i`, or zero where `s` has no such key.
pub open spec fn at_or_zero(s: Seq<i64>, i: int) -> i64 {
    if 0 <= i < s.len() {
        s[i]
    } else {
        0
    }
}

/// Sum over the keys of `a` of `a[k] * b[k]`, accumulated in key order.
pub open spec fn weighted_sum(a: Seq<i64>, b: Seq<i64>) -> i64
    decreases a.len(),
{
    if a.len() == 0 {
        0
    } else {
        add_spec(
            weighted_sum(a.drop_last(), b),
            mul_spec(a.last(), at_or_zero(b, a.len() - 1)),
        )
    }
}

/// The entries of `v` at the keys listed in `keys`.
pub open spec fn gathered(keys: Seq<usize>, v: Seq<i64>) -> Seq<i64> {
    Seq::new(keys.len(), |j: int| at_or_zero(v, keys[j] as int))
}

/// Per-key product of two tables over the keys of `map_1`.
pub fn match_mul(map_1: &Vec<i64>, map_2: &Vec<i64>) -> (r: Vec<i64>)
    ensures
        r@.len() == map_1@.len(),
        forall|i: int|
            0 <= i < map_1@.len() ==> #[trigger] r@[i] == mul_spec(
                map_1@[i],
                at_or_zero(map_2@, i),
            ),
{
    let mut r: Vec<i64> = Vec::new();
    let mut i: usize = 0;
    while i < map_1.len()
        invariant
            i <= map_1@.len(),
            r@.len() == i,
            forall|k: int| 0 <= k < i ==> #[trigger] r@[k] == mul_spec(map_1@[k], at_or_zero(map_2@, k)),
        decreases map_1@.len() - i,
    {
        let other: i64 = if i < map_2.len() {
            map_2[i]
        } else {
            0
        };
        r.push(fx_mul(map_1[i], other));
        i = i + 1;
    }
    r
}

/// Sum of the per-key products of two tables over the keys of `map_1`.
pub fn match_mul_sum(map_1: &Vec<i64>, map_2: &Vec<i64>) -> (r: i64)
    ensures
        r == weighted_sum(map_1@, map_2@),
{
    let mut acc: i64 = 0;
    let mut i: usize = 0;
    while i < map_1.len()
        invariant
            i <= map_1@.len(),
            acc == weighted_sum(map_1@.take(i as int), map_2@),
        decreases map_1@.len() - i,
    {
        let other: i64 = if i < map_2.len() {
            map_2[i]
        } else {
            0
        };
        proof {
            let t = map_1@.take(i as int + 1);
            assert(t.drop_last() =~= map_1@.take(i as int));
        }
        acc = fx_add(acc, fx_mul(map_1[i], other));
        i = i + 1;
    }
    proof {
        assert(map_1@.take(map_1@.len() as int) =~= map_1@);
    }
    acc
}

/// The entries of `v` at the keys listed in `keys`.
pub fn gather(keys: &Vec<usize>, v: &Vec<i64>) -> (r: Vec<i64>)
    ensures
        r@ == gathered(keys@, v@),
{
    let mut r: Vec<i64> = Vec::new();
    let mut j: usize = 0;
    while j < keys.len()
        invariant
            j <= keys@.len(),
            r@ =~= gathered(keys@, v@).take(j as int),
        decreases keys@.len() - j,
    {
        let k: usize = keys[j];
        let x: i64 = if k < v.len() {
            v[k]
        } else {
            0
        };
        r.push(x);
        j = j + 1;
        proof {
            assert(r@ =~= gathered(keys@, v@).take(j as int));
        }
    }
    proof {
        assert(gathered(keys@, v@).take(keys@.len() as int) =~= gathered(keys@, v@));
    }
    r
}

/// Position of the first occurrence of `x` in `v`.
pub fn index_of(v: &Vec<i64>, x: i64) -> (r: Option<usize>)
    ensures
        match r {
            Some(i) => i < v@.len() && v@[i as int] == x && forall|j: int|
                0 <= j < i ==> v@[j] != x,
            None => !v@.contains(x),
        },
{
    let mut i: usize = 0;
    while i < v.len()
        invariant
            i <= v@.len(),
            forall|j: int| 0 <= j < i ==> v@[j] != x,
        decreases v@.len() - i,
    {
        if v[i] == x {
            return Some(i);
        }
        i = i + 1;
    }
    None
}

/// Largest distance between the entries of `a` and those of `b` at the same
/// key (zero for an empty `a`).
pub open spec fn max_change(a: Seq<i64>, b: Seq<i64>) -> int
    decreases a.len(),
{
    if a.len() == 0 {
        0
    } else {
        let m = max_change(a.drop_last(), b);
        let d = dist(a.last(), at_or_zero(b, a.len() - 1));
        if m >= d {
            m
        } else {
            d
        }
    }
}

/// A table is at distance zero from any table that agrees with it on its keys.
pub proof fn lemma_max_change_same(a: Seq<i64>, b: Seq<i64>)
    requires
        a.len() <= b.len(),
        forall|i: int| 0 <= i < a.len() ==> a[i] == b[i],
    ensures
        max_change(a, b) == 0,
    decreases a.len(),
{
    if a.len() > 0 {
        let t = a.drop_last();
        assert forall|i: int| 0 <= i < t.len() implies t[i] == b[i] by {
            assert(t[i] == a[i]);
        }
        lemma_max_change_same(t, b);
        assert(a.last() == a[a.len() - 1]);
    }
}

/// Largest distance between two tables, saturated at `i64::MAX`.
pub fn max_distance(a: &Vec<i64>, b: &Vec<i64>) -> (r: i64)
    ensures
        r == clamp(max_change(a@, b@)),
{
    let mut r: i64 = 0;
    let mut i: usize = 0;
    while i < a.len()
        invariant
            i <= a@.len(),
            r == clamp(max_change(a@.take(i as int), b@)),
        decreases a@.len() - i,
    {
        let other: i64 = if i < b.len() {
            b[i]
        } else {
            0
        };
        let d: i64 = fx_dist(a[i], other);
        proof {
            assert(a@.take(i as int + 1).drop_last() =~= a@.take(i as int));
        }
        if d > r {
            r = d;
        }
        i = i + 1;
    }
    proof {
        assert(a@.take(a@.len() as int) =~= a@);
    }
    r
}

/// Index of the first largest entry of `s` (zero for an empty `s`).
pub open spec fn first_max(s: Seq<i64>) -> int
    decreases s.len(),
{
    if s.len() <= 1 {
        0
    } else {
        let b = first_max(s.drop_last());
        if s.last() > s[b] {
            s.len() - 1
        } else {
            b
        }
    }
}

/// The first largest entry is in range, no entry exceeds it, and every entry
/// before it is smaller.
pub proof fn lemma_first_max(s: Seq<i64>)
    requires
        s.len() > 0,
    ensures
        0 <= first_max(s) < s.len(),
        forall|j: int| 0 <= j < s.len() ==> #[trigger] s[j] <= s[first_max(s)],
        forall|j: int| 0 <= j < first_max(s) ==> #[trigger] s[j] < s[first_max(s)],
    decreases s.len(),
{
    if s.len() > 1 {
        let t = s.drop_last();
        lemma_first_max(t);
        let b = first_max(t);
        assert(s[b] == t[b]);
        assert forall|j: int| 0 <= j < t.len() implies s[j] == t[j] by {}
    }
}

/// Index of the first largest entry of a non-empty table.
pub fn first_max_index(s: &Vec<i64>) -> (r: usize)
    requires
        s@.len() > 0,
    ensures
        r as int == first_max(s@),
        r < s@.len(),
        forall|j: int| 0 <= j < s@.len() ==> #[trigger] s@[j] <= s@[r as int],
        forall|j: int| 0 <= j < r ==> #[trigger] s@[j] < s@[r as int],
{
    let mut b: usize = 0;
    let mut i: usize = 1;
    proof {
        lemma_first_max(s@.take(1));
    }
    while i < s.len()
        invariant
            1 <= i <= s@.len(),
            b as int == first_max(s@.take(i as int)),
            b < i,
        decreases s@.len() - i,
    {
        proof {
            let t = s@.take(i as int + 1);
            assert(t.drop_last() =~= s@.take(i as int));
            lemma_first_max(s@.take(i as int));
        }
        if s[i] > s[b] {
            b = i;
        }
        i = i + 1;
    }
    proof {
        assert(s@.take(s@.len() as int) =~= s@);
        lemma_first_max(s@);
    }
    b
}

/// `a` comes strictly before `b` in the lexicographic order of their
/// characters (a proper prefix comes first).
pub open spec fn label_lt(a: Seq<char>, b: Seq<char>) -> bool
    decreases a.len(),
{
    if a.len() == 0 {
        b.len() > 0
    } else if b.len() == 0 {
        false
    } else if a[0] != b[0] {
        a[0] < b[0]
    } else {
        label_lt(a.drop_first(), b.drop_first())
    }
}

pub proof fn lemma_label_lt_irreflexive(a: Seq<char>)
    ensures
        !label_lt(a, a),
    decreases a.len(),
{
    if a.len() > 0 {
        lemma_label_lt_irreflexive(a.drop_first());
    }
}

pub proof fn lemma_label_lt_transitive(a: Seq<char>, b: Seq<char>, c: Seq<char>)
    requires
        label_lt(a, b),
        label_lt(b, c),
    ensures
        label_lt(a, c),
    decreases a.len(),
{
    if a.len() > 0 && b.len() > 0 && c.len() > 0 && a[0] == b[0] && b[0] == c[0] {
        lemma_label_lt_transitive(a.drop_first(), b.drop_first(), c.drop_first());
    }
}

pub proof fn lemma_label_lt_total(a: Seq<char>, b: Seq<char>)
    requires
        a != b,
    ensures
        label_lt(a, b) || label_lt(b, a),
    decreases a.len(),
{
    if a.len() > 0 && b.len() > 0 && a[0] == b[0] {
        if a.drop_first() == b.drop_first() {
            assert(a.drop_first().len() == b.drop_first().len());
            assert(a.len() == b.len());
            assert(a =~= b) by {
                assert forall|i: int| 0 <= i < a.len() implies a[i] == b[i] by {
                    if i > 0 {
                        assert(a[i] == a.drop_first()[i - 1]);
                        assert(b[i] == b.drop_first()[i - 1]);
                    }
                }
            }
        }
        lemma_label_lt_total(a.drop_first(), b.drop_first());
    } else if a.len() > 0 && b.len() > 0 {
        assert(a[0] < b[0] || b[0] < a[0]);
    } else if a.len() == 0 && b.len() == 0 {
        assert(a =~= b);
    }
}

/// Whether `a` comes strictly before `b` in the order of `label_lt`.
pub fn label_less(a: &String, b: &String) -> (r: bool)
    ensures
        r == label_lt(a@, b@),
{
    let sa = a.as_str();
    let sb = b.as_str();
    let na: usize = sa.unicode_len();
    let nb: usize = sb.unicode_len();
    let mut i: usize = 0;
    proof {
        assert(a@.skip(0) =~= a@);
        assert(b@.skip(0) =~= b@);
    }
    while i < na && i < nb
        invariant
            sa@ == a@,
            sb@ == b@,
            na == a@.len(),
            nb == b@.len(),
            i <= na,
            i <= nb,
            label_lt(a@, b@) == label_lt(a@.skip(i as int), b@.skip(i as int)),
        decreases na - i,
    {
        let ca: char = sa.get_char(i);
        let cb: char = sb.get_char(i);
        proof {
            let x = a@.skip(i as int);
            let y = b@.skip(i as int);
            assert(x[0] == ca && y[0] == cb);
            assert(x.drop_first() =~= a@.skip(i as int + 1));
            assert(y.drop_first() =~= b@.skip(i as int + 1));
        }
        if ca != cb {
            return ca < cb;
        }
        i = i + 1;
    }
    proof {
        assert(a@.skip(i as int).len() == na - i);
        assert(b@.skip(i as int).len() == nb - i);
    }
    nb > i
}

/// Entry `i` is preferred to entry `j`: a larger value, or an equal value
/// and a label that comes first.
pub open spec fn prefers(q: Seq<i64>, labels: Seq<Seq<char>>, i: int, j: int) -> bool {
    q[i] > q[j] || (q[i] == q[j] && label_lt(labels[i], labels[j]))
}

/// The preferred entry of `q`: largest value, smallest label among equals.
pub open spec fn best_index(q: Seq<i64>, labels: Seq<Seq<char>>) -> int
    decreases q.len(),
{
    if q.len() <= 1 {
        0
    } else {
        let b = best_index(q.drop_last(), labels);
        if prefers(q, labels, q.len() - 1, b) {
            q.len() - 1
        } else {
            b
        }
    }
}

proof fn lemma_prefers_transitive(q: Seq<i64>, labels: Seq<Seq<char>>, x: int, y: int, z: int)
    requires
        0 <= x < q.len() && 0 <= y < q.len() && 0 <= z < q.len(),
        prefers(q, labels, x, y),
        prefers(q, labels, y, z),
    ensures
        prefers(q, labels, x, z),
{
    if q[x] == q[y] && q[y] == q[z] {
        lemma_label_lt_transitive(labels[x], labels[y], labels[z]);
    }
}

/// With distinct labels, the preferred entry is preferred to every other one.
pub proof fn lemma_best_index(q: Seq<i64>, labels: Seq<Seq<char>>)
    requires
        q.len() > 0,
        q.len() <= labels.len(),
        forall|i: int, j: int| 0 <= i < j < q.len() ==> labels[i] != labels[j],
    ensures
        0 <= best_index(q, labels) < q.len(),
        forall|j: int|
            0 <= j < q.len() && j != best_index(q, labels) ==> #[trigger] prefers(
                q,
                labels,
                best_index(q, labels),
                j,
            ),
    decreases q.len(),
{
    if q.len() > 1 {
        let t = q.drop_last();
        let n = q.len() - 1;
        lemma_best_index(t, labels);
        let b = best_index(t, labels);
        assert forall|j: int| 0 <= j < n implies q[j] == t[j] by {}
        assert forall|j: int| 0 <= j < n && j != b implies #[trigger] prefers(q, labels, b, j) by {
            assert(prefers(t, labels, b, j));
        }
        if prefers(q, labels, n, b) {
            assert forall|j: int| 0 <= j < q.len() && j != n implies #[trigger] prefers(
                q,
                labels,
                n,
                j,
            ) by {
                if j != b {
                    lemma_prefers_transitive(q, labels, n, b, j);
                }
            }
        } else {
            assert(prefers(q, labels, b, n)) by {
                if q[b] == q[n] {
                    assert(labels[b] != labels[n]);
                    lemma_label_lt_total(labels[b], labels[n]);
                }
            }
        }
    }
}

} // verus!
