use vstd::prelude::*;
use crate::data_structures::spow;

verus! {

/// Strict lexicographic order on index tuples: at the first position where the
/// two tuples differ, `a` holds the smaller digit.
pub open spec fn lex_lt(a: Seq<usize>, b: Seq<usize>) -> bool {
    exists|d: int|
        0 <= d < a.len() && d < b.len() && a[d] < b[d] && (forall|l: int|
            0 <= l < d ==> a[l] == b[l])
}

/// Some position of `y` holds the digit `v`.
pub open spec fn has_digit(y: Seq<usize>, v: usize) -> bool {
    exists|l: int| 0 <= l < y.len() && y[l] == v
}

/// The tuples that the enumeration over the digit pool `1 ..= n` may reach
/// after `x`: lexicographically above `x`, each position either drawn from the
/// pool or left exactly as `x` had it.
pub open spec fn admissible(x: Seq<usize>, n: usize, y: Seq<usize>) -> bool {
    &&& y.len() == x.len()
    &&& lex_lt(x, y)
    &&& forall|l: int| 0 <= l < y.len() ==> (1 <= y[l] <= n || y[l] == x[l])
}

proof fn lemma_lex_lt_witness(a: Seq<usize>, b: Seq<usize>, d: int)
    requires
        0 <= d < a.len(),
        d < b.len(),
        a[d] < b[d],
        forall|l: int| 0 <= l < d ==> a[l] == b[l],
    ensures
        lex_lt(a, b),
{
}

proof fn lemma_lex_lt_elim(a: Seq<usize>, b: Seq<usize>) -> (d: int)
    requires
        lex_lt(a, b),
    ensures
        0 <= d < a.len(),
        d < b.len(),
        a[d] < b[d],
        forall|l: int| 0 <= l < d ==> a[l] == b[l],
{
    choose|d: int|
        0 <= d < a.len() && d < b.len() && a[d] < b[d] && (forall|l: int|
            0 <= l < d ==> a[l] == b[l])
}

proof fn lemma_lex_lt_irrefl(a: Seq<usize>)
    ensures
        !lex_lt(a, a),
{
    if lex_lt(a, a) {
        let d = lemma_lex_lt_elim(a, a);
    }
}

proof fn lemma_lex_lt_trans(a: Seq<usize>, b: Seq<usize>, c: Seq<usize>)
    requires
        a.len() == b.len(),
        b.len() == c.len(),
        lex_lt(a, b),
        lex_lt(b, c),
    ensures
        lex_lt(a, c),
{
    let d1 = lemma_lex_lt_elim(a, b);
    let d2 = lemma_lex_lt_elim(b, c);
    if d1 <= d2 {
        lemma_lex_lt_witness(a, c, d1);
    } else {
        lemma_lex_lt_witness(a, c, d2);
    }
}

proof fn lemma_lex_lt_asym(a: Seq<usize>, b: Seq<usize>)
    requires
        a.len() == b.len(),
        lex_lt(a, b),
    ensures
        !lex_lt(b, a),
{
    if lex_lt(b, a) {
        lemma_lex_lt_trans(a, b, a);
        lemma_lex_lt_irrefl(a);
    }
}

proof fn lemma_first_diff(a: Seq<usize>, b: Seq<usize>, s: int) -> (d: int)
    requires
        a.len() == b.len(),
        a != b,
        0 <= s <= a.len(),
        forall|l: int| 0 <= l < s ==> a[l] == b[l],
    ensures
        s <= d < a.len(),
        a[d] != b[d],
        forall|l: int| 0 <= l < d ==> a[l] == b[l],
    decreases a.len() - s,
{
    if s == a.len() {
        assert(a =~= b);
        s
    } else if a[s] != b[s] {
        s
    } else {
        lemma_first_diff(a, b, s + 1)
    }
}

proof fn lemma_lex_connex(a: Seq<usize>, b: Seq<usize>)
    requires
        a.len() == b.len(),
        a != b,
    ensures
        lex_lt(a, b) || lex_lt(b, a),
{
    let d = lemma_first_diff(a, b, 0);
    if a[d] < b[d] {
        lemma_lex_lt_witness(a, b, d);
    } else {
        lemma_lex_lt_witness(b, a, d);
    }
}

/// The odometer step from `x` at roll position `j` — keep the prefix, raise
/// position `j` by one, restart everything to its right at 1 — lands on the
/// least admissible tuple above `x`.
proof fn lemma_succ_minimal(x: Seq<usize>, n: usize, j: int, y: Seq<usize>)
    requires
        y.len() == x.len(),
        0 <= j < x.len(),
        forall|l: int| 0 <= l < x.len() ==> x[l] <= n,
        x[j] < n,
        forall|l: int| j < l < x.len() ==> x[l] == n,
        forall|l: int| 0 <= l < j ==> y[l] == x[l],
        y[j] == x[j] + 1,
        forall|l: int| j < l < y.len() ==> y[l] == 1,
    ensures
        admissible(x, n, y),
        forall|z: Seq<usize>| admissible(x, n, z) ==> !lex_lt(z, y),
{
    lemma_lex_lt_witness(x, y, j);
    assert(admissible(x, n, y));
    assert forall|z: Seq<usize>| admissible(x, n, z) implies !lex_lt(z, y) by {
        if lex_lt(z, y) {
            let d1 = lemma_lex_lt_elim(x, z);
            if d1 > j {
                assert(x[d1] == n);
                assert(1 <= z[d1] <= n || z[d1] == x[d1]);
                assert(false);
            } else if d1 == j {
                if z[j] > y[j] {
                    lemma_lex_lt_witness(y, z, j);
                    lemma_lex_lt_asym(y, z);
                } else {
                    let d2 = lemma_lex_lt_elim(z, y);
                    if d2 <= j {
                        assert(z[d2] >= y[d2]);
                        assert(false);
                    } else {
                        assert(y[d2] == 1);
                        assert(z[d2] == 0);
                        assert(1 <= z[d2] <= n || z[d2] == x[d2]);
                        assert(x[d2] == n);
                        assert(n == 0);
                        assert(x[j] < n);
                        assert(false);
                    }
                }
            } else {
                assert(y[d1] == x[d1]);
                lemma_lex_lt_witness(y, z, d1);
                lemma_lex_lt_asym(y, z);
            }
        }
    }
}

fn contains_digit(t: &Vec<usize>, v: usize) -> (r: bool)
    ensures
        r == has_digit(t@, v),
{
    let mut l: usize = 0;
    while l < t.len()
        invariant
            0 <= l <= t@.len(),
            forall|i: int| 0 <= i < l ==> t@[i] != v,
        decreases t@.len() - l,
    {
        if t[l] == v {
            assert(has_digit(t@, v));
            return true;
        }
        l = l + 1;
    }
    false
}

/// The lexicographic successor of `x` in the enumeration of tuples with digits
/// drawn from `1 ..= n`, odometer style with the rightmost digit running
/// fastest. `None` once the all-`n` tuple is exhausted, or for an empty tuple.
/// With `force_n` set, successors that do not carry the digit `n` anywhere are
/// skipped, so that only tuples mentioning the newest index are produced.
///
/// The result is pinned exactly: it is the least tuple that the enumeration
/// admits above `x` (and that carries an `n`, when `force_n` is set).
#[verifier::loop_isolation(false)]
pub fn next_tuple(x: Vec<usize>, n: usize, force_n: bool) -> (r: Option<Vec<usize>>)
    requires
        forall|l: int| 0 <= l < x@.len() ==> x@[l] <= n,
    ensures
        match r {
            None => x@.len() == 0 || (forall|l: int| 0 <= l < x@.len() ==> x@[l] == n),
            Some(y) => {
                &&& admissible(x@, n, y@)
                &&& force_n ==> has_digit(y@, n)
                &&& forall|z: Seq<usize>|
                    admissible(x@, n, z) && (force_n ==> has_digit(z, n)) ==> !lex_lt(z, y@)
            },
        },
{
    let k = x.len();
    if k == 0 {
        return None;
    }
    let ghost x0 = x@;
    let mut t = x;
    // Scan from the right for the last digit that can still step up.
    let mut j: usize = k - 1;
    while t[j] == n
        invariant
            t@ == x0,
            t@.len() == k,
            0 <= j < k,
            forall|l: int| j < l < k ==> x0[l] == n,
        decreases j,
    {
        if j == 0 {
            proof {
                assert(x0[0] == n);
                assert forall|l: int| 0 <= l < k implies x0[l] == n by {
                    if l > 0 {
                        assert(x0[l] == n);
                    }
                }
            }
            return None;
        }
        j = j - 1;
    }
    // Roll over: position j steps up, everything to its right restarts at 1.
    t[j] = t[j] + 1;
    let mut l: usize = j + 1;
    while l < k
        invariant
            t@.len() == k,
            j < l <= k,
            j < k,
            forall|i: int| 0 <= i <= j ==> t@[i] == x0[i] + (if i == j { 1int } else { 0int }),
            forall|i: int| j < i < l ==> t@[i] == 1,
            forall|i: int| l <= i < k ==> t@[i] == x0[i],
        decreases k - l,
    {
        t[l] = 1;
        l = l + 1;
    }
    let ghost y1 = t@;
    proof {
        lemma_succ_minimal(x0, n, j as int, y1);
    }
    if !force_n {
        return Some(t);
    }
    if contains_digit(&t, n) {
        return Some(t);
    }
    // The skipped successors differ only in the rightmost digit, which counts
    // up alone until it reaches n; jump there directly.
    t[k - 1] = n;
    let ghost y = t@;
    proof {
        assert(n >= 1) by {
            assert(x0[j as int] < n);
        }
        assert(y1[k - 1] < n) by {
            assert(!has_digit(y1, n));
            assert(1 <= y1[k - 1] <= n || y1[k - 1] == x0[k - 1]);
            assert(x0[k - 1] <= n);
            assert(y1[k - 1] != n);
        }
        lemma_lex_lt_witness(y1, y, k - 1);
        lemma_lex_lt_trans(x0, y1, y);
        assert(admissible(x0, n, y));
        assert(has_digit(y, n));
        assert forall|z: Seq<usize>|
            admissible(x0, n, z) && has_digit(z, n) implies !lex_lt(z, y) by {
            if lex_lt(z, y) {
                assert(!lex_lt(z, y1));
                if z == y1 {
                    assert(has_digit(y1, n));
                    assert(false);
                } else {
                    lemma_lex_connex(z, y1);
                    let d = lemma_lex_lt_elim(y1, z);
                    if d < k - 1 {
                        assert(y[d] == y1[d]);
                        lemma_lex_lt_witness(y, z, d);
                        lemma_lex_lt_asym(y, z);
                    } else {
                        // z matches y1 before the last digit, so its n sits at
                        // the end and z is y itself.
                        let i = choose|i: int| 0 <= i < z.len() && z[i] == n;
                        assert(i == k - 1) by {
                            if i < k - 1 {
                                assert(y1[i] == z[i]);
                                assert(has_digit(y1, n));
                            }
                        }
                        assert(z =~= y);
                        lemma_lex_lt_irrefl(y);
                    }
                }
            }
        }
    }
    Some(t)
}


/// A tuple with digits at most `n` read as one number, base `n + 1`, leftmost
/// digit most significant: the enumeration's position, for progress measures.
pub open spec fn tuple_val(s: Seq<usize>, n: usize) -> int
    decreases s.len(),
{
    if s.len() == 0 {
        0
    } else {
        s[0] * spow((n + 1) as nat, (s.len() - 1) as nat) + tuple_val(s.drop_first(), n)
    }
}

/// A tuple's value lies below the base raised to its length.
pub proof fn lemma_tuple_val_bound(s: Seq<usize>, n: usize)
    requires
        forall|l: int| 0 <= l < s.len() ==> #[trigger] s[l] <= n,
    ensures
        0 <= tuple_val(s, n),
        tuple_val(s, n) < spow((n + 1) as nat, s.len() as nat),
    decreases s.len(),
{
    if s.len() == 0 {
    } else {
        let b = (n + 1) as nat;
        let p = spow(b, (s.len() - 1) as nat);
        assert forall|l: int| 0 <= l < s.drop_first().len() implies #[trigger] s.drop_first()[l]
            <= n by {
            assert(s.drop_first()[l] == s[l + 1]);
        }
        lemma_tuple_val_bound(s.drop_first(), n);
        assert(spow(b, s.len() as nat) == b * p);
        assert(p >= 1) by {
            lemma_spow_pos(b, (s.len() - 1) as nat);
        }
        assert(s[0] * p + tuple_val(s.drop_first(), n) >= 0) by (nonlinear_arith)
            requires
                s[0] >= 0,
                p >= 1,
                tuple_val(s.drop_first(), n) >= 0,
        ;
        assert(s[0] * p + tuple_val(s.drop_first(), n) < b * p) by (nonlinear_arith)
            requires
                s[0] <= n,
                b == n + 1,
                p >= 1,
                0 <= tuple_val(s.drop_first(), n) < p,
        ;
    }
}

proof fn lemma_spow_pos(b: nat, k: nat)
    requires
        b >= 1,
    ensures
        spow(b, k) >= 1,
    decreases k,
{
    if k > 0 {
        lemma_spow_pos(b, (k - 1) as nat);
        assert(b * spow(b, (k - 1) as nat) >= spow(b, (k - 1) as nat)) by (nonlinear_arith)
            requires
                b >= 1,
        ;
    }
}

/// Lexicographic order on equal-length tuples is numeric order of their
/// values.
pub proof fn lemma_lex_lt_val(a: Seq<usize>, b: Seq<usize>, n: usize)
    requires
        a.len() == b.len(),
        forall|l: int| 0 <= l < a.len() ==> #[trigger] a[l] <= n,
        forall|l: int| 0 <= l < b.len() ==> #[trigger] b[l] <= n,
        lex_lt(a, b),
    ensures
        tuple_val(a, n) < tuple_val(b, n),
    decreases a.len(),
{
    let d = lemma_lex_lt_elim(a, b);
    let base = (n + 1) as nat;
    let p = spow(base, (a.len() - 1) as nat);
    if d == 0 {
        assert forall|l: int| 0 <= l < a.drop_first().len() implies #[trigger] a.drop_first()[l]
            <= n by {
            assert(a.drop_first()[l] == a[l + 1]);
        }
        assert forall|l: int| 0 <= l < b.drop_first().len() implies #[trigger] b.drop_first()[l]
            <= n by {
            assert(b.drop_first()[l] == b[l + 1]);
        }
        lemma_tuple_val_bound(a.drop_first(), n);
        lemma_tuple_val_bound(b.drop_first(), n);
        assert(p >= 1) by {
            lemma_spow_pos(base, (a.len() - 1) as nat);
        }
        assert(a[0] * p + tuple_val(a.drop_first(), n) < b[0] * p + tuple_val(b.drop_first(), n))
            by (nonlinear_arith)
            requires
                a[0] + 1 <= b[0],
                p >= 1,
                0 <= tuple_val(a.drop_first(), n) < p,
                0 <= tuple_val(b.drop_first(), n),
        ;
    } else {
        assert(a[0] == b[0]);
        assert(a.drop_first()[d - 1] < b.drop_first()[d - 1]) by {
            assert(a.drop_first()[d - 1] == a[d]);
            assert(b.drop_first()[d - 1] == b[d]);
        }
        assert forall|l: int| 0 <= l < d - 1 implies a.drop_first()[l] == b.drop_first()[l] by {
            assert(a.drop_first()[l] == a[l + 1]);
            assert(b.drop_first()[l] == b[l + 1]);
        }
        lemma_lex_lt_witness(a.drop_first(), b.drop_first(), d - 1);
        assert forall|l: int| 0 <= l < a.drop_first().len() implies #[trigger] a.drop_first()[l]
            <= n by {
            assert(a.drop_first()[l] == a[l + 1]);
        }
        assert forall|l: int| 0 <= l < b.drop_first().len() implies #[trigger] b.drop_first()[l]
            <= n by {
            assert(b.drop_first()[l] == b[l + 1]);
        }
        lemma_lex_lt_val(a.drop_first(), b.drop_first(), n);
    }
}

} // verus!
