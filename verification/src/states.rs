use vstd::prelude::*;

verus! {

/// Strict lexicographic order on state names, character by character, shorter
/// prefixes first. Every matrix index in the crate is derived from one fixed
/// list of state names sorted by this order.
pub open spec fn str_lt(a: Seq<char>, b: Seq<char>) -> bool {
    ||| (a.len() < b.len() && a =~= b.subrange(0, a.len() as int))
    ||| exists|d: int|
        0 <= d < a.len() && d < b.len() && a[d] < b[d] && (forall|l: int|
            0 <= l < d ==> a[l] == b[l])
}

proof fn lemma_str_lt_witness(a: Seq<char>, b: Seq<char>, d: int)
    requires
        0 <= d < a.len(),
        d < b.len(),
        a[d] < b[d],
        forall|l: int| 0 <= l < d ==> a[l] == b[l],
    ensures
        str_lt(a, b),
{
}

proof fn lemma_str_lt_irrefl(a: Seq<char>)
    ensures
        !str_lt(a, a),
{
    if str_lt(a, a) {
        if a.len() < a.len() {
        } else {
            let d = choose|d: int|
                0 <= d < a.len() && d < a.len() && a[d] < a[d] && (forall|l: int|
                    0 <= l < d ==> a[l] == a[l]);
        }
    }
}

proof fn lemma_str_lt_trans(a: Seq<char>, b: Seq<char>, c: Seq<char>)
    requires
        str_lt(a, b),
        str_lt(b, c),
    ensures
        str_lt(a, c),
{
    let a_pre = a.len() < b.len() && a =~= b.subrange(0, a.len() as int);
    let b_pre = b.len() < c.len() && b =~= c.subrange(0, b.len() as int);
    if a_pre && b_pre {
        assert(a =~= c.subrange(0, a.len() as int));
    } else if a_pre {
        let d = choose|d: int|
            0 <= d < b.len() && d < c.len() && b[d] < c[d] && (forall|l: int|
                0 <= l < d ==> b[l] == c[l]);
        if d < a.len() {
            lemma_str_lt_witness(a, c, d);
        } else {
            assert(a =~= c.subrange(0, a.len() as int));
        }
    } else if b_pre {
        let d = choose|d: int|
            0 <= d < a.len() && d < b.len() && a[d] < b[d] && (forall|l: int|
                0 <= l < d ==> a[l] == b[l]);
        lemma_str_lt_witness(a, c, d);
    } else {
        let d1 = choose|d: int|
            0 <= d < a.len() && d < b.len() && a[d] < b[d] && (forall|l: int|
                0 <= l < d ==> a[l] == b[l]);
        let d2 = choose|d: int|
            0 <= d < b.len() && d < c.len() && b[d] < c[d] && (forall|l: int|
                0 <= l < d ==> b[l] == c[l]);
        if d1 <= d2 {
            lemma_str_lt_witness(a, c, d1);
        } else {
            lemma_str_lt_witness(a, c, d2);
        }
    }
}

proof fn lemma_str_first_diff(a: Seq<char>, b: Seq<char>, s: int) -> (d: int)
    requires
        a != b,
        a.len() == b.len(),
        0 <= s <= a.len(),
        forall|l: int| 0 <= l < s ==> a[l] == b[l],
    ensures
        s <= d < a.len(),
        a[d] != b[d],
        forall|l: int| 0 <= l < d ==> a[l] == b[l],
    decreases a.len() - s,
{
    if s == a.len() {
        assert(a =~= b);
        s
    } else if a[s] != b[s] {
        s
    } else {
        lemma_str_first_diff(a, b, s + 1)
    }
}

/// Two distinct names are ordered one way or the other.
proof fn lemma_str_lt_connex(a: Seq<char>, b: Seq<char>)
    requires
        a != b,
    ensures
        str_lt(a, b) || str_lt(b, a),
{
    let n = if a.len() <= b.len() {
        a.len() as int
    } else {
        b.len() as int
    };
    if (forall|l: int| 0 <= l < n ==> a[l] == b[l]) {
        if a.len() < b.len() {
            assert(a =~= b.subrange(0, a.len() as int));
        } else if b.len() < a.len() {
            assert(b =~= a.subrange(0, b.len() as int));
        } else {
            assert(a =~= b);
        }
    } else {
        let bad = choose|l: int| 0 <= l < n && a[l] != b[l];
        let ap = a.subrange(0, n);
        let bp = b.subrange(0, n);
        assert(ap[bad] == a[bad] && bp[bad] == b[bad]);
        assert(ap != bp);
        let d = lemma_str_first_diff(ap, bp, 0);
        assert(a[d] == ap[d] && b[d] == bp[d]);
        assert(a[d] != b[d]);
        assert forall|l: int| 0 <= l < d implies a[l] == b[l] by {
            assert(ap[l] == bp[l]);
        }
        if a[d] < b[d] {
            lemma_str_lt_witness(a, b, d);
        } else {
            assert(b[d] < a[d]);
            lemma_str_lt_witness(b, a, d);
        }
    }
}

/// Character-by-character comparison deciding `str_lt` on two names.
#[verifier::loop_isolation(false)]
pub fn str_lt_exec(a: &String, b: &String) -> (r: bool)
    ensures
        r == str_lt(a@, b@),
{
    let alen = a.as_str().unicode_len();
    let blen = b.as_str().unicode_len();
    let mut i: usize = 0;
    while i < alen && i < blen
        invariant
            0 <= i <= alen,
            i <= blen,
            forall|l: int| 0 <= l < i ==> a@[l] == b@[l],
        decreases alen - i,
    {
        let ca = a.as_str().get_char(i);
        let cb = b.as_str().get_char(i);
        if ca < cb {
            proof {
                lemma_str_lt_witness(a@, b@, i as int);
            }
            return true;
        }
        if cb < ca {
            proof {
                assert(!str_lt(a@, b@)) by {
                    if a@.len() < b@.len() && a@ =~= b@.subrange(0, a@.len() as int) {
                        assert(a@[i as int] == b@[i as int]);
                    } else if str_lt(a@, b@) {
                        let d = choose|d: int|
                            0 <= d < a@.len() && d < b@.len() && a@[d] < b@[d]
                                && (forall|l: int| 0 <= l < d ==> a@[l] == b@[l]);
                        if d < i {
                            assert(a@[d] == b@[d]);
                        } else if d == i {
                        } else {
                            assert(a@[i as int] == b@[i as int]);
                        }
                    }
                }
            }
            return false;
        }
        proof {
            assert(a@[i as int] == b@[i as int]);
        }
        i = i + 1;
    }
    if alen < blen {
        proof {
            assert(a@ =~= b@.subrange(0, a@.len() as int));
        }
        true
    } else {
        proof {
            assert(!str_lt(a@, b@)) by {
                if a@.len() < b@.len() && a@ =~= b@.subrange(0, a@.len() as int) {
                } else if str_lt(a@, b@) {
                    let d = choose|d: int|
                        0 <= d < a@.len() && d < b@.len() && a@[d] < b@[d] && (
                        forall|l: int| 0 <= l < d ==> a@[l] == b@[l]);
                    assert(a@[d] == b@[d]);
                }
            }
        }
        false
    }
}

/// `name` stands somewhere in the list.
pub open spec fn has_name(list: Seq<String>, name: Seq<char>) -> bool {
    exists|i: int| 0 <= i < list.len() && list[i]@ == name
}

/// Every pair of positions is strictly ordered, so every name occurs once.
pub open spec fn strictly_sorted(list: Seq<String>) -> bool {
    forall|i: int, j: int| 0 <= i < j < list.len() ==> str_lt(list[i]@, list[j]@)
}

/// The position of `name` in a strictly sorted list; meaningful only when the
/// name is present, in which case it is the unique such position.
pub open spec fn state_index(list: Seq<String>, name: Seq<char>) -> int {
    choose|i: int| 0 <= i < list.len() && list[i]@ == name
}

pub proof fn lemma_state_index(list: Seq<String>, name: Seq<char>)
    requires
        strictly_sorted(list),
        has_name(list, name),
    ensures
        0 <= state_index(list, name) < list.len(),
        list[state_index(list, name)]@ == name,
        forall|i: int| 0 <= i < list.len() && list[i]@ == name ==> i == state_index(list, name),
{
    let idx = state_index(list, name);
    assert(0 <= idx < list.len() && list[idx]@ == name);
    assert forall|i: int| 0 <= i < list.len() && list[i]@ == name implies i == idx by {
        if i != idx {
            if i < idx {
                assert(str_lt(list[i]@, list[idx]@));
            } else {
                assert(str_lt(list[idx]@, list[i]@));
            }
            lemma_str_lt_irrefl(name);
        }
    }
}

/// Put `name` into a sorted list of distinct names, keeping it sorted; a name
/// already present is left alone.
#[verifier::loop_isolation(false)]
pub fn insert_state(list: &mut Vec<String>, name: String)
    requires
        strictly_sorted(old(list)@),
    ensures
        strictly_sorted(final(list)@),
        forall|nm: Seq<char>|
            has_name(final(list)@, nm) == (has_name(old(list)@, nm) || nm == name@),
{
    let ghost orig = list@;
    let mut p: usize = 0;
    while p < list.len() && str_lt_exec(&list[p], &name)
        invariant
            list@ == orig,
            0 <= p <= list@.len(),
            forall|i: int| 0 <= i < p ==> str_lt(list@[i]@, name@),
        decreases list@.len() - p,
    {
        p = p + 1;
    }
    if p < list.len() && list[p].eq(&name) {
        proof {
            assert(has_name(orig, name@));
            assert forall|nm: Seq<char>|
                has_name(list@, nm) == (has_name(orig, nm) || nm == name@) by {}
        }
        return ;
    }
    proof {
        if p < list@.len() {
            assert(list@[p as int]@ != name@);
            lemma_str_lt_connex(list@[p as int]@, name@);
            assert(str_lt(name@, list@[p as int]@));
        }
    }
    list.insert(p, name);
    proof {
        let new = list@;
        assert forall|i: int, j: int| 0 <= i < j < new.len() implies str_lt(new[i]@, new[j]@) by {
            if j < p {
                assert(new[i] == orig[i] && new[j] == orig[j]);
            } else if i < p && j == p {
                assert(new[i] == orig[i]);
                assert(str_lt(orig[i]@, name@));
            } else if i < p && j > p {
                assert(new[i] == orig[i] && new[j] == orig[j - 1]);
                if j - 1 == p as int {
                    assert(i < p);
                    assert(str_lt(orig[i]@, orig[p as int]@)) by {
                        lemma_str_lt_trans(orig[i]@, name@, orig[p as int]@);
                    }
                } else {
                    assert(str_lt(orig[i]@, orig[j - 1]@));
                }
            } else if i == p {
                assert(new[i]@ == name@ && new[j] == orig[j - 1]);
                if j - 1 == p as int {
                    assert(str_lt(name@, orig[p as int]@));
                } else {
                    lemma_str_lt_trans(name@, orig[p as int]@, orig[j - 1]@);
                }
            } else {
                assert(new[i] == orig[i - 1] && new[j] == orig[j - 1]);
                assert(str_lt(orig[i - 1]@, orig[j - 1]@));
            }
        }
        assert forall|nm: Seq<char>|
            has_name(new, nm) == (has_name(orig, nm) || nm == name@) by {
            if has_name(new, nm) {
                let i = choose|i: int| 0 <= i < new.len() && new[i]@ == nm;
                if i < p {
                    assert(orig[i]@ == nm);
                } else if i == p {
                } else {
                    assert(orig[i - 1]@ == nm);
                }
            }
            if has_name(orig, nm) {
                let i = choose|i: int| 0 <= i < orig.len() && orig[i]@ == nm;
                if i < p {
                    assert(new[i]@ == nm);
                } else {
                    assert(new[i + 1]@ == nm);
                }
                assert(has_name(new, nm));
            }
            if nm == name@ {
                assert(new[p as int]@ == nm);
                assert(has_name(new, nm));
            }
        }
    }
}

/// The position of `name` in the list, scanning from the front.
pub fn find_name(list: &Vec<String>, name: &String) -> (r: Option<usize>)
    ensures
        match r {
            Some(i) => i < list@.len() && list@[i as int]@ == name@,
            None => !has_name(list@, name@),
        },
{
    let mut i: usize = 0;
    while i < list.len()
        invariant
            0 <= i <= list@.len(),
            forall|j: int| 0 <= j < i ==> list@[j]@ != name@,
        decreases list@.len() - i,
    {
        if list[i].eq(name) {
            return Some(i);
        }
        i = i + 1;
    }
    None
}


proof fn lemma_str_lt_asym(a: Seq<char>, b: Seq<char>)
    requires
        str_lt(a, b),
    ensures
        !str_lt(b, a),
{
    if str_lt(b, a) {
        lemma_str_lt_trans(a, b, a);
        lemma_str_lt_irrefl(a);
    }
}

/// The fixed bijection between state names and indices is unique: two strictly
/// sorted lists carrying the same names agree position by position. The state
/// order a conversion derives is therefore the one and only sorted arrangement
/// of the states that the productions mention.
pub proof fn lemma_sorted_order_unique(a: Seq<String>, b: Seq<String>)
    requires
        strictly_sorted(a),
        strictly_sorted(b),
        forall|nm: Seq<char>| #[trigger] has_name(a, nm) == has_name(b, nm),
    ensures
        a.len() == b.len(),
        forall|i: int| 0 <= i < a.len() ==> a[i]@ == b[i]@,
    decreases a.len(),
{
    if a.len() == 0 {
        if b.len() > 0 {
            assert(has_name(b, b[0]@));
            assert(has_name(a, b[0]@));
            let i = choose|i: int| 0 <= i < a.len() && a[i]@ == b[0]@;
            assert(false);
        }
    } else {
        assert(has_name(a, a.last()@));
        assert(has_name(b, a.last()@));
        if b.len() == 0 {
            let i = choose|i: int| 0 <= i < b.len() && b[i]@ == a.last()@;
            assert(false);
        }
        // The largest names agree.
        assert(a.last()@ == b.last()@) by {
            if a.last()@ != b.last()@ {
                lemma_str_lt_connex(a.last()@, b.last()@);
                let ia = choose|i: int| 0 <= i < a.len() && a[i]@ == b.last()@;
                let ib = choose|i: int| 0 <= i < b.len() && b[i]@ == a.last()@;
                assert(has_name(b, b.last()@));
                assert(has_name(a, b.last()@));
                assert(has_name(a, a.last()@));
                assert(has_name(b, a.last()@));
                if str_lt(a.last()@, b.last()@) {
                    assert(ia < a.len() - 1 || a[ia]@ == a.last()@);
                    if ia < a.len() - 1 {
                        assert(str_lt(a[ia]@, a.last()@));
                        lemma_str_lt_asym(a.last()@, b.last()@);
                    } else {
                        assert(a.last()@ == b.last()@);
                    }
                } else {
                    assert(ib < b.len() - 1 || b[ib]@ == b.last()@);
                    if ib < b.len() - 1 {
                        assert(str_lt(b[ib]@, b.last()@));
                        lemma_str_lt_asym(b.last()@, a.last()@);
                    } else {
                        assert(b.last()@ == a.last()@);
                    }
                }
            }
        }
        let ap = a.drop_last();
        let bp = b.drop_last();
        assert(strictly_sorted(ap)) by {
            assert forall|i: int, j: int| 0 <= i < j < ap.len() implies str_lt(
                ap[i]@,
                ap[j]@,
            ) by {
                assert(ap[i] == a[i] && ap[j] == a[j]);
            }
        }
        assert(strictly_sorted(bp)) by {
            assert forall|i: int, j: int| 0 <= i < j < bp.len() implies str_lt(
                bp[i]@,
                bp[j]@,
            ) by {
                assert(bp[i] == b[i] && bp[j] == b[j]);
            }
        }
        assert forall|nm: Seq<char>| #[trigger] has_name(ap, nm) == has_name(bp, nm) by {
            assert(has_name(ap, nm) == (has_name(a, nm) && nm != a.last()@)) by {
                if has_name(ap, nm) {
                    let i = choose|i: int| 0 <= i < ap.len() && ap[i]@ == nm;
                    assert(a[i]@ == nm);
                    assert(str_lt(a[i]@, a.last()@));
                    if nm == a.last()@ {
                        lemma_str_lt_irrefl(nm);
                    }
                    assert(has_name(a, nm));
                }
                if has_name(a, nm) && nm != a.last()@ {
                    let i = choose|i: int| 0 <= i < a.len() && a[i]@ == nm;
                    assert(i < a.len() - 1);
                    assert(ap[i]@ == nm);
                    assert(has_name(ap, nm));
                }
            }
            assert(has_name(bp, nm) == (has_name(b, nm) && nm != b.last()@)) by {
                if has_name(bp, nm) {
                    let i = choose|i: int| 0 <= i < bp.len() && bp[i]@ == nm;
                    assert(b[i]@ == nm);
                    assert(str_lt(b[i]@, b.last()@));
                    if nm == b.last()@ {
                        lemma_str_lt_irrefl(nm);
                    }
                    assert(has_name(b, nm));
                }
                if has_name(b, nm) && nm != b.last()@ {
                    let i = choose|i: int| 0 <= i < b.len() && b[i]@ == nm;
                    assert(i < b.len() - 1);
                    assert(bp[i]@ == nm);
                    assert(has_name(bp, nm));
                }
            }
        }
        lemma_sorted_order_unique(ap, bp);
        assert forall|i: int| 0 <= i < a.len() implies a[i]@ == b[i]@ by {
            if i < a.len() - 1 {
                assert(ap[i]@ == bp[i]@);
                assert(ap[i] == a[i] && bp[i] == b[i]);
            }
        }
    }
}

} // verus!
