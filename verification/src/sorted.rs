use vstd::prelude::*;

verus! {

/// `s` is strictly increasing: sorted, with no value twice.
pub open spec fn strictly_increasing_u16(s: Seq<u16>) -> bool {
    forall|i: int, j: int| 0 <= i < j < s.len() ==> s[i] < s[j]
}

/// `s` is strictly increasing: sorted, with no value twice.
pub open spec fn strictly_increasing_u32(s: Seq<u32>) -> bool {
    forall|i: int, j: int| 0 <= i < j < s.len() ==> s[i] < s[j]
}

/// Adds `x` to a strictly increasing vector, keeping it strictly increasing.
pub fn insert_unique_u16(v: &mut Vec<u16>, x: u16)
    requires
        strictly_increasing_u16(old(v)@),
    ensures
        strictly_increasing_u16(final(v)@),
        final(v)@.to_set() == old(v)@.to_set().insert(x),
{
    let mut p: usize = 0;
    while p < v.len() && v[p] < x
        invariant
            p <= v.len(),
            forall|k: int| 0 <= k < p ==> v@[k] < x,
        decreases v.len() - p,
    {
        p = p + 1;
    }
    let ghost old_v = v@;
    if p < v.len() && v[p] == x {
        proof {
            assert(old_v.to_set().insert(x) =~= old_v.to_set()) by {
                assert(old_v.contains(x)) by { assert(old_v[p as int] == x); }
            }
        }
        return;
    }
    v.insert(p, x);
    proof {
        assert forall|i: int, j: int| 0 <= i < j < v@.len() implies v@[i] < v@[j] by {
            if i < p && j < p {
            } else if i < p && j == p {
            } else if i < p {
                assert(v@[j] == old_v[j - 1]);
                assert(old_v[i] < old_v[j - 1]);
            } else if i == p {
                assert(v@[j] == old_v[j - 1]);
                assert(old_v[p as int] >= x);
                if j - 1 > p {
                    assert(old_v[p as int] < old_v[j - 1]);
                }
            } else {
                assert(v@[i] == old_v[i - 1]);
                assert(v@[j] == old_v[j - 1]);
            }
        }
        assert(v@.to_set() =~= old_v.to_set().insert(x)) by {
            assert forall|y: u16| v@.contains(y) implies old_v.to_set().insert(x).contains(y) by {
                let k = choose|k: int| 0 <= k < v@.len() && v@[k] == y;
                if k < p {
                    assert(old_v[k] == y);
                } else if k > p {
                    assert(old_v[k - 1] == y);
                }
            }
            assert forall|y: u16| old_v.to_set().insert(x).contains(y) implies v@.contains(y) by {
                if y == x {
                    assert(v@[p as int] == x);
                } else {
                    let k = choose|k: int| 0 <= k < old_v.len() && old_v[k] == y;
                    if k < p {
                        assert(v@[k] == y);
                    } else {
                        assert(v@[k + 1] == y);
                    }
                }
            }
        }
    }
}

/// Adds `x` to a strictly increasing vector, keeping it strictly increasing.
pub fn insert_unique_u32(v: &mut Vec<u32>, x: u32)
    requires
        strictly_increasing_u32(old(v)@),
    ensures
        strictly_increasing_u32(final(v)@),
        final(v)@.to_set() == old(v)@.to_set().insert(x),
{
    let mut p: usize = 0;
    while p < v.len() && v[p] < x
        invariant
            p <= v.len(),
            forall|k: int| 0 <= k < p ==> v@[k] < x,
        decreases v.len() - p,
    {
        p = p + 1;
    }
    let ghost old_v = v@;
    if p < v.len() && v[p] == x {
        proof {
            assert(old_v.to_set().insert(x) =~= old_v.to_set()) by {
                assert(old_v.contains(x)) by { assert(old_v[p as int] == x); }
            }
        }
        return;
    }
    v.insert(p, x);
    proof {
        assert forall|i: int, j: int| 0 <= i < j < v@.len() implies v@[i] < v@[j] by {
            if i < p && j < p {
            } else if i < p && j == p {
            } else if i < p {
                assert(v@[j] == old_v[j - 1]);
                assert(old_v[i] < old_v[j - 1]);
            } else if i == p {
                assert(v@[j] == old_v[j - 1]);
                assert(old_v[p as int] >= x);
                if j - 1 > p {
                    assert(old_v[p as int] < old_v[j - 1]);
                }
            } else {
                assert(v@[i] == old_v[i - 1]);
                assert(v@[j] == old_v[j - 1]);
            }
        }
        assert(v@.to_set() =~= old_v.to_set().insert(x)) by {
            assert forall|y: u32| v@.contains(y) implies old_v.to_set().insert(x).contains(y) by {
                let k = choose|k: int| 0 <= k < v@.len() && v@[k] == y;
                if k < p {
                    assert(old_v[k] == y);
                } else if k > p {
                    assert(old_v[k - 1] == y);
                }
            }
            assert forall|y: u32| old_v.to_set().insert(x).contains(y) implies v@.contains(y) by {
                if y == x {
                    assert(v@[p as int] == x);
                } else {
                    let k = choose|k: int| 0 <= k < old_v.len() && old_v[k] == y;
                    if k < p {
                        assert(v@[k] == y);
                    } else {
                        assert(v@[k + 1] == y);
                    }
                }
            }
        }
    }
}

} // verus!

verus! {

/// `s` is sorted in non-decreasing order.
pub open spec fn nondecreasing_u32(s: Seq<u32>) -> bool {
    forall|i: int, j: int| 0 <= i <= j < s.len() ==> s[i] <= s[j]
}

/// How many times `x` occurs in `s`.
pub open spec fn count_u32(s: Seq<u32>, x: u32) -> nat
    decreases s.len(),
{
    if s.len() == 0 {
        0
    } else {
        count_u32(s.drop_last(), x) + if s.last() == x {
            1nat
        } else {
            0nat
        }
    }
}

pub proof fn lemma_count_push(s: Seq<u32>, y: u32, x: u32)
    ensures
        count_u32(s.push(y), x) == count_u32(s, x) + if y == x {
            1nat
        } else {
            0nat
        },
{
    assert(s.push(y).drop_last() =~= s);
}

pub proof fn lemma_count_split(s: Seq<u32>, j: int, x: u32)
    requires
        0 <= j <= s.len(),
    ensures
        count_u32(s, x) == count_u32(s.take(j), x) + count_u32(s.skip(j), x),
    decreases s.len() - j,
{
    if j == s.len() {
        assert(s.take(j) =~= s);
        assert(s.skip(j).len() == 0);
    } else {
        lemma_count_split(s, j + 1, x);
        assert(s.take(j + 1) =~= s.take(j).push(s[j]));
        lemma_count_push(s.take(j), s[j], x);
        lemma_count_skip_first(s.skip(j), x);
        assert(s.skip(j).drop_first() =~= s.skip(j + 1));
    }
}

pub proof fn lemma_count_skip_first(s: Seq<u32>, x: u32)
    requires
        s.len() > 0,
    ensures
        count_u32(s, x) == count_u32(s.drop_first(), x) + if s[0] == x {
            1nat
        } else {
            0nat
        },
    decreases s.len(),
{
    if s.len() == 1 {
        assert(s.drop_last().len() == 0);
        assert(s.drop_first().len() == 0);
        assert(s.last() == s[0]);
        assert(count_u32(s.drop_last(), x) == 0);
        assert(count_u32(s.drop_first(), x) == 0);
    } else {
        lemma_count_skip_first(s.drop_last(), x);
        assert(s.drop_last().drop_first() =~= s.drop_first().drop_last());
        assert(s.drop_first().last() == s.last());
        assert(s.drop_last()[0] == s[0]);
        assert(s.drop_first().len() > 0);
        assert(count_u32(s.drop_first(), x) == count_u32(s.drop_first().drop_last(), x) + if s.last() == x {
            1nat
        } else {
            0nat
        });
        assert(count_u32(s, x) == count_u32(s.drop_last(), x) + if s.last() == x {
            1nat
        } else {
            0nat
        });
    }
}

pub proof fn lemma_count_pos(s: Seq<u32>, x: u32)
    requires
        count_u32(s, x) > 0,
    ensures
        exists|k: int| 0 <= k < s.len() && s[k] == x,
    decreases s.len(),
{
    if s.last() != x {
        lemma_count_pos(s.drop_last(), x);
        let k = choose|k: int| 0 <= k < s.drop_last().len() && s.drop_last()[k] == x;
        assert(s[k] == x);
    } else {
        assert(s[s.len() - 1] == x);
    }
}

pub proof fn lemma_count_zero(s: Seq<u32>, x: u32)
    requires
        forall|k: int| 0 <= k < s.len() ==> s[k] != x,
    ensures
        count_u32(s, x) == 0,
    decreases s.len(),
{
    if s.len() > 0 {
        lemma_count_zero(s.drop_last(), x);
    }
}

/// Intersect two sorted slices: the result is sorted, and each value occurs
/// in it as often as it occurs in both inputs (the lesser of its two counts).
pub fn intersect_sorted(a: &[u32], b: &[u32]) -> (r: Vec<u32>)
    requires
        nondecreasing_u32(a@),
        nondecreasing_u32(b@),
    ensures
        nondecreasing_u32(r@),
        forall|x: u32|
            #[trigger] count_u32(r@, x) == if count_u32(a@, x) <= count_u32(b@, x) {
                count_u32(a@, x)
            } else {
                count_u32(b@, x)
            },
{
    let mut r: Vec<u32> = Vec::new();
    let mut i: usize = 0;
    let mut j: usize = 0;
    while i < a.len() && j < b.len()
        invariant
            i <= a.len(),
            j <= b.len(),
            nondecreasing_u32(a@),
            nondecreasing_u32(b@),
            nondecreasing_u32(r@),
            r@.len() > 0 && i < a.len() ==> r@.last() <= a@[i as int],
            forall|x: u32|
                #[trigger] count_u32(r@, x) == if count_u32(a@.take(i as int), x) <= count_u32(
                    b@.take(j as int),
                    x,
                ) {
                    count_u32(a@.take(i as int), x)
                } else {
                    count_u32(b@.take(j as int), x)
                },
            forall|x: u32|
                j < b.len() && x >= b@[j as int] ==> #[trigger] count_u32(a@.take(i as int), x)
                    <= count_u32(b@.take(j as int), x),
            forall|x: u32|
                i < a.len() && x >= a@[i as int] ==> #[trigger] count_u32(b@.take(j as int), x)
                    <= count_u32(a@.take(i as int), x),
        decreases a.len() - i + b.len() - j,
    {
        let ai = a[i];
        let bj = b[j];
        let ghost at = a@.take(i as int);
        let ghost bt = b@.take(j as int);
        let ghost r0 = r@;
        proof {
            assert(a@.take(i + 1) =~= at.push(ai));
            assert(b@.take(j + 1) =~= bt.push(bj));
        }
        if ai < bj {
            i = i + 1;
            proof {
                assert forall|x: u32| #[trigger] count_u32(r@, x) == if count_u32(a@.take(i as int), x)
                    <= count_u32(b@.take(j as int), x) {
                    count_u32(a@.take(i as int), x)
                } else {
                    count_u32(b@.take(j as int), x)
                } by {
                    lemma_count_push(at, ai, x);
                }
                assert forall|x: u32|
                    j < b.len() && x >= b@[j as int] implies #[trigger] count_u32(a@.take(i as int), x)
                        <= count_u32(b@.take(j as int), x) by {
                    lemma_count_push(at, ai, x);
                }
                assert forall|x: u32|
                    i < a.len() && x >= a@[i as int] implies #[trigger] count_u32(b@.take(j as int), x)
                        <= count_u32(a@.take(i as int), x) by {
                    lemma_count_push(at, ai, x);
                    assert(a@[i - 1] <= a@[i as int]);
                }
            }
        } else if bj < ai {
            j = j + 1;
            proof {
                assert forall|x: u32| #[trigger] count_u32(r@, x) == if count_u32(a@.take(i as int), x)
                    <= count_u32(b@.take(j as int), x) {
                    count_u32(a@.take(i as int), x)
                } else {
                    count_u32(b@.take(j as int), x)
                } by {
                    lemma_count_push(bt, bj, x);
                }
                assert forall|x: u32|
                    j < b.len() && x >= b@[j as int] implies #[trigger] count_u32(a@.take(i as int), x)
                        <= count_u32(b@.take(j as int), x) by {
                    lemma_count_push(bt, bj, x);
                    assert(b@[j - 1] <= b@[j as int]);
                }
                assert forall|x: u32|
                    i < a.len() && x >= a@[i as int] implies #[trigger] count_u32(b@.take(j as int), x)
                        <= count_u32(a@.take(i as int), x) by {
                    lemma_count_push(bt, bj, x);
                }
            }
        } else {
            r.push(ai);
            i = i + 1;
            j = j + 1;
            proof {
                assert forall|x: u32| #[trigger] count_u32(r@, x) == if count_u32(a@.take(i as int), x)
                    <= count_u32(b@.take(j as int), x) {
                    count_u32(a@.take(i as int), x)
                } else {
                    count_u32(b@.take(j as int), x)
                } by {
                    lemma_count_push(at, ai, x);
                    lemma_count_push(bt, bj, x);
                    lemma_count_push(r0, ai, x);
                }
                assert forall|x: u32|
                    j < b.len() && x >= b@[j as int] implies #[trigger] count_u32(a@.take(i as int), x)
                        <= count_u32(b@.take(j as int), x) by {
                    lemma_count_push(at, ai, x);
                    lemma_count_push(bt, bj, x);
                    assert(b@[j - 1] <= b@[j as int]);
                }
                assert forall|x: u32|
                    i < a.len() && x >= a@[i as int] implies #[trigger] count_u32(b@.take(j as int), x)
                        <= count_u32(a@.take(i as int), x) by {
                    lemma_count_push(at, ai, x);
                    lemma_count_push(bt, bj, x);
                    assert(a@[i - 1] <= a@[i as int]);
                }
                assert forall|p: int, q: int| 0 <= p <= q < r@.len() implies r@[p] <= r@[q] by {
                    if q == r@.len() - 1 && p < q {
                        assert(r0[p] <= r0.last());
                    }
                }
                if i < a.len() {
                    assert(a@[i - 1] <= a@[i as int]);
                }
            }
        }
    }
    proof {
        assert forall|x: u32| #[trigger] count_u32(r@, x) == if count_u32(a@, x) <= count_u32(b@, x) {
            count_u32(a@, x)
        } else {
            count_u32(b@, x)
        } by {
            let at = a@.take(i as int);
            let bt = b@.take(j as int);
            lemma_count_split(a@, i as int, x);
            lemma_count_split(b@, j as int, x);
            if i == a.len() {
                assert(at =~= a@);
                if count_u32(b@.skip(j as int), x) > 0 {
                    lemma_count_pos(b@.skip(j as int), x);
                    let k = choose|k: int| 0 <= k < b@.skip(j as int).len() && b@.skip(j as int)[k] == x;
                    assert(b@[j + k] == x);
                    assert(b@[j as int] <= b@[j + k]);
                }
            } else {
                assert(bt =~= b@);
                if count_u32(a@.skip(i as int), x) > 0 {
                    lemma_count_pos(a@.skip(i as int), x);
                    let k = choose|k: int| 0 <= k < a@.skip(i as int).len() && a@.skip(i as int)[k] == x;
                    assert(a@[i + k] == x);
                    assert(a@[i as int] <= a@[i + k]);
                }
            }
        }
    }
    r
}

/// The elements of a set of indices in increasing order.
pub open spec fn ascending(s: Set<u32>) -> Seq<u32> {
    choose|q: Seq<u32>| strictly_increasing_u32(q) && q.to_set() == s
}

proof fn lemma_strict_last_is_max(q: Seq<u32>, x: u32)
    requires
        strictly_increasing_u32(q),
        q.to_set().contains(x),
    ensures
        q.len() > 0,
        x <= q.last(),
        x == q.last() || q.drop_last().to_set().contains(x),
{
    let k = choose|k: int| 0 <= k < q.len() && q[k] == x;
    if k < q.len() - 1 {
        assert(q.drop_last()[k] == x);
    }
}

/// Two strictly increasing sequences with the same elements are equal.
pub proof fn lemma_strict_unique(a: Seq<u32>, b: Seq<u32>)
    requires
        strictly_increasing_u32(a),
        strictly_increasing_u32(b),
        a.to_set() == b.to_set(),
    ensures
        a == b,
    decreases a.len(),
{
    if a.len() == 0 {
        if b.len() > 0 {
            assert(b.to_set().contains(b[0]));
        }
        assert(a =~= b);
    } else {
        assert(a.to_set().contains(a.last()));
        lemma_strict_last_is_max(b, a.last());
        assert(b.to_set().contains(b.last()));
        lemma_strict_last_is_max(a, b.last());
        assert(a.last() == b.last());
        let a1 = a.drop_last();
        let b1 = b.drop_last();
        assert(a1.to_set() =~= b1.to_set()) by {
            assert forall|x: u32| a1.to_set().contains(x) implies b1.to_set().contains(x) by {
                let k = choose|k: int| 0 <= k < a1.len() && a1[k] == x;
                assert(a[k] < a.last());
                assert(b.to_set().contains(x));
                lemma_strict_last_is_max(b, x);
            }
            assert forall|x: u32| b1.to_set().contains(x) implies a1.to_set().contains(x) by {
                let k = choose|k: int| 0 <= k < b1.len() && b1[k] == x;
                assert(b[k] < b.last());
                assert(a.to_set().contains(x));
                lemma_strict_last_is_max(a, x);
            }
        }
        lemma_strict_unique(a1, b1);
        assert(a =~= a1.push(a.last()));
        assert(b =~= b1.push(b.last()));
    }
}

/// A strictly increasing sequence is the ascending order of its elements.
pub proof fn lemma_ascending_of(q: Seq<u32>)
    requires
        strictly_increasing_u32(q),
    ensures
        ascending(q.to_set()) == q,
{
    let a = ascending(q.to_set());
    assert(strictly_increasing_u32(a) && a.to_set() == q.to_set());
    lemma_strict_unique(a, q);
}

} // verus!
