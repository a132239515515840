use vstd::prelude::*;

use crate::sorted::{insert_unique_u32, strictly_increasing_u32};

verus! {

broadcast use vstd::seq_lib::group_seq_properties;

/// One scored candidate: its clamped match score, the byte length of the
/// item and the item's index.
#[derive(Clone, Copy, Debug)]
pub struct Ranked {
    pub key: u32,
    pub byte_len: usize,
    pub index: u32,
}

/// The result order: higher score first, then shorter item, then lower
/// index.
pub open spec fn ranks_before(a: Ranked, b: Ranked) -> bool {
    ||| a.key > b.key
    ||| (a.key == b.key && a.byte_len < b.byte_len)
    ||| (a.key == b.key && a.byte_len == b.byte_len && a.index < b.index)
}

/// `s` is in result order, each entry strictly before the next.
pub open spec fn sorted_ranked(s: Seq<Ranked>) -> bool {
    forall|i: int, j: int| 0 <= i < j < s.len() ==> ranks_before(#[trigger] s[i], #[trigger] s[j])
}

/// No index occurs twice in `s`.
pub open spec fn distinct_indices(s: Seq<Ranked>) -> bool {
    forall|i: int, j: int| 0 <= i < j < s.len() ==> (#[trigger] s[i]).index != (#[trigger] s[j]).index
}

/// How many results a limit allows out of `n` candidates.
pub open spec fn limited(n: nat, limit: Option<u32>) -> nat {
    match limit {
        Some(k) => if k < n {
            k as nat
        } else {
            n
        },
        None => n,
    }
}

/// `out` holds the best `limit` entries of `all`, in result order.
pub open spec fn top_k(out: Seq<Ranked>, all: Seq<Ranked>, limit: Option<u32>) -> bool {
    &&& sorted_ranked(out)
    &&& out.len() == limited(all.len(), limit)
    &&& forall|i: int| 0 <= i < out.len() ==> all.contains(#[trigger] out[i])
    &&& forall|h: Ranked, i: int|
        #![trigger all.contains(h), out[i]]
        all.contains(h) && !out.contains(h) && 0 <= i < out.len() ==> ranks_before(out[i], h)
}

/// Two sequences in result order that hold the same entries are equal: the
/// result order is a strict total order on entries.
pub proof fn lemma_sorted_same_entries(a: Seq<Ranked>, b: Seq<Ranked>)
    requires
        sorted_ranked(a),
        sorted_ranked(b),
        a.to_set() == b.to_set(),
    ensures
        a == b,
    decreases a.len(),
{
    if a.len() == 0 {
        if b.len() > 0 {
            assert(b.to_set().contains(b[0]));
        }
        assert(a =~= b);
    } else {
        assert(a.to_set().contains(a[0]));
        let j = choose|j: int| 0 <= j < b.len() && b[j] == a[0];
        assert(b.to_set().contains(b[0]));
        let k = choose|k: int| 0 <= k < a.len() && a[k] == b[0];
        if a[0] != b[0] {
            assert(j > 0 && k > 0);
            assert(ranks_before(b[0], b[j]));
            assert(ranks_before(a[0], a[k]));
        }
        let a1 = a.drop_first();
        let b1 = b.drop_first();
        assert(a1.to_set() =~= b1.to_set()) by {
            assert forall|x: Ranked| a1.to_set().contains(x) implies b1.to_set().contains(x) by {
                let i = choose|i: int| 0 <= i < a1.len() && a1[i] == x;
                assert(ranks_before(a[0], a[i + 1]));
                assert(a.to_set().contains(a[i + 1]));
                let m = choose|m: int| 0 <= m < b.len() && b[m] == x;
                assert(m != 0);
                assert(b1[m - 1] == x);
            }
            assert forall|x: Ranked| b1.to_set().contains(x) implies a1.to_set().contains(x) by {
                let i = choose|i: int| 0 <= i < b1.len() && b1[i] == x;
                assert(ranks_before(b[0], b[i + 1]));
                assert(b.to_set().contains(b[i + 1]));
                let m = choose|m: int| 0 <= m < a.len() && a[m] == x;
                assert(m != 0);
                assert(a1[m - 1] == x);
            }
        }
        lemma_sorted_same_entries(a1, b1);
        assert(a =~= b) by {
            assert forall|i: int| 0 <= i < a.len() implies a[i] == b[i] by {
                if i > 0 {
                    assert(a1[i - 1] == b1[i - 1]);
                }
            }
        }
    }
}

/// A sequence in result order holds no entry twice.
proof fn lemma_sorted_no_duplicates(a: Seq<Ranked>)
    requires
        sorted_ranked(a),
    ensures
        a.no_duplicates(),
{
    assert forall|i: int, j: int| 0 <= i < a.len() && 0 <= j < a.len() && i != j implies a[i] != a[j] by {
        if i < j {
            assert(ranks_before(a[i], a[j]));
        } else {
            assert(ranks_before(a[j], a[i]));
        }
    }
}

/// The best `limit` entries of `all` in result order are one sequence:
/// any two results that [`top_k`] allows are equal.
pub proof fn lemma_top_k_unique(o1: Seq<Ranked>, o2: Seq<Ranked>, all: Seq<Ranked>, limit: Option<u32>)
    requires
        top_k(o1, all, limit),
        top_k(o2, all, limit),
    ensures
        o1 == o2,
{
    assert forall|x: Ranked| o1.to_set().contains(x) implies o2.to_set().contains(x) by {
        lemma_top_k_subset(o1, o2, all, limit, x);
    }
    assert forall|x: Ranked| o2.to_set().contains(x) implies o1.to_set().contains(x) by {
        lemma_top_k_subset(o2, o1, all, limit, x);
    }
    assert(o1.to_set() =~= o2.to_set());
    lemma_sorted_same_entries(o1, o2);
}

/// An entry of one result that [`top_k`] allows is in any other.
proof fn lemma_top_k_subset(o1: Seq<Ranked>, o2: Seq<Ranked>, all: Seq<Ranked>, limit: Option<u32>, x: Ranked)
    requires
        top_k(o1, all, limit),
        top_k(o2, all, limit),
        o1.to_set().contains(x),
    ensures
        o2.to_set().contains(x),
{
    if !o2.to_set().contains(x) {
        let p = choose|p: int| 0 <= p < o1.len() && o1[p] == x;
        assert(all.contains(o1[p]));
        // Every entry of `o2` is in `o1`: otherwise `x` and it would each
        // rank before the other.
        assert forall|y: Ranked| o2.to_set().contains(y) implies o1.to_set().contains(y) by {
            let j = choose|j: int| 0 <= j < o2.len() && o2[j] == y;
            assert(all.contains(o2[j]));
            if !o1.contains(y) {
                assert(ranks_before(o1[p], y));
                assert(!o2.contains(x));
                assert(ranks_before(o2[j], x));
            }
        }
        lemma_sorted_no_duplicates(o2);
        o2.unique_seq_to_set();
        o1.lemma_cardinality_of_set();
        let s2x = o2.to_set().insert(x);
        assert(s2x.subset_of(o1.to_set()));
        vstd::set_lib::lemma_len_subset(s2x, o1.to_set());
        assert(s2x.len() == o2.to_set().len() + 1);
    }
}

/// The entries of `s` whose score reaches `m`, in order.
pub open spec fn reaching(s: Seq<Ranked>, m: u64) -> Seq<Ranked>
    decreases s.len(),
{
    if s.len() == 0 {
        s
    } else {
        let r = reaching(s.drop_last(), m);
        if s.last().key >= m {
            r.push(s.last())
        } else {
            r
        }
    }
}

proof fn lemma_reaching_contains(s: Seq<Ranked>, m: u64, x: Ranked)
    ensures
        reaching(s, m).contains(x) <==> (s.contains(x) && x.key >= m),
    decreases s.len(),
{
    if s.len() > 0 {
        let t = s.drop_last();
        lemma_reaching_contains(t, m, x);
        let r = reaching(t, m);
        if s.contains(x) && x != s.last() {
            let i = choose|i: int| 0 <= i < s.len() && s[i] == x;
            assert(t[i] == x);
        }
        if t.contains(x) {
            let i = choose|i: int| 0 <= i < t.len() && t[i] == x;
            assert(s[i] == x);
        }
        if s.last().key >= m {
            assert(r.push(s.last()).contains(x) <==> (r.contains(x) || x == s.last())) by {
                if r.push(s.last()).contains(x) && x != s.last() {
                    let i = choose|i: int| 0 <= i < r.len() + 1 && r.push(s.last())[i] == x;
                    assert(r[i] == x);
                }
                if r.contains(x) {
                    let i = choose|i: int| 0 <= i < r.len() && r[i] == x;
                    assert(r.push(s.last())[i] == x);
                }
                if x == s.last() {
                    assert(r.push(s.last())[r.len() as int] == x);
                }
            }
        }
        assert(s.contains(s.last())) by {
            assert(s[s.len() - 1] == s.last());
        }
    }
}

proof fn lemma_reaching_sorted(s: Seq<Ranked>, m: u64)
    requires
        sorted_ranked(s),
    ensures
        sorted_ranked(reaching(s, m)),
    decreases s.len(),
{
    if s.len() > 0 {
        let t = s.drop_last();
        assert(sorted_ranked(t));
        lemma_reaching_sorted(t, m);
        let r = reaching(t, m);
        if s.last().key >= m {
            assert forall|i: int| 0 <= i < r.len() implies ranks_before(r[i], s.last()) by {
                lemma_reaching_contains(t, m, r[i]);
                assert(r.contains(r[i]));
                let j = choose|j: int| 0 <= j < t.len() && t[j] == r[i];
                assert(ranks_before(s[j], s[s.len() - 1]));
            }
            let r2 = r.push(s.last());
            assert forall|i: int, j: int| 0 <= i < j < r2.len() implies ranks_before(
                #[trigger] r2[i],
                #[trigger] r2[j],
            ) by {
                if j == r.len() {
                    assert(r2[i] == r[i]);
                } else {
                    assert(r2[i] == r[i] && r2[j] == r[j]);
                }
            }
        }
    }
}

proof fn lemma_reaching_no_duplicates(s: Seq<Ranked>, m: u64)
    requires
        s.no_duplicates(),
    ensures
        reaching(s, m).no_duplicates(),
    decreases s.len(),
{
    if s.len() > 0 {
        let t = s.drop_last();
        assert(t.no_duplicates()) by {
            assert forall|i: int, j: int| 0 <= i < t.len() && 0 <= j < t.len() && i != j implies t[i] != t[j] by {
                assert(s[i] == t[i] && s[j] == t[j]);
            }
        }
        lemma_reaching_no_duplicates(t, m);
        let r = reaching(t, m);
        if s.last().key >= m {
            lemma_reaching_contains(t, m, s.last());
            if t.contains(s.last()) {
                let i = choose|i: int| 0 <= i < t.len() && t[i] == s.last();
                assert(s[i] == s[s.len() - 1]);
            }
            let r2 = r.push(s.last());
            assert forall|i: int, j: int| 0 <= i < r2.len() && 0 <= j < r2.len() && i != j implies r2[i] != r2[j] by {
                if i == r.len() {
                    assert(r.contains(r[j]));
                } else if j == r.len() {
                    assert(r.contains(r[i]));
                } else {
                    assert(r2[i] == r[i] && r2[j] == r[j]);
                }
            }
        }
    }
}

/// Raising the minimum score only filters: the best `limit` entries of
/// `all` that reach `m` are the entries of the full ranking of `all` that
/// reach `m`, cut to the limit.
pub proof fn lemma_top_k_reaching(
    all: Seq<Ranked>,
    m: u64,
    limit: Option<u32>,
    out: Seq<Ranked>,
    unlimited: Seq<Ranked>,
)
    requires
        all.no_duplicates(),
        top_k(out, reaching(all, m), limit),
        top_k(unlimited, all, None),
    ensures
        out == reaching(unlimited, m).take(limited(reaching(all, m).len(), limit) as int),
{
    // The full ranking holds exactly the entries of `all`.
    lemma_sorted_no_duplicates(unlimited);
    unlimited.unique_seq_to_set();
    all.unique_seq_to_set();
    assert(unlimited.to_set() =~= all.to_set()) by {
        assert forall|x: Ranked| unlimited.to_set().contains(x) implies all.to_set().contains(x) by {
            let i = choose|i: int| 0 <= i < unlimited.len() && unlimited[i] == x;
            assert(all.contains(unlimited[i]));
        }
        assert forall|x: Ranked| all.to_set().contains(x) implies unlimited.to_set().contains(x) by {
            if !unlimited.to_set().contains(x) {
                let sub = unlimited.to_set();
                assert(sub.subset_of(all.to_set().remove(x)));
                vstd::set_lib::lemma_len_subset(sub, all.to_set().remove(x));
            }
        }
    }
    let ra = reaching(all, m);
    let f = reaching(unlimited, m);
    lemma_reaching_sorted(unlimited, m);
    lemma_reaching_no_duplicates(all, m);
    lemma_sorted_no_duplicates(f);
    assert(f.to_set() =~= ra.to_set()) by {
        assert forall|x: Ranked| f.to_set().contains(x) <==> ra.to_set().contains(x) by {
            lemma_reaching_contains(unlimited, m, x);
            lemma_reaching_contains(all, m, x);
            assert(unlimited.to_set().contains(x) <==> all.to_set().contains(x));
        }
    }
    f.unique_seq_to_set();
    ra.unique_seq_to_set();
    let l = limited(ra.len(), limit);
    let t = f.take(l as int);
    assert(top_k(t, ra, limit)) by {
        assert forall|i: int| 0 <= i < t.len() implies ra.contains(#[trigger] t[i]) by {
            assert(f.to_set().contains(f[i]));
        }
        assert forall|h: Ranked, i: int|
            #![trigger ra.contains(h), t[i]]
            ra.contains(h) && !t.contains(h) && 0 <= i < t.len() implies ranks_before(t[i], h) by {
            assert(ra.to_set().contains(h));
            let q = choose|q: int| 0 <= q < f.len() && f[q] == h;
            if q < l {
                assert(t[q] == h);
            }
            assert(t[i] == f[i]);
        }
    }
    lemma_top_k_unique(out, t, ra, limit);
}

proof fn lemma_ranks_transitive(a: Ranked, b: Ranked, c: Ranked)
    requires
        ranks_before(a, b),
        ranks_before(b, c),
    ensures
        ranks_before(a, c),
{
}

fn ranks_before_exec(a: &Ranked, b: &Ranked) -> (r: bool)
    ensures
        r == ranks_before(*a, *b),
{
    if a.key != b.key {
        a.key > b.key
    } else if a.byte_len != b.byte_len {
        a.byte_len < b.byte_len
    } else {
        a.index < b.index
    }
}

fn merge_ranked(a: Vec<Ranked>, b: Vec<Ranked>) -> (r: Vec<Ranked>)
    requires
        sorted_ranked(a@),
        sorted_ranked(b@),
        forall|x: int, y: int|
            0 <= x < a.len() && 0 <= y < b.len() ==> (#[trigger] a@[x]).index != (
            #[trigger] b@[y]).index,
    ensures
        sorted_ranked(r@),
        r@.len() == a@.len() + b@.len(),
        r@.to_set() == a@.to_set().union(b@.to_set()),
{
    let mut r: Vec<Ranked> = Vec::new();
    let mut i: usize = 0;
    let mut j: usize = 0;
    while i < a.len() || j < b.len()
        invariant
            i <= a.len(),
            j <= b.len(),
            sorted_ranked(a@),
            sorted_ranked(b@),
            forall|x: int, y: int|
                0 <= x < a.len() && 0 <= y < b.len() ==> (#[trigger] a@[x]).index != (
                #[trigger] b@[y]).index,
            sorted_ranked(r@),
            r@.len() == i + j,
            r@.to_set() == a@.take(i as int).to_set().union(b@.take(j as int).to_set()),
            i < a.len() ==> forall|k: int| 0 <= k < r@.len() ==> ranks_before(#[trigger] r@[k], a@[i as int]),
            j < b.len() ==> forall|k: int| 0 <= k < r@.len() ==> ranks_before(#[trigger] r@[k], b@[j as int]),
        decreases a.len() + b.len() - i - j,
    {
        let take_a = if i < a.len() && j < b.len() {
            ranks_before_exec(&a[i], &b[j])
        } else {
            i < a.len()
        };
        let ghost old_r = r@;
        if take_a {
            let x = a[i];
            r.push(x);
            proof {
                assert(a@.take(i + 1) == a@.take(i as int).push(x));
                old_r.lemma_push_to_set_commute(x);
                a@.take(i as int).lemma_push_to_set_commute(x);
                if i + 1 < a.len() {
                    assert forall|k: int| 0 <= k < r@.len() implies ranks_before(#[trigger] r@[k], a@[i + 1]) by {
                        if k < old_r.len() {
                            lemma_ranks_transitive(r@[k], x, a@[i + 1]);
                        }
                    }
                }
                if j < b.len() {
                    assert(ranks_before(x, b@[j as int]) || ranks_before(b@[j as int], x));
                }
            }
            i = i + 1;
        } else {
            let y = b[j];
            r.push(y);
            proof {
                assert(b@.take(j + 1) == b@.take(j as int).push(y));
                old_r.lemma_push_to_set_commute(y);
                b@.take(j as int).lemma_push_to_set_commute(y);
                if j + 1 < b.len() {
                    assert forall|k: int| 0 <= k < r@.len() implies ranks_before(#[trigger] r@[k], b@[j + 1]) by {
                        if k < old_r.len() {
                            lemma_ranks_transitive(r@[k], y, b@[j + 1]);
                        }
                    }
                }
                if i < a.len() {
                    assert(a@[i as int].index != y.index);
                    assert(ranks_before(y, a@[i as int]));
                }
            }
            j = j + 1;
        }
    }
    proof {
        assert(a@.take(a.len() as int) == a@);
        assert(b@.take(b.len() as int) == b@);
    }
    r
}

fn sort_ranked_range(v: &Vec<Ranked>, lo: usize, hi: usize) -> (r: Vec<Ranked>)
    requires
        lo <= hi <= v.len(),
        distinct_indices(v@),
    ensures
        sorted_ranked(r@),
        r@.len() == hi - lo,
        r@.to_set() == v@.subrange(lo as int, hi as int).to_set(),
    decreases hi - lo,
{
    if hi - lo <= 1 {
        let mut r: Vec<Ranked> = Vec::new();
        if hi > lo {
            r.push(v[lo]);
            proof {
                assert(r@ == v@.subrange(lo as int, hi as int));
            }
        } else {
            proof {
                assert(r@ == v@.subrange(lo as int, hi as int));
            }
        }
        return r;
    }
    let mid = lo + (hi - lo) / 2;
    let left = sort_ranked_range(v, lo, mid);
    let right = sort_ranked_range(v, mid, hi);
    proof {
        let sl = v@.subrange(lo as int, mid as int);
        let sr = v@.subrange(mid as int, hi as int);
        assert forall|x: int, y: int|
            0 <= x < left.len() && 0 <= y < right.len() implies (#[trigger] left@[x]).index != (
            #[trigger] right@[y]).index by {
            assert(left@.to_set().contains(left@[x]));
            assert(sl.contains(left@[x]));
            assert(right@.to_set().contains(right@[y]));
            assert(sr.contains(right@[y]));
            let p = choose|p: int| 0 <= p < sl.len() && sl[p] == left@[x];
            let q = choose|q: int| 0 <= q < sr.len() && sr[q] == right@[y];
            assert(v@[lo + p] == left@[x]);
            assert(v@[mid + q] == right@[y]);
        }
        assert(v@.subrange(lo as int, hi as int) == sl + sr);
        vstd::seq_lib::seq_to_set_distributes_over_add(sl, sr);
    }
    merge_ranked(left, right)
}

/// Sort the entries into result order and keep the first `limit`.
pub fn rank_top_k(hits: &Vec<Ranked>, limit: Option<u32>) -> (out: Vec<Ranked>)
    requires
        distinct_indices(hits@),
    ensures
        top_k(out@, hits@, limit),
{
    let sorted = sort_ranked_range(hits, 0, hits.len());
    let n: usize = match limit {
        Some(k) => if (k as usize) < sorted.len() {
            k as usize
        } else {
            sorted.len()
        },
        None => sorted.len(),
    };
    let mut out: Vec<Ranked> = Vec::new();
    let mut i: usize = 0;
    while i < n
        invariant
            i <= n <= sorted.len(),
            out@ == sorted@.take(i as int),
        decreases n - i,
    {
        out.push(sorted[i]);
        i = i + 1;
    }
    proof {
        assert(hits@.subrange(0, hits.len() as int) == hits@);
        assert forall|k: int| 0 <= k < out.len() implies hits@.contains(#[trigger] out@[k]) by {
            assert(sorted@.to_set().contains(sorted@[k]));
        }
        assert forall|h: Ranked, k: int|
            #![trigger hits@.contains(h), out@[k]]
            hits@.contains(h) && !out@.contains(h) && 0 <= k < out.len() implies ranks_before(
            out@[k],
            h,
        ) by {
            assert(hits@.to_set().contains(h));
            let p = choose|p: int| 0 <= p < sorted.len() && sorted@[p] == h;
            if p < n {
                assert(out@[p] == h);
            }
            assert(out@[k] == sorted@[k]);
        }
    }
    out
}

// ─── Matched positions ──────────────────────────────────────────────────────

/// How a query matched an item, judged from the matched positions.
#[derive(Clone, Copy, Debug, PartialEq, Eq, Structural)]
pub enum MatchType {
    Exact,
    Prefix,
    Contains,
    Fuzzy,
}

/// Each position follows the one before it.
pub open spec fn consecutive(p: Seq<u32>) -> bool {
    forall|i: int| 0 <= i < p.len() - 1 ==> #[trigger] p[i + 1] == p[i] + 1
}

/// The match type of sorted matched positions in an item of `n` characters:
/// consecutive from 0 over the whole item is exact, consecutive from 0 is a
/// prefix, consecutive elsewhere is a substring, anything else is fuzzy.
pub open spec fn match_type_of(p: Seq<u32>, n: nat) -> MatchType {
    if p.len() == 0 {
        MatchType::Fuzzy
    } else if consecutive(p) {
        if p[0] == 0 && p.len() == n {
            MatchType::Exact
        } else if p[0] == 0 {
            MatchType::Prefix
        } else {
            MatchType::Contains
        }
    } else {
        MatchType::Fuzzy
    }
}

/// What the match type says of the sorted matched positions `p` in an item
/// of `n` characters: a gap anywhere (two neighbours that are not adjacent
/// positions), or no positions at all, makes the match fuzzy, wherever it
/// starts; a match without gaps is exact when it is all of `0..n`, a prefix
/// when it starts at 0 otherwise, and a substring match when it starts
/// later.
pub proof fn lemma_match_type_by_gaps(p: Seq<u32>, n: nat)
    ensures
        p.len() == 0 ==> match_type_of(p, n) == MatchType::Fuzzy,
        (exists|i: int| 0 <= i < p.len() - 1 && #[trigger] p[i + 1] != p[i] + 1) ==> match_type_of(p, n)
            == MatchType::Fuzzy,
        match_type_of(p, n) == MatchType::Exact ==> n > 0 && p == Seq::new(n, |i: int| i as u32),
        0 < n <= u32::MAX && p == Seq::new(n, |i: int| i as u32) ==> match_type_of(p, n) == MatchType::Exact,
        match_type_of(p, n) == MatchType::Prefix ==> p.len() > 0 && p[0] == 0 && p.len() != n && forall|
            i: int,
        | 0 <= i < p.len() ==> p[i] == i,
        match_type_of(p, n) == MatchType::Contains ==> p.len() > 0 && p[0] != 0 && forall|i: int|
            0 <= i < p.len() - 1 ==> #[trigger] p[i + 1] == p[i] + 1,
{
    if exists|i: int| 0 <= i < p.len() - 1 && #[trigger] p[i + 1] != p[i] + 1 {
        let i = choose|i: int| 0 <= i < p.len() - 1 && #[trigger] p[i + 1] != p[i] + 1;
        assert(!consecutive(p));
    }
    if p.len() > 0 && consecutive(p) && p[0] == 0 {
        lemma_consecutive_from_zero(p, p.len() as int);
    }
    if 0 < n <= u32::MAX && p == Seq::new(n, |i: int| i as u32) {
        assert forall|i: int| 0 <= i < p.len() - 1 implies #[trigger] p[i + 1] == p[i] + 1 by {
            assert(p[i] == i && p[i + 1] == i + 1);
        }
        assert(consecutive(p));
    }
    if match_type_of(p, n) == MatchType::Exact {
        assert(p =~= Seq::new(n, |i: int| i as u32)) by {
            assert forall|i: int| 0 <= i < p.len() implies p[i] == i as u32 by {
                assert(p[i] == i);
            }
        }
    }
}

/// Consecutive positions from 0 are `0, 1, 2, ...`.
proof fn lemma_consecutive_from_zero(p: Seq<u32>, k: int)
    requires
        p.len() > 0,
        consecutive(p),
        p[0] == 0,
        0 <= k <= p.len(),
    ensures
        forall|i: int| 0 <= i < k ==> p[i] == i,
    decreases k,
{
    if k > 1 {
        lemma_consecutive_from_zero(p, k - 1);
        let j = k - 2;
        assert(p[j + 1] == p[j] + 1);
    }
}

/// Classify the match type from the matched character positions.
pub fn classify_match(positions: &[u32], item_char_count: usize) -> (r: MatchType)
    ensures
        r == match_type_of(positions@, item_char_count as nat),
{
    if positions.len() == 0 {
        return MatchType::Fuzzy;
    }
    let mut i: usize = 0;
    let mut consec = true;
    while i + 1 < positions.len()
        invariant
            i < positions.len(),
            consec == (forall|k: int| 0 <= k < i ==> #[trigger] positions@[k + 1] == positions@[k] + 1),
        decreases positions.len() - i,
    {
        if positions[i + 1] as u64 != positions[i] as u64 + 1 {
            consec = false;
        }
        i = i + 1;
    }
    if consec {
        if positions[0] == 0 && positions.len() == item_char_count {
            MatchType::Exact
        } else if positions[0] == 0 {
            MatchType::Prefix
        } else {
            MatchType::Contains
        }
    } else {
        MatchType::Fuzzy
    }
}

/// Sort matched positions and drop repeats.
pub fn sorted_positions(raw: &Vec<u32>) -> (p: Vec<u32>)
    ensures
        strictly_increasing_u32(p@),
        p@.to_set() == raw@.to_set(),
{
    let mut p: Vec<u32> = Vec::new();
    let mut i: usize = 0;
    while i < raw.len()
        invariant
            i <= raw.len(),
            strictly_increasing_u32(p@),
            p@.to_set() == raw@.take(i as int).to_set(),
        decreases raw.len() - i,
    {
        insert_unique_u32(&mut p, raw[i]);
        proof {
            assert(raw@.take(i + 1) == raw@.take(i as int).push(raw@[i as int]));
            raw@.take(i as int).lemma_push_to_set_commute(raw@[i as int]);
        }
        i = i + 1;
    }
    proof {
        assert(raw@.take(raw.len() as int) == raw@);
    }
    p
}

} // verus!
