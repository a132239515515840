use vstd::prelude::*;
use vstd::string::StringExecFns;

use crate::text::{chars_of, seqs_of, split_words, string_from_chars, strings_view, words};

verus! {

broadcast use vstd::seq_lib::group_seq_properties;

/// What `str::to_lowercase` returns for a string: its lowercase equivalent
/// by the Unicode `Lowercase` property.
pub uninterp spec fn lowercase_of(s: Seq<char>) -> Seq<char>;

/// `str::to_lowercase`.
#[verifier::external_body]
fn to_lowercase(s: &str) -> (r: String)
    ensures
        r@ == lowercase_of(s@),
{
    s.to_lowercase()
}

/// The lowercased words joined by single spaces, a space being put before a
/// word only when something has been written already.
pub open spec fn normalized_words(ws: Seq<Seq<char>>) -> Seq<char>
    decreases ws.len(),
{
    if ws.len() == 0 {
        seq![]
    } else {
        let acc = normalized_words(ws.drop_last());
        (if acc.len() == 0 {
            acc
        } else {
            acc.push(' ')
        }) + lowercase_of(ws.last())
    }
}

/// Lowercase the words of `s` and join them with single spaces: runs of
/// whitespace collapse and leading or trailing whitespace goes.
pub fn normalize_str(s: &str) -> (r: String)
    ensures
        r@ == normalized_words(words(s@)),
{
    let cs = chars_of(s);
    let ws = split_words(&cs);
    let ghost all = seqs_of(ws@);
    let mut result = String::new();
    let mut i: usize = 0;
    while i < ws.len()
        invariant
            i <= ws.len(),
            all == seqs_of(ws@),
            all == words(s@),
            result@ == normalized_words(all.take(i as int)),
        decreases ws.len() - i,
    {
        let w = string_from_chars(&ws[i]);
        let lower = to_lowercase(w.as_str());
        if !result.as_str().is_empty() {
            let sep = " ";
            proof {
                reveal_strlit(" ");
            }
            result.append(sep);
        }
        result.append(lower.as_str());
        proof {
            assert(all.take(i + 1).drop_last() == all.take(i as int));
            assert(all.take(i + 1).last() == ws@[i as int]@);
        }
        i = i + 1;
    }
    proof {
        assert(all.take(ws.len() as int) == all);
    }
    result
}

// ─── Sorting tokens ─────────────────────────────────────────────────────────

/// Lexicographic order of character sequences by code point, which is the
/// byte order of their UTF-8 encodings (the order of `String`).
pub open spec fn lex_le(a: Seq<char>, b: Seq<char>) -> bool
    decreases a.len(),
{
    if a.len() == 0 {
        true
    } else if b.len() == 0 {
        false
    } else if a[0] != b[0] {
        a[0] < b[0]
    } else {
        lex_le(a.drop_first(), b.drop_first())
    }
}

/// `s` is in lexicographic order.
pub open spec fn lex_sorted(s: Seq<Seq<char>>) -> bool {
    forall|i: int, j: int| 0 <= i < j < s.len() ==> lex_le(#[trigger] s[i], #[trigger] s[j])
}

/// Strings are ordered as Rust orders them: a string sorts no later than
/// itself; a proper prefix sorts strictly before the longer string; and
/// otherwise the first differing character decides.
pub proof fn lemma_lex_is_string_order(a: Seq<char>, b: Seq<char>, i: int)
    ensures
        lex_le(a, a),
        a.len() < b.len() && b.take(a.len() as int) == a ==> lex_le(a, b) && !lex_le(b, a),
        0 <= i < a.len() && i < b.len() && a.take(i) == b.take(i) && a[i] < b[i] ==> lex_le(a, b)
            && !lex_le(b, a),
    decreases a.len(),
{
    if a.len() > 0 {
        lemma_lex_is_string_order(a.drop_first(), a.drop_first(), 0);
    }
    if a.len() < b.len() && b.take(a.len() as int) == a && a.len() > 0 {
        assert(b[0] == b.take(a.len() as int)[0]);
        assert(b.drop_first().take(a.drop_first().len() as int) =~= a.drop_first()) by {
            assert forall|k: int| 0 <= k < a.len() - 1 implies b.drop_first()[k] == a.drop_first()[k] by {
                assert(b.take(a.len() as int)[k + 1] == b[k + 1]);
            }
        }
        lemma_lex_is_string_order(a.drop_first(), b.drop_first(), 0);
    }
    if 0 <= i < a.len() && i < b.len() && a.take(i) == b.take(i) && a[i] < b[i] && i > 0 {
        assert(a[0] == a.take(i)[0] && b[0] == b.take(i)[0]);
        assert(a.drop_first().take(i - 1) =~= b.drop_first().take(i - 1)) by {
            assert forall|k: int| 0 <= k < i - 1 implies a.drop_first()[k] == b.drop_first()[k] by {
                assert(a.take(i)[k + 1] == b.take(i)[k + 1]);
            }
        }
        lemma_lex_is_string_order(a.drop_first(), b.drop_first(), i - 1);
    }
}

proof fn lemma_lex_total(a: Seq<char>, b: Seq<char>)
    ensures
        lex_le(a, b) || lex_le(b, a),
    decreases a.len(),
{
    if a.len() > 0 && b.len() > 0 && a[0] == b[0] {
        lemma_lex_total(a.drop_first(), b.drop_first());
    }
}

proof fn lemma_lex_transitive(a: Seq<char>, b: Seq<char>, c: Seq<char>)
    requires
        lex_le(a, b),
        lex_le(b, c),
    ensures
        lex_le(a, c),
    decreases a.len(),
{
    if a.len() > 0 && b.len() > 0 && c.len() > 0 && a[0] == b[0] && b[0] == c[0] {
        lemma_lex_transitive(a.drop_first(), b.drop_first(), c.drop_first());
    }
}

fn lex_le_exec(a: &Vec<char>, b: &Vec<char>) -> (r: bool)
    ensures
        r == lex_le(a@, b@),
{
    let mut i: usize = 0;
    while i < a.len() && i < b.len()
        invariant
            i <= a.len(),
            i <= b.len(),
            a@.subrange(0, i as int) == b@.subrange(0, i as int),
            lex_le(a@, b@) == lex_le(a@.skip(i as int), b@.skip(i as int)),
        decreases a.len() - i,
    {
        if a[i] != b[i] {
            proof {
                assert(a@.skip(i as int)[0] == a@[i as int]);
                assert(b@.skip(i as int)[0] == b@[i as int]);
            }
            return a[i] < b[i];
        }
        proof {
            assert(a@.skip(i as int).drop_first() == a@.skip(i + 1));
            assert(b@.skip(i as int).drop_first() == b@.skip(i + 1));
            assert(a@.subrange(0, i + 1) == a@.subrange(0, i as int).push(a@[i as int]));
            assert(b@.subrange(0, i + 1) == b@.subrange(0, i as int).push(b@[i as int]));
        }
        i = i + 1;
    }
    proof {
        if i == a.len() {
            assert(a@.skip(i as int).len() == 0);
        } else {
            assert(b@.skip(i as int).len() == 0);
            assert(a@.skip(i as int).len() > 0);
        }
    }
    i == a.len()
}

fn insert_sorted(sorted: &mut Vec<Vec<char>>, x: Vec<char>)
    requires
        lex_sorted(seqs_of(old(sorted)@)),
    ensures
        lex_sorted(seqs_of(final(sorted)@)),
        exists|p: int| 0 <= p <= old(sorted)@.len() && seqs_of(final(sorted)@) == seqs_of(old(sorted)@).insert(p, x@),
{
    let ghost before = seqs_of(sorted@);
    let ghost xv = x@;
    let mut p: usize = 0;
    while p < sorted.len() && lex_le_exec(&sorted[p], &x)
        invariant
            p <= sorted.len(),
            before == seqs_of(sorted@),
            xv == x@,
            forall|k: int| 0 <= k < p ==> lex_le(#[trigger] before[k], x@),
        decreases sorted.len() - p,
    {
        p = p + 1;
    }
    proof {
        if p < sorted.len() {
            lemma_lex_total(before[p as int], x@);
        }
    }
    sorted.insert(p, x);
    proof {
        let after = seqs_of(sorted@);
        assert(after =~= before.insert(p as int, xv));
        assert forall|a: int, b: int| 0 <= a < b < after.len() implies lex_le(
            #[trigger] after[a],
            #[trigger] after[b],
        ) by {
            if a < p && b == p {
            } else if a < p && b > p {
                assert(after[b] == before[b - 1]);
            } else if a == p {
                assert(after[b] == before[b - 1]);
                if b - 1 > p {
                    lemma_lex_transitive(xv, before[p as int], before[b - 1]);
                }
            } else if a > p {
                assert(after[a] == before[a - 1]);
                assert(after[b] == before[b - 1]);
            }
        }
    }
}

fn strings_of(v: &Vec<Vec<char>>) -> (r: Vec<String>)
    ensures
        strings_view(r@) == seqs_of(v@),
{
    let mut out: Vec<String> = Vec::new();
    let mut k: usize = 0;
    while k < v.len()
        invariant
            k <= v.len(),
            out@.len() == k,
            forall|j: int| 0 <= j < k ==> (#[trigger] out@[j])@ == v@[j]@,
        decreases v.len() - k,
    {
        out.push(string_from_chars(&v[k]));
        k = k + 1;
    }
    proof {
        assert(strings_view(out@) =~= seqs_of(v@));
    }
    out
}

/// The lowercased words of `s` in lexicographic order.
pub fn sorted_tokens(s: &str) -> (r: Vec<String>)
    ensures
        lex_sorted(strings_view(r@)),
        strings_view(r@).to_multiset() == words(s@).map_values(|w: Seq<char>| lowercase_of(w)).to_multiset(),
{
    let cs = chars_of(s);
    let ws = split_words(&cs);
    let ghost all = seqs_of(ws@);
    let ghost lows = all.map_values(|w: Seq<char>| lowercase_of(w));
    let mut sorted: Vec<Vec<char>> = Vec::new();
    let mut i: usize = 0;
    while i < ws.len()
        invariant
            i <= ws.len(),
            all == seqs_of(ws@),
            all == words(s@),
            lows == all.map_values(|w: Seq<char>| lowercase_of(w)),
            lex_sorted(seqs_of(sorted@)),
            seqs_of(sorted@).to_multiset() == lows.take(i as int).to_multiset(),
        decreases ws.len() - i,
    {
        let w = string_from_chars(&ws[i]);
        let lower = to_lowercase(w.as_str());
        let x = chars_of(lower.as_str());
        let ghost before = seqs_of(sorted@);
        insert_sorted(&mut sorted, x);
        proof {
            assert(lows.take(i + 1) == lows.take(i as int).push(x@));
            let p = choose|p: int| 0 <= p <= before.len() && seqs_of(sorted@) == before.insert(p, x@);
            vstd::seq_lib::to_multiset_insert(before, p, x@);
            assert(before.insert(p, x@).to_multiset() == before.to_multiset().insert(x@));
            assert(lows.take(i as int).push(x@).to_multiset() == lows.take(i as int).to_multiset().insert(x@));
        }
        i = i + 1;
    }
    let out = strings_of(&sorted);
    proof {
        assert(seqs_of(sorted@).take(sorted.len() as int) == seqs_of(sorted@));
        assert(lows.take(ws.len() as int) == lows);
    }
    out
}

// ─── Token sets ─────────────────────────────────────────────────────────────

/// Strict lexicographic order.
pub open spec fn lex_lt(a: Seq<char>, b: Seq<char>) -> bool {
    lex_le(a, b) && a != b
}

/// `s` is in strictly increasing lexicographic order (so without repeats).
pub open spec fn strictly_sorted_words(s: Seq<Seq<char>>) -> bool {
    forall|i: int, j: int| 0 <= i < j < s.len() ==> lex_lt(#[trigger] s[i], #[trigger] s[j])
}

/// The words of a set in increasing lexicographic order (what iterating a
/// `BTreeSet<&str>` yields).
pub open spec fn ascending_words(set: Set<Seq<char>>) -> Seq<Seq<char>> {
    choose|q: Seq<Seq<char>>| strictly_sorted_words(q) && q.to_set() == set
}

/// Words joined by single spaces (what `join(" ")` builds).
pub open spec fn join_words(ws: Seq<Seq<char>>) -> Seq<char>
    decreases ws.len(),
{
    if ws.len() == 0 {
        seq![]
    } else if ws.len() == 1 {
        ws[0]
    } else {
        join_words(ws.drop_last()).push(' ') + ws.last()
    }
}

proof fn lemma_lex_antisymmetric(a: Seq<char>, b: Seq<char>)
    requires
        lex_le(a, b),
        lex_le(b, a),
    ensures
        a == b,
    decreases a.len(),
{
    if a.len() > 0 && b.len() > 0 {
        lemma_lex_antisymmetric(a.drop_first(), b.drop_first());
        assert(a =~= seq![a[0]] + a.drop_first());
        assert(b =~= seq![b[0]] + b.drop_first());
    } else if a.len() == 0 && b.len() == 0 {
        assert(a =~= b);
    }
}

proof fn lemma_strict_words_last_is_max(q: Seq<Seq<char>>, x: Seq<char>)
    requires
        strictly_sorted_words(q),
        q.to_set().contains(x),
    ensures
        q.len() > 0,
        x == q.last() || (lex_lt(x, q.last()) && q.drop_last().to_set().contains(x)),
{
    let k = choose|k: int| 0 <= k < q.len() && q[k] == x;
    if k < q.len() - 1 {
        assert(q.drop_last()[k] == x);
    }
}

/// Two strictly sorted word sequences with the same elements are equal.
proof fn lemma_strict_words_unique(a: Seq<Seq<char>>, b: Seq<Seq<char>>)
    requires
        strictly_sorted_words(a),
        strictly_sorted_words(b),
        a.to_set() == b.to_set(),
    ensures
        a == b,
    decreases a.len(),
{
    if a.len() == 0 {
        if b.len() > 0 {
            assert(b.to_set().contains(b[0]));
        }
        assert(a =~= b);
    } else {
        assert(a.to_set().contains(a.last()));
        lemma_strict_words_last_is_max(b, a.last());
        assert(b.to_set().contains(b.last()));
        lemma_strict_words_last_is_max(a, b.last());
        if a.last() != b.last() {
            lemma_lex_antisymmetric(a.last(), b.last());
        }
        let a1 = a.drop_last();
        let b1 = b.drop_last();
        assert(a1.to_set() =~= b1.to_set()) by {
            assert forall|x: Seq<char>| a1.to_set().contains(x) implies b1.to_set().contains(x) by {
                let k = choose|k: int| 0 <= k < a1.len() && a1[k] == x;
                assert(lex_lt(a[k], a.last()));
                assert(b.to_set().contains(x));
                lemma_strict_words_last_is_max(b, x);
            }
            assert forall|x: Seq<char>| b1.to_set().contains(x) implies a1.to_set().contains(x) by {
                let k = choose|k: int| 0 <= k < b1.len() && b1[k] == x;
                assert(lex_lt(b[k], b.last()));
                assert(a.to_set().contains(x));
                lemma_strict_words_last_is_max(a, x);
            }
        }
        lemma_strict_words_unique(a1, b1);
        assert(a =~= a1.push(a.last()));
        assert(b =~= b1.push(b.last()));
    }
}

proof fn lemma_ascending_words_of(q: Seq<Seq<char>>)
    requires
        strictly_sorted_words(q),
    ensures
        ascending_words(q.to_set()) == q,
{
    let a = ascending_words(q.to_set());
    assert(strictly_sorted_words(a) && a.to_set() == q.to_set());
    lemma_strict_words_unique(a, q);
}

fn words_eq(a: &Vec<char>, b: &Vec<char>) -> (r: bool)
    ensures
        r == (a@ == b@),
{
    if a.len() != b.len() {
        return false;
    }
    let mut i: usize = 0;
    while i < a.len()
        invariant
            i <= a.len() == b.len(),
            forall|k: int| 0 <= k < i ==> a@[k] == b@[k],
        decreases a.len() - i,
    {
        if a[i] != b[i] {
            return false;
        }
        i = i + 1;
    }
    proof {
        assert(a@ =~= b@);
    }
    true
}

fn contains_word(v: &Vec<Vec<char>>, x: &Vec<char>) -> (r: bool)
    ensures
        r == seqs_of(v@).contains(x@),
{
    let mut i: usize = 0;
    while i < v.len()
        invariant
            i <= v.len(),
            forall|k: int| 0 <= k < i ==> v@[k]@ != x@,
        decreases v.len() - i,
    {
        if words_eq(&v[i], x) {
            proof {
                assert(seqs_of(v@)[i as int] == x@);
            }
            return true;
        }
        i = i + 1;
    }
    proof {
        if seqs_of(v@).contains(x@) {
            let k = choose|k: int| 0 <= k < seqs_of(v@).len() && seqs_of(v@)[k] == x@;
            assert(v@[k]@ == x@);
        }
    }
    false
}

/// The distinct words of `s` in increasing lexicographic order.
fn word_set(s: &str) -> (r: Vec<Vec<char>>)
    ensures
        strictly_sorted_words(seqs_of(r@)),
        seqs_of(r@).to_set() == words(s@).to_set(),
{
    let cs = chars_of(s);
    let ws = split_words(&cs);
    let ghost all = seqs_of(ws@);
    let mut out: Vec<Vec<char>> = Vec::new();
    let mut i: usize = 0;
    while i < ws.len()
        invariant
            i <= ws.len(),
            all == seqs_of(ws@),
            all == words(s@),
            strictly_sorted_words(seqs_of(out@)),
            seqs_of(out@).to_set() == all.take(i as int).to_set(),
        decreases ws.len() - i,
    {
        let x = ws[i].clone();
        proof {
            assert(all.take(i + 1) == all.take(i as int).push(ws@[i as int]@));
            all.take(i as int).lemma_push_to_set_commute(ws@[i as int]@);
        }
        if !contains_word(&out, &x) {
            let ghost before = seqs_of(out@);
            insert_sorted(&mut out, x);
            proof {
                let after = seqs_of(out@);
                let p = choose|p: int| 0 <= p <= before.len() && after == before.insert(p, x@);
                assert(after.to_set() =~= before.to_set().insert(x@)) by {
                    assert forall|y: Seq<char>| after.to_set().contains(y) implies before.to_set().insert(x@).contains(y) by {
                        let k = choose|k: int| 0 <= k < after.len() && after[k] == y;
                        if k < p {
                            assert(before[k] == y);
                        } else if k > p {
                            assert(before[k - 1] == y);
                        }
                    }
                    assert forall|y: Seq<char>| before.to_set().insert(x@).contains(y) implies after.to_set().contains(y) by {
                        if y == x@ {
                            assert(after[p] == y);
                        } else {
                            let k = choose|k: int| 0 <= k < before.len() && before[k] == y;
                            if k < p {
                                assert(after[k] == y);
                            } else {
                                assert(after[k + 1] == y);
                            }
                        }
                    }
                }
                assert forall|a: int, b: int| 0 <= a < b < after.len() implies lex_lt(#[trigger] after[a], #[trigger] after[b]) by {
                    assert(lex_le(after[a], after[b]));
                    if after[a] == after[b] {
                        if a == p {
                            assert(after[b] == before[b - 1]);
                            assert(before.contains(x@));
                        } else if b == p {
                            assert(after[a] == before[a]);
                            assert(before.contains(x@));
                        } else {
                            let a0 = if a < p { a } else { a - 1 };
                            let b0 = if b < p { b } else { b - 1 };
                            assert(after[a] == before[a0]);
                            assert(after[b] == before[b0]);
                            assert(lex_lt(before[a0], before[b0]));
                        }
                    }
                }
            }
        } else {
            proof {
                assert(seqs_of(out@).to_set().insert(x@) =~= seqs_of(out@).to_set());
            }
        }
        i = i + 1;
    }
    proof {
        assert(all.take(ws.len() as int) == all);
    }
    out
}

/// The words of `a` that are (with `keep`) or are not (without) in `b`,
/// keeping their order.
fn filter_words(a: &Vec<Vec<char>>, b: &Vec<Vec<char>>, keep: bool) -> (r: Vec<Vec<char>>)
    requires
        strictly_sorted_words(seqs_of(a@)),
    ensures
        strictly_sorted_words(seqs_of(r@)),
        seqs_of(r@).to_set() == (if keep {
            seqs_of(a@).to_set().intersect(seqs_of(b@).to_set())
        } else {
            seqs_of(a@).to_set().difference(seqs_of(b@).to_set())
        }),
{
    let ghost sa = seqs_of(a@);
    let ghost sb = seqs_of(b@);
    let ghost target = if keep {
        sa.to_set().intersect(sb.to_set())
    } else {
        sa.to_set().difference(sb.to_set())
    };
    let mut out: Vec<Vec<char>> = Vec::new();
    let mut i: usize = 0;
    while i < a.len()
        invariant
            i <= a.len(),
            sa == seqs_of(a@),
            sb == seqs_of(b@),
            strictly_sorted_words(sa),
            strictly_sorted_words(seqs_of(out@)),
            forall|k: int| 0 <= k < out@.len() ==> exists|j: int| 0 <= j < i && #[trigger] out@[k]@ == sa[j],
            seqs_of(out@).to_set() == Set::new(|y: Seq<char>| sa.take(i as int).contains(y) && (sb.contains(y) == keep)),
        decreases a.len() - i,
    {
        let inb = contains_word(b, &a[i]);
        let ghost before = seqs_of(out@);
        if inb == keep {
            out.push(a[i].clone());
            proof {
                let after = seqs_of(out@);
                assert(after == before.push(sa[i as int]));
                before.lemma_push_to_set_commute(sa[i as int]);
                assert forall|x: int, y: int| 0 <= x < y < after.len() implies lex_lt(#[trigger] after[x], #[trigger] after[y]) by {
                    if y == after.len() - 1 && x < y {
                        let j = choose|j: int| 0 <= j < i && out@[x]@ == sa[j];
                        assert(lex_lt(sa[j], sa[i as int]));
                    }
                }
            }
        }
        proof {
            let t0 = sa.take(i as int);
            let t1 = sa.take(i + 1);
            assert(t1 == t0.push(sa[i as int]));
            assert(seqs_of(out@).to_set() =~= Set::new(
                |y: Seq<char>| t1.contains(y) && (sb.contains(y) == keep),
            )) by {
                assert forall|y: Seq<char>| #[trigger] seqs_of(out@).to_set().contains(y) implies t1.contains(y) && (sb.contains(y) == keep) by {
                    if before.to_set().contains(y) {
                        assert(t0.contains(y));
                        let k = choose|k: int| 0 <= k < t0.len() && t0[k] == y;
                        assert(t1[k] == y);
                    } else {
                        assert(y == sa[i as int]);
                        assert(t1[i as int] == y);
                    }
                }
                assert forall|y: Seq<char>| t1.contains(y) && (sb.contains(y) == keep) implies #[trigger] seqs_of(out@).to_set().contains(y) by {
                    let k = choose|k: int| 0 <= k < t1.len() && t1[k] == y;
                    if k < i {
                        assert(t0[k] == y);
                        assert(before.to_set().contains(y));
                    } else {
                        assert(y == sa[i as int]);
                    }
                }
            }
            assert forall|k: int| 0 <= k < out@.len() implies exists|j: int| 0 <= j < i + 1 && #[trigger] out@[k]@ == sa[j] by {
                if k < before.len() {
                    let j = choose|j: int| 0 <= j < i && out@[k]@ == sa[j];
                } else {
                    assert(out@[k]@ == sa[i as int]);
                }
            }
        }
        i = i + 1;
    }
    proof {
        assert(sa.take(a.len() as int) == sa);
        assert(seqs_of(out@).to_set() =~= target);
    }
    out
}

/// Join words with single spaces.
fn join_with_spaces(ws: &Vec<Vec<char>>) -> (r: String)
    ensures
        r@ == join_words(seqs_of(ws@)),
{
    let ghost all = seqs_of(ws@);
    let mut out: Vec<char> = Vec::new();
    let mut i: usize = 0;
    while i < ws.len()
        invariant
            i <= ws.len(),
            all == seqs_of(ws@),
            out@ == join_words(all.take(i as int)),
        decreases ws.len() - i,
    {
        if i > 0 {
            out.push(' ');
        }
        let mut j: usize = 0;
        let ghost base = out@;
        while j < ws[i].len()
            invariant
                j <= ws@[i as int]@.len(),
                i < ws.len(),
                out@ == base + ws@[i as int]@.take(j as int),
            decreases ws@[i as int]@.len() - j,
        {
            out.push(ws[i][j]);
            proof {
                assert(ws@[i as int]@.take(j + 1) == ws@[i as int]@.take(j as int).push(ws@[i as int]@[j as int]));
            }
            j = j + 1;
        }
        proof {
            assert(ws@[i as int]@.take(ws@[i as int]@.len() as int) == ws@[i as int]@);
            assert(all.take(i + 1).drop_last() == all.take(i as int));
            assert(all.take(i + 1).last() == ws@[i as int]@);
            if i == 0 {
                assert(out@ =~= join_words(all.take(1)));
            } else {
                assert(out@ =~= join_words(all.take(i + 1)));
            }
        }
        i = i + 1;
    }
    proof {
        assert(all.take(ws.len() as int) == all);
    }
    string_from_chars(&out)
}

/// The strings a token-set comparison measures, from two normalized
/// strings: an empty side decides at once, equal token sets match fully,
/// otherwise the common tokens and each side's common-then-own tokens.
pub enum TokenSetPlan {
    /// At least one side is empty; `both` tells whether both are.
    EmptySide { both: bool },
    /// Both sides hold the same set of tokens.
    SameTokens,
    /// The strings to compare: `sect` is the common tokens; `combined_a` is
    /// `sect` and the tokens only in `a`, joined by a space (just `sect`
    /// when `a` has none of its own); likewise `combined_b`.
    Compare {
        sect: String,
        combined_a: String,
        combined_b: String,
        a_has_own: bool,
        b_has_own: bool,
    },
}

/// `sect`, then a space and the side's own tokens when it has any.
pub open spec fn combined_of(sect: Seq<char>, own: Seq<Seq<char>>) -> Seq<char> {
    if own.len() == 0 {
        sect
    } else {
        sect.push(' ') + join_words(own)
    }
}

/// Plan a token-set comparison of two normalized strings.
pub fn token_set_plan(norm_a: &str, norm_b: &str) -> (r: TokenSetPlan)
    ensures
        ({
            let ta = words(norm_a@).to_set();
            let tb = words(norm_b@).to_set();
            let sect = join_words(ascending_words(ta.intersect(tb)));
            let own_a = ascending_words(ta.difference(tb));
            let own_b = ascending_words(tb.difference(ta));
            match r {
                TokenSetPlan::EmptySide { both } => (norm_a@.len() == 0 || norm_b@.len() == 0) && both == (
                norm_a@.len() == 0 && norm_b@.len() == 0),
                TokenSetPlan::SameTokens => norm_a@.len() > 0 && norm_b@.len() > 0 && ta == tb,
                TokenSetPlan::Compare { sect: s, combined_a, combined_b, a_has_own, b_has_own } => {
                    &&& norm_a@.len() > 0 && norm_b@.len() > 0 && ta != tb
                    &&& s@ == sect
                    &&& combined_a@ == combined_of(sect, own_a)
                    &&& combined_b@ == combined_of(sect, own_b)
                    &&& a_has_own == (own_a.len() > 0)
                    &&& b_has_own == (own_b.len() > 0)
                },
            }
        }),
{
    if norm_a.is_empty() || norm_b.is_empty() {
        return TokenSetPlan::EmptySide { both: norm_a.is_empty() && norm_b.is_empty() };
    }
    let ta = word_set(norm_a);
    let tb = word_set(norm_b);
    let diff_a = filter_words(&ta, &tb, false);
    let diff_b = filter_words(&tb, &ta, false);
    let common = filter_words(&ta, &tb, true);
    proof {
        lemma_ascending_words_of(seqs_of(diff_a@));
        lemma_ascending_words_of(seqs_of(diff_b@));
        lemma_ascending_words_of(seqs_of(common@));
    }
    if diff_a.len() == 0 && diff_b.len() == 0 {
        proof {
            let sa = words(norm_a@).to_set();
            let sb = words(norm_b@).to_set();
            assert(sa.difference(sb) =~= Set::<Seq<char>>::empty()) by {
                if exists|y: Seq<char>| sa.difference(sb).contains(y) {
                    let y = choose|y: Seq<char>| sa.difference(sb).contains(y);
                    assert(seqs_of(diff_a@).to_set().contains(y));
                }
            }
            assert(sb.difference(sa) =~= Set::<Seq<char>>::empty()) by {
                if exists|y: Seq<char>| sb.difference(sa).contains(y) {
                    let y = choose|y: Seq<char>| sb.difference(sa).contains(y);
                    assert(seqs_of(diff_b@).to_set().contains(y));
                }
            }
            assert(sa =~= sb) by {
                assert forall|y: Seq<char>| sa.contains(y) implies sb.contains(y) by {
                    assert(!sa.difference(sb).contains(y));
                }
                assert forall|y: Seq<char>| sb.contains(y) implies sa.contains(y) by {
                    assert(!sb.difference(sa).contains(y));
                }
            }
        }
        return TokenSetPlan::SameTokens;
    }
    let sect = join_with_spaces(&common);
    let combined_a = if diff_a.len() == 0 {
        string_from_chars(&chars_of(sect.as_str()))
    } else {
        let own = join_with_spaces(&diff_a);
        let mut c = string_from_chars(&chars_of(sect.as_str()));
        let sep = " ";
        proof {
            reveal_strlit(" ");
        }
        c.append(sep);
        c.append(own.as_str());
        c
    };
    let combined_b = if diff_b.len() == 0 {
        string_from_chars(&chars_of(sect.as_str()))
    } else {
        let own = join_with_spaces(&diff_b);
        let mut c = string_from_chars(&chars_of(sect.as_str()));
        let sep = " ";
        proof {
            reveal_strlit(" ");
        }
        c.append(sep);
        c.append(own.as_str());
        c
    };
    proof {
        let sa = words(norm_a@).to_set();
        let sb = words(norm_b@).to_set();
        if sa == sb {
            if diff_a.len() > 0 {
                assert(seqs_of(diff_a@).to_set().contains(seqs_of(diff_a@)[0]));
            } else {
                assert(seqs_of(diff_b@).to_set().contains(seqs_of(diff_b@)[0]));
            }
        }
    }
    TokenSetPlan::Compare {
        sect,
        combined_a,
        combined_b,
        a_has_own: diff_a.len() > 0,
        b_has_own: diff_b.len() > 0,
    }
}

} // verus!
