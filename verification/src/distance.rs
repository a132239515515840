use vstd::prelude::*;

verus! {

// ─── Mathematical definitions ───────────────────────────────────────────────

pub open spec fn min3(x: nat, y: nat, z: nat) -> nat {
    if x <= y && x <= z {
        x
    } else if y <= z {
        y
    } else {
        z
    }
}

pub open spec fn max_nat(x: nat, y: nat) -> nat {
    if x >= y {
        x
    } else {
        y
    }
}

/// The Levenshtein distance: the fewest single-character insertions,
/// deletions and substitutions that turn `a` into `b`.
pub open spec fn lev_dist(a: Seq<char>, b: Seq<char>) -> nat
    decreases a.len() + b.len(),
{
    if a.len() == 0 {
        b.len()
    } else if b.len() == 0 {
        a.len()
    } else {
        min3(
            lev_dist(a.drop_last(), b) + 1,
            lev_dist(a, b.drop_last()) + 1,
            lev_dist(a.drop_last(), b.drop_last()) + (if a.last() == b.last() {
                0nat
            } else {
                1nat
            }),
        )
    }
}

/// The number of positions at which two sequences of equal length differ.
pub open spec fn mismatches(a: Seq<char>, b: Seq<char>) -> nat
    decreases a.len(),
{
    if a.len() == 0 || b.len() == 0 {
        0
    } else {
        mismatches(a.drop_last(), b.drop_last()) + (if a.last() == b.last() {
            0nat
        } else {
            1nat
        })
    }
}

/// The Hamming distance: defined only for sequences of equal length.
pub open spec fn hamming_dist(a: Seq<char>, b: Seq<char>) -> Option<nat> {
    if a.len() == b.len() {
        Some(mismatches(a, b))
    } else {
        None
    }
}

/// The length of a longest common subsequence of `a` and `b`.
pub open spec fn lcs_len(a: Seq<char>, b: Seq<char>) -> nat
    decreases a.len() + b.len(),
{
    if a.len() == 0 || b.len() == 0 {
        0
    } else if a.last() == b.last() {
        lcs_len(a.drop_last(), b.drop_last()) + 1
    } else {
        max_nat(lcs_len(a.drop_last(), b), lcs_len(a, b.drop_last()))
    }
}

/// The Indel distance: the fewest insertions and deletions that turn `a`
/// into `b`.
pub open spec fn indel_dist(a: Seq<char>, b: Seq<char>) -> nat {
    (a.len() + b.len() - 2 * lcs_len(a, b)) as nat
}

/// The (unrestricted) Damerau-Levenshtein distance of `a` and `b`, as
/// computed by `rapidfuzz::distance::damerau_levenshtein::distance`.
pub uninterp spec fn damerau_of(a: Seq<char>, b: Seq<char>) -> nat;

/// A distance reported against an optional cutoff: the distance itself when
/// it is within the cutoff, else one more than the cutoff (`u32::MAX` when
/// the cutoff is already `u32::MAX`).
pub open spec fn capped(d: nat, cutoff: Option<u32>) -> u32 {
    match cutoff {
        Some(c) => if d <= c {
            d as u32
        } else if c < u32::MAX {
            (c + 1) as u32
        } else {
            u32::MAX
        },
        None => d as u32,
    }
}

/// A Hamming distance reported against an optional cutoff: `None` when the
/// lengths differ or the distance exceeds the cutoff.
pub open spec fn hamming_capped(a: Seq<char>, b: Seq<char>, cutoff: Option<u32>) -> Option<u32> {
    match hamming_dist(a, b) {
        None => None,
        Some(d) => match cutoff {
            Some(c) => if d <= c {
                Some(d as u32)
            } else {
                None
            },
            None => Some(d as u32),
        },
    }
}

// ─── Calls into rapidfuzz ───────────────────────────────────────────────────

/// `rapidfuzz::distance::levenshtein::distance` on the characters of both
/// strings, with unit weights: the Levenshtein distance.
#[verifier::external_body]
fn rf_levenshtein(a: &str, b: &str) -> (r: usize)
    ensures
        r == lev_dist(a@, b@),
{
    rapidfuzz::distance::levenshtein::distance(a.chars(), b.chars())
}

/// `rapidfuzz::distance::levenshtein::distance_with_args` with a score
/// cutoff: the distance when it is at most the cutoff, else `None`.
#[verifier::external_body]
fn rf_levenshtein_within(a: &str, b: &str, cutoff: usize) -> (r: Option<usize>)
    ensures
        r == (if lev_dist(a@, b@) <= cutoff {
            Some(lev_dist(a@, b@) as usize)
        } else {
            None
        }),
{
    let args = rapidfuzz::distance::levenshtein::Args::default().score_cutoff(cutoff);
    rapidfuzz::distance::levenshtein::distance_with_args(a.chars(), b.chars(), &args)
}

/// `rapidfuzz::distance::damerau_levenshtein::distance` on the characters of
/// both strings. Its result is named, not stated; its documentation calls it
/// a metric, so it is zero exactly on equal inputs and symmetric.
#[verifier::external_body]
fn rf_damerau(a: &str, b: &str) -> (r: usize)
    ensures
        r == damerau_of(a@, b@),
        r == damerau_of(b@, a@),
        (r == 0) == (a@ == b@),
{
    rapidfuzz::distance::damerau_levenshtein::distance(a.chars(), b.chars())
}

/// `rapidfuzz::distance::damerau_levenshtein::distance_with_args` with a
/// score cutoff: the distance when it is at most the cutoff, else `None`.
#[verifier::external_body]
fn rf_damerau_within(a: &str, b: &str, cutoff: usize) -> (r: Option<usize>)
    ensures
        r == (if damerau_of(a@, b@) <= cutoff {
            Some(damerau_of(a@, b@) as usize)
        } else {
            None
        }),
{
    let args = rapidfuzz::distance::damerau_levenshtein::Args::default().score_cutoff(cutoff);
    rapidfuzz::distance::damerau_levenshtein::distance_with_args(a.chars(), b.chars(), &args)
}

/// `rapidfuzz::distance::hamming::distance`: an error when the character
/// counts differ (turned into `None`), else the number of mismatches.
#[verifier::external_body]
fn rf_hamming(a: &str, b: &str) -> (r: Option<usize>)
    ensures
        match hamming_dist(a@, b@) {
            Some(d) => (r matches Some(x) && x == d),
            None => r is None,
        },
{
    rapidfuzz::distance::hamming::distance(a.chars(), b.chars()).ok()
}

/// `rapidfuzz::distance::hamming::distance_with_args` with a score cutoff:
/// `None` when the character counts differ or the distance exceeds the
/// cutoff.
#[verifier::external_body]
fn rf_hamming_within(a: &str, b: &str, cutoff: usize) -> (r: Option<usize>)
    ensures
        r == (match hamming_dist(a@, b@) {
            Some(d) => if d <= cutoff {
                Some(d as usize)
            } else {
                None
            },
            None => None,
        }),
{
    let args = rapidfuzz::distance::hamming::Args::default().score_cutoff(cutoff);
    rapidfuzz::distance::hamming::distance_with_args(a.chars(), b.chars(), &args).ok().flatten()
}

/// `rapidfuzz::distance::indel::distance`: the Indel distance.
#[verifier::external_body]
fn rf_indel(a: &str, b: &str) -> (r: usize)
    ensures
        r == indel_dist(a@, b@),
{
    rapidfuzz::distance::indel::distance(a.chars(), b.chars())
}

/// `rapidfuzz::distance::indel::distance_with_args` with a score cutoff: the
/// distance when it is at most the cutoff, else `None`.
#[verifier::external_body]
fn rf_indel_within(a: &str, b: &str, cutoff: usize) -> (r: Option<usize>)
    ensures
        r == (if indel_dist(a@, b@) <= cutoff {
            Some(indel_dist(a@, b@) as usize)
        } else {
            None
        }),
{
    let args = rapidfuzz::distance::indel::Args::default().score_cutoff(cutoff);
    rapidfuzz::distance::indel::distance_with_args(a.chars(), b.chars(), &args)
}

// ─── Batch helper ───────────────────────────────────────────────────────────

/// Apply `f` to the first two strings of each pair; a pair with fewer than
/// two strings gives `T::default()`.
pub fn batch_apply<T: Default, F: Fn(&str, &str) -> T>(pairs: &[Vec<String>], f: F) -> (r: Vec<T>)
    requires
        forall|x: &str, y: &str| #[trigger] f.requires((x, y)),
    ensures
        r.len() == pairs.len(),
        forall|i: int|
            0 <= i < pairs.len() && #[trigger] pairs[i].len() >= 2 ==> exists|x: &str, y: &str|
                x@ == pairs[i][0]@ && y@ == pairs[i][1]@ && f.ensures((x, y), r[i]),
        forall|i: int|
            0 <= i < pairs.len() && #[trigger] pairs[i].len() < 2 ==> call_ensures(
                T::default,
                (),
                r[i],
            ),
{
    let mut out: Vec<T> = Vec::new();
    let mut i: usize = 0;
    while i < pairs.len()
        invariant
            i <= pairs.len(),
            out.len() == i,
            forall|x: &str, y: &str| #[trigger] f.requires((x, y)),
            forall|k: int|
                0 <= k < i && #[trigger] pairs[k].len() >= 2 ==> exists|x: &str, y: &str|
                    x@ == pairs[k][0]@ && y@ == pairs[k][1]@ && f.ensures((x, y), out[k]),
            forall|k: int|
                0 <= k < i && #[trigger] pairs[k].len() < 2 ==> call_ensures(
                    T::default,
                    (),
                    out[k],
                ),
        decreases pairs.len() - i,
    {
        let pair = &pairs[i];
        let ghost prev = out@;
        if pair.len() >= 2 {
            let x = pair[0].as_str();
            let y = pair[1].as_str();
            let v = f(x, y);
            out.push(v);
            proof {
                assert(x@ == pairs[i as int][0]@ && y@ == pairs[i as int][1]@ && f.ensures((x, y), out[i as int]));
            }
        } else {
            out.push(T::default());
        }
        proof {
            assert forall|k: int|
                0 <= k < i + 1 && #[trigger] pairs[k].len() >= 2 implies exists|x: &str, y: &str|
                    x@ == pairs[k][0]@ && y@ == pairs[k][1]@ && f.ensures((x, y), out[k]) by {
                if k < i {
                    let (x0, y0) = choose|x: &str, y: &str|
                        x@ == pairs[k][0]@ && y@ == pairs[k][1]@ && f.ensures((x, y), prev[k]);
                    assert(out[k] == prev[k]);
                    assert(x0@ == pairs[k][0]@ && y0@ == pairs[k][1]@ && f.ensures((x0, y0), out[k]));
                }
            }
        }
        i = i + 1;
    }
    out
}

/// What [`batch_apply`] gives with a function whose result is `g` of the
/// two strings' characters and whose default is `0`.
proof fn lemma_batch_values<F: Fn(&str, &str) -> u32>(
    pairs: Seq<Vec<String>>,
    r: Seq<u32>,
    f: F,
    g: spec_fn(Seq<char>, Seq<char>) -> u32,
)
    requires
        r.len() == pairs.len(),
        forall|x: &str, y: &str, d: u32| f.ensures((x, y), d) ==> d == g(x@, y@),
        forall|i: int|
            0 <= i < pairs.len() && #[trigger] pairs[i].len() >= 2 ==> exists|x: &str, y: &str|
                x@ == pairs[i][0]@ && y@ == pairs[i][1]@ && f.ensures((x, y), r[i]),
        forall|i: int|
            0 <= i < pairs.len() && #[trigger] pairs[i].len() < 2 ==> call_ensures(
                u32::default,
                (),
                r[i],
            ),
    ensures
        forall|i: int|
            0 <= i < pairs.len() ==> #[trigger] r[i] == (if pairs[i].len() >= 2 {
                g(pairs[i][0]@, pairs[i][1]@)
            } else {
                0u32
            }),
{
    assert forall|i: int| 0 <= i < pairs.len() implies #[trigger] r[i] == (if pairs[i].len() >= 2 {
        g(pairs[i][0]@, pairs[i][1]@)
    } else {
        0u32
    }) by {
        if pairs[i].len() >= 2 {
            let (x0, y0) = choose|x: &str, y: &str|
                x@ == pairs[i][0]@ && y@ == pairs[i][1]@ && f.ensures((x, y), r[i]);
            assert(r[i] == g(x0@, y0@));
        } else {
            assert(call_ensures(u32::default, (), r[i]));
        }
    }
}

// ─── Levenshtein ────────────────────────────────────────────────────────────

/// The Levenshtein distance between `a` and `b`, counted in characters.
pub fn levenshtein(a: &str, b: &str) -> (r: u32)
    ensures
        r == lev_dist(a@, b@) as u32,
{
    rf_levenshtein(a, b) as u32
}

/// [`levenshtein`] of each pair; a pair with fewer than two strings gives 0.
pub fn levenshtein_batch(pairs: &[Vec<String>]) -> (r: Vec<u32>)
    ensures
        r.len() == pairs.len(),
        forall|i: int|
            0 <= i < pairs.len() ==> #[trigger] r[i] == (if pairs[i].len() >= 2 {
                lev_dist(pairs[i][0]@, pairs[i][1]@) as u32
            } else {
                0u32
            }),
{
    let r = batch_apply(pairs, levenshtein);
    proof {
        lemma_batch_values(pairs@, r@, levenshtein, |x: Seq<char>, y: Seq<char>| lev_dist(x, y) as u32);
    }
    r
}

/// The Levenshtein distance of `reference` to each candidate. With a cutoff, a distance
/// above it is reported as the cutoff plus one.
pub fn levenshtein_many(reference: &str, candidates: &[String], max_distance: Option<u32>) -> (r: Vec<u32>)
    ensures
        r.len() == candidates.len(),
        forall|i: int|
            0 <= i < candidates.len() ==> #[trigger] r[i] == capped(
                lev_dist(reference@, candidates[i]@),
                max_distance,
            ),
{
    let mut out: Vec<u32> = Vec::new();
    let mut i: usize = 0;
    while i < candidates.len()
        invariant
            i <= candidates.len(),
            out.len() == i,
            forall|k: int|
                0 <= k < i ==> #[trigger] out[k] == capped(lev_dist(reference@, candidates[k]@), max_distance),
        decreases candidates.len() - i,
    {
        let c = candidates[i].as_str();
        let d: u32 = match max_distance {
            Some(cutoff) => match rf_levenshtein_within(reference, c, cutoff as usize) {
                Some(d) => d as u32,
                None => cutoff.saturating_add(1),
            },
            None => rf_levenshtein(reference, c) as u32,
        };
        out.push(d);
        i = i + 1;
    }
    out
}

/// The Damerau-Levenshtein distance between `a` and `b`, counted in characters.
pub fn damerau_levenshtein(a: &str, b: &str) -> (r: u32)
    ensures
        r == damerau_of(a@, b@) as u32,
        damerau_of(a@, b@) == damerau_of(b@, a@),
        (damerau_of(a@, b@) == 0) == (a@ == b@),
{
    rf_damerau(a, b) as u32
}

/// [`damerau_levenshtein`] of each pair; a pair with fewer than two strings gives 0.
pub fn damerau_levenshtein_batch(pairs: &[Vec<String>]) -> (r: Vec<u32>)
    ensures
        r.len() == pairs.len(),
        forall|i: int|
            0 <= i < pairs.len() ==> #[trigger] r[i] == (if pairs[i].len() >= 2 {
                damerau_of(pairs[i][0]@, pairs[i][1]@) as u32
            } else {
                0u32
            }),
{
    let r = batch_apply(pairs, damerau_levenshtein);
    proof {
        lemma_batch_values(pairs@, r@, damerau_levenshtein, |x: Seq<char>, y: Seq<char>| damerau_of(x, y) as u32);
    }
    r
}

/// The Damerau-Levenshtein distance of `reference` to each candidate. With a cutoff, a distance
/// above it is reported as the cutoff plus one.
pub fn damerau_levenshtein_many(reference: &str, candidates: &[String], max_distance: Option<u32>) -> (r: Vec<u32>)
    ensures
        r.len() == candidates.len(),
        forall|i: int|
            0 <= i < candidates.len() ==> #[trigger] r[i] == capped(
                damerau_of(reference@, candidates[i]@),
                max_distance,
            ),
{
    let mut out: Vec<u32> = Vec::new();
    let mut i: usize = 0;
    while i < candidates.len()
        invariant
            i <= candidates.len(),
            out.len() == i,
            forall|k: int|
                0 <= k < i ==> #[trigger] out[k] == capped(damerau_of(reference@, candidates[k]@), max_distance),
        decreases candidates.len() - i,
    {
        let c = candidates[i].as_str();
        let d: u32 = match max_distance {
            Some(cutoff) => match rf_damerau_within(reference, c, cutoff as usize) {
                Some(d) => d as u32,
                None => cutoff.saturating_add(1),
            },
            None => rf_damerau(reference, c) as u32,
        };
        out.push(d);
        i = i + 1;
    }
    out
}

/// The Indel distance between `a` and `b`, counted in characters.
pub fn indel(a: &str, b: &str) -> (r: u32)
    ensures
        r == indel_dist(a@, b@) as u32,
{
    rf_indel(a, b) as u32
}

/// [`indel`] of each pair; a pair with fewer than two strings gives 0.
pub fn indel_batch(pairs: &[Vec<String>]) -> (r: Vec<u32>)
    ensures
        r.len() == pairs.len(),
        forall|i: int|
            0 <= i < pairs.len() ==> #[trigger] r[i] == (if pairs[i].len() >= 2 {
                indel_dist(pairs[i][0]@, pairs[i][1]@) as u32
            } else {
                0u32
            }),
{
    let r = batch_apply(pairs, indel);
    proof {
        lemma_batch_values(pairs@, r@, indel, |x: Seq<char>, y: Seq<char>| indel_dist(x, y) as u32);
    }
    r
}

/// The Indel distance of `reference` to each candidate. With a cutoff, a distance
/// above it is reported as the cutoff plus one.
pub fn indel_many(reference: &str, candidates: &[String], max_distance: Option<u32>) -> (r: Vec<u32>)
    ensures
        r.len() == candidates.len(),
        forall|i: int|
            0 <= i < candidates.len() ==> #[trigger] r[i] == capped(
                indel_dist(reference@, candidates[i]@),
                max_distance,
            ),
{
    let mut out: Vec<u32> = Vec::new();
    let mut i: usize = 0;
    while i < candidates.len()
        invariant
            i <= candidates.len(),
            out.len() == i,
            forall|k: int|
                0 <= k < i ==> #[trigger] out[k] == capped(indel_dist(reference@, candidates[k]@), max_distance),
        decreases candidates.len() - i,
    {
        let c = candidates[i].as_str();
        let d: u32 = match max_distance {
            Some(cutoff) => match rf_indel_within(reference, c, cutoff as usize) {
                Some(d) => d as u32,
                None => cutoff.saturating_add(1),
            },
            None => rf_indel(reference, c) as u32,
        };
        out.push(d);
        i = i + 1;
    }
    out
}

// ─── Hamming ────────────────────────────────────────────────────────────────

/// The Hamming distance between `a` and `b`, or `None` when their character
/// counts differ.
pub fn hamming(a: &str, b: &str) -> (r: Option<u32>)
    ensures
        r == hamming_capped(a@, b@, None),
{
    match rf_hamming(a, b) {
        Some(d) => Some(d as u32),
        None => None,
    }
}

/// [`hamming`] of each pair; a pair with fewer than two strings gives `None`.
pub fn hamming_batch(pairs: &[Vec<String>]) -> (r: Vec<Option<u32>>)
    ensures
        r.len() == pairs.len(),
        forall|i: int|
            0 <= i < pairs.len() ==> #[trigger] r[i] == (if pairs[i].len() >= 2 {
                hamming_capped(pairs[i][0]@, pairs[i][1]@, None)
            } else {
                None
            }),
{
    let mut out: Vec<Option<u32>> = Vec::new();
    let mut i: usize = 0;
    while i < pairs.len()
        invariant
            i <= pairs.len(),
            out.len() == i,
            forall|k: int|
                0 <= k < i ==> #[trigger] out[k] == (if pairs[k].len() >= 2 {
                    hamming_capped(pairs[k][0]@, pairs[k][1]@, None)
                } else {
                    None
                }),
        decreases pairs.len() - i,
    {
        let pair = &pairs[i];
        if pair.len() >= 2 {
            out.push(hamming(pair[0].as_str(), pair[1].as_str()));
        } else {
            out.push(None);
        }
        i = i + 1;
    }
    out
}

/// The Hamming distance from `reference` to each candidate: `None` where the
/// character counts differ or, with a cutoff, where the distance exceeds it.
pub fn hamming_many(reference: &str, candidates: &[String], max_distance: Option<u32>) -> (r: Vec<
    Option<u32>,
>)
    ensures
        r.len() == candidates.len(),
        forall|i: int|
            0 <= i < candidates.len() ==> #[trigger] r[i] == hamming_capped(
                reference@,
                candidates[i]@,
                max_distance,
            ),
{
    let mut out: Vec<Option<u32>> = Vec::new();
    let mut i: usize = 0;
    while i < candidates.len()
        invariant
            i <= candidates.len(),
            out.len() == i,
            forall|k: int|
                0 <= k < i ==> #[trigger] out[k] == hamming_capped(
                    reference@,
                    candidates[k]@,
                    max_distance,
                ),
        decreases candidates.len() - i,
    {
        let c = candidates[i].as_str();
        let d = match max_distance {
            Some(cutoff) => match rf_hamming_within(reference, c, cutoff as usize) {
                Some(d) => Some(d as u32),
                None => None,
            },
            None => match rf_hamming(reference, c) {
                Some(d) => Some(d as u32),
                None => None,
            },
        };
        out.push(d);
        i = i + 1;
    }
    out
}

// ─── Laws ───────────────────────────────────────────────────────────────────

/// Law: the Levenshtein distance of a string to itself is zero.
pub proof fn lemma_lev_identity(a: Seq<char>)
    ensures
        lev_dist(a, a) == 0,
    decreases a.len(),
{
    if a.len() > 0 {
        lemma_lev_identity(a.drop_last());
    }
}

/// Law: the Levenshtein distance is symmetric.
pub proof fn lemma_lev_symmetric(a: Seq<char>, b: Seq<char>)
    ensures
        lev_dist(a, b) == lev_dist(b, a),
    decreases a.len() + b.len(),
{
    if a.len() > 0 && b.len() > 0 {
        lemma_lev_symmetric(a.drop_last(), b);
        lemma_lev_symmetric(a, b.drop_last());
        lemma_lev_symmetric(a.drop_last(), b.drop_last());
    }
}

/// Law: the Levenshtein distance lies between the difference and the
/// larger of the two lengths.
pub proof fn lemma_lev_bounds(a: Seq<char>, b: Seq<char>)
    ensures
        a.len() - b.len() <= lev_dist(a, b),
        b.len() - a.len() <= lev_dist(a, b),
        lev_dist(a, b) <= max_nat(a.len(), b.len()),
    decreases a.len() + b.len(),
{
    if a.len() > 0 && b.len() > 0 {
        lemma_lev_bounds(a.drop_last(), b);
        lemma_lev_bounds(a, b.drop_last());
        lemma_lev_bounds(a.drop_last(), b.drop_last());
    }
}

/// Law: a Levenshtein distance of zero means the strings are equal.
pub proof fn lemma_lev_zero_iff_equal(a: Seq<char>, b: Seq<char>)
    ensures
        (lev_dist(a, b) == 0) == (a == b),
    decreases a.len() + b.len(),
{
    lemma_lev_identity(a);
    if a.len() == 0 && b.len() == 0 {
        assert(a =~= b);
    }
    if a.len() > 0 && b.len() > 0 {
        lemma_lev_zero_iff_equal(a.drop_last(), b.drop_last());
        if lev_dist(a, b) == 0 {
            assert(a.drop_last() == b.drop_last());
            assert(a =~= a.drop_last().push(a.last()));
            assert(b =~= b.drop_last().push(b.last()));
        }
    }
}

/// Law: the Levenshtein distance obeys the triangle inequality.
pub proof fn lemma_lev_triangle(a: Seq<char>, b: Seq<char>, c: Seq<char>)
    ensures
        lev_dist(a, c) <= lev_dist(a, b) + lev_dist(b, c),
    decreases a.len() + b.len() + c.len(),
{
    if a.len() == 0 || b.len() == 0 || c.len() == 0 {
        lemma_lev_bounds(a, b);
        lemma_lev_bounds(b, c);
        lemma_lev_bounds(a, c);
    } else {
        let a1 = a.drop_last();
        let b1 = b.drop_last();
        let c1 = c.drop_last();
        let ab = lev_dist(a, b);
        let bc = lev_dist(b, c);
        if ab == lev_dist(a1, b) + 1 {
            lemma_lev_triangle(a1, b, c);
        } else if bc == lev_dist(b, c1) + 1 {
            lemma_lev_triangle(a, b, c1);
        } else if ab == lev_dist(a, b1) + 1 && bc == lev_dist(b1, c) + 1 {
            lemma_lev_triangle(a, b1, c);
        } else if ab == lev_dist(a, b1) + 1 {
            lemma_lev_triangle(a, b1, c1);
        } else if bc == lev_dist(b1, c) + 1 {
            lemma_lev_triangle(a1, b1, c);
        } else {
            lemma_lev_triangle(a1, b1, c1);
        }
    }
}

/// Law: the Hamming distance of a string to itself is zero.
pub proof fn lemma_hamming_identity(a: Seq<char>)
    ensures
        hamming_dist(a, a) == Some(0nat),
    decreases a.len(),
{
    if a.len() > 0 {
        lemma_hamming_identity(a.drop_last());
    }
}

/// Law: the Hamming distance is symmetric.
pub proof fn lemma_hamming_symmetric(a: Seq<char>, b: Seq<char>)
    ensures
        hamming_dist(a, b) == hamming_dist(b, a),
{
    lemma_mismatches_symmetric(a, b);
}

proof fn lemma_mismatches_symmetric(a: Seq<char>, b: Seq<char>)
    ensures
        mismatches(a, b) == mismatches(b, a),
    decreases a.len(),
{
    if a.len() > 0 && b.len() > 0 {
        lemma_mismatches_symmetric(a.drop_last(), b.drop_last());
    }
}

/// Law: the Hamming distance is undefined exactly when the lengths differ.
pub proof fn lemma_hamming_none_iff_lengths_differ(a: Seq<char>, b: Seq<char>)
    ensures
        hamming_dist(a, b) is None <==> a.len() != b.len(),
{
}

proof fn lemma_lcs_self(a: Seq<char>)
    ensures
        lcs_len(a, a) == a.len(),
    decreases a.len(),
{
    if a.len() > 0 {
        lemma_lcs_self(a.drop_last());
    }
}

proof fn lemma_lcs_symmetric(a: Seq<char>, b: Seq<char>)
    ensures
        lcs_len(a, b) == lcs_len(b, a),
    decreases a.len() + b.len(),
{
    if a.len() > 0 && b.len() > 0 {
        lemma_lcs_symmetric(a.drop_last(), b);
        lemma_lcs_symmetric(a, b.drop_last());
        lemma_lcs_symmetric(a.drop_last(), b.drop_last());
    }
}

/// Law: the Indel distance of a string to itself is zero.
pub proof fn lemma_indel_identity(a: Seq<char>)
    ensures
        indel_dist(a, a) == 0,
{
    lemma_lcs_self(a);
}

/// Law: the Indel distance is symmetric.
pub proof fn lemma_indel_symmetric(a: Seq<char>, b: Seq<char>)
    ensures
        indel_dist(a, b) == indel_dist(b, a),
{
    lemma_lcs_symmetric(a, b);
}

} // verus!
