use vstd::prelude::*;
use vstd::string::StrSliceExecFns;
use vstd::utf8::encode_utf8;

use crate::ranking::{
    classify_match, distinct_indices, lemma_top_k_reaching, lemma_top_k_unique, limited,
    match_type_of, rank_top_k, reaching, sorted_positions, top_k, MatchType, Ranked,
};
use crate::sorted::strictly_increasing_u32;
use crate::text::{char_is_whitespace, chars_of, is_white_space, strings_view};

verus! {

broadcast use vstd::seq_lib::group_seq_properties;

// ─── The matcher of nucleo-matcher ─────────────────────────────────────────

#[verifier::external_type_specification]
#[verifier::external_body]
pub struct ExMatcher(nucleo_matcher::Matcher);

#[verifier::external_type_specification]
#[verifier::external_body]
pub struct ExPattern(nucleo_matcher::pattern::Pattern);

/// How letter case is treated when matching.
#[derive(Clone, Copy, Debug, PartialEq, Eq, Structural)]
pub enum CaseMode {
    /// Letters only match in the same case.
    Respect,
    /// Letters match in either case.
    Ignore,
    /// Case is ignored unless the query term holds an uppercase letter.
    Smart,
}

/// Map the optional case-sensitivity flag to a case mode: only an explicit
/// `true` makes matching respect case.
pub fn resolve_case_matching(is_case_sensitive: Option<bool>) -> (r: CaseMode)
    ensures
        r == (if is_case_sensitive == Some(true) {
            CaseMode::Respect
        } else {
            CaseMode::Smart
        }),
{
    match is_case_sensitive {
        Some(true) => CaseMode::Respect,
        _ => CaseMode::Smart,
    }
}

/// A query parsed into a nucleo pattern, kept with the text and case mode
/// it was parsed from. Its only constructor is [`compile_query`].
pub struct CompiledQuery {
    pattern: nucleo_matcher::pattern::Pattern,
    text: String,
    case: CaseMode,
}

impl CompiledQuery {
    /// The query text the pattern was parsed from.
    pub closed spec fn query(&self) -> Seq<char> {
        self.text@
    }

    /// The case mode the pattern was parsed with.
    pub closed spec fn case_mode(&self) -> CaseMode {
        self.case
    }
}

/// All characters of `s` are ASCII.
pub open spec fn ascii_text(s: Seq<char>) -> bool {
    forall|i: int| 0 <= i < s.len() ==> (#[trigger] s[i] as u32) < 0x80
}

/// What `nucleo_matcher::Utf32Str::new` makes of a string that is not
/// ASCII: whether it took the ASCII form (its bytes, when every grapheme
/// starts with an ASCII character), and the units the matcher reads.
pub uninterp spec fn str_units_beyond_ascii(s: Seq<char>) -> (bool, Seq<char>);

/// What `nucleo_matcher::Utf32String::from` makes of a string that is not
/// ASCII: the first character of each grapheme.
pub uninterp spec fn string_units_beyond_ascii(s: Seq<char>) -> (bool, Seq<char>);

/// What `Utf32Str::new` makes of a string: the ASCII form of its own
/// characters when it is ASCII.
pub open spec fn utf32_str_units(s: Seq<char>) -> (bool, Seq<char>) {
    if ascii_text(s) {
        (true, s)
    } else {
        str_units_beyond_ascii(s)
    }
}

/// What `Utf32String::from` makes of a string: the ASCII form of its own
/// characters when it is ASCII.
pub open spec fn utf32_string_units(s: Seq<char>) -> (bool, Seq<char>) {
    if ascii_text(s) {
        (true, s)
    } else {
        string_units_beyond_ascii(s)
    }
}

/// What `Pattern::score` returns for the pattern that `Pattern::parse` makes
/// of `query` (with smart normalization) on `haystack`, using a matcher made
/// with the default configuration (the only kind a [`DefaultMatcher`] holds).
pub uninterp spec fn matcher_score(query: Seq<char>, case: CaseMode, haystack: (bool, Seq<char>)) -> Option<u32>;

/// The score of `query` on `haystack`: [`matcher_score`], with one fact of
/// nucleo's matching made explicit. Every atom that is not negated must
/// find each of its needle characters in the haystack (equal up to ASCII
/// case where the atom ignores case; see `prefilter_ascii` and the match
/// functions of nucleo-matcher), so an ASCII haystack that lacks a letter or
/// digit of a positive term of an ASCII query (its atoms cut where nucleo
/// cuts them), the test that [`crate::index::screened`] makes, gets no
/// score.
pub open spec fn pattern_score(query: Seq<char>, case: CaseMode, haystack: (bool, Seq<char>)) -> Option<u32> {
    if haystack.0 && ascii_text(haystack.1) && ascii_text(query) && crate::index::screened(
        query,
        haystack.1,
    ) {
        None
    } else {
        matcher_score(query, case, haystack)
    }
}

/// The positions that `Pattern::indices` writes into an empty vector for the
/// pattern that `Pattern::parse` makes of `query` on `haystack`, using a
/// matcher made with the default configuration.
pub uninterp spec fn pattern_indices(query: Seq<char>, case: CaseMode, haystack: (bool, Seq<char>)) -> Seq<u32>;

/// `Matcher::new(Config::DEFAULT)`: scratch space for scoring.
#[verifier::external_body]
fn new_matcher() -> (m: nucleo_matcher::Matcher) {
    nucleo_matcher::Matcher::new(nucleo_matcher::Config::DEFAULT)
}

/// A nucleo matcher with the default configuration. Its field is private
/// and [`DefaultMatcher::new`] is its only constructor, so every score and
/// position it gives is that of the default configuration; the matcher
/// itself is only reused scratch space.
pub struct DefaultMatcher {
    matcher: nucleo_matcher::Matcher,
}

impl DefaultMatcher {
    /// A matcher with the default configuration.
    pub fn new() -> Self {
        DefaultMatcher { matcher: new_matcher() }
    }
}

/// `Pattern::parse` with smart normalization, kept with the query text and
/// case mode it was parsed from.
#[verifier::external_body]
pub(crate) fn compile_query(query: &str, case: CaseMode) -> (c: CompiledQuery)
    ensures
        c.query() == query@,
        c.case_mode() == case,
{
    let matching = match case {
        CaseMode::Respect => nucleo_matcher::pattern::CaseMatching::Respect,
        CaseMode::Ignore => nucleo_matcher::pattern::CaseMatching::Ignore,
        CaseMode::Smart => nucleo_matcher::pattern::CaseMatching::Smart,
    };
    let pattern = nucleo_matcher::pattern::Pattern::parse(
        query,
        matching,
        nucleo_matcher::pattern::Normalization::Smart,
    );
    CompiledQuery { pattern, text: query.to_string(), case }
}

/// `Pattern::score` on the `Utf32Str::new` form of `s`. An ASCII string is
/// taken as it stands (the ASCII form of its own characters).
#[verifier::external_body]
pub(crate) fn score_str(c: &CompiledQuery, s: &str, m: &mut DefaultMatcher) -> (r: Option<u32>)
    ensures
        r == pattern_score(
            c.query(),
            c.case_mode(),
            if ascii_text(s@) {
                (true, s@)
            } else {
                str_units_beyond_ascii(s@)
            },
        ),
        !ascii_text(c.query()) ==> r == matcher_score(c.query(), c.case_mode(), utf32_str_units(s@)),
{
    let mut buf: Vec<char> = Vec::new();
    c.pattern.score(nucleo_matcher::Utf32Str::new(s, &mut buf), &mut m.matcher)
}

/// `Pattern::score` on the `Utf32String::from` form of `s`. An ASCII
/// string is taken as it stands (the ASCII form of its own characters).
#[verifier::external_body]
pub(crate) fn score_prepared(c: &CompiledQuery, s: &str, m: &mut DefaultMatcher) -> (r: Option<u32>)
    ensures
        r == pattern_score(
            c.query(),
            c.case_mode(),
            if ascii_text(s@) {
                (true, s@)
            } else {
                string_units_beyond_ascii(s@)
            },
        ),
        !ascii_text(c.query()) ==> r == matcher_score(c.query(), c.case_mode(), utf32_string_units(s@)),
{
    let haystack = nucleo_matcher::Utf32String::from(s);
    c.pattern.score(haystack.slice(..), &mut m.matcher)
}

/// `Pattern::indices` on the `Utf32Str::new` form of `s`, into an empty
/// vector. Each position is that of a unit of the haystack the matcher
/// reads. (That form takes the bytes of `s` as its units whenever every
/// grapheme starts with an ASCII character, so a position can reach past
/// the character count of a string with combining marks.) An ASCII string
/// is taken as it stands.
#[verifier::external_body]
fn indices_str(c: &CompiledQuery, s: &str, m: &mut DefaultMatcher) -> (r: Vec<u32>)
    ensures
        r@ == pattern_indices(c.query(), c.case_mode(), utf32_str_units(s@)),
        forall|k: int| 0 <= k < r@.len() ==> #[trigger] r@[k] < utf32_str_units(s@).1.len(),
{
    let mut buf: Vec<char> = Vec::new();
    let mut indices: Vec<u32> = Vec::new();
    c.pattern.indices(nucleo_matcher::Utf32Str::new(s, &mut buf), &mut m.matcher, &mut indices);
    indices
}

/// `Pattern::indices` on the `Utf32String::from` form of `s`, into an empty
/// vector. Each position is that of a unit of the haystack, which has at
/// most one unit per character of `s` (one per grapheme, or the characters
/// themselves for ASCII). An ASCII string is taken as it stands.
#[verifier::external_body]
pub(crate) fn indices_prepared(c: &CompiledQuery, s: &str, m: &mut DefaultMatcher) -> (r: Vec<u32>)
    ensures
        r@ == pattern_indices(c.query(), c.case_mode(), utf32_string_units(s@)),
        forall|k: int| 0 <= k < r@.len() ==> #[trigger] r@[k] < s@.len(),
{
    let haystack = nucleo_matcher::Utf32String::from(s);
    let mut indices: Vec<u32> = Vec::new();
    c.pattern.indices(haystack.slice(..), &mut m.matcher, &mut indices);
    indices
}

// ─── Scores ─────────────────────────────────────────────────────────────────

/// The highest raw score of a query: that of the query matched against
/// itself, or 1 when it does not match itself.
pub open spec fn max_key_of(query: Seq<char>, case: CaseMode) -> u32 {
    match pattern_score(query, case, utf32_str_units(query)) {
        Some(s) => s,
        None => 1,
    }
}

/// A raw score clamped to the query's highest score. The normalized score
/// of a match is this divided by that highest score.
pub open spec fn clamp_key(raw: u32, max: u32) -> u32 {
    if raw <= max {
        raw
    } else {
        max
    }
}

/// The length of a string in UTF-8 bytes.
pub open spec fn byte_len(s: Seq<char>) -> usize {
    encode_utf8(s).len() as usize
}

/// The ranking entry of item `i` with raw score `score`, when its clamped
/// score reaches `min_key`.
pub open spec fn entry_of(score: Option<u32>, max: u32, item: Seq<char>, i: int, min_key: u64) -> Option<
    Ranked,
> {
    match score {
        Some(raw) => if clamp_key(raw, max) >= min_key {
            Some(Ranked { key: clamp_key(raw, max), byte_len: byte_len(item), index: i as u32 })
        } else {
            None
        },
        None => None,
    }
}

/// The entries of all matching items, in item order, scoring each item in
/// its `Utf32Str::new` form.
pub open spec fn str_hits(query: Seq<char>, case: CaseMode, items: Seq<Seq<char>>, min_key: u64) -> Seq<
    Ranked,
>
    decreases items.len(),
{
    if items.len() == 0 {
        seq![]
    } else {
        let prev = str_hits(query, case, items.drop_last(), min_key);
        match entry_of(
            pattern_score(query, case, utf32_str_units(items.last())),
            max_key_of(query, case),
            items.last(),
            items.len() - 1,
            min_key,
        ) {
            Some(h) => prev.push(h),
            None => prev,
        }
    }
}

/// The highest raw score of the query, see [`max_key_of`].
pub fn compute_max_score(c: &CompiledQuery, m: &mut DefaultMatcher) -> (r: u32)
    ensures
        r == max_key_of(c.query(), c.case_mode()),
{
    match score_str(c, c.text.as_str(), m) {
        Some(s) => s,
        None => 1,
    }
}

/// The highest raw score of `query` with the given case mode: the divisor
/// that turns the scores of [`search_over_items`] into the range 0 to 1.
pub fn query_max_score(query: &str, case: CaseMode) -> (r: u32)
    ensures
        r == max_key_of(query@, case),
{
    let mut m = DefaultMatcher::new();
    let c = compile_query(query, case);
    compute_max_score(&c, &mut m)
}

// ─── Results ────────────────────────────────────────────────────────────────

/// A ranked match: the item, its clamped score, its index, and (when asked
/// for) the matched character positions and the kind of match.
pub struct SearchHit {
    pub item: String,
    pub key: u32,
    pub index: u32,
    pub positions: Vec<u32>,
    pub match_type: Option<MatchType>,
}

/// A ranked match by index only, without the item text.
pub struct IndexHit {
    pub index: u32,
    pub key: u32,
    pub positions: Vec<u32>,
    pub match_type: Option<MatchType>,
}

/// The ranking entry an index-only hit stands for.
pub open spec fn index_hit_entry(h: IndexHit, items: Seq<Seq<char>>) -> Ranked {
    Ranked { key: h.key, byte_len: byte_len(items[h.index as int]), index: h.index }
}

/// The ranking entry a hit stands for.
pub open spec fn hit_entry(h: SearchHit, items: Seq<Seq<char>>) -> Ranked {
    Ranked { key: h.key, byte_len: byte_len(items[h.index as int]), index: h.index }
}

/// Sorted matched positions and the match type, as the hit of an item with
/// raw positions `raw` carries them, each position below `bound` (the
/// number of units the matcher read); none unless asked for.
pub open spec fn positions_ok(
    positions: Seq<u32>,
    match_type: Option<MatchType>,
    raw: Seq<u32>,
    item: Seq<char>,
    include_positions: bool,
    bound: nat,
) -> bool {
    if include_positions {
        &&& strictly_increasing_u32(positions)
        &&& positions.to_set() == raw.to_set()
        &&& forall|k: int| 0 <= k < positions.len() ==> #[trigger] positions[k] < bound
        &&& match_type == Some(match_type_of(positions, item.len()))
    } else {
        positions.len() == 0 && match_type is None
    }
}

pub(crate) fn positions_of(raw: Vec<u32>, item: &str, Ghost(bound): Ghost<nat>) -> (r: (Vec<u32>, Option<MatchType>))
    requires
        forall|k: int| 0 <= k < raw@.len() ==> #[trigger] raw@[k] < bound,
    ensures
        positions_ok(r.0@, r.1, raw@, item@, true, bound),
{
    let p = sorted_positions(&raw);
    proof {
        assert forall|k: int| 0 <= k < p@.len() implies #[trigger] p@[k] < bound by {
            assert(p@.to_set().contains(p@[k]));
            assert(raw@.to_set().contains(p@[k]));
            let j = choose|j: int| 0 <= j < raw@.len() && raw@[j] == p@[k];
        }
    }
    let mt = classify_match(p.as_slice(), item.unicode_len());
    (p, Some(mt))
}

/// Search `items` for `query`: score every item, keep those whose clamped
/// score reaches `min_key`, order them best first (higher score, then
/// shorter item, then lower index) and keep the first `max_results`. A
/// blank query (empty or whitespace only) matches nothing.
pub fn search_over_items(
    query: &str,
    items: &[String],
    max_results: Option<u32>,
    min_key: u64,
    include_positions: bool,
    case: CaseMode,
) -> (r: Vec<SearchHit>)
    requires
        items.len() <= u32::MAX,
    ensures
        blank(query@) || items.len() == 0 ==> r.len() == 0,
        !blank(query@) && items.len() > 0 ==> {
            let all = str_hits(query@, case, strings_view(items@), min_key);
            &&& top_k(r@.map_values(|h: SearchHit| hit_entry(h, strings_view(items@))), all, max_results)
            &&& forall|i: int|
                0 <= i < r.len() ==> {
                    let h = #[trigger] r@[i];
                    &&& h.index < items.len()
                    &&& h.item@ == items@[h.index as int]@
                    &&& positions_ok(
                        h.positions@,
                        h.match_type,
                        pattern_indices(query@, case, utf32_str_units(items@[h.index as int]@)),
                        items@[h.index as int]@,
                        include_positions,
                        utf32_str_units(items@[h.index as int]@).1.len(),
                    )
                }
        },
{
    if is_blank(query) || items.len() == 0 {
        return Vec::new();
    }
    let ghost texts = strings_view(items@);
    let mut m = DefaultMatcher::new();
    let c = compile_query(query, case);
    let max = compute_max_score(&c, &mut m);
    let mut hits: Vec<Ranked> = Vec::new();
    let mut i: usize = 0;
    while i < items.len()
        invariant
            i <= items.len() <= u32::MAX,
            texts == strings_view(items@),
            c.query() == query@,
            c.case_mode() == case,
            max == max_key_of(query@, case),
            hits@ == str_hits(query@, case, texts.take(i as int), min_key),
            distinct_indices(hits@),
            forall|k: int| 0 <= k < hits.len() ==> (#[trigger] hits@[k]).index < i,
        decreases items.len() - i,
    {
        let s = items[i].as_str();
        let score = score_str(&c, s, &mut m);
        proof {
            assert(texts.take(i + 1).drop_last() == texts.take(i as int));
            assert(texts.take(i + 1).last() == items@[i as int]@);
        }
        match score {
            Some(raw) => {
                let key = if raw <= max {
                    raw
                } else {
                    max
                };
                if key as u64 >= min_key {
                    hits.push(Ranked { key, byte_len: s.len(), index: i as u32 });
                }
            },
            None => {},
        }
        i = i + 1;
    }
    proof {
        assert(texts.take(items.len() as int) == texts);
    }
    let top = rank_top_k(&hits, max_results);
    let mut out: Vec<SearchHit> = Vec::new();
    let mut j: usize = 0;
    while j < top.len()
        invariant
            j <= top.len(),
            items.len() <= u32::MAX,
            texts == strings_view(items@),
            c.query() == query@,
            c.case_mode() == case,
            top_k(top@, hits@, max_results),
            forall|k: int| 0 <= k < hits.len() ==> (#[trigger] hits@[k]).index < items.len(),
            hits@ == str_hits(query@, case, texts, min_key),
            out.len() == j,
            forall|k: int| 0 <= k < j ==> hit_entry(#[trigger] out@[k], texts) == top@[k],
            forall|k: int|
                0 <= k < j ==> {
                    let h = #[trigger] out@[k];
                    &&& h.index < items.len()
                    &&& h.item@ == items@[h.index as int]@
                    &&& positions_ok(
                        h.positions@,
                        h.match_type,
                        pattern_indices(query@, case, utf32_str_units(items@[h.index as int]@)),
                        items@[h.index as int]@,
                        include_positions,
                        utf32_str_units(items@[h.index as int]@).1.len(),
                    )
                },
        decreases top.len() - j,
    {
        let t = top[j];
        proof {
            assert(hits@.contains(top@[j as int]));
            let p = choose|p: int| 0 <= p < hits.len() && hits@[p] == top@[j as int];
            assert(hits@[p].index < items.len());
        }
        let idx = t.index as usize;
        let item = items[idx].as_str();
        let (positions, match_type) = if include_positions {
            let raw = indices_str(&c, item, &mut m);
            positions_of(raw, item, Ghost(utf32_str_units(item@).1.len()))
        } else {
            (Vec::new(), None)
        };
        proof {
            lemma_str_hits_entry(query@, case, texts, min_key, t);
        }
        out.push(SearchHit { item: items[idx].clone(), key: t.key, index: t.index, positions, match_type });
        j = j + 1;
    }
    proof {
        assert(out@.map_values(|h: SearchHit| hit_entry(h, texts)) == top@);
    }
    out
}

/// Every entry of [`str_hits`] describes its own item.
proof fn lemma_str_hits_entry(query: Seq<char>, case: CaseMode, items: Seq<Seq<char>>, min_key: u64, h: Ranked)
    requires
        str_hits(query, case, items, min_key).contains(h),
        items.len() <= u32::MAX,
    ensures
        h.index < items.len(),
        h.byte_len == byte_len(items[h.index as int]),
    decreases items.len(),
{
    if items.len() > 0 {
        let prev = str_hits(query, case, items.drop_last(), min_key);
        if prev.contains(h) {
            lemma_str_hits_entry(query, case, items.drop_last(), min_key, h);
        }
    }
}

/// The hits of a search with minimum `m` are those of the search with no
/// minimum whose score reaches `m`; the latter are in strictly increasing
/// index order below the item count.
proof fn lemma_str_hits_reaching(query: Seq<char>, case: CaseMode, items: Seq<Seq<char>>, m: u64)
    requires
        items.len() <= u32::MAX,
    ensures
        str_hits(query, case, items, m) == reaching(str_hits(query, case, items, 0), m),
        forall|i: int, j: int|
            0 <= i < j < str_hits(query, case, items, 0).len() ==> (#[trigger] str_hits(
                query,
                case,
                items,
                0,
            )[i]).index < (#[trigger] str_hits(query, case, items, 0)[j]).index,
        forall|i: int|
            0 <= i < str_hits(query, case, items, 0).len() ==> (#[trigger] str_hits(
                query,
                case,
                items,
                0,
            )[i]).index < items.len(),
    decreases items.len(),
{
    if items.len() > 0 {
        let t = items.drop_last();
        lemma_str_hits_reaching(query, case, t, m);
        let p0 = str_hits(query, case, t, 0);
        let h0 = str_hits(query, case, items, 0);
        let e = entry_of(
            pattern_score(query, case, utf32_str_units(items.last())),
            max_key_of(query, case),
            items.last(),
            items.len() - 1,
            0,
        );
        if let Some(h) = e {
            assert(h0 == p0.push(h));
            assert(h0.drop_last() =~= p0);
            assert(h0.last() == h);
        }
        assert forall|i: int| 0 <= i < h0.len() implies (#[trigger] h0[i]).index < items.len() by {
            if i < p0.len() {
                assert(h0[i] == p0[i]);
            }
        }
        assert forall|i: int, j: int| 0 <= i < j < h0.len() implies (#[trigger] h0[i]).index < (
        #[trigger] h0[j]).index by {
            if j < p0.len() {
                assert(h0[i] == p0[i] && h0[j] == p0[j]);
            } else {
                assert(h0[i] == p0[i]);
            }
        }
    }
}

/// Raising the minimum score only filters the hits: the results of a search
/// of `items` with minimum `min_key` and limit `limit` stand for the results
/// of the search with neither, kept while their score reaches `min_key`,
/// then cut to the limit.
pub proof fn lemma_min_key_filters(
    query: Seq<char>,
    case: CaseMode,
    items: Seq<Seq<char>>,
    min_key: u64,
    limit: Option<u32>,
    r: Seq<SearchHit>,
    full: Seq<SearchHit>,
)
    requires
        items.len() <= u32::MAX,
        top_k(r.map_values(|h: SearchHit| hit_entry(h, items)), str_hits(query, case, items, min_key), limit),
        top_k(full.map_values(|h: SearchHit| hit_entry(h, items)), str_hits(query, case, items, 0), None),
    ensures
        r.map_values(|h: SearchHit| hit_entry(h, items)) == reaching(
            full.map_values(|h: SearchHit| hit_entry(h, items)),
            min_key,
        ).take(limited(reaching(str_hits(query, case, items, 0), min_key).len(), limit) as int),
{
    lemma_str_hits_reaching(query, case, items, min_key);
    let all = str_hits(query, case, items, 0);
    assert(all.no_duplicates()) by {
        assert forall|i: int, j: int| 0 <= i < all.len() && 0 <= j < all.len() && i != j implies all[i]
            != all[j] by {
            if i < j {
                assert(all[i].index < all[j].index);
            } else {
                assert(all[j].index < all[i].index);
            }
        }
    }
    lemma_top_k_reaching(
        all,
        min_key,
        limit,
        r.map_values(|h: SearchHit| hit_entry(h, items)),
        full.map_values(|h: SearchHit| hit_entry(h, items)),
    );
}

/// Asking for positions does not change the ranking: two searches of the
/// same items for the same query, minimum and limit return the same items,
/// indices and scores in the same order.
pub proof fn lemma_positions_keep_ranking(
    query: Seq<char>,
    case: CaseMode,
    items: Seq<Seq<char>>,
    min_key: u64,
    limit: Option<u32>,
    r1: Seq<SearchHit>,
    r2: Seq<SearchHit>,
)
    requires
        top_k(r1.map_values(|h: SearchHit| hit_entry(h, items)), str_hits(query, case, items, min_key), limit),
        top_k(r2.map_values(|h: SearchHit| hit_entry(h, items)), str_hits(query, case, items, min_key), limit),
        forall|i: int| 0 <= i < r1.len() ==> (#[trigger] r1[i]).item@ == items[r1[i].index as int],
        forall|i: int| 0 <= i < r2.len() ==> (#[trigger] r2[i]).item@ == items[r2[i].index as int],
    ensures
        r1.len() == r2.len(),
        forall|i: int|
            0 <= i < r1.len() ==> (#[trigger] r1[i]).index == r2[i].index && r1[i].key == r2[i].key
                && r1[i].item@ == r2[i].item@,
{
    let e1 = r1.map_values(|h: SearchHit| hit_entry(h, items));
    let e2 = r2.map_values(|h: SearchHit| hit_entry(h, items));
    lemma_top_k_unique(e1, e2, str_hits(query, case, items, min_key), limit);
    assert forall|i: int| 0 <= i < r1.len() implies (#[trigger] r1[i]).index == r2[i].index && r1[i].key
        == r2[i].key && r1[i].item@ == r2[i].item@ by {
        assert(e1[i] == e2[i]);
    }
}

// ─── Blank queries ──────────────────────────────────────────────────────────

/// The text holds nothing but whitespace (what `str::trim` would leave
/// empty); the empty text is blank too. A blank query matches nothing.
pub open spec fn blank(s: Seq<char>) -> bool {
    forall|i: int| 0 <= i < s.len() ==> is_white_space(#[trigger] s[i])
}

/// Whether the query is [`blank`].
pub fn is_blank(query: &str) -> (r: bool)
    ensures
        r == blank(query@),
{
    let cs = chars_of(query);
    let mut i: usize = 0;
    while i < cs.len()
        invariant
            i <= cs.len(),
            cs@ == query@,
            forall|k: int| 0 <= k < i ==> is_white_space(#[trigger] cs@[k]),
        decreases cs.len() - i,
    {
        if !char_is_whitespace(cs[i]) {
            return false;
        }
        i = i + 1;
    }
    true
}

/// The indices of the first `max_results` of `n` items, in order: what a
/// blank query gives when every item is asked for.
pub fn leading_indices(n: usize, max_results: Option<u32>) -> (r: Vec<u32>)
    requires
        n <= u32::MAX,
    ensures
        r@.len() == crate::ranking::limited(n as nat, max_results),
        forall|i: int| 0 <= i < r@.len() ==> #[trigger] r@[i] == i,
{
    let limit: usize = match max_results {
        Some(k) => if (k as usize) < n {
            k as usize
        } else {
            n
        },
        None => n,
    };
    let mut r: Vec<u32> = Vec::new();
    let mut i: usize = 0;
    while i < limit
        invariant
            i <= limit <= n <= u32::MAX,
            r@.len() == i,
            forall|k: int| 0 <= k < i ==> #[trigger] r@[k] == k,
        decreases limit - i,
    {
        r.push(i as u32);
        i = i + 1;
    }
    r
}

} // verus!
