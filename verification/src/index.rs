use vstd::prelude::*;

use crate::bigram::{candidate_set, intersect_strict, swap_removed, BigramIndex};
use crate::ranking::{lemma_top_k_unique, rank_top_k, top_k, Ranked};
use crate::search::{
    blank, byte_len, compile_query, is_blank, compute_max_score, entry_of, hit_entry, index_hit_entry,
    indices_prepared, max_key_of, DefaultMatcher, pattern_indices, pattern_score, positions_of,
    positions_ok, score_prepared, utf32_string_units, CaseMode, CompiledQuery, IndexHit, SearchHit,
    ascii_text, str_hits, utf32_str_units,
};
use crate::sorted::{ascending, lemma_ascending_of, lemma_strict_unique, strictly_increasing_u32};
use crate::text::{
    bigram_set, char_mask_spec, chars_of, chars_set_bit, compute_char_mask, compute_query_mask,
    extract_query_bigrams, has_bit, lemma_char_mask_bits, lemma_some_bit, lemma_terms_mask_bits,
    positive_terms, query_bigram_set, query_mask_spec, strings_view, terms_set_bit, atoms,
};

verus! {

broadcast use vstd::seq_lib::group_seq_properties;

/// The number of items from which searches pre-filter candidates through
/// the bigram index.
pub const BIGRAM_THRESHOLD: usize = 5000;

/// The cached indices, when the last search can narrow this one: both
/// queries are non-empty and free of `!`, the new one strictly extends the
/// old one, the old one holds no `$` or `\\` (whose meaning can change when
/// text follows them, so that the longer query matches items the shorter
/// one did not), both were made in the same case mode, and indices were
/// kept.
pub open spec fn cache_candidates(
    last_query: Seq<char>,
    last: Seq<u32>,
    last_case: CaseMode,
    query: Seq<char>,
    case: CaseMode,
) -> Option<Seq<u32>> {
    if last_query.len() > 0 && last.len() > 0 && last_query.len() < query.len() && query.subrange(
        0,
        last_query.len() as int,
    ) == last_query && !query.contains('!') && !last_query.contains('!') && !last_query.contains('$')
        && !last_query.contains('\\') && last_case == case {
        Some(last)
    } else {
        None
    }
}

/// The items holding every bigram of the query's positive terms, when the
/// index is large enough, the query has bigrams, and at most 80% of the
/// items qualify.
pub open spec fn bigram_filter(items: Seq<Seq<char>>, query: Seq<char>) -> Option<Set<u32>> {
    let qs = query_bigram_set(query);
    let c = Set::new(|x: u32| x < items.len() && qs.subset_of(bigram_set(items[x as int])));
    if items.len() < BIGRAM_THRESHOLD || qs == Set::<u16>::empty() {
        None
    } else if c.len() * 5 > items.len() * 4 {
        None
    } else {
        Some(c)
    }
}

/// The indices a search scores: the cached indices and the bigram filter
/// intersected where both apply, either one alone, or every item.
pub open spec fn search_candidates(
    items: Seq<Seq<char>>,
    last_query: Seq<char>,
    last: Seq<u32>,
    last_case: CaseMode,
    query: Seq<char>,
    case: CaseMode,
) -> Set<u32> {
    match (cache_candidates(last_query, last, last_case, query, case), bigram_filter(items, query)) {
        (Some(c), Some(b)) => c.to_set().intersect(b),
        (Some(c), None) => c.to_set(),
        (None, Some(b)) => b,
        (None, None) => Set::new(|x: u32| x < items.len()),
    }
}

/// The item lacks a character of the query's positive terms (ASCII letters
/// and digits only), so it is not scored.
pub open spec fn screened(query: Seq<char>, item: Seq<char>) -> bool {
    let qm = query_mask_spec(query);
    qm != 0 && (char_mask_spec(item) & qm) != qm
}

/// The mask pre-filter rules an item out exactly when some positive term of
/// the query holds a character that folds to an ASCII letter or digit to
/// which no character of the item folds: it never rules out an item that
/// holds, up to folding, every such character of the query.
pub proof fn lemma_screened_iff_missing(query: Seq<char>, item: Seq<char>)
    ensures
        screened(query, item) <==> exists|b: u64|
            b < 64 && terms_set_bit(positive_terms(atoms(query)), b) && !#[trigger] chars_set_bit(item, b),
{
    let qm = query_mask_spec(query);
    let im = char_mask_spec(item);
    let ts = positive_terms(atoms(query));
    if screened(query, item) {
        let d = qm & !im;
        assert(d != 0) by (bit_vector)
            requires
                (im & qm) != qm,
                d == qm & !im,
        ;
        let b = lemma_some_bit(d);
        assert(has_bit(qm, b) && !has_bit(im, b)) by (bit_vector)
            requires
                d == qm & !im,
                (d >> b) & 1u64 == 1u64,
                b < 64,
        ;
        lemma_terms_mask_bits(ts, b);
        lemma_char_mask_bits(item, b);
        assert(terms_set_bit(ts, b) && !chars_set_bit(item, b));
    }
    if exists|b: u64| b < 64 && terms_set_bit(ts, b) && !#[trigger] chars_set_bit(item, b) {
        let b = choose|b: u64| b < 64 && terms_set_bit(ts, b) && !#[trigger] chars_set_bit(item, b);
        lemma_terms_mask_bits(ts, b);
        lemma_char_mask_bits(item, b);
        assert(qm != 0 && (im & qm) != qm) by (bit_vector)
            requires
                (qm >> b) & 1u64 == 1u64,
                (im >> b) & 1u64 != 1u64,
                b < 64,
        ;
    }
}

/// The ranking entry of candidate `i`, scoring the item in its
/// `Utf32String::from` form unless its mask rules it out.
pub open spec fn prepared_entry(query: Seq<char>, case: CaseMode, item: Seq<char>, i: int, min_key: u64) -> Option<
    Ranked,
> {
    if screened(query, item) {
        None
    } else {
        entry_of(
            pattern_score(query, case, utf32_string_units(item)),
            max_key_of(query, case),
            item,
            i,
            min_key,
        )
    }
}

/// The entries of the candidates that match, in candidate order.
pub open spec fn scan_hits(
    query: Seq<char>,
    case: CaseMode,
    items: Seq<Seq<char>>,
    cands: Seq<u32>,
    min_key: u64,
) -> Seq<Ranked>
    decreases cands.len(),
{
    if cands.len() == 0 {
        seq![]
    } else {
        let prev = scan_hits(query, case, items, cands.drop_last(), min_key);
        let i = cands.last();
        match prepared_entry(query, case, items[i as int], i as int, min_key) {
            Some(h) => prev.push(h),
            None => prev,
        }
    }
}

/// The entries of all candidates of a search whose clamped score reaches
/// `min_key`, in index order.
pub open spec fn index_hits(
    items: Seq<Seq<char>>,
    last_query: Seq<char>,
    last: Seq<u32>,
    last_case: CaseMode,
    query: Seq<char>,
    case: CaseMode,
    min_key: u64,
) -> Seq<Ranked> {
    scan_hits(
        query,
        case,
        items,
        ascending(search_candidates(items, last_query, last, last_case, query, case)),
        min_key,
    )
}

/// The indices a search keeps for the next one: those of all its matches,
/// whatever their score, when fewer than half of the `n` items matched.
pub open spec fn kept_indices(hits: Seq<Ranked>, n: nat) -> Seq<u32> {
    if n > 0 && hits.len() < n / 2 {
        hits.map_values(|h: Ranked| h.index)
    } else {
        seq![]
    }
}

/// The candidate list a scan walks: the given one, or every index.
pub open spec fn cand_seq(cands: Option<Seq<u32>>, n: nat) -> Seq<u32> {
    match cands {
        Some(v) => v,
        None => Seq::new(n, |i: int| i as u32),
    }
}

/// The view of an optional index list.
pub open spec fn opt_view(cands: Option<Vec<u32>>) -> Option<Seq<u32>> {
    match cands {
        Some(v) => Some(v@),
        None => None,
    }
}

proof fn lemma_scan_hits_entry(
    query: Seq<char>,
    case: CaseMode,
    items: Seq<Seq<char>>,
    cands: Seq<u32>,
    min_key: u64,
    h: Ranked,
)
    requires
        scan_hits(query, case, items, cands, min_key).contains(h),
        forall|k: int| 0 <= k < cands.len() ==> (#[trigger] cands[k]) < items.len(),
    ensures
        h.index < items.len(),
        h.byte_len == byte_len(items[h.index as int]),
    decreases cands.len(),
{
    if cands.len() > 0 {
        let prev = scan_hits(query, case, items, cands.drop_last(), min_key);
        if prev.contains(h) {
            lemma_scan_hits_entry(query, case, items, cands.drop_last(), min_key, h);
        } else {
            assert(cands[cands.len() - 1] < items.len());
        }
    }
}

/// Core state of a persistent fuzzy search index: the items, their
/// character masks, a bigram index over them, a matcher, and the cache of
/// the last search (its query, its case mode and the indices that matched
/// it).
pub struct FuzzyIndexCore {
    items: Vec<String>,
    char_masks: Vec<u64>,
    bigram_index: BigramIndex,
    matcher: DefaultMatcher,
    last_query: String,
    last_case: CaseMode,
    last_matching_indices: Vec<u32>,
}

impl FuzzyIndexCore {
    /// The character sequences of the items, by index.
    pub closed spec fn items_view(&self) -> Seq<Seq<char>> {
        strings_view(self.items@)
    }

    /// The query of the last search, or empty when there is none to reuse.
    pub closed spec fn cached_query(&self) -> Seq<char> {
        self.last_query@
    }

    /// The case mode of the last search.
    pub closed spec fn cached_case(&self) -> CaseMode {
        self.last_case
    }

    /// The indices that matched the last search, when they are kept.
    pub closed spec fn cached_indices(&self) -> Seq<u32> {
        self.last_matching_indices@
    }

    /// The masks and the bigram index agree with the items, and the cached
    /// indices are increasing indices of items.
    pub closed spec fn wf(&self) -> bool {
        &&& self.items@.len() <= u32::MAX
        &&& self.char_masks@.len() == self.items@.len()
        &&& forall|i: int|
            0 <= i < self.items@.len() ==> #[trigger] self.char_masks@[i] == char_mask_spec(
                self.items@[i]@,
            )
        &&& self.bigram_index.wf()
        &&& self.bigram_index@ == strings_view(self.items@)
        &&& strictly_increasing_u32(self.last_matching_indices@)
        &&& forall|k: int|
            0 <= k < self.last_matching_indices@.len() ==> #[trigger] self.last_matching_indices@[k]
                < self.items@.len()
    }

    fn masks_of(items: &Vec<String>) -> (r: Vec<u64>)
        ensures
            r@.len() == items@.len(),
            forall|i: int| 0 <= i < items@.len() ==> #[trigger] r@[i] == char_mask_spec(items@[i]@),
    {
        let mut r: Vec<u64> = Vec::new();
        let mut i: usize = 0;
        while i < items.len()
            invariant
                i <= items.len(),
                r@.len() == i,
                forall|k: int| 0 <= k < i ==> #[trigger] r@[k] == char_mask_spec(items@[k]@),
            decreases items.len() - i,
        {
            r.push(compute_char_mask(items[i].as_str()));
            i = i + 1;
        }
        r
    }

    /// Create an index over `items`, with an empty cache.
    pub fn new(items: Vec<String>) -> (r: Self)
        requires
            items@.len() <= u32::MAX,
        ensures
            r.wf(),
            r.items_view() == strings_view(items@),
            r.cached_query().len() == 0,
            r.cached_indices().len() == 0,
    {
        let char_masks = Self::masks_of(&items);
        let bigram_index = BigramIndex::new(items.as_slice());
        FuzzyIndexCore {
            items,
            char_masks,
            bigram_index,
            matcher: DefaultMatcher::new(),
            last_query: String::new(),
            last_case: CaseMode::Smart,
            last_matching_indices: Vec::new(),
        }
    }

    /// The number of items in the index.
    pub fn size(&self) -> (r: u32)
        requires
            self.wf(),
        ensures
            r as int == self.items_view().len(),
    {
        self.items.len() as u32
    }

    /// The items, in index order.
    pub fn items(&self) -> (r: &[String])
        ensures
            strings_view(r@) == self.items_view(),
    {
        self.items.as_slice()
    }

    fn invalidate_cache(&mut self)
        ensures
            final(self).items == old(self).items,
            final(self).char_masks == old(self).char_masks,
            final(self).bigram_index == old(self).bigram_index,
            final(self).last_query@.len() == 0,
            final(self).last_matching_indices@.len() == 0,
    {
        self.last_query = String::new();
        self.last_matching_indices = Vec::new();
    }

    /// Add one item at the end of the index. The cache is cleared.
    pub fn add(&mut self, item: String)
        requires
            old(self).wf(),
            old(self).items_view().len() < u32::MAX,
        ensures
            final(self).wf(),
            final(self).items_view() == old(self).items_view().push(item@),
            final(self).cached_query().len() == 0,
            final(self).cached_indices().len() == 0,
    {
        let index = self.items.len() as u32;
        self.char_masks.push(compute_char_mask(item.as_str()));
        self.bigram_index.add_item(index, item.as_str());
        self.items.push(item);
        self.invalidate_cache();
        proof {
            assert(strings_view(self.items@) =~= strings_view(old(self).items@).push(item@));
        }
    }

    /// Add several items at the end of the index, in order. The cache is
    /// cleared.
    pub fn add_many(&mut self, items: Vec<String>)
        requires
            old(self).wf(),
            old(self).items_view().len() + items@.len() <= u32::MAX,
        ensures
            final(self).wf(),
            final(self).items_view() == old(self).items_view() + strings_view(items@),
            final(self).cached_query().len() == 0,
            final(self).cached_indices().len() == 0,
    {
        let base = self.items.len();
        let mut i: usize = 0;
        while i < items.len()
            invariant
                i <= items.len(),
                base == old(self).items@.len(),
                base + items@.len() <= u32::MAX,
                self.wf(),
                self.items@ == old(self).items@ + items@.take(i as int),
            decreases items.len() - i,
        {
            let item = items[i].clone();
            let index = (base + i) as u32;
            self.char_masks.push(compute_char_mask(item.as_str()));
            self.bigram_index.add_item(index, item.as_str());
            self.items.push(item);
            proof {
                assert(items@.take(i + 1) == items@.take(i as int).push(items@[i as int]));
                assert(strings_view(self.items@) =~= strings_view(old(self).items@ + items@.take(
                    i as int,
                )).push(items@[i as int]@));
            }
            i = i + 1;
        }
        self.invalidate_cache();
        proof {
            assert(items@.take(items.len() as int) == items@);
            assert(strings_view(self.items@) =~= strings_view(old(self).items@) + strings_view(
                items@,
            ));
        }
    }

    /// Remove the item at `index` by moving the last item into its place
    /// (swap-remove). Returns `false`, changing nothing, when `index` is out
    /// of range; otherwise the cache is cleared.
    pub fn remove(&mut self, index: u32) -> (r: bool)
        requires
            old(self).wf(),
        ensures
            final(self).wf(),
            r == (index < old(self).items_view().len()),
            r ==> final(self).items_view() == swap_removed(old(self).items_view(), index as int),
            r ==> final(self).cached_query().len() == 0 && final(self).cached_indices().len() == 0,
            !r ==> final(self).items_view() == old(self).items_view() && final(self).cached_query()
                == old(self).cached_query() && final(self).cached_indices()
                == old(self).cached_indices(),
    {
        let idx = index as usize;
        if idx < self.items.len() {
            let last_index = (self.items.len() - 1) as u32;
            let removed_item = self.items[idx].clone();
            if idx != last_index as usize {
                let last_item = self.items[last_index as usize].clone();
                self.bigram_index.remove_item(
                    index,
                    last_index,
                    removed_item.as_str(),
                    Some(last_item.as_str()),
                );
            } else {
                self.bigram_index.remove_item(index, last_index, removed_item.as_str(), None);
            }
            self.items.swap_remove(idx);
            self.char_masks.swap_remove(idx);
            self.invalidate_cache();
            proof {
                let ov = strings_view(old(self).items@);
                assert(strings_view(self.items@) =~= swap_removed(ov, index as int));
                assert forall|i: int|
                    0 <= i < self.items@.len() implies #[trigger] self.char_masks@[i]
                    == char_mask_spec(self.items@[i]@) by {
                    if i == idx {
                        assert(self.items@[i] == old(self).items@[last_index as int]);
                        assert(self.char_masks@[i] == old(self).char_masks@[last_index as int]);
                    } else {
                        assert(self.items@[i] == old(self).items@[i]);
                        assert(self.char_masks@[i] == old(self).char_masks@[i]);
                    }
                }
            }
            true
        } else {
            false
        }
    }

    /// Drop all items. The index is empty afterwards and the cache cleared.
    pub fn destroy(&mut self)
        requires
            old(self).wf(),
        ensures
            final(self).wf(),
            final(self).items_view().len() == 0,
            final(self).cached_query().len() == 0,
            final(self).cached_indices().len() == 0,
    {
        self.items = Vec::new();
        self.char_masks = Vec::new();
        self.bigram_index.clear();
        self.invalidate_cache();
        proof {
            assert(strings_view(self.items@) =~= Seq::<Seq<char>>::empty());
        }
    }
}

fn contains_char(v: &Vec<char>, c: char) -> (r: bool)
    ensures
        r == v@.contains(c),
{
    let mut i: usize = 0;
    while i < v.len()
        invariant
            i <= v.len(),
            forall|k: int| 0 <= k < i ==> v@[k] != c,
        decreases v.len() - i,
    {
        if v[i] == c {
            return true;
        }
        i = i + 1;
    }
    false
}

/// `p` is a prefix of `s` (given `p` is no longer than `s`).
fn is_prefix(p: &Vec<char>, s: &Vec<char>) -> (r: bool)
    requires
        p.len() <= s.len(),
    ensures
        r == (s@.subrange(0, p@.len() as int) == p@),
{
    let mut i: usize = 0;
    while i < p.len()
        invariant
            i <= p.len() <= s.len(),
            forall|k: int| 0 <= k < i ==> p@[k] == s@[k],
        decreases p.len() - i,
    {
        if p[i] != s[i] {
            proof {
                assert(s@.subrange(0, p@.len() as int)[i as int] != p@[i as int]);
            }
            return false;
        }
        i = i + 1;
    }
    proof {
        assert(s@.subrange(0, p@.len() as int) =~= p@);
    }
    true
}

fn clone_indices(v: &Vec<u32>) -> (r: Vec<u32>)
    ensures
        r@ == v@,
{
    let mut r: Vec<u32> = Vec::new();
    let mut i: usize = 0;
    while i < v.len()
        invariant
            i <= v.len(),
            r@ == v@.take(i as int),
        decreases v.len() - i,
    {
        r.push(v[i]);
        i = i + 1;
    }
    r
}

impl FuzzyIndexCore {
    fn cached_candidates(&self, query: &str, case: CaseMode) -> (r: Option<Vec<u32>>)
        ensures
            match cache_candidates(self.last_query@, self.last_matching_indices@, self.last_case, query@, case) {
                Some(v) => (r matches Some(w) && w@ == v),
                None => r is None,
            },
    {
        let q = chars_of(query);
        let l = chars_of(self.last_query.as_str());
        if l.len() > 0 && self.last_matching_indices.len() > 0 && l.len() < q.len() && self.last_case == case {
            if is_prefix(&l, &q) && !contains_char(&q, '!') && !contains_char(&l, '!') && !contains_char(
                &l,
                '$',
            ) && !contains_char(&l, '\\') {
                return Some(clone_indices(&self.last_matching_indices));
            }
        }
        None
    }

    fn bigram_candidates(&self, query: &str) -> (r: Option<Vec<u32>>)
        requires
            self.wf(),
        ensures
            match bigram_filter(self.items_view(), query@) {
                Some(c) => (r matches Some(w) && strictly_increasing_u32(w@) && w@.to_set() == c),
                None => r is None,
            },
    {
        if self.items.len() < BIGRAM_THRESHOLD {
            return None;
        }
        let qb = extract_query_bigrams(query);
        let r = self.bigram_index.candidates(qb.as_slice());
        proof {
            let items = self.items_view();
            let qs = query_bigram_set(query@);
            assert(candidate_set(items, qb@) =~= Set::new(
                |x: u32| x < items.len() && qs.subset_of(bigram_set(items[x as int])),
            )) by {
                assert forall|x: u32| candidate_set(items, qb@).contains(x) implies qs.subset_of(
                    bigram_set(items[x as int]),
                ) by {
                    assert forall|k: u16| qs.contains(k) implies bigram_set(items[x as int]).contains(k) by {
                        assert(qb@.to_set().contains(k));
                        let j = choose|j: int| 0 <= j < qb@.len() && qb@[j] == k;
                    }
                }
                assert forall|x: u32|
                    x < items.len() && qs.subset_of(bigram_set(items[x as int])) implies candidate_set(
                    items,
                    qb@,
                ).contains(x) by {
                    assert forall|j: int| 0 <= j < qb@.len() implies bigram_set(items[x as int]).contains(
                        #[trigger] qb@[j],
                    ) by {
                        assert(qb@.to_set().contains(qb@[j]));
                    }
                }
            }
            if qb@.len() == 0 {
                assert(qs =~= Set::<u16>::empty());
            } else {
                assert(qs.contains(qb@[0]));
            }
        }
        r
    }

    /// The candidates of a search for `query`: the cached indices and the
    /// bigram filter intersected where both apply, either one alone, or
    /// none (every item).
    fn candidates(&self, query: &str, case: CaseMode) -> (r: Option<Vec<u32>>)
        requires
            self.wf(),
        ensures
            strictly_increasing_u32(cand_seq(opt_view(r), self.items@.len())),
            ascending(
                search_candidates(
                    self.items_view(),
                    self.last_query@,
                    self.last_matching_indices@,
                    self.last_case,
                    query@,
                    case,
                ),
            ) == cand_seq(opt_view(r), self.items@.len()),
            r matches Some(v) ==> forall|k: int| 0 <= k < v@.len() ==> #[trigger] v@[k] < self.items@.len(),
    {
        let ghost items = self.items_view();
        let ghost n = self.items@.len();
        let cache = self.cached_candidates(query, case);
        let bigram = self.bigram_candidates(query);
        let cands: Option<Vec<u32>> = match (cache, bigram) {
            (Some(a), Some(b)) => Some(intersect_strict(&a, &b)),
            (Some(a), None) => Some(a),
            (None, Some(b)) => Some(b),
            (None, None) => None,
        };
        let ghost cset = search_candidates(
            items,
            self.last_query@,
            self.last_matching_indices@,
            self.last_case,
            query@,
            case,
        );
        proof {
            let cs = cand_seq(opt_view(cands), n);
            assert(strictly_increasing_u32(cs) && cs.to_set() == cset) by {
                if cands is None {
                    assert(cs.to_set() =~= cset) by {
                        assert forall|x: u32| cset.contains(x) implies cs.to_set().contains(x) by {
                            assert(cs[x as int] == x);
                        }
                    }
                }
            }
            lemma_ascending_of(cs);
            assert forall|k: int| 0 <= k < cs.len() implies #[trigger] cs[k] < n by {
                assert(cs.to_set().contains(cs[k]));
                if let Some(a) = cache_candidates(
                    self.last_query@,
                    self.last_matching_indices@,
                    self.last_case,
                    query@,
                    case,
                ) {
                    if cset.contains(cs[k]) && a.to_set().contains(cs[k]) {
                        let p = choose|p: int| 0 <= p < a.len() && a[p] == cs[k];
                        assert(self.last_matching_indices@[p] < n);
                    }
                }
            }
        }
        cands
    }
}

/// The items a search over prepared items looks at: the items with their
/// character masks, and the candidate indices to which it is narrowed, if
/// any.
pub struct PrecomputedSearch<'a> {
    pub items: &'a [String],
    pub char_masks: &'a [u64],
    pub candidate_indices: Option<&'a [u32]>,
}

impl<'a> PrecomputedSearch<'a> {
    /// The candidate indices, when the search is narrowed.
    pub open spec fn cands(&self) -> Option<Seq<u32>> {
        match self.candidate_indices {
            Some(v) => Some(v@),
            None => None,
        }
    }

    /// The masks are those of the items, and the candidates are increasing
    /// indices of items.
    pub open spec fn wf(&self) -> bool {
        &&& self.items@.len() <= u32::MAX
        &&& self.char_masks@.len() == self.items@.len()
        &&& forall|i: int|
            0 <= i < self.items@.len() ==> #[trigger] self.char_masks@[i] == char_mask_spec(
                self.items@[i]@,
            )
        &&& match self.candidate_indices {
            Some(v) => strictly_increasing_u32(v@) && forall|k: int|
                0 <= k < v@.len() ==> #[trigger] v@[k] < self.items@.len(),
            None => true,
        }
    }

    /// The indices the search scans, in order.
    pub open spec fn scanned(&self) -> Seq<u32> {
        cand_seq(self.cands(), self.items@.len())
    }
}

/// The outcome of a search over prepared items: the ranked hits, and the
/// indices of every match (whatever its score) when fewer than half of the
/// items matched, else none.
pub struct PrecomputedSearchResult {
    pub results: Vec<SearchHit>,
    pub all_matching_indices: Vec<u32>,
}

/// Like [`PrecomputedSearchResult`], with hits by index only.
pub struct PrecomputedIndexSearchResult {
    pub results: Vec<IndexHit>,
    pub all_matching_indices: Vec<u32>,
}

/// Score the scanned items: every match, and the matches whose clamped
/// score reaches `min_key`, both in scan order.
fn scan_precomputed(
    ctx: &PrecomputedSearch,
    m: &mut DefaultMatcher,
    c: &CompiledQuery,
    max: u32,
    qmask: u64,
    min_key: u64,
) -> (r: (Vec<Ranked>, Vec<Ranked>))
    requires
        ctx.wf(),
        max == max_key_of(c.query(), c.case_mode()),
        qmask == query_mask_spec(c.query()),
    ensures
        r.0@ == scan_hits(c.query(), c.case_mode(), strings_view(ctx.items@), ctx.scanned(), 0),
        r.1@ == scan_hits(c.query(), c.case_mode(), strings_view(ctx.items@), ctx.scanned(), min_key),
        forall|i: int, j: int| 0 <= i < j < r.0@.len() ==> (#[trigger] r.0@[i]).index < (#[trigger] r.0@[j]).index,
        forall|k: int| 0 <= k < r.0@.len() ==> (#[trigger] r.0@[k]).index < ctx.items@.len(),
        forall|i: int, j: int| 0 <= i < j < r.1@.len() ==> (#[trigger] r.1@[i]).index < (#[trigger] r.1@[j]).index,
        forall|k: int| 0 <= k < r.1@.len() ==> (#[trigger] r.1@[k]).index < ctx.items@.len(),
{
    let items = ctx.items;
    let masks = ctx.char_masks;
    let ghost texts = strings_view(items@);
    let ghost cs = ctx.scanned();
    let len: usize = match ctx.candidate_indices {
        Some(v) => v.len(),
        None => items.len(),
    };
    let mut all: Vec<Ranked> = Vec::new();
    let mut hits: Vec<Ranked> = Vec::new();
    let mut i: usize = 0;
    while i < len
        invariant
            i <= len == cs.len(),
            ctx.wf(),
            items@ == ctx.items@,
            masks@ == ctx.char_masks@,
            texts == strings_view(items@),
            cs == ctx.scanned(),
            max == max_key_of(c.query(), c.case_mode()),
            qmask == query_mask_spec(c.query()),
            forall|a: int, b: int| 0 <= a < b < cs.len() ==> cs[a] < cs[b],
            forall|k: int| 0 <= k < cs.len() ==> #[trigger] cs[k] < items@.len(),
            all@ == scan_hits(c.query(), c.case_mode(), texts, cs.take(i as int), 0),
            hits@ == scan_hits(c.query(), c.case_mode(), texts, cs.take(i as int), min_key),
            forall|a: int, b: int| 0 <= a < b < all@.len() ==> (#[trigger] all@[a]).index < (#[trigger] all@[b]).index,
            forall|k: int| 0 <= k < all@.len() ==> i > 0 && (#[trigger] all@[k]).index <= cs[i - 1],
            forall|k: int| 0 <= k < all@.len() ==> (#[trigger] all@[k]).index < items@.len(),
            forall|a: int, b: int| 0 <= a < b < hits@.len() ==> (#[trigger] hits@[a]).index < (#[trigger] hits@[b]).index,
            forall|k: int| 0 <= k < hits@.len() ==> i > 0 && (#[trigger] hits@[k]).index <= cs[i - 1],
            forall|k: int| 0 <= k < hits@.len() ==> (#[trigger] hits@[k]).index < items@.len(),
        decreases len - i,
    {
        let idx: u32 = match ctx.candidate_indices {
            Some(v) => v[i],
            None => i as u32,
        };
        proof {
            assert(cs[i as int] == idx);
            assert(cs.take(i + 1).drop_last() == cs.take(i as int));
            assert(cs.take(i + 1).last() == idx);
        }
        let item = items[idx as usize].as_str();
        let mask = masks[idx as usize];
        if !(qmask != 0 && (mask & qmask) != qmask) {
            let score = score_prepared(c, item, m);
            match score {
                Some(raw) => {
                    let key = if raw <= max {
                        raw
                    } else {
                        max
                    };
                    all.push(Ranked { key, byte_len: item.len(), index: idx });
                    if key as u64 >= min_key {
                        hits.push(Ranked { key, byte_len: item.len(), index: idx });
                    }
                },
                None => {},
            }
        }
        i = i + 1;
    }
    proof {
        assert(cs.take(len as int) == cs);
    }
    (all, hits)
}

/// Score the scanned items for `query` and return the best `max_results`
/// entries reaching `min_key`, the indices to keep for the next search,
/// and the compiled query.
fn rank_precomputed(
    query: &str,
    ctx: &PrecomputedSearch,
    m: &mut DefaultMatcher,
    max_results: Option<u32>,
    min_key: u64,
    case: CaseMode,
) -> (r: (Vec<Ranked>, Vec<u32>, Option<CompiledQuery>))
    requires
        ctx.wf(),
    ensures
        strictly_increasing_u32(r.1@),
        forall|k: int| 0 <= k < r.1@.len() ==> #[trigger] r.1@[k] < ctx.items@.len(),
        blank(query@) || ctx.items@.len() == 0 ==> r.0@.len() == 0 && r.1@.len() == 0 && r.2 is None,
        !blank(query@) && ctx.items@.len() > 0 ==> {
            let items = strings_view(ctx.items@);
            &&& top_k(r.0@, scan_hits(query@, case, items, ctx.scanned(), min_key), max_results)
            &&& r.1@ == kept_indices(scan_hits(query@, case, items, ctx.scanned(), 0), items.len())
            &&& r.2 matches Some(c) && c.query() == query@ && c.case_mode() == case
            &&& forall|k: int| 0 <= k < r.0@.len() ==> (#[trigger] r.0@[k]).index < items.len()
                && r.0@[k].byte_len == byte_len(items[r.0@[k].index as int])
        },
{
    if is_blank(query) || ctx.items.len() == 0 {
        return (Vec::new(), Vec::new(), None);
    }
    let ghost items = strings_view(ctx.items@);
    let ghost n = ctx.items@.len();
    let c = compile_query(query, case);
    let max = compute_max_score(&c, m);
    let qmask = compute_query_mask(query);
    let (all, hits) = scan_precomputed(ctx, m, &c, max, qmask, min_key);
    let n_items = ctx.items.len();
    let mut kept: Vec<u32> = Vec::new();
    if all.len() < n_items / 2 {
        let mut k: usize = 0;
        while k < all.len()
            invariant
                k <= all.len(),
                kept@ == all@.take(k as int).map_values(|h: Ranked| h.index),
            decreases all.len() - k,
        {
            kept.push(all[k].index);
            proof {
                assert(all@.take(k + 1).map_values(|h: Ranked| h.index) == all@.take(k as int).map_values(
                    |h: Ranked| h.index,
                ).push(all@[k as int].index));
            }
            k = k + 1;
        }
        proof {
            assert(all@.take(all.len() as int) == all@);
        }
    }
    let top = rank_top_k(&hits, max_results);
    proof {
        assert forall|k: int| 0 <= k < top@.len() implies (#[trigger] top@[k]).index < n && top@[k].byte_len
            == byte_len(items[top@[k].index as int]) by {
            assert(hits@.contains(top@[k]));
            lemma_scan_hits_entry(query@, case, items, ctx.scanned(), min_key, top@[k]);
        }
    }
    (top, kept, Some(c))
}

/// Search prepared items for `query`, scanning only the candidate indices
/// when there are any: matches whose clamped score reaches `min_key` are
/// ordered best first and cut to `max_results`, and the indices of every
/// match are returned too when fewer than half of the items matched. A
/// blank query matches nothing.
pub fn search_over_precomputed(
    query: &str,
    ctx: &PrecomputedSearch,
    matcher: &mut DefaultMatcher,
    max_results: Option<u32>,
    min_key: u64,
    include_positions: bool,
    case: CaseMode,
) -> (r: PrecomputedSearchResult)
    requires
        ctx.wf(),
    ensures
        strictly_increasing_u32(r.all_matching_indices@),
        forall|k: int| 0 <= k < r.all_matching_indices@.len() ==> #[trigger] r.all_matching_indices@[k] < ctx.items@.len(),
        blank(query@) || ctx.items@.len() == 0 ==> r.results@.len() == 0 && r.all_matching_indices@.len() == 0,
        !blank(query@) && ctx.items@.len() > 0 ==> {
            let items = strings_view(ctx.items@);
            &&& top_k(
                r.results@.map_values(|h: SearchHit| hit_entry(h, items)),
                scan_hits(query@, case, items, ctx.scanned(), min_key),
                max_results,
            )
            &&& r.all_matching_indices@ == kept_indices(scan_hits(query@, case, items, ctx.scanned(), 0), items.len())
            &&& forall|i: int|
                0 <= i < r.results@.len() ==> {
                    let h = #[trigger] r.results@[i];
                    &&& h.index < items.len()
                    &&& h.item@ == items[h.index as int]
                    &&& positions_ok(
                        h.positions@,
                        h.match_type,
                        pattern_indices(query@, case, utf32_string_units(items[h.index as int])),
                        items[h.index as int],
                        include_positions,
                        items[h.index as int].len(),
                    )
                }
        },
{
    let ghost items = strings_view(ctx.items@);
    let (top, kept, compiled) = rank_precomputed(query, ctx, matcher, max_results, min_key, case);
    let mut out: Vec<SearchHit> = Vec::new();
    match compiled {
        None => {},
        Some(c) => {
            let mut j: usize = 0;
            while j < top.len()
                invariant
                    j <= top.len(),
                    ctx.wf(),
                    items == strings_view(ctx.items@),
                    c.query() == query@,
                    c.case_mode() == case,
                    forall|k: int| 0 <= k < top@.len() ==> (#[trigger] top@[k]).index < items.len()
                        && top@[k].byte_len == byte_len(items[top@[k].index as int]),
                    out.len() == j,
                    forall|k: int| 0 <= k < j ==> hit_entry(#[trigger] out@[k], items) == top@[k],
                    forall|k: int|
                        0 <= k < j ==> {
                            let h = #[trigger] out@[k];
                            &&& h.index < items.len()
                            &&& h.item@ == items[h.index as int]
                            &&& positions_ok(
                                h.positions@,
                                h.match_type,
                                pattern_indices(query@, case, utf32_string_units(items[h.index as int])),
                                items[h.index as int],
                                include_positions,
                                items[h.index as int].len(),
                            )
                        },
                decreases top.len() - j,
            {
                let t = top[j];
                let idx = t.index as usize;
                let text = ctx.items[idx].clone();
                let (positions, match_type) = if include_positions {
                    let raw = indices_prepared(&c, ctx.items[idx].as_str(), matcher);
                    positions_of(raw, ctx.items[idx].as_str(), Ghost(ctx.items@[idx as int]@.len()))
                } else {
                    (Vec::new(), None)
                };
                out.push(SearchHit { item: text, key: t.key, index: t.index, positions, match_type });
                j = j + 1;
            }
        },
    }
    proof {
        if !blank(query@) && items.len() > 0 {
            assert(out@.map_values(|h: SearchHit| hit_entry(h, items)) == top@);
        }
    }
    PrecomputedSearchResult { results: out, all_matching_indices: kept }
}

/// Like [`search_over_precomputed`], with hits by index only.
pub fn search_over_precomputed_indices(
    query: &str,
    ctx: &PrecomputedSearch,
    matcher: &mut DefaultMatcher,
    max_results: Option<u32>,
    min_key: u64,
    include_positions: bool,
    case: CaseMode,
) -> (r: PrecomputedIndexSearchResult)
    requires
        ctx.wf(),
    ensures
        strictly_increasing_u32(r.all_matching_indices@),
        forall|k: int| 0 <= k < r.all_matching_indices@.len() ==> #[trigger] r.all_matching_indices@[k] < ctx.items@.len(),
        blank(query@) || ctx.items@.len() == 0 ==> r.results@.len() == 0 && r.all_matching_indices@.len() == 0,
        !blank(query@) && ctx.items@.len() > 0 ==> {
            let items = strings_view(ctx.items@);
            &&& top_k(
                r.results@.map_values(|h: IndexHit| index_hit_entry(h, items)),
                scan_hits(query@, case, items, ctx.scanned(), min_key),
                max_results,
            )
            &&& r.all_matching_indices@ == kept_indices(scan_hits(query@, case, items, ctx.scanned(), 0), items.len())
            &&& forall|i: int|
                0 <= i < r.results@.len() ==> {
                    let h = #[trigger] r.results@[i];
                    &&& h.index < items.len()
                    &&& positions_ok(
                        h.positions@,
                        h.match_type,
                        pattern_indices(query@, case, utf32_string_units(items[h.index as int])),
                        items[h.index as int],
                        include_positions,
                        items[h.index as int].len(),
                    )
                }
        },
{
    let ghost items = strings_view(ctx.items@);
    let (top, kept, compiled) = rank_precomputed(query, ctx, matcher, max_results, min_key, case);
    let mut out: Vec<IndexHit> = Vec::new();
    match compiled {
        None => {},
        Some(c) => {
            let mut j: usize = 0;
            while j < top.len()
                invariant
                    j <= top.len(),
                    ctx.wf(),
                    items == strings_view(ctx.items@),
                    c.query() == query@,
                    c.case_mode() == case,
                    forall|k: int| 0 <= k < top@.len() ==> (#[trigger] top@[k]).index < items.len()
                        && top@[k].byte_len == byte_len(items[top@[k].index as int]),
                    out.len() == j,
                    forall|k: int| 0 <= k < j ==> index_hit_entry(#[trigger] out@[k], items) == top@[k],
                    forall|k: int|
                        0 <= k < j ==> {
                            let h = #[trigger] out@[k];
                            &&& h.index < items.len()
                            &&& positions_ok(
                                h.positions@,
                                h.match_type,
                                pattern_indices(query@, case, utf32_string_units(items[h.index as int])),
                                items[h.index as int],
                                include_positions,
                                items[h.index as int].len(),
                            )
                        },
                decreases top.len() - j,
            {
                let t = top[j];
                let idx = t.index as usize;
                let (positions, match_type) = if include_positions {
                    let raw = indices_prepared(&c, ctx.items[idx].as_str(), matcher);
                    positions_of(raw, ctx.items[idx].as_str(), Ghost(ctx.items@[idx as int]@.len()))
                } else {
                    (Vec::new(), None)
                };
                out.push(IndexHit { index: t.index, key: t.key, positions, match_type });
                j = j + 1;
            }
        },
    }
    proof {
        if !blank(query@) && items.len() > 0 {
            assert(out@.map_values(|h: IndexHit| index_hit_entry(h, items)) == top@);
        }
    }
    PrecomputedIndexSearchResult { results: out, all_matching_indices: kept }
}

impl FuzzyIndexCore {
    /// Search the index for `query`, narrowing the candidates through the
    /// cache of the last search (when this query extends it in the same case
    /// mode) and, for large indices, the bigram index. Matches whose clamped
    /// score reaches `min_key` are ordered best first and cut to
    /// `max_results`; a blank query matches nothing. The cache then holds
    /// this query, its case mode and, when fewer than half of the items
    /// matched, the indices of every match, whatever its score, so that a
    /// threshold does not narrow later searches.
    pub fn search_impl(
        &mut self,
        query: &str,
        max_results: Option<u32>,
        min_key: u64,
        include_positions: bool,
        case: CaseMode,
    ) -> (r: Vec<SearchHit>)
        requires
            old(self).wf(),
        ensures
            final(self).wf(),
            final(self).items_view() == old(self).items_view(),
            final(self).cached_query() == query@,
            final(self).cached_case() == case,
            blank(query@) || old(self).items_view().len() == 0 ==> r.len() == 0
                && final(self).cached_indices().len() == 0,
            !blank(query@) && old(self).items_view().len() > 0 ==> {
                let items = old(self).items_view();
                let hits = |m: u64|
                    index_hits(
                        items,
                        old(self).cached_query(),
                        old(self).cached_indices(),
                        old(self).cached_case(),
                        query@,
                        case,
                        m,
                    );
                &&& top_k(r@.map_values(|h: SearchHit| hit_entry(h, items)), hits(min_key), max_results)
                &&& final(self).cached_indices() == kept_indices(hits(0), items.len())
                &&& forall|i: int|
                    0 <= i < r.len() ==> {
                        let h = #[trigger] r@[i];
                        &&& h.index < items.len()
                        &&& h.item@ == items[h.index as int]
                        &&& positions_ok(
                            h.positions@,
                            h.match_type,
                            pattern_indices(query@, case, utf32_string_units(items[h.index as int])),
                            items[h.index as int],
                            include_positions,
                            items[h.index as int].len(),
                        )
                    }
            },
    {
        let cands = self.candidates(query, case);
        let outcome = {
            let ctx = PrecomputedSearch {
                items: self.items.as_slice(),
                char_masks: self.char_masks.as_slice(),
                candidate_indices: match &cands {
                    Some(v) => Some(v.as_slice()),
                    None => None,
                },
            };
            assert(ctx.scanned() == cand_seq(opt_view(cands), self.items@.len()));
            search_over_precomputed(query, &ctx, &mut self.matcher, max_results, min_key, include_positions, case)
        };
        self.last_query = query.to_owned();
        self.last_case = case;
        self.last_matching_indices = outcome.all_matching_indices;
        outcome.results
    }

    /// Like [`FuzzyIndexCore::search_impl`], returning indices without the
    /// item texts.
    pub fn search_indices_impl(
        &mut self,
        query: &str,
        max_results: Option<u32>,
        min_key: u64,
        include_positions: bool,
        case: CaseMode,
    ) -> (r: Vec<IndexHit>)
        requires
            old(self).wf(),
        ensures
            final(self).wf(),
            final(self).items_view() == old(self).items_view(),
            final(self).cached_query() == query@,
            final(self).cached_case() == case,
            blank(query@) || old(self).items_view().len() == 0 ==> r.len() == 0
                && final(self).cached_indices().len() == 0,
            !blank(query@) && old(self).items_view().len() > 0 ==> {
                let items = old(self).items_view();
                let hits = |m: u64|
                    index_hits(
                        items,
                        old(self).cached_query(),
                        old(self).cached_indices(),
                        old(self).cached_case(),
                        query@,
                        case,
                        m,
                    );
                &&& top_k(r@.map_values(|h: IndexHit| index_hit_entry(h, items)), hits(min_key), max_results)
                &&& final(self).cached_indices() == kept_indices(hits(0), items.len())
                &&& forall|i: int|
                    0 <= i < r.len() ==> {
                        let h = #[trigger] r@[i];
                        &&& h.index < items.len()
                        &&& positions_ok(
                            h.positions@,
                            h.match_type,
                            pattern_indices(query@, case, utf32_string_units(items[h.index as int])),
                            items[h.index as int],
                            include_positions,
                            items[h.index as int].len(),
                        )
                    }
            },
    {
        let cands = self.candidates(query, case);
        let outcome = {
            let ctx = PrecomputedSearch {
                items: self.items.as_slice(),
                char_masks: self.char_masks.as_slice(),
                candidate_indices: match &cands {
                    Some(v) => Some(v.as_slice()),
                    None => None,
                },
            };
            assert(ctx.scanned() == cand_seq(opt_view(cands), self.items@.len()));
            search_over_precomputed_indices(
                query,
                &ctx,
                &mut self.matcher,
                max_results,
                min_key,
                include_positions,
                case,
            )
        };
        self.last_query = query.to_owned();
        self.last_case = case;
        self.last_matching_indices = outcome.all_matching_indices;
        outcome.results
    }
}

/// The index-only search gives the full search's results without the item
/// texts: two results that rank the same hits, one of each kind, hold the
/// same indices, scores, positions and match types in the same order.
pub proof fn lemma_indices_match_full_search(
    items: Seq<Seq<char>>,
    query: Seq<char>,
    case: CaseMode,
    include_positions: bool,
    all: Seq<Ranked>,
    limit: Option<u32>,
    r1: Seq<SearchHit>,
    r2: Seq<IndexHit>,
)
    requires
        top_k(r1.map_values(|h: SearchHit| hit_entry(h, items)), all, limit),
        top_k(r2.map_values(|h: IndexHit| index_hit_entry(h, items)), all, limit),
        forall|i: int|
            0 <= i < r1.len() ==> positions_ok(
                (#[trigger] r1[i]).positions@,
                r1[i].match_type,
                pattern_indices(query, case, utf32_string_units(items[r1[i].index as int])),
                items[r1[i].index as int],
                include_positions,
                items[r1[i].index as int].len(),
            ),
        forall|i: int|
            0 <= i < r2.len() ==> positions_ok(
                (#[trigger] r2[i]).positions@,
                r2[i].match_type,
                pattern_indices(query, case, utf32_string_units(items[r2[i].index as int])),
                items[r2[i].index as int],
                include_positions,
                items[r2[i].index as int].len(),
            ),
    ensures
        r1.len() == r2.len(),
        forall|i: int|
            0 <= i < r1.len() ==> {
                &&& (#[trigger] r1[i]).index == r2[i].index
                &&& r1[i].key == r2[i].key
                &&& r1[i].positions@ == r2[i].positions@
                &&& r1[i].match_type == r2[i].match_type
            },
{
    let e1 = r1.map_values(|h: SearchHit| hit_entry(h, items));
    let e2 = r2.map_values(|h: IndexHit| index_hit_entry(h, items));
    lemma_top_k_unique(e1, e2, all, limit);
    assert forall|i: int| 0 <= i < r1.len() implies {
        &&& (#[trigger] r1[i]).index == r2[i].index
        &&& r1[i].key == r2[i].key
        &&& r1[i].positions@ == r2[i].positions@
        &&& r1[i].match_type == r2[i].match_type
    } by {
        assert(e1[i] == e2[i]);
        if include_positions {
            lemma_strict_unique(r1[i].positions@, r2[i].positions@);
        } else {
            assert(r1[i].positions@ =~= r2[i].positions@);
        }
    }
}

/// On any state of an index, `search_indices_impl` gives `search_impl`'s
/// results without the item texts: two results that meet the two methods'
/// contracts for the same state and arguments hold the same indices,
/// scores, positions and match types in the same order.
pub proof fn lemma_search_indices_matches_search(
    idx: FuzzyIndexCore,
    query: Seq<char>,
    case: CaseMode,
    min_key: u64,
    limit: Option<u32>,
    include_positions: bool,
    r1: Seq<SearchHit>,
    r2: Seq<IndexHit>,
)
    requires
        blank(query) || idx.items_view().len() == 0 ==> r1.len() == 0 && r2.len() == 0,
        !blank(query) && idx.items_view().len() > 0 ==> {
            let items = idx.items_view();
            let all = index_hits(
                items,
                idx.cached_query(),
                idx.cached_indices(),
                idx.cached_case(),
                query,
                case,
                min_key,
            );
            &&& top_k(r1.map_values(|h: SearchHit| hit_entry(h, items)), all, limit)
            &&& top_k(r2.map_values(|h: IndexHit| index_hit_entry(h, items)), all, limit)
            &&& forall|i: int|
                0 <= i < r1.len() ==> positions_ok(
                    (#[trigger] r1[i]).positions@,
                    r1[i].match_type,
                    pattern_indices(query, case, utf32_string_units(items[r1[i].index as int])),
                    items[r1[i].index as int],
                    include_positions,
                    items[r1[i].index as int].len(),
                )
            &&& forall|i: int|
                0 <= i < r2.len() ==> positions_ok(
                    (#[trigger] r2[i]).positions@,
                    r2[i].match_type,
                    pattern_indices(query, case, utf32_string_units(items[r2[i].index as int])),
                    items[r2[i].index as int],
                    include_positions,
                    items[r2[i].index as int].len(),
                )
        },
    ensures
        r1.len() == r2.len(),
        forall|i: int|
            0 <= i < r1.len() ==> {
                &&& (#[trigger] r1[i]).index == r2[i].index
                &&& r1[i].key == r2[i].key
                &&& r1[i].positions@ == r2[i].positions@
                &&& r1[i].match_type == r2[i].match_type
            },
{
    if !blank(query) && idx.items_view().len() > 0 {
        let items = idx.items_view();
        let all = index_hits(
            items,
            idx.cached_query(),
            idx.cached_indices(),
            idx.cached_case(),
            query,
            case,
            min_key,
        );
        lemma_indices_match_full_search(items, query, case, include_positions, all, limit, r1, r2);
    }
}

/// Scanning the first `k` indices of ASCII items in order finds the
/// standalone search's hits among the first `k` items.
proof fn lemma_scan_all_is_str_hits(
    query: Seq<char>,
    case: CaseMode,
    items: Seq<Seq<char>>,
    min_key: u64,
    k: nat,
)
    requires
        k <= items.len() <= u32::MAX,
        forall|i: int| 0 <= i < items.len() ==> ascii_text(#[trigger] items[i]),
        ascii_text(query),
    ensures
        scan_hits(query, case, items, Seq::new(k, |i: int| i as u32), min_key) == str_hits(
            query,
            case,
            items.take(k as int),
            min_key,
        ),
    decreases k,
{
    if k > 0 {
        let cs = Seq::new(k, |i: int| i as u32);
        assert(cs.drop_last() =~= Seq::new((k - 1) as nat, |i: int| i as u32));
        assert(items.take(k as int).drop_last() =~= items.take(k - 1));
        lemma_scan_all_is_str_hits(query, case, items, min_key, (k - 1) as nat);
        let item = items[k - 1];
        assert(items.take(k as int).last() == item);
        assert(ascii_text(item));
        assert(utf32_string_units(item) == utf32_str_units(item));
    }
}

/// With no cache to narrow it and fewer than [`BIGRAM_THRESHOLD`] items, an
/// index of ASCII items searched for an ASCII query finds exactly the hits
/// of the standalone search: the character-mask pre-filter only drops items
/// the matcher cannot score.
pub proof fn lemma_index_hits_are_standalone_hits(
    items: Seq<Seq<char>>,
    last_query: Seq<char>,
    last: Seq<u32>,
    last_case: CaseMode,
    query: Seq<char>,
    case: CaseMode,
    min_key: u64,
)
    requires
        items.len() < BIGRAM_THRESHOLD,
        last_query.len() == 0,
        forall|i: int| 0 <= i < items.len() ==> ascii_text(#[trigger] items[i]),
        ascii_text(query),
    ensures
        index_hits(items, last_query, last, last_case, query, case, min_key) == str_hits(
            query,
            case,
            items,
            min_key,
        ),
{
    let n = items.len();
    let all = Seq::new(n, |i: int| i as u32);
    let cset = search_candidates(items, last_query, last, last_case, query, case);
    assert(cset =~= all.to_set()) by {
        assert forall|x: u32| cset.contains(x) implies all.to_set().contains(x) by {
            assert(all[x as int] == x);
        }
    }
    assert(strictly_increasing_u32(all));
    lemma_ascending_of(all);
    lemma_scan_all_is_str_hits(query, case, items, min_key, n);
    assert(items.take(n as int) =~= items);
}

/// An index with no cache to narrow its search, fewer than
/// [`BIGRAM_THRESHOLD`] items, all ASCII, gives for an ASCII query the
/// standalone search's results: two results that meet the contracts of
/// [`FuzzyIndexCore::search_impl`] and [`crate::search::search_over_items`]
/// for the same items and arguments hold the same items, indices, scores,
/// positions and match types in the same order.
pub proof fn lemma_index_search_is_standalone_search(
    idx: FuzzyIndexCore,
    query: Seq<char>,
    case: CaseMode,
    min_key: u64,
    limit: Option<u32>,
    include_positions: bool,
    r1: Seq<SearchHit>,
    r2: Seq<SearchHit>,
)
    requires
        idx.items_view().len() < BIGRAM_THRESHOLD,
        idx.cached_query().len() == 0,
        forall|i: int| 0 <= i < idx.items_view().len() ==> ascii_text(#[trigger] idx.items_view()[i]),
        ascii_text(query),
        blank(query) || idx.items_view().len() == 0 ==> r1.len() == 0 && r2.len() == 0,
        !blank(query) && idx.items_view().len() > 0 ==> {
            let items = idx.items_view();
            &&& top_k(
                r1.map_values(|h: SearchHit| hit_entry(h, items)),
                index_hits(
                    items,
                    idx.cached_query(),
                    idx.cached_indices(),
                    idx.cached_case(),
                    query,
                    case,
                    min_key,
                ),
                limit,
            )
            &&& top_k(r2.map_values(|h: SearchHit| hit_entry(h, items)), str_hits(query, case, items, min_key), limit)
            &&& forall|i: int|
                0 <= i < r1.len() ==> {
                    &&& (#[trigger] r1[i]).index < items.len()
                    &&& r1[i].item@ == items[r1[i].index as int]
                    &&& positions_ok(
                        r1[i].positions@,
                        r1[i].match_type,
                        pattern_indices(query, case, utf32_string_units(items[r1[i].index as int])),
                        items[r1[i].index as int],
                        include_positions,
                        items[r1[i].index as int].len(),
                    )
                }
            &&& forall|i: int|
                0 <= i < r2.len() ==> {
                    &&& (#[trigger] r2[i]).index < items.len()
                    &&& r2[i].item@ == items[r2[i].index as int]
                    &&& positions_ok(
                        r2[i].positions@,
                        r2[i].match_type,
                        pattern_indices(query, case, utf32_str_units(items[r2[i].index as int])),
                        items[r2[i].index as int],
                        include_positions,
                        utf32_str_units(items[r2[i].index as int]).1.len(),
                    )
                }
        },
    ensures
        r1.len() == r2.len(),
        forall|i: int|
            0 <= i < r1.len() ==> {
                &&& (#[trigger] r1[i]).index == r2[i].index
                &&& r1[i].key == r2[i].key
                &&& r1[i].item@ == r2[i].item@
                &&& r1[i].positions@ == r2[i].positions@
                &&& r1[i].match_type == r2[i].match_type
            },
{
    if !blank(query) && idx.items_view().len() > 0 {
        let items = idx.items_view();
        lemma_index_hits_are_standalone_hits(
            items,
            idx.cached_query(),
            idx.cached_indices(),
            idx.cached_case(),
            query,
            case,
            min_key,
        );
        let e1 = r1.map_values(|h: SearchHit| hit_entry(h, items));
        let e2 = r2.map_values(|h: SearchHit| hit_entry(h, items));
        lemma_top_k_unique(e1, e2, str_hits(query, case, items, min_key), limit);
        assert forall|i: int| 0 <= i < r1.len() implies {
            &&& (#[trigger] r1[i]).index == r2[i].index
            &&& r1[i].key == r2[i].key
            &&& r1[i].item@ == r2[i].item@
            &&& r1[i].positions@ == r2[i].positions@
            &&& r1[i].match_type == r2[i].match_type
        } by {
            assert(e1[i] == e2[i]);
            let item = items[r1[i].index as int];
            assert(ascii_text(item));
            assert(utf32_string_units(item) == utf32_str_units(item));
            if include_positions {
                lemma_strict_unique(r1[i].positions@, r2[i].positions@);
            } else {
                assert(r1[i].positions@ =~= r2[i].positions@);
            }
        }
    }
}

/// The cache is left out wherever narrowing by it could change the result:
/// when either query holds an inverted term `!` (an item that failed the
/// previous query can match the new one), when the previous query holds `$`
/// or `\\`, when the case mode changed, when no indices were kept, or when
/// the new query does not strictly extend the previous one. In each of these
/// cases the hits are those of the same items searched with no cache.
pub proof fn lemma_cache_left_out(
    items: Seq<Seq<char>>,
    last_query: Seq<char>,
    last: Seq<u32>,
    last_case: CaseMode,
    query: Seq<char>,
    case: CaseMode,
    min_key: u64,
)
    requires
        query.contains('!') || last_query.contains('!') || last_query.contains('$')
            || last_query.contains('\\') || last_case != case || last.len() == 0 || last_query.len()
            == 0 || last_query.len() >= query.len() || query.take(last_query.len() as int)
            != last_query,
    ensures
        index_hits(items, last_query, last, last_case, query, case, min_key) == index_hits(
            items,
            seq![],
            seq![],
            case,
            query,
            case,
            min_key,
        ),
{
    assert(query.subrange(0, last_query.len() as int) == query.take(last_query.len() as int));
    assert(search_candidates(items, last_query, last, last_case, query, case) == search_candidates(
        items,
        seq![],
        seq![],
        case,
        query,
        case,
    ));
}

/// A search whose query holds an inverted term `!` gives, on any state of
/// an index, the results of a search of the same items with no cache: two
/// results that meet [`FuzzyIndexCore::search_impl`]'s contract, one for the
/// index as it is and one for a fresh index of the same items, rank the same
/// entries in the same order.
pub proof fn lemma_inverted_query_ignores_cache(
    idx: FuzzyIndexCore,
    fresh: FuzzyIndexCore,
    query: Seq<char>,
    case: CaseMode,
    min_key: u64,
    limit: Option<u32>,
    r1: Seq<SearchHit>,
    r2: Seq<SearchHit>,
)
    requires
        query.contains('!'),
        fresh.items_view() == idx.items_view(),
        fresh.cached_query().len() == 0,
        top_k(
            r1.map_values(|h: SearchHit| hit_entry(h, idx.items_view())),
            index_hits(
                idx.items_view(),
                idx.cached_query(),
                idx.cached_indices(),
                idx.cached_case(),
                query,
                case,
                min_key,
            ),
            limit,
        ),
        top_k(
            r2.map_values(|h: SearchHit| hit_entry(h, fresh.items_view())),
            index_hits(
                fresh.items_view(),
                fresh.cached_query(),
                fresh.cached_indices(),
                fresh.cached_case(),
                query,
                case,
                min_key,
            ),
            limit,
        ),
    ensures
        r1.map_values(|h: SearchHit| hit_entry(h, idx.items_view())) == r2.map_values(
            |h: SearchHit| hit_entry(h, fresh.items_view()),
        ),
{
    let items = idx.items_view();
    lemma_cache_left_out(
        items,
        idx.cached_query(),
        idx.cached_indices(),
        idx.cached_case(),
        query,
        case,
        min_key,
    );
    lemma_cache_left_out(
        items,
        fresh.cached_query(),
        fresh.cached_indices(),
        fresh.cached_case(),
        query,
        case,
        min_key,
    );
    lemma_top_k_unique(
        r1.map_values(|h: SearchHit| hit_entry(h, items)),
        r2.map_values(|h: SearchHit| hit_entry(h, items)),
        index_hits(items, seq![], seq![], case, query, case, min_key),
        limit,
    );
}

/// The work of building an index away from the caller: the items, handed
/// over to the index once.
pub struct BuildFuzzyIndexTask {
    items: Vec<String>,
}

impl BuildFuzzyIndexTask {
    /// The task that will index `items`.
    pub fn new(items: Vec<String>) -> (r: Self)
        ensures
            r.pending() == strings_view(items@),
    {
        BuildFuzzyIndexTask { items }
    }

    /// The items still to be indexed.
    pub closed spec fn pending(&self) -> Seq<Seq<char>> {
        strings_view(self.items@)
    }

    /// Build the index over the pending items, which the task gives up.
    pub fn compute(&mut self) -> (r: FuzzyIndexCore)
        requires
            old(self).pending().len() <= u32::MAX,
        ensures
            r.wf(),
            r.items_view() == old(self).pending(),
            r.cached_query().len() == 0,
            r.cached_indices().len() == 0,
            final(self).pending().len() == 0,
    {
        let mut items: Vec<String> = Vec::new();
        std::mem::swap(&mut items, &mut self.items);
        proof {
            assert(strings_view(self.items@) =~= Seq::<Seq<char>>::empty());
        }
        FuzzyIndexCore::new(items)
    }
}

} // verus!
