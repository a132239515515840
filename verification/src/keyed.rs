use vstd::prelude::*;
use vstd::string::StringExecFns;

use crate::index::screened;
use crate::keyed_format::columns_view;
use crate::search::{
    ascii_text, blank, clamp_key, is_blank, compile_query, compute_max_score, max_key_of, DefaultMatcher, pattern_score,
    score_prepared, score_str, utf32_str_units, utf32_string_units, CaseMode,
};
use crate::serialization::message;
use crate::text::{char_mask_spec, compute_char_mask, compute_query_mask, query_mask_spec, strings_view};

verus! {

broadcast use vstd::seq_lib::group_seq_properties;

/// Per-key match scores of a query over the items of a multi-key index:
/// `scores[k][i]` is the clamped score of item `i` on key `k`, or `None`
/// where the item does not match on that key (or was not scored), and `max`
/// is the query's highest score.
pub struct KeyScores {
    pub max: u32,
    pub scores: Vec<Vec<Option<u32>>>,
}

/// A raw score clamped to `max`, when there is one.
pub open spec fn clamped(score: Option<u32>, max: u32) -> Option<u32> {
    match score {
        Some(raw) => Some(clamp_key(raw, max)),
        None => None,
    }
}

/// The score of one key text when scored in its `Utf32Str::new` form; a
/// blank query scores nothing.
pub open spec fn str_key_score(query: Seq<char>, case: CaseMode, text: Seq<char>) -> Option<u32> {
    if blank(query) {
        None
    } else {
        clamped(pattern_score(query, case, utf32_str_units(text)), max_key_of(query, case))
    }
}

/// The score of one key text in an index: none for a blank query, an
/// inactive key or a text whose mask rules it out, else its score in
/// `Utf32String::from` form.
pub open spec fn index_key_score(query: Seq<char>, case: CaseMode, active: bool, text: Seq<char>) -> Option<
    u32,
> {
    if blank(query) || !active || screened(query, text) {
        None
    } else {
        clamped(pattern_score(query, case, utf32_string_units(text)), max_key_of(query, case))
    }
}

/// For an ASCII text and an ASCII query, an active key of a persistent
/// multi-key index scores the text as the standalone multi-key search does:
/// the mask pre-filter only drops texts the matcher cannot score.
pub proof fn lemma_index_key_score_is_standalone(query: Seq<char>, case: CaseMode, text: Seq<char>)
    requires
        ascii_text(text),
        ascii_text(query),
    ensures
        index_key_score(query, case, true, text) == str_key_score(query, case, text),
{
    assert(utf32_string_units(text) == utf32_str_units(text));
}

/// All columns have `n` entries.
pub open spec fn columns_of_len(cols: Seq<Seq<Seq<char>>>, n: nat) -> bool {
    forall|k: int| 0 <= k < cols.len() ==> (#[trigger] cols[k]).len() == n
}

/// How a multi-key search begins, before anything is scored.
#[derive(Clone, Copy, Debug, PartialEq, Eq, Structural)]
pub enum KeyedStart {
    /// No results: there are no keys or no items, the weights do not match
    /// the keys, the columns differ in length, or the query is blank.
    NoResults,
    /// A blank query with every item asked for: the leading items, each
    /// with score 1 on every key.
    AllItems,
    /// Score the items against the query.
    Score,
}

/// The start of a multi-key search over the columns `cols` with
/// `num_weights` weights.
pub open spec fn keyed_start_of(
    query: Seq<char>,
    cols: Seq<Seq<Seq<char>>>,
    num_weights: nat,
    return_all_on_empty: bool,
) -> KeyedStart {
    if cols.len() == 0 || num_weights != cols.len() || cols[0].len() == 0 || !columns_of_len(
        cols,
        cols[0].len(),
    ) {
        KeyedStart::NoResults
    } else if blank(query) {
        if return_all_on_empty {
            KeyedStart::AllItems
        } else {
            KeyedStart::NoResults
        }
    } else {
        KeyedStart::Score
    }
}

/// Decide how a multi-key search over `key_texts` with `num_weights`
/// weights begins.
pub fn keyed_search_start(
    query: &str,
    key_texts: &[Vec<String>],
    num_weights: usize,
    return_all_on_empty: bool,
) -> (r: KeyedStart)
    ensures
        r == keyed_start_of(query@, columns_view(key_texts@), num_weights as nat, return_all_on_empty),
{
    let ghost cols = columns_view(key_texts@);
    let num_keys = key_texts.len();
    if num_keys == 0 || num_weights != num_keys {
        return KeyedStart::NoResults;
    }
    let num_items = key_texts[0].len();
    if num_items == 0 {
        return KeyedStart::NoResults;
    }
    let mut k: usize = 0;
    while k < num_keys
        invariant
            k <= num_keys == key_texts@.len() == cols.len(),
            num_items == cols[0].len(),
            cols == columns_view(key_texts@),
            forall|j: int| 0 <= j < k ==> (#[trigger] cols[j]).len() == num_items,
        decreases num_keys - k,
    {
        if key_texts[k].len() != num_items {
            proof {
                assert(cols[k as int].len() == key_texts@[k as int]@.len());
            }
            return KeyedStart::NoResults;
        }
        proof {
            assert(cols[k as int].len() == key_texts@[k as int]@.len());
        }
        k = k + 1;
    }
    if is_blank(query) {
        if return_all_on_empty {
            KeyedStart::AllItems
        } else {
            KeyedStart::NoResults
        }
    } else {
        KeyedStart::Score
    }
}

/// Score every text of every key against `query`, each in its
/// `Utf32Str::new` form. A blank query scores no text.
pub fn keyed_scores(query: &str, key_texts: &[Vec<String>], case: CaseMode) -> (r: KeyScores)
    ensures
        r.max == max_key_of(query@, case),
        r.scores@.len() == key_texts@.len(),
        forall|k: int|
            0 <= k < key_texts@.len() ==> {
                &&& (#[trigger] r.scores@[k])@.len() == key_texts@[k]@.len()
                &&& forall|i: int|
                    0 <= i < key_texts@[k]@.len() ==> #[trigger] r.scores@[k]@[i] == str_key_score(
                        query@,
                        case,
                        key_texts@[k]@[i]@,
                    )
            },
{
    let b = is_blank(query);
    let mut m = DefaultMatcher::new();
    let c = compile_query(query, case);
    let max = compute_max_score(&c, &mut m);
    let mut scores: Vec<Vec<Option<u32>>> = Vec::new();
    let mut k: usize = 0;
    while k < key_texts.len()
        invariant
            k <= key_texts.len(),
            b == blank(query@),
            c.query() == query@,
            c.case_mode() == case,
            max == max_key_of(query@, case),
            scores@.len() == k,
            forall|k2: int|
                0 <= k2 < k ==> {
                    &&& (#[trigger] scores@[k2])@.len() == key_texts@[k2]@.len()
                    &&& forall|i: int|
                        0 <= i < key_texts@[k2]@.len() ==> #[trigger] scores@[k2]@[i] == str_key_score(
                            query@,
                            case,
                            key_texts@[k2]@[i]@,
                        )
                },
        decreases key_texts.len() - k,
    {
        let texts = &key_texts[k];
        let mut col: Vec<Option<u32>> = Vec::new();
        let mut i: usize = 0;
        while i < texts.len()
            invariant
                i <= texts.len(),
                b == blank(query@),
                c.query() == query@,
                c.case_mode() == case,
                max == max_key_of(query@, case),
                col@.len() == i,
                forall|j: int| 0 <= j < i ==> #[trigger] col@[j] == str_key_score(query@, case, texts@[j]@),
            decreases texts.len() - i,
        {
            let v = if b {
                None
            } else {
                match score_str(&c, texts[i].as_str(), &mut m) {
                    Some(raw) => Some(if raw <= max {
                        raw
                    } else {
                        max
                    }),
                    None => None,
                }
            };
            col.push(v);
            i = i + 1;
        }
        scores.push(col);
        k = k + 1;
    }
    KeyScores { max, scores }
}

/// The item data of a persistent multi-key index: `key_texts[k][i]` is the
/// text of item `i` for key `k`, kept with its character mask.
pub struct KeyColumns {
    key_texts: Vec<Vec<String>>,
    key_char_masks: Vec<Vec<u64>>,
    matcher: DefaultMatcher,
}

impl KeyColumns {
    /// The texts, key by key.
    pub closed spec fn columns(&self) -> Seq<Seq<Seq<char>>> {
        columns_view(self.key_texts@)
    }

    /// The number of items: the length of the first column, or 0 without keys.
    pub closed spec fn num_items(&self) -> nat {
        if self.key_texts@.len() == 0 {
            0
        } else {
            self.key_texts@[0]@.len()
        }
    }

    /// Every column has one text per item, with its mask beside it.
    pub closed spec fn wf(&self) -> bool {
        &&& self.key_texts@.len() <= u32::MAX
        &&& self.num_items() <= u32::MAX
        &&& self.key_char_masks@.len() == self.key_texts@.len()
        &&& forall|k: int|
            0 <= k < self.key_texts@.len() ==> {
                &&& (#[trigger] self.key_texts@[k])@.len() == self.num_items()
                &&& self.key_char_masks@[k]@.len() == self.num_items()
                &&& forall|i: int|
                    0 <= i < self.num_items() ==> #[trigger] self.key_char_masks@[k]@[i]
                        == char_mask_spec(self.key_texts@[k]@[i]@)
            }
    }

    fn column_masks(texts: &Vec<String>) -> (r: Vec<u64>)
        ensures
            r@.len() == texts@.len(),
            forall|i: int| 0 <= i < texts@.len() ==> #[trigger] r@[i] == char_mask_spec(texts@[i]@),
    {
        let mut r: Vec<u64> = Vec::new();
        let mut i: usize = 0;
        while i < texts.len()
            invariant
                i <= texts.len(),
                r@.len() == i,
                forall|j: int| 0 <= j < i ==> #[trigger] r@[j] == char_mask_spec(texts@[j]@),
            decreases texts.len() - i,
        {
            r.push(compute_char_mask(texts[i].as_str()));
            i = i + 1;
        }
        r
    }

    /// Build the item data of a multi-key index from its columns, checking
    /// that all columns have the length of the first and that there is one
    /// weight per column.
    pub fn new(key_texts: Vec<Vec<String>>, num_weights: usize) -> (r: Result<Self, String>)
        requires
            key_texts@.len() <= u32::MAX,
            forall|k: int| 0 <= k < key_texts@.len() ==> (#[trigger] key_texts@[k])@.len() <= u32::MAX,
        ensures
            match r {
                Ok(c) => {
                    &&& c.wf()
                    &&& c.columns() == columns_view(key_texts@)
                    &&& columns_of_len(c.columns(), c.num_items())
                    &&& num_weights == key_texts@.len()
                },
                Err(m) => {
                    ||| exists|k: int|
                        1 <= k < key_texts@.len() && (#[trigger] key_texts@[k])@.len() != key_texts@[0]@.len()
                            && m@ == "All key_texts columns must have the same length; key 0 has "@
                            + crate::text::decimal(key_texts@[0]@.len()) + ", key "@
                            + crate::text::decimal(k as nat) + " has "@ + crate::text::decimal(
                            key_texts@[k]@.len(),
                        )
                    ||| (columns_of_len(columns_view(key_texts@), if key_texts@.len() == 0 {
                        0
                    } else {
                        key_texts@[0]@.len()
                    }) && num_weights != key_texts@.len() && m@ == "Expected "@
                        + crate::text::decimal(key_texts@.len()) + " weights, got "@
                        + crate::text::decimal(num_weights as nat))
                },
            },
    {
        let num_keys = key_texts.len();
        if num_keys > 0 {
            let n0 = key_texts[0].len();
            let mut k: usize = 1;
            while k < num_keys
                invariant
                    1 <= k <= num_keys == key_texts@.len(),
                    n0 == key_texts@[0]@.len(),
                    forall|j: int| 0 <= j < k ==> (#[trigger] key_texts@[j])@.len() == n0,
                decreases num_keys - k,
            {
                if key_texts[k].len() != n0 {
                    let mut m = message("All key_texts columns must have the same length; key 0 has ");
                    m.append(crate::text::usize_to_decimal(n0).as_str());
                    m.append(", key ");
                    m.append(crate::text::usize_to_decimal(k).as_str());
                    m.append(" has ");
                    m.append(crate::text::usize_to_decimal(key_texts[k].len()).as_str());
                    proof {
                        let kk = k as int;
                        assert(1 <= kk < key_texts@.len() && (key_texts@[kk])@.len() != key_texts@[0]@.len()
                            && m@ == "All key_texts columns must have the same length; key 0 has "@
                            + crate::text::decimal(key_texts@[0]@.len()) + ", key "@
                            + crate::text::decimal(kk as nat) + " has "@ + crate::text::decimal(
                            key_texts@[kk]@.len(),
                        ));
                    }
                    return Err(m);
                }
                k = k + 1;
            }
        }
        proof {
            let n: nat = if key_texts@.len() == 0 {
                0
            } else {
                key_texts@[0]@.len()
            };
            assert(columns_of_len(columns_view(key_texts@), n));
        }
        if num_weights != num_keys {
            let mut m = message("Expected ");
            m.append(crate::text::usize_to_decimal(num_keys).as_str());
            m.append(" weights, got ");
            m.append(crate::text::usize_to_decimal(num_weights).as_str());
            return Err(m);
        }
        let mut masks: Vec<Vec<u64>> = Vec::new();
        let mut k: usize = 0;
        while k < key_texts.len()
            invariant
                k <= key_texts.len(),
                masks@.len() == k,
                forall|j: int| 0 <= j < k ==> {
                    &&& (#[trigger] masks@[j])@.len() == key_texts@[j]@.len()
                    &&& forall|i: int| 0 <= i < key_texts@[j]@.len() ==> #[trigger] masks@[j]@[i]
                        == char_mask_spec(key_texts@[j]@[i]@)
                },
            decreases key_texts.len() - k,
        {
            masks.push(Self::column_masks(&key_texts[k]));
            k = k + 1;
        }
        Ok(KeyColumns { key_texts, key_char_masks: masks, matcher: DefaultMatcher::new() })
    }

    /// The number of items.
    pub fn size(&self) -> (r: u32)
        requires
            self.wf(),
        ensures
            r == self.num_items(),
    {
        if self.key_texts.len() == 0 {
            0
        } else {
            self.key_texts[0].len() as u32
        }
    }

    /// The texts, key by key.
    pub fn key_texts(&self) -> (r: &[Vec<String>])
        ensures
            columns_view(r@) == self.columns(),
    {
        self.key_texts.as_slice()
    }

    /// Add one item, given its text for each key; fails, changing nothing,
    /// when the number of texts is not the number of keys.
    pub fn add(&mut self, key_values: Vec<String>) -> (r: Result<(), String>)
        requires
            old(self).wf(),
            old(self).num_items() < u32::MAX,
        ensures
            final(self).wf(),
            r is Ok == (key_values@.len() == old(self).columns().len()),
            r is Ok ==> final(self).columns() == Seq::new(
                old(self).columns().len(),
                |k: int| old(self).columns()[k].push(key_values@[k]@),
            ),
            r is Ok ==> final(self).num_items() == old(self).num_items() + (if key_values@.len()
                > 0 {
                1nat
            } else {
                0nat
            }),
            r matches Err(m) ==> final(self).columns() == old(self).columns() && m@ == "Expected "@
                + crate::text::decimal(old(self).columns().len()) + " key values, got "@
                + crate::text::decimal(key_values@.len()),
    {
        let num_keys = self.key_texts.len();
        if key_values.len() != num_keys {
            let mut m = message("Expected ");
            m.append(crate::text::usize_to_decimal(num_keys).as_str());
            m.append(" key values, got ");
            m.append(crate::text::usize_to_decimal(key_values.len()).as_str());
            return Err(m);
        }
        let ghost old_cols = self.columns();
        let ghost n = self.num_items();
        let mut k: usize = 0;
        while k < num_keys
            invariant
                k <= num_keys == key_values@.len() == self.key_texts@.len(),
                self.key_char_masks@.len() == num_keys,
                num_keys <= u32::MAX,
                n == old(self).num_items(),
                n < u32::MAX,
                old_cols == old(self).columns(),
                old_cols.len() == num_keys,
                forall|j: int| 0 <= j < num_keys ==> {
                    &&& (#[trigger] self.key_texts@[j])@.len() == (if j < k { n + 1 } else { n })
                    &&& self.key_char_masks@[j]@.len() == self.key_texts@[j]@.len()
                    &&& forall|i: int| 0 <= i < self.key_texts@[j]@.len() ==> #[trigger] self.key_char_masks@[j]@[i]
                        == char_mask_spec(self.key_texts@[j]@[i]@)
                    &&& strings_view(self.key_texts@[j]@) == (if j < k {
                        old_cols[j].push(key_values@[j]@)
                    } else {
                        old_cols[j]
                    })
                },
            decreases num_keys - k,
        {
            let value = key_values[k].clone();
            let mask = compute_char_mask(value.as_str());
            self.key_texts[k].push(value);
            self.key_char_masks[k].push(mask);
            k = k + 1;
        }
        proof {
            assert(self.columns() =~= Seq::new(old_cols.len(), |k: int| old_cols[k].push(key_values@[k]@)));
        }
        Ok(())
    }
}

impl KeyColumns {
    /// Remove the item at `index` from every column by moving the last item
    /// into its place (swap-remove). Returns `false`, changing nothing, when
    /// `index` is out of range.
    pub fn remove(&mut self, index: u32) -> (r: bool)
        requires
            old(self).wf(),
        ensures
            final(self).wf(),
            r == (index < old(self).num_items()),
            r ==> final(self).columns() == Seq::new(
                old(self).columns().len(),
                |k: int| crate::bigram::swap_removed(old(self).columns()[k], index as int),
            ),
            !r ==> final(self).columns() == old(self).columns(),
    {
        let idx = index as usize;
        let num_items = self.size() as usize;
        if idx >= num_items {
            return false;
        }
        let ghost old_cols = self.columns();
        let ghost n = self.num_items();
        let num_keys = self.key_texts.len();
        let mut k: usize = 0;
        while k < num_keys
            invariant
                k <= num_keys == self.key_texts@.len() == self.key_char_masks@.len(),
                num_keys <= u32::MAX,
                idx < n == num_items,
                n <= u32::MAX,
                old_cols == old(self).columns(),
                old_cols.len() == num_keys,
                forall|j: int| 0 <= j < num_keys ==> {
                    &&& (#[trigger] self.key_texts@[j])@.len() == (if j < k { n - 1 } else { n as int })
                    &&& self.key_char_masks@[j]@.len() == self.key_texts@[j]@.len()
                    &&& forall|i: int| 0 <= i < self.key_texts@[j]@.len() ==> #[trigger] self.key_char_masks@[j]@[i]
                        == char_mask_spec(self.key_texts@[j]@[i]@)
                    &&& strings_view(self.key_texts@[j]@) == (if j < k {
                        crate::bigram::swap_removed(old_cols[j], idx as int)
                    } else {
                        old_cols[j]
                    })
                },
            decreases num_keys - k,
        {
            let ghost before = self.key_texts@[k as int]@;
            let ghost before_m = self.key_char_masks@[k as int]@;
            self.key_texts[k].swap_remove(idx);
            self.key_char_masks[k].swap_remove(idx);
            proof {
                let after = self.key_texts@[k as int]@;
                assert(strings_view(after) =~= crate::bigram::swap_removed(strings_view(before), idx as int));
                assert forall|i: int| 0 <= i < after.len() implies #[trigger] self.key_char_masks@[k as int]@[i]
                    == char_mask_spec(after[i]@) by {
                    if i == idx {
                        assert(after[i] == before[n - 1]);
                        assert(self.key_char_masks@[k as int]@[i] == before_m[n - 1]);
                    } else {
                        assert(after[i] == before[i]);
                        assert(self.key_char_masks@[k as int]@[i] == before_m[i]);
                    }
                }
            }
            k = k + 1;
        }
        proof {
            assert(num_keys > 0);
            assert(self.key_texts@[0]@.len() == n - 1);
            assert(self.num_items() == n - 1);
            assert(self.key_char_masks@.len() == self.key_texts@.len());
            assert forall|j: int| 0 <= j < self.key_texts@.len() implies {
                &&& (#[trigger] self.key_texts@[j])@.len() == self.num_items()
                &&& self.key_char_masks@[j]@.len() == self.num_items()
                &&& forall|i: int|
                    0 <= i < self.num_items() ==> #[trigger] self.key_char_masks@[j]@[i]
                        == char_mask_spec(self.key_texts@[j]@[i]@)
            } by {
                assert(self.key_texts@[j]@.len() == n - 1);
            }
            assert(self.wf());
            assert(self.columns() =~= Seq::new(
                old_cols.len(),
                |k: int| crate::bigram::swap_removed(old_cols[k], idx as int),
            ));
        }
        true
    }

    /// Drop all keys and items.
    pub fn destroy(&mut self)
        ensures
            final(self).wf(),
            final(self).columns().len() == 0,
    {
        self.key_texts = Vec::new();
        self.key_char_masks = Vec::new();
        proof {
            assert(self.columns() =~= Seq::<Seq<Seq<char>>>::empty());
        }
    }

    /// Score every text of every active key against `query`, skipping texts
    /// whose mask rules them out; inactive keys, and every key for a blank
    /// query, get no scores.
    pub fn scores(&mut self, query: &str, case: CaseMode, active: &[bool]) -> (r: KeyScores)
        requires
            old(self).wf(),
            active@.len() == old(self).columns().len(),
        ensures
            final(self).wf(),
            final(self).columns() == old(self).columns(),
            r.max == max_key_of(query@, case),
            r.scores@.len() == old(self).columns().len(),
            forall|k: int|
                0 <= k < old(self).columns().len() ==> {
                    &&& (#[trigger] r.scores@[k])@.len() == old(self).columns()[k].len()
                    &&& forall|i: int|
                        0 <= i < old(self).columns()[k].len() ==> #[trigger] r.scores@[k]@[i]
                            == index_key_score(query@, case, active@[k], old(self).columns()[k][i])
                },
    {
        let b = is_blank(query);
        let c = compile_query(query, case);
        let max = compute_max_score(&c, &mut self.matcher);
        let qmask = compute_query_mask(query);
        let ghost cols = self.columns();
        let mut scores: Vec<Vec<Option<u32>>> = Vec::new();
        let mut k: usize = 0;
        while k < self.key_texts.len()
            invariant
                k <= self.key_texts@.len(),
                self.wf(),
                cols == self.columns(),
                active@.len() == cols.len(),
                b == blank(query@),
                c.query() == query@,
                c.case_mode() == case,
                max == max_key_of(query@, case),
                qmask == query_mask_spec(query@),
                scores@.len() == k,
                forall|k2: int|
                    0 <= k2 < k ==> {
                        &&& (#[trigger] scores@[k2])@.len() == cols[k2].len()
                        &&& forall|i: int|
                            0 <= i < cols[k2].len() ==> #[trigger] scores@[k2]@[i] == index_key_score(
                                query@,
                                case,
                                active@[k2],
                                cols[k2][i],
                            )
                    },
            decreases self.key_texts@.len() - k,
        {
            let n = self.key_texts[k].len();
            let mut col: Vec<Option<u32>> = Vec::new();
            let mut i: usize = 0;
            while i < n
                invariant
                    i <= n == self.key_texts@[k as int]@.len(),
                    k < self.key_texts@.len(),
                    self.wf(),
                    cols == self.columns(),
                    active@.len() == cols.len(),
                    b == blank(query@),
                    c.query() == query@,
                    c.case_mode() == case,
                    max == max_key_of(query@, case),
                    qmask == query_mask_spec(query@),
                    col@.len() == i,
                    forall|j: int|
                        0 <= j < i ==> #[trigger] col@[j] == index_key_score(
                            query@,
                            case,
                            active@[k as int],
                            cols[k as int][j],
                        ),
                decreases n - i,
            {
                proof {
                    assert(cols[k as int][i as int] == self.key_texts@[k as int]@[i as int]@);
                }
                let v: Option<u32> = if b || !active[k] {
                    None
                } else {
                    let mask = self.key_char_masks[k][i];
                    if qmask != 0 && (mask & qmask) != qmask {
                        None
                    } else {
                        match score_prepared(&c, self.key_texts[k][i].as_str(), &mut self.matcher) {
                            Some(raw) => Some(if raw <= max {
                                raw
                            } else {
                                max
                            }),
                            None => None,
                        }
                    }
                };
                col.push(v);
                i = i + 1;
            }
            scores.push(col);
            k = k + 1;
        }
        KeyScores { max, scores }
    }
}

} // verus!
