use vstd::prelude::*;

verus! {

/// The characters of a string, in order.
pub fn chars_of(s: &str) -> (v: Vec<char>)
    ensures
        v@ == s@,
{
    let mut v: Vec<char> = Vec::new();
    for c in it: s.chars()
        invariant
            v@ == it.seq().take(it.index() as int),
            it.seq() == s@,
    {
        v.push(c);
    }
    v
}

/// The character that nucleo-matcher's `chars::normalize` gives for `c`:
/// a Latin letter with a diacritic becomes its base letter.
pub uninterp spec fn matcher_normalized(c: char) -> char;

/// The character that nucleo-matcher's `chars::to_lower_case` gives for `c`
/// (simple Unicode case folding).
pub uninterp spec fn matcher_lowercase(c: char) -> char;

/// Calls `nucleo_matcher::chars::normalize`. Its result is named
/// [`matcher_normalized`]; the table it looks up starts at U+00C0, and every
/// code point below that comes back unchanged. Nothing more is claimed.
#[verifier::external_body]
fn normalize_char(c: char) -> (r: char)
    ensures
        r == matcher_normalized(c),
        (c as u32) < 0xC0 ==> r == c,
{
    nucleo_matcher::chars::normalize(c)
}

/// Calls `nucleo_matcher::chars::to_lower_case`; the result is named
/// [`matcher_lowercase`]. Its case-folding table holds no ASCII key but `A`
/// to `Z`, each mapped to its lowercase letter, so an ASCII character comes
/// back lower-cased and every other ASCII character unchanged.
#[verifier::external_body]
fn lowercase_char(c: char) -> (r: char)
    ensures
        r == matcher_lowercase(c),
        'A' <= c <= 'Z' ==> r as u32 == c as u32 + 32,
        (c as u32) < 0x80 && !('A' <= c <= 'Z') ==> r == c,
{
    nucleo_matcher::chars::to_lower_case(c)
}

/// An ASCII character with `A` to `Z` lower-cased.
pub open spec fn ascii_lower(c: char) -> char {
    if 'A' <= c <= 'Z' {
        ((c as u32) + 32) as char
    } else {
        c
    }
}

/// A character as the matcher compares it when it ignores case and
/// diacritics: normalized, then lower-cased (for ASCII, just lower-cased).
/// The pre-filters look at characters in this form, so that they keep every
/// item the matcher can match.
pub open spec fn folded(c: char) -> char {
    if (c as u32) < 0x80 {
        ascii_lower(c)
    } else {
        matcher_lowercase(matcher_normalized(c))
    }
}

/// Fold a character as [`folded`] says.
pub fn fold_char(c: char) -> (r: char)
    ensures
        r == folded(c),
{
    let n = normalize_char(c);
    let r = lowercase_char(n);
    proof {
        if (c as u32) < 0x80 {
            assert(n == c);
            if 'A' <= c <= 'Z' {
                assert(r as u32 == c as u32 + 32);
                assert(r == ((c as u32) + 32) as char);
            }
        }
    }
    r
}

/// The bit that a folded character sets in a presence mask: ASCII letters
/// map onto 0–25 regardless of case, ASCII digits onto 26–35; every other
/// character sets no bit.
pub open spec fn ascii_mask_bit(c: char) -> Option<u64> {
    if 'a' <= c && c <= 'z' {
        Some((c as u64 - 'a' as u64) as u64)
    } else if 'A' <= c && c <= 'Z' {
        Some((c as u64 - 'A' as u64) as u64)
    } else if '0' <= c && c <= '9' {
        Some((26 + c as u64 - '0' as u64) as u64)
    } else {
        None
    }
}

/// The bit that a character sets in a presence mask: that of its folded
/// form.
pub open spec fn mask_bit(c: char) -> Option<u64> {
    ascii_mask_bit(folded(c))
}

fn mask_bit_of(c0: char) -> (r: Option<u64>)
    ensures
        r == mask_bit(c0),
        r matches Some(b) ==> b < 36,
{
    let c = fold_char(c0);
    if 'a' <= c && c <= 'z' {
        Some(c as u64 - 'a' as u64)
    } else if 'A' <= c && c <= 'Z' {
        Some(c as u64 - 'A' as u64)
    } else if '0' <= c && c <= '9' {
        Some(26 + c as u64 - '0' as u64)
    } else {
        None
    }
}

} // verus!

verus! {

/// Whether bit `b` of `m` is set.
pub open spec fn has_bit(m: u64, b: u64) -> bool {
    (m >> b) & 1u64 == 1u64
}

proof fn lemma_set_bit(m: u64, b0: u64, b: u64)
    requires
        b0 < 64,
        b < 64,
    ensures
        ((m | (1u64 << b0)) >> b) & 1u64 == 1u64 <==> (((m >> b) & 1u64 == 1u64) || b == b0),
{
    assert(((m | (1u64 << b0)) >> b) & 1u64 == 1u64 <==> (((m >> b) & 1u64 == 1u64) || b == b0))
        by (bit_vector)
        requires
            b0 < 64,
            b < 64,
    ;
}

proof fn lemma_zero_bits(b: u64)
    requires
        b < 64,
    ensures
        !has_bit(0u64, b),
{
    assert((0u64 >> b) & 1u64 != 1u64) by (bit_vector);
}

proof fn lemma_or_bits(m1: u64, m2: u64, b: u64)
    requires
        b < 64,
    ensures
        has_bit(m1 | m2, b) <==> (has_bit(m1, b) || has_bit(m2, b)),
{
    assert((((m1 | m2) >> b) & 1u64 == 1u64) <==> (((m1 >> b) & 1u64 == 1u64) || ((m2 >> b) & 1u64
        == 1u64))) by (bit_vector);
}

/// Some character of `s` sets bit `b`.
pub open spec fn chars_set_bit(s: Seq<char>, b: u64) -> bool {
    exists|i: int| 0 <= i < s.len() && mask_bit(#[trigger] s[i]) == Some(b)
}

/// The mask bit of one character as a value: `1 << b` for its bit `b`, or 0.
pub open spec fn char_bit_value(c: char) -> u64 {
    match mask_bit(c) {
        Some(b) => 1u64 << b,
        None => 0u64,
    }
}

/// The presence mask of `s`: the bits of its characters, or-ed together.
pub open spec fn char_mask_spec(s: Seq<char>) -> u64
    decreases s.len(),
{
    if s.len() == 0 {
        0u64
    } else {
        char_mask_spec(s.drop_last()) | char_bit_value(s.last())
    }
}

fn char_mask_of_chars(s: &Vec<char>) -> (m: u64)
    ensures
        forall|b: u64| b < 64 ==> (has_bit(m, b) <==> chars_set_bit(s@, b)),
        m == char_mask_spec(s@),
{
    let mut m: u64 = 0;
    let mut i: usize = 0;
    proof {
        assert forall|b: u64| b < 64 implies (has_bit(m, b) <==> chars_set_bit(s@.take(0), b)) by {
            lemma_zero_bits(b);
        }
    }
    while i < s.len()
        invariant
            i <= s.len(),
            forall|b: u64| b < 64 ==> (has_bit(m, b) <==> chars_set_bit(s@.take(i as int), b)),
            m == char_mask_spec(s@.take(i as int)),
        decreases s.len() - i,
    {
        let c = s[i];
        let bit = mask_bit_of(c);
        let ghost old_m = m;
        match bit {
            Some(b0) => {
                m = m | (1u64 << b0);
            },
            None => {},
        }
        proof {
            assert(s@.take(i + 1).drop_last() == s@.take(i as int));
            if bit.is_none() {
                assert(old_m | 0u64 == old_m) by (bit_vector);
            }
            let t = s@.take(i as int);
            let t2 = s@.take(i + 1);
            assert forall|b: u64| b < 64 implies (has_bit(m, b) <==> chars_set_bit(t2, b)) by {
                assert(has_bit(old_m, b) <==> chars_set_bit(t, b));
                if let Some(b0) = bit {
                    lemma_set_bit(old_m, b0, b);
                }
                if chars_set_bit(t2, b) {
                    let j = choose|j: int| 0 <= j < t2.len() && mask_bit(#[trigger] t2[j]) == Some(b);
                    if j < i {
                        assert(t[j] == t2[j]);
                    } else {
                        assert(t2[j] == c);
                        assert(bit == Some(b));
                    }
                }
                if chars_set_bit(t, b) {
                    let j = choose|j: int| 0 <= j < t.len() && mask_bit(#[trigger] t[j]) == Some(b);
                    assert(t2[j] == t[j]);
                }
                if bit == Some(b) {
                    assert(t2[i as int] == c);
                    assert(chars_set_bit(t2, b));
                }
                if bit.is_none() {
                    assert(m == old_m);
                }
            }
        }
        i = i + 1;
    }
    proof {
        assert(s@.take(s.len() as int) =~= s@);
    }
    m
}

/// Character-presence bitmask of a string, used to rule out candidates
/// quickly: bit `b` is set exactly when some character of `s` maps to `b`
/// under [`mask_bit`]. Characters are folded as the matcher folds them
/// (`é` counts as `e`), and those that fold to no ASCII letter or digit are
/// ignored, so the mask never excludes an item wrongly.
pub fn compute_char_mask(s: &str) -> (m: u64)
    ensures
        forall|b: u64| b < 64 ==> (has_bit(m, b) <==> chars_set_bit(s@, b)),
        m == char_mask_spec(s@),
{
    let v = chars_of(s);
    char_mask_of_chars(&v)
}

} // verus!

verus! {

/// Whether `c` has Unicode's `White_Space` property, the test that
/// `char::is_whitespace` makes: tab to carriage return, space, next line,
/// no-break space, the Ogham space mark, the spaces U+2000 to U+200A, the
/// line and paragraph separators, the narrow no-break space, the medium
/// mathematical space and the ideographic space.
pub open spec fn is_white_space(c: char) -> bool {
    let x = c as u32;
    ||| 0x09 <= x <= 0x0D
    ||| x == 0x20
    ||| x == 0x85
    ||| x == 0xA0
    ||| x == 0x1680
    ||| 0x2000 <= x <= 0x200A
    ||| x == 0x2028
    ||| x == 0x2029
    ||| x == 0x202F
    ||| x == 0x205F
    ||| x == 0x3000
}

/// Whether `c` is whitespace, as [`is_white_space`] says.
pub fn char_is_whitespace(c: char) -> (r: bool)
    ensures
        r == is_white_space(c),
{
    let x = c as u32;
    (0x09 <= x && x <= 0x0D) || x == 0x20 || x == 0x85 || x == 0xA0 || x == 0x1680 || (0x2000 <= x
        && x <= 0x200A) || x == 0x2028 || x == 0x2029 || x == 0x202F || x == 0x205F || x == 0x3000
}

/// Words found so far, and the word being read, after scanning `s` from the
/// left: whitespace ends the current word, any other character extends it.
pub open spec fn scan_words(s: Seq<char>) -> (Seq<Seq<char>>, Seq<char>)
    decreases s.len(),
{
    if s.len() == 0 {
        (seq![], seq![])
    } else {
        let (done, cur) = scan_words(s.drop_last());
        let c = s.last();
        if is_white_space(c) {
            if cur.len() > 0 {
                (done.push(cur), seq![])
            } else {
                (done, cur)
            }
        } else {
            (done, cur.push(c))
        }
    }
}

/// The maximal runs of non-whitespace characters of `s`, left to right
/// (what `str::split_whitespace` yields).
pub open spec fn words(s: Seq<char>) -> Seq<Seq<char>> {
    let (done, cur) = scan_words(s);
    if cur.len() > 0 {
        done.push(cur)
    } else {
        done
    }
}

/// Every word of the scan so far is non-empty and free of whitespace.
pub open spec fn clean_words(ws: Seq<Seq<char>>) -> bool {
    forall|i: int|
        0 <= i < ws.len() ==> #[trigger] ws[i].len() > 0 && forall|j: int|
            0 <= j < ws[i].len() ==> !is_white_space(ws[i][j])
}

pub proof fn lemma_scan_words_clean(s: Seq<char>)
    ensures
        clean_words(scan_words(s).0),
        forall|j: int|
            0 <= j < scan_words(s).1.len() ==> !is_white_space(#[trigger] scan_words(s).1[j]),
    decreases s.len(),
{
    if s.len() > 0 {
        lemma_scan_words_clean(s.drop_last());
    }
}

/// The words of `s` are non-empty and contain no whitespace.
pub proof fn lemma_words_clean(s: Seq<char>)
    ensures
        clean_words(words(s)),
{
    lemma_scan_words_clean(s);
}

/// The character sequences held by a vector of character vectors.
pub open spec fn seqs_of(v: Seq<Vec<char>>) -> Seq<Seq<char>> {
    v.map_values(|w: Vec<char>| w@)
}

/// Splits a character sequence into its whitespace-separated words.
pub fn split_words(s: &Vec<char>) -> (r: Vec<Vec<char>>)
    ensures
        seqs_of(r@) == words(s@),
{
    let mut done: Vec<Vec<char>> = Vec::new();
    let mut cur: Vec<char> = Vec::new();
    let mut i: usize = 0;
    while i < s.len()
        invariant
            i <= s.len(),
            (seqs_of(done@), cur@) == scan_words(s@.take(i as int)),
        decreases s.len() - i,
    {
        let c = s[i];
        proof {
            assert(s@.take(i + 1).drop_last() =~= s@.take(i as int));
        }
        if char_is_whitespace(c) {
            if cur.len() > 0 {
                let w = cur;
                cur = Vec::new();
                let ghost d0 = seqs_of(done@);
                done.push(w);
                proof {
                    assert(seqs_of(done@) =~= d0.push(w@));
                }
            }
        } else {
            cur.push(c);
        }
        i = i + 1;
    }
    proof {
        assert(s@.take(s.len() as int) =~= s@);
    }
    if cur.len() > 0 {
        let ghost d0 = seqs_of(done@);
        done.push(cur);
        proof {
            assert(seqs_of(done@) =~= d0.push(cur@));
        }
    }
    done
}



/// A space of `s` at `i` that separates query atoms: one not escaped by a
/// backslash just before it.
pub open spec fn atom_separator(s: Seq<char>, i: int) -> bool {
    s[i] == ' ' && !(i > 0 && s[i - 1] == '\\')
}

/// Atoms found so far, and the atom being read, after scanning `s` from the
/// left: a separating space ends the current atom, any other character
/// extends it.
pub open spec fn scan_atoms(s: Seq<char>) -> (Seq<Seq<char>>, Seq<char>)
    decreases s.len(),
{
    if s.len() == 0 {
        (seq![], seq![])
    } else {
        let (done, cur) = scan_atoms(s.drop_last());
        if atom_separator(s, s.len() - 1) {
            (done.push(cur), seq![])
        } else {
            (done, cur.push(s.last()))
        }
    }
}

/// The atoms of a query as nucleo's pattern parser cuts them: the pieces
/// between separating spaces (empty pieces included, which hold no
/// characters).
pub open spec fn atoms(s: Seq<char>) -> Seq<Seq<char>> {
    let (done, cur) = scan_atoms(s);
    done.push(cur)
}

/// Splits a query into its atoms, as [`atoms`] says.
pub fn split_atoms(s: &Vec<char>) -> (r: Vec<Vec<char>>)
    ensures
        seqs_of(r@) == atoms(s@),
{
    let mut done: Vec<Vec<char>> = Vec::new();
    let mut cur: Vec<char> = Vec::new();
    let mut i: usize = 0;
    while i < s.len()
        invariant
            i <= s.len(),
            (seqs_of(done@), cur@) == scan_atoms(s@.take(i as int)),
        decreases s.len() - i,
    {
        let c = s[i];
        let ghost t = s@.take(i + 1);
        proof {
            assert(t.drop_last() =~= s@.take(i as int));
            assert(t.last() == c);
            if i > 0 {
                assert(t[i - 1] == s@[i - 1]);
            }
        }
        if c == ' ' && !(i > 0 && s[i - 1] == '\\') {
            let w = cur;
            cur = Vec::new();
            let ghost d0 = seqs_of(done@);
            done.push(w);
            proof {
                assert(seqs_of(done@) =~= d0.push(w@));
            }
        } else {
            cur.push(c);
        }
        i = i + 1;
    }
    proof {
        assert(s@.take(s.len() as int) =~= s@);
    }
    let ghost d0 = seqs_of(done@);
    done.push(cur);
    proof {
        assert(seqs_of(done@) =~= d0.push(cur@));
    }
    done
}

} // verus!

verus! {

/// `t` with every leading `^` and `'` removed.
pub open spec fn trim_start_syntax(t: Seq<char>) -> Seq<char>
    decreases t.len(),
{
    if t.len() > 0 && (t[0] == '^' || t[0] == '\'') {
        trim_start_syntax(t.drop_first())
    } else {
        t
    }
}

/// `t` with every trailing `$` removed.
pub open spec fn trim_end_dollar(t: Seq<char>) -> Seq<char>
    decreases t.len(),
{
    if t.len() > 0 && t.last() == '$' {
        trim_end_dollar(t.drop_last())
    } else {
        t
    }
}

/// The text of a query term without its match-kind syntax.
pub open spec fn strip_term(t: Seq<char>) -> Seq<char> {
    trim_end_dollar(trim_start_syntax(t))
}

/// The positive terms of a list of query atoms: atoms that start with `!`
/// (exclusions) are dropped, the others lose their syntax characters.
pub open spec fn positive_terms(ws: Seq<Seq<char>>) -> Seq<Seq<char>>
    decreases ws.len(),
{
    if ws.len() == 0 {
        seq![]
    } else {
        let rest = positive_terms(ws.drop_last());
        let w = ws.last();
        if w.len() > 0 && w[0] == '!' {
            rest
        } else {
            rest.push(strip_term(w))
        }
    }
}

fn trim_term(w: &Vec<char>) -> (r: Vec<char>)
    ensures
        r@ == strip_term(w@),
{
    let mut start: usize = 0;
    proof {
        assert(w@.subrange(0, w@.len() as int) =~= w@);
    }
    while start < w.len() && (w[start] == '^' || w[start] == '\'')
        invariant
            start <= w.len(),
            trim_start_syntax(w@) == trim_start_syntax(w@.subrange(start as int, w@.len() as int)),
        decreases w.len() - start,
    {
        proof {
            let t = w@.subrange(start as int, w@.len() as int);
            assert(t.drop_first() =~= w@.subrange(start + 1, w@.len() as int));
        }
        start = start + 1;
    }
    let ghost mid = w@.subrange(start as int, w@.len() as int);
    proof {
        assert(w@.subrange(0, w@.len() as int) =~= w@);
        assert(trim_start_syntax(mid) == mid);
    }
    let mut end: usize = w.len();
    while end > start && w[end - 1] == '$'
        invariant
            start <= end <= w.len(),
            mid == w@.subrange(start as int, w@.len() as int),
            trim_end_dollar(mid) == trim_end_dollar(w@.subrange(start as int, end as int)),
        decreases end,
    {
        proof {
            let t = w@.subrange(start as int, end as int);
            assert(t.drop_last() =~= w@.subrange(start as int, end - 1));
        }
        end = end - 1;
    }
    let mut r: Vec<char> = Vec::new();
    let mut k: usize = start;
    while k < end
        invariant
            start <= k <= end <= w.len(),
            r@ == w@.subrange(start as int, k as int),
        decreases end - k,
    {
        r.push(w[k]);
        proof {
            assert(r@ =~= w@.subrange(start as int, k + 1));
        }
        k = k + 1;
    }
    proof {
        let t = w@.subrange(start as int, end as int);
        assert(trim_end_dollar(t) == t);
    }
    r
}

/// The positive terms of a query, stripped of their syntax characters. The
/// query is cut into atoms where nucleo's pattern parser cuts it: at spaces
/// not escaped by a backslash.
pub fn positive_query_terms(query: &str) -> (r: Vec<Vec<char>>)
    ensures
        seqs_of(r@) == positive_terms(atoms(query@)),
{
    let qc = chars_of(query);
    let ws = split_atoms(&qc);
    let ghost all = seqs_of(ws@);
    let mut r: Vec<Vec<char>> = Vec::new();
    let mut i: usize = 0;
    while i < ws.len()
        invariant
            i <= ws.len(),
            all == seqs_of(ws@),
            all == atoms(query@),
            seqs_of(r@) == positive_terms(all.take(i as int)),
        decreases ws.len() - i,
    {
        proof {
            assert(all.take(i + 1).drop_last() =~= all.take(i as int));
            assert(all.take(i + 1).last() == ws@[i as int]@);
        }
        let w = &ws[i];
        if w.len() > 0 && w[0] == '!' {
        } else {
            let t = trim_term(w);
            let ghost r0 = seqs_of(r@);
            r.push(t);
            proof {
                assert(seqs_of(r@) =~= r0.push(t@));
            }
        }
        i = i + 1;
    }
    proof {
        assert(all.take(ws.len() as int) =~= all);
    }
    r
}

/// Some positive term of `terms` has a character that sets bit `b`.
pub open spec fn terms_set_bit(terms: Seq<Seq<char>>, b: u64) -> bool {
    exists|t: int| 0 <= t < terms.len() && chars_set_bit(#[trigger] terms[t], b)
}

/// The presence masks of `terms`, or-ed together.
pub open spec fn terms_mask(terms: Seq<Seq<char>>) -> u64
    decreases terms.len(),
{
    if terms.len() == 0 {
        0u64
    } else {
        terms_mask(terms.drop_last()) | char_mask_spec(terms.last())
    }
}

/// Bit `b` of the presence mask of `s` is set exactly when some character
/// of `s` folds onto bit `b`.
pub proof fn lemma_char_mask_bits(s: Seq<char>, b: u64)
    requires
        b < 64,
    ensures
        has_bit(char_mask_spec(s), b) <==> chars_set_bit(s, b),
    decreases s.len(),
{
    if s.len() == 0 {
        lemma_zero_bits(b);
    } else {
        let t = s.drop_last();
        let c = s.last();
        lemma_char_mask_bits(t, b);
        let m0 = char_mask_spec(t);
        match mask_bit(c) {
            Some(b0) => {
                assert(b0 < 36);
                lemma_set_bit(m0, b0, b);
            },
            None => {
                assert(m0 | 0u64 == m0) by (bit_vector);
            },
        }
        if chars_set_bit(s, b) {
            let j = choose|j: int| 0 <= j < s.len() && mask_bit(#[trigger] s[j]) == Some(b);
            if j < s.len() - 1 {
                assert(t[j] == s[j]);
            }
        }
        if chars_set_bit(t, b) {
            let j = choose|j: int| 0 <= j < t.len() && mask_bit(#[trigger] t[j]) == Some(b);
            assert(s[j] == t[j]);
        }
        if mask_bit(c) == Some(b) {
            assert(s[s.len() - 1] == c);
        }
    }
}

/// Bit `b` of the or-ed masks of `ts` is set exactly when some character of
/// some term folds onto bit `b`.
pub proof fn lemma_terms_mask_bits(ts: Seq<Seq<char>>, b: u64)
    requires
        b < 64,
    ensures
        has_bit(terms_mask(ts), b) <==> terms_set_bit(ts, b),
    decreases ts.len(),
{
    if ts.len() == 0 {
        lemma_zero_bits(b);
    } else {
        let r = ts.drop_last();
        lemma_terms_mask_bits(r, b);
        lemma_char_mask_bits(ts.last(), b);
        lemma_or_bits(terms_mask(r), char_mask_spec(ts.last()), b);
        if terms_set_bit(ts, b) {
            let t = choose|t: int| 0 <= t < ts.len() && chars_set_bit(#[trigger] ts[t], b);
            if t < ts.len() - 1 {
                assert(r[t] == ts[t]);
            }
        }
        if terms_set_bit(r, b) {
            let t = choose|t: int| 0 <= t < r.len() && chars_set_bit(#[trigger] r[t], b);
            assert(ts[t] == r[t]);
        }
        if chars_set_bit(ts.last(), b) {
            assert(ts[ts.len() - 1] == ts.last());
        }
    }
}

/// A set bit of a non-zero word.
pub proof fn lemma_some_bit(d: u64) -> (b: u64)
    requires
        d != 0,
    ensures
        b < 64,
        has_bit(d, b),
    decreases d,
{
    if d & 1u64 == 1u64 {
        assert((d >> 0u64) & 1u64 == 1u64) by (bit_vector)
            requires
                d & 1u64 == 1u64,
        ;
        0
    } else {
        let e = d >> 1u64;
        assert(e != 0 && e < d && (e >> 63u64) & 1u64 == 0) by (bit_vector)
            requires
                d != 0,
                d & 1u64 != 1u64,
                e == d >> 1u64,
        ;
        let b1 = lemma_some_bit(e);
        assert(b1 < 63);
        assert((d >> (b1 + 1) as u64) & 1u64 == 1u64) by (bit_vector)
            requires
                e == d >> 1u64,
                (e >> b1) & 1u64 == 1u64,
                b1 < 63,
        ;
        (b1 + 1) as u64
    }
}

/// The presence mask of a query: that of its positive terms.
pub open spec fn query_mask_spec(query: Seq<char>) -> u64 {
    terms_mask(positive_terms(atoms(query)))
}

/// Character-presence bitmask of a query, counting only its positive terms
/// (atoms led by `!` are skipped; atoms are cut at unescaped spaces, as
/// nucleo cuts them) with the `^`, `'` and `$` syntax removed.
pub fn compute_query_mask(query: &str) -> (m: u64)
    ensures
        forall|b: u64|
            b < 64 ==> (has_bit(m, b) <==> terms_set_bit(positive_terms(atoms(query@)), b)),
        m == query_mask_spec(query@),
{
    let terms = positive_query_terms(query);
    let ghost ts = seqs_of(terms@);
    let mut m: u64 = 0;
    let mut i: usize = 0;
    proof {
        assert forall|b: u64| b < 64 implies (has_bit(m, b) <==> terms_set_bit(ts.take(0), b)) by {
            lemma_zero_bits(b);
        }
    }
    while i < terms.len()
        invariant
            i <= terms.len(),
            ts == seqs_of(terms@),
            ts == positive_terms(atoms(query@)),
            forall|b: u64| b < 64 ==> (has_bit(m, b) <==> terms_set_bit(ts.take(i as int), b)),
            m == terms_mask(ts.take(i as int)),
        decreases terms.len() - i,
    {
        let tm = char_mask_of_chars(&terms[i]);
        let ghost old_m = m;
        m = m | tm;
        proof {
            assert(ts.take(i + 1).drop_last() == ts.take(i as int));
            assert(ts.take(i + 1).last() == terms@[i as int]@);
            let a = ts.take(i as int);
            let a2 = ts.take(i + 1);
            assert forall|b: u64| b < 64 implies (has_bit(m, b) <==> terms_set_bit(a2, b)) by {
                lemma_or_bits(old_m, tm, b);
                assert(has_bit(old_m, b) <==> terms_set_bit(a, b));
                assert(a2[i as int] == terms@[i as int]@);
                if terms_set_bit(a2, b) {
                    let t = choose|t: int| 0 <= t < a2.len() && chars_set_bit(#[trigger] a2[t], b);
                    if t < i {
                        assert(a[t] == a2[t]);
                    }
                }
                if terms_set_bit(a, b) {
                    let t = choose|t: int| 0 <= t < a.len() && chars_set_bit(#[trigger] a[t], b);
                    assert(a2[t] == a[t]);
                }
            }
        }
        i = i + 1;
    }
    proof {
        assert(ts.take(terms.len() as int) =~= ts);
    }
    m
}

} // verus!

verus! {

/// The byte a folded character contributes to a bigram key: ASCII letters
/// map onto 0–25 regardless of case, digits onto 26–35, and every other
/// character is hashed into 36–255 by its code point modulo 220.
pub open spec fn ascii_bucket(c: char) -> u8 {
    if 'a' <= c && c <= 'z' {
        (c as int - 'a' as int) as u8
    } else if 'A' <= c && c <= 'Z' {
        (c as int - 'A' as int) as u8
    } else if '0' <= c && c <= '9' {
        (26 + c as int - '0' as int) as u8
    } else {
        (36 + (c as u32 as int) % 220) as u8
    }
}

/// The 16-bit key of the character pair `(a, b)`: the bucket of `a` in the
/// high byte, the bucket of `b` in the low byte.
pub open spec fn bigram_key_of(a: char, b: char) -> u16 {
    (bucket(a) as int * 256 + bucket(b) as int) as u16
}

/// The byte a character contributes to a bigram key: that of its folded
/// form.
pub open spec fn bucket(c: char) -> u8 {
    ascii_bucket(folded(c))
}

/// Encode a character into its bucket byte.
pub fn char_bucket(c0: char) -> (r: u8)
    ensures
        r == bucket(c0),
{
    let c = fold_char(c0);
    if 'a' <= c && c <= 'z' {
        (c as u32 - 'a' as u32) as u8
    } else if 'A' <= c && c <= 'Z' {
        (c as u32 - 'A' as u32) as u8
    } else if '0' <= c && c <= '9' {
        (26 + c as u32 - '0' as u32) as u8
    } else {
        (36 + (c as u32 % 220)) as u8
    }
}

/// Encode a character pair into a bigram key.
pub fn bigram_key(a: char, b: char) -> (r: u16)
    ensures
        r == bigram_key_of(a, b),
        r as int == bucket(a) as int * 256 + bucket(b) as int,
{
    let x = char_bucket(a);
    let y = char_bucket(b);
    let r = ((x as u16) << 8u16) | (y as u16);
    assert(((x as u16) << 8u16) | (y as u16) == (x as u16) * 256 + (y as u16)) by (bit_vector);
    r
}

/// The keys of all adjacent character pairs of `s`.
pub open spec fn bigram_set(s: Seq<char>) -> Set<u16> {
    Set::new(|k: u16| exists|i: int| 0 <= i < s.len() - 1 && bigram_key_of(#[trigger] s[i], s[i + 1]) == k)
}

/// The bigram keys of a character sequence, sorted and without repeats.
pub fn bigrams_of_chars(s: &Vec<char>) -> (r: Vec<u16>)
    ensures
        crate::sorted::strictly_increasing_u16(r@),
        r@.to_set() == bigram_set(s@),
{
    let mut r: Vec<u16> = Vec::new();
    if s.len() < 2 {
        proof {
            assert(r@.to_set() =~= bigram_set(s@));
        }
        return r;
    }
    let mut i: usize = 0;
    while i + 1 < s.len()
        invariant
            i + 1 <= s.len(),
            crate::sorted::strictly_increasing_u16(r@),
            r@.to_set() == Set::new(
                |k: u16| exists|j: int| 0 <= j < i && bigram_key_of(#[trigger] s@[j], s@[j + 1]) == k,
            ),
        decreases s.len() - i,
    {
        let k = bigram_key(s[i], s[i + 1]);
        let ghost before = r@.to_set();
        crate::sorted::insert_unique_u16(&mut r, k);
        proof {
            assert(r@.to_set() =~= Set::new(
                |k2: u16| exists|j: int| 0 <= j < i + 1 && bigram_key_of(#[trigger] s@[j], s@[j + 1]) == k2,
            )) by {
                assert forall|k2: u16| r@.to_set().contains(k2) implies (exists|j: int|
                    0 <= j < i + 1 && bigram_key_of(#[trigger] s@[j], s@[j + 1]) == k2) by {
                    if k2 != k {
                        assert(before.contains(k2));
                    }
                }
            }
        }
        i = i + 1;
    }
    proof {
        assert(r@.to_set() =~= bigram_set(s@));
    }
    r
}

/// Extract the bigram keys of a string, sorted and without repeats.
pub fn extract_bigrams(s: &str) -> (r: Vec<u16>)
    ensures
        crate::sorted::strictly_increasing_u16(r@),
        r@.to_set() == bigram_set(s@),
{
    let v = chars_of(s);
    bigrams_of_chars(&v)
}

/// The bigram keys of the positive terms of a query.
pub open spec fn query_bigram_set(query: Seq<char>) -> Set<u16> {
    let terms = positive_terms(atoms(query));
    Set::new(|k: u16| exists|t: int| 0 <= t < terms.len() && bigram_set(#[trigger] terms[t]).contains(k))
}

/// Extract the bigram keys of a query, sorted and without repeats: atoms
/// (cut at unescaped spaces) led by `!` are skipped, and `^`, `'` and `$`
/// syntax is stripped first.
pub fn extract_query_bigrams(query: &str) -> (r: Vec<u16>)
    ensures
        crate::sorted::strictly_increasing_u16(r@),
        r@.to_set() == query_bigram_set(query@),
{
    let terms = positive_query_terms(query);
    let ghost ts = seqs_of(terms@);
    let mut r: Vec<u16> = Vec::new();
    let mut t: usize = 0;
    while t < terms.len()
        invariant
            t <= terms.len(),
            ts == seqs_of(terms@),
            ts == positive_terms(atoms(query@)),
            crate::sorted::strictly_increasing_u16(r@),
            r@.to_set() == Set::new(
                |k: u16| exists|u: int| 0 <= u < t && bigram_set(#[trigger] ts[u]).contains(k),
            ),
        decreases terms.len() - t,
    {
        let bg = bigrams_of_chars(&terms[t]);
        let mut j: usize = 0;
        let ghost start = r@.to_set();
        while j < bg.len()
            invariant
                j <= bg.len(),
                crate::sorted::strictly_increasing_u16(r@),
                r@.to_set() == start.union(bg@.take(j as int).to_set()),
            decreases bg.len() - j,
        {
            let ghost before = r@.to_set();
            crate::sorted::insert_unique_u16(&mut r, bg[j]);
            proof {
                assert(bg@.take(j + 1).to_set() =~= bg@.take(j as int).to_set().insert(bg@[j as int])) by {
                    assert(bg@.take(j + 1) =~= bg@.take(j as int).push(bg@[j as int]));
                    bg@.take(j as int).lemma_push_to_set_commute(bg@[j as int]);
                }
                assert(r@.to_set() =~= start.union(bg@.take(j + 1).to_set()));
            }
            j = j + 1;
        }
        proof {
            assert(bg@.take(bg.len() as int) =~= bg@);
            assert(ts[t as int] == terms@[t as int]@);
            assert(r@.to_set() =~= Set::new(
                |k: u16| exists|u: int| 0 <= u < t + 1 && bigram_set(#[trigger] ts[u]).contains(k),
            )) by {
                assert forall|k: u16| r@.to_set().contains(k) implies exists|u: int|
                    0 <= u < t + 1 && bigram_set(#[trigger] ts[u]).contains(k) by {
                    if !start.contains(k) {
                        assert(bg@.contains(k));
                        assert(bigram_set(ts[t as int]).contains(k));
                    }
                }
                assert forall|k: u16| (exists|u: int|
                    0 <= u < t + 1 && bigram_set(#[trigger] ts[u]).contains(k)) implies r@.to_set().contains(k) by {
                    let u = choose|u: int| 0 <= u < t + 1 && bigram_set(#[trigger] ts[u]).contains(k);
                    if u == t {
                        assert(bg@.to_set().contains(k));
                    } else {
                        assert(start.contains(k));
                    }
                }
            }
        }
        t = t + 1;
    }
    proof {
        assert(r@.to_set() =~= query_bigram_set(query@));
    }
    r
}

} // verus!

verus! {

/// The character sequences of a list of strings.
pub open spec fn strings_view(s: Seq<String>) -> Seq<Seq<char>> {
    s.map_values(|x: String| x@)
}

} // verus!

verus! {

/// Collects characters into a `String` with `FromIterator`, which keeps
/// them in order.
#[verifier::external_body]
pub(crate) fn string_from_chars(v: &Vec<char>) -> (s: String)
    ensures
        s@ == v@,
{
    v.iter().collect::<String>()
}

/// The decimal digit character for `d < 10`.
pub open spec fn digit_char(d: nat) -> char {
    if d == 0 {
        '0'
    } else if d == 1 {
        '1'
    } else if d == 2 {
        '2'
    } else if d == 3 {
        '3'
    } else if d == 4 {
        '4'
    } else if d == 5 {
        '5'
    } else if d == 6 {
        '6'
    } else if d == 7 {
        '7'
    } else if d == 8 {
        '8'
    } else {
        '9'
    }
}

/// The decimal notation of `n`, without leading zeros.
pub open spec fn decimal(n: nat) -> Seq<char>
    decreases n,
{
    if n < 10 {
        seq![digit_char(n)]
    } else {
        decimal(n / 10).push(digit_char(n % 10))
    }
}

fn digit_of(d: u32) -> (c: char)
    requires
        d < 10,
    ensures
        c == digit_char(d as nat),
{
    if d == 0 {
        '0'
    } else if d == 1 {
        '1'
    } else if d == 2 {
        '2'
    } else if d == 3 {
        '3'
    } else if d == 4 {
        '4'
    } else if d == 5 {
        '5'
    } else if d == 6 {
        '6'
    } else if d == 7 {
        '7'
    } else if d == 8 {
        '8'
    } else {
        '9'
    }
}

fn push_decimal(v: &mut Vec<char>, n: u64)
    ensures
        final(v)@ == old(v)@ + decimal(n as nat),
    decreases n,
{
    if n >= 10 {
        push_decimal(v, n / 10);
    }
    v.push(digit_of((n % 10) as u32));
    proof {
        if n >= 10 {
            assert(final(v)@ =~= old(v)@ + decimal(n as nat));
        } else {
            assert(final(v)@ =~= old(v)@ + decimal(n as nat));
        }
    }
}

/// The decimal notation of `n`.
pub fn u32_to_decimal(n: u32) -> (s: String)
    ensures
        s@ == decimal(n as nat),
{
    let mut v: Vec<char> = Vec::new();
    push_decimal(&mut v, n as u64);
    proof {
        assert(v@ =~= decimal(n as nat));
    }
    string_from_chars(&v)
}

/// The decimal digits of `n`, most significant first.
pub fn usize_to_decimal(n: usize) -> (s: String)
    ensures
        s@ == decimal(n as nat),
{
    let mut v: Vec<char> = Vec::new();
    push_decimal(&mut v, n as u64);
    proof {
        assert(v@ =~= decimal(n as nat));
    }
    string_from_chars(&v)
}

} // verus!
