use std::collections::HashMap;

use vstd::prelude::*;

use crate::sorted::{
    count_u32, insert_unique_u32, intersect_sorted, lemma_count_skip_first, lemma_count_split,
    nondecreasing_u32, strictly_increasing_u32,
};
use crate::text::{bigram_set, extract_bigrams};

verus! {

broadcast use vstd::std_specs::hash::group_hash_axioms;

/// The indices of the items of `items` whose bigrams include `k`.
pub open spec fn postings(items: Seq<Seq<char>>, k: u16) -> Set<u32> {
    Set::new(|x: u32| x < items.len() && bigram_set(items[x as int]).contains(k))
}

/// The indices of the items of `items` that hold every bigram of `query`.
pub open spec fn candidate_set(items: Seq<Seq<char>>, query: Seq<u16>) -> Set<u32> {
    Set::new(
        |x: u32|
            x < items.len() && forall|j: int|
                0 <= j < query.len() ==> bigram_set(items[x as int]).contains(#[trigger] query[j]),
    )
}

/// The items after removing the one at `i` by swapping the last one into
/// its place (what `Vec::swap_remove` does).
pub open spec fn swap_removed(items: Seq<Seq<char>>, i: int) -> Seq<Seq<char>> {
    if i == items.len() - 1 {
        items.drop_last()
    } else {
        items.update(i, items.last()).drop_last()
    }
}

/// `m` maps each key `k` to the sorted list of `post(k)`, and holds no key
/// whose set is empty.
pub open spec fn lists_match(m: Map<u16, Vec<u32>>, post: spec_fn(u16) -> Set<u32>) -> bool {
    &&& forall|k: u16|
        #[trigger] m.contains_key(k) ==> {
            &&& strictly_increasing_u32(m[k]@)
            &&& m[k]@.to_set() == post(k)
            &&& m[k]@.len() > 0
        }
    &&& forall|k: u16| !#[trigger] m.contains_key(k) ==> post(k) == Set::<u32>::empty()
}

/// Inverted bigram index for pre-filtering the candidates of a search.
///
/// Maps each bigram key to the sorted list of the indices of the items that
/// contain it. At query time, posting lists are intersected to find the
/// items that contain every bigram of the query.
pub struct BigramIndex {
    index: HashMap<u16, Vec<u32>>,
    num_items: usize,
    items: Ghost<Seq<Seq<char>>>,
}

impl View for BigramIndex {
    type V = Seq<Seq<char>>;

    /// The character sequences of the indexed items, by index.
    closed spec fn view(&self) -> Seq<Seq<char>> {
        self.items@
    }
}

impl BigramIndex {
    /// The posting lists agree with the items.
    pub closed spec fn wf(&self) -> bool {
        &&& self.num_items == self.items@.len()
        &&& self.items@.len() <= u32::MAX
        &&& lists_match(self.index@, |k: u16| postings(self.items@, k))
    }
}

proof fn lemma_strict_nondecreasing(s: Seq<u32>)
    requires
        strictly_increasing_u32(s),
    ensures
        nondecreasing_u32(s),
{
}

proof fn lemma_strict_count(s: Seq<u32>, x: u32)
    requires
        strictly_increasing_u32(s),
    ensures
        count_u32(s, x) == if s.contains(x) {
            1nat
        } else {
            0nat
        },
    decreases s.len(),
{
    if s.len() > 0 {
        let t = s.drop_last();
        lemma_strict_count(t, x);
        if s.last() == x {
            if t.contains(x) {
                let k = choose|k: int| 0 <= k < t.len() && t[k] == x;
                assert(s[k] < s[s.len() - 1]);
            }
            assert(s[s.len() - 1] == x);
        } else {
            if s.contains(x) {
                let k = choose|k: int| 0 <= k < s.len() && s[k] == x;
                assert(t[k] == x);
            }
            if t.contains(x) {
                let k = choose|k: int| 0 <= k < t.len() && t[k] == x;
                assert(s[k] == x);
            }
        }
    } else {
        assert(!s.contains(x));
    }
}

proof fn lemma_counts_at_most_one_strict(s: Seq<u32>)
    requires
        nondecreasing_u32(s),
        forall|x: u32| #[trigger] count_u32(s, x) <= 1,
    ensures
        strictly_increasing_u32(s),
{
    assert forall|i: int, j: int| 0 <= i < j < s.len() implies s[i] < s[j] by {
        if s[i] == s[j] {
            let x = s[i];
            lemma_count_split(s, j, x);
            lemma_count_split(s.take(j), i, x);
            lemma_count_skip_first(s.skip(j), x);
            lemma_count_skip_first(s.take(j).skip(i), x);
            assert(s.skip(j)[0] == x);
            assert(s.take(j).skip(i)[0] == x);
            assert(count_u32(s, x) >= 2);
        }
    }
}

/// Intersection of two strictly increasing lists, as sets.
pub(crate) fn intersect_strict(a: &Vec<u32>, b: &Vec<u32>) -> (r: Vec<u32>)
    requires
        strictly_increasing_u32(a@),
        strictly_increasing_u32(b@),
    ensures
        strictly_increasing_u32(r@),
        r@.to_set() == a@.to_set().intersect(b@.to_set()),
{
    proof {
        lemma_strict_nondecreasing(a@);
        lemma_strict_nondecreasing(b@);
    }
    let r = intersect_sorted(a.as_slice(), b.as_slice());
    proof {
        assert forall|x: u32| #[trigger] count_u32(r@, x) <= 1 by {
            lemma_strict_count(a@, x);
            lemma_strict_count(b@, x);
        }
        lemma_counts_at_most_one_strict(r@);
        assert forall|x: u32| r@.to_set().contains(x) == a@.to_set().intersect(b@.to_set()).contains(x) by {
            lemma_strict_count(a@, x);
            lemma_strict_count(b@, x);
            lemma_strict_count(r@, x);
        }
        assert(r@.to_set() =~= a@.to_set().intersect(b@.to_set()));
    }
    r
}

/// The list without `x`.
fn without(v: &Vec<u32>, x: u32) -> (r: Vec<u32>)
    requires
        strictly_increasing_u32(v@),
    ensures
        strictly_increasing_u32(r@),
        r@.to_set() == v@.to_set().remove(x),
{
    let mut r: Vec<u32> = Vec::new();
    let mut i: usize = 0;
    while i < v.len()
        invariant
            i <= v.len(),
            strictly_increasing_u32(v@),
            strictly_increasing_u32(r@),
            r@.len() > 0 ==> exists|k: int| 0 <= k < i && r@.last() == v@[k],
            r@.to_set() == v@.take(i as int).to_set().remove(x),
        decreases v.len() - i,
    {
        let y = v[i];
        let ghost r0 = r@;
        proof {
            assert(v@.take(i + 1) =~= v@.take(i as int).push(y));
            v@.take(i as int).lemma_push_to_set_commute(y);
        }
        if y != x {
            r.push(y);
            proof {
                r0.lemma_push_to_set_commute(y);
                assert forall|p: int, q: int| 0 <= p < q < r@.len() implies r@[p] < r@[q] by {
                    if q == r@.len() - 1 {
                        let k = choose|k: int| 0 <= k < i && r0.last() == v@[k];
                        assert(r0[p] <= r0.last());
                        assert(v@[k] < v@[i as int]);
                    }
                }
                assert(r@.to_set() =~= v@.take(i + 1).to_set().remove(x));
            }
        } else {
            proof {
                assert(r@.to_set() =~= v@.take(i + 1).to_set().remove(x));
            }
        }
        i = i + 1;
    }
    proof {
        assert(v@.take(v.len() as int) =~= v@);
    }
    r
}

} // verus!

verus! {

/// Adds `x` to the list of every key of `keys`; `x` is larger than every
/// index held so far.
fn add_to_lists(
    m: &mut HashMap<u16, Vec<u32>>,
    keys: &Vec<u16>,
    x: u32,
    Ghost(post): Ghost<spec_fn(u16) -> Set<u32>>,
)
    requires
        lists_match(old(m)@, post),
        crate::sorted::strictly_increasing_u16(keys@),
        forall|k: u16, y: u32| #[trigger] post(k).contains(y) ==> y < x,
    ensures
        lists_match(
            final(m)@,
            |k: u16|
                if keys@.contains(k) {
                    post(k).insert(x)
                } else {
                    post(k)
                },
        ),
{
    let mut j: usize = 0;
    while j < keys.len()
        invariant
            j <= keys.len(),
            crate::sorted::strictly_increasing_u16(keys@),
            forall|k: u16, y: u32| #[trigger] post(k).contains(y) ==> y < x,
            lists_match(
                m@,
                |k: u16|
                    if keys@.take(j as int).contains(k) {
                        post(k).insert(x)
                    } else {
                        post(k)
                    },
            ),
        decreases keys.len() - j,
    {
        let key = keys[j];
        let ghost pre = m@;
        let ghost old_post = |k: u16|
            if keys@.take(j as int).contains(k) {
                post(k).insert(x)
            } else {
                post(k)
            };
        let ghost new_post = |k: u16|
            if keys@.take(j + 1).contains(k) {
                post(k).insert(x)
            } else {
                post(k)
            };
        proof {
            assert(keys@.take(j + 1) =~= keys@.take(j as int).push(key));
            keys@.take(j as int).lemma_push_to_set_commute(key);
            assert(!keys@.take(j as int).contains(key)) by {
                if keys@.take(j as int).contains(key) {
                    let p = choose|p: int| 0 <= p < j && keys@.take(j as int)[p] == key;
                    assert(keys@[p] < keys@[j as int]);
                }
            }
            assert forall|k: u16| k != key implies (keys@.take(j + 1).contains(k) <==> keys@.take(
                j as int,
            ).contains(k)) by {
                assert(keys@.take(j + 1).to_set().contains(k) <==> keys@.take(j as int).to_set().contains(k));
            }
            assert(keys@.take(j + 1).contains(key)) by {
                assert(keys@.take(j + 1)[j as int] == key);
            }
        }
        let removed = m.remove(&key);
        match removed {
            Some(list) => {
                let mut list = list;
                proof {
                    assert(pre.contains_key(key));
                    assert(list@.to_set() == post(key));
                }
                let ghost l0 = list@;
                list.push(x);
                proof {
                    l0.lemma_push_to_set_commute(x);
                    assert forall|p: int, q: int| 0 <= p < q < list@.len() implies list@[p]
                        < list@[q] by {
                        if q == list@.len() - 1 {
                            assert(l0.to_set().contains(l0[p]));
                        }
                    }
                }
                m.insert(key, list);
            },
            None => {
                proof {
                    assert(!pre.contains_key(key));
                }
                let mut list: Vec<u32> = Vec::new();
                list.push(x);
                proof {
                    assert(list@ =~= seq![x]);
                    assert(list@.to_set() =~= Set::<u32>::empty().insert(x)) by {
                        assert(list@ =~= Seq::<u32>::empty().push(x));
                        Seq::<u32>::empty().lemma_push_to_set_commute(x);
                    }
                }
                m.insert(key, list);
            },
        }
        proof {
            assert forall|k: u16| #[trigger] m@.contains_key(k) implies {
                &&& strictly_increasing_u32(m@[k]@)
                &&& m@[k]@.to_set() == new_post(k)
                &&& m@[k]@.len() > 0
            } by {
                if k != key {
                    assert(pre.contains_key(k));
                    assert(old_post(k) == new_post(k));
                } else {
                    assert(new_post(key) == post(key).insert(x));
                }
            }
            assert forall|k: u16| !#[trigger] m@.contains_key(k) implies new_post(k) == Set::<
                u32,
            >::empty() by {
                assert(k != key);
                assert(!pre.contains_key(k));
                assert(old_post(k) == new_post(k));
            }
        }
        j = j + 1;
    }
    proof {
        assert(keys@.take(keys.len() as int) =~= keys@);
    }
}

} // verus!

verus! {

proof fn lemma_lists_match_ext(
    m: Map<u16, Vec<u32>>,
    f: spec_fn(u16) -> Set<u32>,
    g: spec_fn(u16) -> Set<u32>,
)
    requires
        lists_match(m, f),
        forall|k: u16| #[trigger] f(k) == g(k),
    ensures
        lists_match(m, g),
{
    assert forall|k: u16| #[trigger] m.contains_key(k) implies m[k]@.to_set() == g(k) by {
        assert(f(k) == g(k));
    }
    assert forall|k: u16| !#[trigger] m.contains_key(k) implies g(k) == Set::<u32>::empty() by {
        assert(f(k) == g(k));
    }
}

proof fn lemma_postings_push(items: Seq<Seq<char>>, item: Seq<char>, keys: Seq<u16>, k: u16)
    requires
        keys.to_set() == bigram_set(item),
        items.len() < u32::MAX,
    ensures
        postings(items.push(item), k) == if keys.contains(k) {
            postings(items, k).insert(items.len() as u32)
        } else {
            postings(items, k)
        },
{
    let n = items.len() as u32;
    assert(keys.contains(k) <==> bigram_set(item).contains(k)) by {
        assert(keys.to_set().contains(k) <==> keys.contains(k));
    }
    if keys.contains(k) {
        assert(postings(items.push(item), k) =~= postings(items, k).insert(n)) by {
            assert forall|x: u32| #[trigger] postings(items.push(item), k).contains(x) == postings(items, k).insert(n).contains(x) by {
                if x < n {
                    assert(items.push(item)[x as int] == items[x as int]);
                }
            }
        }
    } else {
        assert(postings(items.push(item), k) =~= postings(items, k)) by {
            assert forall|x: u32| #[trigger] postings(items.push(item), k).contains(x) == postings(items, k).contains(x) by {
                if x < n {
                    assert(items.push(item)[x as int] == items[x as int]);
                }
            }
        }
    }
}

impl BigramIndex {
    /// Build a bigram index from a slice of items.
    pub fn new(items: &[String]) -> (r: Self)
        requires
            items@.len() <= u32::MAX,
        ensures
            r.wf(),
            r@ == crate::text::strings_view(items@),
    {
        let ghost all = crate::text::strings_view(items@);
        let mut index: HashMap<u16, Vec<u32>> = HashMap::new();
        let mut i: usize = 0;
        proof {
            assert forall|k: u16| !#[trigger] index@.contains_key(k) implies postings(all.take(0), k)
                == Set::<u32>::empty() by {
                assert(postings(all.take(0), k) =~= Set::<u32>::empty());
            }
        }
        while i < items.len()
            invariant
                i <= items.len(),
                items@.len() <= u32::MAX,
                all == crate::text::strings_view(items@),
                lists_match(index@, |k: u16| postings(all.take(i as int), k)),
            decreases items.len() - i,
        {
            let keys = extract_bigrams(items[i].as_str());
            let ghost done = all.take(i as int);
            proof {
                assert forall|k: u16, y: u32| #[trigger] postings(done, k).contains(y) implies y < i as u32 by {
                }
            }
            add_to_lists(&mut index, &keys, i as u32, Ghost(|k: u16| postings(done, k)));
            proof {
                assert(all.take(i + 1) =~= done.push(items@[i as int]@));
                assert forall|k: u16| #[trigger] postings(all.take(i + 1), k) == (if keys@.contains(k) {
                    postings(done, k).insert(i as u32)
                } else {
                    postings(done, k)
                }) by {
                    lemma_postings_push(done, items@[i as int]@, keys@, k);
                }
                lemma_lists_match_ext(
                    index@,
                    |k: u16|
                        if keys@.contains(k) {
                            postings(done, k).insert(i as u32)
                        } else {
                            postings(done, k)
                        },
                    |k: u16| postings(all.take(i + 1), k),
                );
            }
            i = i + 1;
        }
        proof {
            assert(all.take(items.len() as int) =~= all);
        }
        BigramIndex { index, num_items: items.len(), items: Ghost(all) }
    }

    /// Add a single item to the index, under the next free index.
    pub fn add_item(&mut self, index: u32, item: &str)
        requires
            old(self).wf(),
            index as int == old(self)@.len(),
            old(self)@.len() < u32::MAX,
        ensures
            final(self).wf(),
            final(self)@ == old(self)@.push(item@),
    {
        let keys = extract_bigrams(item);
        let ghost done = self.items@;
        proof {
            assert forall|k: u16, y: u32| #[trigger] postings(done, k).contains(y) implies y < index by {
            }
        }
        add_to_lists(&mut self.index, &keys, index, Ghost(|k: u16| postings(done, k)));
        proof {
            assert forall|k: u16| #[trigger] postings(done.push(item@), k) == (if keys@.contains(k) {
                postings(done, k).insert(index)
            } else {
                postings(done, k)
            }) by {
                lemma_postings_push(done, item@, keys@, k);
            }
            lemma_lists_match_ext(
                self.index@,
                |k: u16|
                    if keys@.contains(k) {
                        postings(done, k).insert(index)
                    } else {
                        postings(done, k)
                    },
                |k: u16| postings(done.push(item@), k),
            );
        }
        self.num_items = self.num_items + 1;
        self.items = Ghost(done.push(item@));
    }

    /// Clear the index.
    pub fn clear(&mut self)
        ensures
            final(self).wf(),
            final(self)@ == Seq::<Seq<char>>::empty(),
    {
        self.index.clear();
        self.num_items = 0;
        self.items = Ghost(Seq::empty());
        proof {
            assert forall|k: u16| !#[trigger] self.index@.contains_key(k) implies postings(self.items@, k)
                == Set::<u32>::empty() by {
                assert(postings(self.items@, k) =~= Set::<u32>::empty());
            }
        }
    }
}

} // verus!

verus! {

/// Whether `x` occurs in `v`.
fn list_contains(v: &Vec<u32>, x: u32) -> (r: bool)
    ensures
        r == v@.contains(x),
{
    let mut i: usize = 0;
    while i < v.len()
        invariant
            i <= v.len(),
            forall|k: int| 0 <= k < i ==> v@[k] != x,
        decreases v.len() - i,
    {
        if v[i] == x {
            return true;
        }
        i = i + 1;
    }
    false
}

proof fn lemma_key_step(keys: Seq<u16>, j: int)
    requires
        crate::sorted::strictly_increasing_u16(keys),
        0 <= j < keys.len(),
    ensures
        !keys.take(j).contains(keys[j]),
        keys.take(j + 1).contains(keys[j]),
        forall|k: u16| k != keys[j] ==> (keys.take(j + 1).contains(k) <==> keys.take(j).contains(k)),
{
    assert(keys.take(j + 1) =~= keys.take(j).push(keys[j]));
    keys.take(j).lemma_push_to_set_commute(keys[j]);
    if keys.take(j).contains(keys[j]) {
        let p = choose|p: int| 0 <= p < j && keys.take(j)[p] == keys[j];
        assert(keys[p] < keys[j]);
    }
    assert(keys.take(j + 1)[j] == keys[j]);
    assert forall|k: u16| k != keys[j] implies (keys.take(j + 1).contains(k) <==> keys.take(j).contains(k)) by {
        assert(keys.take(j + 1).to_set().contains(k) <==> keys.take(j).to_set().contains(k));
    }
}

/// Removes `x` from the list of every key of `keys`, dropping lists that
/// become empty.
fn drop_from_lists(
    m: &mut HashMap<u16, Vec<u32>>,
    keys: &Vec<u16>,
    x: u32,
    Ghost(post): Ghost<spec_fn(u16) -> Set<u32>>,
)
    requires
        lists_match(old(m)@, post),
        crate::sorted::strictly_increasing_u16(keys@),
    ensures
        lists_match(
            final(m)@,
            |k: u16|
                if keys@.contains(k) {
                    post(k).remove(x)
                } else {
                    post(k)
                },
        ),
{
    let mut j: usize = 0;
    while j < keys.len()
        invariant
            j <= keys.len(),
            crate::sorted::strictly_increasing_u16(keys@),
            lists_match(
                m@,
                |k: u16|
                    if keys@.take(j as int).contains(k) {
                        post(k).remove(x)
                    } else {
                        post(k)
                    },
            ),
        decreases keys.len() - j,
    {
        let key = keys[j];
        let ghost pre = m@;
        let ghost old_post = |k: u16|
            if keys@.take(j as int).contains(k) {
                post(k).remove(x)
            } else {
                post(k)
            };
        let ghost new_post = |k: u16|
            if keys@.take(j + 1).contains(k) {
                post(k).remove(x)
            } else {
                post(k)
            };
        proof {
            lemma_key_step(keys@, j as int);
        }
        let removed = m.remove(&key);
        match removed {
            Some(list) => {
                let nl = without(&list, x);
                if nl.len() > 0 {
                    m.insert(key, nl);
                } else {
                    proof {
                        assert(nl@.to_set() =~= Set::<u32>::empty());
                    }
                }
            },
            None => {
                proof {
                    assert(old_post(key) == Set::<u32>::empty());
                    assert(new_post(key) =~= Set::<u32>::empty());
                }
            },
        }
        proof {
            assert forall|k: u16| #[trigger] m@.contains_key(k) implies {
                &&& strictly_increasing_u32(m@[k]@)
                &&& m@[k]@.to_set() == new_post(k)
                &&& m@[k]@.len() > 0
            } by {
                if k != key {
                    assert(pre.contains_key(k));
                    assert(old_post(k) == new_post(k));
                }
            }
            assert forall|k: u16| !#[trigger] m@.contains_key(k) implies new_post(k) == Set::<
                u32,
            >::empty() by {
                if k != key {
                    assert(!pre.contains_key(k));
                    assert(old_post(k) == new_post(k));
                }
            }
        }
        j = j + 1;
    }
    proof {
        assert(keys@.take(keys.len() as int) =~= keys@);
    }
}

/// In the list of every key of `keys` that holds `from`, puts `to` in its
/// place.
fn relabel_in_lists(
    m: &mut HashMap<u16, Vec<u32>>,
    keys: &Vec<u16>,
    from: u32,
    to: u32,
    Ghost(post): Ghost<spec_fn(u16) -> Set<u32>>,
)
    requires
        lists_match(old(m)@, post),
        crate::sorted::strictly_increasing_u16(keys@),
    ensures
        lists_match(
            final(m)@,
            |k: u16|
                if keys@.contains(k) && post(k).contains(from) {
                    post(k).remove(from).insert(to)
                } else {
                    post(k)
                },
        ),
{
    let mut j: usize = 0;
    while j < keys.len()
        invariant
            j <= keys.len(),
            crate::sorted::strictly_increasing_u16(keys@),
            lists_match(
                m@,
                |k: u16|
                    if keys@.take(j as int).contains(k) && post(k).contains(from) {
                        post(k).remove(from).insert(to)
                    } else {
                        post(k)
                    },
            ),
        decreases keys.len() - j,
    {
        let key = keys[j];
        let ghost pre = m@;
        let ghost old_post = |k: u16|
            if keys@.take(j as int).contains(k) && post(k).contains(from) {
                post(k).remove(from).insert(to)
            } else {
                post(k)
            };
        let ghost new_post = |k: u16|
            if keys@.take(j + 1).contains(k) && post(k).contains(from) {
                post(k).remove(from).insert(to)
            } else {
                post(k)
            };
        proof {
            lemma_key_step(keys@, j as int);
        }
        let removed = m.remove(&key);
        match removed {
            Some(list) => {
                if list_contains(&list, from) {
                    let mut nl = without(&list, from);
                    insert_unique_u32(&mut nl, to);
                    proof {
                        assert(nl@.to_set().contains(to));
                        assert(nl@.len() > 0) by {
                            if nl@.len() == 0 {
                                assert(nl@.to_set() =~= Set::<u32>::empty());
                            }
                        }
                    }
                    m.insert(key, nl);
                } else {
                    m.insert(key, list);
                }
            },
            None => {
                proof {
                    assert(old_post(key) == Set::<u32>::empty());
                    assert(!post(key).contains(from));
                }
            },
        }
        proof {
            assert forall|k: u16| #[trigger] m@.contains_key(k) implies {
                &&& strictly_increasing_u32(m@[k]@)
                &&& m@[k]@.to_set() == new_post(k)
                &&& m@[k]@.len() > 0
            } by {
                if k != key {
                    assert(pre.contains_key(k));
                    assert(old_post(k) == new_post(k));
                }
            }
            assert forall|k: u16| !#[trigger] m@.contains_key(k) implies new_post(k) == Set::<
                u32,
            >::empty() by {
                if k != key {
                    assert(!pre.contains_key(k));
                    assert(old_post(k) == new_post(k));
                } else {
                    assert(new_post(k) == post(k));
                }
            }
        }
        j = j + 1;
    }
    proof {
        assert(keys@.take(keys.len() as int) =~= keys@);
    }
}

} // verus!

verus! {

impl BigramIndex {
    /// Remove the item at `removed_index` the way `Vec::swap_remove` does:
    /// the last item (at `last_index`) takes its place. `last_item` is the
    /// text of that last item; it is not looked at when the removed item is
    /// itself the last one.
    pub fn remove_item(
        &mut self,
        removed_index: u32,
        last_index: u32,
        removed_item: &str,
        last_item: Option<&str>,
    )
        requires
            old(self).wf(),
            removed_index < old(self)@.len(),
            last_index as int == old(self)@.len() - 1,
            removed_item@ == old(self)@[removed_index as int],
            removed_index != last_index ==> (last_item matches Some(s) && s@ == old(self)@[last_index as int]),
        ensures
            final(self).wf(),
            final(self)@ == swap_removed(old(self)@, removed_index as int),
    {
        let ghost items = self.items@;
        let ghost n = items.len();
        let ghost r = removed_index;
        let ghost l = last_index;
        let ghost post0 = |k: u16| postings(items, k);
        let removed_keys = extract_bigrams(removed_item);
        drop_from_lists(&mut self.index, &removed_keys, removed_index, Ghost(post0));
        let ghost post1 = |k: u16|
            if removed_keys@.contains(k) {
                post0(k).remove(removed_index)
            } else {
                post0(k)
            };
        proof {
            assert forall|k: u16| #[trigger] post1(k) == post0(k).remove(r) by {
                assert(removed_keys@.contains(k) <==> removed_keys@.to_set().contains(k));
                if !removed_keys@.contains(k) {
                    assert(post0(k) =~= post0(k).remove(r));
                }
            }
            lemma_lists_match_ext(self.index@, post1, |k: u16| post0(k).remove(r));
        }
        let ghost new_items = swap_removed(items, r as int);
        match last_item {
            Some(last_str) => {
                if removed_index != last_index {
                    let last_keys = extract_bigrams(last_str);
                    let ghost p1 = |k: u16| post0(k).remove(r);
                    relabel_in_lists(&mut self.index, &last_keys, last_index, removed_index, Ghost(p1));
                    proof {
                        assert forall|k: u16| #[trigger] postings(new_items, k) == (if last_keys@.contains(k)
                            && p1(k).contains(l) {
                            p1(k).remove(l).insert(r)
                        } else {
                            p1(k)
                        }) by {
                            assert(last_keys@.contains(k) <==> bigram_set(items[l as int]).contains(k)) by {
                                assert(last_keys@.contains(k) <==> last_keys@.to_set().contains(k));
                            }
                            assert forall|x: u32| #[trigger] postings(new_items, k).contains(x) == (if last_keys@.contains(k) && p1(k).contains(l) {
                                p1(k).remove(l).insert(r)
                            } else {
                                p1(k)
                            }).contains(x) by {
                                if x < n - 1 && x != r {
                                    assert(new_items[x as int] == items[x as int]);
                                }
                                if x == r {
                                    assert(new_items[x as int] == items[l as int]);
                                }
                            }
                            assert(postings(new_items, k) =~= (if last_keys@.contains(k) && p1(k).contains(l) {
                                p1(k).remove(l).insert(r)
                            } else {
                                p1(k)
                            }));
                        }
                        lemma_lists_match_ext(
                            self.index@,
                            |k: u16|
                                if last_keys@.contains(k) && p1(k).contains(l) {
                                    p1(k).remove(l).insert(r)
                                } else {
                                    p1(k)
                                },
                            |k: u16| postings(new_items, k),
                        );
                    }
                } else {
                    proof {
                        lemma_drop_last_postings(items, r);
                        lemma_lists_match_ext(self.index@, |k: u16| post0(k).remove(r), |k: u16| postings(new_items, k));
                    }
                }
            },
            None => {
                proof {
                    lemma_drop_last_postings(items, r);
                    lemma_lists_match_ext(self.index@, |k: u16| post0(k).remove(r), |k: u16| postings(new_items, k));
                }
            },
        }
        self.num_items = self.num_items - 1;
        self.items = Ghost(new_items);
    }
}

proof fn lemma_drop_last_postings(items: Seq<Seq<char>>, r: u32)
    requires
        r as int == items.len() - 1,
    ensures
        forall|k: u16| #[trigger] postings(items, k).remove(r) == postings(swap_removed(items, r as int), k),
{
    assert forall|k: u16| #[trigger] postings(items, k).remove(r) == postings(swap_removed(items, r as int), k) by {
        let new_items = swap_removed(items, r as int);
        assert forall|x: u32| #[trigger] postings(new_items, k).contains(x) == postings(items, k).remove(r).contains(x) by {
            if x < r {
                assert(new_items[x as int] == items[x as int]);
            }
        }
        assert(postings(items, k).remove(r) =~= postings(new_items, k));
    }
}

} // verus!

verus! {

impl BigramIndex {
    /// The indices of the items that contain every query bigram.
    ///
    /// `None` when the query has no bigram, when the index is empty, or when
    /// more than 80% of the items would be candidates (pre-filtering would
    /// not pay off). Otherwise the sorted candidate indices.
    pub fn candidates(&self, query_bigrams: &[u16]) -> (r: Option<Vec<u32>>)
        requires
            self.wf(),
        ensures
            query_bigrams@.len() == 0 || self@.len() == 0 ==> r is None,
            query_bigrams@.len() > 0 && self@.len() > 0 ==> {
                let c = candidate_set(self@, query_bigrams@);
                &&& c.finite()
                &&& (c.len() * 5 > self@.len() * 4 ==> r is None)
                &&& (c.len() * 5 <= self@.len() * 4 ==> (r matches Some(v) && strictly_increasing_u32(
                    v@,
                ) && v@.to_set() == c))
            },
    {
        if query_bigrams.len() == 0 || self.num_items == 0 {
            return None;
        }
        let ghost items = self.items@;
        let ghost q = query_bigrams@;
        let mut result: Vec<u32>;
        match self.index.get(&query_bigrams[0]) {
            Some(list) => {
                result = list.clone();
                proof {
                    assert(result@ == list@);
                    assert(result@.to_set() =~= candidate_set(items, q.take(1))) by {
                        assert forall|x: u32| #[trigger] candidate_set(items, q.take(1)).contains(x) == postings(items, q[0]).contains(x) by {
                            if postings(items, q[0]).contains(x) {
                                assert forall|j: int| 0 <= j < q.take(1).len() implies bigram_set(items[x as int]).contains(#[trigger] q.take(1)[j]) by {
                                    assert(j == 0);
                                }
                            }
                            if candidate_set(items, q.take(1)).contains(x) {
                                assert(q.take(1)[0] == q[0]);
                            }
                        }
                    }
                }
            },
            None => {
                proof {
                    lemma_candidates_empty(items, q, 0);
                }
                return Some(Vec::new());
            },
        }
        let mut j: usize = 1;
        while j < query_bigrams.len()
            invariant
                1 <= j <= query_bigrams.len(),
                self.wf(),
                self.num_items > 0,
                items == self.items@,
                q == query_bigrams@,
                strictly_increasing_u32(result@),
                result@.to_set() == candidate_set(items, q.take(j as int)),
            decreases query_bigrams.len() - j,
        {
            match self.index.get(&query_bigrams[j]) {
                Some(list) => {
                    result = intersect_strict(&result, list);
                    proof {
                        assert(result@.to_set() =~= candidate_set(items, q.take(j + 1))) by {
                            assert forall|x: u32| #[trigger] candidate_set(items, q.take(j + 1)).contains(x)
                                == (candidate_set(items, q.take(j as int)).contains(x) && postings(items, q[j as int]).contains(x)) by {
                                if candidate_set(items, q.take(j as int)).contains(x) && postings(items, q[j as int]).contains(x) {
                                    assert forall|i: int| 0 <= i < q.take(j + 1).len() implies bigram_set(items[x as int]).contains(#[trigger] q.take(j + 1)[i]) by {
                                        if i < j {
                                            assert(q.take(j + 1)[i] == q.take(j as int)[i]);
                                        }
                                    }
                                }
                                if candidate_set(items, q.take(j + 1)).contains(x) {
                                    assert(q.take(j + 1)[j as int] == q[j as int]);
                                    assert forall|i: int| 0 <= i < q.take(j as int).len() implies bigram_set(items[x as int]).contains(#[trigger] q.take(j as int)[i]) by {
                                        assert(q.take(j + 1)[i] == q.take(j as int)[i]);
                                    }
                                }
                            }
                        }
                    }
                    if result.len() == 0 {
                        proof {
                            lemma_candidates_subset(items, q, j + 1);
                            assert(result@.to_set() =~= Set::<u32>::empty());
                            assert(candidate_set(items, q) =~= Set::<u32>::empty());
                        }
                        return Some(Vec::new());
                    }
                },
                None => {
                    proof {
                        lemma_candidates_empty(items, q, j as int);
                    }
                    return Some(Vec::new());
                },
            }
            j = j + 1;
        }
        proof {
            assert(q.take(q.len() as int) =~= q);
            assert(result@.no_duplicates());
            result@.unique_seq_to_set();
        }
        if (result.len() as u128) * 5 > (self.num_items as u128) * 4 {
            return None;
        }
        Some(result)
    }
}

proof fn lemma_candidates_empty(items: Seq<Seq<char>>, q: Seq<u16>, j: int)
    requires
        0 <= j < q.len(),
        postings(items, q[j]) == Set::<u32>::empty(),
    ensures
        candidate_set(items, q) == Set::<u32>::empty(),
        candidate_set(items, q).finite(),
        candidate_set(items, q).len() == 0,
{
    assert forall|x: u32| !#[trigger] candidate_set(items, q).contains(x) by {
        if candidate_set(items, q).contains(x) {
            assert(bigram_set(items[x as int]).contains(q[j]));
            assert(postings(items, q[j]).contains(x));
        }
    }
    assert(candidate_set(items, q) =~= Set::<u32>::empty());
}

proof fn lemma_candidates_subset(items: Seq<Seq<char>>, q: Seq<u16>, j: int)
    requires
        0 <= j <= q.len(),
    ensures
        candidate_set(items, q).subset_of(candidate_set(items, q.take(j))),
{
    assert forall|x: u32| #[trigger] candidate_set(items, q).contains(x) implies candidate_set(items, q.take(j)).contains(x) by {
        assert forall|i: int| 0 <= i < q.take(j).len() implies bigram_set(items[x as int]).contains(#[trigger] q.take(j)[i]) by {
            assert(q.take(j)[i] == q[i]);
        }
    }
}

} // verus!
