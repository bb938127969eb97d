//! The word-frequency table: a map from word to occurrence count, kept as a
//! vector of pairs with unique keys and strictly positive counts.

use vstd::prelude::*;
use crate::tokenizer::views_of;

verus! {

/// Running tally of word occurrences. Keys are unique; every stored count
/// is at least one; a word that is absent has count zero.
pub struct WordCounts {
    pub entries: Vec<(Vec<u8>, u64)>,
}

/// The mathematical reading of a vector of table entries.
pub open spec fn entries_view(s: Seq<(Vec<u8>, u64)>) -> Seq<(Seq<u8>, nat)> {
    s.map_values(|p: (Vec<u8>, u64)| (p.0@, p.1 as nat))
}

impl View for WordCounts {
    type V = Seq<(Seq<u8>, nat)>;

    open spec fn view(&self) -> Seq<(Seq<u8>, nat)> {
        entries_view(self.entries@)
    }
}

/// Well-formed table: unique keys, strictly positive counts.
pub open spec fn wf_counts(m: Seq<(Seq<u8>, nat)>) -> bool {
    &&& forall|i: int, j: int|
        0 <= i < m.len() && 0 <= j < m.len() && i != j ==> (#[trigger] m[i]).0 != (
        #[trigger] m[j]).0
    &&& forall|i: int| 0 <= i < m.len() ==> (#[trigger] m[i]).1 >= 1
}

/// Index of the first entry whose key is `w`, or the length when absent.
pub open spec fn find_key(m: Seq<(Seq<u8>, nat)>, w: Seq<u8>) -> int
    decreases m.len(),
{
    if m.len() == 0 {
        0
    } else if m[0].0 == w {
        0
    } else {
        1 + find_key(m.drop_first(), w)
    }
}

/// The count recorded for `w`: the sum over entries keyed by `w`
/// (a single entry in a well-formed table, zero when absent).
pub open spec fn count_of(m: Seq<(Seq<u8>, nat)>, w: Seq<u8>) -> nat
    decreases m.len(),
{
    if m.len() == 0 {
        0
    } else {
        (if m[0].0 == w {
            m[0].1
        } else {
            0nat
        }) + count_of(m.drop_first(), w)
    }
}

/// The sum of all recorded counts.
pub open spec fn sum_counts(m: Seq<(Seq<u8>, nat)>) -> nat
    decreases m.len(),
{
    if m.len() == 0 {
        0
    } else {
        m[0].1 + sum_counts(m.drop_first())
    }
}

/// The table after one more occurrence of `w`: the entry for `w` is
/// incremented, or appended with count one when `w` is new.
pub open spec fn add_token(m: Seq<(Seq<u8>, nat)>, w: Seq<u8>) -> Seq<(Seq<u8>, nat)> {
    let i = find_key(m, w);
    if i == m.len() {
        m.push((w, 1nat))
    } else {
        m.update(i, (w, (m[i].1 + 1) as nat))
    }
}

/// The table after one more occurrence of each word in `ws`, in order.
pub open spec fn add_tokens(m: Seq<(Seq<u8>, nat)>, ws: Seq<Seq<u8>>) -> Seq<(Seq<u8>, nat)>
    decreases ws.len(),
{
    if ws.len() == 0 {
        m
    } else {
        add_tokens(add_token(m, ws[0]), ws.drop_first())
    }
}

pub proof fn lemma_find_key_props(m: Seq<(Seq<u8>, nat)>, w: Seq<u8>)
    ensures
        0 <= find_key(m, w) <= m.len(),
        forall|k: int| 0 <= k < find_key(m, w) ==> (#[trigger] m[k]).0 != w,
        find_key(m, w) < m.len() ==> m[find_key(m, w)].0 == w,
    decreases m.len(),
{
    if m.len() == 0 {
    } else if m[0].0 == w {
    } else {
        lemma_find_key_props(m.drop_first(), w);
        assert(forall|k: int|
            1 <= k < find_key(m, w) ==> (#[trigger] m[k]).0 == m.drop_first()[k - 1].0);
    }
}

/// The first index with no earlier match determines `find_key`.
pub proof fn lemma_find_key_is(m: Seq<(Seq<u8>, nat)>, w: Seq<u8>, i: int)
    requires
        0 <= i <= m.len(),
        forall|k: int| 0 <= k < i ==> (#[trigger] m[k]).0 != w,
        i < m.len() ==> m[i].0 == w,
    ensures
        i < m.len() ==> find_key(m, w) == i,
        i == m.len() ==> find_key(m, w) == m.len(),
    decreases m.len(),
{
    if m.len() == 0 {
    } else if m[0].0 == w {
        assert(i == 0);
    } else {
        assert(i >= 1);
        assert(forall|k: int|
            0 <= k < i - 1 ==> (#[trigger] m.drop_first()[k]).0 == m[k + 1].0);
        lemma_find_key_is(m.drop_first(), w, i - 1);
    }
}

pub proof fn lemma_sum_push(m: Seq<(Seq<u8>, nat)>, p: (Seq<u8>, nat))
    ensures
        sum_counts(m.push(p)) == sum_counts(m) + p.1,
    decreases m.len(),
{
    if m.len() == 0 {
        assert(m.push(p).drop_first() =~= m);
    } else {
        assert(m.push(p).drop_first() =~= m.drop_first().push(p));
        lemma_sum_push(m.drop_first(), p);
    }
}

pub proof fn lemma_sum_update(m: Seq<(Seq<u8>, nat)>, i: int, p: (Seq<u8>, nat))
    requires
        0 <= i < m.len(),
    ensures
        sum_counts(m.update(i, p)) + m[i].1 == sum_counts(m) + p.1,
    decreases m.len(),
{
    if i == 0 {
        assert(m.update(0, p).drop_first() =~= m.drop_first());
    } else {
        assert(m.update(i, p).drop_first() =~= m.drop_first().update(i - 1, p));
        lemma_sum_update(m.drop_first(), i - 1, p);
    }
}

/// One more occurrence raises the total count by exactly one.
pub proof fn lemma_add_token_sum(m: Seq<(Seq<u8>, nat)>, w: Seq<u8>)
    ensures
        sum_counts(add_token(m, w)) == sum_counts(m) + 1,
{
    lemma_find_key_props(m, w);
    let i = find_key(m, w);
    if i == m.len() {
        lemma_sum_push(m, (w, 1nat));
    } else {
        lemma_sum_update(m, i, (w, (m[i].1 + 1) as nat));
    }
}

/// The total count after a batch of words grows by exactly their number.
pub proof fn lemma_add_tokens_sum(m: Seq<(Seq<u8>, nat)>, ws: Seq<Seq<u8>>)
    ensures
        sum_counts(add_tokens(m, ws)) == sum_counts(m) + ws.len(),
    decreases ws.len(),
{
    if ws.len() == 0 {
    } else {
        lemma_add_token_sum(m, ws[0]);
        lemma_add_tokens_sum(add_token(m, ws[0]), ws.drop_first());
    }
}

/// Adding an occurrence keeps the table well formed.
pub proof fn lemma_add_token_wf(m: Seq<(Seq<u8>, nat)>, w: Seq<u8>)
    requires
        wf_counts(m),
    ensures
        wf_counts(add_token(m, w)),
{
    lemma_find_key_props(m, w);
}

/// Adding a batch of occurrences keeps the table well formed.
pub proof fn lemma_add_tokens_wf(m: Seq<(Seq<u8>, nat)>, ws: Seq<Seq<u8>>)
    requires
        wf_counts(m),
    ensures
        wf_counts(add_tokens(m, ws)),
    decreases ws.len(),
{
    if ws.len() == 0 {
    } else {
        lemma_add_token_wf(m, ws[0]);
        lemma_add_tokens_wf(add_token(m, ws[0]), ws.drop_first());
    }
}

/// No single entry exceeds the total.
pub proof fn lemma_entry_le_sum(m: Seq<(Seq<u8>, nat)>, i: int)
    requires
        0 <= i < m.len(),
    ensures
        m[i].1 <= sum_counts(m),
    decreases m.len(),
{
    if i > 0 {
        lemma_entry_le_sum(m.drop_first(), i - 1);
    }
}

/// No word's count exceeds the total.
pub proof fn lemma_count_le_sum(m: Seq<(Seq<u8>, nat)>, w: Seq<u8>)
    ensures
        count_of(m, w) <= sum_counts(m),
    decreases m.len(),
{
    if m.len() > 0 {
        lemma_count_le_sum(m.drop_first(), w);
    }
}

/// Whether two byte strings are equal.
pub fn bytes_eq(a: &[u8], b: &[u8]) -> (r: bool)
    ensures
        r == (a@ == b@),
{
    if a.len() != b.len() {
        proof {
            assert(a@ != b@);
        }
        return false;
    }
    let mut i: usize = 0;
    while i < a.len()
        invariant
            a@.len() == b@.len(),
            0 <= i <= a@.len(),
            forall|j: int| 0 <= j < i ==> a@[j] == b@[j],
        decreases a@.len() - i,
    {
        if a[i] != b[i] {
            proof {
                assert(a@[i as int] != b@[i as int]);
            }
            return false;
        }
        i = i + 1;
    }
    proof {
        assert(a@ =~= b@);
    }
    true
}

impl WordCounts {
    /// An empty table.
    pub fn new() -> (r: WordCounts)
        ensures
            r@ == Seq::<(Seq<u8>, nat)>::empty(),
            wf_counts(r@),
    {
        let r = WordCounts { entries: Vec::new() };
        proof {
            assert(r@ =~= Seq::<(Seq<u8>, nat)>::empty());
        }
        r
    }

    /// How many distinct words the table holds.
    pub fn distinct_words(&self) -> (r: usize)
        ensures
            r == self@.len(),
    {
        self.entries.len()
    }

    /// Record one more occurrence of `w`.
    pub fn add_word(&mut self, w: Vec<u8>)
        requires
            wf_counts(old(self)@),
            sum_counts(old(self)@) < u64::MAX,
        ensures
            final(self)@ == add_token(old(self)@, w@),
            wf_counts(final(self)@),
    {
        proof {
            lemma_find_key_props(self@, w@);
            lemma_add_token_wf(self@, w@);
        }
        let ghost m = self@;
        let n = self.entries.len();
        let mut i: usize = 0;
        while i < n
            invariant
                n == self.entries@.len(),
                0 <= i <= n,
                self@ == m,
                m == old(self)@,
                wf_counts(m),
                sum_counts(m) < u64::MAX,
                forall|k: int| 0 <= k < i ==> (#[trigger] m[k]).0 != w@,
            decreases n - i,
        {
            proof {
                assert(m[i as int].0 == self.entries@[i as int].0@);
            }
            if bytes_eq(self.entries[i].0.as_slice(), w.as_slice()) {
                proof {
                    lemma_find_key_is(m, w@, i as int);
                    lemma_entry_le_sum(m, i as int);
                }
                let ghost old_entries = self.entries@;
                proof {
                    assert(m[i as int].1 == self.entries@[i as int].1 as nat);
                }
                let mut p = self.entries.remove(i);
                proof {
                    assert(p == old_entries[i as int]);
                    assert(p.1 as nat == m[i as int].1);
                    assert(p.1 < u64::MAX);
                }
                p.1 = p.1 + 1;
                self.entries.insert(i, p);
                proof {
                    assert(self.entries@ =~= old_entries.update(i as int, p));
                    assert(find_key(m, w@) == i as int);
                    assert(self@ =~= add_token(m, w@));
                }
                return ;
            }
            i = i + 1;
        }
        proof {
            lemma_find_key_is(m, w@, n as int);
        }
        self.entries.push((w, 1));
        proof {
            assert(self@ =~= add_token(m, w@));
        }
    }

    /// Record one more occurrence of every word in `words`, in order.
    pub fn add_words(&mut self, words: Vec<Vec<u8>>)
        requires
            wf_counts(old(self)@),
            sum_counts(old(self)@) + words@.len() <= u64::MAX,
        ensures
            final(self)@ == add_tokens(old(self)@, views_of(words@)),
            wf_counts(final(self)@),
            sum_counts(final(self)@) == sum_counts(old(self)@) + words@.len(),
    {
        let ghost m0 = self@;
        let ghost all = views_of(words@);
        let mut rest = words;
        proof {
            assert(views_of(rest@) =~= all);
        }
        while rest.len() > 0
            invariant
                wf_counts(self@),
                add_tokens(self@, views_of(rest@)) == add_tokens(m0, all),
                sum_counts(self@) + views_of(rest@).len() == sum_counts(m0) + all.len(),
                sum_counts(m0) + all.len() <= u64::MAX,
            decreases rest@.len(),
        {
            let ghost before = self@;
            let ghost rest_before = views_of(rest@);
            let w = rest.remove(0);
            proof {
                assert(views_of(rest@) =~= rest_before.drop_first());
                assert(rest_before[0] == w@);
                lemma_count_le_sum(self@, w@);
            }
            self.add_word(w);
            proof {
                lemma_add_token_sum(before, w@);
                assert(add_tokens(before, rest_before) == add_tokens(
                    add_token(before, rest_before[0]),
                    rest_before.drop_first(),
                ));
            }
        }
        proof {
            assert(views_of(rest@).len() == 0);
            assert(add_tokens(self@, views_of(rest@)) == self@);
            lemma_add_tokens_sum(m0, all);
        }
    }
}

} // verus!
