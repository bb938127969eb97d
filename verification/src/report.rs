//! Ranking of the word-frequency table: entries ordered by descending
//! count, with ties broken by ascending lexicographic word order, and the
//! leading entries selected for the report.

use vstd::prelude::*;
use vstd::relations::sorted_by;
use vstd::relations::total_ordering;
use vstd::seq_lib::lemma_sorted_unique;
use vstd::seq_lib::group_to_multiset_ensures;
use vstd::multiset::Multiset;
use crate::counts::entries_view;

verus! {

/// Byte-wise lexicographic order on byte strings: the first differing
/// byte decides, and a proper prefix comes before what extends it.
pub open spec fn lex_leq(a: Seq<u8>, b: Seq<u8>) -> bool
    decreases a.len(),
{
    if a.len() == 0 {
        true
    } else if b.len() == 0 {
        false
    } else if a[0] < b[0] {
        true
    } else if a[0] > b[0] {
        false
    } else {
        lex_leq(a.drop_first(), b.drop_first())
    }
}

/// Ranking order on table entries: larger count first; for equal counts,
/// lexicographically smaller word first.
pub open spec fn rank_leq(a: (Seq<u8>, nat), b: (Seq<u8>, nat)) -> bool {
    a.1 > b.1 || (a.1 == b.1 && lex_leq(a.0, b.0))
}

/// The ranking order as a relation value.
pub open spec fn rank_rel() -> spec_fn((Seq<u8>, nat), (Seq<u8>, nat)) -> bool {
    |a: (Seq<u8>, nat), b: (Seq<u8>, nat)| rank_leq(a, b)
}

/// The table's entries ranked by the ranking order.
pub open spec fn ranked(m: Seq<(Seq<u8>, nat)>) -> Seq<(Seq<u8>, nat)> {
    m.sort_by(rank_rel())
}

/// The report's entries: the first `n` ranked entries, or all of them
/// when fewer than `n` words are distinct.
pub open spec fn top_words(m: Seq<(Seq<u8>, nat)>, n: int) -> Seq<(Seq<u8>, nat)> {
    if n <= ranked(m).len() {
        ranked(m).take(n)
    } else {
        ranked(m)
    }
}

proof fn lemma_lex_refl(a: Seq<u8>)
    ensures
        lex_leq(a, a),
    decreases a.len(),
{
    if a.len() > 0 {
        lemma_lex_refl(a.drop_first());
    }
}

proof fn lemma_lex_antisym(a: Seq<u8>, b: Seq<u8>)
    requires
        lex_leq(a, b),
        lex_leq(b, a),
    ensures
        a == b,
    decreases a.len(),
{
    if a.len() == 0 {
        assert(b.len() == 0);
        assert(a =~= b);
    } else {
        assert(b.len() > 0);
        assert(a[0] == b[0]);
        lemma_lex_antisym(a.drop_first(), b.drop_first());
        assert forall|i: int| 0 <= i < a.len() implies a[i] == b[i] by {
            if i > 0 {
                assert(a[i] == a.drop_first()[i - 1]);
                assert(b[i] == b.drop_first()[i - 1]);
            }
        }
        assert(a =~= b);
    }
}

proof fn lemma_lex_trans(a: Seq<u8>, b: Seq<u8>, c: Seq<u8>)
    requires
        lex_leq(a, b),
        lex_leq(b, c),
    ensures
        lex_leq(a, c),
    decreases a.len(),
{
    if a.len() == 0 || b.len() == 0 || c.len() == 0 {
    } else {
        if a[0] == b[0] && b[0] == c[0] {
            lemma_lex_trans(a.drop_first(), b.drop_first(), c.drop_first());
        }
    }
}

proof fn lemma_lex_conn(a: Seq<u8>, b: Seq<u8>)
    ensures
        lex_leq(a, b) || lex_leq(b, a),
    decreases a.len(),
{
    if a.len() > 0 && b.len() > 0 && a[0] == b[0] {
        lemma_lex_conn(a.drop_first(), b.drop_first());
    }
}

/// The ranking order is a total ordering, so a table has exactly one
/// ranking and the report is deterministic.
pub proof fn lemma_rank_total()
    ensures
        total_ordering(rank_rel()),
{
    let r = rank_rel();
    assert forall|x: (Seq<u8>, nat)| #[trigger] r(x, x) by {
        lemma_lex_refl(x.0);
    }
    assert forall|x: (Seq<u8>, nat), y: (Seq<u8>, nat)| #[trigger] r(x, y) && #[trigger] r(
        y,
        x,
    ) implies x == y by {
        lemma_lex_antisym(x.0, y.0);
    }
    assert forall|x: (Seq<u8>, nat), y: (Seq<u8>, nat), z: (Seq<u8>, nat)|
        #[trigger] r(x, y) && #[trigger] r(y, z) implies r(x, z) by {
        if x.1 == y.1 && y.1 == z.1 {
            lemma_lex_trans(x.0, y.0, z.0);
        }
    }
    assert forall|x: (Seq<u8>, nat), y: (Seq<u8>, nat)| #[trigger] r(x, y) || #[trigger] r(
        y,
        x,
    ) by {
        lemma_lex_conn(x.0, y.0);
    }
}

/// The report's shape, for any table and any requested size: exactly
/// `min(n, distinct words)` entries, in ranking order (descending count,
/// ties by word), every one drawn from the table. The report is a pure
/// function of the table, so repeated calls agree.
pub proof fn lemma_top_words_shape(m: Seq<(Seq<u8>, nat)>, n: int)
    requires
        n >= 0,
    ensures
        top_words(m, n).len() == if n <= m.len() {
            n
        } else {
            m.len() as int
        },
        sorted_by(top_words(m, n), rank_rel()),
        forall|j: int| 0 <= j < top_words(m, n).len() ==> m.contains(#[trigger] top_words(m, n)[j]),
{
    broadcast use group_to_multiset_ensures;

    lemma_rank_total();
    m.lemma_sort_by_ensures(rank_rel());
    let r = ranked(m);
    assert(r.to_multiset().len() == m.to_multiset().len());
    assert(r.len() == m.len());
    let t = top_words(m, n);
    assert forall|x: int, y: int| 0 <= x < y < t.len() implies rank_rel()(
        #[trigger] t[x],
        #[trigger] t[y],
    ) by {
        assert(t[x] == r[x]);
        assert(t[y] == r[y]);
        assert(sorted_by(r, rank_rel()));
    }
    assert forall|j: int| 0 <= j < t.len() implies m.contains(#[trigger] t[j]) by {
        assert(t[j] == r[j]);
        assert(r.contains(r[j]));
        assert(r.to_multiset().count(r[j]) > 0);
        assert(m.to_multiset().count(r[j]) > 0);
    }
}

/// Byte-wise lexicographic comparison.
pub fn lex_le(a: &Vec<u8>, b: &Vec<u8>) -> (r: bool)
    ensures
        r == lex_leq(a@, b@),
{
    let mut i: usize = 0;
    proof {
        assert(a@.skip(0) =~= a@);
        assert(b@.skip(0) =~= b@);
    }
    while i < a.len() && i < b.len()
        invariant
            0 <= i <= a@.len(),
            i <= b@.len(),
            lex_leq(a@, b@) == lex_leq(a@.skip(i as int), b@.skip(i as int)),
        decreases a@.len() - i,
    {
        proof {
            assert(a@.skip(i as int)[0] == a@[i as int]);
            assert(b@.skip(i as int)[0] == b@[i as int]);
            assert(a@.skip(i as int).drop_first() =~= a@.skip(i as int + 1));
            assert(b@.skip(i as int).drop_first() =~= b@.skip(i as int + 1));
        }
        if a[i] < b[i] {
            return true;
        }
        if a[i] > b[i] {
            return false;
        }
        i = i + 1;
    }
    proof {
        if i == a.len() {
            assert(a@.skip(i as int).len() == 0);
        } else {
            assert(b@.skip(i as int).len() == 0);
            assert(a@.skip(i as int).len() > 0);
        }
    }
    a.len() <= b.len()
}

/// Whether `a` ranks at or before `b`: more occurrences, or equally many
/// and a lexicographically smaller word.
pub fn rank_le(a: &(Vec<u8>, u64), b: &(Vec<u8>, u64)) -> (r: bool)
    ensures
        r == rank_leq((a.0@, a.1 as nat), (b.0@, b.1 as nat)),
{
    if a.1 > b.1 {
        true
    } else if a.1 < b.1 {
        false
    } else {
        lex_le(&a.0, &b.0)
    }
}

/// Sort table entries into ranking order.
pub fn sort_ranked(v: Vec<(Vec<u8>, u64)>) -> (r: Vec<(Vec<u8>, u64)>)
    ensures
        entries_view(r@) == ranked(entries_view(v@)),
{
    broadcast use group_to_multiset_ensures;

    let ghost orig = entries_view(v@);
    proof {
        lemma_rank_total();
    }
    let mut rest = v;
    let mut out: Vec<(Vec<u8>, u64)> = Vec::new();
    proof {
        assert(entries_view(out@) =~= Seq::<(Seq<u8>, nat)>::empty());
        assert(entries_view(out@).to_multiset().add(entries_view(rest@).to_multiset()) =~= orig.to_multiset());
    }
    while rest.len() > 0
        invariant
            total_ordering(rank_rel()),
            entries_view(out@).to_multiset().add(entries_view(rest@).to_multiset())
                == orig.to_multiset(),
            sorted_by(entries_view(out@), rank_rel()),
            forall|x: int, y: int|
                0 <= x < entries_view(out@).len() && 0 <= y < entries_view(rest@).len()
                    ==> rank_leq(
                    #[trigger] entries_view(out@)[x],
                    #[trigger] entries_view(rest@)[y],
                ),
        decreases rest@.len(),
    {
        broadcast use group_to_multiset_ensures;

        let ghost restv = entries_view(rest@);
        let mut mi: usize = 0;
        let mut k: usize = 1;
        proof {
            assert(rank_rel()(restv[0], restv[0]));
        }
        while k < rest.len()
            invariant
                total_ordering(rank_rel()),
                restv == entries_view(rest@),
                rest@.len() > 0,
                0 <= mi < k <= rest@.len(),
                forall|t: int| 0 <= t < k ==> rank_leq(
                    restv[mi as int],
                    #[trigger] restv[t],
                ),
            decreases rest@.len() - k,
        {
            {
                if rank_le(&rest[k], &rest[mi]) {
                    proof {
                        assert(restv[k as int] == (rest@[k as int].0@, rest@[k as int].1 as nat));
                        assert(restv[mi as int] == (rest@[mi as int].0@, rest@[mi as int].1 as nat));
                        assert(rank_leq(restv[k as int], restv[mi as int]));
                        assert forall|t: int| 0 <= t < k + 1 implies rank_leq(
                            restv[k as int],
                            #[trigger] restv[t],
                        ) by {
                            assert(rank_rel()(restv[k as int], restv[mi as int]));
                            if t < k {
                                assert(rank_rel()(restv[mi as int], restv[t]));
                            } else {
                                assert(rank_rel()(restv[t], restv[t]));
                            }
                        }
                    }
                    mi = k;
                } else {
                    proof {
                        assert(restv[k as int] == (rest@[k as int].0@, rest@[k as int].1 as nat));
                        assert(restv[mi as int] == (rest@[mi as int].0@, rest@[mi as int].1 as nat));
                        assert(rank_rel()(restv[k as int], restv[mi as int]) || rank_rel()(
                            restv[mi as int],
                            restv[k as int],
                        ));
                    }
                }
            }
            k = k + 1;
        }
        let ghost outv = entries_view(out@);
        let e = rest.remove(mi);
        out.push(e);
        proof {
            let ghost ev = (e.0@, e.1 as nat);
            assert(restv[mi as int] == ev);
            assert(entries_view(rest@) =~= restv.remove(mi as int));
            assert(entries_view(out@) =~= outv.push(ev));
            assert(rest@.map_values(|p: (Vec<u8>, u64)| (p.0@, p.1 as nat)).to_multiset()
                =~= restv.to_multiset().remove(ev));
            assert(entries_view(out@).to_multiset() =~= outv.to_multiset().insert(ev));
            assert(entries_view(out@).to_multiset().add(entries_view(rest@).to_multiset()) =~= orig.to_multiset());
            assert forall|x: int, y: int|
                0 <= x < entries_view(out@).len() && 0 <= y < entries_view(rest@).len()
                    implies rank_leq(
                    #[trigger] entries_view(out@)[x],
                    #[trigger] entries_view(rest@)[y],
                ) by {
                let yv = entries_view(rest@)[y];
                let yo = if y < mi as int {
                    y
                } else {
                    y + 1
                };
                assert(yv == restv[yo]);
                if x < outv.len() {
                    assert(rank_leq(outv[x], restv[yo]));
                } else {
                    assert(entries_view(out@)[x] == ev);
                    assert(rank_leq(ev, restv[yo]));
                }
            }
            assert forall|x: int, y: int|
                0 <= x < y < entries_view(out@).len() implies rank_rel()(
                #[trigger] entries_view(out@)[x],
                #[trigger] entries_view(out@)[y],
            ) by {
                if y < outv.len() {
                    assert(sorted_by(outv, rank_rel()));
                    assert(rank_rel()(outv[x], outv[y]));
                } else {
                    assert(entries_view(out@)[y] == ev);
                    assert(rank_leq(outv[x], restv[mi as int]));
                }
            }
        }
    }
    proof {
        assert(entries_view(rest@).len() == 0);
        assert(entries_view(rest@).to_multiset() =~= Multiset::<(Seq<u8>, nat)>::empty());
        assert(entries_view(out@).to_multiset() =~= orig.to_multiset());
        orig.lemma_sort_by_ensures(rank_rel());
        lemma_sorted_unique(entries_view(out@), orig.sort_by(rank_rel()), rank_rel());
    }
    out
}

} // verus!
