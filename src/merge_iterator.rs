//! Merges any number of cursors of one kind; on equal keys the source with the
//! lower rank (its position at creation) wins and shadows the others.
use vstd::prelude::*;
use crate::key::{Entry, key_lt, key_less, key_equal, append_slice, lemma_key_lt_irreflexive, lemma_key_lt_transitive, lemma_key_lt_total};
use crate::iterators::{StorageError, StorageIterator};

verus! {

/// Among the first `n` sources, the one whose current key is smallest, the
/// lowest rank on equal keys; -1 when all of them are exhausted.
pub open spec fn best_of(s: Seq<Seq<Entry>>, n: int) -> int
    decreases n,
{
    if n <= 0 {
        -1
    } else {
        let b = best_of(s, n - 1);
        if s[n - 1].len() == 0 {
            b
        } else if b < 0 || key_lt(s[n - 1][0].0, s[b][0].0) {
            n - 1
        } else {
            b
        }
    }
}

/// The source whose current entry the merge yields next, or -1.
pub open spec fn winner(s: Seq<Seq<Entry>>) -> int {
    best_of(s, s.len() as int)
}

/// Every source whose current key is `k` moves past it.
pub open spec fn pass_key(s: Seq<Seq<Entry>>, k: Seq<u8>) -> Seq<Seq<Entry>> {
    Seq::new(
        s.len(),
        |i: int|
            if s[i].len() > 0 && s[i][0].0 == k {
                s[i].drop_first()
            } else {
                s[i]
            },
    )
}

/// A step that failed at source `f`: the sources before it passed key `k`,
/// the ones after it did not move.
pub open spec fn stopped_at(s0: Seq<Seq<Entry>>, s1: Seq<Seq<Entry>>, k: Seq<u8>, f: int) -> bool {
    &&& forall|j: int| 0 <= j < f ==> #[trigger] s1[j] == pass_key(s0, k)[j]
    &&& forall|j: int| f < j < s0.len() ==> #[trigger] s1[j] == s0[j]
}

/// The number of entries over all sources.
pub open spec fn total(s: Seq<Seq<Entry>>) -> nat
    decreases s.len(),
{
    if s.len() == 0 {
        0
    } else {
        total(s.drop_last()) + s.last().len()
    }
}

/// The merged stream: the winner's entry, then the merge of what is left once
/// every source has passed that key.
pub open spec fn merge_all(s: Seq<Seq<Entry>>) -> Seq<Entry>
    decreases total(s),
    via merge_all_decreases
{
    let w = winner(s);
    if 0 <= w < s.len() && s[w].len() > 0 {
        seq![s[w][0]] + merge_all(pass_key(s, s[w][0].0))
    } else {
        Seq::empty()
    }
}

#[via_fn]
proof fn merge_all_decreases(s: Seq<Seq<Entry>>) {
    let w = winner(s);
    if 0 <= w < s.len() && s[w].len() > 0 {
        lemma_pass_key_total(s, s[w][0].0, w);
    }
}

proof fn lemma_pass_key_total(s: Seq<Seq<Entry>>, k: Seq<u8>, w: int)
    requires
        0 <= w < s.len(),
        s[w].len() > 0,
        s[w][0].0 == k,
    ensures
        total(pass_key(s, k)) < total(s),
    decreases s.len(),
{
    lemma_pass_key_total_le(s, k);
    let p = pass_key(s, k);
    assert(p.drop_last() =~= pass_key(s.drop_last(), k));
    if w < s.len() - 1 {
        lemma_pass_key_total(s.drop_last(), k, w);
    } else {
        lemma_pass_key_total_le(s.drop_last(), k);
    }
}

proof fn lemma_pass_key_total_le(s: Seq<Seq<Entry>>, k: Seq<u8>)
    ensures
        total(pass_key(s, k)) <= total(s),
    decreases s.len(),
{
    if s.len() > 0 {
        let p = pass_key(s, k);
        assert(p.drop_last() =~= pass_key(s.drop_last(), k));
        lemma_pass_key_total_le(s.drop_last(), k);
    }
}

/// The best of the first `n` sources is -1 exactly when they are all exhausted,
/// and otherwise one of them that is not.
pub proof fn lemma_best_of(s: Seq<Seq<Entry>>, n: int)
    requires
        0 <= n <= s.len(),
    ensures
        best_of(s, n) == -1 <==> (forall|i: int| 0 <= i < n ==> #[trigger] s[i].len() == 0),
        best_of(s, n) != -1 ==> 0 <= best_of(s, n) < n && s[best_of(s, n)].len() > 0,
    decreases n,
{
    if n > 0 {
        lemma_best_of(s, n - 1);
    }
}

/// Keys strictly ascending.
pub open spec fn strictly_sorted(es: Seq<Entry>) -> bool {
    forall|p: int, q: int| 0 <= p < q < es.len() ==> key_lt(#[trigger] es[p].0, #[trigger] es[q].0)
}

/// Some entry of `es` has key `k`.
pub open spec fn holds_key(es: Seq<Entry>, k: Seq<u8>) -> bool {
    exists|q: int| 0 <= q < es.len() && #[trigger] es[q].0 == k
}

/// Number of entries of `es` with key `k`.
pub open spec fn key_count(es: Seq<Entry>, k: Seq<u8>) -> nat
    decreases es.len(),
{
    if es.len() == 0 {
        0
    } else {
        (if es[0].0 == k {
            1nat
        } else {
            0nat
        }) + key_count(es.drop_first(), k)
    }
}

/// Value of the first entry of `es` with key `k`.
pub open spec fn value_of(es: Seq<Entry>, k: Seq<u8>) -> Option<Seq<u8>>
    decreases es.len(),
{
    if es.len() == 0 {
        None
    } else if es[0].0 == k {
        Some(es[0].1)
    } else {
        value_of(es.drop_first(), k)
    }
}

/// No current key is below the best one, and none of a lower rank equals it.
proof fn lemma_best_of_min(s: Seq<Seq<Entry>>, n: int)
    requires
        0 <= n <= s.len(),
    ensures
        best_of(s, n) >= 0 ==> forall|j: int|
            0 <= j < n && (#[trigger] s[j]).len() > 0 ==> !key_lt(s[j][0].0, s[best_of(s, n)][0].0),
        best_of(s, n) >= 0 ==> forall|j: int|
            0 <= j < best_of(s, n) && (#[trigger] s[j]).len() > 0 ==> s[j][0].0 != s[best_of(s, n)][0].0,
    decreases n,
{
    if n > 0 {
        lemma_best_of_min(s, n - 1);
        lemma_best_of(s, n - 1);
        let bo = best_of(s, n - 1);
        let hn = s[n - 1];
        if hn.len() > 0 {
            lemma_key_lt_irreflexive(hn[0].0, 0);
            if bo >= 0 && key_lt(hn[0].0, s[bo][0].0) {
                assert forall|j: int| 0 <= j < n && (#[trigger] s[j]).len() > 0 implies !key_lt(
                    s[j][0].0,
                    hn[0].0,
                ) by {
                    if j < n - 1 && key_lt(s[j][0].0, hn[0].0) {
                        lemma_key_lt_transitive(s[j][0].0, hn[0].0, s[bo][0].0, 0);
                    }
                }
            }
        }
    }
}

/// A key that no source holds never comes out of the merge.
proof fn lemma_merge_absent(s: Seq<Seq<Entry>>, k: Seq<u8>)
    requires
        forall|j: int| 0 <= j < s.len() ==> !holds_key(#[trigger] s[j], k),
    ensures
        key_count(merge_all(s), k) == 0,
        value_of(merge_all(s), k) is None,
    decreases total(s),
{
    lemma_best_of(s, s.len() as int);
    let w = winner(s);
    if w >= 0 {
        let h = s[w][0].0;
        let ps = pass_key(s, h);
        lemma_pass_key_total(s, h, w);
        assert forall|j: int| 0 <= j < ps.len() implies !holds_key(#[trigger] ps[j], k) by {
            if holds_key(ps[j], k) {
                let q = choose|q: int| 0 <= q < ps[j].len() && #[trigger] ps[j][q].0 == k;
                if s[j].len() > 0 && s[j][0].0 == h {
                    assert(s[j][q + 1].0 == k);
                } else {
                    assert(s[j][q].0 == k);
                }
            }
        }
        lemma_merge_absent(ps, k);
        let m = merge_all(s);
        assert(m.drop_first() =~= merge_all(ps));
        assert(s[w][0].0 != k) by {
            assert(s[w][0].0 == k ==> holds_key(s[w], k));
        }
    }
}

/// Shadowing: where every source is strictly sorted, a key that source `r`
/// holds and no source of lower rank holds comes out of the merge exactly once,
/// with the value it has in source `r`.
pub proof fn lemma_merge_shadowing(s: Seq<Seq<Entry>>, r: int, p: int)
    requires
        forall|j: int| 0 <= j < s.len() ==> strictly_sorted(#[trigger] s[j]),
        0 <= r < s.len(),
        0 <= p < s[r].len(),
        forall|j: int| 0 <= j < r ==> !holds_key(#[trigger] s[j], s[r][p].0),
    ensures
        key_count(merge_all(s), s[r][p].0) == 1,
        value_of(merge_all(s), s[r][p].0) == Some(s[r][p].1),
    decreases total(s),
{
    let x = s[r][p].0;
    lemma_best_of(s, s.len() as int);
    lemma_best_of_min(s, s.len() as int);
    let w = winner(s);
    assert(s[r].len() > 0);
    let h = s[w][0].0;
    let ps = pass_key(s, h);
    lemma_pass_key_total(s, h, w);
    let m = merge_all(s);
    assert(m.drop_first() =~= merge_all(ps));
    if h == x {
        if p > 0 {
            assert(key_lt(s[r][0].0, s[r][p].0));
        }
        if w < r {
            assert(holds_key(s[w], x));
        }
        if r < w {
            assert(s[r][0].0 == h);
        }
        assert(w == r);
        assert forall|j: int| 0 <= j < ps.len() implies !holds_key(#[trigger] ps[j], x) by {
            if holds_key(ps[j], x) {
                let q = choose|q: int| 0 <= q < ps[j].len() && #[trigger] ps[j][q].0 == x;
                lemma_key_lt_irreflexive(x, 0);
                if s[j].len() > 0 && s[j][0].0 == h {
                    assert(key_lt(s[j][0].0, s[j][q + 1].0));
                } else {
                    assert(s[j][q].0 == x);
                    assert(q > 0);
                    assert(key_lt(s[j][0].0, s[j][q].0));
                }
            }
        }
        lemma_merge_absent(ps, x);
    } else {
        let dropped = s[r][0].0 == h;
        let p2 = if dropped {
            p - 1
        } else {
            p
        };
        if dropped {
            assert(p != 0);
        }
        assert(ps[r][p2] == s[r][p]);
        assert forall|j: int| 0 <= j < ps.len() implies strictly_sorted(#[trigger] ps[j]) by {
            assert(strictly_sorted(s[j]));
            if s[j].len() > 0 && s[j][0].0 == h {
                assert forall|a: int, b: int| 0 <= a < b < ps[j].len() implies key_lt(
                    #[trigger] ps[j][a].0,
                    #[trigger] ps[j][b].0,
                ) by {
                    assert(key_lt(s[j][a + 1].0, s[j][b + 1].0));
                }
            }
        }
        assert forall|j: int| 0 <= j < r implies !holds_key(#[trigger] ps[j], x) by {
            assert(!holds_key(s[j], x));
            if holds_key(ps[j], x) {
                let q = choose|q: int| 0 <= q < ps[j].len() && #[trigger] ps[j][q].0 == x;
                if s[j].len() > 0 && s[j][0].0 == h {
                    assert(s[j][q + 1].0 == x);
                } else {
                    assert(s[j][q].0 == x);
                }
            }
        }
        lemma_merge_shadowing(ps, r, p2);
    }
}

proof fn lemma_lowest_holder(s: Seq<Seq<Entry>>, k: Seq<u8>, n: int) -> (r: int)
    requires
        0 <= n <= s.len(),
        exists|j: int| 0 <= j < n && holds_key(#[trigger] s[j], k),
    ensures
        0 <= r < n,
        holds_key(s[r], k),
        forall|j: int| 0 <= j < r ==> !holds_key(#[trigger] s[j], k),
    decreases n,
{
    if exists|j: int| 0 <= j < n - 1 && holds_key(#[trigger] s[j], k) {
        lemma_lowest_holder(s, k, n - 1)
    } else {
        n - 1
    }
}

/// Totality: where every source is strictly sorted, each key that some source
/// holds comes out of the merge exactly once, and no other key comes out.
pub proof fn lemma_merge_totality(s: Seq<Seq<Entry>>, k: Seq<u8>)
    requires
        forall|j: int| 0 <= j < s.len() ==> strictly_sorted(#[trigger] s[j]),
    ensures
        key_count(merge_all(s), k) == if exists|j: int| 0 <= j < s.len() && holds_key(#[trigger] s[j], k) {
            1nat
        } else {
            0nat
        },
{
    if exists|j: int| 0 <= j < s.len() && holds_key(#[trigger] s[j], k) {
        let r = lemma_lowest_holder(s, k, s.len() as int);
        let p = choose|q: int| 0 <= q < s[r].len() && #[trigger] s[r][q].0 == k;
        lemma_merge_shadowing(s, r, p);
    } else {
        lemma_merge_absent(s, k);
    }
}

proof fn lemma_pass_key_sorted(s: Seq<Seq<Entry>>, k: Seq<u8>)
    requires
        forall|j: int| 0 <= j < s.len() ==> strictly_sorted(#[trigger] s[j]),
    ensures
        forall|j: int| 0 <= j < s.len() ==> strictly_sorted(#[trigger] pass_key(s, k)[j]),
{
    let ps = pass_key(s, k);
    assert forall|j: int| 0 <= j < s.len() implies strictly_sorted(#[trigger] ps[j]) by {
        assert(strictly_sorted(s[j]));
        if s[j].len() > 0 && s[j][0].0 == k {
            assert forall|a: int, b: int| 0 <= a < b < ps[j].len() implies key_lt(
                #[trigger] ps[j][a].0,
                #[trigger] ps[j][b].0,
            ) by {
                assert(key_lt(s[j][a + 1].0, s[j][b + 1].0));
            }
        }
    }
}

proof fn lemma_merge_bound(s: Seq<Seq<Entry>>, lo: Seq<u8>)
    requires
        forall|j: int, q: int| 0 <= j < s.len() && 0 <= q < s[j].len() ==> key_lt(lo, #[trigger] s[j][q].0),
    ensures
        forall|t: int| 0 <= t < merge_all(s).len() ==> key_lt(lo, #[trigger] merge_all(s)[t].0),
    decreases total(s),
{
    lemma_best_of(s, s.len() as int);
    let w = winner(s);
    if w >= 0 {
        let h = s[w][0].0;
        let ps = pass_key(s, h);
        lemma_pass_key_total(s, h, w);
        assert forall|j: int, q: int| 0 <= j < ps.len() && 0 <= q < ps[j].len() implies key_lt(
            lo,
            #[trigger] ps[j][q].0,
        ) by {
            if s[j].len() > 0 && s[j][0].0 == h {
                assert(ps[j][q] == s[j][q + 1]);
            } else {
                assert(ps[j][q] == s[j][q]);
            }
        }
        lemma_merge_bound(ps, lo);
        let m = merge_all(s);
        assert(m.drop_first() =~= merge_all(ps));
        assert forall|t: int| 0 <= t < m.len() implies key_lt(lo, #[trigger] m[t].0) by {
            if t > 0 {
                assert(m[t] == merge_all(ps)[t - 1]);
            }
        }
    }
}

/// Order: where every source is strictly sorted, so is the merge.
pub proof fn lemma_merge_sorted(s: Seq<Seq<Entry>>)
    requires
        forall|j: int| 0 <= j < s.len() ==> strictly_sorted(#[trigger] s[j]),
    ensures
        strictly_sorted(merge_all(s)),
    decreases total(s),
{
    lemma_best_of(s, s.len() as int);
    lemma_best_of_min(s, s.len() as int);
    let w = winner(s);
    if w >= 0 {
        let h = s[w][0].0;
        let ps = pass_key(s, h);
        lemma_pass_key_total(s, h, w);
        lemma_pass_key_sorted(s, h);
        lemma_merge_sorted(ps);
        assert forall|j: int, q: int| 0 <= j < ps.len() && 0 <= q < ps[j].len() implies key_lt(
            h,
            #[trigger] ps[j][q].0,
        ) by {
            assert(strictly_sorted(s[j]));
            if s[j][0].0 == h {
                assert(key_lt(s[j][0].0, s[j][q + 1].0));
            } else {
                assert(s[j][0].0.subrange(0, 0) =~= h.subrange(0, 0));
                lemma_key_lt_total(s[j][0].0, h, 0);
                assert(key_lt(h, s[j][0].0));
                if q > 0 {
                    assert(key_lt(s[j][0].0, s[j][q].0));
                    lemma_key_lt_transitive(h, s[j][0].0, s[j][q].0, 0);
                }
            }
        }
        lemma_merge_bound(ps, h);
        let m = merge_all(s);
        let rest = merge_all(ps);
        assert(m.drop_first() =~= rest);
        assert forall|a: int, b: int| 0 <= a < b < m.len() implies key_lt(#[trigger] m[a].0, #[trigger] m[b].0) by {
            assert(m[b] == rest[b - 1]);
            if a > 0 {
                assert(m[a] == rest[a - 1]);
            }
        }
    }
}

/// Merges multiple iterators of the same type. If the same key occurs in several
/// of them, the one with the smaller index wins.
pub struct MergeIterator<I: StorageIterator> {
    /// All sources, in rank order.
    iters: Vec<Box<I>>,
    /// Rank of the source that holds the current entry.
    current: Option<usize>,
}

impl<I: StorageIterator> MergeIterator<I> {
    /// What each source has left, by rank.
    pub closed spec fn sources(&self) -> Seq<Seq<Entry>> {
        Seq::new(self.iters@.len(), |i: int| (*self.iters@[i]).remaining())
    }

    /// The source of rank `i` is infallible.
    pub closed spec fn source_infallible(&self, i: int) -> bool {
        (*self.iters@[i]).infallible()
    }

    closed spec fn sources_inv(&self) -> bool {
        forall|i: int| 0 <= i < self.iters@.len() ==> (*self.iters@[i]).inv()
    }

    /// Creates the merge of `iters`; a source's rank is its position.
    pub fn create(iters: Vec<Box<I>>) -> (r: Self)
        requires
            forall|i: int| 0 <= i < iters@.len() ==> (*iters@[i]).inv(),
        ensures
            r.inv(),
            r.remaining() == merge_all(
                Seq::new(iters@.len(), |i: int| (*iters@[i]).remaining()),
            ),
            r.sources() == Seq::new(iters@.len(), |i: int| (*iters@[i]).remaining()),
            (forall|i: int| 0 <= i < iters@.len() ==> (*iters@[i]).infallible()) ==> r.infallible(),
    {
        let mut m = MergeIterator { iters, current: None };
        m.current = m.find_current();
        assert(m.sources() =~= Seq::new(iters@.len(), |i: int| (*iters@[i]).remaining()));
        assert((forall|i: int| 0 <= i < iters@.len() ==> (*iters@[i]).infallible()) ==> m.infallible()) by {
            if forall|i: int| 0 <= i < iters@.len() ==> (*iters@[i]).infallible() {
                assert forall|i: int| 0 <= i < m.sources().len() implies #[trigger] m.source_infallible(i) by {
                    assert((*iters@[i]).infallible());
                }
            }
        }
        m
    }

    fn find_current(&self) -> (r: Option<usize>)
        requires
            self.sources_inv(),
        ensures
            r is Some <==> winner(self.sources()) >= 0,
            r matches Some(c) ==> c == winner(self.sources()),
    {
        let ghost s = self.sources();
        let n = self.iters.len();
        let mut best: Option<usize> = None;
        let mut i: usize = 0;
        while i < n
            invariant
                n == self.iters@.len(),
                s == self.sources(),
                self.sources_inv(),
                i <= n,
                best is Some <==> best_of(s, i as int) >= 0,
                best matches Some(c) ==> c == best_of(s, i as int),
            decreases n - i,
        {
            proof {
                lemma_best_of(s, i as int);
                assert(s[i as int] == (*self.iters@[i as int]).remaining());
            }
            if self.iters[i].is_valid() {
                match best {
                    None => {
                        best = Some(i);
                    },
                    Some(j) => {
                        assert(s[j as int] == (*self.iters@[j as int]).remaining());
                        if key_less(self.iters[i].key(), self.iters[j].key()) {
                            best = Some(i);
                        }
                    },
                }
            }
            i = i + 1;
        }
        best
    }
}

impl<I: StorageIterator> StorageIterator for MergeIterator<I> {
    closed spec fn inv(&self) -> bool {
        &&& self.sources_inv()
        &&& self.current is Some <==> winner(self.sources()) >= 0
        &&& self.current matches Some(c) ==> c == winner(self.sources())
    }

    /// Every source is infallible.
    open spec fn infallible(&self) -> bool {
        forall|i: int| 0 <= i < self.sources().len() ==> #[trigger] self.source_infallible(i)
    }

    closed spec fn remaining(&self) -> Seq<Entry> {
        merge_all(self.sources())
    }

    /// Returns the key of the winning source, or an empty key when all are exhausted.
    fn key(&self) -> (r: &[u8]) {
        proof {
            lemma_best_of(self.sources(), self.sources().len() as int);
        }
        match self.current {
            Some(i) => {
                let ghost sr = self.sources();
                assert(sr[i as int] == (*self.iters@[i as int]).remaining());
                assert(merge_all(sr) == seq![sr[i as int][0]] + merge_all(pass_key(sr, sr[i as int][0].0)));
                assert(self.remaining() == merge_all(sr));
                self.iters[i].key()
            },
            None => &[],
        }
    }

    /// Returns the value of the winning source, or an empty value when all are exhausted.
    fn value(&self) -> (r: &[u8]) {
        proof {
            lemma_best_of(self.sources(), self.sources().len() as int);
        }
        match self.current {
            Some(i) => {
                let ghost sr = self.sources();
                assert(sr[i as int] == (*self.iters@[i as int]).remaining());
                assert(merge_all(sr) == seq![sr[i as int][0]] + merge_all(pass_key(sr, sr[i as int][0].0)));
                assert(self.remaining() == merge_all(sr));
                self.iters[i].value()
            },
            None => &[],
        }
    }

    /// Returns whether some source still stands on an entry.
    fn is_valid(&self) -> (r: bool) {
        proof {
            lemma_best_of(self.sources(), self.sources().len() as int);
        }
        self.current.is_some()
    }

    /// Moves every source that stands on the current key past it, the winner and
    /// the sources it shadows alike, then picks the new winner.
    fn next(&mut self) -> (r: Result<(), StorageError>)
        ensures
            r is Ok ==> final(self).sources() == pass_key(old(self).sources(), old(self).remaining()[0].0),
            final(self).sources().len() == old(self).sources().len(),
            r is Err ==> exists|f: int|
                0 <= f < old(self).sources().len() && #[trigger] stopped_at(
                    old(self).sources(),
                    final(self).sources(),
                    old(self).remaining()[0].0,
                    f,
                ),
    {
        let ghost s0 = self.sources();
        proof {
            lemma_best_of(s0, s0.len() as int);
        }
        let w = match self.current {
            Some(w) => w,
            None => {
                return Ok(());
            },
        };
        assert(s0[w as int] == (*self.iters@[w as int]).remaining());
        assert(merge_all(s0) == seq![s0[w as int][0]] + merge_all(pass_key(s0, s0[w as int][0].0)));
        let mut k: Vec<u8> = Vec::new();
        append_slice(&mut k, self.iters[w].key());
        let n = self.iters.len();
        assert(k@ == old(self).remaining()[0].0);
        assert(old(self).infallible() ==> forall|j: int| 0 <= j < n ==> #[trigger] self.source_infallible(j)) by {
            if old(self).infallible() {
                assert forall|j: int| 0 <= j < n implies #[trigger] self.source_infallible(j) by {
                    assert(old(self).source_infallible(j));
                }
            }
        }
        let ghost target = pass_key(s0, k@);
        let mut i: usize = 0;
        while i < n
            invariant
                n == self.iters@.len(),
                n == s0.len(),
                s0 == old(self).sources(),
                k@ == old(self).remaining()[0].0,
                target == pass_key(s0, k@),
                self.sources_inv(),
                i <= n,
                forall|j: int| 0 <= j < i ==> #[trigger] self.sources()[j] == target[j],
                forall|j: int| i <= j < n ==> #[trigger] self.sources()[j] == s0[j],
                old(self).infallible() ==> forall|j: int| 0 <= j < n ==> #[trigger] self.source_infallible(j),
            decreases n - i,
        {
            assert(self.sources()[i as int] == (*self.iters@[i as int]).remaining());
            if self.iters[i].is_valid() && key_equal(self.iters[i].key(), k.as_slice()) {
                let ghost before = self.iters@;
                let ghost sb = self.sources();
                let ghost pre_rm = *self;
                let mut it = self.iters.remove(i);
                let ghost it0 = *it;
                assert(it0 == *before[i as int]);
                assert(old(self).infallible() ==> it0.infallible()) by {
                    if old(self).infallible() {
                        assert(pre_rm.source_infallible(i as int));
                    }
                }
                let res = it.next();
                assert(it0.infallible() ==> res is Ok && (*it).infallible());
                self.iters.insert(i, it);
                assert(self.iters@ =~= before.update(i as int, it));
                assert forall|j: int| 0 <= j < n && j != i implies #[trigger] self.sources()[j]
                    == sb[j] by {
                    assert(self.iters@[j] == before[j]);
                }
                assert(self.sources_inv()) by {
                    assert forall|j: int| 0 <= j < n implies (*self.iters@[j]).inv() by {
                        if j != i {
                            assert(self.iters@[j] == before[j]);
                        }
                    }
                }
                assert(old(self).infallible() ==> forall|j: int| 0 <= j < n ==> #[trigger] self.source_infallible(j)) by {
                    if old(self).infallible() {
                        assert forall|j: int| 0 <= j < n implies #[trigger] self.source_infallible(j) by {
                            if j != i {
                                assert(self.iters@[j] == before[j]);
                                assert(pre_rm.source_infallible(j));
                            }
                        }
                    }
                }
                if res.is_err() {
                    let ghost pre = *self;
                    self.current = self.find_current();
                    assert(self.iters@ == pre.iters@);
                    assert(self.sources().len() == n);
                    assert(stopped_at(s0, self.sources(), k@, i as int));
                    return res;
                }
            }
            i = i + 1;
        }
        assert(self.sources() =~= target);
        let ghost pre = *self;
        self.current = self.find_current();
        assert(old(self).infallible() ==> self.infallible()) by {
            if old(self).infallible() {
                assert forall|j: int| 0 <= j < self.sources().len() implies #[trigger] self.source_infallible(j) by {
                    assert(pre.source_infallible(j));
                    assert(self.iters@ == pre.iters@);
                }
            }
        }
        Ok(())
    }
}

} // verus!
