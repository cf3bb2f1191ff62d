//! The set of votes for one event: which validators have attested to it and
//! at which foreign-chain height.
//!
//! A validator may vote once per event; the collection is keyed by validator.
//! Entries are kept strictly sorted by validator identity, so that a set of
//! votes has exactly one representation and every computation folded over it
//! is independent of the order in which the votes arrived.

use vstd::prelude::*;

verus! {

use crate::types::{Address, BlockHeight};

/// The map a sequence of (validator, height) pairs stands for.
/// A later entry for the same validator would win; well-formed sequences
/// have distinct validators, so the case does not arise.
pub open spec fn vote_map(s: Seq<(Address, BlockHeight)>) -> Map<Address, BlockHeight>
    decreases s.len(),
{
    if s.len() == 0 {
        Map::empty()
    } else {
        vote_map(s.drop_last()).insert(s.last().0, s.last().1)
    }
}

/// Strictly sorted by validator identity.
pub open spec fn vote_sorted(s: Seq<(Address, BlockHeight)>) -> bool {
    forall|i: int, j: int| 0 <= i < j < s.len() ==> s[i].0.0 < s[j].0.0
}

/// What [`vote_map`] contains, for a sorted sequence.
pub proof fn lemma_vote_map(s: Seq<(Address, BlockHeight)>)
    requires
        vote_sorted(s),
    ensures
        vote_map(s).dom().finite(),
        forall|v: Address|
            vote_map(s).contains_key(v) <==> exists|i: int| 0 <= i < s.len() && (#[trigger] s[i]).0 == v,
        forall|i: int|
            0 <= i < s.len() ==> vote_map(s).contains_key((#[trigger] s[i]).0) && vote_map(s)[s[i].0]
                == s[i].1,
        vote_map(s).dom().len() == s.len(),
    decreases s.len(),
{
    if s.len() == 0 {
    } else {
        let pre = s.drop_last();
        assert(vote_sorted(pre));
        lemma_vote_map(pre);
        assert forall|i: int| 0 <= i < s.len() implies vote_map(s).contains_key((#[trigger] s[i]).0)
            && vote_map(s)[s[i].0] == s[i].1 by {
            if i < s.len() - 1 {
                assert(pre[i] == s[i]);
                assert(s[i].0.0 < s.last().0.0);
            }
        }
        assert(!vote_map(pre).contains_key(s.last().0));
        assert(vote_map(s).dom() =~= vote_map(pre).dom().insert(s.last().0));
        assert forall|v: Address| vote_map(s).contains_key(v) implies exists|i: int|
            0 <= i < s.len() && (#[trigger] s[i]).0 == v by {
            if v == s.last().0 {
                assert(s[s.len() - 1].0 == v);
            } else {
                let i = choose|i: int| 0 <= i < pre.len() && (#[trigger] pre[i]).0 == v;
                assert(s[i].0 == v);
            }
        }
    }
}

/// Two sorted sequences standing for the same map are the same sequence.
pub proof fn lemma_vote_sorted_unique(s1: Seq<(Address, BlockHeight)>, s2: Seq<(Address, BlockHeight)>)
    requires
        vote_sorted(s1),
        vote_sorted(s2),
        vote_map(s1) == vote_map(s2),
    ensures
        s1 == s2,
    decreases s1.len(),
{
    lemma_vote_map(s1);
    lemma_vote_map(s2);
    if s1.len() == 0 {
        assert(s2.len() == 0);
        assert(s1 =~= s2);
    } else {
        assert(s2.len() == s1.len());
        // both last elements carry the maximal validator; they must agree
        let l1 = s1.last();
        let l2 = s2.last();
        let i2 = choose|i: int| 0 <= i < s2.len() && (#[trigger] s2[i]).0 == l1.0;
        let i1 = choose|i: int| 0 <= i < s1.len() && (#[trigger] s1[i]).0 == l2.0;
        assert(s1[i1].0 == l2.0);
        assert(s2[i2].0 == l1.0);
        // maximality on both sides forces i1, i2 to be the last positions
        if i2 < s2.len() - 1 {
            assert(s2[i2].0.0 < l2.0.0);
            assert(s1[i1].0.0 <= l1.0.0);
            assert(false);
        }
        assert(l2.0 == l1.0);
        assert(l2.1 == vote_map(s2)[l1.0]);
        assert(l1.1 == vote_map(s1)[l1.0]);
        let p1 = s1.drop_last();
        let p2 = s2.drop_last();
        assert(vote_sorted(p1));
        assert(vote_sorted(p2));
        lemma_vote_map(p1);
        lemma_vote_map(p2);
        assert forall|v: Address| vote_map(p1).contains_key(v) implies vote_map(p2).contains_key(v)
            && vote_map(p2)[v] == vote_map(p1)[v] by {
            let i = choose|i: int| 0 <= i < p1.len() && (#[trigger] p1[i]).0 == v;
            assert(s1[i].0 == v);
            assert(v.0 < l1.0.0);
            assert(vote_map(s2).contains_key(v));
            let j = choose|j: int| 0 <= j < s2.len() && (#[trigger] s2[j]).0 == v;
            assert(j < s2.len() - 1);
            assert(p2[j].0 == v);
            assert(vote_map(p1)[v] == s1[i].1);
            assert(vote_map(s1)[v] == s1[i].1);
            assert(vote_map(p2)[v] == p2[j].1);
            assert(vote_map(s2)[v] == s2[j].1);
        }
        assert forall|v: Address| vote_map(p2).contains_key(v) implies vote_map(p1).contains_key(v) by {
            let i = choose|i: int| 0 <= i < p2.len() && (#[trigger] p2[i]).0 == v;
            assert(s2[i].0 == v);
            assert(v.0 < l1.0.0);
            assert(vote_map(s1).contains_key(v));
            let j = choose|j: int| 0 <= j < s1.len() && (#[trigger] s1[j]).0 == v;
            assert(j < s1.len() - 1);
            assert(p1[j].0 == v);
        }
        assert(vote_map(p1) =~= vote_map(p2));
        lemma_vote_sorted_unique(p1, p2);
        assert(s1 =~= s2);
    }
}

/// Union of two vote maps; where both voted, the smaller height is kept.
pub open spec fn vote_union(a: Map<Address, BlockHeight>, b: Map<Address, BlockHeight>) -> Map<
    Address,
    BlockHeight,
> {
    Map::new(
        |v: Address| a.contains_key(v) || b.contains_key(v),
        |v: Address|
            if a.contains_key(v) && b.contains_key(v) {
                if a[v].0 <= b[v].0 {
                    a[v]
                } else {
                    b[v]
                }
            } else if a.contains_key(v) {
                a[v]
            } else {
                b[v]
            },
    )
}

/// Insertion of one vote, keeping the smaller height on a duplicate.
pub open spec fn vote_insert_min(
    m: Map<Address, BlockHeight>,
    v: Address,
    h: BlockHeight,
) -> Map<Address, BlockHeight> {
    if m.contains_key(v) && m[v].0 <= h.0 {
        m
    } else {
        m.insert(v, h)
    }
}

/// The set of (validator, height) votes for one event, unique per validator.
#[derive(Debug, PartialEq, Eq)]
pub struct Votes {
    pub entries: Vec<(Address, BlockHeight)>,
}

impl View for Votes {
    type V = Map<Address, BlockHeight>;

    open spec fn view(&self) -> Map<Address, BlockHeight> {
        vote_map(self.entries@)
    }
}

impl Clone for Votes {
    /// Cloning preserves the votes and their representation.
    fn clone(&self) -> (res: Self)
        ensures
            res.entries@ == self.entries@,
            res@ == self@,
            res.wf() == self.wf(),
    {
        let mut es: Vec<(Address, BlockHeight)> = Vec::new();
        let mut i: usize = 0;
        while i < self.entries.len()
            invariant
                i <= self.entries.len(),
                es@ == self.entries@.subrange(0, i as int),
            decreases self.entries.len() - i,
        {
            es.push(self.entries[i]);
            proof {
                assert(es@ =~= self.entries@.subrange(0, i + 1));
            }
            i = i + 1;
        }
        proof {
            assert(es@ =~= self.entries@);
        }
        Votes { entries: es }
    }
}

impl Votes {
    /// Entries are strictly sorted by validator identity.
    pub open spec fn wf(&self) -> bool {
        vote_sorted(self.entries@)
    }

    /// No votes.
    pub fn new() -> (r: Self)
        ensures
            r.wf(),
            r@ == Map::<Address, BlockHeight>::empty(),
            r.entries@.len() == 0,
    {
        Votes { entries: Vec::new() }
    }

    /// How many validators voted.
    pub fn len(&self) -> (r: usize)
        requires
            self.wf(),
        ensures
            r == self.entries@.len(),
            r == self@.dom().len(),
    {
        proof {
            lemma_vote_map(self.entries@);
        }
        self.entries.len()
    }

    /// Whether nobody voted.
    pub fn is_empty(&self) -> (r: bool)
        requires
            self.wf(),
        ensures
            r <==> (forall|v: Address| !self@.contains_key(v)),
            r == (self.entries@.len() == 0),
    {
        proof {
            lemma_vote_map(self.entries@);
            if self.entries@.len() > 0 {
                assert(self@.contains_key(self.entries@[0].0));
            }
        }
        self.entries.len() == 0
    }

    /// The height at which `v` voted, if it did.
    pub fn get(&self, v: Address) -> (r: Option<BlockHeight>)
        requires
            self.wf(),
        ensures
            r == if self@.contains_key(v) {
                Some(self@[v])
            } else {
                None::<BlockHeight>
            },
    {
        proof {
            lemma_vote_map(self.entries@);
        }
        let n = self.entries.len();
        let mut i: usize = 0;
        while i < n
            invariant
                i <= n,
                n == self.entries@.len(),
                self.wf(),
                forall|k: int| 0 <= k < i ==> (#[trigger] self.entries@[k]).0 != v,
            decreases n - i,
        {
            let (cand, h) = self.entries[i];
            if cand == v {
                proof {
                    lemma_vote_map(self.entries@);
                    assert(self.entries@[i as int] == (cand, h));
                }
                return Some(h);
            }
            i = i + 1;
        }
        proof {
            if self@.contains_key(v) {
                lemma_vote_map(self.entries@);
                let k = choose|k: int| 0 <= k < self.entries@.len() && (#[trigger] self.entries@[k]).0 == v;
            }
        }
        None
    }

    /// Whether `v` voted.
    pub fn contains(&self, v: Address) -> (r: bool)
        requires
            self.wf(),
        ensures
            r == self@.contains_key(v),
    {
        self.get(v).is_some()
    }

    /// Record a vote; on a duplicate validator the smaller height is kept.
    pub fn insert_min(&mut self, v: Address, h: BlockHeight)
        requires
            old(self).wf(),
        ensures
            final(self).wf(),
            final(self)@ == vote_insert_min(old(self)@, v, h),
    {
        let ghost orig = self.entries@;
        proof {
            lemma_vote_map(orig);
        }
        let n = self.entries.len();
        let mut i: usize = 0;
        while i < n && self.entries[i].0.0 < v.0
            invariant
                i <= n,
                n == self.entries@.len(),
                vote_sorted(self.entries@),
                self.entries@ == orig,
                forall|k: int| 0 <= k < i ==> (#[trigger] self.entries@[k]).0.0 < v.0,
            decreases n - i,
        {
            i = i + 1;
        }
        // here every entry before i has a smaller validator, and entry i (if
        // any) has one at least as large
        if i < n && self.entries[i].0 == v {
            // duplicate validator: keep the smaller height
            let old_h = self.entries[i].1;
            proof {
                assert(orig[i as int] == (v, old_h));
                assert(vote_map(orig)[v] == old_h && vote_map(orig).contains_key(v));
            }
            if h.0 < old_h.0 {
                self.entries[i] = (v, h);
                proof {
                    let s = self.entries@;
                    assert(forall|k: int| 0 <= k < s.len() && k != i ==> s[k] == orig[k]);
                    assert(vote_sorted(s));
                    lemma_vote_map(s);
                    assert(s[i as int] == (v, h));
                    let target = vote_insert_min(vote_map(orig), v, h);
                    assert(target == vote_map(orig).insert(v, h));
                    assert forall|w: Address| vote_map(s).contains_key(w) implies
                        target.contains_key(w) && target[w] == vote_map(s)[w] by {
                        let k = choose|k: int| 0 <= k < s.len() && (#[trigger] s[k]).0 == w;
                        if k == i {
                            assert(vote_map(s)[w] == h);
                        } else {
                            assert(orig[k] == s[k]);
                            assert(vote_map(orig)[w] == orig[k].1);
                            assert(vote_map(s)[w] == s[k].1);
                            assert(w != v);
                        }
                    }
                    assert forall|w: Address| target.contains_key(w) implies vote_map(
                        s,
                    ).contains_key(w) by {
                        if w == v {
                            assert(s[i as int].0 == w);
                        } else {
                            let k = choose|k: int| 0 <= k < orig.len() && (#[trigger] orig[k]).0
                                == w;
                            assert(s[k].0 == w);
                        }
                    }
                    assert(vote_map(s) =~= target);
                }
            } else {
                proof {
                    assert(vote_insert_min(vote_map(orig), v, h) == vote_map(orig));
                }
            }
        } else {
            // no entry for v: insert at position i, keeping the order
            proof {
                if i < n {
                    assert(orig[i as int].0.0 >= v.0);
                    assert(orig[i as int].0 != v);
                    assert(orig[i as int].0.0 > v.0);
                }
                if vote_map(orig).contains_key(v) {
                    let k = choose|k: int| 0 <= k < orig.len() && (#[trigger] orig[k]).0 == v;
                    if k < i {
                        assert(orig[k].0.0 < v.0);
                    } else if k > i {
                        assert(orig[i as int].0.0 < orig[k].0.0);
                    }
                    assert(false);
                }
            }
            self.entries.insert(i, (v, h));
            proof {
                let s = self.entries@;
                assert(s.len() == orig.len() + 1);
                assert(forall|k: int| 0 <= k < i ==> s[k] == orig[k]);
                assert(s[i as int] == (v, h));
                assert(forall|k: int| i < k < s.len() ==> s[k] == orig[k - 1]);
                assert forall|p: int, q: int| 0 <= p < q < s.len() implies s[p].0.0 < s[q].0.0 by {
                    if q > i {
                        assert(s[q] == orig[q - 1] || q == i);
                        if q != i {
                            assert(orig[q - 1].0.0 > v.0 || q - 1 < i);
                        }
                    }
                }
                assert(vote_sorted(s));
                lemma_vote_map(s);
                let target = vote_insert_min(vote_map(orig), v, h);
                assert(target == vote_map(orig).insert(v, h));
                assert forall|w: Address| vote_map(s).contains_key(w) implies target.contains_key(
                    w,
                ) && target[w] == vote_map(s)[w] by {
                    let k = choose|k: int| 0 <= k < s.len() && (#[trigger] s[k]).0 == w;
                    if k == i {
                        assert(vote_map(s)[w] == h);
                    } else if k < i {
                        assert(orig[k] == s[k]);
                        assert(vote_map(orig)[w] == orig[k].1);
                        assert(vote_map(s)[w] == s[k].1);
                    } else {
                        assert(orig[k - 1] == s[k]);
                        assert(vote_map(orig)[w] == orig[k - 1].1);
                        assert(vote_map(s)[w] == s[k].1);
                    }
                }
                assert forall|w: Address| target.contains_key(w) implies vote_map(s).contains_key(
                    w,
                ) by {
                    if w == v {
                        assert(s[i as int].0 == w);
                    } else {
                        let k = choose|k: int| 0 <= k < orig.len() && (#[trigger] orig[k]).0 == w;
                        if k < i {
                            assert(s[k].0 == w);
                        } else {
                            assert(s[k + 1].0 == w);
                        }
                    }
                }
                assert(vote_map(s) =~= target);
            }
        }
    }

    /// Merge another set of votes into this one; where both contain a
    /// validator, the smaller height wins.
    pub fn merge_min(&mut self, other: &Votes)
        requires
            old(self).wf(),
            other.wf(),
        ensures
            final(self).wf(),
            final(self)@ == vote_union(old(self)@, other@),
    {
        proof {
            lemma_vote_map(other.entries@);
        }
        let n = other.entries.len();
        let mut j: usize = 0;
        while j < n
            invariant
                j <= n,
                n == other.entries@.len(),
                other.wf(),
                self.wf(),
                self@ == fold_insert_min(old(self)@, other.entries@.subrange(0, j as int)),
            decreases n - j,
        {
            let (v, h) = other.entries[j];
            proof {
                assert(other.entries@.subrange(0, j + 1).drop_last() =~= other.entries@.subrange(
                    0,
                    j as int,
                ));
            }
            self.insert_min(v, h);
            j = j + 1;
        }
        proof {
            assert(other.entries@.subrange(0, n as int) =~= other.entries@);
            lemma_fold_insert_min_is_union(old(self)@, other.entries@);
        }
    }

    /// The votes of `self` whose validator is not in `existing`.
    pub fn minus_keys(&self, existing: &Votes) -> (r: Votes)
        requires
            self.wf(),
            existing.wf(),
        ensures
            r.wf(),
            r@ == self@.remove_keys(existing@.dom()),
    {
        proof {
            lemma_vote_map(self.entries@);
        }
        let n = self.entries.len();
        let mut out: Vec<(Address, BlockHeight)> = Vec::new();
        let mut i: usize = 0;
        while i < n
            invariant
                i <= n,
                n == self.entries@.len(),
                self.wf(),
                existing.wf(),
                vote_sorted(out@),
                forall|k: int, p: int|
                    0 <= k < out@.len() && i <= p < n ==> (#[trigger] out@[k]).0.0
                        < (#[trigger] self.entries@[p]).0.0,
                forall|k: int|
                    0 <= k < out@.len() ==> self@.contains_key((#[trigger] out@[k]).0)
                        && self@[out@[k].0] == out@[k].1 && !existing@.contains_key(out@[k].0),
                forall|p: int|
                    0 <= p < i && !existing@.contains_key((#[trigger] self.entries@[p]).0)
                        ==> exists|k: int|
                        0 <= k < out@.len() && (#[trigger] out@[k]).0 == self.entries@[p].0,
            decreases n - i,
        {
            let (v, h) = self.entries[i];
            let ghost out_before = out@;
            if !existing.contains(v) {
                out.push((v, h));
                proof {
                    lemma_vote_map(self.entries@);
                    assert(out@.last() == (v, h));
                    assert(out@[out@.len() - 1].0 == self.entries@[i as int].0);
                }
            }
            proof {
                assert(forall|k: int|
                    0 <= k < out_before.len() ==> out@[k] == #[trigger] out_before[k]);
                assert forall|p: int|
                    0 <= p < i + 1 && !existing@.contains_key((#[trigger] self.entries@[p]).0)
                        implies exists|k: int|
                    0 <= k < out@.len() && (#[trigger] out@[k]).0 == self.entries@[p].0 by {
                    if p < i {
                        let k = choose|k: int|
                            0 <= k < out_before.len() && (#[trigger] out_before[k]).0
                                == self.entries@[p].0;
                        assert(out@[k].0 == self.entries@[p].0);
                    } else {
                        assert(out@[out@.len() - 1].0 == self.entries@[p].0);
                    }
                }
            }
            i = i + 1;
        }
        let r = Votes { entries: out };
        proof {
            lemma_vote_map(out@);
            lemma_vote_map(self.entries@);
            assert forall|w: Address| r@.contains_key(w) implies self@.remove_keys(
                existing@.dom(),
            ).contains_key(w) && self@.remove_keys(existing@.dom())[w] == r@[w] by {
                let k = choose|k: int| 0 <= k < out@.len() && (#[trigger] out@[k]).0 == w;
                assert(r@[w] == out@[k].1);
            }
            assert forall|w: Address| self@.remove_keys(existing@.dom()).contains_key(w) implies
                r@.contains_key(w) by {
                let p = choose|p: int|
                    0 <= p < self.entries@.len() && (#[trigger] self.entries@[p]).0 == w;
                let k = choose|k: int| 0 <= k < out@.len() && (#[trigger] out@[k]).0 == w;
            }
            assert(r@ =~= self@.remove_keys(existing@.dom()));
        }
        r
    }
}

/// Folding [`vote_insert_min`] over a sequence of votes.
pub open spec fn fold_insert_min(
    m: Map<Address, BlockHeight>,
    s: Seq<(Address, BlockHeight)>,
) -> Map<Address, BlockHeight>
    decreases s.len(),
{
    if s.len() == 0 {
        m
    } else {
        vote_insert_min(fold_insert_min(m, s.drop_last()), s.last().0, s.last().1)
    }
}

/// Folding min-insertion of a sorted vote sequence equals the min-union with
/// the map it stands for.
pub proof fn lemma_fold_insert_min_is_union(m: Map<Address, BlockHeight>, s: Seq<(Address, BlockHeight)>)
    requires
        vote_sorted(s),
    ensures
        fold_insert_min(m, s) == vote_union(m, vote_map(s)),
    decreases s.len(),
{
    lemma_vote_map(s);
    if s.len() == 0 {
        assert(fold_insert_min(m, s) == m);
        assert(vote_union(m, vote_map(s)) =~= m);
    } else {
        let pre = s.drop_last();
        assert(vote_sorted(pre));
        lemma_vote_map(pre);
        lemma_fold_insert_min_is_union(m, pre);
        let (v, h) = s.last();
        assert(!vote_map(pre).contains_key(v));
        assert forall|w: Address|
            vote_union(m, vote_map(s)).contains_key(w) == vote_insert_min(
                vote_union(m, vote_map(pre)),
                v,
                h,
            ).contains_key(w) && (vote_union(m, vote_map(s)).contains_key(w)
                ==> vote_union(m, vote_map(s))[w] == vote_insert_min(
                vote_union(m, vote_map(pre)),
                v,
                h,
            )[w]) by {
            if w == v {
                assert(vote_map(s).contains_key(v) && vote_map(s)[v] == h);
            } else {
                if vote_map(s).contains_key(w) {
                    let k = choose|k: int| 0 <= k < s.len() && (#[trigger] s[k]).0 == w;
                    assert(k < s.len() - 1);
                    assert(pre[k].0 == w);
                    assert(vote_map(pre)[w] == pre[k].1);
                    assert(vote_map(s)[w] == s[k].1);
                }
                if vote_map(pre).contains_key(w) {
                    let k = choose|k: int| 0 <= k < pre.len() && (#[trigger] pre[k]).0 == w;
                    assert(s[k].0 == w);
                }
            }
        }
        assert(vote_union(m, vote_map(s)) =~= vote_insert_min(vote_union(m, vote_map(pre)), v, h));
    }
}

} // verus!
