//! The weight oracle: each (validator, height) pair referenced by a batch is
//! resolved to a fractional voting power before the merge engine runs.
//!
//! The oracle is injected as an explicit read-only parameter; the engine
//! treats a missing entry as a fatal input error, never as zero weight.

use vstd::prelude::*;

verus! {

use crate::power::FractionalVotingPower;
use crate::types::{Address, BlockHeight};

/// The map a sequence of ((validator, height), power) pairs stands for.
pub open spec fn power_map(
    s: Seq<((Address, BlockHeight), FractionalVotingPower)>,
) -> Map<(Address, BlockHeight), FractionalVotingPower>
    decreases s.len(),
{
    if s.len() == 0 {
        Map::empty()
    } else {
        power_map(s.drop_last()).insert(s.last().0, s.last().1)
    }
}

/// No two pairs of the sequence share a (validator, height) key.
pub open spec fn power_distinct(s: Seq<((Address, BlockHeight), FractionalVotingPower)>) -> bool {
    forall|i: int, j: int| 0 <= i < j < s.len() ==> s[i].0 != s[j].0
}

/// What [`power_map`] contains, for distinct keys.
pub proof fn lemma_power_map(s: Seq<((Address, BlockHeight), FractionalVotingPower)>)
    requires
        power_distinct(s),
    ensures
        forall|k: (Address, BlockHeight)| #![trigger power_map(s).contains_key(k)]
            power_map(s).contains_key(k) <==> exists|i: int|
                0 <= i < s.len() && (#[trigger] s[i]).0 == k,
        forall|i: int|
            0 <= i < s.len() ==> power_map(s).contains_key((#[trigger] s[i]).0) && power_map(
                s,
            )[s[i].0] == s[i].1,
    decreases s.len(),
{
    if s.len() == 0 {
    } else {
        let pre = s.drop_last();
        assert(power_distinct(pre));
        lemma_power_map(pre);
        assert forall|i: int| 0 <= i < s.len() implies power_map(s).contains_key(
            (#[trigger] s[i]).0,
        ) && power_map(s)[s[i].0] == s[i].1 by {
            if i < s.len() - 1 {
                assert(pre[i] == s[i]);
                assert(s[i].0 != s.last().0);
            }
        }
        assert forall|k: (Address, BlockHeight)| power_map(s).contains_key(k) implies exists|i: int|
            0 <= i < s.len() && (#[trigger] s[i]).0 == k by {
            if k == s.last().0 {
                assert(s[s.len() - 1].0 == k);
            } else {
                assert(power_map(pre).contains_key(k));
                let i = choose|i: int| 0 <= i < pre.len() && (#[trigger] pre[i]).0 == k;
                assert(s[i].0 == k);
            }
        }
    }
}

/// The injected weight oracle: voting power per (validator, height) pair.
#[derive(Debug)]
pub struct VotingPowers {
    pub entries: Vec<((Address, BlockHeight), FractionalVotingPower)>,
}

impl View for VotingPowers {
    type V = Map<(Address, BlockHeight), FractionalVotingPower>;

    open spec fn view(&self) -> Map<(Address, BlockHeight), FractionalVotingPower> {
        power_map(self.entries@)
    }
}

impl VotingPowers {
    /// Distinct keys, and every held fraction well formed.
    pub open spec fn wf(&self) -> bool {
        &&& power_distinct(self.entries@)
        &&& forall|i: int| 0 <= i < self.entries@.len() ==> (#[trigger] self.entries@[i]).1.wf()
    }

    /// An empty oracle.
    pub fn new() -> (r: Self)
        ensures
            r.wf(),
            r@ == Map::<(Address, BlockHeight), FractionalVotingPower>::empty(),
    {
        VotingPowers { entries: Vec::new() }
    }

    /// Record the voting power of one (validator, height) pair.
    pub fn insert(&mut self, validator: Address, height: BlockHeight, power: FractionalVotingPower)
        requires
            old(self).wf(),
            power.wf(),
        ensures
            final(self).wf(),
            final(self)@ == old(self)@.insert((validator, height), power),
    {
        proof {
            lemma_power_map(self.entries@);
        }
        let ghost orig = self.entries@;
        let n = self.entries.len();
        let mut i: usize = 0;
        while i < n
            invariant
                i <= n,
                n == self.entries@.len(),
                self.wf(),
                self.entries@ == orig,
                orig == old(self).entries@,
                old(self).wf(),
                power.wf(),
                forall|p: int| 0 <= p < i ==> (#[trigger] self.entries@[p]).0 != (validator, height),
            decreases n - i,
        {
            let ((v, h), _p) = self.entries[i];
            if v == validator && h == height {
                proof {
                    assert(orig[i as int].0 == (validator, height));
                }
                self.entries[i] = ((validator, height), power);
                proof {
                    let s = self.entries@;
                    assert(forall|k: int| 0 <= k < s.len() && k != i ==> s[k] == orig[k]);
                    assert(s[i as int] == ((validator, height), power));
                    assert forall|k: int| 0 <= k < s.len() implies (#[trigger] s[k]).1.wf() by {
                        if k != i {
                            assert(s[k] == orig[k]);
                        }
                    }
                    assert forall|p: int, q: int| 0 <= p < q < s.len() implies (
                    #[trigger] s[p]).0 != (#[trigger] s[q]).0 by {
                        if p != i && q != i {
                            assert(orig[p] == s[p] && orig[q] == s[q]);
                        } else {
                            assert(orig[p].0 == s[p].0 || p == i);
                            assert(orig[q].0 == s[q].0 || q == i);
                        }
                    }
                    lemma_power_map(s);
                    lemma_power_map(orig);
                    let target = old(self)@.insert((validator, height), power);
                    assert forall|k: (Address, BlockHeight)|
                        power_map(s).contains_key(k) == target.contains_key(k) && (power_map(
                            s,
                        ).contains_key(k) ==> power_map(s)[k] == target[k]) by {
                        if power_map(s).contains_key(k) {
                            assert(exists|p: int| 0 <= p < s.len() && (#[trigger] s[p]).0 == k);
                            let p = choose|p: int| 0 <= p < s.len() && (#[trigger] s[p]).0 == k;
                            if p == i {
                                assert(power_map(s)[k] == power);
                            } else {
                                assert(orig[p] == s[p]);
                                assert(power_map(orig)[k] == orig[p].1);
                                assert(power_map(s)[k] == s[p].1);
                            }
                        }
                        if target.contains_key(k) {
                            if k == (validator, height) {
                                assert(s[i as int].0 == k);
                            } else {
                                assert(power_map(orig).contains_key(k));
                                let p = choose|p: int|
                                    0 <= p < orig.len() && (#[trigger] orig[p]).0 == k;
                                assert(p != i);
                                assert(orig[p] == s[p]);
                                assert(s[p].0 == k);
                            }
                        }
                    }
                    assert(power_map(s) =~= target);
                }
                return ;
            }
            proof {
                assert(self.entries@[i as int].0 != (validator, height));
            }
            i = i + 1;
        }
        proof {
            lemma_power_map(orig);
            if power_map(orig).contains_key((validator, height)) {
                let p = choose|p: int|
                    0 <= p < orig.len() && (#[trigger] orig[p]).0 == (validator, height);
            }
        }
        self.entries.push(((validator, height), power));
        proof {
            let s = self.entries@;
            assert(s.drop_last() =~= orig);
            assert forall|k: int| 0 <= k < s.len() implies (#[trigger] s[k]).1.wf() by {
                if k < s.len() - 1 {
                    assert(s[k] == orig[k]);
                }
            }
            assert forall|p: int, q: int| 0 <= p < q < s.len() implies (#[trigger] s[p]).0 != (
            #[trigger] s[q]).0 by {
                if q == s.len() - 1 {
                    assert(orig[p] == s[p]);
                }
            }
        }
    }

    /// The voting power of one (validator, height) pair, if the oracle
    /// covers it.
    pub fn get(&self, validator: Address, height: BlockHeight) -> (r: Option<FractionalVotingPower>)
        requires
            self.wf(),
        ensures
            r == if self@.contains_key((validator, height)) {
                Some(self@[(validator, height)])
            } else {
                None::<FractionalVotingPower>
            },
            r matches Some(p) ==> p.wf(),
    {
        proof {
            lemma_power_map(self.entries@);
        }
        let n = self.entries.len();
        let mut i: usize = 0;
        while i < n
            invariant
                i <= n,
                n == self.entries@.len(),
                self.wf(),
                forall|p: int| 0 <= p < i ==> (#[trigger] self.entries@[p]).0 != (validator, height),
            decreases n - i,
        {
            let ((v, h), p) = self.entries[i];
            if v == validator && h == height {
                proof {
                    lemma_power_map(self.entries@);
                    assert(self.entries@[i as int].0 == (validator, height));
                }
                return Some(p);
            }
            proof {
                assert(self.entries@[i as int].0 != (validator, height));
            }
            i = i + 1;
        }
        proof {
            lemma_power_map(self.entries@);
            if self@.contains_key((validator, height)) {
                let p = choose|p: int|
                    0 <= p < self.entries@.len() && (#[trigger] self.entries@[p]).0 == (
                    validator,
                    height,
                );
            }
        }
        None
    }
}

} // verus!
