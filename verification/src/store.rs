//! The vote tally store and the ledger state the actuator mutates.
//!
//! Each recorded event owns one [`VoteRecord`]; confirmed transfers credit
//! minted balances and the running supply.  The store is the library's own
//! structured state: a record is held whole under its event, and the maps the
//! contracts speak of are the store's mathematical value.

use vstd::prelude::*;

verus! {

use crate::power::FractionalVotingPower;
use crate::types::{Address, BlockHeight, Epoch, EthAddress, EventBody, EventBodyV};
use crate::votes::Votes;

/// The tally of votes for one recorded event.
#[derive(Debug)]
pub struct VoteRecord {
    /// True once cumulative voting power strictly exceeds two thirds.
    pub seen: bool,
    /// The (validator, height) pairs that voted, unique per validator.
    pub seen_by: Votes,
    /// The cumulative fraction of stake that voted.
    pub voting_power: FractionalVotingPower,
    /// The epoch at which this record was first created.
    pub recorded_epoch: Epoch,
}

/// The mathematical value of a [`VoteRecord`].
#[verifier::ext_equal]
pub ghost struct VoteRecordV {
    pub seen: bool,
    pub seen_by: Map<Address, BlockHeight>,
    pub voting_power: FractionalVotingPower,
    pub recorded_epoch: Epoch,
}

impl View for VoteRecord {
    type V = VoteRecordV;

    open spec fn view(&self) -> VoteRecordV {
        VoteRecordV {
            seen: self.seen,
            seen_by: self.seen_by@,
            voting_power: self.voting_power,
            recorded_epoch: self.recorded_epoch,
        }
    }
}

impl VoteRecord {
    /// A record holds at least one vote, a positive denominator, and a seen
    /// flag that agrees with the threshold.
    pub open spec fn wf(&self) -> bool {
        &&& self.seen_by.wf()
        &&& self.seen_by.entries@.len() > 0
        &&& self.voting_power.wf()
        &&& self.seen == self.voting_power.spec_exceeds_threshold()
    }
}

/// The map a sequence of (event, record) pairs stands for.
pub open spec fn tally_map(s: Seq<(EventBody, VoteRecord)>) -> Map<EventBodyV, VoteRecordV>
    decreases s.len(),
{
    if s.len() == 0 {
        Map::empty()
    } else {
        tally_map(s.drop_last()).insert(s.last().0@, s.last().1@)
    }
}

/// No two pairs of the sequence share an event.
pub open spec fn tally_distinct(s: Seq<(EventBody, VoteRecord)>) -> bool {
    forall|i: int, j: int| 0 <= i < j < s.len() ==> s[i].0@ != s[j].0@
}

/// What [`tally_map`] contains, for a sequence of distinct events.
pub proof fn lemma_tally_map(s: Seq<(EventBody, VoteRecord)>)
    requires
        tally_distinct(s),
    ensures
        tally_map(s).dom().finite(),
        forall|b: EventBodyV| #![trigger tally_map(s).contains_key(b)]
            tally_map(s).contains_key(b) <==> exists|i: int|
                0 <= i < s.len() && (#[trigger] s[i]).0@ == b,
        forall|i: int|
            0 <= i < s.len() ==> tally_map(s).contains_key((#[trigger] s[i]).0@) && tally_map(
                s,
            )[s[i].0@] == s[i].1@,
        tally_map(s).dom().len() == s.len(),
    decreases s.len(),
{
    if s.len() == 0 {
    } else {
        let pre = s.drop_last();
        assert(tally_distinct(pre));
        lemma_tally_map(pre);
        assert forall|i: int| 0 <= i < s.len() implies tally_map(s).contains_key(
            (#[trigger] s[i]).0@,
        ) && tally_map(s)[s[i].0@] == s[i].1@ by {
            if i < s.len() - 1 {
                assert(pre[i] == s[i]);
                assert(s[i].0@ != s.last().0@);
            }
        }
        if tally_map(pre).contains_key(s.last().0@) {
            let i = choose|i: int| 0 <= i < pre.len() && (#[trigger] pre[i]).0@ == s.last().0@;
            assert(s[i].0@ == s[s.len() - 1].0@);
            assert(false);
        }
        assert(tally_map(s).dom() =~= tally_map(pre).dom().insert(s.last().0@));
        assert forall|b: EventBodyV| tally_map(s).contains_key(b) implies exists|i: int|
            0 <= i < s.len() && (#[trigger] s[i]).0@ == b by {
            if b == s.last().0@ {
                assert(s[s.len() - 1].0@ == b);
            } else {
                let i = choose|i: int| 0 <= i < pre.len() && (#[trigger] pre[i]).0@ == b;
                assert(s[i].0@ == b);
            }
        }
    }
}

/// The map a sequence of ((asset, receiver), amount) pairs stands for.
pub open spec fn balance_map(s: Seq<((EthAddress, Address), u64)>) -> Map<(EthAddress, Address), u64>
    decreases s.len(),
{
    if s.len() == 0 {
        Map::empty()
    } else {
        balance_map(s.drop_last()).insert(s.last().0, s.last().1)
    }
}

/// No two pairs of the sequence share an (asset, receiver) key.
pub open spec fn balance_distinct(s: Seq<((EthAddress, Address), u64)>) -> bool {
    forall|i: int, j: int| 0 <= i < j < s.len() ==> s[i].0 != s[j].0
}

/// What [`balance_map`] contains, for distinct keys.
pub proof fn lemma_balance_map(s: Seq<((EthAddress, Address), u64)>)
    requires
        balance_distinct(s),
    ensures
        forall|k: (EthAddress, Address)| #![trigger balance_map(s).contains_key(k)]
            balance_map(s).contains_key(k) <==> exists|i: int|
                0 <= i < s.len() && (#[trigger] s[i]).0 == k,
        forall|i: int|
            0 <= i < s.len() ==> balance_map(s).contains_key((#[trigger] s[i]).0) && balance_map(
                s,
            )[s[i].0] == s[i].1,
    decreases s.len(),
{
    if s.len() == 0 {
    } else {
        let pre = s.drop_last();
        assert(balance_distinct(pre));
        lemma_balance_map(pre);
        assert forall|i: int| 0 <= i < s.len() implies balance_map(s).contains_key(
            (#[trigger] s[i]).0,
        ) && balance_map(s)[s[i].0] == s[i].1 by {
            if i < s.len() - 1 {
                assert(pre[i] == s[i]);
                assert(s[i].0 != s.last().0);
            }
        }
        assert forall|k: (EthAddress, Address)| balance_map(s).contains_key(k) implies exists|i: int|
            0 <= i < s.len() && (#[trigger] s[i]).0 == k by {
            if k == s.last().0 {
                assert(s[s.len() - 1].0 == k);
            } else {
                assert(balance_map(pre).contains_key(k));
                let i = choose|i: int| 0 <= i < pre.len() && (#[trigger] pre[i]).0 == k;
                assert(s[i].0 == k);
            }
        }
    }
}

/// The map a sequence of (asset, amount) pairs stands for.
pub open spec fn supply_map(s: Seq<(EthAddress, u64)>) -> Map<EthAddress, u64>
    decreases s.len(),
{
    if s.len() == 0 {
        Map::empty()
    } else {
        supply_map(s.drop_last()).insert(s.last().0, s.last().1)
    }
}

/// No two pairs of the sequence share an asset.
pub open spec fn supply_distinct(s: Seq<(EthAddress, u64)>) -> bool {
    forall|i: int, j: int| 0 <= i < j < s.len() ==> s[i].0 != s[j].0
}

/// What [`supply_map`] contains, for distinct assets.
pub proof fn lemma_supply_map(s: Seq<(EthAddress, u64)>)
    requires
        supply_distinct(s),
    ensures
        forall|a: EthAddress| #![trigger supply_map(s).contains_key(a)]
            supply_map(s).contains_key(a) <==> exists|i: int|
                0 <= i < s.len() && (#[trigger] s[i]).0 == a,
        forall|i: int|
            0 <= i < s.len() ==> supply_map(s).contains_key((#[trigger] s[i]).0) && supply_map(
                s,
            )[s[i].0] == s[i].1,
    decreases s.len(),
{
    if s.len() == 0 {
    } else {
        let pre = s.drop_last();
        assert(supply_distinct(pre));
        lemma_supply_map(pre);
        assert forall|i: int| 0 <= i < s.len() implies supply_map(s).contains_key(
            (#[trigger] s[i]).0,
        ) && supply_map(s)[s[i].0] == s[i].1 by {
            if i < s.len() - 1 {
                assert(pre[i] == s[i]);
                assert(s[i].0 != s.last().0);
            }
        }
        assert forall|a: EthAddress| supply_map(s).contains_key(a) implies exists|i: int|
            0 <= i < s.len() && (#[trigger] s[i]).0 == a by {
            if a == s.last().0 {
                assert(s[s.len() - 1].0 == a);
            } else {
                assert(supply_map(pre).contains_key(a));
                let i = choose|i: int| 0 <= i < pre.len() && (#[trigger] pre[i]).0 == a;
                assert(s[i].0 == a);
            }
        }
    }
}
/// The transactional ledger state one processing pass mutates.
#[derive(Debug)]
pub struct LedgerStore {
    /// One vote record per distinct recorded event.
    pub tallies: Vec<(EventBody, VoteRecord)>,
    /// Minted balances, keyed by (asset, receiver).
    pub balances: Vec<((EthAddress, Address), u64)>,
    /// Running minted supply, keyed by asset.
    pub supplies: Vec<(EthAddress, u64)>,
}

impl LedgerStore {
    /// The recorded vote tallies, as a map from event value to record value.
    pub open spec fn tallies_map(&self) -> Map<EventBodyV, VoteRecordV> {
        tally_map(self.tallies@)
    }

    /// The minted balances, as a map.
    pub open spec fn balances_map(&self) -> Map<(EthAddress, Address), u64> {
        balance_map(self.balances@)
    }

    /// The minted supplies, as a map.
    pub open spec fn supplies_map(&self) -> Map<EthAddress, u64> {
        supply_map(self.supplies@)
    }

    /// Distinct keys everywhere, and every record well formed.
    pub open spec fn wf(&self) -> bool {
        &&& tally_distinct(self.tallies@)
        &&& (forall|i: int| 0 <= i < self.tallies@.len() ==> (#[trigger] self.tallies@[i]).1.wf())
        &&& balance_distinct(self.balances@)
        &&& supply_distinct(self.supplies@)
    }

    /// An empty ledger.
    pub fn new() -> (r: Self)
        ensures
            r.wf(),
            r.tallies_map() == Map::<EventBodyV, VoteRecordV>::empty(),
            r.balances_map() == Map::<(EthAddress, Address), u64>::empty(),
            r.supplies_map() == Map::<EthAddress, u64>::empty(),
    {
        LedgerStore { tallies: Vec::new(), balances: Vec::new(), supplies: Vec::new() }
    }

    /// The position of `body`'s record, if one exists.
    fn find_tally(&self, body: &EventBody) -> (r: Option<usize>)
        requires
            self.wf(),
        ensures
            match r {
                Some(i) => i < self.tallies@.len() && self.tallies@[i as int].0@ == body@
                    && self.tallies_map().contains_key(body@),
                None => !self.tallies_map().contains_key(body@),
            },
    {
        proof {
            lemma_tally_map(self.tallies@);
        }
        let n = self.tallies.len();
        let mut i: usize = 0;
        while i < n
            invariant
                i <= n,
                n == self.tallies@.len(),
                self.wf(),
                forall|p: int| 0 <= p < i ==> (#[trigger] self.tallies@[p]).0@ != body@,
            decreases n - i,
        {
            if &self.tallies[i].0 == body {
                proof {
                    lemma_tally_map(self.tallies@);
                    assert(self.tallies@[i as int].0@ == body@);
                }
                return Some(i);
            }
            i = i + 1;
        }
        proof {
            lemma_tally_map(self.tallies@);
            if self.tallies_map().contains_key(body@) {
                let p = choose|p: int|
                    0 <= p < self.tallies@.len() && (#[trigger] self.tallies@[p]).0@ == body@;
            }
        }
        None
    }

    /// Whether a record exists for `body`: the engine's existence probe.
    pub fn contains_tally(&self, body: &EventBody) -> (r: bool)
        requires
            self.wf(),
        ensures
            r == self.tallies_map().contains_key(body@),
    {
        self.find_tally(body).is_some()
    }

    /// The record for `body`, if one exists.
    pub fn get_record(&self, body: &EventBody) -> (r: Option<&VoteRecord>)
        requires
            self.wf(),
        ensures
            match r {
                Some(rec) => self.tallies_map().contains_key(body@)
                    && rec@ == self.tallies_map()[body@] && rec.wf(),
                None => !self.tallies_map().contains_key(body@),
            },
    {
        match self.find_tally(body) {
            Some(i) => {
                proof {
                    lemma_tally_map(self.tallies@);
                }
                Some(&self.tallies[i].1)
            },
            None => None,
        }
    }

    /// Create the record of a new event.
    pub fn insert_tally(&mut self, body: EventBody, rec: VoteRecord)
        requires
            old(self).wf(),
            rec.wf(),
            !old(self).tallies_map().contains_key(body@),
        ensures
            final(self).wf(),
            final(self).tallies_map() == old(self).tallies_map().insert(body@, rec@),
            final(self).balances@ == old(self).balances@,
            final(self).supplies@ == old(self).supplies@,
    {
        proof {
            lemma_tally_map(self.tallies@);
        }
        let ghost orig = self.tallies@;
        self.tallies.push((body, rec));
        proof {
            assert(self.tallies@.drop_last() =~= orig);
            lemma_tally_map(orig);
            assert forall|i: int, j: int| 0 <= i < j < self.tallies@.len() implies (
            #[trigger] self.tallies@[i]).0@ != (#[trigger] self.tallies@[j]).0@ by {
                if j == self.tallies@.len() - 1 {
                    assert(orig[i] == self.tallies@[i]);
                }
            }
            assert(forall|i: int|
                0 <= i < self.tallies@.len() - 1 ==> (#[trigger] self.tallies@[i]).1
                    == orig[i].1);
        }
    }

    /// Replace the record of an already recorded event.
    pub fn set_record(&mut self, body: &EventBody, rec: VoteRecord)
        requires
            old(self).wf(),
            rec.wf(),
            old(self).tallies_map().contains_key(body@),
        ensures
            final(self).wf(),
            final(self).tallies_map() == old(self).tallies_map().insert(body@, rec@),
            final(self).balances@ == old(self).balances@,
            final(self).supplies@ == old(self).supplies@,
    {
        let ghost orig = self.tallies@;
        match self.find_tally(body) {
            Some(i) => {
                let stored = body.clone();
                self.tallies[i] = (stored, rec);
                proof {
                    let s = self.tallies@;
                    assert(forall|k: int| 0 <= k < s.len() && k != i ==> s[k] == orig[k]);
                    assert(s[i as int].0@ == body@ && s[i as int].1@ == rec@);
                    assert forall|p: int, q: int| 0 <= p < q < s.len() implies (
                    #[trigger] s[p]).0@ != (#[trigger] s[q]).0@ by {
                        if p != i && q != i {
                            assert(orig[p] == s[p] && orig[q] == s[q]);
                        }
                    }
                    lemma_tally_map(s);
                    lemma_tally_map(orig);
                    assert forall|b: EventBodyV|
                        tally_map(s).contains_key(b) == old(self).tallies_map().insert(
                            body@,
                            rec@,
                        ).contains_key(b) && (tally_map(s).contains_key(b) ==> tally_map(s)[b]
                        == old(self).tallies_map().insert(body@, rec@)[b]) by {
                        if tally_map(s).contains_key(b) {
                            let k = choose|k: int|
                                0 <= k < s.len() && (#[trigger] s[k]).0@ == b;
                            if k == i {
                                assert(tally_map(s)[b] == rec@);
                            } else {
                                assert(orig[k] == s[k]);
                                assert(tally_map(orig)[b] == orig[k].1@);
                            }
                        }
                        if old(self).tallies_map().insert(body@, rec@).contains_key(b) {
                            if b == body@ {
                                assert(s[i as int].0@ == b);
                            } else {
                                let k = choose|k: int|
                                    0 <= k < orig.len() && (#[trigger] orig[k]).0@ == b;
                                assert(s[k].0@ == b);
                            }
                        }
                    }
                    assert(tally_map(s) =~= old(self).tallies_map().insert(body@, rec@));
                }
            },
            None => {
                proof {
                    assert(false);
                }
            },
        }
    }

    /// Delete the whole record of an event.
    pub fn remove_tally(&mut self, body: &EventBody)
        requires
            old(self).wf(),
            old(self).tallies_map().contains_key(body@),
        ensures
            final(self).wf(),
            final(self).tallies_map() == old(self).tallies_map().remove(body@),
            final(self).balances@ == old(self).balances@,
            final(self).supplies@ == old(self).supplies@,
    {
        let ghost orig = self.tallies@;
        match self.find_tally(body) {
            Some(i) => {
                self.tallies.remove(i);
                proof {
                    let s = self.tallies@;
                    assert(orig[i as int].0@ == body@);
                    assert(s =~= orig.subrange(0, i as int) + orig.subrange(
                        i + 1,
                        orig.len() as int,
                    ));
                    assert(forall|k: int| 0 <= k < i ==> s[k] == orig[k]);
                    assert(forall|k: int| i <= k < s.len() ==> s[k] == orig[k + 1]);
                    assert forall|p: int, q: int| 0 <= p < q < s.len() implies (
                    #[trigger] s[p]).0@ != (#[trigger] s[q]).0@ by {
                        if q < i {
                        } else if p < i {
                            assert(s[q] == orig[q + 1]);
                        } else {
                            assert(s[p] == orig[p + 1] && s[q] == orig[q + 1]);
                        }
                    }
                    assert forall|k: int| 0 <= k < s.len() implies (#[trigger] s[k]).1.wf() by {
                        if k < i {
                            assert(s[k] == orig[k]);
                        } else {
                            assert(s[k] == orig[k + 1]);
                        }
                    }
                    lemma_tally_map(s);
                    lemma_tally_map(orig);
                    let target = old(self).tallies_map().remove(body@);
                    assert forall|b: EventBodyV| tally_map(s).contains_key(b) implies
                        target.contains_key(b) && tally_map(s)[b] == target[b] by {
                        let k = choose|k: int| 0 <= k < s.len() && (#[trigger] s[k]).0@ == b;
                        if k < i {
                            assert(orig[k] == s[k]);
                            assert(b != body@);
                            assert(tally_map(orig)[b] == orig[k].1@);
                            assert(tally_map(s)[b] == s[k].1@);
                        } else {
                            assert(orig[k + 1] == s[k]);
                            assert(b != body@);
                            assert(tally_map(orig)[b] == orig[k + 1].1@);
                            assert(tally_map(s)[b] == s[k].1@);
                        }
                    }
                    assert forall|b: EventBodyV| target.contains_key(b) implies tally_map(
                        s,
                    ).contains_key(b) by {
                        assert(tally_map(orig).contains_key(b));
                        let k = choose|k: int| 0 <= k < orig.len() && (#[trigger] orig[k]).0@ == b;
                        assert(k != i);
                        if k < i {
                            assert(s[k].0@ == b);
                        } else {
                            assert(s[k - 1] == orig[k]);
                            assert(s[k - 1].0@ == b);
                        }
                    }
                    assert(tally_map(s) =~= target);
                }
            },
            None => {
                proof {
                    assert(false);
                }
            },
        }
    }

    /// The minted balance of `asset` held by `receiver`; zero when nothing
    /// was minted yet.
    pub fn balance_of(&self, asset: EthAddress, receiver: Address) -> (r: u64)
        requires
            self.wf(),
        ensures
            r == if self.balances_map().contains_key((asset, receiver)) {
                self.balances_map()[(asset, receiver)]
            } else {
                0
            },
    {
        proof {
            lemma_balance_map(self.balances@);
        }
        let n = self.balances.len();
        let mut i: usize = 0;
        while i < n
            invariant
                i <= n,
                n == self.balances@.len(),
                self.wf(),
                forall|p: int| 0 <= p < i ==> (#[trigger] self.balances@[p]).0 != (asset, receiver),
            decreases n - i,
        {
            let ((a, rcv), amt) = self.balances[i];
            if a == asset && rcv == receiver {
                proof {
                    lemma_balance_map(self.balances@);
                    assert(self.balances@[i as int].0 == (asset, receiver));
                }
                return amt;
            }
            proof {
                assert(self.balances@[i as int].0 != (asset, receiver));
            }
            i = i + 1;
        }
        proof {
            lemma_balance_map(self.balances@);
            if self.balances_map().contains_key((asset, receiver)) {
                let p = choose|p: int|
                    0 <= p < self.balances@.len() && (#[trigger] self.balances@[p]).0 == (
                    asset,
                    receiver,
                );
            }
        }
        0
    }

    /// Write the minted balance of `asset` held by `receiver`.
    pub fn set_balance(&mut self, asset: EthAddress, receiver: Address, amount: u64)
        requires
            old(self).wf(),
        ensures
            final(self).wf(),
            final(self).balances_map() == old(self).balances_map().insert(
                (asset, receiver),
                amount,
            ),
            final(self).tallies@ == old(self).tallies@,
            final(self).supplies@ == old(self).supplies@,
    {
        proof {
            lemma_balance_map(self.balances@);
        }
        let ghost orig = self.balances@;
        let n = self.balances.len();
        let mut i: usize = 0;
        while i < n
            invariant
                i <= n,
                n == self.balances@.len(),
                self.wf(),
                self.balances@ == orig,
                orig == old(self).balances@,
                old(self).wf(),
                self.tallies@ == old(self).tallies@,
                self.supplies@ == old(self).supplies@,
                forall|p: int| 0 <= p < i ==> (#[trigger] self.balances@[p]).0 != (asset, receiver),
            decreases n - i,
        {
            let ((a, rcv), _amt) = self.balances[i];
            if a == asset && rcv == receiver {
                proof {
                    assert(orig[i as int].0 == (asset, receiver));
                }
                self.balances[i] = ((asset, receiver), amount);
                proof {
                    let s = self.balances@;
                    assert(forall|k: int| 0 <= k < s.len() && k != i ==> s[k] == orig[k]);
                    assert(s[i as int] == ((asset, receiver), amount));
                    assert forall|p: int, q: int| 0 <= p < q < s.len() implies (
                    #[trigger] s[p]).0 != (#[trigger] s[q]).0 by {
                        if p != i && q != i {
                            assert(orig[p] == s[p] && orig[q] == s[q]);
                        } else {
                            assert(orig[p].0 == s[p].0 || p == i);
                            assert(orig[q].0 == s[q].0 || q == i);
                        }
                    }
                    lemma_balance_map(s);
                    lemma_balance_map(orig);
                    let target = old(self).balances_map().insert((asset, receiver), amount);
                    assert forall|k: (EthAddress, Address)|
                        balance_map(s).contains_key(k) == target.contains_key(k) && (balance_map(
                            s,
                        ).contains_key(k) ==> balance_map(s)[k] == target[k]) by {
                        if balance_map(s).contains_key(k) {
                            assert(exists|p: int| 0 <= p < s.len() && (#[trigger] s[p]).0 == k);
                            let p = choose|p: int| 0 <= p < s.len() && (#[trigger] s[p]).0 == k;
                            if p == i {
                                assert(balance_map(s)[k] == amount);
                            } else {
                                assert(orig[p] == s[p]);
                                assert(balance_map(orig)[k] == orig[p].1);
                                assert(balance_map(s)[k] == s[p].1);
                            }
                        }
                        if target.contains_key(k) {
                            if k == (asset, receiver) {
                                assert(s[i as int].0 == k);
                            } else {
                                assert(balance_map(orig).contains_key(k));
                                let p = choose|p: int|
                                    0 <= p < orig.len() && (#[trigger] orig[p]).0 == k;
                                assert(p != i);
                                assert(orig[p] == s[p]);
                                assert(s[p].0 == k);
                            }
                        }
                    }
                    assert(balance_map(s) =~= target);
                }
                return ;
            }
            proof {
                assert(self.balances@[i as int].0 != (asset, receiver));
            }
            i = i + 1;
        }
        proof {
            lemma_balance_map(orig);
            if balance_map(orig).contains_key((asset, receiver)) {
                let p = choose|p: int|
                    0 <= p < orig.len() && (#[trigger] orig[p]).0 == (asset, receiver);
            }
        }
        self.balances.push(((asset, receiver), amount));
        proof {
            let s = self.balances@;
            assert(s.drop_last() =~= orig);
            assert forall|p: int, q: int| 0 <= p < q < s.len() implies (#[trigger] s[p]).0 != (
            #[trigger] s[q]).0 by {
                if q == s.len() - 1 {
                    assert(orig[p] == s[p]);
                }
            }
        }
    }

    /// The minted supply of `asset`; zero when nothing was minted yet.
    pub fn supply_of(&self, asset: EthAddress) -> (r: u64)
        requires
            self.wf(),
        ensures
            r == if self.supplies_map().contains_key(asset) {
                self.supplies_map()[asset]
            } else {
                0
            },
    {
        proof {
            lemma_supply_map(self.supplies@);
        }
        let n = self.supplies.len();
        let mut i: usize = 0;
        while i < n
            invariant
                i <= n,
                n == self.supplies@.len(),
                self.wf(),
                forall|p: int| 0 <= p < i ==> (#[trigger] self.supplies@[p]).0 != asset,
            decreases n - i,
        {
            let (a, amt) = self.supplies[i];
            if a == asset {
                proof {
                    lemma_supply_map(self.supplies@);
                    assert(self.supplies@[i as int].0 == asset);
                }
                return amt;
            }
            i = i + 1;
        }
        proof {
            lemma_supply_map(self.supplies@);
            if self.supplies_map().contains_key(asset) {
                let p = choose|p: int|
                    0 <= p < self.supplies@.len() && (#[trigger] self.supplies@[p]).0 == asset;
            }
        }
        0
    }

    /// Write the minted supply of `asset`.
    pub fn set_supply(&mut self, asset: EthAddress, amount: u64)
        requires
            old(self).wf(),
        ensures
            final(self).wf(),
            final(self).supplies_map() == old(self).supplies_map().insert(asset, amount),
            final(self).tallies@ == old(self).tallies@,
            final(self).balances@ == old(self).balances@,
    {
        proof {
            lemma_supply_map(self.supplies@);
        }
        let ghost orig = self.supplies@;
        let n = self.supplies.len();
        let mut i: usize = 0;
        while i < n
            invariant
                i <= n,
                n == self.supplies@.len(),
                self.wf(),
                self.supplies@ == orig,
                orig == old(self).supplies@,
                old(self).wf(),
                self.tallies@ == old(self).tallies@,
                self.balances@ == old(self).balances@,
                forall|p: int| 0 <= p < i ==> (#[trigger] self.supplies@[p]).0 != asset,
            decreases n - i,
        {
            let (a, _amt) = self.supplies[i];
            if a == asset {
                proof {
                    assert(orig[i as int].0 == asset);
                }
                self.supplies[i] = (asset, amount);
                proof {
                    let s = self.supplies@;
                    assert(forall|k: int| 0 <= k < s.len() && k != i ==> s[k] == orig[k]);
                    assert(s[i as int] == (asset, amount));
                    assert forall|p: int, q: int| 0 <= p < q < s.len() implies (
                    #[trigger] s[p]).0 != (#[trigger] s[q]).0 by {
                        if p != i && q != i {
                            assert(orig[p] == s[p] && orig[q] == s[q]);
                        } else {
                            assert(orig[p].0 == s[p].0 || p == i);
                            assert(orig[q].0 == s[q].0 || q == i);
                        }
                    }
                    lemma_supply_map(s);
                    lemma_supply_map(orig);
                    let target = old(self).supplies_map().insert(asset, amount);
                    assert forall|a2: EthAddress|
                        supply_map(s).contains_key(a2) == target.contains_key(a2) && (supply_map(
                            s,
                        ).contains_key(a2) ==> supply_map(s)[a2] == target[a2]) by {
                        if supply_map(s).contains_key(a2) {
                            assert(exists|p: int| 0 <= p < s.len() && (#[trigger] s[p]).0 == a2);
                            let p = choose|p: int| 0 <= p < s.len() && (#[trigger] s[p]).0 == a2;
                            if p == i {
                                assert(supply_map(s)[a2] == amount);
                            } else {
                                assert(orig[p] == s[p]);
                                assert(supply_map(orig)[a2] == orig[p].1);
                                assert(supply_map(s)[a2] == s[p].1);
                            }
                        }
                        if target.contains_key(a2) {
                            if a2 == asset {
                                assert(s[i as int].0 == a2);
                            } else {
                                assert(supply_map(orig).contains_key(a2));
                                let p = choose|p: int|
                                    0 <= p < orig.len() && (#[trigger] orig[p]).0 == a2;
                                assert(p != i);
                                assert(orig[p] == s[p]);
                                assert(s[p].0 == a2);
                            }
                        }
                    }
                    assert(supply_map(s) =~= target);
                }
                return ;
            }
            i = i + 1;
        }
        proof {
            lemma_supply_map(orig);
            if supply_map(orig).contains_key(asset) {
                let p = choose|p: int|
                    0 <= p < orig.len() && (#[trigger] orig[p]).0 == asset;
            }
        }
        self.supplies.push((asset, amount));
        proof {
            let s = self.supplies@;
            assert(s.drop_last() =~= orig);
            assert forall|p: int, q: int| 0 <= p < q < s.len() implies (#[trigger] s[p]).0 != (
            #[trigger] s[q]).0 by {
                if q == s.len() - 1 {
                    assert(orig[p] == s[p]);
                }
            }
        }
    }
}

} // verus!
