//! The vote merge engine, confirmation actuator and timeout sweeper.
//!
//! A batch of validator votes is merged into the tally store; events whose
//! cumulative voting power first strictly exceeds two thirds are confirmed
//! and their transfers minted exactly once; records older than the unbonding
//! window are swept.  Every contract is stated over the mathematical value
//! of the store, so that the final state provably depends only on the batch
//! as a multiset, never on the order in which it is walked.

use vstd::prelude::*;

verus! {

use crate::keys::{event_prefix_set, ChangedKeys, StorageKey, StorageKeyV};
use crate::oracle::VotingPowers;
use crate::power::FractionalVotingPower;
use crate::store::{LedgerStore, VoteRecord, VoteRecordV};
use crate::types::{Address, BlockHeight, Epoch, EthAddress, EventBody, EventBodyV, TransferToNamada};
use crate::votes::{lemma_vote_map, lemma_vote_sorted_unique, vote_map, vote_sorted, vote_union, Votes};

/// One event together with the validators newly claiming to have seen it.
#[derive(Debug)]
pub struct EthMsgUpdate {
    pub body: EventBody,
    pub seen_by: Votes,
}

/// The mathematical value of an [`EthMsgUpdate`].
#[verifier::ext_equal]
pub ghost struct EthMsgUpdateV {
    pub body: EventBodyV,
    pub seen_by: Map<Address, BlockHeight>,
}

impl View for EthMsgUpdate {
    type V = EthMsgUpdateV;

    open spec fn view(&self) -> EthMsgUpdateV {
        EthMsgUpdateV { body: self.body@, seen_by: self.seen_by@ }
    }
}

/// A signed observation of one event, as delivered to the entry point.
#[derive(Debug)]
pub struct MultiSignedEthEvent {
    pub event: EventBody,
    pub signers: Votes,
}

/// The typed failures of one processing pass.
#[derive(Debug, Clone, Copy, PartialEq, Eq, Structural)]
pub enum EngineError {
    /// A (validator, height) pair of the input has no weight oracle entry.
    /// Fatal for the whole batch, before any write.
    MissingWeight { validator: Address, height: BlockHeight },
    /// A cumulative voting power could not be represented in 64 bits.
    VotingPowerOverflow,
    /// A confirmed transfer could not be credited (balance or supply
    /// arithmetic overflowed).
    ActuationFailure,
}

/// What the entry point returns: the changed storage locations, and a gas
/// cost that is always zero for a derived transaction.
#[derive(Debug)]
pub struct TxResult {
    pub gas_used: u64,
    pub changed_keys: ChangedKeys,
}

impl Default for TxResult {
    /// No gas used, no key changed.
    fn default() -> (r: Self)
        ensures
            r.gas_used == 0,
            r.changed_keys.wf(),
            r.changed_keys@ == Set::<StorageKeyV>::empty(),
    {
        TxResult { gas_used: 0, changed_keys: ChangedKeys::new() }
    }
}

/// The zero fraction, the starting point of a tally.
pub open spec fn frac_zero() -> FractionalVotingPower {
    FractionalVotingPower { numer: 0u64, denom: 1u64 }
}

/// Every vote of the map is covered by the oracle, with a well-formed weight.
pub open spec fn covered(
    m: Map<Address, BlockHeight>,
    powers: Map<(Address, BlockHeight), FractionalVotingPower>,
) -> bool {
    forall|v: Address| #![trigger m.contains_key(v)]
        m.contains_key(v) ==> powers.contains_key((v, m[v])) && powers[(v, m[v])].wf()
}

/// Every pair of the sequence is covered by the oracle.
pub open spec fn seq_covered(
    s: Seq<(Address, BlockHeight)>,
    powers: Map<(Address, BlockHeight), FractionalVotingPower>,
) -> bool {
    forall|i: int|
        0 <= i < s.len() ==> powers.contains_key(#[trigger] s[i]) && powers[s[i]].wf()
}

/// A covered sorted vote sequence is covered pair by pair.
pub proof fn lemma_covered_seq(
    s: Seq<(Address, BlockHeight)>,
    powers: Map<(Address, BlockHeight), FractionalVotingPower>,
)
    requires
        vote_sorted(s),
        covered(vote_map(s), powers),
    ensures
        seq_covered(s, powers),
{
    lemma_vote_map(s);
    assert forall|i: int| 0 <= i < s.len() implies powers.contains_key(#[trigger] s[i])
        && powers[s[i]].wf() by {
        assert(vote_map(s).contains_key(s[i].0) && vote_map(s)[s[i].0] == s[i].1);
    }
}

/// Fold the oracle weights of a vote sequence onto a starting fraction, in
/// sequence order; `None` as soon as one addition cannot be represented.
pub open spec fn power_fold(
    start: FractionalVotingPower,
    s: Seq<(Address, BlockHeight)>,
    powers: Map<(Address, BlockHeight), FractionalVotingPower>,
) -> Option<FractionalVotingPower>
    decreases s.len(),
{
    if s.len() == 0 {
        Some(start)
    } else {
        match power_fold(start, s.drop_last(), powers) {
            None => None,
            Some(acc) => acc.spec_add(powers[s.last()]),
        }
    }
}

/// A successful fold yields a well-formed value at least the starting one.
pub proof fn lemma_power_fold_ge(
    start: FractionalVotingPower,
    s: Seq<(Address, BlockHeight)>,
    powers: Map<(Address, BlockHeight), FractionalVotingPower>,
    p: FractionalVotingPower,
)
    requires
        start.wf(),
        seq_covered(s, powers),
        power_fold(start, s, powers) == Some(p),
    ensures
        p.wf(),
        p.spec_ge(start),
    decreases s.len(),
{
    if s.len() == 0 {
        assert(p == start);
        assert(p.spec_ge(start)) by (nonlinear_arith)
            requires
                p == start,
                start.denom >= 1,
        ;
    } else {
        let pre = s.drop_last();
        assert(seq_covered(pre, powers)) by {
            assert(forall|i: int| 0 <= i < pre.len() ==> pre[i] == #[trigger] s[i]);
        }
        let acc = power_fold(start, pre, powers).unwrap();
        lemma_power_fold_ge(start, pre, powers, acc);
        assert(powers.contains_key(s[s.len() - 1]));
        crate::power::lemma_add_ge(acc, powers[s.last()], p);
        crate::power::lemma_ge_trans(start, acc, p);
    }
}

/// A fold that fails on a prefix fails on the whole sequence.
pub proof fn lemma_power_fold_none(
    start: FractionalVotingPower,
    s: Seq<(Address, BlockHeight)>,
    powers: Map<(Address, BlockHeight), FractionalVotingPower>,
    k: int,
)
    requires
        0 <= k <= s.len(),
        power_fold(start, s.subrange(0, k), powers) is None,
    ensures
        power_fold(start, s, powers) is None,
    decreases s.len() - k,
{
    if k == s.len() {
        assert(s.subrange(0, k) =~= s);
    } else {
        assert(s.subrange(0, k + 1).drop_last() =~= s.subrange(0, k));
        assert(power_fold(start, s.subrange(0, k + 1), powers) is None);
        lemma_power_fold_none(start, s, powers, k + 1);
    }
}

/// A sequence is the canonical form of a vote map when it is sorted and
/// stands for that map.
pub open spec fn is_sorted_votes_seq(
    ns: Seq<(Address, BlockHeight)>,
    m: Map<Address, BlockHeight>,
) -> bool {
    vote_sorted(ns) && vote_map(ns) == m
}

/// The canonical sorted sequence of a vote map.
pub open spec fn sorted_votes_of(m: Map<Address, BlockHeight>) -> Seq<(Address, BlockHeight)> {
    choose|ns: Seq<(Address, BlockHeight)>| is_sorted_votes_seq(ns, m)
}

/// For a map that came from a sorted sequence, the canonical form is that
/// sequence.
pub proof fn lemma_sorted_votes_of(s: Seq<(Address, BlockHeight)>)
    requires
        vote_sorted(s),
    ensures
        sorted_votes_of(vote_map(s)) == s,
{
    let m = vote_map(s);
    assert(is_sorted_votes_seq(s, m));
    assert(exists|ns: Seq<(Address, BlockHeight)>| is_sorted_votes_seq(ns, m));
    let ns = sorted_votes_of(m);
    assert(is_sorted_votes_seq(ns, m));
    lemma_vote_sorted_unique(ns, s);
}

/// The cumulative power after merging a set of new votes: the fold of their
/// weights, walked in canonical (validator-sorted) order.
pub open spec fn merged_power(
    start: FractionalVotingPower,
    net: Map<Address, BlockHeight>,
    powers: Map<(Address, BlockHeight), FractionalVotingPower>,
) -> Option<FractionalVotingPower> {
    power_fold(start, sorted_votes_of(net), powers)
}

/// The record stored for `b` before the merge, if any.
pub open spec fn spec_old_record(
    t: Map<EventBodyV, VoteRecordV>,
    b: EventBodyV,
) -> Option<VoteRecordV> {
    if t.contains_key(b) {
        Some(t[b])
    } else {
        None
    }
}

/// The outcome of merging the votes `bvotes` for one event into its previous
/// record: `None` exactly when the cumulative power cannot be represented.
pub open spec fn spec_merge_record(
    old: Option<VoteRecordV>,
    bvotes: Map<Address, BlockHeight>,
    powers: Map<(Address, BlockHeight), FractionalVotingPower>,
    epoch: Epoch,
) -> Option<VoteRecordV> {
    match old {
        None => match merged_power(frac_zero(), bvotes, powers) {
            None => None,
            Some(p) => Some(
                VoteRecordV {
                    seen: p.spec_exceeds_threshold(),
                    seen_by: bvotes,
                    voting_power: p,
                    recorded_epoch: epoch,
                },
            ),
        },
        Some(r) => {
            let net = bvotes.remove_keys(r.seen_by.dom());
            if net == Map::<Address, BlockHeight>::empty() {
                Some(r)
            } else {
                match merged_power(r.voting_power, net, powers) {
                    None => None,
                    Some(p) => Some(
                        VoteRecordV {
                            seen: r.seen || p.spec_exceeds_threshold(),
                            seen_by: vote_union(r.seen_by, net),
                            voting_power: p,
                            recorded_epoch: r.recorded_epoch,
                        },
                    ),
                }
            }
        },
    }
}

/// Whether this merge step is the one that confirms the event: the new
/// record is seen and the old one (if any) was not.
pub open spec fn spec_newly_confirmed(old: Option<VoteRecordV>, new: VoteRecordV) -> bool {
    new.seen && match old {
        None => true,
        Some(r) => !r.seen,
    }
}

/// The storage locations one event's merge changes.
pub open spec fn spec_changed_for_body(
    old: Option<VoteRecordV>,
    new: VoteRecordV,
    b: EventBodyV,
) -> Set<StorageKeyV> {
    match old {
        None => event_prefix_set(b),
        Some(r) => if new == r {
            Set::empty()
        } else {
            let base = Set::empty().insert(StorageKeyV::SeenBy(b)).insert(
                StorageKeyV::VotingPower(b),
            );
            if new.seen != r.seen {
                base.insert(StorageKeyV::Seen(b))
            } else {
                base
            }
        },
    }
}

/// Some update of the batch carries this event.
pub open spec fn batch_has_body(s: Seq<EthMsgUpdateV>, b: EventBodyV) -> bool {
    exists|i: int| 0 <= i < s.len() && (#[trigger] s[i]).body == b
}

/// Some update of the batch carries a vote of `v` for this event.
pub open spec fn batch_vote(s: Seq<EthMsgUpdateV>, b: EventBodyV, v: Address) -> bool {
    exists|i: int|
        0 <= i < s.len() && (#[trigger] s[i]).body == b && s[i].seen_by.contains_key(v)
}

/// `h` is the smallest height at which `v` votes for `b` anywhere in the
/// batch.
pub open spec fn batch_min_height(
    s: Seq<EthMsgUpdateV>,
    b: EventBodyV,
    v: Address,
    h: BlockHeight,
) -> bool {
    &&& exists|i: int|
        0 <= i < s.len() && (#[trigger] s[i]).body == b && s[i].seen_by.contains_key(v)
            && s[i].seen_by[v] == h
    &&& forall|i: int|
        0 <= i < s.len() && (#[trigger] s[i]).body == b && s[i].seen_by.contains_key(v) ==> h.0
            <= s[i].seen_by[v].0
}

/// The height at which `v` is taken to have voted for `b`: the smallest one
/// occurring in the batch.
pub open spec fn batch_vote_height(s: Seq<EthMsgUpdateV>, b: EventBodyV, v: Address) -> BlockHeight {
    choose|h: BlockHeight| batch_min_height(s, b, v, h)
}

/// All the votes the batch casts for `b`, deduplicated per validator with
/// the smallest height winning.  This map depends on the batch only as a
/// multiset: it is the anchor of the order-independence arguments.
pub open spec fn batch_votes_map(s: Seq<EthMsgUpdateV>, b: EventBodyV) -> Map<Address, BlockHeight> {
    Map::new(|v: Address| batch_vote(s, b, v), |v: Address| batch_vote_height(s, b, v))
}

/// The minimal height is unique.
pub proof fn lemma_batch_min_unique(
    s: Seq<EthMsgUpdateV>,
    b: EventBodyV,
    v: Address,
    h1: BlockHeight,
    h2: BlockHeight,
)
    requires
        batch_min_height(s, b, v, h1),
        batch_min_height(s, b, v, h2),
    ensures
        h1 == h2,
{
    let i1 = choose|i: int|
        0 <= i < s.len() && (#[trigger] s[i]).body == b && s[i].seen_by.contains_key(v)
            && s[i].seen_by[v] == h1;
    let i2 = choose|i: int|
        0 <= i < s.len() && (#[trigger] s[i]).body == b && s[i].seen_by.contains_key(v)
            && s[i].seen_by[v] == h2;
    assert(h1.0 <= s[i2].seen_by[v].0);
    assert(h2.0 <= s[i1].seen_by[v].0);
}

/// Where some vote exists, a minimal one exists.
pub proof fn lemma_batch_min_exists(s: Seq<EthMsgUpdateV>, b: EventBodyV, v: Address)
    requires
        batch_vote(s, b, v),
    ensures
        batch_min_height(s, b, v, batch_vote_height(s, b, v)),
    decreases s.len(),
{
    let n = s.len() - 1;
    let pre = s.drop_last();
    let last_votes = s[n].body == b && s[n].seen_by.contains_key(v);
    assert(forall|i: int| 0 <= i < pre.len() ==> pre[i] == #[trigger] s[i]);
    if batch_vote(pre, b, v) {
        lemma_batch_min_exists(pre, b, v);
        let hp = batch_vote_height(pre, b, v);
        let cand = if last_votes && s[n].seen_by[v].0 < hp.0 {
            s[n].seen_by[v]
        } else {
            hp
        };
        let ip = choose|i: int|
            0 <= i < pre.len() && (#[trigger] pre[i]).body == b && pre[i].seen_by.contains_key(v)
                && pre[i].seen_by[v] == hp;
        assert(s[ip].body == b && s[ip].seen_by.contains_key(v) && s[ip].seen_by[v] == hp);
        if last_votes && s[n].seen_by[v].0 < hp.0 {
            assert(s[n].seen_by[v] == cand);
        }
        assert forall|i: int|
            0 <= i < s.len() && (#[trigger] s[i]).body == b && s[i].seen_by.contains_key(v)
                implies cand.0 <= s[i].seen_by[v].0 by {
            if i < n {
                assert(pre[i] == s[i]);
                assert(hp.0 <= pre[i].seen_by[v].0);
            }
        }
        assert(batch_min_height(s, b, v, cand));
        lemma_batch_min_unique(s, b, v, batch_vote_height(s, b, v), cand);
    } else {
        let iw = choose|i: int|
            0 <= i < s.len() && (#[trigger] s[i]).body == b && s[i].seen_by.contains_key(v);
        assert(iw == n) by {
            if iw < n {
                assert(pre[iw] == s[iw]);
                assert(batch_vote(pre, b, v));
            }
        }
        let cand = s[n].seen_by[v];
        assert forall|i: int|
            0 <= i < s.len() && (#[trigger] s[i]).body == b && s[i].seen_by.contains_key(v)
                implies cand.0 <= s[i].seen_by[v].0 by {
            if i < n {
                assert(pre[i] == s[i]);
                assert(batch_vote(pre, b, v));
            }
        }
        assert(batch_min_height(s, b, v, cand));
        lemma_batch_min_unique(s, b, v, batch_vote_height(s, b, v), cand);
    }
}

/// How one more update changes the batch predicates.
pub proof fn lemma_batch_extend(s: Seq<EthMsgUpdateV>, u: EthMsgUpdateV)
    ensures
        forall|b: EventBodyV| #![trigger batch_has_body(s.push(u), b)]
            batch_has_body(s.push(u), b) == (batch_has_body(s, b) || u.body == b),
        forall|b: EventBodyV| #![trigger batch_votes_map(s.push(u), b)]
            batch_votes_map(s.push(u), b) == if u.body == b {
                vote_union(batch_votes_map(s, b), u.seen_by)
            } else {
                batch_votes_map(s, b)
            },
{
    let t = s.push(u);
    let n = s.len();
    assert(forall|i: int| 0 <= i < n ==> t[i] == #[trigger] s[i]);
    assert(t[n as int] == u);
    assert forall|b: EventBodyV| #![trigger batch_has_body(t, b)]
        batch_has_body(t, b) == (batch_has_body(s, b) || u.body == b) by {
        if batch_has_body(t, b) {
            let i = choose|i: int| 0 <= i < t.len() && (#[trigger] t[i]).body == b;
            if i < n {
                assert(s[i].body == b);
            }
        }
        if batch_has_body(s, b) {
            let i = choose|i: int| 0 <= i < s.len() && (#[trigger] s[i]).body == b;
            assert(t[i].body == b);
        }
        if u.body == b {
            assert(t[n as int].body == b);
        }
    }
    assert forall|b: EventBodyV| #![trigger batch_votes_map(t, b)]
        batch_votes_map(t, b) == if u.body == b {
            vote_union(batch_votes_map(s, b), u.seen_by)
        } else {
            batch_votes_map(s, b)
        } by {
        // membership of a vote, in the extended batch
        assert forall|v: Address| #![trigger batch_vote(t, b, v)]
            batch_vote(t, b, v) == (batch_vote(s, b, v) || (u.body == b
                && u.seen_by.contains_key(v))) by {
            if batch_vote(t, b, v) {
                let i = choose|i: int|
                    0 <= i < t.len() && (#[trigger] t[i]).body == b && t[i].seen_by.contains_key(
                        v,
                    );
                if i < n {
                    assert(s[i].body == b && s[i].seen_by.contains_key(v));
                }
            }
            if batch_vote(s, b, v) {
                let i = choose|i: int|
                    0 <= i < s.len() && (#[trigger] s[i]).body == b && s[i].seen_by.contains_key(
                        v,
                    );
                assert(t[i].body == b && t[i].seen_by.contains_key(v));
            }
            if u.body == b && u.seen_by.contains_key(v) {
                assert(t[n as int].body == b && t[n as int].seen_by.contains_key(v));
            }
        }
        // the minimal height, in the extended batch
        assert forall|v: Address| #![trigger batch_vote(t, b, v)] batch_vote(t, b, v) implies
            batch_vote_height(t, b, v) == if batch_vote(s, b, v) && (u.body == b
            && u.seen_by.contains_key(v)) {
            if batch_vote_height(s, b, v).0 <= u.seen_by[v].0 {
                batch_vote_height(s, b, v)
            } else {
                u.seen_by[v]
            }
        } else if batch_vote(s, b, v) {
            batch_vote_height(s, b, v)
        } else {
            u.seen_by[v]
        } by {
            if batch_vote(s, b, v) {
                lemma_batch_min_exists(s, b, v);
                let hp = batch_vote_height(s, b, v);
                let ip = choose|i: int|
                    0 <= i < s.len() && (#[trigger] s[i]).body == b && s[i].seen_by.contains_key(
                        v,
                    ) && s[i].seen_by[v] == hp;
                assert(t[ip].body == b && t[ip].seen_by.contains_key(v) && t[ip].seen_by[v] == hp);
                let cand = if u.body == b && u.seen_by.contains_key(v) && u.seen_by[v].0 < hp.0 {
                    u.seen_by[v]
                } else {
                    hp
                };
                assert forall|i: int|
                    0 <= i < t.len() && (#[trigger] t[i]).body == b && t[i].seen_by.contains_key(
                        v,
                    ) implies cand.0 <= t[i].seen_by[v].0 by {
                    if i < n {
                        assert(s[i] == t[i]);
                        assert(hp.0 <= s[i].seen_by[v].0);
                    }
                }
                assert(batch_min_height(t, b, v, cand));
                lemma_batch_min_exists(t, b, v);
                lemma_batch_min_unique(t, b, v, batch_vote_height(t, b, v), cand);
            } else {
                assert(u.body == b && u.seen_by.contains_key(v));
                let cand = u.seen_by[v];
                assert(t[n as int].body == b && t[n as int].seen_by.contains_key(v)
                    && t[n as int].seen_by[v] == cand);
                assert forall|i: int|
                    0 <= i < t.len() && (#[trigger] t[i]).body == b && t[i].seen_by.contains_key(
                        v,
                    ) implies cand.0 <= t[i].seen_by[v].0 by {
                    if i < n {
                        assert(s[i] == t[i]);
                        assert(batch_vote(s, b, v));
                    }
                }
                assert(batch_min_height(t, b, v, cand));
                lemma_batch_min_exists(t, b, v);
                lemma_batch_min_unique(t, b, v, batch_vote_height(t, b, v), cand);
            }
        }
        if u.body == b {
            assert(batch_votes_map(t, b) =~= vote_union(batch_votes_map(s, b), u.seen_by));
        } else {
            assert(batch_votes_map(t, b) =~= batch_votes_map(s, b));
        }
    }
}

/// The batch predicates depend on the batch only as a multiset.
pub proof fn lemma_batch_permutation(s1: Seq<EthMsgUpdateV>, s2: Seq<EthMsgUpdateV>)
    requires
        s1.to_multiset() == s2.to_multiset(),
    ensures
        forall|b: EventBodyV| #![trigger batch_has_body(s1, b)]
            batch_has_body(s1, b) == batch_has_body(s2, b),
        forall|b: EventBodyV| #![trigger batch_votes_map(s1, b)]
            batch_votes_map(s1, b) == batch_votes_map(s2, b),
{
    broadcast use vstd::seq_lib::group_to_multiset_ensures;

    assert forall|u: EthMsgUpdateV| s1.contains(u) == s2.contains(u) by {
        assert(s1.contains(u) <==> s1.to_multiset().count(u) > 0);
        assert(s2.contains(u) <==> s2.to_multiset().count(u) > 0);
    }
    assert forall|b: EventBodyV| #![trigger batch_has_body(s1, b)]
        batch_has_body(s1, b) == batch_has_body(s2, b) by {
        if batch_has_body(s1, b) {
            let i = choose|i: int| 0 <= i < s1.len() && (#[trigger] s1[i]).body == b;
            assert(s1.contains(s1[i]));
            let j = choose|j: int| 0 <= j < s2.len() && s2[j] == s1[i];
            assert(s2[j].body == b);
        }
        if batch_has_body(s2, b) {
            let i = choose|i: int| 0 <= i < s2.len() && (#[trigger] s2[i]).body == b;
            assert(s2.contains(s2[i]));
            let j = choose|j: int| 0 <= j < s1.len() && s1[j] == s2[i];
            assert(s1[j].body == b);
        }
    }
    assert forall|b: EventBodyV, v: Address| #![trigger batch_vote(s1, b, v)]
        batch_vote(s1, b, v) == batch_vote(s2, b, v) by {
        if batch_vote(s1, b, v) {
            let i = choose|i: int|
                0 <= i < s1.len() && (#[trigger] s1[i]).body == b && s1[i].seen_by.contains_key(v);
            assert(s1.contains(s1[i]));
            let j = choose|j: int| 0 <= j < s2.len() && s2[j] == s1[i];
            assert(s2[j].body == b && s2[j].seen_by.contains_key(v));
        }
        if batch_vote(s2, b, v) {
            let i = choose|i: int|
                0 <= i < s2.len() && (#[trigger] s2[i]).body == b && s2[i].seen_by.contains_key(v);
            assert(s2.contains(s2[i]));
            let j = choose|j: int| 0 <= j < s1.len() && s1[j] == s2[i];
            assert(s1[j].body == b && s1[j].seen_by.contains_key(v));
        }
    }
    assert forall|b: EventBodyV, v: Address, h: BlockHeight|
        #![trigger batch_min_height(s1, b, v, h)]
        batch_min_height(s1, b, v, h) == batch_min_height(s2, b, v, h) by {
        if batch_min_height(s1, b, v, h) {
            let i = choose|i: int|
                0 <= i < s1.len() && (#[trigger] s1[i]).body == b && s1[i].seen_by.contains_key(v)
                    && s1[i].seen_by[v] == h;
            assert(s1.contains(s1[i]));
            let j = choose|j: int| 0 <= j < s2.len() && s2[j] == s1[i];
            assert(s2[j].body == b && s2[j].seen_by.contains_key(v) && s2[j].seen_by[v] == h);
            assert forall|p: int|
                0 <= p < s2.len() && (#[trigger] s2[p]).body == b && s2[p].seen_by.contains_key(v)
                    implies h.0 <= s2[p].seen_by[v].0 by {
                assert(s2.contains(s2[p]));
                let q = choose|q: int| 0 <= q < s1.len() && s1[q] == s2[p];
                assert(s1[q].body == b && s1[q].seen_by.contains_key(v));
            }
            assert(batch_min_height(s2, b, v, h));
        }
        if batch_min_height(s2, b, v, h) {
            let i = choose|i: int|
                0 <= i < s2.len() && (#[trigger] s2[i]).body == b && s2[i].seen_by.contains_key(v)
                    && s2[i].seen_by[v] == h;
            assert(s2.contains(s2[i]));
            let j = choose|j: int| 0 <= j < s1.len() && s1[j] == s2[i];
            assert(s1[j].body == b && s1[j].seen_by.contains_key(v) && s1[j].seen_by[v] == h);
            assert forall|p: int|
                0 <= p < s1.len() && (#[trigger] s1[p]).body == b && s1[p].seen_by.contains_key(v)
                    implies h.0 <= s1[p].seen_by[v].0 by {
                assert(s1.contains(s1[p]));
                let q = choose|q: int| 0 <= q < s2.len() && s2[q] == s1[p];
                assert(s2[q].body == b && s2[q].seen_by.contains_key(v));
            }
            assert(batch_min_height(s1, b, v, h));
        }
    }
    assert forall|b: EventBodyV| #![trigger batch_votes_map(s1, b)]
        batch_votes_map(s1, b) == batch_votes_map(s2, b) by {
        assert forall|v: Address| #![trigger batch_vote(s1, b, v)] batch_vote(s1, b, v) implies
            batch_vote_height(s1, b, v) == batch_vote_height(s2, b, v) by {
            lemma_batch_min_exists(s1, b, v);
            lemma_batch_min_exists(s2, b, v);
            assert(batch_min_height(s2, b, v, batch_vote_height(s1, b, v)));
            lemma_batch_min_unique(s2, b, v, batch_vote_height(s1, b, v), batch_vote_height(
                s2,
                b,
                v,
            ));
        }
        assert(batch_votes_map(s1, b) =~= batch_votes_map(s2, b));
    }
}

/// The position of the first update carrying `b` in the batch: the
/// actuation order follows these positions.
pub open spec fn first_occurrence(batch: Seq<EthMsgUpdateV>, b: EventBodyV) -> int {
    choose|i: int|
        0 <= i < batch.len() && (#[trigger] batch[i]).body == b && (forall|j: int|
            0 <= j < i ==> (#[trigger] batch[j]).body != b)
}

/// Some occurrence has none before it.
proof fn lemma_first_occurrence_exists(batch: Seq<EthMsgUpdateV>, b: EventBodyV, i0: int)
    requires
        0 <= i0 < batch.len(),
        batch[i0].body == b,
    ensures
        exists|i: int|
            0 <= i < batch.len() && (#[trigger] batch[i]).body == b && (forall|j: int|
                0 <= j < i ==> (#[trigger] batch[j]).body != b),
    decreases i0,
{
    if forall|j: int| 0 <= j < i0 ==> (#[trigger] batch[j]).body != b {
        assert(batch[i0].body == b);
    } else {
        let j = choose|j: int| 0 <= j < i0 && (#[trigger] batch[j]).body == b;
        lemma_first_occurrence_exists(batch, b, j);
    }
}

/// The first occurrence of an event carried by the batch is well defined,
/// carries the event, has no occurrence before it, and is at most every
/// occurrence.
pub proof fn lemma_first_occurrence(batch: Seq<EthMsgUpdateV>, b: EventBodyV)
    requires
        batch_has_body(batch, b),
    ensures
        0 <= first_occurrence(batch, b) < batch.len(),
        batch[first_occurrence(batch, b)].body == b,
        forall|j: int|
            0 <= j < first_occurrence(batch, b) ==> (#[trigger] batch[j]).body != b,
        forall|i: int|
            0 <= i < batch.len() && (#[trigger] batch[i]).body == b ==> first_occurrence(batch, b)
                <= i,
{
    let i0 = choose|i: int| 0 <= i < batch.len() && (#[trigger] batch[i]).body == b;
    lemma_first_occurrence_exists(batch, b, i0);
    let fo = first_occurrence(batch, b);
    assert(0 <= fo < batch.len() && batch[fo].body == b && (forall|j: int|
        0 <= j < fo ==> (#[trigger] batch[j]).body != b));
    assert forall|i: int|
        0 <= i < batch.len() && (#[trigger] batch[i]).body == b implies fo <= i by {
        if i < fo {
            assert(batch[i].body != b);
        }
    }
}

/// The grouped updates stand in the order their events first appear in the
/// batch.
pub open spec fn grouped_batch_ordered(batch: Seq<EthMsgUpdateV>, g: Seq<EthMsgUpdateV>) -> bool {
    forall|p: int, q: int|
        #![trigger g[p], g[q]]
        0 <= p < q < g.len() ==> first_occurrence(batch, g[p].body) < first_occurrence(
            batch,
            g[q].body,
        )
}

/// The confirmed list stands in the order its events first appear in the
/// batch.
pub open spec fn confirmed_batch_ordered(batch: Seq<EthMsgUpdateV>, cseq: Seq<EventBody>) -> bool {
    forall|c: int, d: int|
        #![trigger cseq[c], cseq[d]]
        0 <= c < d < cseq.len() ==> first_occurrence(batch, cseq[c]@) < first_occurrence(
            batch,
            cseq[d]@,
        )
}

/// The confirmed sequence stands in the order its events first appear in
/// the batch.
pub open spec fn cs_batch_ordered(batch: Seq<EthMsgUpdateV>, cs: Seq<EventBodyV>) -> bool {
    forall|c: int, d: int|
        #![trigger cs[c], cs[d]]
        0 <= c < d < cs.len() ==> first_occurrence(batch, cs[c]) < first_occurrence(batch, cs[d])
}

/// Sum the oracle weights of `votes` onto `start`, walking the votes in
/// their canonical order.
fn sum_power(
    start: FractionalVotingPower,
    votes: &Votes,
    powers: &VotingPowers,
) -> (r: Result<FractionalVotingPower, EngineError>)
    requires
        start.wf(),
        votes.wf(),
        powers.wf(),
        covered(votes@, powers@),
    ensures
        match r {
            Ok(p) => power_fold(start, votes.entries@, powers@) == Some(p) && p.wf()
                && p.spec_ge(start),
            Err(e) => e == (EngineError::VotingPowerOverflow) && power_fold(
                start,
                votes.entries@,
                powers@,
            ) is None,
        },
{
    proof {
        lemma_covered_seq(votes.entries@, powers@);
    }
    let n = votes.entries.len();
    let mut acc = start;
    let mut i: usize = 0;
    while i < n
        invariant
            i <= n,
            n == votes.entries@.len(),
            start.wf(),
            acc.wf(),
            votes.wf(),
            powers.wf(),
            seq_covered(votes.entries@, powers@),
            power_fold(start, votes.entries@.subrange(0, i as int), powers@) == Some(acc),
        decreases n - i,
    {
        let (v, h) = votes.entries[i];
        proof {
            assert(votes.entries@[i as int] == (v, h));
            assert(powers@.contains_key((v, h)));
        }
        let w = match powers.get(v, h) {
            Some(w) => w,
            None => {
                proof {
                    assert(false);
                }
                return Err(EngineError::VotingPowerOverflow);
            },
        };
        match acc.checked_add(w) {
            Some(a2) => {
                proof {
                    let pre = votes.entries@.subrange(0, i as int);
                    let cur = votes.entries@.subrange(0, i + 1);
                    assert(cur.drop_last() =~= pre);
                    assert(cur.last() == (v, h));
                    assert(power_fold(start, cur, powers@) == Some(a2));
                }
                acc = a2;
            },
            None => {
                proof {
                    let pre = votes.entries@.subrange(0, i as int);
                    let cur = votes.entries@.subrange(0, i + 1);
                    assert(cur.drop_last() =~= pre);
                    assert(cur.last() == (v, h));
                    assert(power_fold(start, cur, powers@) is None);
                    lemma_power_fold_none(start, votes.entries@, powers@, i + 1);
                }
                return Err(EngineError::VotingPowerOverflow);
            },
        }
        i = i + 1;
    }
    proof {
        assert(votes.entries@.subrange(0, n as int) =~= votes.entries@);
        lemma_power_fold_ge(start, votes.entries@, powers@, acc);
    }
    Ok(acc)
}

/// The views of a sequence of updates.
pub open spec fn update_views(s: Seq<EthMsgUpdate>) -> Seq<EthMsgUpdateV> {
    s.map_values(|u: EthMsgUpdate| u@)
}

/// Group a batch by event: one update per distinct event, holding all the
/// batch's votes for it, deduplicated per validator with the smallest height
/// winning.  The grouped votes depend on the batch only as a multiset.
pub fn group_updates(updates: Vec<EthMsgUpdate>) -> (g: Vec<EthMsgUpdate>)
    requires
        forall|i: int|
            0 <= i < updates@.len() ==> (#[trigger] updates@[i]).seen_by.wf()
                && updates@[i].seen_by.entries@.len() > 0,
    ensures
        ({
            let batch = update_views(updates@);
            &&& forall|p: int|
                0 <= p < g@.len() ==> (#[trigger] g@[p]).seen_by.wf()
                    && g@[p].seen_by.entries@.len() > 0
            &&& forall|p: int, q: int| 0 <= p < q < g@.len() ==> (#[trigger] g@[p])@.body != (
            #[trigger] g@[q])@.body
            &&& forall|p: int|
                0 <= p < g@.len() ==> batch_has_body(batch, (#[trigger] g@[p])@.body)
                    && g@[p]@.seen_by == batch_votes_map(batch, g@[p]@.body)
            &&& forall|b: EventBodyV| #![trigger batch_has_body(batch, b)]
                batch_has_body(batch, b) ==> exists|p: int|
                    0 <= p < g@.len() && (#[trigger] g@[p])@.body == b
            &&& grouped_batch_ordered(batch, update_views(g@))
        }),
{
    let ghost batch = update_views(updates@);
    let n = updates.len();
    let mut g: Vec<EthMsgUpdate> = Vec::new();
    let mut i: usize = 0;
    proof {
        assert(batch.subrange(0, 0) =~= Seq::<EthMsgUpdateV>::empty());
    }
    while i < n
        invariant
            i <= n,
            n == updates@.len(),
            batch == update_views(updates@),
            batch.len() == n,
            forall|p: int|
                0 <= p < updates@.len() ==> (#[trigger] updates@[p]).seen_by.wf()
                    && updates@[p].seen_by.entries@.len() > 0,
            forall|p: int|
                0 <= p < g@.len() ==> (#[trigger] g@[p]).seen_by.wf()
                    && g@[p].seen_by.entries@.len() > 0,
            forall|p: int, q: int| 0 <= p < q < g@.len() ==> (#[trigger] g@[p])@.body != (
            #[trigger] g@[q])@.body,
            forall|p: int|
                0 <= p < g@.len() ==> batch_has_body(batch.subrange(0, i as int), (
                #[trigger] g@[p])@.body) && g@[p]@.seen_by == batch_votes_map(
                    batch.subrange(0, i as int),
                    g@[p]@.body,
                ),
            forall|b: EventBodyV| #![trigger batch_has_body(batch.subrange(0, i as int), b)]
                batch_has_body(batch.subrange(0, i as int), b) ==> exists|p: int|
                    0 <= p < g@.len() && (#[trigger] g@[p])@.body == b,
            grouped_batch_ordered(batch, update_views(g@)),
        decreases n - i,
    {
        let ghost pref = batch.subrange(0, i as int);
        let ghost u = batch[i as int];
        proof {
            assert(u == updates@[i as int]@);
            assert(batch.subrange(0, i + 1) =~= pref.push(u));
            lemma_batch_extend(pref, u);
        }
        let u_body = updates[i].body.clone();
        let u_votes = updates[i].seen_by.clone();
        let m = g.len();
        let mut j: usize = 0;
        let mut found: Option<usize> = None;
        while j < m
            invariant
                j <= m,
                m == g@.len(),
                u_body@ == u.body,
                match found {
                    Some(k) => k < m && g@[k as int]@.body == u.body,
                    None => forall|p: int| 0 <= p < j ==> (#[trigger] g@[p])@.body != u.body,
                },
            decreases m - j,
        {
            if found.is_none() && g[j].body == u_body {
                found = Some(j);
            }
            j = j + 1;
        }
        match found {
            None => {
                // a new event: its grouped votes are exactly this update's
                proof {
                    if batch_has_body(pref, u.body) {
                        let p = choose|p: int|
                            0 <= p < g@.len() && (#[trigger] g@[p])@.body == u.body;
                    }
                    assert(!batch_has_body(pref, u.body));
                    assert forall|v: Address|
                        batch_votes_map(pref.push(u), u.body).contains_key(v)
                            == u.seen_by.contains_key(v) && (u.seen_by.contains_key(v)
                            ==> batch_votes_map(pref.push(u), u.body)[v] == u.seen_by[v]) by {
                        if batch_vote(pref, u.body, v) {
                            let q = choose|q: int|
                                0 <= q < pref.len() && (#[trigger] pref[q]).body == u.body
                                    && pref[q].seen_by.contains_key(v);
                            assert(batch_has_body(pref, u.body));
                        }
                    }
                    assert(batch_votes_map(pref.push(u), u.body) =~= u.seen_by);
                }
                let ghost g_before = g@;
                g.push(EthMsgUpdate { body: u_body, seen_by: u_votes });
                proof {
                    assert(forall|p: int|
                        0 <= p < g_before.len() ==> g@[p] == #[trigger] g_before[p]);
                    assert(g@[g@.len() - 1]@.body == u.body);
                    assert(g@[g@.len() - 1]@.seen_by == u.seen_by);
                    assert forall|b: EventBodyV|
                        #![trigger batch_has_body(pref.push(u), b)]
                        batch_has_body(pref.push(u), b) implies exists|p: int|
                        0 <= p < g@.len() && (#[trigger] g@[p])@.body == b by {
                        if b == u.body {
                            assert(g@[g@.len() - 1]@.body == b);
                        } else {
                            assert(batch_has_body(pref, b));
                            let p = choose|p: int|
                                0 <= p < g_before.len() && (#[trigger] g_before[p])@.body == b;
                            assert(g@[p]@.body == b);
                        }
                    }
                    // the new event first appears exactly at position i;
                    // every event grouped so far appeared earlier
                    assert(batch[i as int].body == u.body);
                    assert(batch_has_body(batch, u.body));
                    assert forall|j: int| 0 <= j < i implies (#[trigger] batch[j]).body
                        != u.body by {
                        assert(pref[j] == batch[j]);
                        if batch[j].body == u.body {
                            assert(batch_has_body(pref, u.body));
                        }
                    }
                    lemma_first_occurrence(batch, u.body);
                    assert(first_occurrence(batch, u.body) == i) by {
                        if first_occurrence(batch, u.body) < i {
                            assert(batch[first_occurrence(batch, u.body)].body != u.body);
                        }
                    }
                    assert forall|p: int| 0 <= p < g_before.len() implies first_occurrence(
                        batch,
                        (#[trigger] g_before[p])@.body,
                    ) < i by {
                        assert(batch_has_body(pref, g_before[p]@.body));
                        let jj = choose|jj: int|
                            0 <= jj < pref.len() && (#[trigger] pref[jj]).body
                                == g_before[p]@.body;
                        assert(batch[jj].body == g_before[p]@.body);
                        assert(batch_has_body(batch, g_before[p]@.body));
                        lemma_first_occurrence(batch, g_before[p]@.body);
                    }
                    assert forall|p: int, q: int|
                        #![trigger update_views(g@)[p], update_views(g@)[q]]
                        0 <= p < q < update_views(g@).len() implies first_occurrence(
                        batch,
                        update_views(g@)[p].body,
                    ) < first_occurrence(batch, update_views(g@)[q].body) by {
                        assert(update_views(g@)[p] == g@[p]@);
                        assert(update_views(g@)[q] == g@[q]@);
                        if q == g@.len() - 1 {
                            assert(g@[p]@ == g_before[p]@);
                            assert(g@[q]@.body == u.body);
                        } else {
                            assert(update_views(g_before)[p] == g_before[p]@);
                            assert(update_views(g_before)[q] == g_before[q]@);
                            assert(g@[p]@ == g_before[p]@ && g@[q]@ == g_before[q]@);
                        }
                    }
                    assert(grouped_batch_ordered(batch, update_views(g@)));
                }
            },
            Some(k) => {
                // already grouped: merge this update's votes in
                let merged = {
                    let mut mv = g[k].seen_by.clone();
                    mv.merge_min(&u_votes);
                    mv
                };
                let body_k = g[k].body.clone();
                let ghost g_before = g@;
                g[k] = EthMsgUpdate { body: body_k, seen_by: merged };
                proof {
                    assert(forall|p: int|
                        0 <= p < g@.len() && p != k ==> g@[p] == #[trigger] g_before[p]);
                    assert(g@[k as int]@.body == u.body);
                    assert(g@[k as int]@.seen_by == vote_union(g_before[k as int]@.seen_by, u.seen_by));
                    assert(g@[k as int]@.seen_by == batch_votes_map(pref.push(u), u.body));
                    // the merged votes are not empty: they keep the old ones
                    let w = g_before[k as int].seen_by.entries@[0].0;
                    crate::votes::lemma_vote_map(g_before[k as int].seen_by.entries@);
                    assert(g_before[k as int]@.seen_by.contains_key(w));
                    assert(g@[k as int]@.seen_by.contains_key(w));
                    crate::votes::lemma_vote_map(g@[k as int].seen_by.entries@);
                    if g@[k as int].seen_by.entries@.len() == 0 {
                        assert(!g@[k as int]@.seen_by.contains_key(w));
                    }
                    assert forall|p: int|
                        0 <= p < g@.len() implies batch_has_body(pref.push(u), (
                        #[trigger] g@[p])@.body) && g@[p]@.seen_by == batch_votes_map(
                            pref.push(u),
                            g@[p]@.body,
                        ) by {
                        if p != k {
                            assert(g_before[p]@.body != u.body);
                        }
                    }
                    assert forall|b: EventBodyV|
                        #![trigger batch_has_body(pref.push(u), b)]
                        batch_has_body(pref.push(u), b) implies exists|p: int|
                        0 <= p < g@.len() && (#[trigger] g@[p])@.body == b by {
                        if b == u.body {
                            assert(g@[k as int]@.body == b);
                        } else {
                            assert(batch_has_body(pref, b));
                            let p = choose|p: int|
                                0 <= p < g_before.len() && (#[trigger] g_before[p])@.body == b;
                            assert(g@[p]@.body == b);
                        }
                    }
                    // every event keeps its place, so the order stands
                    assert forall|p: int, q: int|
                        #![trigger update_views(g@)[p], update_views(g@)[q]]
                        0 <= p < q < update_views(g@).len() implies first_occurrence(
                        batch,
                        update_views(g@)[p].body,
                    ) < first_occurrence(batch, update_views(g@)[q].body) by {
                        assert(update_views(g@)[p] == g@[p]@);
                        assert(update_views(g@)[q] == g@[q]@);
                        assert(update_views(g_before)[p] == g_before[p]@);
                        assert(update_views(g_before)[q] == g_before[q]@);
                        assert(g@[p]@.body == g_before[p]@.body);
                        assert(g@[q]@.body == g_before[q]@.body);
                    }
                    assert(grouped_batch_ordered(batch, update_views(g@)));
                }
            },
        }
        i = i + 1;
    }
    proof {
        assert(batch.subrange(0, n as int) =~= batch);
    }
    g
}

/// Coverage survives removing keys.
pub proof fn lemma_covered_remove(
    m: Map<Address, BlockHeight>,
    d: Set<Address>,
    powers: Map<(Address, BlockHeight), FractionalVotingPower>,
)
    requires
        covered(m, powers),
    ensures
        covered(m.remove_keys(d), powers),
{
    assert forall|v: Address| m.remove_keys(d).contains_key(v) implies powers.contains_key(
        (v, m.remove_keys(d)[v]),
    ) && powers[(v, m.remove_keys(d)[v])].wf() by {
        assert(m.contains_key(v) && m[v] == m.remove_keys(d)[v]);
    }
}

/// Merge one (already grouped) update into the store: create the record on a
/// first observation, otherwise fold in the net-new votes.  Returns the
/// changed locations and whether the event was newly confirmed.
pub fn apply_update(
    store: &mut LedgerStore,
    update: EthMsgUpdate,
    voting_powers: &VotingPowers,
    current_epoch: Epoch,
) -> (r: Result<(ChangedKeys, bool), EngineError>)
    requires
        old(store).wf(),
        update.seen_by.wf(),
        update.seen_by.entries@.len() > 0,
        voting_powers.wf(),
        covered(update.seen_by@, voting_powers@),
    ensures
        final(store).wf(),
        final(store).balances@ == old(store).balances@,
        final(store).supplies@ == old(store).supplies@,
        ({
            let b = update@.body;
            let old_rec = spec_old_record(old(store).tallies_map(), b);
            let merged = spec_merge_record(old_rec, update@.seen_by, voting_powers@, current_epoch);
            match r {
                Ok(ckn) => {
                    &&& merged is Some
                    &&& final(store).tallies_map() == old(store).tallies_map().insert(b, merged->0)
                    &&& ckn.0@ == spec_changed_for_body(old_rec, merged->0, b)
                    &&& ckn.0.wf()
                    &&& ckn.1 == spec_newly_confirmed(old_rec, merged->0)
                },
                Err(e) => {
                    &&& e == (EngineError::VotingPowerOverflow)
                    &&& merged is None
                    &&& final(store).tallies@ == old(store).tallies@
                },
            }
        }),
{
    let EthMsgUpdate { body, seen_by } = update;
    let ghost b = body@;
    let ghost old_rec = spec_old_record(store.tallies_map(), b);
    let found: Option<(bool, FractionalVotingPower, Epoch, Votes)> = match store.get_record(&body) {
        None => None,
        Some(rec) => Some((rec.seen, rec.voting_power, rec.recorded_epoch, rec.seen_by.clone())),
    };
    match found {
        None => {
            // first observation of this event by any validator
            proof {
                lemma_sorted_votes_of(seen_by.entries@);
            }
            let p = match sum_power(FractionalVotingPower::zero(), &seen_by, voting_powers) {
                Ok(p) => p,
                Err(e) => {
                    return Err(e);
                },
            };
            let seen = p.exceeds_threshold();
            let mut ck = ChangedKeys::new();
            ck.insert_event_prefix(&body);
            proof {
                assert(ck@ =~= event_prefix_set(b));
            }
            let rec = VoteRecord {
                seen,
                seen_by,
                voting_power: p,
                recorded_epoch: current_epoch,
            };
            proof {
                assert(rec.wf());
            }
            store.insert_tally(body, rec);
            Ok((ck, seen))
        },
        Some((old_seen, old_power, old_epoch, old_votes)) => {
            proof {
                assert(old_rec is Some);
                assert(old_rec->0 == (VoteRecordV {
                    seen: old_seen,
                    seen_by: old_votes@,
                    voting_power: old_power,
                    recorded_epoch: old_epoch,
                }));
            }
            let net = seen_by.minus_keys(&old_votes);
            let ghost net_m = seen_by@.remove_keys(old_votes@.dom());
            proof {
                assert(net@ == net_m);
            }
            if net.is_empty() {
                proof {
                    assert(net_m =~= Map::<Address, BlockHeight>::empty());
                    assert(store.tallies_map().insert(b, old_rec->0) =~= store.tallies_map());
                    assert(spec_changed_for_body(old_rec, old_rec->0, b) =~= Set::<
                        StorageKeyV,
                    >::empty());
                }
                return Ok((ChangedKeys::new(), false));
            }
            proof {
                lemma_covered_remove(seen_by@, old_votes@.dom(), voting_powers@);
                lemma_sorted_votes_of(net.entries@);
            }
            let p = match sum_power(old_power, &net, voting_powers) {
                Ok(p) => p,
                Err(e) => {
                    return Err(e);
                },
            };
            let seen = old_seen || p.exceeds_threshold();
            let newly = seen && !old_seen;
            proof {
                // the seen flag still agrees with the threshold: power only grew
                if old_seen {
                    crate::power::lemma_threshold_monotone(old_power, p);
                }
                assert(seen == p.spec_exceeds_threshold());
            }
            let mut new_votes = old_votes;
            new_votes.merge_min(&net);
            proof {
                // the union keeps at least the previous voters
                crate::votes::lemma_vote_map(new_votes.entries@);
                assert(new_votes@.contains_key(old_rec->0.seen_by.dom().choose())) by {
                    let w = old_rec->0.seen_by.dom().choose();
                    crate::votes::lemma_vote_map(old_votes.entries@);
                    assert(old_votes@.contains_key(old_votes.entries@[0].0));
                    assert(old_rec->0.seen_by.dom().contains(old_votes.entries@[0].0));
                    assert(old_rec->0.seen_by.dom().contains(w));
                    assert(old_votes@.contains_key(w));
                }
                assert(new_votes.entries@.len() > 0);
            }
            let rec = VoteRecord {
                seen,
                seen_by: new_votes,
                voting_power: p,
                recorded_epoch: old_epoch,
            };
            proof {
                assert(rec.wf());
            }
            let mut ck = ChangedKeys::new();
            ck.insert(StorageKey::SeenBy(body.clone()));
            ck.insert(StorageKey::VotingPower(body.clone()));
            if newly {
                ck.insert(StorageKey::Seen(body.clone()));
            }
            store.set_record(&body, rec);
            proof {
                let merged = spec_merge_record(old_rec, seen_by@, voting_powers@, current_epoch);
                assert(merged is Some && merged->0 == rec@);
                // the new record differs from the old: a net-new voter exists
                let w = net.entries@[0].0;
                crate::votes::lemma_vote_map(net.entries@);
                assert(net_m.contains_key(w));
                assert(!old_rec->0.seen_by.contains_key(w));
                assert(rec@.seen_by.contains_key(w));
                assert(rec@ != old_rec->0);
                let base = Set::<StorageKeyV>::empty().insert(StorageKeyV::SeenBy(b)).insert(
                    StorageKeyV::VotingPower(b),
                );
                if newly {
                    assert(ck@ =~= base.insert(StorageKeyV::Seen(b)));
                } else {
                    assert(rec@.seen == old_seen);
                    assert(ck@ =~= base);
                }
                assert(ck@ == spec_changed_for_body(old_rec, merged->0, b));
            }
            Ok((ck, newly))
        },
    }
}

/// The transfers an event carries.
pub open spec fn body_transfers(b: EventBodyV) -> Seq<TransferToNamada> {
    match b {
        EventBodyV::TransfersToNamada { transfers, .. } => transfers,
    }
}

/// Credit each transfer in order: balance and supply both grow by the
/// amount; `None` as soon as either credit cannot be represented.
pub open spec fn spec_apply_transfers(
    bal: Map<(EthAddress, Address), u64>,
    sup: Map<EthAddress, u64>,
    ts: Seq<TransferToNamada>,
) -> Option<(Map<(EthAddress, Address), u64>, Map<EthAddress, u64>)>
    decreases ts.len(),
{
    if ts.len() == 0 {
        Some((bal, sup))
    } else {
        match spec_apply_transfers(bal, sup, ts.drop_last()) {
            None => None,
            Some(ms) => {
                let t = ts.last();
                let cur_b: u64 = if ms.0.contains_key((t.asset, t.receiver)) {
                    ms.0[(t.asset, t.receiver)]
                } else {
                    0
                };
                let cur_s: u64 = if ms.1.contains_key(t.asset) {
                    ms.1[t.asset]
                } else {
                    0
                };
                if cur_b + t.amount > u64::MAX || cur_s + t.amount > u64::MAX {
                    None
                } else {
                    Some(
                        (
                            ms.0.insert((t.asset, t.receiver), (cur_b + t.amount) as u64),
                            ms.1.insert(t.asset, (cur_s + t.amount) as u64),
                        ),
                    )
                }
            },
        }
    }
}

/// A credit that fails on a prefix fails on the whole sequence.
pub proof fn lemma_apply_transfers_none(
    bal: Map<(EthAddress, Address), u64>,
    sup: Map<EthAddress, u64>,
    ts: Seq<TransferToNamada>,
    k: int,
)
    requires
        0 <= k <= ts.len(),
        spec_apply_transfers(bal, sup, ts.subrange(0, k)) is None,
    ensures
        spec_apply_transfers(bal, sup, ts) is None,
    decreases ts.len() - k,
{
    if k == ts.len() {
        assert(ts.subrange(0, k) =~= ts);
    } else {
        assert(ts.subrange(0, k + 1).drop_last() =~= ts.subrange(0, k));
        assert(spec_apply_transfers(bal, sup, ts.subrange(0, k + 1)) is None);
        lemma_apply_transfers_none(bal, sup, ts, k + 1);
    }
}

/// The balance and supply locations a sequence of transfers touches.
pub open spec fn transfer_keys(ts: Seq<TransferToNamada>) -> Set<StorageKeyV>
    decreases ts.len(),
{
    if ts.len() == 0 {
        Set::empty()
    } else {
        transfer_keys(ts.drop_last()).insert(
            StorageKeyV::Balance { asset: ts.last().asset, receiver: ts.last().receiver },
        ).insert(StorageKeyV::Supply { asset: ts.last().asset })
    }
}

/// Act on one newly confirmed event: credit every transfer it carries, in
/// order, exactly once.  On a failed credit the transfers already credited
/// remain applied and the failure is surfaced.
pub fn act_on(store: &mut LedgerStore, body: &EventBody) -> (r: Result<ChangedKeys, EngineError>)
    requires
        old(store).wf(),
    ensures
        final(store).wf(),
        final(store).tallies@ == old(store).tallies@,
        ({
            let ts = body_transfers(body@);
            match r {
                Ok(ck) => {
                    &&& spec_apply_transfers(old(store).balances_map(), old(store).supplies_map(), ts)
                        == Some((final(store).balances_map(), final(store).supplies_map()))
                    &&& ck@ == transfer_keys(ts)
                    &&& ck.wf()
                },
                Err(e) => {
                    &&& e == (EngineError::ActuationFailure)
                    &&& spec_apply_transfers(
                        old(store).balances_map(),
                        old(store).supplies_map(),
                        ts,
                    ) is None
                    &&& exists|k: int|
                        #![trigger ts.subrange(0, k)]
                        0 <= k <= ts.len() && spec_apply_transfers(
                            old(store).balances_map(),
                            old(store).supplies_map(),
                            ts.subrange(0, k),
                        ) == Some((final(store).balances_map(), final(store).supplies_map()))
                },
            }
        }),
{
    let ghost bal0 = store.balances_map();
    let ghost sup0 = store.supplies_map();
    match body {
        EventBody::TransfersToNamada { nonce: _, transfers } => {
            let ghost ts = transfers@;
            let n = transfers.len();
            let mut ck = ChangedKeys::new();
            let mut i: usize = 0;
            proof {
                assert(ts.subrange(0, 0) =~= Seq::<TransferToNamada>::empty());
                assert(ck@ =~= transfer_keys(ts.subrange(0, 0)));
            }
            while i < n
                invariant
                    i <= n,
                    n == ts.len(),
                    ts == body_transfers(body@),
                    ts == transfers@,
                    store.wf(),
                    ck.wf(),
                    bal0 == old(store).balances_map(),
                    sup0 == old(store).supplies_map(),
                    store.tallies@ == old(store).tallies@,
                    spec_apply_transfers(bal0, sup0, ts.subrange(0, i as int)) == Some(
                        (store.balances_map(), store.supplies_map()),
                    ),
                    ck@ == transfer_keys(ts.subrange(0, i as int)),
                decreases n - i,
            {
                let t = transfers[i];
                let cur_b = store.balance_of(t.asset, t.receiver);
                let cur_s = store.supply_of(t.asset);
                let ghost pre = ts.subrange(0, i as int);
                let ghost cur = ts.subrange(0, i + 1);
                proof {
                    assert(cur.drop_last() =~= pre);
                    assert(cur.last() == t);
                }
                match (cur_b.checked_add(t.amount), cur_s.checked_add(t.amount)) {
                    (Some(nb), Some(ns)) => {
                        store.set_balance(t.asset, t.receiver, nb);
                        store.set_supply(t.asset, ns);
                        ck.insert(StorageKey::Balance { asset: t.asset, receiver: t.receiver });
                        ck.insert(StorageKey::Supply { asset: t.asset });
                        proof {
                            assert(spec_apply_transfers(bal0, sup0, cur) == Some(
                                (store.balances_map(), store.supplies_map()),
                            ));
                            assert(ck@ =~= transfer_keys(cur));
                        }
                    },
                    _ => {
                        proof {
                            assert(spec_apply_transfers(bal0, sup0, cur) is None);
                            lemma_apply_transfers_none(bal0, sup0, ts, i + 1);
                            // the credits already applied stay: the state is
                            // exactly the fold of the processed prefix
                            assert(spec_apply_transfers(bal0, sup0, ts.subrange(0, i as int))
                                == Some((store.balances_map(), store.supplies_map())));
                        }
                        return Err(EngineError::ActuationFailure);
                    },
                }
                i = i + 1;
            }
            proof {
                assert(ts.subrange(0, n as int) =~= ts);
            }
            Ok(ck)
        },
    }
}

/// Whether a record has aged past the unbonding window.
pub open spec fn spec_expired(r: VoteRecordV, current: Epoch, window: u64) -> bool {
    current.0 > window && r.recorded_epoch.0 + window < current.0
}

/// The recorded events that have aged past the unbonding window.  When the
/// chain is younger than the window, nothing is eligible and the scan is a
/// no-op (no epoch arithmetic can underflow).
pub fn get_timed_out_eth_events(
    store: &LedgerStore,
    current_epoch: Epoch,
    unbonding_len: u64,
) -> (r: Vec<EventBody>)
    requires
        store.wf(),
    ensures
        forall|p: int, q: int| 0 <= p < q < r@.len() ==> (#[trigger] r@[p])@ != (#[trigger] r@[q])@,
        forall|p: int|
            0 <= p < r@.len() ==> store.tallies_map().contains_key((#[trigger] r@[p])@)
                && spec_expired(store.tallies_map()[r@[p]@], current_epoch, unbonding_len),
        forall|b: EventBodyV| #![trigger store.tallies_map().contains_key(b)]
            store.tallies_map().contains_key(b) && spec_expired(
                store.tallies_map()[b],
                current_epoch,
                unbonding_len,
            ) ==> exists|p: int| 0 <= p < r@.len() && (#[trigger] r@[p])@ == b,
{
    let mut out: Vec<EventBody> = Vec::new();
    if current_epoch.0 <= unbonding_len {
        return out;
    }
    let cutoff = current_epoch.0 - unbonding_len;
    let n = store.tallies.len();
    proof {
        crate::store::lemma_tally_map(store.tallies@);
    }
    let mut i: usize = 0;
    while i < n
        invariant
            i <= n,
            n == store.tallies@.len(),
            store.wf(),
            current_epoch.0 > unbonding_len,
            cutoff == current_epoch.0 - unbonding_len,
            forall|p: int, q: int|
                0 <= p < q < out@.len() ==> (#[trigger] out@[p])@ != (#[trigger] out@[q])@,
            forall|p: int|
                0 <= p < out@.len() ==> store.tallies_map().contains_key((#[trigger] out@[p])@)
                    && spec_expired(store.tallies_map()[out@[p]@], current_epoch, unbonding_len),
            forall|k: int|
                0 <= k < i && spec_expired((#[trigger] store.tallies@[k]).1@, current_epoch,
                unbonding_len) ==> exists|p: int|
                    0 <= p < out@.len() && (#[trigger] out@[p])@ == store.tallies@[k].0@,
            forall|p: int|
                0 <= p < out@.len() ==> exists|k: int|
                    0 <= k < i && (#[trigger] out@[p])@ == store.tallies@[k].0@,
        decreases n - i,
    {
        let ghost out_before = out@;
        if store.tallies[i].1.recorded_epoch.0 < cutoff {
            let b = store.tallies[i].0.clone();
            proof {
                crate::store::lemma_tally_map(store.tallies@);
                assert(store.tallies_map()[store.tallies@[i as int].0@]
                    == store.tallies@[i as int].1@);
                if exists|p: int| 0 <= p < out@.len() && (#[trigger] out@[p])@ == b@ {
                    let p = choose|p: int| 0 <= p < out@.len() && (#[trigger] out@[p])@ == b@;
                    let k = choose|k: int|
                        0 <= k < i && (#[trigger] out@[p])@ == store.tallies@[k].0@;
                    assert(store.tallies@[k].0@ == store.tallies@[i as int].0@);
                    assert(false);
                }
            }
            out.push(b);
            proof {
                assert(forall|p: int|
                    0 <= p < out_before.len() ==> out@[p] == #[trigger] out_before[p]);
                assert(out@[out@.len() - 1]@ == store.tallies@[i as int].0@);
            }
        }
        proof {
            assert(forall|p: int|
                0 <= p < out_before.len() ==> out@[p] == #[trigger] out_before[p]);
            assert forall|k: int|
                0 <= k < i + 1 && spec_expired((#[trigger] store.tallies@[k]).1@, current_epoch,
                unbonding_len) implies exists|p: int|
                0 <= p < out@.len() && (#[trigger] out@[p])@ == store.tallies@[k].0@ by {
                if k < i {
                    let p = choose|p: int|
                        0 <= p < out_before.len() && (#[trigger] out_before[p])@
                            == store.tallies@[k].0@;
                    assert(out@[p]@ == store.tallies@[k].0@);
                } else {
                    assert(out@[out@.len() - 1]@ == store.tallies@[k].0@);
                }
            }
        }
        i = i + 1;
    }
    proof {
        crate::store::lemma_tally_map(store.tallies@);
        assert forall|b: EventBodyV|
            store.tallies_map().contains_key(b) && spec_expired(
                store.tallies_map()[b],
                current_epoch,
                unbonding_len,
            ) implies exists|p: int| 0 <= p < out@.len() && (#[trigger] out@[p])@ == b by {
            let k = choose|k: int|
                0 <= k < store.tallies@.len() && (#[trigger] store.tallies@[k]).0@ == b;
            assert(store.tallies_map()[b] == store.tallies@[k].1@);
        }
    }
    out
}

/// The key prefixes of every expired record.
pub open spec fn expired_keys(
    t: Map<EventBodyV, VoteRecordV>,
    current: Epoch,
    window: u64,
) -> Set<StorageKeyV> {
    Set::new(
        |k: StorageKeyV|
            exists|b: EventBodyV|
                #![trigger event_prefix_set(b).contains(k)]
                t.contains_key(b) && spec_expired(t[b], current, window) && event_prefix_set(
                    b,
                ).contains(k),
    )
}

/// Sweep every record that has aged past the unbonding window, confirmed or
/// not, and report the deleted key prefixes.  A record recorded at epoch `e`
/// survives while `current - e` is at most the window.
pub fn timeout_events(store: &mut LedgerStore, current_epoch: Epoch, unbonding_len: u64) -> (ck:
    ChangedKeys)
    requires
        old(store).wf(),
    ensures
        final(store).wf(),
        final(store).balances@ == old(store).balances@,
        final(store).supplies@ == old(store).supplies@,
        timeout_filter(old(store).tallies_map(), current_epoch, unbonding_len, final(store).tallies_map()),
        ck.wf(),
        ck@ == expired_keys(old(store).tallies_map(), current_epoch, unbonding_len),
{
    let timed_out = get_timed_out_eth_events(store, current_epoch, unbonding_len);
    let mut ck = ChangedKeys::new();
    let n = timed_out.len();
    let mut i: usize = 0;
    proof {
        assert(ck@ =~= Set::<StorageKeyV>::empty());
    }
    while i < n
        invariant
            i <= n,
            n == timed_out@.len(),
            store.wf(),
            ck.wf(),
            store.balances@ == old(store).balances@,
            store.supplies@ == old(store).supplies@,
            forall|p: int, q: int|
                0 <= p < q < timed_out@.len() ==> (#[trigger] timed_out@[p])@ != (
                #[trigger] timed_out@[q])@,
            forall|p: int|
                0 <= p < timed_out@.len() ==> old(store).tallies_map().contains_key(
                    (#[trigger] timed_out@[p])@,
                ) && spec_expired(
                    old(store).tallies_map()[timed_out@[p]@],
                    current_epoch,
                    unbonding_len,
                ),
            forall|b: EventBodyV| #![trigger old(store).tallies_map().contains_key(b)]
                old(store).tallies_map().contains_key(b) && spec_expired(
                    old(store).tallies_map()[b],
                    current_epoch,
                    unbonding_len,
                ) ==> exists|p: int| 0 <= p < timed_out@.len() && (#[trigger] timed_out@[p])@ == b,
            forall|b: EventBodyV| #![trigger store.tallies_map().contains_key(b)]
                store.tallies_map().contains_key(b) == (old(store).tallies_map().contains_key(b)
                    && !(exists|p: int|
                    0 <= p < i && (#[trigger] timed_out@[p])@ == b)),
            forall|b: EventBodyV| #![trigger store.tallies_map()[b]]
                store.tallies_map().contains_key(b) ==> store.tallies_map()[b] == old(
                    store,
                ).tallies_map()[b],
            ck@ == Set::new(
                |k: StorageKeyV|
                    exists|p: int|
                        #![trigger timed_out@[p]]
                        0 <= p < i && event_prefix_set(timed_out@[p]@).contains(k),
            ),
        decreases n - i,
    {
        let ghost ck_before = ck@;
        let b = &timed_out[i];
        proof {
            assert(timed_out@[i as int]@ == b@);
            assert(store.tallies_map().contains_key(b@)) by {
                if exists|p: int| 0 <= p < i && (#[trigger] timed_out@[p])@ == b@ {
                    let p = choose|p: int| 0 <= p < i && (#[trigger] timed_out@[p])@ == b@;
                    assert(false);
                }
            }
        }
        store.remove_tally(b);
        ck.insert_event_prefix(b);
        proof {
            assert forall|k: StorageKeyV|
                ck@.contains(k) == Set::new(
                    |k2: StorageKeyV|
                        exists|p: int|
                            #![trigger timed_out@[p]]
                            0 <= p < i + 1 && event_prefix_set(timed_out@[p]@).contains(k2),
                ).contains(k) by {
                if ck@.contains(k) {
                    if ck_before.contains(k) {
                        let p = choose|p: int|
                            #![trigger timed_out@[p]]
                            0 <= p < i && event_prefix_set(timed_out@[p]@).contains(k);
                        assert(0 <= p < i + 1 && event_prefix_set(timed_out@[p]@).contains(k));
                    } else {
                        assert(event_prefix_set(timed_out@[i as int]@).contains(k));
                    }
                }
                if exists|p: int|
                    #![trigger timed_out@[p]]
                    0 <= p < i + 1 && event_prefix_set(timed_out@[p]@).contains(k) {
                    let p = choose|p: int|
                        #![trigger timed_out@[p]]
                        0 <= p < i + 1 && event_prefix_set(timed_out@[p]@).contains(k);
                    if p < i {
                        assert(ck_before.contains(k));
                    }
                }
            }
            assert(ck@ =~= Set::new(
                |k: StorageKeyV|
                    exists|p: int|
                        #![trigger timed_out@[p]]
                        0 <= p < i + 1 && event_prefix_set(timed_out@[p]@).contains(k),
            ));
        }
        i = i + 1;
    }
    proof {
        assert forall|b: EventBodyV| #![trigger final(store).tallies_map().contains_key(b)]
            store.tallies_map().contains_key(b) == (old(store).tallies_map().contains_key(b)
                && !spec_expired(old(store).tallies_map()[b], current_epoch, unbonding_len)) by {
            if old(store).tallies_map().contains_key(b) && spec_expired(
                old(store).tallies_map()[b],
                current_epoch,
                unbonding_len,
            ) {
                let p = choose|p: int|
                    0 <= p < timed_out@.len() && (#[trigger] timed_out@[p])@ == b;
            }
            if exists|p: int| 0 <= p < n && (#[trigger] timed_out@[p])@ == b {
                let p = choose|p: int| 0 <= p < n && (#[trigger] timed_out@[p])@ == b;
                assert(spec_expired(old(store).tallies_map()[b], current_epoch, unbonding_len));
            }
        }
        assert forall|k: StorageKeyV|
            ck@.contains(k) == expired_keys(
                old(store).tallies_map(),
                current_epoch,
                unbonding_len,
            ).contains(k) by {
            if ck@.contains(k) {
                let p = choose|p: int|
                    #![trigger timed_out@[p]]
                    0 <= p < n && event_prefix_set(timed_out@[p]@).contains(k);
                assert(old(store).tallies_map().contains_key(timed_out@[p]@) && spec_expired(
                    old(store).tallies_map()[timed_out@[p]@],
                    current_epoch,
                    unbonding_len,
                ) && event_prefix_set(timed_out@[p]@).contains(k));
            }
            if expired_keys(old(store).tallies_map(), current_epoch, unbonding_len).contains(k) {
                let b = choose|b: EventBodyV|
                    #![trigger event_prefix_set(b).contains(k)]
                    old(store).tallies_map().contains_key(b) && spec_expired(
                        old(store).tallies_map()[b],
                        current_epoch,
                        unbonding_len,
                    ) && event_prefix_set(b).contains(k);
                let p = choose|p: int| 0 <= p < timed_out@.len() && (#[trigger] timed_out@[p])@ == b;
                assert(0 <= p < n && event_prefix_set(timed_out@[p]@).contains(k));
            }
        }
        assert(ck@ =~= expired_keys(old(store).tallies_map(), current_epoch, unbonding_len));
    }
    ck
}

/// Every (validator, height) pair the batch references has an oracle entry.
pub open spec fn batch_covered(
    batch: Seq<EthMsgUpdateV>,
    powers: Map<(Address, BlockHeight), FractionalVotingPower>,
) -> bool {
    forall|i: int, v: Address|
        #![trigger batch[i].seen_by.contains_key(v)]
        0 <= i < batch.len() && batch[i].seen_by.contains_key(v) ==> powers.contains_key(
            (v, batch[i].seen_by[v]),
        )
}

/// Every value the oracle holds is well formed.
pub open spec fn powers_values_wf(
    powers: Map<(Address, BlockHeight), FractionalVotingPower>,
) -> bool {
    forall|k: (Address, BlockHeight)| #![trigger powers.contains_key(k)]
        powers.contains_key(k) ==> powers[k].wf()
}

/// A well-formed oracle holds well-formed values.
pub proof fn lemma_powers_values_wf(powers: &VotingPowers)
    requires
        powers.wf(),
    ensures
        powers_values_wf(powers@),
{
    crate::oracle::lemma_power_map(powers.entries@);
    assert forall|k: (Address, BlockHeight)| powers@.contains_key(k) implies powers@[k].wf() by {
        let i = choose|i: int| 0 <= i < powers.entries@.len() && (#[trigger] powers.entries@[i]).0
            == k;
    }
}

/// A covered batch covers the grouped votes of each of its events.
pub proof fn lemma_batch_covered_votes(
    batch: Seq<EthMsgUpdateV>,
    powers: Map<(Address, BlockHeight), FractionalVotingPower>,
    b: EventBodyV,
)
    requires
        batch_covered(batch, powers),
        powers_values_wf(powers),
    ensures
        covered(batch_votes_map(batch, b), powers),
{
    let m = batch_votes_map(batch, b);
    assert forall|v: Address| m.contains_key(v) implies powers.contains_key((v, m[v]))
        && powers[(v, m[v])].wf() by {
        assert(batch_vote(batch, b, v));
        lemma_batch_min_exists(batch, b, v);
        let h = batch_vote_height(batch, b, v);
        let i = choose|i: int|
            0 <= i < batch.len() && (#[trigger] batch[i]).body == b && batch[i].seen_by.contains_key(
                v,
            ) && batch[i].seen_by[v] == h;
        assert(batch[i].seen_by.contains_key(v));
        assert(powers.contains_key((v, h)));
    }
}

/// What a successful merge pass leaves in the tally map: each event of the
/// batch merged with the batch's grouped votes for it, everything else
/// untouched.
pub open spec fn merge_post(
    old_t: Map<EventBodyV, VoteRecordV>,
    batch: Seq<EthMsgUpdateV>,
    powers: Map<(Address, BlockHeight), FractionalVotingPower>,
    epoch: Epoch,
    new_t: Map<EventBodyV, VoteRecordV>,
) -> bool {
    &&& forall|b: EventBodyV| #![trigger batch_has_body(batch, b)]
        batch_has_body(batch, b) ==> new_t.contains_key(b) && spec_merge_record(
            spec_old_record(old_t, b),
            batch_votes_map(batch, b),
            powers,
            epoch,
        ) == Some(new_t[b])
    &&& forall|b: EventBodyV| #![trigger new_t.contains_key(b)]
        !batch_has_body(batch, b) ==> new_t.contains_key(b) == old_t.contains_key(b)
            && (old_t.contains_key(b) ==> new_t[b] == old_t[b])
}

/// This merge pass newly confirms `b`.
pub open spec fn spec_confirmed(
    old_t: Map<EventBodyV, VoteRecordV>,
    batch: Seq<EthMsgUpdateV>,
    powers: Map<(Address, BlockHeight), FractionalVotingPower>,
    epoch: Epoch,
    b: EventBodyV,
) -> bool {
    batch_has_body(batch, b) && match spec_merge_record(
        spec_old_record(old_t, b),
        batch_votes_map(batch, b),
        powers,
        epoch,
    ) {
        Some(nr) => spec_newly_confirmed(spec_old_record(old_t, b), nr),
        None => false,
    }
}

/// The locations this merge pass changes (actuation and sweep aside).
pub open spec fn merge_changed(
    old_t: Map<EventBodyV, VoteRecordV>,
    batch: Seq<EthMsgUpdateV>,
    powers: Map<(Address, BlockHeight), FractionalVotingPower>,
    epoch: Epoch,
) -> Set<StorageKeyV> {
    Set::new(
        |k: StorageKeyV|
            exists|b: EventBodyV|
                #![trigger event_prefix_set(b).contains(k)]
                {
                    &&& batch_has_body(batch, b)
                    &&& spec_merge_record(
                        spec_old_record(old_t, b),
                        batch_votes_map(batch, b),
                        powers,
                        epoch,
                    ) is Some
                    &&& spec_changed_for_body(
                        spec_old_record(old_t, b),
                        spec_merge_record(
                            spec_old_record(old_t, b),
                            batch_votes_map(batch, b),
                            powers,
                            epoch,
                        )->0,
                        b,
                    ).contains(k)
                    &&& event_prefix_set(b).contains(k)
                },
    )
}

/// The locations one merge changes lie within the event's own prefix.
pub proof fn lemma_changed_subset(old: Option<VoteRecordV>, nr: VoteRecordV, b: EventBodyV)
    ensures
        forall|k: StorageKeyV| #![trigger spec_changed_for_body(old, nr, b).contains(k)]
            spec_changed_for_body(old, nr, b).contains(k) ==> event_prefix_set(b).contains(k),
{
}

/// Credit the transfers of a sequence of confirmed events, in order.
pub open spec fn spec_actuate_seq(
    bal: Map<(EthAddress, Address), u64>,
    sup: Map<EthAddress, u64>,
    cs: Seq<EventBodyV>,
) -> Option<(Map<(EthAddress, Address), u64>, Map<EthAddress, u64>)>
    decreases cs.len(),
{
    if cs.len() == 0 {
        Some((bal, sup))
    } else {
        match spec_actuate_seq(bal, sup, cs.drop_last()) {
            None => None,
            Some(ms) => spec_apply_transfers(ms.0, ms.1, body_transfers(cs.last())),
        }
    }
}

/// A pass that fails on a prefix of the confirmed events fails on all of
/// them.
pub proof fn lemma_actuate_seq_none(
    bal0: Map<(EthAddress, Address), u64>,
    sup0: Map<EthAddress, u64>,
    cs: Seq<EventBodyV>,
    k: int,
)
    requires
        0 <= k <= cs.len(),
        spec_actuate_seq(bal0, sup0, cs.subrange(0, k)) is None,
    ensures
        spec_actuate_seq(bal0, sup0, cs) is None,
    decreases cs.len() - k,
{
    if k == cs.len() {
        assert(cs.subrange(0, k) =~= cs);
    } else {
        assert(cs.subrange(0, k + 1).drop_last() =~= cs.subrange(0, k));
        assert(spec_actuate_seq(bal0, sup0, cs.subrange(0, k + 1)) is None);
        lemma_actuate_seq_none(bal0, sup0, cs, k + 1);
    }
}

/// The state a failed actuation pass leaves behind: every event before the
/// failing one fully credited, and the failing event's transfers credited
/// up to the one that could not be represented.
pub open spec fn actuation_halted(
    bal0: Map<(EthAddress, Address), u64>,
    sup0: Map<EthAddress, u64>,
    cs: Seq<EventBodyV>,
    new_bal: Map<(EthAddress, Address), u64>,
    new_sup: Map<EthAddress, u64>,
) -> bool {
    exists|k: int|
        #![trigger cs.subrange(0, k)]
        {
            let done = spec_actuate_seq(bal0, sup0, cs.subrange(0, k));
            &&& 0 <= k < cs.len()
            &&& done is Some
            &&& spec_apply_transfers((done->0).0, (done->0).1, body_transfers(cs[k])) is None
            &&& exists|k2: int|
                #![trigger body_transfers(cs[k]).subrange(0, k2)]
                0 <= k2 <= body_transfers(cs[k]).len() && spec_apply_transfers(
                    (done->0).0,
                    (done->0).1,
                    body_transfers(cs[k]).subrange(0, k2),
                ) == Some((new_bal, new_sup))
        }
}

/// The balance and supply locations a sequence of confirmed events touches.
pub open spec fn actuate_keys(cs: Seq<EventBodyV>) -> Set<StorageKeyV>
    decreases cs.len(),
{
    if cs.len() == 0 {
        Set::empty()
    } else {
        actuate_keys(cs.drop_last()).union(transfer_keys(body_transfers(cs.last())))
    }
}

/// All the (validator, height) pairs the batch references.
pub open spec fn batch_pairs(batch: Seq<EthMsgUpdateV>) -> Set<(Address, BlockHeight)> {
    Set::new(
        |pr: (Address, BlockHeight)|
            exists|i: int|
                0 <= i < batch.len() && (#[trigger] batch[i]).seen_by.contains_key(pr.0)
                    && batch[i].seen_by[pr.0] == pr.1,
    )
}

/// A batch is covered exactly when the oracle covers each referenced pair.
pub proof fn lemma_batch_covered_pairs(
    batch: Seq<EthMsgUpdateV>,
    powers: Map<(Address, BlockHeight), FractionalVotingPower>,
)
    requires
        forall|pr: (Address, BlockHeight)| #![trigger batch_pairs(batch).contains(pr)]
            batch_pairs(batch).contains(pr) ==> powers.contains_key(pr),
    ensures
        batch_covered(batch, powers),
{
    assert forall|i: int, v: Address|
        #![trigger batch[i].seen_by.contains_key(v)]
        0 <= i < batch.len() && batch[i].seen_by.contains_key(v) implies powers.contains_key(
        (v, batch[i].seen_by[v]),
    ) by {
        let pr = (v, batch[i].seen_by[v]);
        assert(batch[i].seen_by.contains_key(pr.0) && batch[i].seen_by[pr.0] == pr.1);
        assert(batch_pairs(batch).contains(pr));
    }
}

/// All the (validator, height) pairs the batch references, without
/// duplicates.
pub fn get_voters(updates: &Vec<EthMsgUpdate>) -> (r: Vec<(Address, BlockHeight)>)
    requires
        forall|i: int| 0 <= i < updates@.len() ==> (#[trigger] updates@[i]).seen_by.wf(),
    ensures
        forall|p: int, q: int| 0 <= p < q < r@.len() ==> r@[p] != r@[q],
        forall|p: int| #![trigger r@[p]]
            0 <= p < r@.len() ==> batch_pairs(update_views(updates@)).contains(r@[p]),
        forall|pr: (Address, BlockHeight)|
            #![trigger batch_pairs(update_views(updates@)).contains(pr)]
            batch_pairs(update_views(updates@)).contains(pr) ==> exists|p: int|
                0 <= p < r@.len() && r@[p] == pr,
{
    let ghost batch = update_views(updates@);
    let n = updates.len();
    let mut out: Vec<(Address, BlockHeight)> = Vec::new();
    let mut i: usize = 0;
    while i < n
        invariant
            i <= n,
            n == updates@.len(),
            batch == update_views(updates@),
            forall|p: int| 0 <= p < updates@.len() ==> (#[trigger] updates@[p]).seen_by.wf(),
            forall|p: int, q: int| 0 <= p < q < out@.len() ==> out@[p] != out@[q],
            forall|p: int| #![trigger out@[p]]
                0 <= p < out@.len() ==> batch_pairs(batch).contains(out@[p]),
            forall|pr: (Address, BlockHeight)|
                #![trigger batch_pairs(batch.subrange(0, i as int)).contains(pr)]
                batch_pairs(batch.subrange(0, i as int)).contains(pr) ==> exists|p: int|
                    0 <= p < out@.len() && out@[p] == pr,
        decreases n - i,
    {
        let m = updates[i].seen_by.entries.len();
        let mut j: usize = 0;
        proof {
            crate::votes::lemma_vote_map(updates@[i as int].seen_by.entries@);
        }
        while j < m
            invariant
                j <= m,
                i < n,
                n == updates@.len(),
                batch == update_views(updates@),
                m == updates@[i as int].seen_by.entries@.len(),
                forall|p: int| 0 <= p < updates@.len() ==> (#[trigger] updates@[p]).seen_by.wf(),
                forall|p: int, q: int| 0 <= p < q < out@.len() ==> out@[p] != out@[q],
                forall|p: int| #![trigger out@[p]]
                    0 <= p < out@.len() ==> batch_pairs(batch).contains(out@[p]),
                forall|pr: (Address, BlockHeight)|
                    #![trigger batch_pairs(batch.subrange(0, i as int)).contains(pr)]
                    batch_pairs(batch.subrange(0, i as int)).contains(pr) ==> exists|p: int|
                        0 <= p < out@.len() && out@[p] == pr,
                forall|q: int|
                    0 <= q < j ==> exists|p: int|
                        0 <= p < out@.len() && out@[p]
                            == #[trigger] updates@[i as int].seen_by.entries@[q],
            decreases m - j,
        {
            let pair = updates[i].seen_by.entries[j];
            let ghost out_before = out@;
            let mut seen_already = false;
            let w = out.len();
            let mut q: usize = 0;
            while q < w
                invariant
                    q <= w,
                    w == out@.len(),
                    out@ == out_before,
                    seen_already ==> exists|p: int| 0 <= p < out@.len() && out@[p] == pair,
                    !seen_already ==> forall|p: int| 0 <= p < q ==> out@[p] != pair,
                decreases w - q,
            {
                let (a, h) = out[q];
                if a == pair.0 && h == pair.1 {
                    proof {
                        assert(out@[q as int] == pair);
                    }
                    seen_already = true;
                }
                q = q + 1;
            }
            if !seen_already {
                out.push(pair);
                proof {
                    assert(forall|p: int|
                        0 <= p < out_before.len() ==> out@[p] == #[trigger] out_before[p]);
                    assert(out@[out@.len() - 1] == pair);
                    crate::votes::lemma_vote_map(updates@[i as int].seen_by.entries@);
                    assert(updates@[i as int].seen_by@.contains_key(pair.0)
                        && updates@[i as int].seen_by@[pair.0] == pair.1);
                    assert(batch[i as int].seen_by.contains_key(pair.0)
                        && batch[i as int].seen_by[pair.0] == pair.1);
                    assert(batch_pairs(batch).contains(pair));
                }
            }
            proof {
                assert(forall|p: int|
                    0 <= p < out_before.len() ==> out@[p] == #[trigger] out_before[p]);
                assert forall|q2: int|
                    0 <= q2 < j + 1 implies exists|p: int|
                    0 <= p < out@.len() && out@[p]
                        == #[trigger] updates@[i as int].seen_by.entries@[q2] by {
                    if q2 < j {
                        let p = choose|p: int|
                            0 <= p < out_before.len() && out_before[p]
                                == updates@[i as int].seen_by.entries@[q2];
                        assert(out@[p] == updates@[i as int].seen_by.entries@[q2]);
                    } else {
                        assert(exists|p: int| 0 <= p < out@.len() && out@[p] == pair);
                    }
                }
            }
            j = j + 1;
        }
        proof {
            let pre = batch.subrange(0, i as int);
            let cur = batch.subrange(0, i + 1);
            assert(forall|k: int| 0 <= k < pre.len() ==> cur[k] == #[trigger] pre[k]);
            assert(cur[i as int] == batch[i as int]);
            crate::votes::lemma_vote_map(updates@[i as int].seen_by.entries@);
            assert forall|pr: (Address, BlockHeight)|
                #![trigger batch_pairs(cur).contains(pr)]
                batch_pairs(cur).contains(pr) implies exists|p: int|
                0 <= p < out@.len() && out@[p] == pr by {
                let k = choose|k: int|
                    0 <= k < cur.len() && (#[trigger] cur[k]).seen_by.contains_key(pr.0)
                        && cur[k].seen_by[pr.0] == pr.1;
                if k < i {
                    assert(pre[k].seen_by.contains_key(pr.0) && pre[k].seen_by[pr.0] == pr.1);
                    assert(batch_pairs(pre).contains(pr));
                } else {
                    assert(batch[i as int].seen_by.contains_key(pr.0));
                    assert(updates@[i as int].seen_by@.contains_key(pr.0));
                    let q2 = choose|q2: int|
                        0 <= q2 < updates@[i as int].seen_by.entries@.len() && (
                        #[trigger] updates@[i as int].seen_by.entries@[q2]).0 == pr.0;
                    assert(updates@[i as int].seen_by.entries@[q2].1
                        == updates@[i as int].seen_by@[pr.0]);
                    assert(updates@[i as int].seen_by.entries@[q2] == pr);
                }
            }
        }
        i = i + 1;
    }
    proof {
        assert(batch.subrange(0, n as int) =~= batch);
    }
    out
}

/// The values of a sequence of event payloads.
pub open spec fn body_views(s: Seq<EventBody>) -> Seq<EventBodyV> {
    s.map_values(|body: EventBody| body@)
}

/// The merge outcome for one grouped update.
pub open spec fn merged_rec_of(
    old_t: Map<EventBodyV, VoteRecordV>,
    g: EthMsgUpdateV,
    powers: Map<(Address, BlockHeight), FractionalVotingPower>,
    epoch: Epoch,
) -> Option<VoteRecordV> {
    spec_merge_record(spec_old_record(old_t, g.body), g.seen_by, powers, epoch)
}

/// Whether one grouped update newly confirms its event.
pub open spec fn newly_of(
    old_t: Map<EventBodyV, VoteRecordV>,
    g: EthMsgUpdateV,
    powers: Map<(Address, BlockHeight), FractionalVotingPower>,
    epoch: Epoch,
) -> bool {
    merged_rec_of(old_t, g, powers, epoch) is Some && spec_newly_confirmed(
        spec_old_record(old_t, g.body),
        merged_rec_of(old_t, g, powers, epoch)->0,
    )
}

/// The locations one grouped update changes.
pub open spec fn changed_of(
    old_t: Map<EventBodyV, VoteRecordV>,
    g: EthMsgUpdateV,
    powers: Map<(Address, BlockHeight), FractionalVotingPower>,
    epoch: Epoch,
) -> Set<StorageKeyV> {
    spec_changed_for_body(
        spec_old_record(old_t, g.body),
        merged_rec_of(old_t, g, powers, epoch)->0,
        g.body,
    )
}

/// The locations changed by merging the first `i` grouped updates.
pub open spec fn grouped_changed_upto(
    old_t: Map<EventBodyV, VoteRecordV>,
    g: Seq<EthMsgUpdateV>,
    powers: Map<(Address, BlockHeight), FractionalVotingPower>,
    epoch: Epoch,
    i: int,
) -> Set<StorageKeyV> {
    Set::new(
        |k: StorageKeyV|
            exists|p: int|
                #![trigger g[p]]
                0 <= p < i && merged_rec_of(old_t, g[p], powers, epoch) is Some && changed_of(
                    old_t,
                    g[p],
                    powers,
                    epoch,
                ).contains(k),
    )
}

/// One merge step extends the changed-key set by that update's changes.
proof fn lemma_changed_upto_step(
    old_t: Map<EventBodyV, VoteRecordV>,
    g: Seq<EthMsgUpdateV>,
    powers: Map<(Address, BlockHeight), FractionalVotingPower>,
    epoch: Epoch,
    i: int,
    before: Set<StorageKeyV>,
    after: Set<StorageKeyV>,
)
    requires
        0 <= i < g.len(),
        before == grouped_changed_upto(old_t, g, powers, epoch, i),
        merged_rec_of(old_t, g[i], powers, epoch) is Some,
        after == before.union(changed_of(old_t, g[i], powers, epoch)),
    ensures
        after == grouped_changed_upto(old_t, g, powers, epoch, i + 1),
{
    assert forall|k: StorageKeyV|
        after.contains(k) == grouped_changed_upto(old_t, g, powers, epoch, i + 1).contains(
            k,
        ) by {
        if after.contains(k) {
            if before.contains(k) {
                let p = choose|p: int|
                    #![trigger g[p]]
                    0 <= p < i && merged_rec_of(old_t, g[p], powers, epoch) is Some && changed_of(
                        old_t,
                        g[p],
                        powers,
                        epoch,
                    ).contains(k);
                assert(0 <= p < i + 1 && merged_rec_of(old_t, g[p], powers, epoch) is Some
                    && changed_of(old_t, g[p], powers, epoch).contains(k));
            } else {
                assert(0 <= i < i + 1 && merged_rec_of(old_t, g[i], powers, epoch) is Some
                    && changed_of(old_t, g[i], powers, epoch).contains(k));
            }
        }
        if grouped_changed_upto(old_t, g, powers, epoch, i + 1).contains(k) {
            let p = choose|p: int|
                #![trigger g[p]]
                0 <= p < i + 1 && merged_rec_of(old_t, g[p], powers, epoch) is Some && changed_of(
                    old_t,
                    g[p],
                    powers,
                    epoch,
                ).contains(k);
            if p < i {
                assert(before.contains(k));
            }
        }
    }
    assert(after =~= grouped_changed_upto(old_t, g, powers, epoch, i + 1));
}

/// The views in `cs` are pairwise distinct.
pub open spec fn cs_distinct(cs: Seq<EventBodyV>) -> bool {
    forall|p: int, q: int| 0 <= p < q < cs.len() ==> cs[p] != cs[q]
}

/// `cs` holds exactly the events this merge pass newly confirms.
pub open spec fn confirmed_set_matches(
    old_t: Map<EventBodyV, VoteRecordV>,
    batch: Seq<EthMsgUpdateV>,
    powers: Map<(Address, BlockHeight), FractionalVotingPower>,
    epoch: Epoch,
    cs: Seq<EventBodyV>,
) -> bool {
    forall|b: EventBodyV| #![trigger cs.contains(b)]
        cs.contains(b) == spec_confirmed(old_t, batch, powers, epoch, b)
}

/// Some event of the batch has a tally that cannot be represented.
pub open spec fn some_power_overflow(
    old_t: Map<EventBodyV, VoteRecordV>,
    batch: Seq<EthMsgUpdateV>,
    powers: Map<(Address, BlockHeight), FractionalVotingPower>,
    epoch: Epoch,
) -> bool {
    exists|b: EventBodyV|
        #![trigger batch_has_body(batch, b)]
        batch_has_body(batch, b) && spec_merge_record(
            spec_old_record(old_t, b),
            batch_votes_map(batch, b),
            powers,
            epoch,
        ) is None
}

/// `new_t` is `mid_t` with every expired record swept.
pub open spec fn timeout_filter(
    mid_t: Map<EventBodyV, VoteRecordV>,
    epoch: Epoch,
    window: u64,
    new_t: Map<EventBodyV, VoteRecordV>,
) -> bool {
    &&& forall|b: EventBodyV| #![trigger new_t.contains_key(b)]
        new_t.contains_key(b) == (mid_t.contains_key(b) && !spec_expired(mid_t[b], epoch, window))
    &&& forall|b: EventBodyV| #![trigger new_t[b]]
        new_t.contains_key(b) ==> new_t[b] == mid_t[b]
}

/// The views of the confirmed list are pairwise distinct.
pub open spec fn confirmed_distinct(cseq: Seq<EventBody>) -> bool {
    forall|c: int, d: int| 0 <= c < d < cseq.len() ==> (#[trigger] cseq[c])@ != (
    #[trigger] cseq[d])@
}

/// Every confirmed event comes from one of the first `i` grouped updates.
pub open spec fn confirmed_origin(gseq: Seq<EthMsgUpdateV>, i: int, cseq: Seq<EventBody>) -> bool {
    forall|c: int|
        #![trigger cseq[c]]
        0 <= c < cseq.len() ==> exists|p: int| 0 <= p < i && (#[trigger] gseq[p]).body == cseq[c]@
}

/// The confirmed list holds exactly the events newly confirmed among the
/// first `i` grouped updates.
pub open spec fn confirmed_tracks(
    old_t: Map<EventBodyV, VoteRecordV>,
    gseq: Seq<EthMsgUpdateV>,
    powers: Map<(Address, BlockHeight), FractionalVotingPower>,
    epoch: Epoch,
    i: int,
    cseq: Seq<EventBody>,
) -> bool {
    forall|p: int|
        #![trigger gseq[p]]
        0 <= p < i ==> newly_of(old_t, gseq[p], powers, epoch) == exists|c: int|
            0 <= c < cseq.len() && (#[trigger] cseq[c])@ == gseq[p].body
}

/// The first `i` grouped updates are merged into the tally map.
pub open spec fn merged_upto(
    old_t: Map<EventBodyV, VoteRecordV>,
    gseq: Seq<EthMsgUpdateV>,
    powers: Map<(Address, BlockHeight), FractionalVotingPower>,
    epoch: Epoch,
    i: int,
    t: Map<EventBodyV, VoteRecordV>,
) -> bool {
    forall|p: int|
        #![trigger gseq[p]]
        0 <= p < i ==> t.contains_key(gseq[p].body) && merged_rec_of(old_t, gseq[p], powers, epoch)
            == Some(t[gseq[p].body])
}

/// Events not among the first `i` grouped updates keep their old record.
pub open spec fn untouched_beyond(
    old_t: Map<EventBodyV, VoteRecordV>,
    gseq: Seq<EthMsgUpdateV>,
    i: int,
    t: Map<EventBodyV, VoteRecordV>,
) -> bool {
    forall|b: EventBodyV| #![trigger t.contains_key(b)]
        !(exists|p: int| 0 <= p < i && (#[trigger] gseq[p]).body == b) ==> t.contains_key(b)
            == old_t.contains_key(b) && (old_t.contains_key(b) ==> t[b] == old_t[b])
}

/// One full merge step: how the tally map, the changed-key set and the
/// confirmed list evolve when the `i`-th grouped update is merged.
proof fn lemma_merge_step(
    old_t: Map<EventBodyV, VoteRecordV>,
    batch: Seq<EthMsgUpdateV>,
    gseq: Seq<EthMsgUpdateV>,
    powers: Map<(Address, BlockHeight), FractionalVotingPower>,
    epoch: Epoch,
    i: int,
    mid_t: Map<EventBodyV, VoteRecordV>,
    new_t: Map<EventBodyV, VoteRecordV>,
    nr: VoteRecordV,
    changed_before: Set<StorageKeyV>,
    changed_after: Set<StorageKeyV>,
    cb: Seq<EventBody>,
    ca: Seq<EventBody>,
)
    requires
        0 <= i < gseq.len(),
        forall|p: int, q: int| 0 <= p < q < gseq.len() ==> (#[trigger] gseq[p]).body != (
        #[trigger] gseq[q]).body,
        grouped_batch_ordered(batch, gseq),
        confirmed_batch_ordered(batch, cb),
        merged_upto(old_t, gseq, powers, epoch, i, mid_t),
        untouched_beyond(old_t, gseq, i, mid_t),
        changed_before == grouped_changed_upto(old_t, gseq, powers, epoch, i),
        confirmed_distinct(cb),
        confirmed_origin(gseq, i, cb),
        confirmed_tracks(old_t, gseq, powers, epoch, i, cb),
        merged_rec_of(old_t, gseq[i], powers, epoch) == Some(nr),
        new_t == mid_t.insert(gseq[i].body, nr),
        changed_after == changed_before.union(changed_of(old_t, gseq[i], powers, epoch)),
        if newly_of(old_t, gseq[i], powers, epoch) {
            ca.len() == cb.len() + 1 && ca[ca.len() - 1]@ == gseq[i].body && (forall|c: int|
                0 <= c < cb.len() ==> ca[c] == #[trigger] cb[c])
        } else {
            ca == cb
        },
    ensures
        merged_upto(old_t, gseq, powers, epoch, i + 1, new_t),
        untouched_beyond(old_t, gseq, i + 1, new_t),
        changed_after == grouped_changed_upto(old_t, gseq, powers, epoch, i + 1),
        confirmed_distinct(ca),
        confirmed_origin(gseq, i + 1, ca),
        confirmed_tracks(old_t, gseq, powers, epoch, i + 1, ca),
        confirmed_batch_ordered(batch, ca),
{
    let b = gseq[i].body;
    assert forall|p: int|
        #![trigger gseq[p]]
        0 <= p < i + 1 implies new_t.contains_key(gseq[p].body) && merged_rec_of(
        old_t,
        gseq[p],
        powers,
        epoch,
    ) == Some(new_t[gseq[p].body]) by {
        if p < i {
            assert(gseq[p].body != b);
        }
    }
    assert forall|b2: EventBodyV| #![trigger new_t.contains_key(b2)]
        !(exists|p: int| 0 <= p < i + 1 && (#[trigger] gseq[p]).body == b2)
            implies new_t.contains_key(b2) == old_t.contains_key(b2) && (old_t.contains_key(b2)
            ==> new_t[b2] == old_t[b2]) by {
        assert(gseq[i].body != b2);
        if exists|p: int| 0 <= p < i && (#[trigger] gseq[p]).body == b2 {
            let p = choose|p: int| 0 <= p < i && (#[trigger] gseq[p]).body == b2;
            assert(0 <= p < i + 1 && gseq[p].body == b2);
        }
    }
    lemma_changed_upto_step(old_t, gseq, powers, epoch, i, changed_before, changed_after);
    let newly = newly_of(old_t, gseq[i], powers, epoch);
    if newly {
        assert(ca[ca.len() - 1]@ == gseq[i].body);
        assert forall|c: int, d: int| 0 <= c < d < ca.len() implies (#[trigger] ca[c])@ != (
        #[trigger] ca[d])@ by {
            if d == ca.len() - 1 {
                assert(ca[c] == cb[c]);
                let p = choose|p: int| 0 <= p < i && (#[trigger] gseq[p]).body == cb[c]@;
                assert(gseq[p].body != gseq[i].body);
            } else {
                assert(ca[c] == cb[c] && ca[d] == cb[d]);
            }
        }
        assert forall|c: int| #![trigger ca[c]] 0 <= c < ca.len() implies exists|p: int|
            0 <= p < i + 1 && (#[trigger] gseq[p]).body == ca[c]@ by {
            if c < ca.len() - 1 {
                assert(ca[c] == cb[c]);
                let p = choose|p: int| 0 <= p < i && (#[trigger] gseq[p]).body == cb[c]@;
                assert(gseq[p].body == ca[c]@);
            } else {
                assert(gseq[i].body == ca[c]@);
            }
        }
        assert forall|p: int| #![trigger gseq[p]] 0 <= p < i + 1 implies newly_of(
            old_t,
            gseq[p],
            powers,
            epoch,
        ) == exists|c: int| 0 <= c < ca.len() && (#[trigger] ca[c])@ == gseq[p].body by {
            if p < i {
                assert(gseq[p].body != gseq[i].body);
                if exists|c: int| 0 <= c < ca.len() && (#[trigger] ca[c])@ == gseq[p].body {
                    let c = choose|c: int|
                        0 <= c < ca.len() && (#[trigger] ca[c])@ == gseq[p].body;
                    assert(c < cb.len());
                    assert(cb[c]@ == gseq[p].body);
                }
                if exists|c: int| 0 <= c < cb.len() && (#[trigger] cb[c])@ == gseq[p].body {
                    let c = choose|c: int|
                        0 <= c < cb.len() && (#[trigger] cb[c])@ == gseq[p].body;
                    assert(ca[c]@ == gseq[p].body);
                }
            } else {
                assert(ca[ca.len() - 1]@ == gseq[i].body);
            }
        }
    } else {
        assert forall|p: int| #![trigger gseq[p]] 0 <= p < i + 1 implies newly_of(
            old_t,
            gseq[p],
            powers,
            epoch,
        ) == exists|c: int| 0 <= c < ca.len() && (#[trigger] ca[c])@ == gseq[p].body by {
            if p == i {
                if exists|c: int| 0 <= c < ca.len() && (#[trigger] ca[c])@ == gseq[p].body {
                    let c = choose|c: int|
                        0 <= c < ca.len() && (#[trigger] ca[c])@ == gseq[p].body;
                    let p2 = choose|p2: int| 0 <= p2 < i && (#[trigger] gseq[p2]).body == cb[c]@;
                    assert(gseq[p2].body == gseq[i].body);
                    assert(false);
                }
            }
        }
    }
}

/// Apply a batch of votes to the store and act on every event that becomes
/// confirmed in this pass.  The final tally map depends on the batch only as
/// a multiset; confirmed events are acted on once each, in the order their
/// events first appear in the batch.
#[verifier::rlimit(100)]
pub fn apply_updates(
    store: &mut LedgerStore,
    updates: Vec<EthMsgUpdate>,
    voting_powers: &VotingPowers,
    current_epoch: Epoch,
) -> (r: Result<ChangedKeys, EngineError>)
    requires
        old(store).wf(),
        voting_powers.wf(),
        forall|i: int|
            0 <= i < updates@.len() ==> (#[trigger] updates@[i]).seen_by.wf()
                && updates@[i].seen_by.entries@.len() > 0,
        batch_covered(update_views(updates@), voting_powers@),
    ensures
        final(store).wf(),
        ({
            let batch = update_views(updates@);
            let old_t = old(store).tallies_map();
            match r {
                Ok(ck) => {
                    &&& merge_post(
                        old_t,
                        batch,
                        voting_powers@,
                        current_epoch,
                        final(store).tallies_map(),
                    )
                    &&& ck.wf()
                    &&& exists|cs: Seq<EventBodyV>|
                        #![trigger spec_actuate_seq(old(store).balances_map(), old(store).supplies_map(), cs)]
                        {
                            &&& cs_distinct(cs)
                            &&& confirmed_set_matches(
                                old_t,
                                batch,
                                voting_powers@,
                                current_epoch,
                                cs,
                            )
                            &&& cs_batch_ordered(batch, cs)
                            &&& spec_actuate_seq(
                                old(store).balances_map(),
                                old(store).supplies_map(),
                                cs,
                            ) == Some((final(store).balances_map(), final(store).supplies_map()))
                            &&& ck@ == merge_changed(
                                old_t,
                                batch,
                                voting_powers@,
                                current_epoch,
                            ).union(actuate_keys(cs))
                        }
                },
                Err(e) => {
                    &&& (e == (EngineError::VotingPowerOverflow) || e == (
                    EngineError::ActuationFailure))
                    &&& e == (EngineError::VotingPowerOverflow) ==> some_power_overflow(
                        old_t,
                        batch,
                        voting_powers@,
                        current_epoch,
                    ) && final(store).balances@ == old(store).balances@ && final(store).supplies@
                        == old(store).supplies@
                    &&& e == (EngineError::ActuationFailure) ==> merge_post(
                        old_t,
                        batch,
                        voting_powers@,
                        current_epoch,
                        final(store).tallies_map(),
                    ) && exists|cs: Seq<EventBodyV>|
                        #![trigger spec_actuate_seq(old(store).balances_map(), old(store).supplies_map(), cs)]
                        {
                            &&& cs_distinct(cs)
                            &&& confirmed_set_matches(
                                old_t,
                                batch,
                                voting_powers@,
                                current_epoch,
                                cs,
                            )
                            &&& cs_batch_ordered(batch, cs)
                            &&& spec_actuate_seq(
                                old(store).balances_map(),
                                old(store).supplies_map(),
                                cs,
                            ) is None
                            &&& actuation_halted(
                                old(store).balances_map(),
                                old(store).supplies_map(),
                                cs,
                                final(store).balances_map(),
                                final(store).supplies_map(),
                            )
                        }
                },
            }
        }),
{
    let ghost batch = update_views(updates@);
    let ghost old_t = store.tallies_map();
    let ghost bal0 = store.balances_map();
    let ghost sup0 = store.supplies_map();
    proof {
        lemma_powers_values_wf(voting_powers);
    }
    let grouped = group_updates(updates);
    let ghost gseq = update_views(grouped@);
    let gn = grouped.len();
    let mut changed = ChangedKeys::new();
    let mut confirmed: Vec<EventBody> = Vec::new();
    let mut i: usize = 0;
    proof {
        assert(changed@ =~= grouped_changed_upto(old_t, gseq, voting_powers@, current_epoch, 0));
        assert(merged_upto(old_t, gseq, voting_powers@, current_epoch, 0, store.tallies_map()));
        assert(untouched_beyond(old_t, gseq, 0, store.tallies_map()));
        assert(confirmed_distinct(confirmed@));
        assert(confirmed_origin(gseq, 0, confirmed@));
        assert(confirmed_tracks(old_t, gseq, voting_powers@, current_epoch, 0, confirmed@));
        assert(confirmed_batch_ordered(batch, confirmed@));
        assert forall|b: EventBodyV| #![trigger batch_has_body(batch, b)]
            batch_has_body(batch, b) implies exists|p: int|
            0 <= p < gn && (#[trigger] gseq[p]).body == b by {
            let p = choose|p: int| 0 <= p < grouped@.len() && (#[trigger] grouped@[p])@.body == b;
            assert(gseq[p].body == b);
        }
    }
    while i < gn
        invariant
            i <= gn,
            gn == grouped@.len(),
            gseq == update_views(grouped@),
            gseq.len() == gn,
            store.wf(),
            changed.wf(),
            voting_powers.wf(),
            powers_values_wf(voting_powers@),
            batch == update_views(updates@),
            batch_covered(batch, voting_powers@),
            old_t == old(store).tallies_map(),
            bal0 == old(store).balances_map(),
            sup0 == old(store).supplies_map(),
            store.balances@ == old(store).balances@,
            store.supplies@ == old(store).supplies@,
            forall|p: int|
                0 <= p < grouped@.len() ==> (#[trigger] grouped@[p]).seen_by.wf()
                    && grouped@[p].seen_by.entries@.len() > 0,
            forall|p: int| 0 <= p < gn ==> (#[trigger] gseq[p]) == grouped@[p]@,
            forall|p: int, q: int| 0 <= p < q < gn ==> (#[trigger] gseq[p]).body != (
            #[trigger] gseq[q]).body,
            forall|p: int|
                #![trigger gseq[p]]
                0 <= p < gn ==> batch_has_body(batch, gseq[p].body) && gseq[p].seen_by
                    == batch_votes_map(batch, gseq[p].body),
            forall|b: EventBodyV| #![trigger batch_has_body(batch, b)]
                batch_has_body(batch, b) ==> exists|p: int|
                    0 <= p < gn && (#[trigger] gseq[p]).body == b,
            grouped_batch_ordered(batch, gseq),
            merged_upto(old_t, gseq, voting_powers@, current_epoch, i as int, store.tallies_map()),
            untouched_beyond(old_t, gseq, i as int, store.tallies_map()),
            changed@ == grouped_changed_upto(old_t, gseq, voting_powers@, current_epoch, i as int),
            confirmed_distinct(confirmed@),
            confirmed_origin(gseq, i as int, confirmed@),
            confirmed_tracks(old_t, gseq, voting_powers@, current_epoch, i as int, confirmed@),
            confirmed_batch_ordered(batch, confirmed@),
        decreases gn - i,
    {
        let ghost b = gseq[i as int].body;
        let u = {
            let gi = &grouped[i];
            EthMsgUpdate { body: gi.body.clone(), seen_by: gi.seen_by.clone() }
        };
        proof {
            assert(u@ == gseq[i as int]);
            lemma_batch_covered_votes(batch, voting_powers@, b);
            if exists|p: int| 0 <= p < i && (#[trigger] gseq[p]).body == b {
                let p = choose|p: int| 0 <= p < i && (#[trigger] gseq[p]).body == b;
                assert(false);
            }
            assert(spec_old_record(store.tallies_map(), b) == spec_old_record(old_t, b));
        }
        let ghost mid_t = store.tallies_map();
        match apply_update(store, u, voting_powers, current_epoch) {
            Ok((ck_i, newly)) => {
                let ghost nr = merged_rec_of(old_t, gseq[i as int], voting_powers@, current_epoch)->0;
                let ghost changed_before = changed@;
                changed.extend(ck_i);
                let ghost confirmed_before = confirmed@;
                if newly {
                    let bclone = {
                        let gi = &grouped[i];
                        gi.body.clone()
                    };
                    confirmed.push(bclone);
                }
                proof {
                    assert(newly == newly_of(old_t, gseq[i as int], voting_powers@, current_epoch));
                    if newly {
                        assert(confirmed@.len() == confirmed_before.len() + 1);
                        assert(confirmed@[confirmed@.len() - 1]@ == b);
                        assert(forall|c: int|
                            0 <= c < confirmed_before.len() ==> confirmed@[c]
                                == #[trigger] confirmed_before[c]);
                    }
                    assert(store.tallies_map() == mid_t.insert(b, nr));
                    assert(changed@ == changed_before.union(
                        changed_of(old_t, gseq[i as int], voting_powers@, current_epoch),
                    ));
                    lemma_merge_step(
                        old_t,
                        batch,
                        gseq,
                        voting_powers@,
                        current_epoch,
                        i as int,
                        mid_t,
                        store.tallies_map(),
                        nr,
                        changed_before,
                        changed@,
                        confirmed_before,
                        confirmed@,
                    );
                }
            },
            Err(e) => {
                proof {
                    assert(batch_has_body(batch, b));
                    assert(spec_merge_record(
                        spec_old_record(old_t, b),
                        batch_votes_map(batch, b),
                        voting_powers@,
                        current_epoch,
                    ) is None);
                    assert(some_power_overflow(old_t, batch, voting_powers@, current_epoch));
                }
                return Err(e);
            },
        }
        i = i + 1;
    }
    proof {
        assert forall|b: EventBodyV| #![trigger batch_has_body(batch, b)]
            batch_has_body(batch, b) implies store.tallies_map().contains_key(b)
            && spec_merge_record(
            spec_old_record(old_t, b),
            batch_votes_map(batch, b),
            voting_powers@,
            current_epoch,
        ) == Some(store.tallies_map()[b]) by {
            let p = choose|p: int| 0 <= p < gn && (#[trigger] gseq[p]).body == b;
        }
        assert forall|b: EventBodyV| #![trigger store.tallies_map().contains_key(b)]
            !batch_has_body(batch, b) implies store.tallies_map().contains_key(b)
            == old_t.contains_key(b) && (old_t.contains_key(b) ==> store.tallies_map()[b]
            == old_t[b]) by {
            if exists|p: int| 0 <= p < gn && (#[trigger] gseq[p]).body == b {
                let p = choose|p: int| 0 <= p < gn && (#[trigger] gseq[p]).body == b;
                assert(batch_has_body(batch, b));
            }
        }
        assert(merge_post(old_t, batch, voting_powers@, current_epoch, store.tallies_map()));
    }
    let ghost mid_t = store.tallies_map();
    let ghost cs = body_views(confirmed@);
    proof {
        assert(cs.len() == confirmed@.len());
        assert(forall|c: int| 0 <= c < cs.len() ==> (#[trigger] cs[c]) == confirmed@[c]@);
        assert forall|b2: EventBodyV| #![trigger cs.contains(b2)]
            cs.contains(b2) == spec_confirmed(old_t, batch, voting_powers@, current_epoch, b2) by {
            if cs.contains(b2) {
                let c = choose|c: int| 0 <= c < cs.len() && cs[c] == b2;
                assert(confirmed@[c]@ == b2);
                let p0 = choose|p0: int| 0 <= p0 < i && (#[trigger] gseq[p0]).body
                    == confirmed@[c]@;
                assert(batch_has_body(batch, b2));
                assert(newly_of(old_t, gseq[p0], voting_powers@, current_epoch)) by {
                    assert(confirmed@[c]@ == gseq[p0].body);
                }
                assert(spec_confirmed(old_t, batch, voting_powers@, current_epoch, b2));
            }
            if spec_confirmed(old_t, batch, voting_powers@, current_epoch, b2) {
                let p = choose|p: int| 0 <= p < gn && (#[trigger] gseq[p]).body == b2;
                assert(newly_of(old_t, gseq[p], voting_powers@, current_epoch));
                let c = choose|c: int|
                    0 <= c < confirmed@.len() && (#[trigger] confirmed@[c])@ == gseq[p].body;
                assert(cs[c] == b2);
                assert(cs.contains(b2));
            }
        }
        assert forall|k: StorageKeyV|
            changed@.contains(k) == merge_changed(
                old_t,
                batch,
                voting_powers@,
                current_epoch,
            ).contains(k) by {
            if changed@.contains(k) {
                let p = choose|p: int|
                    #![trigger gseq[p]]
                    0 <= p < gn && merged_rec_of(old_t, gseq[p], voting_powers@, current_epoch)
                        is Some && changed_of(old_t, gseq[p], voting_powers@, current_epoch)
                        .contains(k);
                let b2 = gseq[p].body;
                lemma_changed_subset(
                    spec_old_record(old_t, b2),
                    merged_rec_of(old_t, gseq[p], voting_powers@, current_epoch)->0,
                    b2,
                );
                assert(batch_has_body(batch, b2));
                assert(event_prefix_set(b2).contains(k));
            }
            if merge_changed(old_t, batch, voting_powers@, current_epoch).contains(k) {
                let b2 = choose|b2: EventBodyV|
                    #![trigger event_prefix_set(b2).contains(k)]
                    {
                        &&& batch_has_body(batch, b2)
                        &&& spec_merge_record(
                            spec_old_record(old_t, b2),
                            batch_votes_map(batch, b2),
                            voting_powers@,
                            current_epoch,
                        ) is Some
                        &&& spec_changed_for_body(
                            spec_old_record(old_t, b2),
                            spec_merge_record(
                                spec_old_record(old_t, b2),
                                batch_votes_map(batch, b2),
                                voting_powers@,
                                current_epoch,
                            )->0,
                            b2,
                        ).contains(k)
                        &&& event_prefix_set(b2).contains(k)
                    };
                let p = choose|p: int| 0 <= p < gn && (#[trigger] gseq[p]).body == b2;
                assert(gseq[p].seen_by == batch_votes_map(batch, b2));
            }
        }
        assert(changed@ =~= merge_changed(old_t, batch, voting_powers@, current_epoch));
        assert(cs.subrange(0, 0) =~= Seq::<EventBodyV>::empty());
        assert(changed@.union(actuate_keys(cs.subrange(0, 0))) =~= changed@);
        assert forall|c: int, d: int| 0 <= c < d < cs.len() implies cs[c] != cs[d] by {
            assert(cs[c] == confirmed@[c]@ && cs[d] == confirmed@[d]@);
        }
        assert(cs_distinct(cs));
        assert(confirmed_set_matches(old_t, batch, voting_powers@, current_epoch, cs));
        assert forall|c: int, d: int|
            #![trigger cs[c], cs[d]]
            0 <= c < d < cs.len() implies first_occurrence(batch, cs[c]) < first_occurrence(
            batch,
            cs[d],
        ) by {
            assert(cs[c] == confirmed@[c]@ && cs[d] == confirmed@[d]@);
        }
        assert(cs_batch_ordered(batch, cs));
    }
    let ghost merge_ck = changed@;
    let cn = confirmed.len();
    let mut j: usize = 0;
    while j < cn
        invariant
            j <= cn,
            cn == confirmed@.len(),
            cs == body_views(confirmed@),
            cs.len() == cn,
            store.wf(),
            changed.wf(),
            batch == update_views(updates@),
            old_t == old(store).tallies_map(),
            bal0 == old(store).balances_map(),
            sup0 == old(store).supplies_map(),
            store.tallies_map() == mid_t,
            merge_post(old_t, batch, voting_powers@, current_epoch, mid_t),
            cs_distinct(cs),
            confirmed_set_matches(old_t, batch, voting_powers@, current_epoch, cs),
            cs_batch_ordered(batch, cs),
            spec_actuate_seq(bal0, sup0, cs.subrange(0, j as int)) == Some(
                (store.balances_map(), store.supplies_map()),
            ),
            changed@ == merge_ck.union(actuate_keys(cs.subrange(0, j as int))),
        decreases cn - j,
    {
        let ghost pre = cs.subrange(0, j as int);
        let ghost cur = cs.subrange(0, j + 1);
        let ghost pre_bal = store.balances_map();
        let ghost pre_sup = store.supplies_map();
        proof {
            assert(cur.drop_last() =~= pre);
            assert(cur.last() == cs[j as int]);
            assert(cs[j as int] == confirmed@[j as int]@);
        }
        match act_on(store, &confirmed[j]) {
            Ok(ck2) => {
                changed.extend(ck2);
                proof {
                    assert(spec_actuate_seq(bal0, sup0, cur) == Some(
                        (store.balances_map(), store.supplies_map()),
                    ));
                    assert(changed@ =~= merge_ck.union(actuate_keys(cur)));
                }
            },
            Err(e) => {
                proof {
                    // a credit genuinely overflowed: the whole pass fails,
                    // and what was already applied stays applied
                    let ts = body_transfers(cs[j as int]);
                    assert(spec_apply_transfers(pre_bal, pre_sup, ts) is None);
                    assert(spec_actuate_seq(bal0, sup0, cur) is None);
                    lemma_actuate_seq_none(bal0, sup0, cs, j + 1);
                    let k2 = choose|k2: int|
                        #![trigger ts.subrange(0, k2)]
                        0 <= k2 <= ts.len() && spec_apply_transfers(
                            pre_bal,
                            pre_sup,
                            ts.subrange(0, k2),
                        ) == Some((store.balances_map(), store.supplies_map()));
                    let done = spec_actuate_seq(bal0, sup0, cs.subrange(0, j as int));
                    assert((done->0).0 == pre_bal && (done->0).1 == pre_sup);
                    assert(spec_apply_transfers(
                        (done->0).0,
                        (done->0).1,
                        body_transfers(cs[j as int]),
                    ) is None);
                    assert(spec_apply_transfers(
                        (done->0).0,
                        (done->0).1,
                        body_transfers(cs[j as int]).subrange(0, k2),
                    ) == Some((store.balances_map(), store.supplies_map())));
                    assert(actuation_halted(
                        bal0,
                        sup0,
                        cs,
                        store.balances_map(),
                        store.supplies_map(),
                    ));
                }
                return Err(e);
            },
        }
        j = j + 1;
    }
    proof {
        assert(cs.subrange(0, cn as int) =~= cs);
    }
    Ok(changed)
}

/// The updates a batch of signed observations stands for.
pub open spec fn events_batch(s: Seq<MultiSignedEthEvent>) -> Seq<EthMsgUpdateV> {
    s.map_values(|e: MultiSignedEthEvent| EthMsgUpdateV { body: e.event@, seen_by: e.signers@ })
}

/// What one whole processing pass does to the ledger: merge the batch,
/// credit the transfers of every newly confirmed event, then sweep every
/// record that aged past the unbonding window; the changed-key set is the
/// union of the three stages' keys.
pub open spec fn derived_tx_post(
    old_t: Map<EventBodyV, VoteRecordV>,
    old_bal: Map<(EthAddress, Address), u64>,
    old_sup: Map<EthAddress, u64>,
    batch: Seq<EthMsgUpdateV>,
    powers: Map<(Address, BlockHeight), FractionalVotingPower>,
    epoch: Epoch,
    window: u64,
    new_t: Map<EventBodyV, VoteRecordV>,
    new_bal: Map<(EthAddress, Address), u64>,
    new_sup: Map<EthAddress, u64>,
    changed: Set<StorageKeyV>,
) -> bool {
    exists|mid_t: Map<EventBodyV, VoteRecordV>|
        #![trigger merge_post(old_t, batch, powers, epoch, mid_t)]
        {
            &&& merge_post(old_t, batch, powers, epoch, mid_t)
            &&& timeout_filter(mid_t, epoch, window, new_t)
            &&& exists|cs: Seq<EventBodyV>|
                #![trigger spec_actuate_seq(old_bal, old_sup, cs)]
                {
                    &&& cs_distinct(cs)
                    &&& confirmed_set_matches(old_t, batch, powers, epoch, cs)
                    &&& cs_batch_ordered(batch, cs)
                    &&& spec_actuate_seq(old_bal, old_sup, cs) == Some((new_bal, new_sup))
                    &&& changed == merge_changed(old_t, batch, powers, epoch).union(
                        actuate_keys(cs),
                    ).union(expired_keys(mid_t, epoch, window))
                }
        }
}

/// The entry point: apply the state changes a batch of signed foreign-chain
/// observations derives.  An empty batch changes nothing.  A batch whose
/// votes the weight oracle does not fully cover is rejected whole, before
/// any write.  Otherwise the batch is merged, newly confirmed events are
/// acted on exactly once each, records older than the unbonding window are
/// swept, and the union of all changed locations is returned with a gas
/// cost of zero.
pub fn apply_derived_tx(
    store: &mut LedgerStore,
    events: Vec<MultiSignedEthEvent>,
    voting_powers: &VotingPowers,
    current_epoch: Epoch,
    unbonding_len: u64,
) -> (r: Result<TxResult, EngineError>)
    requires
        old(store).wf(),
        voting_powers.wf(),
        forall|i: int|
            0 <= i < events@.len() ==> (#[trigger] events@[i]).signers.wf()
                && events@[i].signers.entries@.len() > 0,
    ensures
        final(store).wf(),
        events@.len() == 0 ==> (r matches Ok(tx) && tx.gas_used == 0 && tx.changed_keys.wf()
            && tx.changed_keys@ == Set::<StorageKeyV>::empty()) && final(store).tallies@ == old(
            store,
        ).tallies@ && final(store).balances@ == old(store).balances@ && final(store).supplies@
            == old(store).supplies@,
        ({
            let batch = events_batch(events@);
            events@.len() > 0 ==> {
                &&& ((r matches Err(e) && e is MissingWeight) == !batch_covered(
                    batch,
                    voting_powers@,
                ))
                &&& (r matches Err(e) && e is MissingWeight ==> final(store).tallies@ == old(store).tallies@
                    && final(store).balances@ == old(store).balances@
                    && final(store).supplies@ == old(store).supplies@)
                &&& match r {
                    Ok(tx) => {
                        &&& tx.gas_used == 0
                        &&& tx.changed_keys.wf()
                        &&& derived_tx_post(
                            old(store).tallies_map(),
                            old(store).balances_map(),
                            old(store).supplies_map(),
                            batch,
                            voting_powers@,
                            current_epoch,
                            unbonding_len,
                            final(store).tallies_map(),
                            final(store).balances_map(),
                            final(store).supplies_map(),
                            tx.changed_keys@,
                        )
                    },
                    Err(e) => {
                        &&& (e is MissingWeight || e == (EngineError::VotingPowerOverflow) || e
                            == (EngineError::ActuationFailure))
                        &&& e == (EngineError::VotingPowerOverflow) ==> some_power_overflow(
                            old(store).tallies_map(),
                            batch,
                            voting_powers@,
                            current_epoch,
                        ) && final(store).balances@ == old(store).balances@
                            && final(store).supplies@ == old(store).supplies@
                        &&& e == (EngineError::ActuationFailure) ==> merge_post(
                            old(store).tallies_map(),
                            batch,
                            voting_powers@,
                            current_epoch,
                            final(store).tallies_map(),
                        ) && exists|cs: Seq<EventBodyV>|
                            #![trigger spec_actuate_seq(old(store).balances_map(), old(store).supplies_map(), cs)]
                            {
                                &&& cs_distinct(cs)
                                &&& confirmed_set_matches(
                                    old(store).tallies_map(),
                                    batch,
                                    voting_powers@,
                                    current_epoch,
                                    cs,
                                )
                                &&& cs_batch_ordered(batch, cs)
                                &&& spec_actuate_seq(
                                    old(store).balances_map(),
                                    old(store).supplies_map(),
                                    cs,
                                ) is None
                                &&& actuation_halted(
                                    old(store).balances_map(),
                                    old(store).supplies_map(),
                                    cs,
                                    final(store).balances_map(),
                                    final(store).supplies_map(),
                                )
                            }
                    },
                }
            }
        }),
        r matches Ok(tx) ==> tx.gas_used == 0,
{
    let ghost batch = events_batch(events@);
    if events.len() == 0 {
        return Ok(TxResult::default());
    }
    // turn each signed observation into an update
    let en = events.len();
    let mut updates: Vec<EthMsgUpdate> = Vec::new();
    let mut i: usize = 0;
    while i < en
        invariant
            i <= en,
            en == events@.len(),
            batch == events_batch(events@),
            forall|p: int|
                0 <= p < events@.len() ==> (#[trigger] events@[p]).signers.wf()
                    && events@[p].signers.entries@.len() > 0,
            updates@.len() == i,
            forall|p: int| 0 <= p < i ==> (#[trigger] updates@[p])@ == batch[p],
            forall|p: int|
                0 <= p < i ==> (#[trigger] updates@[p]).seen_by.wf()
                    && updates@[p].seen_by.entries@.len() > 0,
        decreases en - i,
    {
        let u = {
            let e = &events[i];
            EthMsgUpdate { body: e.event.clone(), seen_by: e.signers.clone() }
        };
        proof {
            assert(u@ == batch[i as int]);
        }
        updates.push(u);
        i = i + 1;
    }
    proof {
        assert(update_views(updates@) =~= batch);
    }
    // resolve every referenced (validator, height) pair, or abort whole
    let voters = get_voters(&updates);
    let vn = voters.len();
    let mut j: usize = 0;
    while j < vn
        invariant
            j <= vn,
            vn == voters@.len(),
            voting_powers.wf(),
            store.wf(),
            store.tallies@ == old(store).tallies@,
            store.balances@ == old(store).balances@,
            store.supplies@ == old(store).supplies@,
            events@.len() > 0,
            batch == events_batch(events@),
            update_views(updates@) == batch,
            forall|p: int| #![trigger voters@[p]]
                0 <= p < voters@.len() ==> batch_pairs(update_views(updates@)).contains(
                    voters@[p],
                ),
            forall|pr: (Address, BlockHeight)|
                #![trigger batch_pairs(update_views(updates@)).contains(pr)]
                batch_pairs(update_views(updates@)).contains(pr) ==> exists|p: int|
                    0 <= p < voters@.len() && voters@[p] == pr,
            forall|p: int| #![trigger voters@[p]]
                0 <= p < j ==> voting_powers@.contains_key(voters@[p]),
        decreases vn - j,
    {
        let (v, h) = voters[j];
        if voting_powers.get(v, h).is_none() {
            proof {
                assert(voters@[j as int] == (v, h));
                assert(batch_pairs(update_views(updates@)).contains((v, h)));
                assert(!batch_covered(batch, voting_powers@)) by {
                    let pr = (v, h);
                    let k = choose|k: int|
                        0 <= k < batch.len() && (#[trigger] batch[k]).seen_by.contains_key(pr.0)
                            && batch[k].seen_by[pr.0] == pr.1;
                    assert(batch[k].seen_by.contains_key(v));
                }
            }
            return Err(EngineError::MissingWeight { validator: v, height: h });
        }
        j = j + 1;
    }
    proof {
        assert forall|pr: (Address, BlockHeight)|
            #![trigger batch_pairs(batch).contains(pr)]
            batch_pairs(batch).contains(pr) implies voting_powers@.contains_key(pr) by {
            assert(batch_pairs(update_views(updates@)).contains(pr));
            let p = choose|p: int| 0 <= p < voters@.len() && voters@[p] == pr;
        }
        lemma_batch_covered_pairs(batch, voting_powers@);
    }
    // merge the batch and act on the newly confirmed events
    let ghost old_t = store.tallies_map();
    let ghost bal0 = store.balances_map();
    let ghost sup0 = store.supplies_map();
    let mut changed = match apply_updates(store, updates, voting_powers, current_epoch) {
        Ok(ck) => ck,
        Err(e) => {
            proof {
                assert(update_views(updates@) == batch);
                if e == (EngineError::ActuationFailure) {
                    // the merge completed, a credit genuinely failed, and
                    // everything applied before the failure stays applied
                    assert(merge_post(old_t, batch, voting_powers@, current_epoch,
                        store.tallies_map()));
                    let csw = choose|cs: Seq<EventBodyV>|
                        #![trigger spec_actuate_seq(bal0, sup0, cs)]
                        {
                            &&& cs_distinct(cs)
                            &&& confirmed_set_matches(
                                old_t,
                                batch,
                                voting_powers@,
                                current_epoch,
                                cs,
                            )
                            &&& cs_batch_ordered(batch, cs)
                            &&& spec_actuate_seq(bal0, sup0, cs) is None
                            &&& actuation_halted(
                                bal0,
                                sup0,
                                cs,
                                store.balances_map(),
                                store.supplies_map(),
                            )
                        };
                }
            }
            return Err(e);
        },
    };
    let ghost mid_t = store.tallies_map();
    let ghost mid_bal = store.balances_map();
    let ghost mid_sup = store.supplies_map();
    let ghost pre_ck = changed@;
    // sweep the records that aged past the unbonding window
    let tck = timeout_events(store, current_epoch, unbonding_len);
    proof {
        assert(tck@ == expired_keys(mid_t, current_epoch, unbonding_len));
    }
    changed.extend(tck);
    proof {
        assert(merge_post(old_t, batch, voting_powers@, current_epoch, mid_t));
        assert(timeout_filter(mid_t, current_epoch, unbonding_len, store.tallies_map()));
        assert(store.balances_map() == mid_bal);
        assert(store.supplies_map() == mid_sup);
        let cs = choose|cs: Seq<EventBodyV>|
            #![trigger spec_actuate_seq(bal0, sup0, cs)]
            {
                &&& cs_distinct(cs)
                &&& confirmed_set_matches(old_t, batch, voting_powers@, current_epoch, cs)
                &&& cs_batch_ordered(batch, cs)
                &&& spec_actuate_seq(bal0, sup0, cs) == Some((mid_bal, mid_sup))
                &&& pre_ck == merge_changed(old_t, batch, voting_powers@, current_epoch).union(
                    actuate_keys(cs),
                )
            };
        assert(changed@ =~= merge_changed(old_t, batch, voting_powers@, current_epoch).union(
            actuate_keys(cs),
        ).union(expired_keys(mid_t, current_epoch, unbonding_len)));
        assert(derived_tx_post(
            old_t,
            bal0,
            sup0,
            batch,
            voting_powers@,
            current_epoch,
            unbonding_len,
            store.tallies_map(),
            store.balances_map(),
            store.supplies_map(),
            changed@,
        ));
    }
    Ok(TxResult { gas_used: 0, changed_keys: changed })
}

} // verus!
