//! The engine's laws, stated and proved once and for all: duplicate votes
//! are idempotent, the merge result is independent of batch order, voting
//! power never decreases, exactly two thirds does not confirm, an event is
//! confirmed (and acted on) at most once in its lifetime, and a record
//! survives exactly the unbonding window.

use vstd::prelude::*;

verus! {

use crate::engine::{
    batch_has_body, batch_min_height, batch_vote, batch_vote_height, batch_votes_map,
    lemma_batch_min_exists, lemma_batch_min_unique, lemma_batch_permutation,
    lemma_batch_covered_votes, lemma_power_fold_ge, lemma_covered_seq, batch_covered,
    powers_values_wf, merge_post, spec_confirmed, spec_merge_record, spec_newly_confirmed,
    spec_old_record, sorted_votes_of, is_sorted_votes_seq, merged_power, timeout_filter,
    spec_expired, cs_batch_ordered, cs_distinct, confirmed_set_matches, first_occurrence,
    EthMsgUpdateV,
};
use crate::power::FractionalVotingPower;
use crate::store::{VoteRecord, VoteRecordV};
use crate::types::{Address, BlockHeight, Epoch, EventBodyV};

/// A finite non-empty set of addresses has a maximal element.
proof fn lemma_addr_set_max(s: Set<Address>)
    requires
        s.finite(),
        s.len() > 0,
    ensures
        exists|v: Address|
            #![trigger s.contains(v)]
            s.contains(v) && forall|w: Address| s.contains(w) ==> w.0 <= v.0,
    decreases s.len(),
{
    let x = s.choose();
    assert(s.contains(x));
    let s2 = s.remove(x);
    if s2.len() == 0 {
        assert(s2 =~= Set::<Address>::empty()) by {
            if exists|w: Address| s2.contains(w) {
                let w = choose|w: Address| s2.contains(w);
                assert(s2.remove(w).len() + 1 == s2.len());
            }
        }
        assert(s.contains(x) && forall|w: Address| s.contains(w) ==> w.0 <= x.0) by {
            assert forall|w: Address| s.contains(w) implies w.0 <= x.0 by {
                if w != x {
                    assert(s2.contains(w));
                }
            }
        }
    } else {
        lemma_addr_set_max(s2);
        let v2b = choose|v: Address|
            #![trigger s2.contains(v)]
            s2.contains(v) && (forall|w: Address| s2.contains(w) ==> w.0 <= v.0);
        let m = if x.0 >= v2b.0 {
            x
        } else {
            v2b
        };
        assert(s.contains(m));
        assert forall|w: Address| s.contains(w) implies w.0 <= m.0 by {
            if w != x {
                assert(s2.contains(w));
            }
        }
    }
}

/// Every vote map drawn from a finite domain has a sorted representation.
proof fn lemma_sorted_rep_exists(m: Map<Address, BlockHeight>)
    requires
        m.dom().finite(),
    ensures
        exists|ns: Seq<(Address, BlockHeight)>| is_sorted_votes_seq(ns, m),
    decreases m.dom().len(),
{
    if m.dom().len() == 0 {
        let ns = Seq::<(Address, BlockHeight)>::empty();
        assert(crate::votes::vote_map(ns) =~= m) by {
            if exists|w: Address| m.dom().contains(w) {
                let w = choose|w: Address| m.dom().contains(w);
                assert(m.dom().remove(w).len() + 1 == m.dom().len());
            }
        }
        assert(is_sorted_votes_seq(ns, m));
    } else {
        lemma_addr_set_max(m.dom());
        let v = choose|v: Address|
            #![trigger m.dom().contains(v)]
            m.dom().contains(v) && (forall|w: Address| m.dom().contains(w) ==> w.0 <= v.0);
        let m2 = m.remove(v);
        lemma_sorted_rep_exists(m2);
        let ns2 = choose|ns: Seq<(Address, BlockHeight)>| is_sorted_votes_seq(ns, m2);
        let ns = ns2.push((v, m[v]));
        crate::votes::lemma_vote_map(ns2);
        assert forall|i: int, j: int| 0 <= i < j < ns.len() implies ns[i].0.0 < ns[j].0.0 by {
            if j == ns.len() - 1 {
                assert(ns[i] == ns2[i]);
                assert(crate::votes::vote_map(ns2).contains_key(ns2[i].0));
                assert(m2.contains_key(ns2[i].0));
                assert(ns2[i].0.0 <= v.0 && ns2[i].0 != v);
            } else {
                assert(ns[i] == ns2[i] && ns[j] == ns2[j]);
            }
        }
        assert(ns.drop_last() =~= ns2);
        assert(crate::votes::vote_map(ns) =~= m);
        assert(is_sorted_votes_seq(ns, m));
    }
}

/// All the validators a batch mentions.
pub open spec fn all_voters(s: Seq<EthMsgUpdateV>) -> Set<Address>
    decreases s.len(),
{
    if s.len() == 0 {
        Set::empty()
    } else {
        all_voters(s.drop_last()).union(s.last().seen_by.dom())
    }
}

/// With finite per-update vote sets, the batch's voter set is finite and
/// contains every voter any update mentions.
pub proof fn lemma_all_voters(s: Seq<EthMsgUpdateV>)
    requires
        forall|i: int| 0 <= i < s.len() ==> (#[trigger] s[i]).seen_by.dom().finite(),
    ensures
        all_voters(s).finite(),
        forall|i: int, v: Address|
            #![trigger s[i].seen_by.contains_key(v)]
            0 <= i < s.len() && s[i].seen_by.contains_key(v) ==> all_voters(s).contains(v),
    decreases s.len(),
{
    if s.len() == 0 {
    } else {
        let pre = s.drop_last();
        assert(forall|i: int| 0 <= i < pre.len() ==> pre[i] == #[trigger] s[i]);
        lemma_all_voters(pre);
        assert(s[s.len() - 1].seen_by.dom().finite());
        assert forall|i: int, v: Address|
            #![trigger s[i].seen_by.contains_key(v)]
            0 <= i < s.len() && s[i].seen_by.contains_key(v) implies all_voters(s).contains(v) by {
            if i < s.len() - 1 {
                assert(pre[i].seen_by.contains_key(v));
                assert(all_voters(pre).contains(v));
            } else {
                assert(s.last().seen_by.dom().contains(v));
            }
        }
    }
}

/// Two batches that agree on which events they carry and on the grouped
/// votes they cast produce the same tally map.
pub proof fn lemma_merge_post_functional(
    old_t: Map<EventBodyV, VoteRecordV>,
    batch1: Seq<EthMsgUpdateV>,
    batch2: Seq<EthMsgUpdateV>,
    powers: Map<(Address, BlockHeight), FractionalVotingPower>,
    epoch: Epoch,
    new1: Map<EventBodyV, VoteRecordV>,
    new2: Map<EventBodyV, VoteRecordV>,
)
    requires
        forall|b: EventBodyV| #![trigger batch_has_body(batch1, b)]
            batch_has_body(batch1, b) == batch_has_body(batch2, b),
        forall|b: EventBodyV| #![trigger batch_votes_map(batch1, b)]
            batch_votes_map(batch1, b) == batch_votes_map(batch2, b),
        merge_post(old_t, batch1, powers, epoch, new1),
        merge_post(old_t, batch2, powers, epoch, new2),
    ensures
        new1 == new2,
{
    assert forall|b: EventBodyV|
        new1.contains_key(b) == new2.contains_key(b) && (new1.contains_key(b) ==> new1[b]
            == new2[b]) by {
        if batch_has_body(batch1, b) {
            assert(batch_has_body(batch2, b));
            assert(Some(new1[b]) == spec_merge_record(
                spec_old_record(old_t, b),
                batch_votes_map(batch1, b),
                powers,
                epoch,
            ));
            assert(Some(new2[b]) == spec_merge_record(
                spec_old_record(old_t, b),
                batch_votes_map(batch2, b),
                powers,
                epoch,
            ));
        } else {
            assert(!batch_has_body(batch2, b));
        }
    }
    assert(new1 =~= new2);
}

/// Order independence: merging any permutation of a batch of updates into
/// the same store yields the same vote records and seen flags.
pub proof fn lemma_order_independence(
    old_t: Map<EventBodyV, VoteRecordV>,
    batch1: Seq<EthMsgUpdateV>,
    batch2: Seq<EthMsgUpdateV>,
    powers: Map<(Address, BlockHeight), FractionalVotingPower>,
    epoch: Epoch,
    new1: Map<EventBodyV, VoteRecordV>,
    new2: Map<EventBodyV, VoteRecordV>,
)
    requires
        batch1.to_multiset() == batch2.to_multiset(),
        merge_post(old_t, batch1, powers, epoch, new1),
        merge_post(old_t, batch2, powers, epoch, new2),
    ensures
        new1 == new2,
{
    lemma_batch_permutation(batch1, batch2);
    lemma_merge_post_functional(old_t, batch1, batch2, powers, epoch, new1, new2);
}

/// A batch extended by a copy of an update it already carries casts exactly
/// the same votes.
pub proof fn lemma_duplicate_update_same_votes(batch: Seq<EthMsgUpdateV>, u: EthMsgUpdateV)
    requires
        batch.contains(u),
    ensures
        forall|b: EventBodyV| #![trigger batch_has_body(batch.push(u), b)]
            batch_has_body(batch.push(u), b) == batch_has_body(batch, b),
        forall|b: EventBodyV| #![trigger batch_votes_map(batch.push(u), b)]
            batch_votes_map(batch.push(u), b) == batch_votes_map(batch, b),
{
    let t = batch.push(u);
    let n = batch.len();
    let iu = choose|iu: int| 0 <= iu < batch.len() && batch[iu] == u;
    assert(forall|i: int| 0 <= i < n ==> t[i] == #[trigger] batch[i]);
    assert(t[n as int] == u);
    assert forall|b: EventBodyV| #![trigger batch_has_body(t, b)]
        batch_has_body(t, b) == batch_has_body(batch, b) by {
        if batch_has_body(t, b) {
            let i = choose|i: int| 0 <= i < t.len() && (#[trigger] t[i]).body == b;
            if i < n {
                assert(batch[i].body == b);
            } else {
                assert(batch[iu].body == b);
            }
        }
        if batch_has_body(batch, b) {
            let i = choose|i: int| 0 <= i < batch.len() && (#[trigger] batch[i]).body == b;
            assert(t[i].body == b);
        }
    }
    assert forall|b: EventBodyV| #![trigger batch_votes_map(t, b)]
        batch_votes_map(t, b) == batch_votes_map(batch, b) by {
        assert forall|v: Address| #![trigger batch_vote(t, b, v)]
            batch_vote(t, b, v) == batch_vote(batch, b, v) by {
            if batch_vote(t, b, v) {
                let i = choose|i: int|
                    0 <= i < t.len() && (#[trigger] t[i]).body == b && t[i].seen_by.contains_key(
                        v,
                    );
                if i < n {
                    assert(batch[i].body == b && batch[i].seen_by.contains_key(v));
                } else {
                    assert(batch[iu].body == b && batch[iu].seen_by.contains_key(v));
                }
            }
            if batch_vote(batch, b, v) {
                let i = choose|i: int|
                    0 <= i < batch.len() && (#[trigger] batch[i]).body == b
                        && batch[i].seen_by.contains_key(v);
                assert(t[i].body == b && t[i].seen_by.contains_key(v));
            }
        }
        assert forall|v: Address, h: BlockHeight|
            #![trigger batch_min_height(t, b, v, h)]
            batch_min_height(t, b, v, h) == batch_min_height(batch, b, v, h) by {
            if batch_min_height(t, b, v, h) {
                let i = choose|i: int|
                    0 <= i < t.len() && (#[trigger] t[i]).body == b && t[i].seen_by.contains_key(
                        v,
                    ) && t[i].seen_by[v] == h;
                if i < n {
                    assert(batch[i].body == b && batch[i].seen_by.contains_key(v)
                        && batch[i].seen_by[v] == h);
                } else {
                    assert(batch[iu].body == b && batch[iu].seen_by.contains_key(v)
                        && batch[iu].seen_by[v] == h);
                }
                assert forall|p: int|
                    0 <= p < batch.len() && (#[trigger] batch[p]).body == b
                        && batch[p].seen_by.contains_key(v) implies h.0 <= batch[p].seen_by[v].0 by {
                    assert(t[p].body == b && t[p].seen_by.contains_key(v));
                }
                assert(batch_min_height(batch, b, v, h));
            }
            if batch_min_height(batch, b, v, h) {
                let i = choose|i: int|
                    0 <= i < batch.len() && (#[trigger] batch[i]).body == b
                        && batch[i].seen_by.contains_key(v) && batch[i].seen_by[v] == h;
                assert(t[i].body == b && t[i].seen_by.contains_key(v) && t[i].seen_by[v] == h);
                assert forall|p: int|
                    0 <= p < t.len() && (#[trigger] t[p]).body == b && t[p].seen_by.contains_key(
                        v,
                    ) implies h.0 <= t[p].seen_by[v].0 by {
                    if p < n {
                        assert(batch[p].body == b && batch[p].seen_by.contains_key(v));
                    } else {
                        assert(batch[iu].body == b && batch[iu].seen_by.contains_key(v));
                    }
                }
                assert(batch_min_height(t, b, v, h));
            }
        }
        assert forall|v: Address| #![trigger batch_vote(t, b, v)] batch_vote(t, b, v) implies
            batch_vote_height(t, b, v) == batch_vote_height(batch, b, v) by {
            lemma_batch_min_exists(t, b, v);
            lemma_batch_min_exists(batch, b, v);
            assert(batch_min_height(batch, b, v, batch_vote_height(t, b, v)));
            lemma_batch_min_unique(
                batch,
                b,
                v,
                batch_vote_height(t, b, v),
                batch_vote_height(batch, b, v),
            );
        }
        assert(batch_votes_map(t, b) =~= batch_votes_map(batch, b));
    }
}

/// Idempotence within one batch: submitting the same update twice in one
/// batch changes the resulting records exactly as submitting it once.
pub proof fn lemma_duplicate_vote_in_batch(
    old_t: Map<EventBodyV, VoteRecordV>,
    batch: Seq<EthMsgUpdateV>,
    u: EthMsgUpdateV,
    powers: Map<(Address, BlockHeight), FractionalVotingPower>,
    epoch: Epoch,
    new1: Map<EventBodyV, VoteRecordV>,
    new2: Map<EventBodyV, VoteRecordV>,
)
    requires
        batch.contains(u),
        merge_post(old_t, batch, powers, epoch, new1),
        merge_post(old_t, batch.push(u), powers, epoch, new2),
    ensures
        new1 == new2,
{
    lemma_duplicate_update_same_votes(batch, u);
    assert forall|b: EventBodyV| #![trigger batch_has_body(batch, b)]
        batch_has_body(batch, b) == batch_has_body(batch.push(u), b) by {}
    lemma_merge_post_functional(old_t, batch.push(u), batch, powers, epoch, new2, new1);
}

/// Idempotence across batches: re-submitting votes whose validators are all
/// already recorded for the event leaves the store exactly as it was.
pub proof fn lemma_duplicate_vote_across_batches(
    old_t: Map<EventBodyV, VoteRecordV>,
    u: EthMsgUpdateV,
    powers: Map<(Address, BlockHeight), FractionalVotingPower>,
    epoch: Epoch,
    new_t: Map<EventBodyV, VoteRecordV>,
)
    requires
        merge_post(old_t, seq![u], powers, epoch, new_t),
        old_t.contains_key(u.body),
        forall|v: Address| #![trigger u.seen_by.contains_key(v)]
            u.seen_by.contains_key(v) ==> old_t[u.body].seen_by.contains_key(v),
    ensures
        new_t == old_t,
{
    let s = seq![u];
    assert(s[0] == u);
    assert(batch_has_body(s, u.body));
    let bvm = batch_votes_map(s, u.body);
    assert forall|v: Address| bvm.contains_key(v) implies old_t[u.body].seen_by.contains_key(
        v,
    ) by {
        assert(batch_vote(s, u.body, v));
        let i = choose|i: int|
            0 <= i < s.len() && (#[trigger] s[i]).body == u.body && s[i].seen_by.contains_key(v);
        assert(s[i] == u);
    }
    let r = old_t[u.body];
    let net = bvm.remove_keys(r.seen_by.dom());
    assert(net =~= Map::<Address, BlockHeight>::empty());
    assert(spec_merge_record(spec_old_record(old_t, u.body), bvm, powers, epoch) == Some(r));
    assert(new_t[u.body] == r);
    assert forall|b: EventBodyV|
        new_t.contains_key(b) == old_t.contains_key(b) && (new_t.contains_key(b) ==> new_t[b]
            == old_t[b]) by {
        if b != u.body {
            if batch_has_body(s, b) {
                let i = choose|i: int| 0 <= i < s.len() && (#[trigger] s[i]).body == b;
                assert(s[i] == u);
                assert(false);
            }
        }
    }
    assert(new_t =~= old_t);
}

/// Monotonicity: within a covered merge, an event's cumulative voting power
/// never decreases.
pub proof fn lemma_voting_power_monotonic(
    old_t: Map<EventBodyV, VoteRecordV>,
    batch: Seq<EthMsgUpdateV>,
    powers: Map<(Address, BlockHeight), FractionalVotingPower>,
    epoch: Epoch,
    new_t: Map<EventBodyV, VoteRecordV>,
    b: EventBodyV,
)
    requires
        merge_post(old_t, batch, powers, epoch, new_t),
        batch_covered(batch, powers),
        powers_values_wf(powers),
        forall|i: int| 0 <= i < batch.len() ==> (#[trigger] batch[i]).seen_by.dom().finite(),
        old_t.contains_key(b),
        old_t[b].voting_power.wf(),
    ensures
        new_t.contains_key(b),
        new_t[b].voting_power.wf(),
        new_t[b].voting_power.spec_ge(old_t[b].voting_power),
{
    let p0 = old_t[b].voting_power;
    assert(p0.spec_ge(p0)) by (nonlinear_arith)
        requires
            p0.denom >= 1,
    ;
    if batch_has_body(batch, b) {
        let r = old_t[b];
        let bvm = batch_votes_map(batch, b);
        let net = bvm.remove_keys(r.seen_by.dom());
        if net == Map::<Address, BlockHeight>::empty() {
            assert(new_t[b] == r);
        } else {
            lemma_batch_covered_votes(batch, powers, b);
            crate::engine::lemma_covered_remove(bvm, r.seen_by.dom(), powers);
            // the net-new votes have a canonical sorted form: every voter
            // comes from some update's finite vote set
            lemma_all_voters(batch);
            assert(net.dom().subset_of(all_voters(batch))) by {
                assert forall|v: Address| net.dom().contains(v) implies all_voters(
                    batch,
                ).contains(v) by {
                    assert(batch_vote(batch, b, v));
                    let i = choose|i: int|
                        0 <= i < batch.len() && (#[trigger] batch[i]).body == b
                            && batch[i].seen_by.contains_key(v);
                }
            }
            vstd::set_lib::lemma_len_subset(net.dom(), all_voters(batch));
            lemma_sorted_rep_exists(net);
            let ns = sorted_votes_of(net);
            assert(is_sorted_votes_seq(ns, net));
            assert(crate::votes::vote_map(ns) == net);
            lemma_covered_seq(ns, powers);
            lemma_power_fold_ge(p0, ns, powers, new_t[b].voting_power);
        }
    } else {
        assert(new_t.contains_key(b) == old_t.contains_key(b));
        assert(new_t[b] == old_t[b]);
    }
}

/// Exactly two thirds does not confirm: a well-formed record whose power is
/// exactly two thirds is not seen.
pub proof fn lemma_exact_two_thirds_not_seen(r: VoteRecord)
    requires
        r.wf(),
        3 * r.voting_power.numer == 2 * r.voting_power.denom,
    ensures
        !r.seen,
{
    crate::power::lemma_exact_two_thirds_not_confirmed(r.voting_power);
}

/// A first observation confirms exactly when its power strictly exceeds two
/// thirds.
pub proof fn lemma_first_merge_confirms(
    old_t: Map<EventBodyV, VoteRecordV>,
    batch: Seq<EthMsgUpdateV>,
    powers: Map<(Address, BlockHeight), FractionalVotingPower>,
    epoch: Epoch,
    new_t: Map<EventBodyV, VoteRecordV>,
    b: EventBodyV,
)
    requires
        merge_post(old_t, batch, powers, epoch, new_t),
        batch_has_body(batch, b),
        !old_t.contains_key(b),
    ensures
        new_t.contains_key(b),
        spec_confirmed(old_t, batch, powers, epoch, b) == new_t[b].voting_power.spec_exceeds_threshold(),
        new_t[b].seen == new_t[b].voting_power.spec_exceeds_threshold(),
{
}

/// Once an event is seen it stays seen through every later merge.
pub proof fn lemma_seen_is_sticky(
    old_t: Map<EventBodyV, VoteRecordV>,
    batch: Seq<EthMsgUpdateV>,
    powers: Map<(Address, BlockHeight), FractionalVotingPower>,
    epoch: Epoch,
    new_t: Map<EventBodyV, VoteRecordV>,
    b: EventBodyV,
)
    requires
        merge_post(old_t, batch, powers, epoch, new_t),
        old_t.contains_key(b),
        old_t[b].seen,
    ensures
        new_t.contains_key(b),
        new_t[b].seen,
{
    if batch_has_body(batch, b) {
        let r = old_t[b];
        let bvm = batch_votes_map(batch, b);
        let merged = spec_merge_record(spec_old_record(old_t, b), bvm, powers, epoch);
        assert(merged == Some(new_t[b]));
        let net = bvm.remove_keys(r.seen_by.dom());
        if net == Map::<Address, BlockHeight>::empty() {
            assert(new_t[b] == r);
        } else {
            assert(merged_power(r.voting_power, net, powers) is Some);
            assert(new_t[b].seen == (r.seen
                || merged_power(r.voting_power, net, powers)->0.spec_exceeds_threshold()));
        }
    } else {
        assert(new_t.contains_key(b) == old_t.contains_key(b));
        assert(new_t[b] == old_t[b]);
    }
}

/// Single actuation: an event confirmed by one merge pass is never reported
/// as newly confirmed by any later pass, so its side effects run once.
pub proof fn lemma_single_actuation(
    old_t: Map<EventBodyV, VoteRecordV>,
    batch1: Seq<EthMsgUpdateV>,
    powers1: Map<(Address, BlockHeight), FractionalVotingPower>,
    epoch1: Epoch,
    mid_t: Map<EventBodyV, VoteRecordV>,
    batch2: Seq<EthMsgUpdateV>,
    powers2: Map<(Address, BlockHeight), FractionalVotingPower>,
    epoch2: Epoch,
    new_t: Map<EventBodyV, VoteRecordV>,
    b: EventBodyV,
)
    requires
        merge_post(old_t, batch1, powers1, epoch1, mid_t),
        merge_post(mid_t, batch2, powers2, epoch2, new_t),
        spec_confirmed(old_t, batch1, powers1, epoch1, b),
    ensures
        !spec_confirmed(mid_t, batch2, powers2, epoch2, b),
{
    assert(mid_t.contains_key(b) && mid_t[b].seen) by {
        assert(batch_has_body(batch1, b));
        let nr = spec_merge_record(
            spec_old_record(old_t, b),
            batch_votes_map(batch1, b),
            powers1,
            epoch1,
        )->0;
        assert(spec_newly_confirmed(spec_old_record(old_t, b), nr));
        assert(mid_t[b] == nr);
    }
    if spec_confirmed(mid_t, batch2, powers2, epoch2, b) {
        let nr2 = spec_merge_record(
            spec_old_record(mid_t, b),
            batch_votes_map(batch2, b),
            powers2,
            epoch2,
        )->0;
        assert(spec_newly_confirmed(spec_old_record(mid_t, b), nr2));
        assert(!mid_t[b].seen);
    }
}

/// Two distinct sequences in batch order with the same members are the
/// same sequence.
proof fn lemma_fo_sorted_unique(
    batch: Seq<EthMsgUpdateV>,
    s1: Seq<EventBodyV>,
    s2: Seq<EventBodyV>,
)
    requires
        cs_distinct(s1),
        cs_distinct(s2),
        cs_batch_ordered(batch, s1),
        cs_batch_ordered(batch, s2),
        forall|b: EventBodyV| s1.contains(b) == #[trigger] s2.contains(b),
    ensures
        s1 == s2,
    decreases s1.len(),
{
    if s1.len() == 0 {
        if s2.len() > 0 {
            assert(s2[0] == s2[0]);
            assert(s2.contains(s2[0]));
            assert(s1.contains(s2[0]));
            let i = choose|i: int| 0 <= i < s1.len() && s1[i] == s2[0];
            assert(false);
        }
        assert(s1 =~= s2);
    } else {
        // the two last elements agree: each is the member with the latest
        // first appearance
        assert(s1[s1.len() - 1] == s1.last());
        assert(s1.contains(s1.last()));
        assert(s2.contains(s1.last()));
        let j = choose|j: int| 0 <= j < s2.len() && s2[j] == s1.last();
        assert(s2[s2.len() - 1] == s2.last());
        assert(s2.contains(s2.last()));
        assert(s1.contains(s2.last()));
        let k = choose|k: int| 0 <= k < s1.len() && s1[k] == s2.last();
        if j < s2.len() - 1 {
            assert(first_occurrence(batch, s2[j]) < first_occurrence(batch, s2[s2.len() - 1]));
            if k < s1.len() - 1 {
                assert(first_occurrence(batch, s1[k]) < first_occurrence(
                    batch,
                    s1[s1.len() - 1],
                ));
                assert(false);
            } else {
                assert(s1.last() == s2.last());
                assert(false);
            }
        }
        assert(s2.last() == s1.last());
        let p1 = s1.drop_last();
        let p2 = s2.drop_last();
        assert(forall|c: int| 0 <= c < p1.len() ==> p1[c] == #[trigger] s1[c]);
        assert(forall|c: int| 0 <= c < p2.len() ==> p2[c] == #[trigger] s2[c]);
        assert(cs_distinct(p1));
        assert(cs_distinct(p2));
        assert forall|c: int, d: int|
            #![trigger p1[c], p1[d]]
            0 <= c < d < p1.len() implies first_occurrence(batch, p1[c]) < first_occurrence(
            batch,
            p1[d],
        ) by {
            assert(p1[c] == s1[c] && p1[d] == s1[d]);
        }
        assert forall|c: int, d: int|
            #![trigger p2[c], p2[d]]
            0 <= c < d < p2.len() implies first_occurrence(batch, p2[c]) < first_occurrence(
            batch,
            p2[d],
        ) by {
            assert(p2[c] == s2[c] && p2[d] == s2[d]);
        }
        assert forall|b: EventBodyV| p1.contains(b) == #[trigger] p2.contains(b) by {
            if p1.contains(b) {
                let c = choose|c: int| 0 <= c < p1.len() && p1[c] == b;
                assert(s1[c] == b);
                assert(b != s1.last());
                assert(s1.contains(b));
                assert(s2.contains(b));
                let d = choose|d: int| 0 <= d < s2.len() && s2[d] == b;
                assert(d != s2.len() - 1);
                assert(p2[d] == b);
                assert(p2.contains(b));
            }
            if p2.contains(b) {
                let c = choose|c: int| 0 <= c < p2.len() && p2[c] == b;
                assert(s2[c] == b);
                assert(b != s2.last());
                assert(s2.contains(b));
                assert(s1.contains(b));
                let d = choose|d: int| 0 <= d < s1.len() && s1[d] == b;
                assert(d != s1.len() - 1);
                assert(p1[d] == b);
                assert(p1.contains(b));
            }
        }
        lemma_fo_sorted_unique(batch, p1, p2);
        assert(s1 =~= s2);
    }
}

/// Determinism of one pass: its distinctness, membership and batch-order
/// conditions admit exactly one confirmed sequence, so for a given store,
/// batch and oracle there is exactly one admissible outcome - in
/// particular, a pass cannot both succeed and report a failed credit.
pub proof fn lemma_confirmed_sequence_unique(
    old_t: Map<EventBodyV, VoteRecordV>,
    batch: Seq<EthMsgUpdateV>,
    powers: Map<(Address, BlockHeight), FractionalVotingPower>,
    epoch: Epoch,
    cs1: Seq<EventBodyV>,
    cs2: Seq<EventBodyV>,
)
    requires
        cs_distinct(cs1),
        cs_distinct(cs2),
        confirmed_set_matches(old_t, batch, powers, epoch, cs1),
        confirmed_set_matches(old_t, batch, powers, epoch, cs2),
        cs_batch_ordered(batch, cs1),
        cs_batch_ordered(batch, cs2),
    ensures
        cs1 == cs2,
{
    assert forall|b: EventBodyV| cs1.contains(b) == #[trigger] cs2.contains(b) by {
        assert(cs1.contains(b) == spec_confirmed(old_t, batch, powers, epoch, b));
    }
    lemma_fo_sorted_unique(batch, cs1, cs2);
}

/// Timeout correctness: a record created at epoch `e` with unbonding window
/// `w` is still present when the sweeper runs at epoch `e + w`, and deleted
/// when it runs at epoch `e + w + 1`.
pub proof fn lemma_timeout_boundary(
    mid_t: Map<EventBodyV, VoteRecordV>,
    b: EventBodyV,
    window: u64,
    at_window: Epoch,
    past_window: Epoch,
    kept_t: Map<EventBodyV, VoteRecordV>,
    swept_t: Map<EventBodyV, VoteRecordV>,
)
    requires
        mid_t.contains_key(b),
        at_window.0 == mid_t[b].recorded_epoch.0 + window,
        past_window.0 == mid_t[b].recorded_epoch.0 + window + 1,
        timeout_filter(mid_t, at_window, window, kept_t),
        timeout_filter(mid_t, past_window, window, swept_t),
    ensures
        kept_t.contains_key(b),
        kept_t[b] == mid_t[b],
        !swept_t.contains_key(b),
{
    assert(!spec_expired(mid_t[b], at_window, window));
    assert(spec_expired(mid_t[b], past_window, window));
}

} // verus!
