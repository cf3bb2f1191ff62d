//! Storage locations and the set of keys changed by one processing pass.
//!
//! Each recorded event owns a prefix of five locations (body, seen, seen-by,
//! voting-power, epoch); confirmed transfers touch balance and supply
//! locations.  A [`ChangedKeys`] value is a duplicate-free collection of
//! locations whose mathematical value is a set: the order in which keys were
//! inserted carries no meaning.

use vstd::prelude::*;

verus! {

use crate::types::{Address, EthAddress, EventBody, EventBodyV};

/// One storage location.
#[derive(Debug)]
pub enum StorageKey {
    /// The serialized event payload.
    Body(EventBody),
    /// The cumulative "seen" flag.
    Seen(EventBody),
    /// The set of (validator, height) votes.
    SeenBy(EventBody),
    /// The cumulative fractional voting power.
    VotingPower(EventBody),
    /// The epoch at which the record was created.
    Epoch(EventBody),
    /// A minted balance of `asset` held by `receiver`.
    Balance { asset: EthAddress, receiver: Address },
    /// The running minted supply of `asset`.
    Supply { asset: EthAddress },
}

/// The mathematical value of a [`StorageKey`].
#[verifier::ext_equal]
pub ghost enum StorageKeyV {
    Body(EventBodyV),
    Seen(EventBodyV),
    SeenBy(EventBodyV),
    VotingPower(EventBodyV),
    Epoch(EventBodyV),
    Balance { asset: EthAddress, receiver: Address },
    Supply { asset: EthAddress },
}

impl View for StorageKey {
    type V = StorageKeyV;

    open spec fn view(&self) -> StorageKeyV {
        match self {
            StorageKey::Body(b) => StorageKeyV::Body(b@),
            StorageKey::Seen(b) => StorageKeyV::Seen(b@),
            StorageKey::SeenBy(b) => StorageKeyV::SeenBy(b@),
            StorageKey::VotingPower(b) => StorageKeyV::VotingPower(b@),
            StorageKey::Epoch(b) => StorageKeyV::Epoch(b@),
            StorageKey::Balance { asset, receiver } => StorageKeyV::Balance {
                asset: *asset,
                receiver: *receiver,
            },
            StorageKey::Supply { asset } => StorageKeyV::Supply { asset: *asset },
        }
    }
}

impl Clone for StorageKey {
    /// Cloning preserves the location.
    fn clone(&self) -> (res: Self)
        ensures
            res@ == self@,
    {
        match self {
            StorageKey::Body(b) => StorageKey::Body(b.clone()),
            StorageKey::Seen(b) => StorageKey::Seen(b.clone()),
            StorageKey::SeenBy(b) => StorageKey::SeenBy(b.clone()),
            StorageKey::VotingPower(b) => StorageKey::VotingPower(b.clone()),
            StorageKey::Epoch(b) => StorageKey::Epoch(b.clone()),
            StorageKey::Balance { asset, receiver } => StorageKey::Balance {
                asset: *asset,
                receiver: *receiver,
            },
            StorageKey::Supply { asset } => StorageKey::Supply { asset: *asset },
        }
    }
}

impl PartialEq for StorageKey {
    /// Equality of locations is equality of their values.
    fn eq(&self, other: &Self) -> (r: bool) {
        match (self, other) {
            (StorageKey::Body(a), StorageKey::Body(b)) => a == b,
            (StorageKey::Seen(a), StorageKey::Seen(b)) => a == b,
            (StorageKey::SeenBy(a), StorageKey::SeenBy(b)) => a == b,
            (StorageKey::VotingPower(a), StorageKey::VotingPower(b)) => a == b,
            (StorageKey::Epoch(a), StorageKey::Epoch(b)) => a == b,
            (
                StorageKey::Balance { asset: a1, receiver: r1 },
                StorageKey::Balance { asset: a2, receiver: r2 },
            ) => a1 == a2 && r1 == r2,
            (StorageKey::Supply { asset: a1 }, StorageKey::Supply { asset: a2 }) => a1 == a2,
            _ => false,
        }
    }
}

impl vstd::std_specs::cmp::PartialEqSpecImpl for StorageKey {
    open spec fn obeys_eq_spec() -> bool {
        true
    }

    open spec fn eq_spec(&self, other: &Self) -> bool {
        self@ == other@
    }
}

/// The set a sequence of keys stands for.
pub open spec fn key_set(s: Seq<StorageKey>) -> Set<StorageKeyV>
    decreases s.len(),
{
    if s.len() == 0 {
        Set::empty()
    } else {
        key_set(s.drop_last()).insert(s.last()@)
    }
}

/// No two keys of the sequence share a value.
pub open spec fn keys_distinct(s: Seq<StorageKey>) -> bool {
    forall|i: int, j: int| 0 <= i < j < s.len() ==> s[i]@ != s[j]@
}

/// What [`key_set`] contains.
pub proof fn lemma_key_set(s: Seq<StorageKey>)
    ensures
        key_set(s).finite(),
        forall|k: StorageKeyV|
            key_set(s).contains(k) <==> exists|i: int| 0 <= i < s.len() && (#[trigger] s[i])@ == k,
        keys_distinct(s) ==> key_set(s).len() == s.len(),
    decreases s.len(),
{
    if s.len() == 0 {
    } else {
        let pre = s.drop_last();
        lemma_key_set(pre);
        assert forall|k: StorageKeyV| key_set(s).contains(k) implies exists|i: int|
            0 <= i < s.len() && (#[trigger] s[i])@ == k by {
            if k == s.last()@ {
                assert(s[s.len() - 1]@ == k);
            } else {
                let i = choose|i: int| 0 <= i < pre.len() && (#[trigger] pre[i])@ == k;
                assert(s[i]@ == k);
            }
        }
        assert forall|k: StorageKeyV|
            (exists|i: int| 0 <= i < s.len() && (#[trigger] s[i])@ == k) implies key_set(
            s,
        ).contains(k) by {
            let i = choose|i: int| 0 <= i < s.len() && (#[trigger] s[i])@ == k;
            if i < s.len() - 1 {
                assert(pre[i]@ == k);
            }
        }
        if keys_distinct(s) {
            assert(keys_distinct(pre));
            if key_set(pre).contains(s.last()@) {
                let i = choose|i: int| 0 <= i < pre.len() && (#[trigger] pre[i])@ == s.last()@;
                assert(s[i]@ == s[s.len() - 1]@);
                assert(false);
            }
        }
    }
}

/// An ordered, duplicate-free collection of changed storage locations.
#[derive(Debug)]
pub struct ChangedKeys {
    pub keys: Vec<StorageKey>,
}

impl View for ChangedKeys {
    type V = Set<StorageKeyV>;

    open spec fn view(&self) -> Set<StorageKeyV> {
        key_set(self.keys@)
    }
}

impl ChangedKeys {
    /// No two held keys share a value.
    pub open spec fn wf(&self) -> bool {
        keys_distinct(self.keys@)
    }

    /// The empty collection.
    pub fn new() -> (r: Self)
        ensures
            r.wf(),
            r@ == Set::<StorageKeyV>::empty(),
    {
        ChangedKeys { keys: Vec::new() }
    }

    /// How many distinct locations were changed.
    pub fn len(&self) -> (r: usize)
        requires
            self.wf(),
        ensures
            r == self@.len(),
    {
        proof {
            lemma_key_set(self.keys@);
        }
        self.keys.len()
    }

    /// Whether no location was changed.
    pub fn is_empty(&self) -> (r: bool)
        requires
            self.wf(),
        ensures
            r == (self@ =~= Set::<StorageKeyV>::empty()),
    {
        proof {
            lemma_key_set(self.keys@);
            if self.keys@.len() > 0 {
                assert(self@.contains(self.keys@[0]@));
            }
        }
        self.keys.len() == 0
    }

    /// Whether `k` is among the changed locations.
    pub fn contains(&self, k: &StorageKey) -> (r: bool)
        ensures
            r == self@.contains(k@),
    {
        proof {
            lemma_key_set(self.keys@);
        }
        let n = self.keys.len();
        let mut i: usize = 0;
        while i < n
            invariant
                i <= n,
                n == self.keys@.len(),
                forall|p: int| 0 <= p < i ==> (#[trigger] self.keys@[p])@ != k@,
            decreases n - i,
        {
            if &self.keys[i] == k {
                proof {
                    lemma_key_set(self.keys@);
                    assert(self.keys@[i as int]@ == k@);
                }
                return true;
            }
            i = i + 1;
        }
        proof {
            lemma_key_set(self.keys@);
            if self@.contains(k@) {
                let p = choose|p: int| 0 <= p < self.keys@.len() && (#[trigger] self.keys@[p])@ == k@;
            }
        }
        false
    }

    /// Add a location; adding one already present changes nothing.
    pub fn insert(&mut self, k: StorageKey)
        requires
            old(self).wf(),
        ensures
            final(self).wf(),
            final(self)@ == old(self)@.insert(k@),
    {
        proof {
            lemma_key_set(self.keys@);
        }
        if self.contains(&k) {
            proof {
                assert(self@ =~= self@.insert(k@));
            }
        } else {
            let ghost orig = self.keys@;
            self.keys.push(k);
            proof {
                assert(self.keys@.drop_last() =~= orig);
                lemma_key_set(orig);
                assert forall|i: int, j: int| 0 <= i < j < self.keys@.len() implies (
                #[trigger] self.keys@[i])@ != (#[trigger] self.keys@[j])@ by {
                    if j == self.keys@.len() - 1 {
                        assert(orig[i]@ != k@);
                    }
                }
            }
        }
    }

    /// Add every location of `other`.
    pub fn extend(&mut self, other: ChangedKeys)
        requires
            old(self).wf(),
            other.wf(),
        ensures
            final(self).wf(),
            final(self)@ == old(self)@.union(other@),
    {
        let mut rest = other;
        while rest.keys.len() > 0
            invariant
                self.wf(),
                rest.wf(),
                self@.union(key_set(rest.keys@)) == old(self)@.union(key_set(other.keys@)),
            decreases rest.keys@.len(),
        {
            let ghost before_self = self@;
            let ghost before_rest = rest.keys@;
            match rest.keys.pop() {
                Some(k) => {
                    self.insert(k);
                    proof {
                        assert(rest.keys@ =~= before_rest.drop_last());
                        assert(self@.union(key_set(rest.keys@)) =~= before_self.union(
                            key_set(before_rest),
                        ));
                    }
                },
                None => {
                    proof {
                        assert(false);
                    }
                },
            }
        }
        proof {
            assert(key_set(rest.keys@) =~= Set::<StorageKeyV>::empty());
            assert(self@ =~= self@.union(key_set(rest.keys@)));
        }
    }

    /// Add the whole key prefix of one recorded event.
    pub fn insert_event_prefix(&mut self, body: &EventBody)
        requires
            old(self).wf(),
        ensures
            final(self).wf(),
            final(self)@ == old(self)@.insert(StorageKeyV::Body(body@)).insert(
                StorageKeyV::Seen(body@),
            ).insert(StorageKeyV::SeenBy(body@)).insert(StorageKeyV::VotingPower(body@)).insert(
                StorageKeyV::Epoch(body@),
            ),
    {
        self.insert(StorageKey::Body(body.clone()));
        self.insert(StorageKey::Seen(body.clone()));
        self.insert(StorageKey::SeenBy(body.clone()));
        self.insert(StorageKey::VotingPower(body.clone()));
        self.insert(StorageKey::Epoch(body.clone()));
    }
}

/// The set of the five locations of one event's prefix.
pub open spec fn event_prefix_set(b: EventBodyV) -> Set<StorageKeyV> {
    Set::empty().insert(StorageKeyV::Body(b)).insert(StorageKeyV::Seen(b)).insert(
        StorageKeyV::SeenBy(b),
    ).insert(StorageKeyV::VotingPower(b)).insert(StorageKeyV::Epoch(b))
}

} // verus!
