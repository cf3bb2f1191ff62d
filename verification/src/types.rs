//! Plain identities and the canonical event payload.
//!
//! Validators, block heights, epochs and asset identifiers are held as plain
//! 64-bit values; an [`EventBody`] is a closed tagged-variant payload whose
//! identity is its canonical serialization (see the `encoding` module).

use vstd::prelude::*;

verus! {

/// A validator (or receiver) account identity.
#[derive(Debug, Clone, Copy, PartialEq, Eq, Structural)]
pub struct Address(pub u64);

/// The foreign-chain block height at which a validator claims to have
/// observed an event.
#[derive(Debug, Clone, Copy, PartialEq, Eq, Structural)]
pub struct BlockHeight(pub u64);

/// An epoch of the economic security model.
#[derive(Debug, Clone, Copy, PartialEq, Eq, Structural)]
pub struct Epoch(pub u64);

/// A foreign-chain asset identity.
#[derive(Debug, Clone, Copy, PartialEq, Eq, Structural)]
pub struct EthAddress(pub u64);

/// One transfer carried by a foreign-chain event: `amount` units of `asset`
/// are to be credited to `receiver` once the event is confirmed.
#[derive(Debug, Clone, Copy, PartialEq, Eq, Structural)]
pub struct TransferToNamada {
    pub amount: u64,
    pub asset: EthAddress,
    pub receiver: Address,
}

/// The canonical, content-addressed payload of a foreign-chain event.
/// A closed tagged-variant type: dispatch over it stays exhaustive.
#[derive(Debug)]
pub enum EventBody {
    /// A batch of transfers to be minted on this chain.
    TransfersToNamada { nonce: u64, transfers: Vec<TransferToNamada> },
}

/// The mathematical value of an [`EventBody`].
#[verifier::ext_equal]
pub ghost enum EventBodyV {
    TransfersToNamada { nonce: u64, transfers: Seq<TransferToNamada> },
}

impl View for EventBody {
    type V = EventBodyV;

    open spec fn view(&self) -> EventBodyV {
        match self {
            EventBody::TransfersToNamada { nonce, transfers } => EventBodyV::TransfersToNamada {
                nonce: *nonce,
                transfers: transfers@,
            },
        }
    }
}

impl Clone for EventBody {
    /// Cloning preserves the payload's value.
    fn clone(&self) -> (res: Self)
        ensures
            res@ == self@,
    {
        match self {
            EventBody::TransfersToNamada { nonce, transfers } => {
                let mut ts: Vec<TransferToNamada> = Vec::new();
                let mut i: usize = 0;
                while i < transfers.len()
                    invariant
                        i <= transfers.len(),
                        ts@ == transfers@.subrange(0, i as int),
                    decreases transfers.len() - i,
                {
                    ts.push(transfers[i]);
                    proof {
                        assert(ts@ =~= transfers@.subrange(0, i + 1));
                    }
                    i = i + 1;
                }
                proof {
                    assert(ts@ =~= transfers@);
                }
                EventBody::TransfersToNamada { nonce: *nonce, transfers: ts }
            },
        }
    }
}

impl PartialEq for EventBody {
    /// Equality of payloads is equality of their values.
    fn eq(&self, other: &Self) -> (r: bool) {
        match (self, other) {
            (
                EventBody::TransfersToNamada { nonce: n1, transfers: t1 },
                EventBody::TransfersToNamada { nonce: n2, transfers: t2 },
            ) => {
                if *n1 != *n2 || t1.len() != t2.len() {
                    proof {
                        if t1@.len() != t2@.len() {
                            assert(t1@ != t2@);
                        }
                    }
                    false
                } else {
                    let mut i: usize = 0;
                    let mut same = true;
                    proof {
                        assert(t1@.subrange(0, 0) =~= t2@.subrange(0, 0));
                    }
                    while i < t1.len()
                        invariant
                            i <= t1.len(),
                            t1.len() == t2.len(),
                            same == (t1@.subrange(0, i as int) == t2@.subrange(0, i as int)),
                        decreases t1.len() - i,
                    {
                        proof {
                            assert(t1@.subrange(0, i as int) =~= t1@.subrange(0, i + 1).drop_last());
                            assert(t2@.subrange(0, i as int) =~= t2@.subrange(0, i + 1).drop_last());
                            assert(t1@.subrange(0, i + 1).last() == t1@[i as int]);
                            assert(t2@.subrange(0, i + 1).last() == t2@[i as int]);
                        }
                        if t1[i] != t2[i] {
                            proof {
                                assert(t1@.subrange(0, i + 1)[i as int] != t2@.subrange(0, i + 1)[i as int]);
                            }
                            same = false;
                        } else {
                            proof {
                                if same {
                                    assert(t1@.subrange(0, i + 1) =~= t2@.subrange(0, i + 1));
                                }
                                if t1@.subrange(0, i + 1) == t2@.subrange(0, i + 1) {
                                    assert(t1@.subrange(0, i as int) =~= t1@.subrange(0, i + 1).drop_last());
                                }
                            }
                            same = same && true;
                        }
                        i = i + 1;
                    }
                    proof {
                        assert(t1@.subrange(0, t1@.len() as int) =~= t1@);
                        assert(t2@.subrange(0, t2@.len() as int) =~= t2@);
                        if t1@ == t2@ {
                            assert(self@ =~= other@);
                        }
                    }
                    same
                }
            },
        }
    }
}

impl vstd::std_specs::cmp::PartialEqSpecImpl for EventBody {
    open spec fn obeys_eq_spec() -> bool {
        true
    }

    open spec fn eq_spec(&self, other: &Self) -> bool {
        self@ == other@
    }
}

} // verus!
