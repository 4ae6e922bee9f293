use vstd::prelude::*;

use crate::creation::{count_fungible, count_nfts, count_offchain};
use crate::ledger::Ledger;
use crate::reservation::{
    lemma_affirmed_of, lemma_need_is_outgoing, lemma_no_pending_party, lemma_outgoing_non_sender,
    lemma_reserved_covers, lemma_reserved_update, reserved,
};
use crate::settlement::{Instruction, ScheduledCall, Settlement};
use crate::types::{
    AffirmationStatus, InstructionStatus, Leg, LegStatus, PortfolioId, SettlementError,
    SettlementType, MAX_FUNGIBLE_LEGS, MAX_NFTS_PER_INSTRUCTION, MAX_NFTS_PER_LEG,
    MAX_OFFCHAIN_LEGS,
};

verus! {

/// Amount of asset `b` that the first `n` fungible legs take from `q`.
pub open spec fn outgoing(legs: Seq<Leg>, q: PortfolioId, b: u64, n: int) -> nat
    decreases n,
{
    if n <= 0 {
        0
    } else {
        outgoing(legs, q, b, n - 1) + match legs[n - 1] {
            Leg::Fungible { sender, asset, amount, .. } => if sender == q && asset == b {
                amount as nat
            } else {
                0nat
            },
            _ => 0nat,
        }
    }
}

/// Amount of asset `b` that the first `n` fungible legs bring to `q`.
pub open spec fn incoming(legs: Seq<Leg>, q: PortfolioId, b: u64, n: int) -> nat
    decreases n,
{
    if n <= 0 {
        0
    } else {
        incoming(legs, q, b, n - 1) + match legs[n - 1] {
            Leg::Fungible { receiver, asset, amount, .. } => if receiver == q && asset == b {
                amount as nat
            } else {
                0nat
            },
            _ => 0nat,
        }
    }
}

/// Whether one of the first `n` legs moves token `(b, j)`.
pub open spec fn moves_token(legs: Seq<Leg>, b: u64, j: u64, n: int) -> bool {
    exists|k: int, i: int|
        0 <= k < n && #[trigger] legs[k] is NonFungible && legs[k].asset_of() == b
            && 0 <= i < legs[k]->NonFungible_ids@.len() && #[trigger] legs[k]->NonFungible_ids@[i] == j
}

/// Whether every on-chain leg passes the compliance check of its asset.
pub open spec fn legs_compliant(st: Settlement, legs: Seq<Leg>) -> bool {
    forall|k: int| 0 <= k < legs.len() && #[trigger] legs[k].is_onchain() ==> st.transfer_allowed(legs[k].asset_of())
}

/// Whether the ledger holds reserved everything the legs move: the
/// amounts each sender sends, and each token in its sender's portfolio.
pub open spec fn legs_covered(l: Ledger, legs: Seq<Leg>) -> bool {
    &&& forall|q: PortfolioId, b: u64| #[trigger] outgoing(legs, q, b, legs.len() as int) <= l.locked(q, b)
    &&& forall|k: int, i: int|
        0 <= k < legs.len() && #[trigger] legs[k] is NonFungible && 0 <= i < legs[k]->NonFungible_ids@.len() ==> {
            &&& l.nft_owner(legs[k].asset_of(), #[trigger] legs[k]->NonFungible_ids@[i]) == Some(legs[k].sender_of())
            &&& l.nft_locked(legs[k].asset_of(), legs[k]->NonFungible_ids@[i])
        }
}

/// `n` is `o` with the legs settled: every amount moved out of its
/// sender's reservation to its receiver, every token moved to its
/// receiver, released.
pub open spec fn settled(n: Ledger, o: Ledger, legs: Seq<Leg>) -> bool {
    &&& forall|q: PortfolioId, b: u64| #[trigger] n.total(q, b) + outgoing(legs, q, b, legs.len() as int)
        == o.total(q, b) + incoming(legs, q, b, legs.len() as int)
    &&& forall|q: PortfolioId, b: u64| #[trigger] n.locked(q, b) + outgoing(legs, q, b, legs.len() as int) == o.locked(q, b)
    &&& forall|k: int, i: int|
        0 <= k < legs.len() && #[trigger] legs[k] is NonFungible && 0 <= i < legs[k]->NonFungible_ids@.len() ==> {
            &&& n.nft_owner(legs[k].asset_of(), #[trigger] legs[k]->NonFungible_ids@[i]) == Some(legs[k].receiver_of())
            &&& !n.nft_locked(legs[k].asset_of(), legs[k]->NonFungible_ids@[i])
        }
    &&& forall|b: u64, j: u64| !moves_token(legs, b, j, legs.len() as int) ==> #[trigger] n.nft_owner(b, j) == o.nft_owner(b, j)
    &&& forall|b: u64, j: u64| !moves_token(legs, b, j, legs.len() as int) ==> #[trigger] n.nft_locked(b, j) == o.nft_locked(b, j)
    &&& n.issued() == o.issued()
}

pub proof fn lemma_outgoing_grows(legs: Seq<Leg>, q: PortfolioId, b: u64, a: int, c: int)
    requires
        0 <= a <= c,
    ensures
        outgoing(legs, q, b, a) <= outgoing(legs, q, b, c),
    decreases c - a,
{
    if a < c {
        lemma_outgoing_grows(legs, q, b, a, c - 1);
    }
}

impl Settlement {
    /// Whether every on-chain leg passes the compliance check of its asset.
    pub fn check_compliance(&self, legs: &Vec<Leg>) -> (r: bool)
        requires
            self.wf(),
        ensures
            r == legs_compliant(*self, legs@),
    {
        let mut k: usize = 0;
        while k < legs.len()
            invariant
                self.wf(),
                k <= legs@.len(),
                forall|j: int| 0 <= j < k && #[trigger] legs@[j].is_onchain() ==> self.transfer_allowed(legs@[j].asset_of()),
            decreases legs@.len() - k,
        {
            if !legs[k].is_offchain() {
                let ok = match self.asset_index(legs[k].asset()) {
                    Some(a) => !self.assets[a].frozen && self.assets[a].compliant,
                    None => false,
                };
                if !ok {
                    proof {
                        assert(legs@[k as int].is_onchain());
                    }
                    return false;
                }
            }
            k = k + 1;
        }
        true
    }
}

/// Settles the legs on `l`: moves each reserved amount and token from its
/// sender to its receiver. Refused, with no promise on `l`, when something
/// a leg moves is not reserved in its sender's portfolio.
pub fn settle_legs(l: &mut Ledger, legs: &Vec<Leg>) -> (r: Result<(), SettlementError>)
    requires
        old(l).wf(),
        crate::settlement::nft_ids_distinct(legs@),
        forall|k: int| 0 <= k < legs@.len() && #[trigger] legs@[k].is_onchain() ==> legs@[k].sender_of() != legs@[k].receiver_of(),
    ensures
        r is Ok <==> legs_covered(*old(l), legs@),
        r is Err ==> r == Err::<(), SettlementError>(SettlementError::FailedToReleaseLockOrTransferAssets),
        r is Ok ==> final(l).wf() && settled(*final(l), *old(l), legs@),
{
    let ghost l0 = *l;
    let ghost s = legs@;
    let mut k: usize = 0;
    while k < legs.len()
        invariant
            s == legs@,
            l0 == *old(l),
            l0.wf(),
            l.wf(),
            crate::settlement::nft_ids_distinct(s),
            forall|k2: int| 0 <= k2 < s.len() && #[trigger] s[k2].is_onchain() ==> s[k2].sender_of() != s[k2].receiver_of(),
            k <= s.len(),
            l.issued() == l0.issued(),
            forall|q: PortfolioId, b: u64| #[trigger] l.total(q, b) + outgoing(s, q, b, k as int) == l0.total(q, b) + incoming(s, q, b, k as int),
            forall|q: PortfolioId, b: u64| #[trigger] l.locked(q, b) + outgoing(s, q, b, k as int) == l0.locked(q, b),
            forall|k2: int, i: int|
                0 <= k2 < k && #[trigger] s[k2] is NonFungible && 0 <= i < s[k2]->NonFungible_ids@.len() ==> {
                    &&& l.nft_owner(s[k2].asset_of(), #[trigger] s[k2]->NonFungible_ids@[i]) == Some(s[k2].receiver_of())
                    &&& !l.nft_locked(s[k2].asset_of(), s[k2]->NonFungible_ids@[i])
                    &&& l0.nft_owner(s[k2].asset_of(), s[k2]->NonFungible_ids@[i]) == Some(s[k2].sender_of())
                    &&& l0.nft_locked(s[k2].asset_of(), s[k2]->NonFungible_ids@[i])
                },
            forall|b: u64, j: u64| !moves_token(s, b, j, k as int) ==> #[trigger] l.nft_owner(b, j) == l0.nft_owner(b, j),
            forall|b: u64, j: u64| !moves_token(s, b, j, k as int) ==> #[trigger] l.nft_locked(b, j) == l0.nft_locked(b, j),
        decreases s.len() - k,
    {
        let ghost lk = *l;
        match &legs[k] {
            Leg::Fungible { sender, receiver, asset, amount } => {
                proof {
                    assert(s[k as int].is_onchain());
                }
                let res = l.transfer_locked(*sender, *receiver, *asset, *amount);
                if res.is_err() {
                    proof {
                        assert(outgoing(s, *sender, *asset, k + 1) == outgoing(s, *sender, *asset, k as int) + *amount);
                        lemma_outgoing_grows(s, *sender, *asset, k + 1, s.len() as int);
                        assert(outgoing(s, *sender, *asset, s.len() as int) > l0.locked(*sender, *asset));
                    }
                    return Err(SettlementError::FailedToReleaseLockOrTransferAssets);
                }
                proof {
                    assert forall|q: PortfolioId, b: u64| #[trigger] l.total(q, b) + outgoing(s, q, b, k + 1) == l0.total(q, b) + incoming(s, q, b, k + 1) by {
                        assert(lk.total(q, b) + outgoing(s, q, b, k as int) == l0.total(q, b) + incoming(s, q, b, k as int));
                    }
                    assert forall|q: PortfolioId, b: u64| #[trigger] l.locked(q, b) + outgoing(s, q, b, k + 1) == l0.locked(q, b) by {
                        assert(lk.locked(q, b) + outgoing(s, q, b, k as int) == l0.locked(q, b));
                    }
                    assert forall|b: u64, j: u64| !moves_token(s, b, j, k + 1) implies #[trigger] l.nft_owner(b, j) == l0.nft_owner(b, j) by {
                        assert(!moves_token(s, b, j, k as int)) by {
                            if moves_token(s, b, j, k as int) {
                                let (k2, i2) = choose|k2: int, i2: int|
                                    0 <= k2 < k && #[trigger] s[k2] is NonFungible && s[k2].asset_of() == b
                                        && 0 <= i2 < s[k2]->NonFungible_ids@.len() && #[trigger] s[k2]->NonFungible_ids@[i2] == j;
                            }
                        }
                    }
                    assert forall|b: u64, j: u64| !moves_token(s, b, j, k + 1) implies #[trigger] l.nft_locked(b, j) == l0.nft_locked(b, j) by {
                        assert(!moves_token(s, b, j, k as int)) by {
                            if moves_token(s, b, j, k as int) {
                                let (k2, i2) = choose|k2: int, i2: int|
                                    0 <= k2 < k && #[trigger] s[k2] is NonFungible && s[k2].asset_of() == b
                                        && 0 <= i2 < s[k2]->NonFungible_ids@.len() && #[trigger] s[k2]->NonFungible_ids@[i2] == j;
                            }
                        }
                    }
                }
            },
            Leg::NonFungible { sender, receiver, asset, ids } => {
                proof {
                    assert(s[k as int].is_onchain());
                }
                let mut i: usize = 0;
                while i < ids.len()
                    invariant
                        s == legs@,
                        l0 == *old(l),
                        k < s.len(),
                        s[k as int] is NonFungible,
                        ids@ == s[k as int]->NonFungible_ids@,
                        *asset == s[k as int].asset_of(),
                        *sender == s[k as int].sender_of(),
                        *receiver == s[k as int].receiver_of(),
                        *sender != *receiver,
                        l0.wf(),
                        l.wf(),
                        crate::settlement::nft_ids_distinct(s),
                        i <= ids@.len(),
                        l.issued() == l0.issued(),
                        forall|q: PortfolioId, b: u64| #[trigger] l.total(q, b) + outgoing(s, q, b, k as int) == l0.total(q, b) + incoming(s, q, b, k as int),
                        forall|q: PortfolioId, b: u64| #[trigger] l.locked(q, b) + outgoing(s, q, b, k as int) == l0.locked(q, b),
                        forall|k2: int, i3: int|
                            0 <= k2 < k && #[trigger] s[k2] is NonFungible && 0 <= i3 < s[k2]->NonFungible_ids@.len() ==> {
                                &&& l.nft_owner(s[k2].asset_of(), #[trigger] s[k2]->NonFungible_ids@[i3]) == Some(s[k2].receiver_of())
                                &&& !l.nft_locked(s[k2].asset_of(), s[k2]->NonFungible_ids@[i3])
                                &&& l0.nft_owner(s[k2].asset_of(), s[k2]->NonFungible_ids@[i3]) == Some(s[k2].sender_of())
                                &&& l0.nft_locked(s[k2].asset_of(), s[k2]->NonFungible_ids@[i3])
                            },
                        forall|i3: int| 0 <= i3 < i ==> {
                            &&& l.nft_owner(*asset, #[trigger] ids@[i3]) == Some(*receiver)
                            &&& !l.nft_locked(*asset, ids@[i3])
                            &&& l0.nft_owner(*asset, ids@[i3]) == Some(*sender)
                            &&& l0.nft_locked(*asset, ids@[i3])
                        },
                        forall|b: u64, j: u64| !moves_token(s, b, j, k as int) && !(b == *asset && exists|i2: int| 0 <= i2 < i && ids@[i2] == j)
                            ==> #[trigger] l.nft_owner(b, j) == l0.nft_owner(b, j),
                        forall|b: u64, j: u64| !moves_token(s, b, j, k as int) && !(b == *asset && exists|i2: int| 0 <= i2 < i && ids@[i2] == j)
                            ==> #[trigger] l.nft_locked(b, j) == l0.nft_locked(b, j),
                    decreases ids@.len() - i,
                {
                    let id = ids[i];
                    proof {
                        assert(!moves_token(s, *asset, id, k as int)) by {
                            if moves_token(s, *asset, id, k as int) {
                                let (k2, i2) = choose|k2: int, i2: int|
                                    0 <= k2 < k && #[trigger] s[k2] is NonFungible && s[k2].asset_of() == *asset
                                        && 0 <= i2 < s[k2]->NonFungible_ids@.len() && #[trigger] s[k2]->NonFungible_ids@[i2] == id;
                                assert(s[k2]->NonFungible_ids@[i2] != s[k as int]->NonFungible_ids@[i as int]);
                            }
                        }
                        assert(!(exists|i2: int| 0 <= i2 < i && ids@[i2] == id)) by {
                            if exists|i2: int| 0 <= i2 < i && ids@[i2] == id {
                                let i2 = choose|i2: int| 0 <= i2 < i && ids@[i2] == id;
                                assert(s[k as int]->NonFungible_ids@[i2] != s[k as int]->NonFungible_ids@[i as int]);
                            }
                        }
                    }
                    let ghost li = *l;
                    let res = l.transfer_nft(*sender, *receiver, *asset, id);
                    if res.is_err() {
                        proof {
                            assert(s[k as int]->NonFungible_ids@[i as int] == id);
                            if legs_covered(l0, s) {
                                assert(l0.nft_owner(s[k as int].asset_of(), s[k as int]->NonFungible_ids@[i as int]) == Some(s[k as int].sender_of()));
                            }
                        }
                        return Err(SettlementError::FailedToReleaseLockOrTransferAssets);
                    }
                    i = i + 1;
                    proof {
                        assert forall|b: u64, j: u64| !moves_token(s, b, j, k as int) && !(b == *asset && exists|i2: int| 0 <= i2 < i && ids@[i2] == j)
                            implies #[trigger] l.nft_owner(b, j) == l0.nft_owner(b, j) by {
                            assert(!(b == *asset && j == id)) by {
                                if b == *asset && j == id {
                                    assert(ids@[i - 1] == j);
                                }
                            }
                            assert(l.nft_owner(b, j) == li.nft_owner(b, j));
                        }
                        assert forall|b: u64, j: u64| !moves_token(s, b, j, k as int) && !(b == *asset && exists|i2: int| 0 <= i2 < i && ids@[i2] == j)
                            implies #[trigger] l.nft_locked(b, j) == l0.nft_locked(b, j) by {
                            assert(!(b == *asset && j == id)) by {
                                if b == *asset && j == id {
                                    assert(ids@[i - 1] == j);
                                }
                            }
                            assert(l.nft_locked(b, j) == li.nft_locked(b, j));
                        }
                        assert forall|i3: int| 0 <= i3 < i implies {
                            &&& l.nft_owner(*asset, #[trigger] ids@[i3]) == Some(*receiver)
                            &&& !l.nft_locked(*asset, ids@[i3])
                            &&& l0.nft_owner(*asset, ids@[i3]) == Some(*sender)
                            &&& l0.nft_locked(*asset, ids@[i3])
                        } by {
                            if i3 < i - 1 {
                                assert(ids@[i3] != ids@[i - 1]) by {
                                    assert(s[k as int]->NonFungible_ids@[i3] != s[k as int]->NonFungible_ids@[i - 1]);
                                }
                                assert(l.nft_owner(*asset, ids@[i3]) == li.nft_owner(*asset, ids@[i3]));
                                assert(l.nft_locked(*asset, ids@[i3]) == li.nft_locked(*asset, ids@[i3]));
                            }
                        }
                        assert forall|k2: int, i3: int|
                            0 <= k2 < k && #[trigger] s[k2] is NonFungible && 0 <= i3 < s[k2]->NonFungible_ids@.len() implies {
                                &&& l.nft_owner(s[k2].asset_of(), #[trigger] s[k2]->NonFungible_ids@[i3]) == Some(s[k2].receiver_of())
                                &&& !l.nft_locked(s[k2].asset_of(), s[k2]->NonFungible_ids@[i3])
                                &&& l0.nft_owner(s[k2].asset_of(), s[k2]->NonFungible_ids@[i3]) == Some(s[k2].sender_of())
                                &&& l0.nft_locked(s[k2].asset_of(), s[k2]->NonFungible_ids@[i3])
                            } by {
                            if s[k2].asset_of() == *asset {
                                assert(s[k2]->NonFungible_ids@[i3] != s[k as int]->NonFungible_ids@[i - 1]);
                            }
                            assert(l.nft_owner(s[k2].asset_of(), s[k2]->NonFungible_ids@[i3]) == li.nft_owner(s[k2].asset_of(), s[k2]->NonFungible_ids@[i3]));
                            assert(l.nft_locked(s[k2].asset_of(), s[k2]->NonFungible_ids@[i3]) == li.nft_locked(s[k2].asset_of(), s[k2]->NonFungible_ids@[i3]));
                        }
                        assert forall|q: PortfolioId, b: u64| #[trigger] l.total(q, b) + outgoing(s, q, b, k as int) == l0.total(q, b) + incoming(s, q, b, k as int) by {
                            assert(l.total(q, b) == li.total(q, b));
                        }
                        assert forall|q: PortfolioId, b: u64| #[trigger] l.locked(q, b) + outgoing(s, q, b, k as int) == l0.locked(q, b) by {
                            assert(l.locked(q, b) == li.locked(q, b));
                        }
                    }
                }
                proof {
                    assert forall|b: u64, j: u64| !moves_token(s, b, j, k + 1) implies #[trigger] l.nft_owner(b, j) == l0.nft_owner(b, j) by {
                        assert(!moves_token(s, b, j, k as int)) by {
                            if moves_token(s, b, j, k as int) {
                                let (k2, i2) = choose|k2: int, i2: int|
                                    0 <= k2 < k && #[trigger] s[k2] is NonFungible && s[k2].asset_of() == b
                                        && 0 <= i2 < s[k2]->NonFungible_ids@.len() && #[trigger] s[k2]->NonFungible_ids@[i2] == j;
                                assert(moves_token(s, b, j, k + 1));
                            }
                        }
                        if b == *asset && exists|i2: int| 0 <= i2 < ids@.len() && ids@[i2] == j {
                            let i2 = choose|i2: int| 0 <= i2 < ids@.len() && ids@[i2] == j;
                            assert(s[k as int]->NonFungible_ids@[i2] == j);
                            assert(moves_token(s, b, j, k + 1));
                        }
                    }
                    assert forall|b: u64, j: u64| !moves_token(s, b, j, k + 1) implies #[trigger] l.nft_locked(b, j) == l0.nft_locked(b, j) by {
                        assert(!moves_token(s, b, j, k as int)) by {
                            if moves_token(s, b, j, k as int) {
                                let (k2, i2) = choose|k2: int, i2: int|
                                    0 <= k2 < k && #[trigger] s[k2] is NonFungible && s[k2].asset_of() == b
                                        && 0 <= i2 < s[k2]->NonFungible_ids@.len() && #[trigger] s[k2]->NonFungible_ids@[i2] == j;
                                assert(moves_token(s, b, j, k + 1));
                            }
                        }
                        if b == *asset && exists|i2: int| 0 <= i2 < ids@.len() && ids@[i2] == j {
                            let i2 = choose|i2: int| 0 <= i2 < ids@.len() && ids@[i2] == j;
                            assert(s[k as int]->NonFungible_ids@[i2] == j);
                            assert(moves_token(s, b, j, k + 1));
                        }
                    }
                }
            },
            Leg::OffChain { .. } => {
                proof {
                    assert forall|b: u64, j: u64| !moves_token(s, b, j, k + 1) implies #[trigger] l.nft_owner(b, j) == l0.nft_owner(b, j) by {
                        assert(!moves_token(s, b, j, k as int)) by {
                            if moves_token(s, b, j, k as int) {
                                let (k2, i2) = choose|k2: int, i2: int|
                                    0 <= k2 < k && #[trigger] s[k2] is NonFungible && s[k2].asset_of() == b
                                        && 0 <= i2 < s[k2]->NonFungible_ids@.len() && #[trigger] s[k2]->NonFungible_ids@[i2] == j;
                                assert(moves_token(s, b, j, k + 1));
                            }
                        }
                    }
                    assert forall|b: u64, j: u64| !moves_token(s, b, j, k + 1) implies #[trigger] l.nft_locked(b, j) == l0.nft_locked(b, j) by {
                        assert(!moves_token(s, b, j, k as int)) by {
                            if moves_token(s, b, j, k as int) {
                                let (k2, i2) = choose|k2: int, i2: int|
                                    0 <= k2 < k && #[trigger] s[k2] is NonFungible && s[k2].asset_of() == b
                                        && 0 <= i2 < s[k2]->NonFungible_ids@.len() && #[trigger] s[k2]->NonFungible_ids@[i2] == j;
                                assert(moves_token(s, b, j, k + 1));
                            }
                        }
                    }
                }
            },
        }
        k = k + 1;
    }
    proof {
        assert forall|q: PortfolioId, b: u64| #[trigger] outgoing(s, q, b, s.len() as int) <= l0.locked(q, b) by {
            assert(l.locked(q, b) + outgoing(s, q, b, s.len() as int) == l0.locked(q, b));
        }
    }
    Ok(())
}

impl Instruction {
    /// `self` is `o` with its legs and affirmations pruned, at status `st`.
    pub open spec fn pruned_from(self, o: Instruction, st: InstructionStatus) -> bool {
        &&& self.venue_id == o.venue_id
        &&& self.settlement_type == o.settlement_type
        &&& self.created_at == o.created_at
        &&& self.trade_date == o.trade_date
        &&& self.value_date == o.value_date
        &&& self.memo is None
        &&& self.status == st
        &&& self.legs@.len() == 0
        &&& self.leg_status@.len() == 0
        &&& self.offchain@.len() == 0
        &&& self.parties@.len() == 0
        &&& self.pending == 0
    }
}

impl Settlement {
    /// Everything but the ledger and instruction `id` is as in `o`, and the
    /// other instructions are unchanged.
    pub open spec fn only_instruction_changed(self, o: Settlement, id: u64) -> bool {
        &&& self.block == o.block
        &&& self.assets == o.assets
        &&& self.venues == o.venues
        &&& self.custodians == o.custodians
        &&& self.ticker_approvals == o.ticker_approvals
        &&& self.portfolio_approvals == o.portfolio_approvals
        &&& self.schedule == o.schedule
        &&& self.used_receipts == o.used_receipts
        &&& self.instructions@.len() == o.instructions@.len()
        &&& forall|j: int| 0 <= j < o.instructions@.len() && j != id ==> #[trigger] self.instructions@[j] == o.instructions@[j]
    }

    /// Why `caller` may not execute instruction `id` by hand, naming
    /// `portfolio` (or, with none, as the venue's creator) and bounding its
    /// fungible legs, tokens and off-chain legs, if it may not.
    pub open spec fn manual_error(self, caller: u64, id: u64, portfolio: Option<PortfolioId>, fungible: u64, nfts: u64, offchain: u64) -> Option<SettlementError> {
        if id >= self.instructions@.len() {
            Some(SettlementError::UnknownInstruction)
        } else {
            let inst = self.instructions@[id as int];
            let legs = inst.legs@;
            if !inst.is_live() {
                Some(SettlementError::InstructionNotPending)
            } else if inst.status == InstructionStatus::Pending && (inst.settlement_type matches SettlementType::SettleManual(b) && self.block < b) {
                Some(SettlementError::InstructionSettleBlockNotReached)
            } else if inst.status == InstructionStatus::Pending && !(inst.settlement_type is SettleManual) {
                Some(SettlementError::InstructionNotFailed)
            } else if match portfolio {
                Some(p) => self.custodian(p) != caller || !inst.has_party(p),
                None => (inst.venue_id as int) < self.venues@.len() && self.venues@[inst.venue_id as int].creator != caller
                    && !offchain_party(legs, caller),
            } {
                Some(SettlementError::Unauthorized)
            } else if fungible < count_fungible(legs, legs.len() as int) {
                Some(SettlementError::NumberOfFungibleTransfersUnderestimated)
            } else if nfts < count_nfts(legs, legs.len() as int) {
                Some(SettlementError::NumberOfTransferredNFTsUnderestimated)
            } else if offchain < count_offchain(legs, legs.len() as int) {
                Some(SettlementError::NumberOfOffChainTransfersUnderestimated)
            } else {
                None
            }
        }
    }

    /// Whether the live instruction `id` can be settled now: no
    /// affirmation is missing, compliance admits every leg, and the ledger
    /// holds reserved all it moves.
    pub open spec fn executable(self, id: u64) -> bool {
        let inst = self.instructions@[id as int];
        &&& inst.pending == 0
        &&& legs_compliant(self, inst.legs@)
        &&& legs_covered(self.ledger, inst.legs@)
    }

    /// `post` is what the scheduler's call for instruction `id` makes of
    /// `pre`: nothing, if the instruction is not live; else it settles when
    /// it can, and otherwise becomes `Failed` with every balance kept.
    pub open spec fn scheduled_run(pre: Settlement, post: Settlement, id: u64) -> bool {
        if id >= pre.instructions@.len() || !pre.instructions@[id as int].is_live() {
            post == pre
        } else if pre.executable(id) {
            &&& settled(post.ledger, pre.ledger, pre.instructions@[id as int].legs@)
            &&& post.instructions@[id as int].pruned_from(pre.instructions@[id as int], InstructionStatus::Success(pre.block))
            &&& post.only_instruction_changed(pre, id)
        } else {
            &&& post.ledger == pre.ledger
            &&& post.instructions@[id as int] == (Instruction { status: InstructionStatus::Failed, ..pre.instructions@[id as int] })
            &&& post.only_instruction_changed(pre, id)
        }
    }

    /// Replaces instruction `id` by its pruned record at status `st`.
    fn prune(&mut self, id: u64, st: InstructionStatus)
        requires
            old(self).consistent(),
            (id as int) < old(self).instructions@.len(),
            !(st is Pending) && !(st is Failed),
        ensures
            final(self).consistent(),
            forall|q: PortfolioId, b: u64| #[trigger] reserved(final(self).instructions@, q, b) + old(self).instructions@[id as int].reserved_by(q, b)
                == reserved(old(self).instructions@, q, b),
            final(self).instructions@[id as int].pruned_from(old(self).instructions@[id as int], st),
            final(self).only_instruction_changed(*old(self), id),
            final(self).ledger == old(self).ledger,
    {
        let n: usize = self.instructions.len();
        assert(id < n);
        let i = id as usize;
        let o = &self.instructions[i];
        let rec = Instruction {
            venue_id: o.venue_id,
            settlement_type: o.settlement_type,
            created_at: o.created_at,
            trade_date: o.trade_date,
            value_date: o.value_date,
            memo: None,
            status: st,
            legs: Vec::new(),
            leg_status: Vec::new(),
            offchain: Vec::new(),
            parties: Vec::new(),
            pending: 0,
        };
        self.instructions.set(i, rec);
        proof {
            assert forall|j: int| 0 <= j < self.instructions@.len() implies {
                &&& #[trigger] self.instructions@[j].wf()
                &&& self.instructions@[j].venue_id < self.venues@.len()
            } by {
                assert(old(self).instructions@[j].wf());
                assert(old(self).instructions@[j].venue_id < old(self).venues@.len());
            }
            assert forall|q: PortfolioId, b: u64| #[trigger] reserved(self.instructions@, q, b) + old(self).instructions@[id as int].reserved_by(q, b)
                == reserved(old(self).instructions@, q, b) by {
                lemma_reserved_update(old(self).instructions@, id as int, rec, q, b);
                assert(self.instructions@ == old(self).instructions@.update(id as int, rec));
                assert(rec.reserved_by(q, b) == 0);
            }
        }
    }

    /// Settles the live instruction `id`: every leg moves at once, or none
    /// does and nothing changes. Refused while an affirmation is missing,
    /// when compliance refuses a leg, or when the ledger lacks a reserved
    /// amount or token.
    fn execute(&mut self, id: u64) -> (r: Result<(), SettlementError>)
        requires
            old(self).wf(),
            (id as int) < old(self).instructions@.len(),
            old(self).instructions@[id as int].is_live(),
        ensures
            final(self).wf(),
            r is Ok <==> old(self).executable(id),
            old(self).instructions@[id as int].pending != 0 ==> r == Err::<(), SettlementError>(SettlementError::NotAllAffirmationsHaveBeenReceived),
            old(self).instructions@[id as int].pending == 0 && r is Err ==> r == Err::<(), SettlementError>(SettlementError::FailedToReleaseLockOrTransferAssets),
            r is Err ==> *final(self) == *old(self),
            r is Ok ==> {
                &&& settled(final(self).ledger, old(self).ledger, old(self).instructions@[id as int].legs@)
                &&& final(self).instructions@[id as int].pruned_from(old(self).instructions@[id as int], InstructionStatus::Success(old(self).block))
                &&& final(self).only_instruction_changed(*old(self), id)
            },
    {
        let n: usize = self.instructions.len();
        assert(id < n);
        let i = id as usize;
        proof {
            assert(self.instructions@[id as int].wf());
        }
        if self.instructions[i].pending != 0 {
            return Err(SettlementError::NotAllAffirmationsHaveBeenReceived);
        }
        if !self.check_compliance(&self.instructions[i].legs) {
            return Err(SettlementError::FailedToReleaseLockOrTransferAssets);
        }
        let mut trial = self.ledger.duplicate();
        let ghost dup = trial;
        proof {
            trial.lemma_same_as(self.ledger);
            lemma_covered_same(trial, self.ledger, self.instructions@[id as int].legs@);
        }
        let res = settle_legs(&mut trial, &self.instructions[i].legs);
        if res.is_err() {
            return Err(SettlementError::FailedToReleaseLockOrTransferAssets);
        }
        proof {
            lemma_settled_same(trial, dup, self.ledger, self.instructions@[id as int].legs@);
        }
        self.ledger = trial;
        proof {
            assert forall|j: int| 0 <= j < self.instructions@.len() implies {
                &&& #[trigger] self.instructions@[j].wf()
                &&& self.instructions@[j].venue_id < self.venues@.len()
            } by {
                assert(old(self).instructions@[j].wf());
            }
        }
        let st = InstructionStatus::Success(self.block);
        let ghost before = *self;
        self.prune(id, st);
        proof {
            let o = old(self).instructions@[id as int];
            assert(o.wf());
            assert forall|q: PortfolioId, b: u64| #[trigger] self.ledger.locked(q, b) == reserved(self.instructions@, q, b) by {
                lemma_reserved_by_settled(o, q, b);
                assert(old(self).ledger.locked(q, b) == reserved(old(self).instructions@, q, b));
                assert(self.ledger.locked(q, b) + outgoing(o.legs@, q, b, o.legs@.len() as int) == old(self).ledger.locked(q, b));
                assert(reserved(self.instructions@, q, b) + before.instructions@[id as int].reserved_by(q, b) == reserved(before.instructions@, q, b));
            }
        }
        Ok(())
    }
}

impl Settlement {
    /// Marks the live instruction `id` as failed; nothing else changes.
    fn mark_failed(&mut self, id: u64)
        requires
            old(self).wf(),
            (id as int) < old(self).instructions@.len(),
            old(self).instructions@[id as int].is_live(),
        ensures
            final(self).wf(),
            final(self).instructions@[id as int] == (Instruction { status: InstructionStatus::Failed, ..old(self).instructions@[id as int] }),
            final(self).only_instruction_changed(*old(self), id),
            final(self).ledger == old(self).ledger,
    {
        let n: usize = self.instructions.len();
        assert(id < n);
        let i = id as usize;
        let mut inst = Instruction {
            venue_id: 0,
            settlement_type: SettlementType::SettleOnAffirmation,
            created_at: 0,
            trade_date: None,
            value_date: None,
            memo: None,
            status: InstructionStatus::Unknown,
            legs: Vec::new(),
            leg_status: Vec::new(),
            offchain: Vec::new(),
            parties: Vec::new(),
            pending: 0,
        };
        self.instructions.set_and_swap(i, &mut inst);
        inst.status = InstructionStatus::Failed;
        self.instructions.set(i, inst);
        proof {
            assert forall|q: PortfolioId, b: u64| #[trigger] self.ledger.locked(q, b) == reserved(self.instructions@, q, b) by {
                lemma_reserved_update(old(self).instructions@, id as int, inst, q, b);
                assert(self.instructions@ == old(self).instructions@.update(id as int, inst));
                assert(inst.reserved_by(q, b) == old(self).instructions@[id as int].reserved_by(q, b));
                assert(old(self).ledger.locked(q, b) == reserved(old(self).instructions@, q, b));
            }
            assert forall|j: int| 0 <= j < self.instructions@.len() implies {
                &&& #[trigger] self.instructions@[j].wf()
                &&& self.instructions@[j].venue_id < self.venues@.len()
            } by {
                assert(old(self).instructions@[j].wf());
            }
        }
    }

    /// The scheduler's call: executes instruction `id` if it is live. When
    /// it cannot be settled, it becomes `Failed` and keeps its
    /// reservations; a later manual execution or a rejection moves it on.
    pub fn execute_scheduled_instruction(&mut self, id: u64) -> (r: Result<(), SettlementError>)
        requires
            old(self).wf(),
        ensures
            final(self).wf(),
            (id as int) >= old(self).instructions@.len() ==> r == Err::<(), SettlementError>(SettlementError::UnknownInstruction) && *final(self) == *old(self),
            (id as int) < old(self).instructions@.len() && !old(self).instructions@[id as int].is_live()
                ==> r == Err::<(), SettlementError>(SettlementError::InstructionNotPending) && *final(self) == *old(self),
            (id as int) < old(self).instructions@.len() && old(self).instructions@[id as int].is_live() ==> {
                &&& r is Ok <==> old(self).executable(id)
                &&& final(self).only_instruction_changed(*old(self), id)
                &&& r is Ok ==> settled(final(self).ledger, old(self).ledger, old(self).instructions@[id as int].legs@)
                    && final(self).instructions@[id as int].pruned_from(old(self).instructions@[id as int], InstructionStatus::Success(old(self).block))
                &&& r is Err ==> final(self).ledger == old(self).ledger
                    && final(self).instructions@[id as int] == (Instruction { status: InstructionStatus::Failed, ..old(self).instructions@[id as int] })
            },
            Self::scheduled_run(*old(self), *final(self), id),
    {
        if id >= self.instructions.len() as u64 {
            return Err(SettlementError::UnknownInstruction);
        }
        let st = self.instructions[id as usize].status;
        if !(st == InstructionStatus::Pending || st == InstructionStatus::Failed) {
            return Err(SettlementError::InstructionNotPending);
        }
        let res = self.execute(id);
        if res.is_err() {
            self.mark_failed(id);
        }
        res
    }

    /// Executes instruction `id` on request of `caller`, who names one of
    /// its portfolios that it controls, or else is the venue's creator or
    /// an identity of one of its off-chain legs. A
    /// pending instruction must be settled by hand and its block reached; a
    /// failed one may be retried. The counts bound the legs the caller
    /// expects. When an affirmation is missing, the call is refused and
    /// nothing changes; when the legs cannot be settled, the instruction
    /// becomes `Failed` and keeps its reservations.
    pub fn execute_manual_instruction(
        &mut self,
        caller: u64,
        id: u64,
        portfolio: Option<PortfolioId>,
        fungible: u64,
        nfts: u64,
        offchain: u64,
    ) -> (r: Result<(), SettlementError>)
        requires
            old(self).wf(),
        ensures
            final(self).wf(),
            old(self).manual_error(caller, id, portfolio, fungible, nfts, offchain) is Some ==> r == Err::<(), SettlementError>(
                old(self).manual_error(caller, id, portfolio, fungible, nfts, offchain)->Some_0,
            ),
            old(self).manual_error(caller, id, portfolio, fungible, nfts, offchain) is None ==> {
                &&& r is Ok <==> old(self).executable(id)
                &&& old(self).instructions@[id as int].pending != 0 ==> r == Err::<(), SettlementError>(SettlementError::NotAllAffirmationsHaveBeenReceived)
                &&& old(self).instructions@[id as int].pending == 0 && r is Err ==> r == Err::<(), SettlementError>(SettlementError::FailedToReleaseLockOrTransferAssets)
            },
            r is Err && r != Err::<(), SettlementError>(SettlementError::FailedToReleaseLockOrTransferAssets) ==> *final(self) == *old(self),
            r == Err::<(), SettlementError>(SettlementError::FailedToReleaseLockOrTransferAssets) ==> {
                &&& final(self).ledger == old(self).ledger
                &&& final(self).instructions@[id as int] == (Instruction { status: InstructionStatus::Failed, ..old(self).instructions@[id as int] })
                &&& final(self).only_instruction_changed(*old(self), id)
            },
            r is Ok ==> {
                &&& settled(final(self).ledger, old(self).ledger, old(self).instructions@[id as int].legs@)
                &&& final(self).instructions@[id as int].pruned_from(old(self).instructions@[id as int], InstructionStatus::Success(old(self).block))
                &&& final(self).only_instruction_changed(*old(self), id)
            },
    {
        if id >= self.instructions.len() as u64 {
            return Err(SettlementError::UnknownInstruction);
        }
        let i = id as usize;
        proof {
            assert(self.instructions@[id as int].wf());
        }
        let inst = &self.instructions[i];
        if !(inst.status == InstructionStatus::Pending || inst.status == InstructionStatus::Failed) {
            return Err(SettlementError::InstructionNotPending);
        }
        if inst.status == InstructionStatus::Pending {
            match inst.settlement_type {
                SettlementType::SettleManual(b) => {
                    if self.block < b {
                        return Err(SettlementError::InstructionSettleBlockNotReached);
                    }
                },
                _ => {
                    return Err(SettlementError::InstructionNotFailed);
                },
            }
        }
        let allowed = match portfolio {
            Some(p) => self.portfolio_custodian(p) == caller && crate::lifecycle::party_index(&inst.parties, p).is_some(),
            None => (inst.venue_id < self.venues.len() as u64 && self.venues[inst.venue_id as usize].creator == caller)
                || offchain_party_of(&inst.legs, caller),
        };
        proof {
            if let Some(p) = portfolio {
                if self.custodian(p) == caller && inst.has_party(p) {
                    let m = choose|m: int| 0 <= m < inst.parties@.len() && #[trigger] inst.parties@[m].portfolio == p;
                    assert(inst.parties@[m].portfolio == p);
                }
            }
            assert(inst.venue_id < self.venues@.len());
        }
        if !allowed {
            return Err(SettlementError::Unauthorized);
        }
        if count_legs_of(&inst.legs, 0) > fungible {
            return Err(SettlementError::NumberOfFungibleTransfersUnderestimated);
        }
        if count_legs_of(&inst.legs, 1) > nfts {
            return Err(SettlementError::NumberOfTransferredNFTsUnderestimated);
        }
        if count_legs_of(&inst.legs, 2) > offchain {
            return Err(SettlementError::NumberOfOffChainTransfersUnderestimated);
        }
        let res = self.execute(id);
        if let Err(e) = res {
            if e == SettlementError::FailedToReleaseLockOrTransferAssets {
                self.mark_failed(id);
            }
        }
        res
    }
}

/// The portfolios among `ps` that have affirmed, in order.
pub open spec fn affirmed_of(ps: Seq<crate::settlement::Party>) -> Seq<PortfolioId>
    decreases ps.len(),
{
    if ps.len() == 0 {
        Seq::empty()
    } else if ps.last().status == AffirmationStatus::Affirmed {
        affirmed_of(ps.drop_last()).push(ps.last().portfolio)
    } else {
        affirmed_of(ps.drop_last())
    }
}

/// Whether identity `did` sends or receives in an off-chain leg.
pub open spec fn offchain_party(legs: Seq<Leg>, did: u64) -> bool {
    exists|k: int|
        0 <= k < legs.len() && #[trigger] legs[k] is OffChain && (legs[k].sender_of().did == did || legs[k].receiver_of().did == did)
}

fn affirmed_portfolios(ps: &Vec<crate::settlement::Party>) -> (r: Vec<PortfolioId>)
    ensures
        r@ == affirmed_of(ps@),
{
    let mut r: Vec<PortfolioId> = Vec::new();
    let mut i: usize = 0;
    while i < ps.len()
        invariant
            i <= ps@.len(),
            r@ == affirmed_of(ps@.subrange(0, i as int)),
        decreases ps@.len() - i,
    {
        proof {
            assert(ps@.subrange(0, i + 1).drop_last() =~= ps@.subrange(0, i as int));
        }
        if ps[i].status == AffirmationStatus::Affirmed {
            r.push(ps[i].portfolio);
        }
        i = i + 1;
    }
    proof {
        assert(ps@.subrange(0, i as int) =~= ps@);
    }
    r
}

impl Settlement {
    /// Why `caller` may not reject instruction `id` on behalf of
    /// `portfolio`, if it may not.
    pub open spec fn rejection_error(self, caller: u64, id: u64, portfolio: PortfolioId) -> Option<SettlementError> {
        if id >= self.instructions@.len() {
            Some(SettlementError::UnknownInstruction)
        } else if !self.instructions@[id as int].is_live() {
            Some(SettlementError::InstructionNotPending)
        } else if self.custodian(portfolio) != caller {
            Some(SettlementError::UnauthorizedCustodian)
        } else if !self.instructions@[id as int].has_party(portfolio) && !offchain_party(self.instructions@[id as int].legs@, portfolio.did) {
            Some(SettlementError::CallerIsNotAParty)
        } else {
            None
        }
    }

    /// Rejects instruction `id`: any party may, through a portfolio it
    /// controls. Every reservation its affirmations made is released and
    /// its records are pruned, leaving it `Rejected` at the current block.
    pub fn reject_instruction(&mut self, caller: u64, id: u64, portfolio: PortfolioId) -> (r: Result<(), SettlementError>)
        requires
            old(self).wf(),
        ensures
            final(self).wf(),
            r is Err <==> old(self).rejection_error(caller, id, portfolio) is Some,
            r is Err ==> r == Err::<(), SettlementError>(old(self).rejection_error(caller, id, portfolio)->Some_0) && *final(self) == *old(self),
            r is Ok ==> {
                let o = old(self).instructions@[id as int];
                let ps = affirmed_of(o.parties@);
                let legs = o.legs@;
                &&& final(self).instructions@[id as int].pruned_from(o, InstructionStatus::Rejected(old(self).block))
                &&& final(self).only_instruction_changed(*old(self), id)
                &&& forall|q: PortfolioId, b: u64| #[trigger] final(self).ledger.total(q, b) == old(self).ledger.total(q, b)
                &&& forall|q: PortfolioId, b: u64| #[trigger] final(self).ledger.locked(q, b) + crate::affirmation::need(legs, ps, q, b, legs.len() as int) == old(self).ledger.locked(q, b)
                &&& forall|b: u64, j: u64| #[trigger] final(self).ledger.nft_owner(b, j) == old(self).ledger.nft_owner(b, j)
                &&& forall|b: u64, j: u64| #[trigger] final(self).ledger.nft_locked(b, j) == (old(self).ledger.nft_locked(b, j) && !crate::affirmation::moves_nft(legs, ps, b, j, legs.len() as int))
            },
    {
        if id >= self.instructions.len() as u64 {
            return Err(SettlementError::UnknownInstruction);
        }
        let i = id as usize;
        proof {
            assert(self.instructions@[id as int].wf());
        }
        let inst = &self.instructions[i];
        if !(inst.status == InstructionStatus::Pending || inst.status == InstructionStatus::Failed) {
            return Err(SettlementError::InstructionNotPending);
        }
        if self.portfolio_custodian(portfolio) != caller {
            return Err(SettlementError::UnauthorizedCustodian);
        }
        let is_party = crate::lifecycle::party_index(&inst.parties, portfolio).is_some() || offchain_party_of(&inst.legs, portfolio.did);
        proof {
            if inst.has_party(portfolio) {
                let m = choose|m: int| 0 <= m < inst.parties@.len() && #[trigger] inst.parties@[m].portfolio == portfolio;
                assert(inst.parties@[m].portfolio == portfolio);
            }
        }
        if !is_party {
            return Err(SettlementError::CallerIsNotAParty);
        }
        let ps = affirmed_portfolios(&inst.parties);
        let mut ledger = Ledger::new();
        std::mem::swap(&mut ledger, &mut self.ledger);
        crate::affirmation::unlock_legs(&mut ledger, &self.instructions[i].legs, &ps);
        self.ledger = ledger;
        proof {
            assert forall|j: int| 0 <= j < self.instructions@.len() implies {
                &&& #[trigger] self.instructions@[j].wf()
                &&& self.instructions@[j].venue_id < self.venues@.len()
            } by {
                assert(old(self).instructions@[j].wf());
            }
        }
        let st = InstructionStatus::Rejected(self.block);
        let ghost before = *self;
        self.prune(id, st);
        proof {
            let o = old(self).instructions@[id as int];
            assert(o.wf());
            assert forall|q: PortfolioId, b: u64| #[trigger] self.ledger.locked(q, b) == reserved(self.instructions@, q, b) by {
                lemma_need_is_outgoing(o.legs@, affirmed_of(o.parties@), q, b, o.legs@.len() as int);
                lemma_status_of_affirmed(o, q);
                lemma_reserved_covers(old(self).instructions@, id as int, q, b);
                assert(old(self).ledger.locked(q, b) == reserved(old(self).instructions@, q, b));
                assert(reserved(self.instructions@, q, b) + before.instructions@[id as int].reserved_by(q, b) == reserved(before.instructions@, q, b));
            }
            assert forall|q: PortfolioId, b: u64| #[trigger] self.ledger.locked(q, b) + crate::affirmation::need(o.legs@, affirmed_of(o.parties@), q, b, o.legs@.len() as int) == old(self).ledger.locked(q, b) by {
                lemma_need_is_outgoing(o.legs@, affirmed_of(o.parties@), q, b, o.legs@.len() as int);
                lemma_status_of_affirmed(o, q);
                lemma_reserved_covers(old(self).instructions@, id as int, q, b);
                assert(old(self).ledger.locked(q, b) == reserved(old(self).instructions@, q, b));
            }
        }
        Ok(())
    }
}

/// Whether identity `did` sends or receives in an off-chain leg.
fn offchain_party_of(legs: &Vec<Leg>, did: u64) -> (r: bool)
    ensures
        r == offchain_party(legs@, did),
{
    let mut k: usize = 0;
    while k < legs.len()
        invariant
            k <= legs@.len(),
            forall|j: int| 0 <= j < k && #[trigger] legs@[j] is OffChain ==> legs@[j].sender_of().did != did && legs@[j].receiver_of().did != did,
        decreases legs@.len() - k,
    {
        if legs[k].is_offchain() && (legs[k].sender().did == did || legs[k].receiver().did == did) {
            proof {
                assert(legs@[k as int] is OffChain);
            }
            return true;
        }
        k = k + 1;
    }
    false
}

/// The test "is a call for block `b`".
pub open spec fn due_at(b: u64) -> spec_fn(ScheduledCall) -> bool {
    |c: ScheduledCall| c.block == b
}

/// The test "is not a call for block `b`".
pub open spec fn not_due_at(b: u64) -> spec_fn(ScheduledCall) -> bool {
    |c: ScheduledCall| c.block != b
}

impl Settlement {
    /// Advances to the next block and makes the scheduler's calls for it,
    /// in the order they were made. Returns the instructions it called.
    pub fn next_block(&mut self) -> (called: Vec<u64>)
        requires
            old(self).wf(),
            old(self).block < u64::MAX,
        ensures
            final(self).wf(),
            final(self).block == old(self).block + 1,
            final(self).schedule@ == old(self).schedule@.filter(not_due_at((old(self).block + 1) as u64)),
            called@ == old(self).schedule@.filter(due_at((old(self).block + 1) as u64)).map_values(|c: ScheduledCall| c.instruction),
            final(self).assets == old(self).assets,
            final(self).venues == old(self).venues,
            final(self).custodians == old(self).custodians,
            final(self).ticker_approvals == old(self).ticker_approvals,
            final(self).portfolio_approvals == old(self).portfolio_approvals,
            final(self).used_receipts == old(self).used_receipts,
            final(self).instructions@.len() == old(self).instructions@.len(),
            forall|j: u64| (j as int) < old(self).instructions@.len() && !called@.contains(j) ==> #[trigger] final(self).instructions@[j as int] == old(self).instructions@[j as int],
            forall|j: u64| (j as int) < old(self).instructions@.len() && called@.contains(j) ==> #[trigger] final(self).instructions@[j as int].status != InstructionStatus::Pending,
            called@.len() == 0 ==> final(self).ledger == old(self).ledger && final(self).instructions == old(self).instructions,
            exists|states: Seq<Settlement>| {
                &&& states.len() == called@.len() + 1
                &&& states[0] == (Settlement { block: (old(self).block + 1) as u64, schedule: final(self).schedule, ..*old(self) })
                &&& states.last() == *final(self)
                &&& forall|k: int| 0 <= k < called@.len() ==> #[trigger] Self::scheduled_run(states[k], states[k + 1], called@[k])
            },
    {
        self.block = self.block + 1;
        let b = self.block;
        let mut due: Vec<u64> = Vec::new();
        let mut rest: Vec<ScheduledCall> = Vec::new();
        let mut i: usize = 0;
        let ghost sched = self.schedule@;
        while i < self.schedule.len()
            invariant
                sched == self.schedule@,
                i <= sched.len(),
                rest@ == sched.subrange(0, i as int).filter(not_due_at(b)),
                due@ == sched.subrange(0, i as int).filter(due_at(b)).map_values(|c: ScheduledCall| c.instruction),
            decreases sched.len() - i,
        {
            let c = self.schedule[i];
            proof {
                assert(sched.subrange(0, i + 1) =~= sched.subrange(0, i as int).push(c));
                sched.subrange(0, i as int).lemma_filter_push(c, not_due_at(b));
                sched.subrange(0, i as int).lemma_filter_push(c, due_at(b));
            }
            if c.block == b {
                due.push(c.instruction);
                proof {
                    let f = sched.subrange(0, i as int).filter(due_at(b));
                    assert(f.push(c).map_values(|c: ScheduledCall| c.instruction) =~= f.map_values(|c: ScheduledCall| c.instruction).push(c.instruction));
                }
            } else {
                rest.push(c);
            }
            i = i + 1;
        }
        proof {
            assert(sched.subrange(0, i as int) =~= sched);
        }
        self.schedule = rest;
        proof {
            assert forall|j: int| 0 <= j < self.instructions@.len() implies {
                &&& #[trigger] self.instructions@[j].wf()
                &&& self.instructions@[j].venue_id < self.venues@.len()
            } by {
                assert(old(self).instructions@[j].wf());
            }
        }
        proof {
            assert forall|q: PortfolioId, b: u64| #[trigger] self.ledger.locked(q, b) == reserved(self.instructions@, q, b) by {
                assert(old(self).ledger.locked(q, b) == reserved(old(self).instructions@, q, b));
            }
        }
        let ghost mid = *self;
        let ghost mut states: Seq<Settlement> = seq![mid];
        assert(mid == (Settlement { block: (old(self).block + 1) as u64, schedule: mid.schedule, ..*old(self) }));
        let mut k: usize = 0;
        while k < due.len()
            invariant
                self.wf(),
                k <= due@.len(),
                states.len() == k + 1,
                states[0] == mid,
                states.last() == *self,
                forall|j: int| 0 <= j < k ==> #[trigger] Self::scheduled_run(states[j], states[j + 1], due@[j]),
                self.block == mid.block,
                self.schedule == mid.schedule,
                self.assets == mid.assets,
                self.venues == mid.venues,
                self.custodians == mid.custodians,
                self.ticker_approvals == mid.ticker_approvals,
                self.portfolio_approvals == mid.portfolio_approvals,
                self.used_receipts == mid.used_receipts,
                self.instructions@.len() == mid.instructions@.len(),
                forall|j: u64| (j as int) < mid.instructions@.len() && !due@.subrange(0, k as int).contains(j) ==> #[trigger] self.instructions@[j as int] == mid.instructions@[j as int],
                forall|j: u64| (j as int) < mid.instructions@.len() && due@.subrange(0, k as int).contains(j) ==> #[trigger] self.instructions@[j as int].status != InstructionStatus::Pending,
            decreases due@.len() - k,
        {
            let id = due[k];
            let ghost before = *self;
            let _ = self.execute_scheduled_instruction(id);
            proof {
                let prev = states;
                states = states.push(*self);
                assert forall|j: int| 0 <= j < k + 1 implies #[trigger] Self::scheduled_run(states[j], states[j + 1], due@[j]) by {
                    if j < k {
                        assert(states[j] == prev[j] && states[j + 1] == prev[j + 1]);
                    } else {
                        assert(states[j] == before);
                    }
                }
            }
            k = k + 1;
            proof {
                assert forall|j: u64| (j as int) < mid.instructions@.len() && !due@.subrange(0, k as int).contains(j) implies #[trigger] self.instructions@[j as int] == mid.instructions@[j as int] by {
                    assert(j != id) by {
                        if j == id {
                            assert(due@.subrange(0, k as int)[k - 1] == id);
                        }
                    }
                    if due@.subrange(0, k - 1).contains(j) {
                        let m = choose|m: int| 0 <= m < k - 1 && #[trigger] due@.subrange(0, k - 1)[m] == j;
                        assert(due@.subrange(0, k as int)[m] == j);
                    }
                    assert(self.instructions@[j as int] == before.instructions@[j as int]);
                }
                assert forall|j: u64| (j as int) < mid.instructions@.len() && due@.subrange(0, k as int).contains(j) implies #[trigger] self.instructions@[j as int].status != InstructionStatus::Pending by {
                    if j != id {
                        let m = choose|m: int| 0 <= m < k && #[trigger] due@.subrange(0, k as int)[m] == j;
                        assert(m < k - 1);
                        assert(due@.subrange(0, k - 1)[m] == j);
                        assert(self.instructions@[j as int] == before.instructions@[j as int]);
                    }
                }
            }
        }
        proof {
            assert(due@.subrange(0, k as int) =~= due@);
            assert(self.schedule == mid.schedule);
            assert(states[0] == (Settlement { block: (old(self).block + 1) as u64, schedule: self.schedule, ..*old(self) }));
            if due@.len() == 0 {
                assert(*self == mid);
            }
        }
        due
    }
}

/// How many fungible legs (`kind` 0), tokens (1) or off-chain legs (2)
/// an instruction's legs hold.
fn count_legs_of(legs: &Vec<Leg>, kind: u8) -> (r: u64)
    requires
        legs@.len() <= MAX_FUNGIBLE_LEGS + MAX_OFFCHAIN_LEGS + MAX_NFTS_PER_INSTRUCTION,
        forall|k: int| 0 <= k < legs@.len() && #[trigger] legs@[k] is NonFungible ==> legs@[k]->NonFungible_ids@.len() <= MAX_NFTS_PER_LEG,
    ensures
        kind == 0 ==> r == count_fungible(legs@, legs@.len() as int),
        kind == 1 ==> r == count_nfts(legs@, legs@.len() as int),
        kind == 2 ==> r == count_offchain(legs@, legs@.len() as int),
{
    let mut n: u64 = 0;
    let mut k: usize = 0;
    while k < legs.len()
        invariant
            legs@.len() <= MAX_FUNGIBLE_LEGS + MAX_OFFCHAIN_LEGS + MAX_NFTS_PER_INSTRUCTION,
            forall|k2: int| 0 <= k2 < legs@.len() && #[trigger] legs@[k2] is NonFungible ==> legs@[k2]->NonFungible_ids@.len() <= MAX_NFTS_PER_LEG,
            k <= legs@.len(),
            n <= k * MAX_NFTS_PER_LEG,
            kind == 0 ==> n == count_fungible(legs@, k as int),
            kind == 1 ==> n == count_nfts(legs@, k as int),
            kind == 2 ==> n == count_offchain(legs@, k as int),
        decreases legs@.len() - k,
    {
        match &legs[k] {
            Leg::Fungible { .. } => {
                if kind == 0 {
                    n = n + 1;
                }
            },
            Leg::NonFungible { ids, .. } => {
                if kind == 1 {
                    n = n + ids.len() as u64;
                }
            },
            Leg::OffChain { .. } => {
                if kind == 2 {
                    n = n + 1;
                }
            },
        }
        k = k + 1;
    }
    n
}

/// Among distinct parties, `q` is among the affirmed exactly when its
/// status is `Affirmed`.
pub proof fn lemma_status_of_affirmed(inst: Instruction, q: PortfolioId)
    requires
        inst.wf(),
    ensures
        affirmed_of(inst.parties@).contains(q) <==> inst.status_of(q) == AffirmationStatus::Affirmed,
{
    lemma_affirmed_of(inst.parties@, q);
    let s = inst.parties@;
    if exists|m: int| 0 <= m < s.len() && #[trigger] s[m].portfolio == q && s[m].status == AffirmationStatus::Affirmed {
        let m = choose|m: int| 0 <= m < s.len() && #[trigger] s[m].portfolio == q && s[m].status == AffirmationStatus::Affirmed;
        assert(inst.has_party(q));
        let c = choose|c: int| 0 <= c < s.len() && #[trigger] s[c].portfolio == q;
        if c != m {
            if c < m {
                assert(s[c].portfolio != s[m].portfolio);
            } else {
                assert(s[m].portfolio != s[c].portfolio);
            }
        }
    }
    if inst.status_of(q) == AffirmationStatus::Affirmed {
        let c = choose|c: int| 0 <= c < s.len() && #[trigger] s[c].portfolio == q;
        assert(s[c].portfolio == q && s[c].status == AffirmationStatus::Affirmed);
    }
}

/// A live instruction with no missing affirmation holds reserved exactly
/// what its legs send.
pub proof fn lemma_reserved_by_settled(inst: Instruction, q: PortfolioId, b: u64)
    requires
        inst.wf(),
        inst.is_live(),
        inst.pending == 0,
    ensures
        inst.reserved_by(q, b) == outgoing(inst.legs@, q, b, inst.legs@.len() as int),
{
    let legs = inst.legs@;
    if exists|k: int| 0 <= k < legs.len() && #[trigger] legs[k].is_onchain() && legs[k].sender_of() == q {
        let k = choose|k: int| 0 <= k < legs.len() && #[trigger] legs[k].is_onchain() && legs[k].sender_of() == q;
        assert(inst.has_party(q));
        lemma_no_pending_party(inst.parties@);
        let c = choose|c: int| 0 <= c < inst.parties@.len() && #[trigger] inst.parties@[c].portfolio == q;
        assert(inst.parties@[c].status != AffirmationStatus::Pending);
    } else {
        lemma_outgoing_non_sender(legs, q, b, legs.len() as int);
    }
}

/// Settling from one of two ledgers that agree on every balance and token
/// is settling from the other.
pub proof fn lemma_settled_same(n: Ledger, a: Ledger, b: Ledger, legs: Seq<Leg>)
    requires
        a.same_fungible(b),
        a.same_nfts(b),
        a.issued() == b.issued(),
        settled(n, a, legs),
    ensures
        settled(n, b, legs),
{
    assert forall|q: PortfolioId, c: u64| #[trigger] n.total(q, c) + outgoing(legs, q, c, legs.len() as int)
        == b.total(q, c) + incoming(legs, q, c, legs.len() as int) by {
        assert(a.total(q, c) == b.total(q, c));
    }
    assert forall|q: PortfolioId, c: u64| #[trigger] n.locked(q, c) + outgoing(legs, q, c, legs.len() as int) == b.locked(q, c) by {
        assert(a.locked(q, c) == b.locked(q, c));
    }
    assert forall|c: u64, j: u64| !moves_token(legs, c, j, legs.len() as int) implies #[trigger] n.nft_owner(c, j) == b.nft_owner(c, j) by {
        assert(a.nft_owner(c, j) == b.nft_owner(c, j));
    }
    assert forall|c: u64, j: u64| !moves_token(legs, c, j, legs.len() as int) implies #[trigger] n.nft_locked(c, j) == b.nft_locked(c, j) by {
        assert(a.nft_locked(c, j) == b.nft_locked(c, j));
    }
}

/// Ledgers that agree on every balance and token agree on what they hold
/// reserved.
pub proof fn lemma_covered_same(a: Ledger, b: Ledger, legs: Seq<Leg>)
    requires
        a.same_fungible(b),
        a.same_nfts(b),
    ensures
        legs_covered(a, legs) == legs_covered(b, legs),
{
    if legs_covered(a, legs) {
        assert forall|q: PortfolioId, c: u64| #[trigger] outgoing(legs, q, c, legs.len() as int) <= b.locked(q, c) by {
            assert(a.locked(q, c) == b.locked(q, c));
        }
    }
    if legs_covered(b, legs) {
        assert forall|q: PortfolioId, c: u64| #[trigger] outgoing(legs, q, c, legs.len() as int) <= a.locked(q, c) by {
            assert(a.locked(q, c) == b.locked(q, c));
        }
    }
}

} // verus!
