use vstd::prelude::*;

use crate::ledger::Ledger;
use crate::reservation::reserved;
use crate::registry::{
    assign_custody, contains_u64, custodian_in, custodian_of, has_duplicates, no_duplicates,
    not_in, retain_not_in, AssetRecord, Custody, PortfolioApproval, TickerApproval, Venue,
};
use crate::types::{
    AffirmationStatus, InstructionStatus, Leg, LegStatus, PortfolioId, SettlementError,
    SettlementType, VenueType, MAX_FUNGIBLE_LEGS, MAX_NFTS_PER_INSTRUCTION, MAX_NFTS_PER_LEG,
    MAX_OFFCHAIN_LEGS, MAX_VENUE_SIGNERS,
};

verus! {

/// Affirmation of one portfolio that takes part in an instruction.
#[derive(Clone, Copy, Debug, PartialEq, Eq, Structural)]
pub struct Party {
    pub portfolio: PortfolioId,
    pub status: AffirmationStatus,
}

/// A call the block scheduler makes: execute `instruction` at `block`.
#[derive(Clone, Copy, Debug, PartialEq, Eq, Structural)]
pub struct ScheduledCall {
    pub block: u64,
    pub instruction: u64,
}

/// A receipt that a signer has already issued.
#[derive(Clone, Copy, Debug, PartialEq, Eq, Structural)]
pub struct UsedReceipt {
    pub signer: u64,
    pub uid: u64,
}

/// An instruction with its legs and the affirmations it waits for.
/// Once it succeeds or is rejected, only its details and status remain.
#[derive(Clone, Debug)]
pub struct Instruction {
    pub venue_id: u64,
    pub settlement_type: SettlementType,
    pub created_at: u64,
    pub trade_date: Option<u64>,
    pub value_date: Option<u64>,
    pub memo: Option<Vec<u8>>,
    pub status: InstructionStatus,
    pub legs: Vec<Leg>,
    pub leg_status: Vec<LegStatus>,
    /// Affirmation of each leg's receipt: `Unknown` for on-chain legs.
    pub offchain: Vec<AffirmationStatus>,
    pub parties: Vec<Party>,
    /// Affirmations still missing.
    pub pending: u64,
}

/// Number of parties whose affirmation is missing.
pub open spec fn pending_parties(s: Seq<Party>) -> nat
    decreases s.len(),
{
    if s.len() == 0 {
        0
    } else {
        pending_parties(s.drop_last()) + if s.last().status == AffirmationStatus::Pending {
            1nat
        } else {
            0nat
        }
    }
}

/// Number of off-chain legs whose receipt is missing.
pub open spec fn pending_receipts(s: Seq<AffirmationStatus>) -> nat
    decreases s.len(),
{
    if s.len() == 0 {
        0
    } else {
        pending_receipts(s.drop_last()) + if s.last() == AffirmationStatus::Pending {
            1nat
        } else {
            0nat
        }
    }
}

pub proof fn lemma_pending_parties_update(s: Seq<Party>, i: int, x: Party)
    requires
        0 <= i < s.len(),
    ensures
        pending_parties(s.update(i, x)) + (if s[i].status == AffirmationStatus::Pending {
            1nat
        } else {
            0nat
        }) == pending_parties(s) + (if x.status == AffirmationStatus::Pending {
            1nat
        } else {
            0nat
        }),
    decreases s.len(),
{
    if i < s.len() - 1 {
        lemma_pending_parties_update(s.drop_last(), i, x);
        assert(s.update(i, x).drop_last() =~= s.drop_last().update(i, x));
    } else {
        assert(s.update(i, x).drop_last() =~= s.drop_last());
    }
}

pub proof fn lemma_pending_receipts_update(s: Seq<AffirmationStatus>, i: int, x: AffirmationStatus)
    requires
        0 <= i < s.len(),
    ensures
        pending_receipts(s.update(i, x)) + (if s[i] == AffirmationStatus::Pending {
            1nat
        } else {
            0nat
        }) == pending_receipts(s) + (if x == AffirmationStatus::Pending {
            1nat
        } else {
            0nat
        }),
    decreases s.len(),
{
    if i < s.len() - 1 {
        lemma_pending_receipts_update(s.drop_last(), i, x);
        assert(s.update(i, x).drop_last() =~= s.drop_last().update(i, x));
    } else {
        assert(s.update(i, x).drop_last() =~= s.drop_last());
    }
}

pub proof fn lemma_pending_parties_bound(s: Seq<Party>)
    ensures
        pending_parties(s) <= s.len(),
    decreases s.len(),
{
    if s.len() > 0 {
        lemma_pending_parties_bound(s.drop_last());
    }
}

pub proof fn lemma_pending_receipts_bound(s: Seq<AffirmationStatus>)
    ensures
        pending_receipts(s) <= s.len(),
    decreases s.len(),
{
    if s.len() > 0 {
        lemma_pending_receipts_bound(s.drop_last());
    }
}

/// Whether the token ids of the non-fungible legs of `legs` are all
/// distinct, within each leg and across legs of one asset.
pub open spec fn nft_ids_distinct(legs: Seq<Leg>) -> bool {
    forall|k1: int, k2: int, i1: int, i2: int|
        0 <= k1 < legs.len() && 0 <= k2 < legs.len() && (k1, i1) != (k2, i2) && legs[k1] is NonFungible && legs[k2] is NonFungible
            && legs[k1].asset_of() == legs[k2].asset_of()
            && 0 <= i1 < legs[k1]->NonFungible_ids@.len() && 0 <= i2 < legs[k2]->NonFungible_ids@.len()
            ==> #[trigger] legs[k1]->NonFungible_ids@[i1] != #[trigger] legs[k2]->NonFungible_ids@[i2]
}

impl Instruction {
    /// Whether the instruction can still be affirmed, executed or rejected.
    pub open spec fn is_live(self) -> bool {
        self.status == InstructionStatus::Pending || self.status == InstructionStatus::Failed
    }

    pub open spec fn has_party(self, p: PortfolioId) -> bool {
        exists|k: int| 0 <= k < self.parties@.len() && #[trigger] self.parties@[k].portfolio == p
    }

    /// Consistency of an instruction's records. The count of missing
    /// affirmations is exactly the number of parties and receipts still
    /// pending.
    pub open spec fn wf(self) -> bool {
        &&& self.leg_status@.len() == self.legs@.len()
        &&& self.offchain@.len() == self.legs@.len()
        &&& self.is_live() ==> self.pending == pending_parties(self.parties@) + pending_receipts(self.offchain@)
        &&& (forall|a: int, b: int| 0 <= a < b < self.parties@.len() ==> self.parties@[a].portfolio != self.parties@[b].portfolio)
        &&& nft_ids_distinct(self.legs@)
        &&& (forall|k: int| 0 <= k < self.legs@.len() && #[trigger] self.legs@[k].is_onchain() ==> self.legs@[k].sender_of() != self.legs@[k].receiver_of())
        &&& (forall|k: int| 0 <= k < self.legs@.len() && #[trigger] self.legs@[k] is NonFungible ==> self.legs@[k]->NonFungible_ids@.len() <= MAX_NFTS_PER_LEG)
        &&& self.legs@.len() <= MAX_FUNGIBLE_LEGS + MAX_OFFCHAIN_LEGS + MAX_NFTS_PER_INSTRUCTION
        &&& self.parties@.len() <= 2 * self.legs@.len()
        &&& self.is_live() ==> (forall|m: int| 0 <= m < self.parties@.len() ==> #[trigger] self.parties@[m].status == AffirmationStatus::Pending
            || self.parties@[m].status == AffirmationStatus::Affirmed)
        &&& (forall|k: int| 0 <= k < self.legs@.len() && #[trigger] self.legs@[k].is_onchain() ==> self.has_party(self.legs@[k].sender_of()))
    }
}

/// The settlement engine: venues, assets, the ledger of balances, and the
/// instructions that move them.
pub struct Settlement {
    /// The current block.
    pub block: u64,
    pub ledger: Ledger,
    pub assets: Vec<AssetRecord>,
    pub custodians: Vec<Custody>,
    pub ticker_approvals: Vec<TickerApproval>,
    pub portfolio_approvals: Vec<PortfolioApproval>,
    pub venues: Vec<Venue>,
    /// Indexed by instruction id.
    pub instructions: Vec<Instruction>,
    /// Pending calls of the block scheduler, in the order they were made.
    pub schedule: Vec<ScheduledCall>,
    pub used_receipts: Vec<UsedReceipt>,
}

impl Settlement {
    /// Consistency of the engine: every reservation on the ledger is held
    /// by a live instruction that a portfolio affirmed, for exactly what its
    /// legs send from that portfolio.
    pub open spec fn wf(self) -> bool {
        &&& self.consistent()
        &&& self.reservations_match()
    }

    /// The reserved balance of every portfolio and asset is what the live
    /// instructions it affirmed send from it.
    pub open spec fn reservations_match(self) -> bool {
        forall|q: PortfolioId, b: u64| #[trigger] self.ledger.locked(q, b) == reserved(self.instructions@, q, b)
    }

    /// Consistency of each record on its own.
    pub open spec fn consistent(self) -> bool {
        &&& self.ledger.wf()
        &&& (forall|v: int| 0 <= v < self.venues@.len() ==> {
            &&& #[trigger] self.venues@[v].signers@.len() <= MAX_VENUE_SIGNERS
            &&& no_duplicates(self.venues@[v].signers@)
        })
        &&& (forall|a: int, b: int|
            #![trigger self.assets@[a], self.assets@[b]]
            0 <= a < b < self.assets@.len() ==> self.assets@[a].id != self.assets@[b].id)
        &&& (forall|i: int| 0 <= i < self.instructions@.len() ==> {
            &&& #[trigger] self.instructions@[i].wf()
            &&& self.instructions@[i].venue_id < self.venues@.len()
        })
    }

    /// Everything but the venues is as in `o`.
    pub open spec fn only_venues_changed(self, o: Settlement) -> bool {
        &&& self.block == o.block
        &&& self.ledger == o.ledger
        &&& self.assets == o.assets
        &&& self.custodians == o.custodians
        &&& self.ticker_approvals == o.ticker_approvals
        &&& self.portfolio_approvals == o.portfolio_approvals
        &&& self.instructions == o.instructions
        &&& self.schedule == o.schedule
        &&& self.used_receipts == o.used_receipts
    }

    /// Whether asset `a` is registered on the ledger.
    pub open spec fn asset_known(self, a: u64) -> bool {
        exists|k: int| 0 <= k < self.assets@.len() && #[trigger] self.assets@[k].id == a
    }

    /// Position of the record of asset `a`, where `asset_known(a)`.
    pub open spec fn asset_pos(self, a: u64) -> int {
        choose|k: int| 0 <= k < self.assets@.len() && #[trigger] self.assets@[k].id == a
    }

    /// The record of asset `a`, where `asset_known(a)`.
    pub open spec fn asset(self, a: u64) -> AssetRecord {
        self.assets@[self.asset_pos(a)]
    }

    /// Everything but the asset records is as in `o`.
    pub open spec fn only_assets_changed(self, o: Settlement) -> bool {
        &&& self.block == o.block
        &&& self.ledger == o.ledger
        &&& self.venues == o.venues
        &&& self.custodians == o.custodians
        &&& self.ticker_approvals == o.ticker_approvals
        &&& self.portfolio_approvals == o.portfolio_approvals
        &&& self.instructions == o.instructions
        &&& self.schedule == o.schedule
        &&& self.used_receipts == o.used_receipts
    }

    /// Everything but the ledger is as in `o`.
    pub open spec fn only_ledger_changed(self, o: Settlement) -> bool {
        &&& self.block == o.block
        &&& self.assets == o.assets
        &&& self.venues == o.venues
        &&& self.custodians == o.custodians
        &&& self.ticker_approvals == o.ticker_approvals
        &&& self.portfolio_approvals == o.portfolio_approvals
        &&& self.instructions == o.instructions
        &&& self.schedule == o.schedule
        &&& self.used_receipts == o.used_receipts
    }

    /// Everything but the standing consents and custody is as in `o`.
    pub open spec fn only_consents_changed(self, o: Settlement) -> bool {
        &&& self.block == o.block
        &&& self.ledger == o.ledger
        &&& self.assets == o.assets
        &&& self.venues == o.venues
        &&& self.instructions == o.instructions
        &&& self.schedule == o.schedule
        &&& self.used_receipts == o.used_receipts
    }

    /// Whether a transfer of `a` passes its compliance check.
    pub open spec fn transfer_allowed(self, a: u64) -> bool {
        self.asset_known(a) && self.asset(a).transfers_allowed()
    }

    /// Whether identity `did` consents to receive asset `a` in its portfolios.
    pub open spec fn ticker_approved(self, did: u64, a: u64) -> bool {
        self.ticker_approvals@.contains(TickerApproval { did, asset: a })
    }

    /// Whether portfolio `p` consents to receive asset `a`.
    pub open spec fn portfolio_approved(self, p: PortfolioId, a: u64) -> bool {
        self.portfolio_approvals@.contains(PortfolioApproval { portfolio: p, asset: a })
    }

    /// Whether `p` receiving `a` needs no affirmation: the portfolio
    /// consents, or its owner does and no other identity holds it in
    /// custody, or the asset spares all receivers.
    pub open spec fn receipt_waived(self, p: PortfolioId, a: u64) -> bool {
        ||| self.portfolio_approved(p, a)
        ||| self.ticker_approved(p.did, a) && self.custodian(p) == p.did
        ||| self.asset_known(a) && self.asset(a).exempt
    }

    /// The identity that controls portfolio `p`.
    pub open spec fn custodian(self, p: PortfolioId) -> u64 {
        custodian_in(self.custodians@, p)
    }

    pub fn new() -> (r: Settlement)
        ensures
            r.wf(),
            r.block == 0,
            r.venues@.len() == 0,
            r.instructions@.len() == 0,
            r.assets@.len() == 0,
            r.schedule@.len() == 0,
            r.ledger.issued() == 0,
            r.used_receipts@.len() == 0,
            forall|q: PortfolioId, b: u64| #[trigger] r.ledger.total(q, b) == 0,
            forall|q: PortfolioId, b: u64| #[trigger] r.ledger.locked(q, b) == 0,
            forall|b: u64, j: u64| #[trigger] r.ledger.nft_owner(b, j) == None::<PortfolioId>,
            forall|p: PortfolioId| #[trigger] r.custodian(p) == p.did,
            forall|d: u64, a: u64| !(#[trigger] r.ticker_approved(d, a)),
            forall|p: PortfolioId, a: u64| !(#[trigger] r.portfolio_approved(p, a)),
    {
        let r = Settlement {
            block: 0,
            ledger: Ledger::new(),
            assets: Vec::new(),
            custodians: Vec::new(),
            ticker_approvals: Vec::new(),
            portfolio_approvals: Vec::new(),
            venues: Vec::new(),
            instructions: Vec::new(),
            schedule: Vec::new(),
            used_receipts: Vec::new(),
        };
        proof {
            assert forall|q: PortfolioId, b: u64| #[trigger] r.ledger.locked(q, b) == reserved(r.instructions@, q, b) by {
                assert(r.ledger.locked(q, b) == 0);
            }
        }
        r
    }

    /// Index of the record of asset `a`.
    pub(crate) fn asset_index(&self, a: u64) -> (r: Option<usize>)
        requires
            self.wf(),
        ensures
            match r {
                Some(k) => k < self.assets@.len() && self.assets@[k as int].id == a && self.asset_pos(a)
                    == k && self.asset_known(a),
                None => !self.asset_known(a),
            },
    {
        let mut k: usize = 0;
        while k < self.assets.len()
            invariant
                self.wf(),
                k <= self.assets@.len(),
                forall|j: int| 0 <= j < k ==> self.assets@[j].id != a,
            decreases self.assets@.len() - k,
        {
            if self.assets[k].id == a {
                proof {
                    let c = choose|j: int| 0 <= j < self.assets@.len() && #[trigger] self.assets@[j].id == a;

                    assert(self.assets@[k as int].id == a);
                    if c != k {
                        if c < k {
                            assert(self.assets@[c].id != self.assets@[k as int].id);
                        } else {
                            assert(self.assets@[k as int].id != self.assets@[c].id);
                        }
                    }
                }
                return Some(k);
            }
            k = k + 1;
        }
        None
    }

    /// Identity that controls portfolio `p`.
    pub fn portfolio_custodian(&self, p: PortfolioId) -> (r: u64)
        ensures
            r == self.custodian(p),
    {
        custodian_of(&self.custodians, p)
    }

    /// Registers a venue of `caller` with the given signers; its id is
    /// returned. Refused when a signer repeats or there are more than
    /// the most a venue may have.
    pub fn create_venue(&mut self, caller: u64, details: Vec<u8>, signers: Vec<u64>, venue_type: VenueType) -> (r: Result<u64, SettlementError>)
        requires
            old(self).wf(),
        ensures
            final(self).wf(),
            signers@.len() > MAX_VENUE_SIGNERS ==> r == Err::<u64, SettlementError>(SettlementError::NumberOfVenueSignersExceeded),
            signers@.len() <= MAX_VENUE_SIGNERS && !no_duplicates(signers@) ==> r == Err::<u64, SettlementError>(SettlementError::SignerAlreadyExists),
            r is Ok <==> signers@.len() <= MAX_VENUE_SIGNERS && no_duplicates(signers@) && old(self).venues@.len() < u64::MAX,
            r is Err ==> *final(self) == *old(self),
            r is Ok ==> {
                &&& r->Ok_0 == old(self).venues@.len()
                &&& final(self).venues@ == old(self).venues@.push(Venue { creator: caller, venue_type, details, signers })
                &&& final(self).only_venues_changed(*old(self))
            },
    {
        if signers.len() > MAX_VENUE_SIGNERS {
            return Err(SettlementError::NumberOfVenueSignersExceeded);
        }
        if has_duplicates(&signers) {
            return Err(SettlementError::SignerAlreadyExists);
        }
        if self.venues.len() as u64 == u64::MAX {
            return Err(SettlementError::InvalidVenue);
        }
        let id = self.venues.len() as u64;
        self.venues.push(Venue { creator: caller, venue_type, details, signers });
        proof {
            assert forall|i: int| 0 <= i < self.instructions@.len() implies {
                &&& #[trigger] self.instructions@[i].wf()
                &&& self.instructions@[i].venue_id < self.venues@.len()
            } by {
                assert(old(self).instructions@[i].wf());
            }
            assert forall|v: int| 0 <= v < self.venues@.len() implies {
                &&& #[trigger] self.venues@[v].signers@.len() <= MAX_VENUE_SIGNERS
                &&& no_duplicates(self.venues@[v].signers@)
            } by {
                if v < old(self).venues@.len() {
                    assert(old(self).venues@[v] == self.venues@[v]);
                }
            }
        }
        Ok(id)
    }

    /// Whether `s` may sign receipts for venue `v`.
    pub fn venue_signer(&self, v: u64, signer: u64) -> (r: bool)
        ensures
            r == ((v as int) < self.venues@.len() && self.venues@[v as int].signers@.contains(signer)),
    {
        if v >= self.venues.len() as u64 {
            return false;
        }
        contains_u64(&self.venues[v as usize].signers, signer)
    }

    /// Number of signers of venue `v`.
    pub fn venue_signer_count(&self, v: u64) -> (r: usize)
        ensures
            (v as int) < self.venues@.len() ==> r == self.venues@[v as int].signers@.len(),
            (v as int) >= self.venues@.len() ==> r == 0,
    {
        if v >= self.venues.len() as u64 {
            return 0;
        }
        self.venues[v as usize].signers.len()
    }

    /// Checks that venue `v` exists and that `caller` created it.
    fn check_venue_creator(&self, caller: u64, v: u64) -> (r: Result<usize, SettlementError>)
        ensures
            (v as int) >= self.venues@.len() ==> r == Err::<usize, SettlementError>(SettlementError::InvalidVenue),
            (v as int) < self.venues@.len() && self.venues@[v as int].creator != caller ==> r == Err::<usize, SettlementError>(SettlementError::Unauthorized),
            r is Ok <==> (v as int) < self.venues@.len() && self.venues@[v as int].creator == caller,
            r is Ok ==> r->Ok_0 == v,
    {
        if v >= self.venues.len() as u64 {
            return Err(SettlementError::InvalidVenue);
        }
        if self.venues[v as usize].creator != caller {
            return Err(SettlementError::Unauthorized);
        }
        Ok(v as usize)
    }

    /// Replaces the details of venue `v`; only its creator may.
    pub fn update_venue_details(&mut self, caller: u64, v: u64, details: Vec<u8>) -> (r: Result<(), SettlementError>)
        requires
            old(self).wf(),
        ensures
            final(self).wf(),
            (v as int) >= old(self).venues@.len() ==> r == Err::<(), SettlementError>(SettlementError::InvalidVenue),
            (v as int) < old(self).venues@.len() && old(self).venues@[v as int].creator != caller ==> r == Err::<(), SettlementError>(SettlementError::Unauthorized),
            r is Ok <==> (v as int) < old(self).venues@.len() && old(self).venues@[v as int].creator == caller,
            r is Err ==> *final(self) == *old(self),
            r is Ok ==> final(self).only_venues_changed(*old(self)) && final(self).venues@ == old(self).venues@.update(
                v as int,
                Venue { details, ..old(self).venues@[v as int] },
            ),
    {
        let k = self.check_venue_creator(caller, v)?;
        let mut venue = Venue { creator: 0, venue_type: VenueType::Other, details: Vec::new(), signers: Vec::new() };
        self.venues.set_and_swap(k, &mut venue);
        venue.details = details;
        self.venues.set(k, venue);
        proof {
            assert(self.venues@ =~= old(self).venues@.update(v as int, venue));
            self.lemma_venues_update_wf(*old(self), v as int);
        }
        Ok(())
    }

    /// Replaces the type of venue `v`; only its creator may.
    pub fn update_venue_type(&mut self, caller: u64, v: u64, venue_type: VenueType) -> (r: Result<(), SettlementError>)
        requires
            old(self).wf(),
        ensures
            final(self).wf(),
            (v as int) >= old(self).venues@.len() ==> r == Err::<(), SettlementError>(SettlementError::InvalidVenue),
            (v as int) < old(self).venues@.len() && old(self).venues@[v as int].creator != caller ==> r == Err::<(), SettlementError>(SettlementError::Unauthorized),
            r is Ok <==> (v as int) < old(self).venues@.len() && old(self).venues@[v as int].creator == caller,
            r is Err ==> *final(self) == *old(self),
            r is Ok ==> final(self).only_venues_changed(*old(self)) && final(self).venues@ == old(self).venues@.update(
                v as int,
                Venue { venue_type, ..old(self).venues@[v as int] },
            ),
    {
        let k = self.check_venue_creator(caller, v)?;
        let mut venue = Venue { creator: 0, venue_type: VenueType::Other, details: Vec::new(), signers: Vec::new() };
        self.venues.set_and_swap(k, &mut venue);
        venue.venue_type = venue_type;
        self.venues.set(k, venue);
        proof {
            assert(self.venues@ =~= old(self).venues@.update(v as int, venue));
            self.lemma_venues_update_wf(*old(self), v as int);
        }
        Ok(())
    }

    proof fn lemma_venues_update_wf(self, o: Settlement, v: int)
        requires
            o.wf(),
            self.only_venues_changed(o),
            0 <= v < o.venues@.len(),
            self.venues@.len() == o.venues@.len(),
            forall|w: int| 0 <= w < o.venues@.len() && w != v ==> self.venues@[w] == o.venues@[w],
            self.venues@[v].signers@.len() <= MAX_VENUE_SIGNERS,
            no_duplicates(self.venues@[v].signers@),
        ensures
            self.wf(),
    {
        assert forall|q: PortfolioId, b: u64| #[trigger] self.ledger.locked(q, b) == reserved(self.instructions@, q, b) by {
            assert(o.ledger.locked(q, b) == reserved(o.instructions@, q, b));
        }
        assert forall|i: int| 0 <= i < self.instructions@.len() implies {
            &&& #[trigger] self.instructions@[i].wf()
            &&& self.instructions@[i].venue_id < self.venues@.len()
        } by {
            assert(o.instructions@[i].wf());
        }
        assert forall|w: int| 0 <= w < self.venues@.len() implies {
            &&& #[trigger] self.venues@[w].signers@.len() <= MAX_VENUE_SIGNERS
            &&& no_duplicates(self.venues@[w].signers@)
        } by {
            if w != v {
                assert(o.venues@[w] == self.venues@[w]);
            }
        }
        assert(self.consistent());
        assert(self.reservations_match());
    }

    /// Adds (`add`) or removes signers of venue `v`; only its creator may.
    /// Adding a signer the venue has, or naming one twice, is refused, as
    /// is going over the most signers a venue may have; removing one it
    /// does not have is refused.
    pub fn update_venue_signers(&mut self, caller: u64, v: u64, signers: Vec<u64>, add: bool) -> (r: Result<(), SettlementError>)
        requires
            old(self).wf(),
        ensures
            final(self).wf(),
            (v as int) >= old(self).venues@.len() ==> r == Err::<(), SettlementError>(SettlementError::InvalidVenue),
            (v as int) < old(self).venues@.len() && old(self).venues@[v as int].creator != caller ==> r == Err::<(), SettlementError>(SettlementError::Unauthorized),
            r is Err ==> *final(self) == *old(self),
            (v as int) < old(self).venues@.len() && old(self).venues@[v as int].creator == caller ==> {
                let cur = old(self).venues@[v as int].signers@;
                if add {
                    &&& (!no_duplicates(signers@) || exists|k: int| 0 <= k < signers@.len() && cur.contains(#[trigger] signers@[k]))
                        ==> r == Err::<(), SettlementError>(SettlementError::SignerAlreadyExists)
                    &&& (no_duplicates(signers@) && (forall|k: int| 0 <= k < signers@.len() ==> !cur.contains(#[trigger] signers@[k]))
                        && cur.len() + signers@.len() > MAX_VENUE_SIGNERS)
                        ==> r == Err::<(), SettlementError>(SettlementError::NumberOfVenueSignersExceeded)
                    &&& r is Ok <==> no_duplicates(signers@) && (forall|k: int| 0 <= k < signers@.len() ==> !cur.contains(#[trigger] signers@[k]))
                        && cur.len() + signers@.len() <= MAX_VENUE_SIGNERS
                    &&& r is Ok ==> final(self).venues@[v as int].signers@ == cur + signers@
                } else {
                    &&& r is Ok <==> no_duplicates(signers@) && (forall|k: int| 0 <= k < signers@.len() ==> cur.contains(#[trigger] signers@[k]))
                    &&& r is Err ==> r == Err::<(), SettlementError>(SettlementError::SignerDoesNotExist)
                    &&& r is Ok ==> final(self).venues@[v as int].signers@ == cur.filter(not_in(signers@))
                    &&& r is Ok ==> final(self).venues@[v as int].signers@.len() == cur.len() - signers@.len()
                }
            },
            r is Ok ==> final(self).only_venues_changed(*old(self)) && final(self).venues@ == old(self).venues@.update(
                v as int,
                Venue { signers: final(self).venues@[v as int].signers, ..old(self).venues@[v as int] },
            ),
    {
        let k = self.check_venue_creator(caller, v)?;
        let ghost cur = self.venues@[v as int].signers@;
        if has_duplicates(&signers) {
            return Err(if add { SettlementError::SignerAlreadyExists } else { SettlementError::SignerDoesNotExist });
        }
        let mut i: usize = 0;
        while i < signers.len()
            invariant
                *self == *old(self),
                old(self).wf(),
                old(self).venues@[v as int].creator == caller,
                k == v,
                (k as int) < self.venues@.len(),
                cur == self.venues@[k as int].signers@,
                i <= signers@.len(),
                forall|j: int| 0 <= j < i ==> (cur.contains(#[trigger] signers@[j]) != add),
            decreases signers@.len() - i,
        {
            let present = contains_u64(&self.venues[k].signers, signers[i]);
            if present && add {
                return Err(SettlementError::SignerAlreadyExists);
            }
            if !present && !add {
                return Err(SettlementError::SignerDoesNotExist);
            }
            i = i + 1;
        }
        if add && (signers.len() > MAX_VENUE_SIGNERS || self.venues[k].signers.len() > MAX_VENUE_SIGNERS - signers.len()) {
            proof {
                assert(self.venues@[k as int].signers@.len() <= MAX_VENUE_SIGNERS);
            }
            return Err(SettlementError::NumberOfVenueSignersExceeded);
        }
        let mut venue = Venue { creator: 0, venue_type: VenueType::Other, details: Vec::new(), signers: Vec::new() };
        self.venues.set_and_swap(k, &mut venue);
        if add {
            let ghost before = venue.signers@;
            let mut signers = signers;
            venue.signers.append(&mut signers);
            proof {
                assert forall|a: int, b: int| 0 <= a < b < venue.signers@.len() implies venue.signers@[a] != venue.signers@[b] by {
                    if b >= before.len() && a < before.len() {
                        assert(!cur.contains(venue.signers@[b]));
                    }
                }
            }
        } else {
            let kept = retain_not_in(&venue.signers, &signers);
            venue.signers = kept;
        }
        self.venues.set(k, venue);
        proof {
            assert(self.venues@ =~= old(self).venues@.update(v as int, Venue { signers: self.venues@[v as int].signers, ..old(self).venues@[v as int] }));
            self.lemma_venues_update_wf(*old(self), v as int);
        }
        Ok(())
    }

    /// Index of asset `a`, which `caller` must own.
    pub(crate) fn owned_asset(&self, caller: u64, a: u64) -> (r: Result<usize, SettlementError>)
        requires
            self.wf(),
        ensures
            !self.asset_known(a) ==> r == Err::<usize, SettlementError>(SettlementError::UnknownAsset),
            self.asset_known(a) && self.asset(a).owner != caller ==> r == Err::<usize, SettlementError>(SettlementError::Unauthorized),
            r is Ok <==> self.asset_known(a) && self.asset(a).owner == caller,
            r is Ok ==> r->Ok_0 == self.asset_pos(a) && self.asset_known(a),
    {
        match self.asset_index(a) {
            None => Err(SettlementError::UnknownAsset),
            Some(k) => {
                if self.assets[k].owner != caller {
                    return Err(SettlementError::Unauthorized);
                }
                Ok(k)
            },
        }
    }

    /// Replacing one asset record by one of the same asset leaves every
    /// asset known where it was, with only that record changed.
    pub proof fn lemma_asset_update(self, o: Settlement, k: int, rec: AssetRecord)
        requires
            o.wf(),
            0 <= k < o.assets@.len(),
            rec.id == o.assets@[k].id,
            self.assets@ == o.assets@.update(k, rec),
        ensures
            forall|b: u64| #[trigger] self.asset_known(b) == o.asset_known(b),
            forall|b: u64| o.asset_known(b) ==> #[trigger] self.asset_pos(b) == o.asset_pos(b),
            forall|b: u64| o.asset_known(b) ==> #[trigger] self.asset(b) == if b == rec.id {
                rec
            } else {
                o.asset(b)
            },
    {
        assert forall|b: u64| #[trigger] self.asset_known(b) == o.asset_known(b) by {
            if o.asset_known(b) {
                let j = choose|j: int| 0 <= j < o.assets@.len() && #[trigger] o.assets@[j].id == b;
                assert(self.assets@[j].id == b);
            }
            if self.asset_known(b) {
                let j = choose|j: int| 0 <= j < self.assets@.len() && #[trigger] self.assets@[j].id == b;
                assert(o.assets@[j].id == b);
            }
        }
        assert forall|b: u64| o.asset_known(b) implies #[trigger] self.asset_pos(b) == o.asset_pos(b) by {
            let c1 = o.asset_pos(b);
            let c2 = self.asset_pos(b);
            assert(self.asset_known(b));
            assert(o.assets@[c2].id == b);
            if c1 != c2 {
                if c1 < c2 {
                    assert(o.assets@[c1].id != o.assets@[c2].id);
                } else {
                    assert(o.assets@[c2].id != o.assets@[c1].id);
                }
            }
        }
        assert forall|b: u64| o.asset_known(b) implies #[trigger] self.asset(b) == if b == rec.id {
            rec
        } else {
            o.asset(b)
        } by {
            assert(self.asset_pos(b) == o.asset_pos(b));
            let c = o.asset_pos(b);
            if c == k {
                assert(b == rec.id);
            } else if b == rec.id {
                assert(o.assets@[c].id == o.assets@[k].id);
                if c < k {
                    assert(o.assets@[c].id != o.assets@[k].id);
                } else {
                    assert(o.assets@[k].id != o.assets@[c].id);
                }
            }
        }
    }

    /// Takes the record at `k` out, leaving a placeholder.
    fn take_asset(&mut self, k: usize) -> (r: AssetRecord)
        requires
            k < old(self).assets@.len(),
        ensures
            r == old(self).assets@[k as int],
            final(self).assets@.len() == old(self).assets@.len(),
            forall|j: int| 0 <= j < old(self).assets@.len() && j != k ==> final(self).assets@[j] == old(self).assets@[j],
            final(self).only_assets_changed(*old(self)),
    {
        let mut rec = AssetRecord {
            id: 0,
            owner: 0,
            frozen: false,
            compliant: false,
            exempt: false,
            venue_filtering: false,
            allowed_venues: Vec::new(),
        };
        self.assets.set_and_swap(k, &mut rec);
        rec
    }

    /// Puts `rec` back at `k`, where `o` held a record of the same asset.
    fn restore_asset(&mut self, k: usize, rec: AssetRecord, o: Ghost<Settlement>)
        requires
            o@.wf(),
            k < o@.assets@.len(),
            rec.id == o@.assets@[k as int].id,
            old(self).only_assets_changed(o@),
            old(self).assets@.len() == o@.assets@.len(),
            forall|j: int| 0 <= j < o@.assets@.len() && j != k ==> old(self).assets@[j] == o@.assets@[j],
        ensures
            final(self).assets@ == o@.assets@.update(k as int, rec),
            final(self).only_assets_changed(o@),
            final(self).wf(),
    {
        self.assets.set(k, rec);
        proof {
            assert(self.assets@ =~= o@.assets@.update(k as int, rec));
            assert forall|a: int, b: int|
                #![trigger self.assets@[a], self.assets@[b]]
                0 <= a < b < self.assets@.len() implies self.assets@[a].id != self.assets@[b].id by {
                assert(o@.assets@[a].id != o@.assets@[b].id);
            }
            assert forall|i: int| 0 <= i < self.instructions@.len() implies {
                &&& #[trigger] self.instructions@[i].wf()
                &&& self.instructions@[i].venue_id < self.venues@.len()
            } by {
                assert(o@.instructions@[i].wf());
            }
        }
    }

    /// Registers asset `a`, owned by `caller`, with transfers not yet
    /// admitted by its compliance rules.
    pub fn create_asset(&mut self, caller: u64, a: u64) -> (r: Result<(), SettlementError>)
        requires
            old(self).wf(),
        ensures
            final(self).wf(),
            r is Ok <==> !old(self).asset_known(a),
            r is Err ==> r == Err::<(), SettlementError>(SettlementError::AssetAlreadyExists) && *final(self) == *old(self),
            r is Ok ==> {
                &&& final(self).only_assets_changed(*old(self))
                &&& final(self).assets@.len() == old(self).assets@.len() + 1
                &&& forall|k: int| 0 <= k < old(self).assets@.len() ==> #[trigger] final(self).assets@[k] == old(self).assets@[k]
                &&& final(self).asset_known(a)
                &&& final(self).asset(a).owner == caller
                &&& !final(self).asset(a).frozen
                &&& !final(self).asset(a).compliant
                &&& !final(self).asset(a).exempt
                &&& !final(self).asset(a).venue_filtering
                &&& final(self).asset(a).allowed_venues@.len() == 0
            },
    {
        if self.asset_index(a).is_some() {
            return Err(SettlementError::AssetAlreadyExists);
        }
        self.assets.push(AssetRecord {
            id: a,
            owner: caller,
            frozen: false,
            compliant: false,
            exempt: false,
            venue_filtering: false,
            allowed_venues: Vec::new(),
        });
        proof {
            let n = old(self).assets@.len() as int;
            assert(self.assets@[n].id == a);
            assert forall|x: int, y: int|
                #![trigger self.assets@[x], self.assets@[y]]
                0 <= x < y < self.assets@.len() implies self.assets@[x].id != self.assets@[y].id by {
                if y < n {
                    assert(old(self).assets@[x].id != old(self).assets@[y].id);
                } else {
                    assert(!old(self).asset_known(a));
                    assert(old(self).assets@[x].id != a);
                }
            }
            let c = self.asset_pos(a);
            if c != n {
                assert(self.assets@[c].id != self.assets@[n].id);
            }
            assert forall|i: int| 0 <= i < self.instructions@.len() implies {
                &&& #[trigger] self.instructions@[i].wf()
                &&& self.instructions@[i].venue_id < self.venues@.len()
            } by {
                assert(old(self).instructions@[i].wf());
            }
        }
        Ok(())
    }

    /// Mints `amount` of asset `a` into the default portfolio of its owner
    /// `caller`.
    pub fn issue(&mut self, caller: u64, a: u64, amount: u128) -> (r: Result<(), SettlementError>)
        requires
            old(self).wf(),
        ensures
            final(self).wf(),
            !old(self).asset_known(a) ==> r == Err::<(), SettlementError>(SettlementError::UnknownAsset),
            old(self).asset_known(a) && old(self).asset(a).owner != caller ==> r == Err::<(), SettlementError>(SettlementError::Unauthorized),
            old(self).asset_known(a) && old(self).asset(a).owner == caller && old(self).ledger.issued() + amount > u128::MAX
                ==> r == Err::<(), SettlementError>(SettlementError::BalanceOverflow),
            r is Ok <==> old(self).asset_known(a) && old(self).asset(a).owner == caller && old(self).ledger.issued() + amount <= u128::MAX,
            r is Err ==> *final(self) == *old(self),
            r is Ok ==> {
                let p = PortfolioId { did: caller, number: 0 };
                &&& final(self).only_ledger_changed(*old(self))
                &&& final(self).ledger.total(p, a) == old(self).ledger.total(p, a) + amount
                &&& final(self).ledger.locked(p, a) == old(self).ledger.locked(p, a)
                &&& final(self).ledger.same_except(old(self).ledger, p, a)
                &&& final(self).ledger.same_nfts(old(self).ledger)
            },
    {
        self.owned_asset(caller, a)?;
        let r = self.ledger.deposit(PortfolioId { did: caller, number: 0 }, a, amount);
        proof {
            assert(self.reservations_match()) by {
                assert forall|q: PortfolioId, b: u64| #[trigger] self.ledger.locked(q, b) == reserved(self.instructions@, q, b) by {
                    assert(old(self).ledger.locked(q, b) == reserved(old(self).instructions@, q, b));
                }
            }
            assert forall|q: PortfolioId, b: u64| #[trigger] self.ledger.locked(q, b) == reserved(self.instructions@, q, b) by {
                assert(old(self).ledger.locked(q, b) == reserved(old(self).instructions@, q, b));
            }
            assert forall|i: int| 0 <= i < self.instructions@.len() implies {
                &&& #[trigger] self.instructions@[i].wf()
                &&& self.instructions@[i].venue_id < self.venues@.len()
            } by {
                assert(old(self).instructions@[i].wf());
            }
        }
        r
    }

    /// Mints the token `id` of collection `a` into the default portfolio of
    /// its owner `caller`.
    pub fn issue_nft(&mut self, caller: u64, a: u64, id: u64) -> (r: Result<(), SettlementError>)
        requires
            old(self).wf(),
        ensures
            final(self).wf(),
            !old(self).asset_known(a) ==> r == Err::<(), SettlementError>(SettlementError::UnknownAsset),
            old(self).asset_known(a) && old(self).asset(a).owner != caller ==> r == Err::<(), SettlementError>(SettlementError::Unauthorized),
            old(self).asset_known(a) && old(self).asset(a).owner == caller && old(self).ledger.nft_owner(a, id) is Some
                ==> r == Err::<(), SettlementError>(SettlementError::DuplicatedNFTId),
            r is Ok <==> old(self).asset_known(a) && old(self).asset(a).owner == caller && old(self).ledger.nft_owner(a, id) is None,
            r is Err ==> *final(self) == *old(self),
            r is Ok ==> {
                &&& final(self).only_ledger_changed(*old(self))
                &&& final(self).ledger.nft_owner(a, id) == Some(PortfolioId { did: caller, number: 0 })
                &&& !final(self).ledger.nft_locked(a, id)
                &&& final(self).ledger.nfts_same_except(old(self).ledger, a, id)
                &&& final(self).ledger.same_fungible(old(self).ledger)
            },
    {
        self.owned_asset(caller, a)?;
        let r = self.ledger.mint_nft(PortfolioId { did: caller, number: 0 }, a, id);
        proof {
            assert(self.reservations_match()) by {
                assert forall|q: PortfolioId, b: u64| #[trigger] self.ledger.locked(q, b) == reserved(self.instructions@, q, b) by {
                    assert(old(self).ledger.locked(q, b) == reserved(old(self).instructions@, q, b));
                }
            }
            assert forall|q: PortfolioId, b: u64| #[trigger] self.ledger.locked(q, b) == reserved(self.instructions@, q, b) by {
                assert(old(self).ledger.locked(q, b) == reserved(old(self).instructions@, q, b));
            }
            assert forall|i: int| 0 <= i < self.instructions@.len() implies {
                &&& #[trigger] self.instructions@[i].wf()
                &&& self.instructions@[i].venue_id < self.venues@.len()
            } by {
                assert(old(self).instructions@[i].wf());
            }
        }
        r
    }

    /// Freezes (`frozen`) or unfreezes asset `a`; only its owner may.
    pub fn set_frozen(&mut self, caller: u64, a: u64, frozen: bool) -> (r: Result<(), SettlementError>)
        requires
            old(self).wf(),
        ensures
            final(self).wf(),
            !old(self).asset_known(a) ==> r == Err::<(), SettlementError>(SettlementError::UnknownAsset),
            old(self).asset_known(a) && old(self).asset(a).owner != caller ==> r == Err::<(), SettlementError>(SettlementError::Unauthorized),
            r is Ok <==> old(self).asset_known(a) && old(self).asset(a).owner == caller,
            r is Err ==> *final(self) == *old(self),
            r is Ok ==> final(self).only_assets_changed(*old(self)) && final(self).assets@ == old(self).assets@.update(
                old(self).asset_pos(a),
                AssetRecord { frozen, ..old(self).asset(a) },
            ),
            r is Ok ==> {
                &&& final(self).asset_known(a)
                &&& final(self).asset(a) == (AssetRecord { frozen, ..old(self).asset(a) })
                &&& forall|b: u64| #[trigger] final(self).asset_known(b) == old(self).asset_known(b)
                &&& forall|b: u64| b != a && old(self).asset_known(b) ==> #[trigger] final(self).asset(b) == old(self).asset(b)
            },
    {
        let k = self.owned_asset(caller, a)?;
        let ghost o = *self;
        let mut rec = self.take_asset(k);
        rec.frozen = frozen;
        self.restore_asset(k, rec, Ghost(o));
        proof {
            self.lemma_asset_update(o, k as int, rec);
        }
        Ok(())
    }

    /// Sets whether the compliance rules of asset `a` admit transfers;
    /// only its owner may.
    pub fn set_compliance(&mut self, caller: u64, a: u64, compliant: bool) -> (r: Result<(), SettlementError>)
        requires
            old(self).wf(),
        ensures
            final(self).wf(),
            !old(self).asset_known(a) ==> r == Err::<(), SettlementError>(SettlementError::UnknownAsset),
            old(self).asset_known(a) && old(self).asset(a).owner != caller ==> r == Err::<(), SettlementError>(SettlementError::Unauthorized),
            r is Ok <==> old(self).asset_known(a) && old(self).asset(a).owner == caller,
            r is Err ==> *final(self) == *old(self),
            r is Ok ==> final(self).only_assets_changed(*old(self)) && final(self).assets@ == old(self).assets@.update(
                old(self).asset_pos(a),
                AssetRecord { compliant, ..old(self).asset(a) },
            ),
            r is Ok ==> {
                &&& final(self).asset_known(a)
                &&& final(self).asset(a) == (AssetRecord { compliant, ..old(self).asset(a) })
                &&& forall|b: u64| #[trigger] final(self).asset_known(b) == old(self).asset_known(b)
                &&& forall|b: u64| b != a && old(self).asset_known(b) ==> #[trigger] final(self).asset(b) == old(self).asset(b)
            },
    {
        let k = self.owned_asset(caller, a)?;
        let ghost o = *self;
        let mut rec = self.take_asset(k);
        rec.compliant = compliant;
        self.restore_asset(k, rec, Ghost(o));
        proof {
            self.lemma_asset_update(o, k as int, rec);
        }
        Ok(())
    }

    /// Sets whether receivers of asset `a` are spared from affirming.
    pub fn set_affirmation_exemption(&mut self, a: u64, exempt: bool) -> (r: Result<(), SettlementError>)
        requires
            old(self).wf(),
        ensures
            final(self).wf(),
            r is Ok <==> old(self).asset_known(a),
            r is Err ==> r == Err::<(), SettlementError>(SettlementError::UnknownAsset) && *final(self) == *old(self),
            r is Ok ==> final(self).only_assets_changed(*old(self)) && final(self).assets@ == old(self).assets@.update(
                old(self).asset_pos(a),
                AssetRecord { exempt, ..old(self).asset(a) },
            ),
            r is Ok ==> {
                &&& final(self).asset_known(a)
                &&& final(self).asset(a) == (AssetRecord { exempt, ..old(self).asset(a) })
                &&& forall|b: u64| #[trigger] final(self).asset_known(b) == old(self).asset_known(b)
                &&& forall|b: u64| b != a && old(self).asset_known(b) ==> #[trigger] final(self).asset(b) == old(self).asset(b)
            },
    {
        let k = match self.asset_index(a) {
            None => return Err(SettlementError::UnknownAsset),
            Some(k) => k,
        };
        let ghost o = *self;
        let mut rec = self.take_asset(k);
        rec.exempt = exempt;
        self.restore_asset(k, rec, Ghost(o));
        proof {
            self.lemma_asset_update(o, k as int, rec);
        }
        Ok(())
    }

    /// Turns venue filtering of asset `a` on or off; only its owner may.
    pub fn set_venue_filtering(&mut self, caller: u64, a: u64, enabled: bool) -> (r: Result<(), SettlementError>)
        requires
            old(self).wf(),
        ensures
            final(self).wf(),
            !old(self).asset_known(a) ==> r == Err::<(), SettlementError>(SettlementError::UnknownAsset),
            old(self).asset_known(a) && old(self).asset(a).owner != caller ==> r == Err::<(), SettlementError>(SettlementError::Unauthorized),
            r is Ok <==> old(self).asset_known(a) && old(self).asset(a).owner == caller,
            r is Err ==> *final(self) == *old(self),
            r is Ok ==> final(self).only_assets_changed(*old(self)) && final(self).assets@ == old(self).assets@.update(
                old(self).asset_pos(a),
                AssetRecord { venue_filtering: enabled, ..old(self).asset(a) },
            ),
            r is Ok ==> {
                &&& final(self).asset_known(a)
                &&& final(self).asset(a) == (AssetRecord { venue_filtering: enabled, ..old(self).asset(a) })
                &&& forall|b: u64| #[trigger] final(self).asset_known(b) == old(self).asset_known(b)
                &&& forall|b: u64| b != a && old(self).asset_known(b) ==> #[trigger] final(self).asset(b) == old(self).asset(b)
            },
    {
        let k = self.owned_asset(caller, a)?;
        let ghost o = *self;
        let mut rec = self.take_asset(k);
        rec.venue_filtering = enabled;
        self.restore_asset(k, rec, Ghost(o));
        proof {
            self.lemma_asset_update(o, k as int, rec);
        }
        Ok(())
    }

    /// Lets the venues `venues` carry asset `a`; only its owner may.
    pub fn allow_venues(&mut self, caller: u64, a: u64, venues: Vec<u64>) -> (r: Result<(), SettlementError>)
        requires
            old(self).wf(),
        ensures
            final(self).wf(),
            !old(self).asset_known(a) ==> r == Err::<(), SettlementError>(SettlementError::UnknownAsset),
            old(self).asset_known(a) && old(self).asset(a).owner != caller ==> r == Err::<(), SettlementError>(SettlementError::Unauthorized),
            r is Ok <==> old(self).asset_known(a) && old(self).asset(a).owner == caller,
            r is Err ==> *final(self) == *old(self),
            r is Ok ==> {
                &&& final(self).only_assets_changed(*old(self))
                &&& final(self).assets@.len() == old(self).assets@.len()
                &&& final(self).asset_known(a)
                &&& final(self).asset_pos(a) == old(self).asset_pos(a)
                &&& final(self).asset(a).allowed_venues@ == old(self).asset(a).allowed_venues@ + venues@
                &&& final(self).asset(a).venue_filtering == old(self).asset(a).venue_filtering
                &&& forall|j: int| 0 <= j < old(self).assets@.len() && j != old(self).asset_pos(a) ==> #[trigger] final(self).assets@[j] == old(self).assets@[j]
            },
    {
        let k = self.owned_asset(caller, a)?;
        let ghost o = *self;
        let mut rec = self.take_asset(k);
        let mut venues = venues;
        rec.allowed_venues.append(&mut venues);
        self.restore_asset(k, rec, Ghost(o));
        proof {
            assert(self.assets@[k as int].id == a);
            let c = self.asset_pos(a);
            if c != k {
                if c < k {
                    assert(self.assets@[c].id != self.assets@[k as int].id);
                } else {
                    assert(self.assets@[k as int].id != self.assets@[c].id);
                }
            }
        }
        Ok(())
    }

    /// Stops the venues `venues` from carrying asset `a`; only its owner may.
    pub fn disallow_venues(&mut self, caller: u64, a: u64, venues: Vec<u64>) -> (r: Result<(), SettlementError>)
        requires
            old(self).wf(),
        ensures
            final(self).wf(),
            !old(self).asset_known(a) ==> r == Err::<(), SettlementError>(SettlementError::UnknownAsset),
            old(self).asset_known(a) && old(self).asset(a).owner != caller ==> r == Err::<(), SettlementError>(SettlementError::Unauthorized),
            r is Ok <==> old(self).asset_known(a) && old(self).asset(a).owner == caller,
            r is Err ==> *final(self) == *old(self),
            r is Ok ==> {
                &&& final(self).only_assets_changed(*old(self))
                &&& final(self).assets@.len() == old(self).assets@.len()
                &&& final(self).asset_known(a)
                &&& final(self).asset_pos(a) == old(self).asset_pos(a)
                &&& final(self).asset(a).allowed_venues@ == old(self).asset(a).allowed_venues@.filter(not_in(venues@))
                &&& final(self).asset(a).venue_filtering == old(self).asset(a).venue_filtering
                &&& forall|j: int| 0 <= j < old(self).assets@.len() && j != old(self).asset_pos(a) ==> #[trigger] final(self).assets@[j] == old(self).assets@[j]
            },
    {
        let k = self.owned_asset(caller, a)?;
        let ghost o = *self;
        let mut rec = self.take_asset(k);
        rec.allowed_venues = retain_not_in(&rec.allowed_venues, &venues);
        self.restore_asset(k, rec, Ghost(o));
        proof {
            assert(self.assets@[k as int].id == a);
            let c = self.asset_pos(a);
            if c != k {
                if c < k {
                    assert(self.assets@[c].id != self.assets@[k as int].id);
                } else {
                    assert(self.assets@[k as int].id != self.assets@[c].id);
                }
            }
        }
        Ok(())
    }

    fn has_ticker_approval(&self, did: u64, a: u64) -> (r: bool)
        ensures
            r == self.ticker_approved(did, a),
    {
        let t = TickerApproval { did, asset: a };
        let mut i: usize = 0;
        while i < self.ticker_approvals.len()
            invariant
                t == (TickerApproval { did, asset: a }),
                i <= self.ticker_approvals@.len(),
                forall|k: int| 0 <= k < i ==> self.ticker_approvals@[k] != t,
            decreases self.ticker_approvals@.len() - i,
        {
            if self.ticker_approvals[i] == t {
                assert(self.ticker_approvals@[i as int] == t);
                assert(self.ticker_approvals@.contains(t));
                return true;
            }
            i = i + 1;
        }
        false
    }

    fn has_portfolio_approval(&self, p: PortfolioId, a: u64) -> (r: bool)
        ensures
            r == self.portfolio_approved(p, a),
    {
        let t = PortfolioApproval { portfolio: p, asset: a };
        let mut i: usize = 0;
        while i < self.portfolio_approvals.len()
            invariant
                t == (PortfolioApproval { portfolio: p, asset: a }),
                i <= self.portfolio_approvals@.len(),
                forall|k: int| 0 <= k < i ==> self.portfolio_approvals@[k] != t,
            decreases self.portfolio_approvals@.len() - i,
        {
            if self.portfolio_approvals[i] == t {
                assert(self.portfolio_approvals@[i as int] == t);
                assert(self.portfolio_approvals@.contains(t));
                return true;
            }
            i = i + 1;
        }
        false
    }

    /// Whether `p` receiving `a` needs no affirmation.
    pub fn is_receipt_waived(&self, p: PortfolioId, a: u64) -> (r: bool)
        requires
            self.wf(),
        ensures
            r == self.receipt_waived(p, a),
    {
        if self.has_portfolio_approval(p, a) {
            return true;
        }
        if self.has_ticker_approval(p.did, a) && custodian_of(&self.custodians, p) == p.did {
            return true;
        }
        match self.asset_index(a) {
            Some(k) => self.assets[k].exempt,
            None => false,
        }
    }

    /// Records that `caller` consents to receive asset `a` in any of its
    /// portfolios that no other identity holds in custody.
    pub fn pre_approve_ticker(&mut self, caller: u64, a: u64)
        requires
            old(self).wf(),
        ensures
            final(self).wf(),
            final(self).only_consents_changed(*old(self)),
            final(self).custodians == old(self).custodians,
            final(self).portfolio_approvals == old(self).portfolio_approvals,
            forall|d: u64, b: u64| #[trigger] final(self).ticker_approved(d, b) == (old(self).ticker_approved(d, b) || (d == caller && b == a)),
    {
        if !self.has_ticker_approval(caller, a) {
            self.ticker_approvals.push(TickerApproval { did: caller, asset: a });
        }
        proof {
            assert forall|d: u64, b: u64| #[trigger] self.ticker_approved(d, b) == (old(self).ticker_approved(d, b) || (d == caller && b == a)) by {
                if old(self).ticker_approved(d, b) {
                    let k = choose|k: int| 0 <= k < old(self).ticker_approvals@.len() && old(self).ticker_approvals@[k] == TickerApproval { did: d, asset: b };
                    assert(self.ticker_approvals@[k] == TickerApproval { did: d, asset: b });
                }
                if d == caller && b == a && !old(self).ticker_approved(d, b) {
                    assert(self.ticker_approvals@.last() == TickerApproval { did: d, asset: b });
                }
            }
            self.lemma_consents_wf(*old(self));
        }
    }

    /// Withdraws the consent of `caller` to receive asset `a`.
    pub fn remove_ticker_pre_approval(&mut self, caller: u64, a: u64)
        requires
            old(self).wf(),
        ensures
            final(self).wf(),
            final(self).only_consents_changed(*old(self)),
            final(self).custodians == old(self).custodians,
            final(self).portfolio_approvals == old(self).portfolio_approvals,
            forall|d: u64, b: u64| #[trigger] final(self).ticker_approved(d, b) == (old(self).ticker_approved(d, b) && !(d == caller && b == a)),
    {
        let t = TickerApproval { did: caller, asset: a };
        let mut kept: Vec<TickerApproval> = Vec::new();
        let mut i: usize = 0;
        while i < self.ticker_approvals.len()
            invariant
                t == (TickerApproval { did: caller, asset: a }),
                i <= self.ticker_approvals@.len(),
                forall|x: TickerApproval| kept@.contains(x) <==> (x != t && exists|k: int| 0 <= k < i && self.ticker_approvals@[k] == x),
            decreases self.ticker_approvals@.len() - i,
        {
            let x = self.ticker_approvals[i];
            let ghost k0 = kept@;
            if x != t {
                kept.push(x);
            }
            i = i + 1;
            proof {
                assert forall|y: TickerApproval| kept@.contains(y) <==> (y != t && exists|k: int| 0 <= k < i && self.ticker_approvals@[k] == y) by {
                    if kept@.contains(y) && !k0.contains(y) {
                        assert(y == x);
                        assert(self.ticker_approvals@[i - 1] == y);
                    }
                    if k0.contains(y) {
                        let m = choose|m: int| 0 <= m < k0.len() && k0[m] == y;
                        assert(kept@[m] == y);
                    }
                    if y != t && exists|k: int| 0 <= k < i && self.ticker_approvals@[k] == y {
                        let k = choose|k: int| 0 <= k < i && self.ticker_approvals@[k] == y;
                        if k == i - 1 {
                            assert(kept@.last() == y);
                        }
                    }
                }
            }
        }
        self.ticker_approvals = kept;
        proof {
            assert forall|d: u64, b: u64| #[trigger] self.ticker_approved(d, b) == (old(self).ticker_approved(d, b) && !(d == caller && b == a)) by {
                let y = TickerApproval { did: d, asset: b };
                if old(self).ticker_approved(d, b) {
                    let k = choose|k: int| 0 <= k < old(self).ticker_approvals@.len() && old(self).ticker_approvals@[k] == y;
                    assert(0 <= k < i && old(self).ticker_approvals@[k] == y);
                }
            }
            self.lemma_consents_wf(*old(self));
        }
    }

    /// Records that portfolio `p`, through its custodian `caller`, consents
    /// to receive asset `a`.
    pub fn pre_approve_portfolio(&mut self, caller: u64, p: PortfolioId, a: u64) -> (r: Result<(), SettlementError>)
        requires
            old(self).wf(),
        ensures
            final(self).wf(),
            r is Ok <==> old(self).custodian(p) == caller,
            r is Err ==> r == Err::<(), SettlementError>(SettlementError::UnauthorizedCustodian) && *final(self) == *old(self),
            r is Ok ==> {
                &&& final(self).only_consents_changed(*old(self))
                &&& final(self).custodians == old(self).custodians
                &&& final(self).ticker_approvals == old(self).ticker_approvals
                &&& forall|q: PortfolioId, b: u64| #[trigger] final(self).portfolio_approved(q, b) == (old(self).portfolio_approved(q, b) || (q == p && b == a))
            },
    {
        if custodian_of(&self.custodians, p) != caller {
            return Err(SettlementError::UnauthorizedCustodian);
        }
        if !self.has_portfolio_approval(p, a) {
            self.portfolio_approvals.push(PortfolioApproval { portfolio: p, asset: a });
        }
        proof {
            assert forall|q: PortfolioId, b: u64| #[trigger] self.portfolio_approved(q, b) == (old(self).portfolio_approved(q, b) || (q == p && b == a)) by {
                if old(self).portfolio_approved(q, b) {
                    let k = choose|k: int| 0 <= k < old(self).portfolio_approvals@.len() && old(self).portfolio_approvals@[k] == PortfolioApproval { portfolio: q, asset: b };
                    assert(self.portfolio_approvals@[k] == PortfolioApproval { portfolio: q, asset: b });
                }
                if q == p && b == a && !old(self).portfolio_approved(q, b) {
                    assert(self.portfolio_approvals@.last() == PortfolioApproval { portfolio: q, asset: b });
                }
            }
            self.lemma_consents_wf(*old(self));
        }
        Ok(())
    }

    /// Makes `custodian` the identity that controls portfolio `p`; only the
    /// identity that controls it now may.
    pub fn assign_custodian(&mut self, caller: u64, p: PortfolioId, custodian: u64) -> (r: Result<(), SettlementError>)
        requires
            old(self).wf(),
        ensures
            final(self).wf(),
            r is Ok <==> old(self).custodian(p) == caller,
            r is Err ==> r == Err::<(), SettlementError>(SettlementError::UnauthorizedCustodian) && *final(self) == *old(self),
            r is Ok ==> {
                &&& final(self).only_consents_changed(*old(self))
                &&& final(self).ticker_approvals == old(self).ticker_approvals
                &&& final(self).portfolio_approvals == old(self).portfolio_approvals
                &&& final(self).custodian(p) == custodian
                &&& forall|q: PortfolioId| q != p ==> #[trigger] final(self).custodian(q) == old(self).custodian(q)
            },
    {
        if custodian_of(&self.custodians, p) != caller {
            return Err(SettlementError::UnauthorizedCustodian);
        }
        assign_custody(&mut self.custodians, p, custodian);
        proof {
            self.lemma_consents_wf(*old(self));
        }
        Ok(())
    }

    proof fn lemma_consents_wf(self, o: Settlement)
        requires
            o.wf(),
            self.only_consents_changed(o),
        ensures
            self.wf(),
    {
        assert forall|q: PortfolioId, b: u64| #[trigger] self.ledger.locked(q, b) == reserved(self.instructions@, q, b) by {
            assert(o.ledger.locked(q, b) == reserved(o.instructions@, q, b));
        }
        assert forall|i: int| 0 <= i < self.instructions@.len() implies {
            &&& #[trigger] self.instructions@[i].wf()
            &&& self.instructions@[i].venue_id < self.venues@.len()
        } by {
            assert(o.instructions@[i].wf());
        }
        assert(self.consistent());
        assert(self.reservations_match());
    }

    /// Sets the current block, as the host chain does; the scheduler's
    /// calls for skipped blocks are not made.
    pub fn set_block(&mut self, b: u64)
        requires
            old(self).wf(),
        ensures
            final(self).wf(),
            final(self).block == b,
            final(self).ledger == old(self).ledger,
            final(self).instructions == old(self).instructions,
            final(self).schedule == old(self).schedule,
    {
        self.block = b;
        proof {
            assert forall|i: int| 0 <= i < self.instructions@.len() implies {
                &&& #[trigger] self.instructions@[i].wf()
                &&& self.instructions@[i].venue_id < self.venues@.len()
            } by {
                assert(old(self).instructions@[i].wf());
            }
        }
    }

    /// Moves `amount` of asset `a`, not reserved, from portfolio `from` to
    /// portfolio `to`; `caller` must control `from`.
    pub fn move_portfolio_funds(&mut self, caller: u64, from: PortfolioId, to: PortfolioId, a: u64, amount: u128) -> (r: Result<(), SettlementError>)
        requires
            old(self).wf(),
        ensures
            final(self).wf(),
            old(self).custodian(from) != caller ==> r == Err::<(), SettlementError>(SettlementError::UnauthorizedCustodian),
            old(self).custodian(from) == caller && from == to ==> r == Err::<(), SettlementError>(SettlementError::SameSenderReceiver),
            old(self).custodian(from) == caller && from != to && amount > old(self).ledger.available(from, a)
                ==> r == Err::<(), SettlementError>(SettlementError::InsufficientPortfolioBalance),
            r is Ok <==> old(self).custodian(from) == caller && from != to && amount <= old(self).ledger.available(from, a),
            r is Err ==> *final(self) == *old(self),
            r is Ok ==> {
                &&& final(self).only_ledger_changed(*old(self))
                &&& final(self).ledger.total(from, a) + amount == old(self).ledger.total(from, a)
                &&& final(self).ledger.total(to, a) == old(self).ledger.total(to, a) + amount
                &&& forall|q: PortfolioId, b: u64| !(q == from && b == a) && !(q == to && b == a) ==> #[trigger] final(self).ledger.total(q, b) == old(self).ledger.total(q, b)
                &&& forall|q: PortfolioId, b: u64| #[trigger] final(self).ledger.locked(q, b) == old(self).ledger.locked(q, b)
                &&& final(self).ledger.same_nfts(old(self).ledger)
            },
    {
        if custodian_of(&self.custodians, from) != caller {
            return Err(SettlementError::UnauthorizedCustodian);
        }
        if from == to {
            return Err(SettlementError::SameSenderReceiver);
        }
        let mut ledger = Ledger::new();
        std::mem::swap(&mut ledger, &mut self.ledger);
        let ghost l0 = ledger;
        let locked = ledger.lock(from, a, amount);
        if locked.is_err() {
            self.ledger = ledger;
            return Err(SettlementError::InsufficientPortfolioBalance);
        }
        let ghost l1 = ledger;
        let moved = ledger.transfer_locked(from, to, a, amount);
        assert(moved.is_ok());
        self.ledger = ledger;
        proof {
            assert forall|q: PortfolioId, b: u64| #[trigger] self.ledger.locked(q, b) == old(self).ledger.locked(q, b) by {
                if !(q == from && b == a) {
                    assert(l1.locked(q, b) == l0.locked(q, b));
                }
            }
            assert forall|q: PortfolioId, b: u64| !(q == from && b == a) && !(q == to && b == a) implies #[trigger] self.ledger.total(q, b) == old(self).ledger.total(q, b) by {
                assert(l1.total(q, b) == l0.total(q, b));
            }
            assert(l1.total(to, a) == l0.total(to, a));
            assert forall|q: PortfolioId, b: u64| #[trigger] self.ledger.locked(q, b) == reserved(self.instructions@, q, b) by {
                assert(old(self).ledger.locked(q, b) == reserved(old(self).instructions@, q, b));
            }
            assert forall|i: int| 0 <= i < self.instructions@.len() implies {
                &&& #[trigger] self.instructions@[i].wf()
                &&& self.instructions@[i].venue_id < self.venues@.len()
            } by {
                assert(old(self).instructions@[i].wf());
            }
            assert(self.consistent());
            assert(self.reservations_match());
        }
        Ok(())
    }
}

} // verus!
