use vstd::prelude::*;

use crate::affirmation::{
    contains_portfolio, funds_lockable, lemma_lockable_same, lock_legs, moves_nft, need,
    nfts_lockable, sat_sub, unlock_legs,
};
use crate::reservation::{
    lemma_need_is_outgoing, lemma_reserved_covers, lemma_reserved_update, reserved,
};
use crate::creation::is_party;
use crate::ledger::Ledger;
use crate::settlement::{
    lemma_pending_parties_update, lemma_pending_receipts_update, pending_parties,
    pending_receipts, Instruction, Party, ScheduledCall, Settlement, UsedReceipt,
};
use crate::types::{
    AffirmationStatus, InstructionStatus, Leg, LegStatus, PortfolioId, ReceiptDetails,
    SettlementError,
    SettlementType, MAX_FUNGIBLE_LEGS, MAX_NFTS_PER_INSTRUCTION, MAX_OFFCHAIN_LEGS,
};

verus! {

/// Whether `ps` names no portfolio twice.
pub open spec fn distinct_portfolios(ps: Seq<PortfolioId>) -> bool {
    forall|a: int, b: int| 0 <= a < b < ps.len() ==> ps[a] != ps[b]
}

impl Instruction {
    /// Affirmation status of portfolio `p` in this instruction.
    pub open spec fn status_of(self, p: PortfolioId) -> AffirmationStatus {
        if self.has_party(p) {
            self.parties@[choose|m: int| 0 <= m < self.parties@.len() && #[trigger] self.parties@[m].portfolio == p].status
        } else {
            AffirmationStatus::Unknown
        }
    }

    /// `self` is `o` after the parties in `ps` moved to status `to` and
    /// the legs they send moved to `leg_to`, `ps.len()` affirmations fewer
    /// (`to` affirmed) or more being missing.
    pub open spec fn moved(self, o: Instruction, ps: Seq<PortfolioId>, to: AffirmationStatus, leg_to: LegStatus) -> bool {
        &&& self.venue_id == o.venue_id
        &&& self.settlement_type == o.settlement_type
        &&& self.created_at == o.created_at
        &&& self.trade_date == o.trade_date
        &&& self.value_date == o.value_date
        &&& self.memo == o.memo
        &&& self.status == o.status
        &&& self.legs == o.legs
        &&& self.offchain == o.offchain
        &&& self.parties@.len() == o.parties@.len()
        &&& forall|m: int| 0 <= m < o.parties@.len() ==> #[trigger] self.parties@[m] == if ps.contains(o.parties@[m].portfolio) {
            Party { portfolio: o.parties@[m].portfolio, status: to }
        } else {
            o.parties@[m]
        }
        &&& self.leg_status@.len() == o.leg_status@.len()
        &&& forall|k: int| 0 <= k < o.leg_status@.len() ==> #[trigger] self.leg_status@[k] == if o.legs@[k].is_onchain() && ps.contains(o.legs@[k].sender_of()) {
            leg_to
        } else {
            o.leg_status@[k]
        }
        &&& to == AffirmationStatus::Affirmed ==> self.pending == o.pending - ps.len()
        &&& to == AffirmationStatus::Pending ==> self.pending == o.pending + ps.len()
    }
}

impl Settlement {
    /// Why `caller` may not move the portfolios `ps` of instruction `id`
    /// from status `from`, if it may not.
    pub open spec fn affirmation_error(self, caller: u64, id: u64, ps: Seq<PortfolioId>, from: AffirmationStatus) -> Option<SettlementError> {
        if id >= self.instructions@.len() {
            Some(SettlementError::UnknownInstruction)
        } else if !self.instructions@[id as int].is_live() {
            Some(SettlementError::InstructionNotPending)
        } else if exists|k: int| 0 <= k < ps.len() && self.custodian(#[trigger] ps[k]) != caller {
            Some(SettlementError::UnauthorizedCustodian)
        } else if !distinct_portfolios(ps) || exists|k: int| 0 <= k < ps.len() && self.instructions@[id as int].status_of(#[trigger] ps[k]) != from {
            Some(SettlementError::UnexpectedAffirmationStatus)
        } else {
            None
        }
    }

    /// Everything but the instructions, the ledger and the schedule is as
    /// in `o`.
    pub open spec fn only_settlement_changed(self, o: Settlement) -> bool {
        &&& self.block == o.block
        &&& self.assets == o.assets
        &&& self.venues == o.venues
        &&& self.custodians == o.custodians
        &&& self.ticker_approvals == o.ticker_approvals
        &&& self.portfolio_approvals == o.portfolio_approvals
        &&& self.instructions@.len() == o.instructions@.len()
    }

    /// Status of portfolio `p` in instruction `id`.
    pub fn affirmation_status(&self, id: u64, p: PortfolioId) -> (r: AffirmationStatus)
        requires
            self.wf(),
        ensures
            (id as int) < self.instructions@.len() ==> r == self.instructions@[id as int].status_of(p),
            (id as int) >= self.instructions@.len() ==> r == AffirmationStatus::Unknown,
    {
        if id >= self.instructions.len() as u64 {
            return AffirmationStatus::Unknown;
        }
        proof {
            assert(self.instructions@[id as int].wf());
        }
        match party_index(&self.instructions[id as usize].parties, p) {
            Some(m) => self.instructions[id as usize].parties[m].status,
            None => AffirmationStatus::Unknown,
        }
    }

    /// Checks what `affirmation_error` describes.
    fn check_affirmation(&self, caller: u64, id: u64, ps: &Vec<PortfolioId>, from: AffirmationStatus) -> (r: Option<SettlementError>)
        requires
            self.wf(),
        ensures
            r == self.affirmation_error(caller, id, ps@, from),
    {
        if id >= self.instructions.len() as u64 {
            return Some(SettlementError::UnknownInstruction);
        }
        let inst = &self.instructions[id as usize];
        if !(inst.status == InstructionStatus::Pending || inst.status == InstructionStatus::Failed) {
            return Some(SettlementError::InstructionNotPending);
        }
        let mut k: usize = 0;
        while k < ps.len()
            invariant
                (id as int) < self.instructions@.len(),
                self.instructions@[id as int].is_live(),
                k <= ps@.len(),
                forall|j: int| 0 <= j < k ==> self.custodian(#[trigger] ps@[j]) == caller,
            decreases ps@.len() - k,
        {
            if self.portfolio_custodian(ps[k]) != caller {
                proof {
                    assert(self.custodian(ps@[k as int]) != caller);
                }
                return Some(SettlementError::UnauthorizedCustodian);
            }
            k = k + 1;
        }
        proof {
            assert(inst.wf());
        }
        let mut k: usize = 0;
        while k < ps.len()
            invariant
                (id as int) < self.instructions@.len(),
                *inst == self.instructions@[id as int],
                inst.is_live(),
                inst.wf(),
                forall|j: int| 0 <= j < ps@.len() ==> self.custodian(#[trigger] ps@[j]) == caller,
                k <= ps@.len(),
                forall|j: int| 0 <= j < k ==> inst.status_of(#[trigger] ps@[j]) == from,
                forall|a: int, b: int| 0 <= a < b < k ==> ps@[a] != ps@[b],
            decreases ps@.len() - k,
        {
            let st = match party_index(&inst.parties, ps[k]) {
                Some(m) => inst.parties[m].status,
                None => AffirmationStatus::Unknown,
            };
            if st != from {
                proof {
                    assert(inst.status_of(ps@[k as int]) != from);
                }
                return Some(SettlementError::UnexpectedAffirmationStatus);
            }
            let mut j: usize = 0;
            while j < k
                invariant
                    (id as int) < self.instructions@.len(),
                    *inst == self.instructions@[id as int],
                    inst.is_live(),
                    forall|j2: int| 0 <= j2 < ps@.len() ==> self.custodian(#[trigger] ps@[j2]) == caller,
                    j <= k < ps@.len(),
                    forall|a: int| 0 <= a < j ==> ps@[a] != ps@[k as int],
                decreases k - j,
            {
                if ps[j] == ps[k] {
                    proof {
                        assert(!distinct_portfolios(ps@));
                    }
                    return Some(SettlementError::UnexpectedAffirmationStatus);
                }
                j = j + 1;
            }
            k = k + 1;
        }
        None
    }
}

impl Settlement {
    /// An empty record, to stand in while a record is worked on.
    fn placeholder() -> (r: Instruction)
        ensures
            r.legs@.len() == 0,
    {
        Instruction {
            venue_id: 0,
            settlement_type: SettlementType::SettleOnAffirmation,
            created_at: 0,
            trade_date: None,
            value_date: None,
            memo: None,
            status: InstructionStatus::Unknown,
            legs: Vec::new(),
            leg_status: Vec::new(),
            offchain: Vec::new(),
            parties: Vec::new(),
            pending: 0,
        }
    }

    /// Moves parties `ps` of instruction `id` from `from` to `to`.
    fn move_instruction_parties(&mut self, id: u64, ps: &Vec<PortfolioId>, from: AffirmationStatus, to: AffirmationStatus, leg_to: LegStatus)
        requires
            old(self).consistent(),
            (id as int) < old(self).instructions@.len(),
            old(self).instructions@[id as int].is_live(),
            distinct_portfolios(ps@),
            forall|k: int| 0 <= k < ps@.len() ==> old(self).instructions@[id as int].status_of(#[trigger] ps@[k]) == from,
            (from == AffirmationStatus::Pending && to == AffirmationStatus::Affirmed) || (from == AffirmationStatus::Affirmed && to == AffirmationStatus::Pending),
        ensures
            final(self).consistent(),
            final(self).instructions@ == old(self).instructions@.update(id as int, final(self).instructions@[id as int]),
            final(self).instructions@.len() == old(self).instructions@.len(),
            final(self).instructions@[id as int].moved(old(self).instructions@[id as int], ps@, to, leg_to),
            forall|j: int| 0 <= j < old(self).instructions@.len() && j != id ==> #[trigger] final(self).instructions@[j] == old(self).instructions@[j],
            final(self).ledger == old(self).ledger,
            final(self).schedule == old(self).schedule,
            final(self).used_receipts == old(self).used_receipts,
            final(self).only_settlement_changed(*old(self)),
    {
        let mut inst = Self::placeholder();
        let n: usize = self.instructions.len();
        assert(id < n);
        let i = id as usize;
        self.instructions.set_and_swap(i, &mut inst);
        proof {
            assert(old(self).instructions@[id as int].wf());
        }
        move_parties(&mut inst, ps, from, to, leg_to);
        self.instructions.set(i, inst);
        proof {
            assert forall|i: int| 0 <= i < self.instructions@.len() implies {
                &&& #[trigger] self.instructions@[i].wf()
                &&& self.instructions@[i].venue_id < self.venues@.len()
            } by {
                if i != id {
                    assert(old(self).instructions@[i].wf());
                    assert(self.instructions@[i] == old(self).instructions@[i]);
                }
            }
        }
    }

    /// Affirms instruction `id` for the portfolios `ps`, which `caller`
    /// must control and which must be waiting to affirm. What the legs
    /// send from them is reserved; refused when it is not available. Once
    /// no affirmation is missing, an instruction settled on affirmation is
    /// handed to the scheduler for the next block.
    pub fn affirm_instruction(&mut self, caller: u64, id: u64, ps: Vec<PortfolioId>) -> (r: Result<(), SettlementError>)
        requires
            old(self).wf(),
            old(self).block < u64::MAX,
        ensures
            final(self).wf(),
            old(self).affirmation_error(caller, id, ps@, AffirmationStatus::Pending) is Some ==> r == Err::<(), SettlementError>(
                old(self).affirmation_error(caller, id, ps@, AffirmationStatus::Pending)->Some_0,
            ),
            old(self).affirmation_error(caller, id, ps@, AffirmationStatus::Pending) is None ==> (r is Ok <==> (
                funds_lockable(old(self).ledger, old(self).instructions@[id as int].legs@, ps@)
                && nfts_lockable(old(self).ledger, old(self).instructions@[id as int].legs@, ps@))),
            r == Err::<(), SettlementError>(SettlementError::InsufficientPortfolioBalance) && old(self).affirmation_error(caller, id, ps@, AffirmationStatus::Pending) is None
                ==> !funds_lockable(old(self).ledger, old(self).instructions@[id as int].legs@, ps@),
            r is Err ==> *final(self) == *old(self),
            r is Ok ==> {
                let o = old(self).instructions@[id as int];
                let n = final(self).instructions@[id as int];
                let legs = o.legs@;
                &&& n.moved(o, ps@, AffirmationStatus::Affirmed, LegStatus::ExecutionPending)
                &&& forall|j: int| 0 <= j < old(self).instructions@.len() && j != id ==> #[trigger] final(self).instructions@[j] == old(self).instructions@[j]
                &&& final(self).only_settlement_changed(*old(self))
                &&& final(self).used_receipts == old(self).used_receipts
                &&& forall|q: PortfolioId, b: u64| #[trigger] final(self).ledger.total(q, b) == old(self).ledger.total(q, b)
                &&& forall|q: PortfolioId, b: u64| #[trigger] final(self).ledger.locked(q, b) == old(self).ledger.locked(q, b) + need(legs, ps@, q, b, legs.len() as int)
                &&& forall|b: u64, j: u64| #[trigger] final(self).ledger.nft_owner(b, j) == old(self).ledger.nft_owner(b, j)
                &&& forall|b: u64, j: u64| #[trigger] final(self).ledger.nft_locked(b, j) == (old(self).ledger.nft_locked(b, j) || moves_nft(legs, ps@, b, j, legs.len() as int))
                &&& final(self).schedule@ == if n.pending == 0 && o.settlement_type == SettlementType::SettleOnAffirmation {
                    old(self).schedule@.push(ScheduledCall { block: (old(self).block + 1) as u64, instruction: id })
                } else {
                    old(self).schedule@
                }
            },
    {
        if let Some(e) = self.check_affirmation(caller, id, &ps, AffirmationStatus::Pending) {
            return Err(e);
        }
        proof {
            assert(self.instructions@[id as int].wf());
        }
        let n: usize = self.instructions.len();
        assert(id < n);
        let i = id as usize;
        let mut trial = self.ledger.duplicate();
        proof {
            trial.lemma_same_as(self.ledger);
            lemma_lockable_same(trial, self.ledger, self.instructions@[id as int].legs@, ps@);
        }
        let res = lock_legs(&mut trial, &self.instructions[i].legs, &ps);
        if let Err(e) = res {
            return Err(e);
        }
        self.ledger = trial;
        proof {
            assert forall|i: int| 0 <= i < self.instructions@.len() implies {
                &&& #[trigger] self.instructions@[i].wf()
                &&& self.instructions@[i].venue_id < self.venues@.len()
            } by {
                assert(old(self).instructions@[i].wf());
            }
        }
        let ghost mid = *self;
        self.move_instruction_parties(id, &ps, AffirmationStatus::Pending, AffirmationStatus::Affirmed, LegStatus::ExecutionPending);
        proof {
            self.lemma_moved_reservations(*old(self), mid, id, ps@, AffirmationStatus::Pending, AffirmationStatus::Affirmed, LegStatus::ExecutionPending);
        }
        let inst = &self.instructions[i];
        if inst.pending == 0 && inst.settlement_type == SettlementType::SettleOnAffirmation {
            self.schedule.push(ScheduledCall { block: self.block + 1, instruction: id });
        }
        Ok(())
    }

    /// Withdraws the affirmation of instruction `id` by the portfolios
    /// `ps`, which `caller` must control and which must have affirmed.
    /// What the legs reserved from them is released.
    pub fn withdraw_affirmation(&mut self, caller: u64, id: u64, ps: Vec<PortfolioId>) -> (r: Result<(), SettlementError>)
        requires
            old(self).wf(),
        ensures
            final(self).wf(),
            old(self).affirmation_error(caller, id, ps@, AffirmationStatus::Affirmed) is Some ==> r == Err::<(), SettlementError>(
                old(self).affirmation_error(caller, id, ps@, AffirmationStatus::Affirmed)->Some_0,
            ),
            r is Ok <==> old(self).affirmation_error(caller, id, ps@, AffirmationStatus::Affirmed) is None,
            r is Err ==> *final(self) == *old(self),
            r is Ok ==> {
                let o = old(self).instructions@[id as int];
                let n = final(self).instructions@[id as int];
                let legs = o.legs@;
                &&& n.moved(o, ps@, AffirmationStatus::Pending, LegStatus::PendingTokenLock)
                &&& forall|j: int| 0 <= j < old(self).instructions@.len() && j != id ==> #[trigger] final(self).instructions@[j] == old(self).instructions@[j]
                &&& final(self).only_settlement_changed(*old(self))
                &&& final(self).used_receipts == old(self).used_receipts
                &&& final(self).schedule == old(self).schedule
                &&& forall|q: PortfolioId, b: u64| #[trigger] final(self).ledger.total(q, b) == old(self).ledger.total(q, b)
                &&& forall|q: PortfolioId, b: u64| #[trigger] final(self).ledger.locked(q, b) + need(legs, ps@, q, b, legs.len() as int) == old(self).ledger.locked(q, b)
                &&& forall|b: u64, j: u64| #[trigger] final(self).ledger.nft_owner(b, j) == old(self).ledger.nft_owner(b, j)
                &&& forall|b: u64, j: u64| #[trigger] final(self).ledger.nft_locked(b, j) == (old(self).ledger.nft_locked(b, j) && !moves_nft(legs, ps@, b, j, legs.len() as int))
            },
    {
        if let Some(e) = self.check_affirmation(caller, id, &ps, AffirmationStatus::Affirmed) {
            return Err(e);
        }
        proof {
            assert(self.instructions@[id as int].wf());
        }
        let n: usize = self.instructions.len();
        assert(id < n);
        let i = id as usize;
        let mut ledger = Ledger::new();
        std::mem::swap(&mut ledger, &mut self.ledger);
        unlock_legs(&mut ledger, &self.instructions[i].legs, &ps);
        self.ledger = ledger;
        proof {
            assert forall|i: int| 0 <= i < self.instructions@.len() implies {
                &&& #[trigger] self.instructions@[i].wf()
                &&& self.instructions@[i].venue_id < self.venues@.len()
            } by {
                assert(old(self).instructions@[i].wf());
            }
        }
        let ghost mid = *self;
        self.move_instruction_parties(id, &ps, AffirmationStatus::Affirmed, AffirmationStatus::Pending, LegStatus::PendingTokenLock);
        proof {
            self.lemma_moved_reservations(*old(self), mid, id, ps@, AffirmationStatus::Affirmed, AffirmationStatus::Pending, LegStatus::PendingTokenLock);
        }
        Ok(())
    }
}

impl Settlement {
    /// After parties `ps` of instruction `id` moved from `from` to `to`,
    /// with the ledger reserving (`to` affirmed) or releasing what their
    /// legs send, every reservation is still held by an affirmation.
    proof fn lemma_moved_reservations(self, o: Settlement, mid: Settlement, id: u64, ps: Seq<PortfolioId>, from: AffirmationStatus, to: AffirmationStatus, leg_to: LegStatus)
        requires
            o.wf(),
            (id as int) < o.instructions@.len(),
            o.instructions@[id as int].is_live(),
            forall|k: int| 0 <= k < ps.len() ==> o.instructions@[id as int].status_of(#[trigger] ps[k]) == from,
            (from == AffirmationStatus::Pending && to == AffirmationStatus::Affirmed) || (from == AffirmationStatus::Affirmed && to == AffirmationStatus::Pending),
            mid.instructions == o.instructions,
            self.ledger == mid.ledger,
            self.instructions@ == o.instructions@.update(id as int, self.instructions@[id as int]),
            self.instructions@[id as int].moved(o.instructions@[id as int], ps, to, leg_to),
            to == AffirmationStatus::Affirmed ==> forall|q: PortfolioId, b: u64| #[trigger] mid.ledger.locked(q, b) == o.ledger.locked(q, b) + need(o.instructions@[id as int].legs@, ps, q, b, o.instructions@[id as int].legs@.len() as int),
            to == AffirmationStatus::Pending ==> forall|q: PortfolioId, b: u64| #[trigger] mid.ledger.locked(q, b) == sat_sub(o.ledger.locked(q, b), need(o.instructions@[id as int].legs@, ps, q, b, o.instructions@[id as int].legs@.len() as int)),
        ensures
            self.reservations_match(),
            to == AffirmationStatus::Pending ==> forall|q: PortfolioId, b: u64| #[trigger] self.ledger.locked(q, b) + need(o.instructions@[id as int].legs@, ps, q, b, o.instructions@[id as int].legs@.len() as int) == o.ledger.locked(q, b),
    {
        let oi = o.instructions@[id as int];
        let ni = self.instructions@[id as int];
        assert(oi.wf());
        assert forall|q: PortfolioId, b: u64| #[trigger] self.ledger.locked(q, b) == reserved(self.instructions@, q, b) by {
            let legs = oi.legs@;
            lemma_need_is_outgoing(legs, ps, q, b, legs.len() as int);
            lemma_status_of_moved(ni, oi, ps, to, leg_to, q);
            lemma_reserved_update(o.instructions@, id as int, ni, q, b);
            lemma_reserved_covers(o.instructions@, id as int, q, b);
            assert(o.ledger.locked(q, b) == reserved(o.instructions@, q, b));
            assert(mid.ledger.locked(q, b) == self.ledger.locked(q, b));
            if ps.contains(q) {
                let k = choose|k: int| 0 <= k < ps.len() && ps[k] == q;
                assert(oi.status_of(ps[k]) == from);
                assert(oi.has_party(q));
            }
        }
        if to == AffirmationStatus::Pending {
            assert forall|q: PortfolioId, b: u64| #[trigger] self.ledger.locked(q, b) + need(oi.legs@, ps, q, b, oi.legs@.len() as int) == o.ledger.locked(q, b) by {
                let legs = oi.legs@;
                lemma_need_is_outgoing(legs, ps, q, b, legs.len() as int);
                lemma_reserved_covers(o.instructions@, id as int, q, b);
                assert(o.ledger.locked(q, b) == reserved(o.instructions@, q, b));
                assert(mid.ledger.locked(q, b) == self.ledger.locked(q, b));
                if ps.contains(q) {
                    let k = choose|k: int| 0 <= k < ps.len() && ps[k] == q;
                    assert(oi.status_of(ps[k]) == from);
                }
            }
        }
    }
}

/// Index of the entry of portfolio `p` in `ps`, whose portfolios are
/// distinct.
pub fn party_index(ps: &Vec<Party>, p: PortfolioId) -> (r: Option<usize>)
    requires
        forall|a: int, b: int| 0 <= a < b < ps@.len() ==> ps@[a].portfolio != ps@[b].portfolio,
    ensures
        match r {
            Some(m) => m < ps@.len() && ps@[m as int].portfolio == p && (choose|m2: int| 0 <= m2 < ps@.len() && #[trigger] ps@[m2].portfolio == p) == m,
            None => forall|m: int| 0 <= m < ps@.len() ==> #[trigger] ps@[m].portfolio != p,
        },
{
    let mut i: usize = 0;
    while i < ps.len()
        invariant
            i <= ps@.len(),
            forall|m: int| 0 <= m < i ==> #[trigger] ps@[m].portfolio != p,
            forall|a: int, b: int| 0 <= a < b < ps@.len() ==> ps@[a].portfolio != ps@[b].portfolio,
        decreases ps@.len() - i,
    {
        if ps[i].portfolio == p {
            proof {
                assert(ps@[i as int].portfolio == p);
                let c = choose|m2: int| 0 <= m2 < ps@.len() && #[trigger] ps@[m2].portfolio == p;
                if c != i {
                    if c < i {
                        assert(ps@[c].portfolio != ps@[i as int].portfolio);
                    } else {
                        assert(ps@[i as int].portfolio != ps@[c].portfolio);
                    }
                }
            }
            return Some(i);
        }
        i = i + 1;
    }
    None
}

/// Moves the parties in `ps`, all of status `from`, to status `to`, and the
/// legs they send to `leg_to`; the count of missing affirmations follows.
pub fn move_parties(inst: &mut Instruction, ps: &Vec<PortfolioId>, from: AffirmationStatus, to: AffirmationStatus, leg_to: LegStatus)
    requires
        old(inst).wf(),
        old(inst).is_live(),
        distinct_portfolios(ps@),
        (from == AffirmationStatus::Pending && to == AffirmationStatus::Affirmed) || (from == AffirmationStatus::Affirmed && to == AffirmationStatus::Pending),
        forall|k: int| 0 <= k < ps@.len() ==> old(inst).status_of(#[trigger] ps@[k]) == from,
    ensures
        final(inst).wf(),
        final(inst).moved(*old(inst), ps@, to, leg_to),
{
    let ghost o = *inst;
    let ghost orig = inst.parties@;
    proof {
        crate::settlement::lemma_pending_parties_bound(orig);
        crate::settlement::lemma_pending_receipts_bound(o.offchain@);
        assert(o.pending <= 3 * (MAX_FUNGIBLE_LEGS + MAX_OFFCHAIN_LEGS + MAX_NFTS_PER_INSTRUCTION));
    }
    let mut i: usize = 0;
    while i < ps.len()
        invariant
            o == *old(inst),
            o.wf(),
            o.is_live(),
            orig == o.parties@,
            distinct_portfolios(ps@),
            (from == AffirmationStatus::Pending && to == AffirmationStatus::Affirmed) || (from == AffirmationStatus::Affirmed && to == AffirmationStatus::Pending),
            forall|k: int| 0 <= k < ps@.len() ==> o.status_of(#[trigger] ps@[k]) == from,
            i <= ps@.len(),
            inst.parties@.len() == orig.len(),
            forall|a: int, b: int| 0 <= a < b < inst.parties@.len() ==> inst.parties@[a].portfolio != inst.parties@[b].portfolio,
            forall|m: int| 0 <= m < orig.len() ==> #[trigger] inst.parties@[m] == if ps@.subrange(0, i as int).contains(orig[m].portfolio) {
                Party { portfolio: orig[m].portfolio, status: to }
            } else {
                orig[m]
            },
            to == AffirmationStatus::Affirmed ==> pending_parties(inst.parties@) + i == pending_parties(orig) && inst.pending + i == o.pending,
            to == AffirmationStatus::Pending ==> pending_parties(inst.parties@) == pending_parties(orig) + i && inst.pending == o.pending + i,
            pending_parties(orig) <= orig.len(),
            i <= orig.len(),
            o.pending <= 3 * (MAX_FUNGIBLE_LEGS + MAX_OFFCHAIN_LEGS + MAX_NFTS_PER_INSTRUCTION),
            inst.venue_id == o.venue_id,
            inst.settlement_type == o.settlement_type,
            inst.created_at == o.created_at,
            inst.trade_date == o.trade_date,
            inst.value_date == o.value_date,
            inst.memo == o.memo,
            inst.status == o.status,
            inst.legs == o.legs,
            inst.offchain == o.offchain,
            inst.leg_status == o.leg_status,
        decreases ps@.len() - i,
    {
        let p = ps[i];
        let mi = party_index(&inst.parties, p);
        proof {
            assert(o.status_of(ps@[i as int]) == from);
            assert(o.has_party(p));
            let c = choose|m: int| 0 <= m < orig.len() && #[trigger] orig[m].portfolio == p;
            assert(inst.parties@[c].portfolio == p);
        }
        let m = mi.unwrap();
        proof {
            let c = choose|m2: int| 0 <= m2 < orig.len() && #[trigger] orig[m2].portfolio == p;
            assert(orig[m as int].portfolio == p) by {
                if ps@.subrange(0, i as int).contains(orig[m as int].portfolio) {
                } else {
                }
            }
            if c != m {
                if c < m {
                    assert(orig[c].portfolio != orig[m as int].portfolio);
                } else {
                    assert(orig[m as int].portfolio != orig[c].portfolio);
                }
            }
            assert(!ps@.subrange(0, i as int).contains(p)) by {
                if ps@.subrange(0, i as int).contains(p) {
                    let j = choose|j: int| 0 <= j < i && #[trigger] ps@.subrange(0, i as int)[j] == p;
                    assert(ps@[j] == ps@[i as int]);
                }
            }
            assert(inst.parties@[m as int] == orig[m as int]);
            assert(orig[m as int].status == from);
            lemma_pending_parties_update(inst.parties@, m as int, Party { portfolio: p, status: to });
        }
        let ghost before = inst.parties@;
        inst.parties.set(m, Party { portfolio: p, status: to });
        if to == AffirmationStatus::Affirmed {
            inst.pending = inst.pending - 1;
        } else {
            inst.pending = inst.pending + 1;
        }
        i = i + 1;
        proof {
            crate::settlement::lemma_pending_parties_bound(inst.parties@);
            assert(ps@.subrange(0, i as int) =~= ps@.subrange(0, i - 1).push(p));
            assert forall|m2: int| 0 <= m2 < orig.len() implies #[trigger] inst.parties@[m2] == if ps@.subrange(0, i as int).contains(orig[m2].portfolio) {
                Party { portfolio: orig[m2].portfolio, status: to }
            } else {
                orig[m2]
            } by {
                if m2 != m {
                    assert(inst.parties@[m2] == before[m2]);
                    if orig[m2].portfolio == p {
                        assert(orig[m2].portfolio != orig[m as int].portfolio) by {
                            if m2 < m {
                                assert(orig[m2].portfolio != orig[m as int].portfolio);
                            } else {
                                assert(orig[m as int].portfolio != orig[m2].portfolio);
                            }
                        }
                    }
                    if ps@.subrange(0, i as int).contains(orig[m2].portfolio) && orig[m2].portfolio != p {
                        let j = choose|j: int| 0 <= j < i && #[trigger] ps@.subrange(0, i as int)[j] == orig[m2].portfolio;
                        assert(ps@.subrange(0, i - 1)[j] == orig[m2].portfolio);
                    }
                    if ps@.subrange(0, i - 1).contains(orig[m2].portfolio) {
                        let j = choose|j: int| 0 <= j < i - 1 && #[trigger] ps@.subrange(0, i - 1)[j] == orig[m2].portfolio;
                        assert(ps@.subrange(0, i as int)[j] == orig[m2].portfolio);
                    }
                } else {
                    assert(ps@.subrange(0, i as int)[i - 1] == p);
                }
            }
        }
    }
    proof {
        assert(ps@.subrange(0, i as int) =~= ps@);
    }
    let ghost mid = *inst;
    let mut k: usize = 0;
    while k < inst.legs.len()
        invariant
            o == *old(inst),
            o.wf(),
            mid.legs == o.legs,
            inst.legs == o.legs,
            inst.parties == mid.parties,
            inst.pending == mid.pending,
            inst.offchain == mid.offchain,
            inst.venue_id == mid.venue_id,
            inst.settlement_type == mid.settlement_type,
            inst.created_at == mid.created_at,
            inst.trade_date == mid.trade_date,
            inst.value_date == mid.value_date,
            inst.memo == mid.memo,
            inst.status == mid.status,
            k <= inst.legs@.len(),
            inst.leg_status@.len() == o.leg_status@.len(),
            forall|j: int| 0 <= j < k ==> #[trigger] inst.leg_status@[j] == if o.legs@[j].is_onchain() && ps@.contains(o.legs@[j].sender_of()) {
                leg_to
            } else {
                o.leg_status@[j]
            },
            forall|j: int| k <= j < o.leg_status@.len() ==> #[trigger] inst.leg_status@[j] == o.leg_status@[j],
        decreases inst.legs@.len() - k,
    {
        let hit = !inst.legs[k].is_offchain() && contains_portfolio(ps, inst.legs[k].sender());
        if hit {
            inst.leg_status.set(k, leg_to);
        }
        k = k + 1;
    }
    proof {
        assert forall|a: int, b: int| 0 <= a < b < inst.parties@.len() implies inst.parties@[a].portfolio != inst.parties@[b].portfolio by {
            assert(orig[a].portfolio != orig[b].portfolio);
        }
        assert forall|m: int| 0 <= m < inst.parties@.len() implies #[trigger] inst.parties@[m].status == AffirmationStatus::Pending
            || inst.parties@[m].status == AffirmationStatus::Affirmed by {
            assert(orig[m].status == AffirmationStatus::Pending || orig[m].status == AffirmationStatus::Affirmed);
        }
        assert forall|k: int| 0 <= k < inst.legs@.len() && #[trigger] inst.legs@[k].is_onchain() implies inst.has_party(inst.legs@[k].sender_of()) by {
            assert(o.has_party(o.legs@[k].sender_of()));
            let m = choose|m: int| 0 <= m < orig.len() && #[trigger] orig[m].portfolio == o.legs@[k].sender_of();
            assert(inst.parties@[m].portfolio == orig[m].portfolio);
        }
    }
}

/// Status of each portfolio after `moved`.
pub proof fn lemma_status_of_moved(n: Instruction, o: Instruction, ps: Seq<PortfolioId>, to: AffirmationStatus, leg_to: LegStatus, q: PortfolioId)
    requires
        o.wf(),
        n.moved(o, ps, to, leg_to),
    ensures
        n.has_party(q) == o.has_party(q),
        n.status_of(q) == if ps.contains(q) && o.has_party(q) {
            to
        } else {
            o.status_of(q)
        },
{
    if o.has_party(q) {
        let m = choose|m: int| 0 <= m < o.parties@.len() && #[trigger] o.parties@[m].portfolio == q;
        assert(n.parties@[m].portfolio == q);
        let c = choose|c: int| 0 <= c < n.parties@.len() && #[trigger] n.parties@[c].portfolio == q;
        assert(n.parties@[c].portfolio == o.parties@[c].portfolio);
        if c != m {
            if c < m {
                assert(o.parties@[c].portfolio != o.parties@[m].portfolio);
            } else {
                assert(o.parties@[m].portfolio != o.parties@[c].portfolio);
            }
        }
    }
    if n.has_party(q) {
        let c = choose|c: int| 0 <= c < n.parties@.len() && #[trigger] n.parties@[c].portfolio == q;
        assert(o.parties@[c].portfolio == q);
    }
}

/// Whether `r` attests the leg `leg`.
fn receipt_matches(leg: &Leg, r: &ReceiptDetails) -> (b: bool)
    ensures
        b == (*leg == r.attested_leg()),
{
    match leg {
        Leg::OffChain { sender_identity, receiver_identity, asset, amount } => *sender_identity == r.sender_identity
            && *receiver_identity == r.receiver_identity && *asset == r.asset && *amount == r.amount,
        _ => false,
    }
}

/// Whether no two receipts share a uid.
pub open spec fn distinct_uids(rs: Seq<ReceiptDetails>) -> bool {
    forall|a: int, b: int| 0 <= a < b < rs.len() ==> rs[a].uid != rs[b].uid
}

/// Whether no two receipts are for the same leg.
pub open spec fn distinct_receipt_legs(rs: Seq<ReceiptDetails>) -> bool {
    forall|a: int, b: int| 0 <= a < b < rs.len() ==> rs[a].leg_id != rs[b].leg_id
}

/// Whether one of the receipts `rs` is for leg `k`.
pub open spec fn receipt_for(rs: Seq<ReceiptDetails>, k: int) -> bool {
    exists|m: int| 0 <= m < rs.len() && #[trigger] rs[m].leg_id == k
}

impl Settlement {
    /// Why receipt `r` cannot settle a leg of instruction `id`, if it
    /// cannot.
    pub open spec fn receipt_error(self, id: u64, r: ReceiptDetails) -> Option<SettlementError> {
        let inst = self.instructions@[id as int];
        if r.instruction_id != id {
            Some(SettlementError::ReceiptInstructionIdMismatch)
        } else if r.leg_id >= inst.legs@.len() || !(inst.legs@[r.leg_id as int] is OffChain) {
            Some(SettlementError::ReceiptForInvalidLegType)
        } else if inst.legs@[r.leg_id as int] != r.attested_leg() {
            Some(SettlementError::ReceiptDoesNotMatchLeg)
        } else if !((inst.venue_id as int) < self.venues@.len() && self.venues@[inst.venue_id as int].signers@.contains(r.signer)) {
            Some(SettlementError::UnauthorizedSigner)
        } else if !r.signature_valid {
            Some(SettlementError::InvalidSignature)
        } else if self.used_receipts@.contains(UsedReceipt { signer: r.signer, uid: r.uid }) {
            Some(SettlementError::ReceiptAlreadyClaimed)
        } else if inst.offchain@[r.leg_id as int] != AffirmationStatus::Pending {
            Some(SettlementError::UnexpectedAffirmationStatus)
        } else {
            None
        }
    }

    /// The error of the first refused receipt among the first `n`.
    pub open spec fn first_receipt_error(self, id: u64, rs: Seq<ReceiptDetails>, n: int) -> Option<SettlementError>
        decreases n,
    {
        if n <= 0 {
            None
        } else {
            match self.first_receipt_error(id, rs, n - 1) {
                Some(e) => Some(e),
                None => self.receipt_error(id, rs[n - 1]),
            }
        }
    }

    /// Why `caller` may not affirm instruction `id` with the receipts `rs`
    /// and the portfolios `ps`, before any balance is looked at.
    pub open spec fn receipts_error(self, caller: u64, id: u64, rs: Seq<ReceiptDetails>, ps: Seq<PortfolioId>) -> Option<SettlementError> {
        if id >= self.instructions@.len() {
            Some(SettlementError::UnknownInstruction)
        } else if !self.instructions@[id as int].is_live() {
            Some(SettlementError::InstructionNotPending)
        } else if !distinct_uids(rs) {
            Some(SettlementError::DuplicateReceiptUid)
        } else if self.first_receipt_error(id, rs, rs.len() as int) is Some {
            self.first_receipt_error(id, rs, rs.len() as int)
        } else if !distinct_receipt_legs(rs) {
            Some(SettlementError::UnexpectedAffirmationStatus)
        } else {
            self.affirmation_error(caller, id, ps, AffirmationStatus::Pending)
        }
    }

    proof fn lemma_first_receipt_error(self, id: u64, rs: Seq<ReceiptDetails>, a: int, b: int)
        requires
            0 <= a <= b,
        ensures
            self.first_receipt_error(id, rs, a) is Some ==> self.first_receipt_error(id, rs, b) == self.first_receipt_error(id, rs, a),
            self.first_receipt_error(id, rs, b) is None ==> forall|m: int| 0 <= m < b ==> #[trigger] self.receipt_error(id, rs[m]) is None,
        decreases b - a,
    {
        if a < b {
            self.lemma_first_receipt_error(id, rs, a, b - 1);
        } else {
            self.lemma_no_receipt_error(id, rs, b);
        }
    }

    proof fn lemma_no_receipt_error(self, id: u64, rs: Seq<ReceiptDetails>, b: int)
        requires
            0 <= b,
        ensures
            self.first_receipt_error(id, rs, b) is None ==> forall|m: int| 0 <= m < b ==> #[trigger] self.receipt_error(id, rs[m]) is None,
        decreases b,
    {
        if b > 0 {
            self.lemma_no_receipt_error(id, rs, b - 1);
        }
    }

    /// Checks what `receipts_error` describes up to the portfolios.
    fn check_receipts(&self, id: u64, rs: &Vec<ReceiptDetails>) -> (r: Option<SettlementError>)
        requires
            self.wf(),
            (id as int) < self.instructions@.len(),
        ensures
            !distinct_uids(rs@) ==> r == Some(SettlementError::DuplicateReceiptUid),
            distinct_uids(rs@) ==> r == if self.first_receipt_error(id, rs@, rs@.len() as int) is Some {
                self.first_receipt_error(id, rs@, rs@.len() as int)
            } else if !distinct_receipt_legs(rs@) {
                Some(SettlementError::UnexpectedAffirmationStatus)
            } else {
                None
            },
    {
        let n: usize = self.instructions.len();
        assert(id < n);
        let i = id as usize;
        let inst = &self.instructions[i];
        proof {
            assert(inst.wf());
        }
        let mut a: usize = 0;
        while a < rs.len()
            invariant
                forall|x: int, y: int| 0 <= x < y < rs@.len() && x < a ==> rs@[x].uid != rs@[y].uid,
                a <= rs@.len(),
            decreases rs@.len() - a,
        {
            let mut b: usize = a + 1;
            while b < rs.len()
                invariant
                    forall|x: int, y: int| 0 <= x < y < rs@.len() && x < a ==> rs@[x].uid != rs@[y].uid,
                    forall|y: int| a < y < b ==> rs@[a as int].uid != rs@[y].uid,
                    a < b <= rs@.len(),
                decreases rs@.len() - b,
            {
                if rs[a].uid == rs[b].uid {
                    return Some(SettlementError::DuplicateReceiptUid);
                }
                b = b + 1;
            }
            a = a + 1;
        }
        let mut m: usize = 0;
        while m < rs.len()
            invariant
                self.wf(),
                (id as int) < self.instructions@.len(),
                *inst == self.instructions@[id as int],
                inst.wf(),
                distinct_uids(rs@),
                m <= rs@.len(),
                self.first_receipt_error(id, rs@, m as int) is None,
            decreases rs@.len() - m,
        {
            let r = rs[m];
            let e = if r.instruction_id != id {
                Some(SettlementError::ReceiptInstructionIdMismatch)
            } else if r.leg_id >= inst.legs.len() as u64 || !inst.legs[r.leg_id as usize].is_offchain() {
                Some(SettlementError::ReceiptForInvalidLegType)
            } else if !receipt_matches(&inst.legs[r.leg_id as usize], &r) {
                Some(SettlementError::ReceiptDoesNotMatchLeg)
            } else if !self.venue_signer(inst.venue_id, r.signer) {
                Some(SettlementError::UnauthorizedSigner)
            } else if !r.signature_valid {
                Some(SettlementError::InvalidSignature)
            } else if self.receipt_used(r.signer, r.uid) {
                Some(SettlementError::ReceiptAlreadyClaimed)
            } else if inst.offchain[r.leg_id as usize] != AffirmationStatus::Pending {
                Some(SettlementError::UnexpectedAffirmationStatus)
            } else {
                None
            };
            if e.is_some() {
                proof {
                    self.lemma_first_receipt_error(id, rs@, m + 1, rs@.len() as int);
                }
                return e;
            }
            m = m + 1;
        }
        let mut a: usize = 0;
        while a < rs.len()
            invariant
                self.first_receipt_error(id, rs@, rs@.len() as int) is None,
                distinct_uids(rs@),
                forall|x: int, y: int| 0 <= x < y < rs@.len() && x < a ==> rs@[x].leg_id != rs@[y].leg_id,
                a <= rs@.len(),
            decreases rs@.len() - a,
        {
            let mut b: usize = a + 1;
            while b < rs.len()
                invariant
                    self.first_receipt_error(id, rs@, rs@.len() as int) is None,
                    distinct_uids(rs@),
                    forall|x: int, y: int| 0 <= x < y < rs@.len() && x < a ==> rs@[x].leg_id != rs@[y].leg_id,
                    forall|y: int| a < y < b ==> rs@[a as int].leg_id != rs@[y].leg_id,
                    a < b <= rs@.len(),
                decreases rs@.len() - b,
            {
                if rs[a].leg_id == rs[b].leg_id {
                    return Some(SettlementError::UnexpectedAffirmationStatus);
                }
                b = b + 1;
            }
            a = a + 1;
        }
        None
    }

    /// Whether `signer` has already issued receipt `uid`.
    fn receipt_used(&self, signer: u64, uid: u64) -> (r: bool)
        ensures
            r == self.used_receipts@.contains(UsedReceipt { signer, uid }),
    {
        let t = UsedReceipt { signer, uid };
        let mut i: usize = 0;
        while i < self.used_receipts.len()
            invariant
                t == (UsedReceipt { signer, uid }),
                i <= self.used_receipts@.len(),
                forall|k: int| 0 <= k < i ==> self.used_receipts@[k] != t,
            decreases self.used_receipts@.len() - i,
        {
            if self.used_receipts[i] == t {
                proof {
                    assert(self.used_receipts@[i as int] == t);
                }
                return true;
            }
            i = i + 1;
        }
        false
    }
}

/// Marks the off-chain legs of the receipts `rs` as affirmed and to be
/// skipped at execution, each with its signer and uid.
pub fn apply_receipts(inst: &mut Instruction, rs: &Vec<ReceiptDetails>)
    requires
        old(inst).wf(),
        old(inst).is_live(),
        distinct_receipt_legs(rs@),
        forall|m: int| 0 <= m < rs@.len() ==> {
            &&& (#[trigger] rs@[m]).leg_id < old(inst).legs@.len()
            &&& old(inst).legs@[rs@[m].leg_id as int] is OffChain
            &&& old(inst).offchain@[rs@[m].leg_id as int] == AffirmationStatus::Pending
        },
    ensures
        final(inst).wf(),
        final(inst).venue_id == old(inst).venue_id,
        final(inst).settlement_type == old(inst).settlement_type,
        final(inst).created_at == old(inst).created_at,
        final(inst).trade_date == old(inst).trade_date,
        final(inst).value_date == old(inst).value_date,
        final(inst).memo == old(inst).memo,
        final(inst).status == old(inst).status,
        final(inst).legs == old(inst).legs,
        final(inst).parties == old(inst).parties,
        final(inst).offchain@.len() == old(inst).offchain@.len(),
        final(inst).leg_status@.len() == old(inst).leg_status@.len(),
        forall|k: int| 0 <= k < old(inst).offchain@.len() ==> #[trigger] final(inst).offchain@[k] == if receipt_for(rs@, k) {
            AffirmationStatus::Affirmed
        } else {
            old(inst).offchain@[k]
        },
        forall|m: int| 0 <= m < rs@.len() ==> #[trigger] final(inst).leg_status@[rs@[m].leg_id as int] == (LegStatus::ExecutionToBeSkipped { signer: rs@[m].signer, uid: rs@[m].uid }),
        forall|k: int| 0 <= k < old(inst).leg_status@.len() && !receipt_for(rs@, k) ==> #[trigger] final(inst).leg_status@[k] == old(inst).leg_status@[k],
        final(inst).pending == old(inst).pending - rs@.len(),
{
    let ghost o = *inst;
    proof {
        crate::settlement::lemma_pending_receipts_bound(o.offchain@);
    }
    let mut i: usize = 0;
    while i < rs.len()
        invariant
            o == *old(inst),
            o.wf(),
            o.is_live(),
            distinct_receipt_legs(rs@),
            forall|m: int| 0 <= m < rs@.len() ==> {
                &&& (#[trigger] rs@[m]).leg_id < o.legs@.len()
                &&& o.legs@[rs@[m].leg_id as int] is OffChain
                &&& o.offchain@[rs@[m].leg_id as int] == AffirmationStatus::Pending
            },
            i <= rs@.len(),
            inst.venue_id == o.venue_id,
            inst.settlement_type == o.settlement_type,
            inst.created_at == o.created_at,
            inst.trade_date == o.trade_date,
            inst.value_date == o.value_date,
            inst.memo == o.memo,
            inst.status == o.status,
            inst.legs == o.legs,
            inst.parties == o.parties,
            inst.offchain@.len() == o.offchain@.len(),
            inst.leg_status@.len() == o.leg_status@.len(),
            forall|k: int| 0 <= k < o.offchain@.len() ==> #[trigger] inst.offchain@[k] == if receipt_for(rs@.subrange(0, i as int), k) {
                AffirmationStatus::Affirmed
            } else {
                o.offchain@[k]
            },
            forall|m: int| 0 <= m < i ==> #[trigger] inst.leg_status@[rs@[m].leg_id as int] == (LegStatus::ExecutionToBeSkipped { signer: rs@[m].signer, uid: rs@[m].uid }),
            forall|k: int| 0 <= k < o.leg_status@.len() && !receipt_for(rs@.subrange(0, i as int), k) ==> #[trigger] inst.leg_status@[k] == o.leg_status@[k],
            pending_receipts(inst.offchain@) + i == pending_receipts(o.offchain@),
            inst.pending + i == o.pending,
        decreases rs@.len() - i,
    {
        let r = rs[i];
        let leg = r.leg_id as usize;
        proof {
            assert(rs@[i as int] == r);
            assert(!receipt_for(rs@.subrange(0, i as int), leg as int)) by {
                if receipt_for(rs@.subrange(0, i as int), leg as int) {
                    let m = choose|m: int| 0 <= m < i && #[trigger] rs@.subrange(0, i as int)[m].leg_id == leg as int;
                    assert(rs@[m].leg_id != rs@[i as int].leg_id);
                }
            }
            assert(inst.offchain@[leg as int] == AffirmationStatus::Pending);
            lemma_pending_receipts_update(inst.offchain@, leg as int, AffirmationStatus::Affirmed);
            crate::settlement::lemma_pending_receipts_bound(inst.offchain@);
        }
        let ghost before_off = inst.offchain@;
        let ghost before_ls = inst.leg_status@;
        inst.offchain.set(leg, AffirmationStatus::Affirmed);
        inst.leg_status.set(leg, LegStatus::ExecutionToBeSkipped { signer: r.signer, uid: r.uid });
        inst.pending = inst.pending - 1;
        i = i + 1;
        proof {
            assert(rs@.subrange(0, i as int) =~= rs@.subrange(0, i - 1).push(r));
            assert forall|k: int| 0 <= k < o.offchain@.len() implies #[trigger] inst.offchain@[k] == if receipt_for(rs@.subrange(0, i as int), k) {
                AffirmationStatus::Affirmed
            } else {
                o.offchain@[k]
            } by {
                if k == leg {
                    assert(rs@.subrange(0, i as int)[i - 1].leg_id == k);
                } else {
                    assert(inst.offchain@[k] == before_off[k]);
                    if receipt_for(rs@.subrange(0, i as int), k) {
                        let m = choose|m: int| 0 <= m < i && #[trigger] rs@.subrange(0, i as int)[m].leg_id == k;
                        assert(m < i - 1);
                        assert(rs@.subrange(0, i - 1)[m].leg_id == k);
                    }
                    if receipt_for(rs@.subrange(0, i - 1), k) {
                        let m = choose|m: int| 0 <= m < i - 1 && #[trigger] rs@.subrange(0, i - 1)[m].leg_id == k;
                        assert(rs@.subrange(0, i as int)[m].leg_id == k);
                    }
                }
            }
            assert forall|m: int| 0 <= m < i implies #[trigger] inst.leg_status@[rs@[m].leg_id as int] == (LegStatus::ExecutionToBeSkipped { signer: rs@[m].signer, uid: rs@[m].uid }) by {
                if m < i - 1 {
                    assert(rs@[m].leg_id != rs@[i - 1].leg_id);
                }
            }
            assert forall|k: int| 0 <= k < o.leg_status@.len() && !receipt_for(rs@.subrange(0, i as int), k) implies #[trigger] inst.leg_status@[k] == o.leg_status@[k] by {
                assert(k != leg) by {
                    if k == leg {
                        assert(rs@.subrange(0, i as int)[i - 1].leg_id == k);
                    }
                }
                if receipt_for(rs@.subrange(0, i - 1), k) {
                    let m = choose|m: int| 0 <= m < i - 1 && #[trigger] rs@.subrange(0, i - 1)[m].leg_id == k;
                    assert(rs@.subrange(0, i as int)[m].leg_id == k);
                }
                assert(inst.leg_status@[k] == before_ls[k]);
            }
        }
    }
    proof {
        assert(rs@.subrange(0, i as int) =~= rs@);
    }
}

/// Appends the receipts `rs` to `used`.
fn record_receipts(used: &mut Vec<UsedReceipt>, rs: &Vec<ReceiptDetails>)
    ensures
        final(used)@ == old(used)@ + issued_receipts(rs@),
{
    let mut k: usize = 0;
    let ghost used0 = used@;
    while k < rs.len()
        invariant
            used0 == old(used)@,
            k <= rs@.len(),
            used@ == used0 + issued_receipts(rs@.subrange(0, k as int)),
        decreases rs@.len() - k,
    {
        used.push(UsedReceipt { signer: rs[k].signer, uid: rs[k].uid });
        k = k + 1;
        proof {
            assert(issued_receipts(rs@.subrange(0, k as int)) =~= issued_receipts(rs@.subrange(0, k - 1)).push(
                UsedReceipt { signer: rs@[k - 1].signer, uid: rs@[k - 1].uid },
            ));
        }
    }
    proof {
        assert(rs@.subrange(0, k as int) =~= rs@);
    }
}

/// The receipts `rs` as issued receipts.
pub open spec fn issued_receipts(rs: Seq<ReceiptDetails>) -> Seq<UsedReceipt> {
    rs.map_values(|r: ReceiptDetails| UsedReceipt { signer: r.signer, uid: r.uid })
}

impl Settlement {
    /// Affirms instruction `id` with signed receipts for its off-chain legs,
    /// and for the portfolios `ps` as `affirm_instruction` does, all at
    /// once: if any part is refused, nothing changes. Each receipt's leg is
    /// then settled off the ledger, and its uid counts as used by its
    /// signer.
    pub fn affirm_with_receipts(&mut self, caller: u64, id: u64, receipts: Vec<ReceiptDetails>, ps: Vec<PortfolioId>) -> (r: Result<(), SettlementError>)
        requires
            old(self).wf(),
            old(self).block < u64::MAX,
        ensures
            final(self).wf(),
            old(self).receipts_error(caller, id, receipts@, ps@) is Some ==> r == Err::<(), SettlementError>(
                old(self).receipts_error(caller, id, receipts@, ps@)->Some_0,
            ),
            old(self).receipts_error(caller, id, receipts@, ps@) is None ==> (r is Ok <==> (
                funds_lockable(old(self).ledger, old(self).instructions@[id as int].legs@, ps@)
                && nfts_lockable(old(self).ledger, old(self).instructions@[id as int].legs@, ps@))),
            r is Err ==> *final(self) == *old(self),
            r is Ok ==> {
                let o = old(self).instructions@[id as int];
                let n = final(self).instructions@[id as int];
                let legs = o.legs@;
                &&& n.legs == o.legs
                &&& n.status == o.status
                &&& n.settlement_type == o.settlement_type
                &&& n.parties@.len() == o.parties@.len()
                &&& forall|m: int| 0 <= m < o.parties@.len() ==> #[trigger] n.parties@[m] == if ps@.contains(o.parties@[m].portfolio) {
                    Party { portfolio: o.parties@[m].portfolio, status: AffirmationStatus::Affirmed }
                } else {
                    o.parties@[m]
                }
                &&& forall|k: int| 0 <= k < o.offchain@.len() ==> #[trigger] n.offchain@[k] == if receipt_for(receipts@, k) {
                    AffirmationStatus::Affirmed
                } else {
                    o.offchain@[k]
                }
                &&& forall|m: int| 0 <= m < receipts@.len() ==> #[trigger] n.leg_status@[receipts@[m].leg_id as int] == (LegStatus::ExecutionToBeSkipped {
                    signer: receipts@[m].signer,
                    uid: receipts@[m].uid,
                })
                &&& forall|k: int| 0 <= k < o.leg_status@.len() && !receipt_for(receipts@, k) ==> #[trigger] n.leg_status@[k] == if legs[k].is_onchain() && ps@.contains(legs[k].sender_of()) {
                    LegStatus::ExecutionPending
                } else {
                    o.leg_status@[k]
                }
                &&& n.pending == o.pending - ps@.len() - receipts@.len()
                &&& forall|j: int| 0 <= j < old(self).instructions@.len() && j != id ==> #[trigger] final(self).instructions@[j] == old(self).instructions@[j]
                &&& final(self).only_settlement_changed(*old(self))
                &&& final(self).used_receipts@ == old(self).used_receipts@ + issued_receipts(receipts@)
                &&& forall|q: PortfolioId, b: u64| #[trigger] final(self).ledger.total(q, b) == old(self).ledger.total(q, b)
                &&& forall|q: PortfolioId, b: u64| #[trigger] final(self).ledger.locked(q, b) == old(self).ledger.locked(q, b) + need(legs, ps@, q, b, legs.len() as int)
                &&& forall|b: u64, j: u64| #[trigger] final(self).ledger.nft_owner(b, j) == old(self).ledger.nft_owner(b, j)
                &&& forall|b: u64, j: u64| #[trigger] final(self).ledger.nft_locked(b, j) == (old(self).ledger.nft_locked(b, j) || moves_nft(legs, ps@, b, j, legs.len() as int))
                &&& final(self).schedule@ == if n.pending == 0 && o.settlement_type == SettlementType::SettleOnAffirmation {
                    old(self).schedule@.push(ScheduledCall { block: (old(self).block + 1) as u64, instruction: id })
                } else {
                    old(self).schedule@
                }
            },
    {
        if id >= self.instructions.len() as u64 {
            return Err(SettlementError::UnknownInstruction);
        }
        let i = id as usize;
        let st = self.instructions[i].status;
        if !(st == InstructionStatus::Pending || st == InstructionStatus::Failed) {
            return Err(SettlementError::InstructionNotPending);
        }
        if let Some(e) = self.check_receipts(id, &receipts) {
            return Err(e);
        }
        if let Some(e) = self.check_affirmation(caller, id, &ps, AffirmationStatus::Pending) {
            return Err(e);
        }
        proof {
            assert(self.instructions@[id as int].wf());
            self.lemma_no_receipt_error(id, receipts@, receipts@.len() as int);
        }
        let mut trial = self.ledger.duplicate();
        proof {
            trial.lemma_same_as(self.ledger);
            lemma_lockable_same(trial, self.ledger, self.instructions@[id as int].legs@, ps@);
        }
        let res = lock_legs(&mut trial, &self.instructions[i].legs, &ps);
        if let Err(e) = res {
            return Err(e);
        }
        let mut inst = Self::placeholder();
        self.instructions.set_and_swap(i, &mut inst);
        proof {
            assert forall|m: int| 0 <= m < receipts@.len() implies {
                &&& (#[trigger] receipts@[m]).leg_id < inst.legs@.len()
                &&& inst.legs@[receipts@[m].leg_id as int] is OffChain
                &&& inst.offchain@[receipts@[m].leg_id as int] == AffirmationStatus::Pending
            } by {
                assert(old(self).receipt_error(id, receipts@[m]) is None);
            }
        }
        apply_receipts(&mut inst, &receipts);
        self.instructions.set(i, inst);
        record_receipts(&mut self.used_receipts, &receipts);
        proof {
            assert forall|j: int| 0 <= j < self.instructions@.len() implies {
                &&& #[trigger] self.instructions@[j].wf()
                &&& self.instructions@[j].venue_id < self.venues@.len()
            } by {
                assert(old(self).instructions@[j].wf());
            }
            let mid = self.instructions@[id as int];
            let o = old(self).instructions@[id as int];
            assert(mid.parties == o.parties);
            assert forall|p: PortfolioId| #[trigger] mid.status_of(p) == o.status_of(p) by {}
            assert(self.affirmation_error(caller, id, ps@, AffirmationStatus::Pending) is None);
            assert(self.instructions@ == old(self).instructions@.update(id as int, mid));
            assert forall|q: PortfolioId, b: u64| #[trigger] self.ledger.locked(q, b) == reserved(self.instructions@, q, b) by {
                lemma_reserved_update(old(self).instructions@, id as int, mid, q, b);
                assert(mid.status_of(q) == o.status_of(q));
                assert(mid.reserved_by(q, b) == o.reserved_by(q, b));
                assert(old(self).ledger.locked(q, b) == reserved(old(self).instructions@, q, b));
            }
            assert forall|q: PortfolioId, b: u64| #[trigger] self.ledger.available(q, b) == old(self).ledger.available(q, b) by {}
        }
        let ghost before = *self;
        let res = self.affirm_instruction(caller, id, ps);
        proof {
            assert(res is Ok);
            let o = old(self).instructions@[id as int];
            let mid = before.instructions@[id as int];
            let n = self.instructions@[id as int];
            assert forall|k2: int| 0 <= k2 < o.leg_status@.len() && !receipt_for(receipts@, k2) implies #[trigger] n.leg_status@[k2] == if o.legs@[k2].is_onchain() && ps@.contains(o.legs@[k2].sender_of()) {
                LegStatus::ExecutionPending
            } else {
                o.leg_status@[k2]
            } by {
                assert(n.leg_status@[k2] == if mid.legs@[k2].is_onchain() && ps@.contains(mid.legs@[k2].sender_of()) {
                    LegStatus::ExecutionPending
                } else {
                    mid.leg_status@[k2]
                });
            }
            assert forall|m: int| 0 <= m < receipts@.len() implies #[trigger] n.leg_status@[receipts@[m].leg_id as int] == (LegStatus::ExecutionToBeSkipped {
                signer: receipts@[m].signer,
                uid: receipts@[m].uid,
            }) by {
                let k2 = receipts@[m].leg_id as int;
                assert(old(self).receipt_error(id, receipts@[m]) is None);
                assert(o.legs@[k2] is OffChain);
                assert(mid.leg_status@[k2] == (LegStatus::ExecutionToBeSkipped { signer: receipts@[m].signer, uid: receipts@[m].uid }));
                assert(n.leg_status@[k2] == mid.leg_status@[k2]);
            }
        }
        res
    }
}

impl Settlement {
    /// Why the portfolios `ps` may not affirm, through `caller`, a new
    /// instruction with legs `legs`, before any balance is looked at.
    pub open spec fn new_affirmation_error(self, caller: u64, legs: Seq<Leg>, ps: Seq<PortfolioId>) -> Option<SettlementError> {
        if exists|k: int| 0 <= k < ps.len() && self.custodian(#[trigger] ps[k]) != caller {
            Some(SettlementError::UnauthorizedCustodian)
        } else if !distinct_portfolios(ps) || exists|k: int|
            0 <= k < ps.len() && !(is_party(legs, #[trigger] ps[k]) && self.initial_status(legs, ps[k]) == AffirmationStatus::Pending) {
            Some(SettlementError::UnexpectedAffirmationStatus)
        } else {
            None
        }
    }

    /// Creates an instruction as `add_instruction` does and affirms it for
    /// the portfolios `ps` as `affirm_instruction` does, as one step: if
    /// the affirmation is refused, the instruction is not created either.
    pub fn add_and_affirm_instruction(
        &mut self,
        caller: u64,
        v: u64,
        st: SettlementType,
        trade_date: Option<u64>,
        value_date: Option<u64>,
        legs: Vec<Leg>,
        ps: Vec<PortfolioId>,
        memo: Option<Vec<u8>>,
    ) -> (r: Result<u64, SettlementError>)
        requires
            old(self).wf(),
            old(self).instructions@.len() < u64::MAX,
            old(self).block < u64::MAX,
        ensures
            final(self).wf(),
            old(self).creation_error(caller, v, st, legs@) is Some ==> r == Err::<u64, SettlementError>(old(self).creation_error(caller, v, st, legs@)->Some_0),
            old(self).creation_error(caller, v, st, legs@) is None && old(self).new_affirmation_error(caller, legs@, ps@) is Some
                ==> r == Err::<u64, SettlementError>(old(self).new_affirmation_error(caller, legs@, ps@)->Some_0),
            old(self).creation_error(caller, v, st, legs@) is None ==> (r is Ok <==> (
                old(self).new_affirmation_error(caller, legs@, ps@) is None
                && funds_lockable(old(self).ledger, legs@, ps@)
                && nfts_lockable(old(self).ledger, legs@, ps@))),
            r == Err::<u64, SettlementError>(SettlementError::InsufficientPortfolioBalance) && old(self).creation_error(caller, v, st, legs@) is None
                && old(self).new_affirmation_error(caller, legs@, ps@) is None ==> !funds_lockable(old(self).ledger, legs@, ps@),
            r is Err ==> {
                &&& final(self).instructions@ == old(self).instructions@
                &&& final(self).schedule@ == old(self).schedule@
                &&& final(self).ledger == old(self).ledger
                &&& final(self).block == old(self).block
                &&& final(self).assets == old(self).assets
                &&& final(self).venues == old(self).venues
                &&& final(self).custodians == old(self).custodians
                &&& final(self).ticker_approvals == old(self).ticker_approvals
                &&& final(self).portfolio_approvals == old(self).portfolio_approvals
                &&& final(self).used_receipts == old(self).used_receipts
            },
            r is Ok ==> {
                let id = old(self).instructions@.len();
                let n = final(self).instructions@[id as int];
                let created = match st {
                    SettlementType::SettleOnBlock(b) => old(self).schedule@.push(ScheduledCall { block: b, instruction: id as u64 }),
                    _ => old(self).schedule@,
                };
                &&& r->Ok_0 == id
                &&& final(self).instructions@.len() == id + 1
                &&& forall|j: int| 0 <= j < id ==> #[trigger] final(self).instructions@[j] == old(self).instructions@[j]
                &&& n.venue_id == v
                &&& n.settlement_type == st
                &&& n.created_at == old(self).block
                &&& n.trade_date == trade_date
                &&& n.value_date == value_date
                &&& n.memo == memo
                &&& n.status == InstructionStatus::Pending
                &&& n.legs@ == legs@
                &&& n.leg_status@.len() == legs@.len()
                &&& forall|k: int| 0 <= k < legs@.len() ==> #[trigger] n.leg_status@[k] == if legs@[k].is_onchain() && ps@.contains(legs@[k].sender_of()) {
                    LegStatus::ExecutionPending
                } else {
                    LegStatus::PendingTokenLock
                }
                &&& n.offchain@.len() == legs@.len()
                &&& forall|k: int| 0 <= k < legs@.len() ==> #[trigger] n.offchain@[k] == if legs@[k] is OffChain {
                    AffirmationStatus::Pending
                } else {
                    AffirmationStatus::Unknown
                }
                &&& forall|q: PortfolioId| #[trigger] n.has_party(q) <==> is_party(legs@, q)
                &&& forall|m: int| 0 <= m < n.parties@.len() ==> #[trigger] n.parties@[m].status == if ps@.contains(n.parties@[m].portfolio) {
                    AffirmationStatus::Affirmed
                } else {
                    old(self).initial_status(legs@, n.parties@[m].portfolio)
                }
                &&& n.pending == pending_parties(n.parties@) + pending_receipts(n.offchain@)
                &&& final(self).schedule@ == if n.pending == 0 && st == SettlementType::SettleOnAffirmation {
                    created.push(ScheduledCall { block: (old(self).block + 1) as u64, instruction: id as u64 })
                } else {
                    created
                }
                &&& forall|q: PortfolioId, b: u64| #[trigger] final(self).ledger.total(q, b) == old(self).ledger.total(q, b)
                &&& forall|q: PortfolioId, b: u64| #[trigger] final(self).ledger.locked(q, b) == old(self).ledger.locked(q, b) + need(legs@, ps@, q, b, legs@.len() as int)
                &&& forall|b: u64, j: u64| #[trigger] final(self).ledger.nft_owner(b, j) == old(self).ledger.nft_owner(b, j)
                &&& forall|b: u64, j: u64| #[trigger] final(self).ledger.nft_locked(b, j) == (old(self).ledger.nft_locked(b, j) || moves_nft(legs@, ps@, b, j, legs@.len() as int))
                &&& final(self).block == old(self).block
                &&& final(self).assets == old(self).assets
                &&& final(self).venues == old(self).venues
                &&& final(self).custodians == old(self).custodians
                &&& final(self).ticker_approvals == old(self).ticker_approvals
                &&& final(self).portfolio_approvals == old(self).portfolio_approvals
                &&& final(self).used_receipts == old(self).used_receipts
            },
    {
        let ghost legs_v = legs@;
        let id = self.add_instruction(caller, v, st, trade_date, value_date, legs, memo)?;
        let ghost mid = *self;
        proof {
            let m0 = mid.instructions@[id as int];
            assert(m0.wf());
            assert forall|q: PortfolioId| #[trigger] m0.status_of(q) == (if is_party(legs_v, q) {
                old(self).initial_status(legs_v, q)
            } else {
                AffirmationStatus::Unknown
            }) by {
                if is_party(legs_v, q) {
                    assert(m0.has_party(q));
                    let c = choose|c: int| 0 <= c < m0.parties@.len() && #[trigger] m0.parties@[c].portfolio == q;
                    assert(m0.parties@[c].status == old(self).initial_status(legs_v, q));
                }
            }
            assert forall|q: PortfolioId| #[trigger] mid.custodian(q) == old(self).custodian(q) by {}
            if old(self).new_affirmation_error(caller, legs_v, ps@) is None {
                assert forall|k: int| 0 <= k < ps@.len() implies #[trigger] m0.status_of(ps@[k]) == AffirmationStatus::Pending by {
                    assert(m0.status_of(ps@[k]) == (if is_party(legs_v, ps@[k]) {
                        old(self).initial_status(legs_v, ps@[k])
                    } else {
                        AffirmationStatus::Unknown
                    }));
                }
                assert(mid.affirmation_error(caller, id, ps@, AffirmationStatus::Pending) is None);
            } else {
                if exists|k: int| 0 <= k < ps@.len() && old(self).custodian(#[trigger] ps@[k]) != caller {
                    let k = choose|k: int| 0 <= k < ps@.len() && old(self).custodian(#[trigger] ps@[k]) != caller;
                    assert(mid.custodian(ps@[k]) != caller);
                    assert(mid.affirmation_error(caller, id, ps@, AffirmationStatus::Pending) == Some(SettlementError::UnauthorizedCustodian));
                } else if !distinct_portfolios(ps@) {
                    assert(mid.affirmation_error(caller, id, ps@, AffirmationStatus::Pending) == Some(SettlementError::UnexpectedAffirmationStatus));
                } else {
                    let k = choose|k: int|
                        0 <= k < ps@.len() && !(is_party(legs_v, #[trigger] ps@[k]) && old(self).initial_status(legs_v, ps@[k]) == AffirmationStatus::Pending);
                    assert(m0.status_of(ps@[k]) == (if is_party(legs_v, ps@[k]) {
                        old(self).initial_status(legs_v, ps@[k])
                    } else {
                        AffirmationStatus::Unknown
                    }));
                    assert(m0.status_of(ps@[k]) != AffirmationStatus::Pending);
                    assert(mid.affirmation_error(caller, id, ps@, AffirmationStatus::Pending) == Some(SettlementError::UnexpectedAffirmationStatus));
                }
            }
        }
        let res = self.affirm_instruction(caller, id, ps);
        match res {
            Ok(()) => {
                proof {
                    let n = self.instructions@[id as int];
                    let m0 = mid.instructions@[id as int];
                    assert forall|m: int| 0 <= m < n.parties@.len() implies #[trigger] n.parties@[m].status == if ps@.contains(n.parties@[m].portfolio) {
                        AffirmationStatus::Affirmed
                    } else {
                        old(self).initial_status(legs_v, n.parties@[m].portfolio)
                    } by {
                        assert(n.parties@[m] == if ps@.contains(m0.parties@[m].portfolio) {
                            Party { portfolio: m0.parties@[m].portfolio, status: AffirmationStatus::Affirmed }
                        } else {
                            m0.parties@[m]
                        });
                    }
                    assert forall|k: int| 0 <= k < legs_v.len() implies #[trigger] n.leg_status@[k] == if legs_v[k].is_onchain() && ps@.contains(legs_v[k].sender_of()) {
                        LegStatus::ExecutionPending
                    } else {
                        LegStatus::PendingTokenLock
                    } by {
                        assert(m0.leg_status@[k] == LegStatus::PendingTokenLock);
                    }
                    assert forall|q: PortfolioId| #[trigger] n.has_party(q) <==> is_party(legs_v, q) by {
                        lemma_status_of_moved(n, m0, ps@, AffirmationStatus::Affirmed, LegStatus::ExecutionPending, q);
                        assert(m0.has_party(q) <==> is_party(legs_v, q));
                    }
                    assert(n.wf());
                }
                Ok(id)
            },
            Err(e) => {
                self.instructions.pop();
                match st {
                    SettlementType::SettleOnBlock(_) => {
                        self.schedule.pop();
                    },
                    _ => {},
                }
                proof {
                    assert(self.instructions@ =~= old(self).instructions@);
                    assert(self.schedule@ =~= old(self).schedule@);
                    assert forall|j: int| 0 <= j < self.instructions@.len() implies {
                        &&& #[trigger] self.instructions@[j].wf()
                        &&& self.instructions@[j].venue_id < self.venues@.len()
                    } by {
                        assert(old(self).instructions@[j].wf());
                    }
                    assert(self.ledger.wf());
                    assert forall|q: PortfolioId, b: u64| #[trigger] self.ledger.locked(q, b) == reserved(self.instructions@, q, b) by {
                        assert(old(self).ledger.locked(q, b) == reserved(old(self).instructions@, q, b));
                    }
                    assert forall|x: int, y: int|
                        #![trigger self.assets@[x], self.assets@[y]]
                        0 <= x < y < self.assets@.len() implies self.assets@[x].id != self.assets@[y].id by {
                        assert(old(self).assets@[x].id != old(self).assets@[y].id);
                    }
                    assert forall|w: int| 0 <= w < self.venues@.len() implies {
                        &&& #[trigger] self.venues@[w].signers@.len() <= crate::types::MAX_VENUE_SIGNERS
                        &&& crate::registry::no_duplicates(self.venues@[w].signers@)
                    } by {
                        assert(old(self).venues@[w] == self.venues@[w]);
                    }
                }
                Err(e)
            },
        }
    }

    /// Status of instruction `id`; `Unknown` if there is none.
    pub fn instruction_status(&self, id: u64) -> (r: InstructionStatus)
        ensures
            (id as int) < self.instructions@.len() ==> r == self.instructions@[id as int].status,
            (id as int) >= self.instructions@.len() ==> r == InstructionStatus::Unknown,
    {
        if id >= self.instructions.len() as u64 {
            return InstructionStatus::Unknown;
        }
        self.instructions[id as usize].status
    }

    /// Number of affirmations instruction `id` still waits for.
    pub fn instruction_affirms_pending(&self, id: u64) -> (r: u64)
        ensures
            (id as int) < self.instructions@.len() ==> r == self.instructions@[id as int].pending,
            (id as int) >= self.instructions@.len() ==> r == 0,
    {
        if id >= self.instructions.len() as u64 {
            return 0;
        }
        self.instructions[id as usize].pending
    }

    /// Status of leg `leg` of instruction `id`, if it has one.
    pub fn instruction_leg_status(&self, id: u64, leg: u64) -> (r: Option<LegStatus>)
        ensures
            (id as int) < self.instructions@.len() && (leg as int) < self.instructions@[id as int].leg_status@.len()
                ==> r == Some(self.instructions@[id as int].leg_status@[leg as int]),
            !((id as int) < self.instructions@.len() && (leg as int) < self.instructions@[id as int].leg_status@.len()) ==> r is None,
    {
        if id >= self.instructions.len() as u64 {
            return None;
        }
        let inst = &self.instructions[id as usize];
        if leg >= inst.leg_status.len() as u64 {
            return None;
        }
        Some(inst.leg_status[leg as usize])
    }

    /// Affirmation of the receipt of leg `leg` of instruction `id`.
    pub fn offchain_affirmation(&self, id: u64, leg: u64) -> (r: AffirmationStatus)
        ensures
            (id as int) < self.instructions@.len() && (leg as int) < self.instructions@[id as int].offchain@.len()
                ==> r == self.instructions@[id as int].offchain@[leg as int],
            !((id as int) < self.instructions@.len() && (leg as int) < self.instructions@[id as int].offchain@.len()) ==> r == AffirmationStatus::Unknown,
    {
        if id >= self.instructions.len() as u64 {
            return AffirmationStatus::Unknown;
        }
        let inst = &self.instructions[id as usize];
        if leg >= inst.offchain.len() as u64 {
            return AffirmationStatus::Unknown;
        }
        inst.offchain[leg as usize]
    }

    /// Number of instructions created so far: the id of the next one.
    pub fn instruction_counter(&self) -> (r: u64)
        ensures
            r == self.instructions@.len(),
    {
        self.instructions.len() as u64
    }

    /// Number of venues created so far: the id of the next one.
    pub fn venue_counter(&self) -> (r: u64)
        ensures
            r == self.venues@.len(),
    {
        self.venues.len() as u64
    }

    /// Balance of asset `a` in portfolio `p`.
    pub fn balance(&self, p: PortfolioId, a: u64) -> (r: u128)
        requires
            self.wf(),
        ensures
            r == self.ledger.total(p, a),
    {
        self.ledger.balance_of(p, a)
    }

    /// Reserved part of the balance of asset `a` in portfolio `p`.
    pub fn locked_balance(&self, p: PortfolioId, a: u64) -> (r: u128)
        requires
            self.wf(),
        ensures
            r == self.ledger.locked(p, a),
    {
        self.ledger.locked_of(p, a)
    }

    /// Number of calls the scheduler holds for `block`.
    pub fn scheduled_at(&self, block: u64) -> (r: usize)
        ensures
            r == self.schedule@.filter(crate::execution::due_at(block)).len(),
    {
        let mut n: usize = 0;
        let mut i: usize = 0;
        while i < self.schedule.len()
            invariant
                i <= self.schedule@.len(),
                n == self.schedule@.subrange(0, i as int).filter(crate::execution::due_at(block)).len(),
                n <= i,
            decreases self.schedule@.len() - i,
        {
            proof {
                assert(self.schedule@.subrange(0, i + 1) =~= self.schedule@.subrange(0, i as int).push(self.schedule@[i as int]));
                self.schedule@.subrange(0, i as int).lemma_filter_push(self.schedule@[i as int], crate::execution::due_at(block));
            }
            if self.schedule[i].block == block {
                n = n + 1;
            }
            i = i + 1;
        }
        proof {
            assert(self.schedule@.subrange(0, i as int) =~= self.schedule@);
        }
        n
    }
}

} // verus!
