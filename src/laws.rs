use vstd::prelude::*;

use crate::execution::{incoming, legs_compliant, lemma_reserved_by_settled, outgoing, settled};
use crate::ledger::Ledger;
use crate::lifecycle::distinct_portfolios;
use crate::reservation::{lemma_reserved_covers, reserved};
use crate::settlement::{pending_parties, pending_receipts, Settlement};
use crate::types::{AffirmationStatus, Leg, PortfolioId};

verus! {

/// If compliance refuses any on-chain leg of a live instruction, the
/// instruction cannot be settled; every execution entry point then leaves
/// all balances as they were.
pub proof fn law_denied_leg_blocks_settlement(s: Settlement, id: u64, k: int)
    requires
        s.wf(),
        (id as int) < s.instructions@.len(),
        0 <= k < s.instructions@[id as int].legs@.len(),
        s.instructions@[id as int].legs@[k].is_onchain(),
        !s.transfer_allowed(s.instructions@[id as int].legs@[k].asset_of()),
    ensures
        !legs_compliant(s, s.instructions@[id as int].legs@),
        !s.executable(id),
{
    assert(s.instructions@[id as int].legs@[k].is_onchain());
}

/// Settling one fungible leg of amount `amount` from `sender` to `receiver` takes
/// exactly `amount` from `sender` and its reservation, and gives exactly
/// `amount` to `receiver`; the sum of all balances is unchanged.
pub proof fn law_conservation(n: Ledger, o: Ledger, sender: PortfolioId, receiver: PortfolioId, a: u64, amount: u128)
    requires
        sender != receiver,
        settled(n, o, seq![Leg::Fungible { sender, receiver, asset: a, amount }]),
    ensures
        n.total(sender, a) + amount == o.total(sender, a),
        n.total(receiver, a) == o.total(receiver, a) + amount,
        n.locked(sender, a) + amount == o.locked(sender, a),
        n.locked(receiver, a) == o.locked(receiver, a),
        n.issued() == o.issued(),
{
    let leg = Leg::Fungible { sender, receiver, asset: a, amount };
    let legs = seq![leg];
    assert(legs[0] == leg);
    assert(outgoing(legs, sender, a, 0) == 0);
    assert(incoming(legs, sender, a, 0) == 0);
    assert(outgoing(legs, receiver, a, 0) == 0);
    assert(incoming(legs, receiver, a, 0) == 0);
    assert(outgoing(legs, sender, a, 1) == amount);
    assert(incoming(legs, sender, a, 1) == 0);
    assert(outgoing(legs, receiver, a, 1) == 0);
    assert(incoming(legs, receiver, a, 1) == amount);
    assert(n.total(sender, a) + outgoing(legs, sender, a, 1) == o.total(sender, a) + incoming(legs, sender, a, 1));
    assert(n.total(receiver, a) + outgoing(legs, receiver, a, 1) == o.total(receiver, a) + incoming(legs, receiver, a, 1));
    assert(n.locked(sender, a) + outgoing(legs, sender, a, 1) == o.locked(sender, a));
    assert(n.locked(receiver, a) + outgoing(legs, receiver, a, 1) == o.locked(receiver, a));
}

/// In every consistent state, the count of missing affirmations of a live
/// instruction is the number of its parties and off-chain receipts still
/// pending.
pub proof fn law_pending_counter(s: Settlement, id: u64)
    requires
        s.wf(),
        (id as int) < s.instructions@.len(),
        s.instructions@[id as int].is_live(),
    ensures
        s.instructions@[id as int].pending == pending_parties(s.instructions@[id as int].parties@) + pending_receipts(
            s.instructions@[id as int].offchain@,
        ),
{
    assert(s.instructions@[id as int].wf());
}

/// No reservation exceeds its balance, so locking never makes an available
/// balance negative.
pub proof fn law_locked_within_balance(l: Ledger, p: PortfolioId, a: u64)
    requires
        l.wf(),
    ensures
        l.locked(p, a) <= l.total(p, a),
{
    l.lemma_locked_le_total(p, a);
}

/// The reserved balance of asset `b` in portfolio `q` is exactly the sum,
/// over the live instructions that `q` has affirmed, of what their legs
/// send from `q`: nothing is reserved twice, and nothing stays reserved
/// for an instruction that was withdrawn from, rejected or settled.
pub proof fn law_no_double_lock(s: Settlement, q: PortfolioId, b: u64)
    requires
        s.wf(),
    ensures
        s.ledger.locked(q, b) == reserved(s.instructions@, q, b),
        forall|i: int| 0 <= i < s.instructions@.len() ==> #[trigger] s.instructions@[i].reserved_by(q, b) <= s.ledger.locked(q, b),
{
    assert forall|i: int| 0 <= i < s.instructions@.len() implies #[trigger] s.instructions@[i].reserved_by(q, b) <= s.ledger.locked(q, b) by {
        lemma_reserved_covers(s.instructions@, i, q, b);
    }
}

/// Once every party of a live instruction has affirmed, the ledger holds
/// reserved every amount its legs send: settling it can then be refused
/// only by compliance or for a token.
pub proof fn law_affirmed_instruction_is_funded(s: Settlement, id: u64, q: PortfolioId, b: u64)
    requires
        s.wf(),
        (id as int) < s.instructions@.len(),
        s.instructions@[id as int].is_live(),
        s.instructions@[id as int].pending == 0,
    ensures
        outgoing(s.instructions@[id as int].legs@, q, b, s.instructions@[id as int].legs@.len() as int) <= s.ledger.locked(q, b),
{
    assert(s.instructions@[id as int].wf());
    lemma_reserved_by_settled(s.instructions@[id as int], q, b);
    lemma_reserved_covers(s.instructions@, id as int, q, b);
}

/// A portfolio that has affirmed an instruction cannot affirm it again:
/// its legs are never reserved twice for one instruction.
pub proof fn law_no_second_affirmation(s: Settlement, caller: u64, id: u64, ps: Seq<PortfolioId>, k: int)
    requires
        s.wf(),
        0 <= k < ps.len(),
        (id as int) < s.instructions@.len(),
        s.instructions@[id as int].status_of(ps[k]) == AffirmationStatus::Affirmed,
    ensures
        s.affirmation_error(caller, id, ps, AffirmationStatus::Pending) is Some,
{
    if s.instructions@[id as int].is_live() && !(exists|j: int| 0 <= j < ps.len() && s.custodian(#[trigger] ps[j]) != caller) && distinct_portfolios(ps) {
        assert(s.instructions@[id as int].status_of(ps[k]) != AffirmationStatus::Pending);
    }
}

/// Rejecting an instruction that does not exist, or that has already
/// succeeded or been rejected, is refused (and a refused rejection changes
/// nothing).
pub proof fn law_reject_finished(s: Settlement, caller: u64, id: u64, p: PortfolioId)
    requires
        s.wf(),
        (id as int) >= s.instructions@.len() || !s.instructions@[id as int].is_live(),
    ensures
        s.rejection_error(caller, id, p) is Some,
{
}

} // verus!
