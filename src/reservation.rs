use vstd::prelude::*;

use crate::affirmation::need;
use crate::execution::{affirmed_of, outgoing};
use crate::settlement::{pending_parties, Instruction, Party};
use crate::types::{AffirmationStatus, Leg, PortfolioId};

verus! {

impl Instruction {
    /// Amount of asset `b` this instruction holds reserved in portfolio `q`:
    /// what its legs send from `q`, once `q` has affirmed a live instruction.
    pub open spec fn reserved_by(self, q: PortfolioId, b: u64) -> nat {
        if self.is_live() && self.status_of(q) == AffirmationStatus::Affirmed {
            outgoing(self.legs@, q, b, self.legs@.len() as int)
        } else {
            0
        }
    }
}

/// Amount of asset `b` that the instructions hold reserved in `q`.
pub open spec fn reserved(insts: Seq<Instruction>, q: PortfolioId, b: u64) -> nat
    decreases insts.len(),
{
    if insts.len() == 0 {
        0
    } else {
        reserved(insts.drop_last(), q, b) + insts.last().reserved_by(q, b)
    }
}

pub proof fn lemma_reserved_update(insts: Seq<Instruction>, i: int, x: Instruction, q: PortfolioId, b: u64)
    requires
        0 <= i < insts.len(),
    ensures
        reserved(insts.update(i, x), q, b) + insts[i].reserved_by(q, b) == reserved(insts, q, b) + x.reserved_by(q, b),
    decreases insts.len(),
{
    if i < insts.len() - 1 {
        lemma_reserved_update(insts.drop_last(), i, x, q, b);
        assert(insts.update(i, x).drop_last() =~= insts.drop_last().update(i, x));
    } else {
        assert(insts.update(i, x).drop_last() =~= insts.drop_last());
    }
}

pub proof fn lemma_reserved_push(insts: Seq<Instruction>, x: Instruction, q: PortfolioId, b: u64)
    ensures
        reserved(insts.push(x), q, b) == reserved(insts, q, b) + x.reserved_by(q, b),
{
    assert(insts.push(x).drop_last() =~= insts);
}

pub proof fn lemma_reserved_covers(insts: Seq<Instruction>, i: int, q: PortfolioId, b: u64)
    requires
        0 <= i < insts.len(),
    ensures
        insts[i].reserved_by(q, b) <= reserved(insts, q, b),
    decreases insts.len(),
{
    if i < insts.len() - 1 {
        lemma_reserved_covers(insts.drop_last(), i, q, b);
    }
}

/// What legs take from senders among `ps` is what they send from `q`
/// when `q` is among them, and nothing otherwise.
pub proof fn lemma_need_is_outgoing(legs: Seq<Leg>, ps: Seq<PortfolioId>, q: PortfolioId, b: u64, n: int)
    requires
        0 <= n,
    ensures
        need(legs, ps, q, b, n) == if ps.contains(q) {
            outgoing(legs, q, b, n)
        } else {
            0
        },
    decreases n,
{
    if n > 0 {
        lemma_need_is_outgoing(legs, ps, q, b, n - 1);
    }
}

/// Legs send nothing from a portfolio that sends in none of them.
pub proof fn lemma_outgoing_non_sender(legs: Seq<Leg>, q: PortfolioId, b: u64, n: int)
    requires
        0 <= n <= legs.len(),
        forall|k: int| 0 <= k < n && #[trigger] legs[k].is_onchain() ==> legs[k].sender_of() != q,
    ensures
        outgoing(legs, q, b, n) == 0,
    decreases n,
{
    if n > 0 {
        assert(legs[n - 1] is Fungible ==> legs[n - 1].is_onchain());
        lemma_outgoing_non_sender(legs, q, b, n - 1);
    }
}

/// No party of a list without pending entries is pending.
pub proof fn lemma_no_pending_party(s: Seq<Party>)
    requires
        pending_parties(s) == 0,
    ensures
        forall|m: int| 0 <= m < s.len() ==> #[trigger] s[m].status != AffirmationStatus::Pending,
    decreases s.len(),
{
    if s.len() > 0 {
        lemma_no_pending_party(s.drop_last());
        assert forall|m: int| 0 <= m < s.len() implies #[trigger] s[m].status != AffirmationStatus::Pending by {
            if m < s.len() - 1 {
                assert(s.drop_last()[m] == s[m]);
            }
        }
    }
}

/// Among parties with distinct portfolios, `q` has affirmed exactly when
/// it is among the affirmed ones.
pub proof fn lemma_affirmed_of(s: Seq<Party>, q: PortfolioId)
    ensures
        affirmed_of(s).contains(q) <==> exists|m: int| 0 <= m < s.len() && #[trigger] s[m].portfolio == q && s[m].status == AffirmationStatus::Affirmed,
    decreases s.len(),
{
    if s.len() > 0 {
        lemma_affirmed_of(s.drop_last(), q);
        let t = s.drop_last();
        if s.last().status == AffirmationStatus::Affirmed {
            assert(affirmed_of(s) == affirmed_of(t).push(s.last().portfolio));
            if affirmed_of(s).contains(q) && !affirmed_of(t).contains(q) {
                let k = choose|k: int| 0 <= k < affirmed_of(s).len() && affirmed_of(s)[k] == q;
                assert(k == affirmed_of(t).len());
                assert(s[s.len() - 1].portfolio == q);
            }
            if affirmed_of(t).contains(q) {
                let k = choose|k: int| 0 <= k < affirmed_of(t).len() && affirmed_of(t)[k] == q;
                assert(affirmed_of(s)[k] == q);
            }
            if s.last().portfolio == q {
                assert(affirmed_of(s)[affirmed_of(t).len() as int] == q);
            }
        }
        if exists|m: int| 0 <= m < s.len() && #[trigger] s[m].portfolio == q && s[m].status == AffirmationStatus::Affirmed {
            let m = choose|m: int| 0 <= m < s.len() && #[trigger] s[m].portfolio == q && s[m].status == AffirmationStatus::Affirmed;
            if m < s.len() - 1 {
                assert(t[m] == s[m]);
            }
        }
        if exists|m: int| 0 <= m < t.len() && #[trigger] t[m].portfolio == q && t[m].status == AffirmationStatus::Affirmed {
            let m = choose|m: int| 0 <= m < t.len() && #[trigger] t[m].portfolio == q && t[m].status == AffirmationStatus::Affirmed;
            assert(s[m] == t[m]);
        }
    }
}

} // verus!
