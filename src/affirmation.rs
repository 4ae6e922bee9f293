use vstd::prelude::*;

use crate::ledger::Ledger;
use crate::types::{Leg, PortfolioId, SettlementError};

verus! {

/// Amount of asset `b` that the first `n` legs take from `q`, counting only
/// legs whose sender is among `ps`.
pub open spec fn need(legs: Seq<Leg>, ps: Seq<PortfolioId>, q: PortfolioId, b: u64, n: int) -> nat
    decreases n,
{
    if n <= 0 {
        0
    } else {
        need(legs, ps, q, b, n - 1) + match legs[n - 1] {
            Leg::Fungible { sender, asset, amount, .. } => if sender == q && asset == b && ps.contains(sender) {
                amount as nat
            } else {
                0nat
            },
            _ => 0nat,
        }
    }
}

/// Whether one of the first `n` legs moves token `(b, j)` from a sender
/// among `ps`.
pub open spec fn moves_nft(legs: Seq<Leg>, ps: Seq<PortfolioId>, b: u64, j: u64, n: int) -> bool {
    exists|k: int, i: int|
        0 <= k < n && #[trigger] legs[k] is NonFungible && ps.contains(legs[k].sender_of()) && legs[k].asset_of() == b
            && 0 <= i < legs[k]->NonFungible_ids@.len() && #[trigger] legs[k]->NonFungible_ids@[i] == j
}

/// Whether every token that the legs move from a sender among `ps` is
/// held by that sender and not yet reserved.
pub open spec fn nfts_lockable(l: Ledger, legs: Seq<Leg>, ps: Seq<PortfolioId>) -> bool {
    forall|k: int, i: int|
        0 <= k < legs.len() && #[trigger] legs[k] is NonFungible && ps.contains(legs[k].sender_of())
            && 0 <= i < legs[k]->NonFungible_ids@.len() ==> {
            &&& l.nft_owner(legs[k].asset_of(), #[trigger] legs[k]->NonFungible_ids@[i]) == Some(legs[k].sender_of())
            &&& !l.nft_locked(legs[k].asset_of(), legs[k]->NonFungible_ids@[i])
        }
}

/// Whether the sender of every token that the legs move from a sender
/// among `ps` has the amounts available.
pub open spec fn funds_lockable(l: Ledger, legs: Seq<Leg>, ps: Seq<PortfolioId>) -> bool {
    forall|q: PortfolioId, b: u64| #[trigger] need(legs, ps, q, b, legs.len() as int) <= l.available(q, b)
}

/// `x - y`, or 0 where `y` is larger.
pub open spec fn sat_sub(x: nat, y: nat) -> nat {
    if x >= y {
        (x - y) as nat
    } else {
        0
    }
}

/// Ledgers that agree on every balance and token agree on what can be
/// reserved.
pub proof fn lemma_lockable_same(a: Ledger, b: Ledger, legs: Seq<Leg>, ps: Seq<PortfolioId>)
    requires
        a.same_fungible(b),
        a.same_nfts(b),
    ensures
        funds_lockable(a, legs, ps) == funds_lockable(b, legs, ps),
        nfts_lockable(a, legs, ps) == nfts_lockable(b, legs, ps),
{
    assert forall|q: PortfolioId, c: u64| #[trigger] a.available(q, c) == b.available(q, c) by {
        assert(a.total(q, c) == b.total(q, c));
        assert(a.locked(q, c) == b.locked(q, c));
    }
}

pub proof fn lemma_need_grows(legs: Seq<Leg>, ps: Seq<PortfolioId>, q: PortfolioId, b: u64, a: int, c: int)
    requires
        0 <= a <= c,
    ensures
        need(legs, ps, q, b, a) <= need(legs, ps, q, b, c),
    decreases c - a,
{
    if a < c {
        lemma_need_grows(legs, ps, q, b, a, c - 1);
    }
}

/// Whether `x` is in `ps`.
pub fn contains_portfolio(ps: &Vec<PortfolioId>, x: PortfolioId) -> (r: bool)
    ensures
        r == ps@.contains(x),
{
    let mut i: usize = 0;
    while i < ps.len()
        invariant
            i <= ps@.len(),
            forall|k: int| 0 <= k < i ==> ps@[k] != x,
        decreases ps@.len() - i,
    {
        if ps[i] == x {
            proof {
                assert(ps@[i as int] == x);
            }
            return true;
        }
        i = i + 1;
    }
    false
}

/// Reserves what the legs take from senders among `ps`: every amount and
/// every token. Refused, and with no promise on `l`, when some sender
/// lacks the funds or a token.
pub fn lock_legs(l: &mut Ledger, legs: &Vec<Leg>, ps: &Vec<PortfolioId>) -> (r: Result<(), SettlementError>)
    requires
        old(l).wf(),
        crate::settlement::nft_ids_distinct(legs@),
    ensures
        r is Ok <==> funds_lockable(*old(l), legs@, ps@) && nfts_lockable(*old(l), legs@, ps@),
        r is Err ==> r == Err::<(), SettlementError>(SettlementError::InsufficientPortfolioBalance)
            || r == Err::<(), SettlementError>(SettlementError::NFTNotFoundInPortfolio)
            || r == Err::<(), SettlementError>(SettlementError::NFTAlreadyLocked),
        r == Err::<(), SettlementError>(SettlementError::InsufficientPortfolioBalance) ==> !funds_lockable(*old(l), legs@, ps@),
        r == Err::<(), SettlementError>(SettlementError::NFTNotFoundInPortfolio) || r == Err::<(), SettlementError>(SettlementError::NFTAlreadyLocked)
            ==> !nfts_lockable(*old(l), legs@, ps@),
        r is Ok ==> {
            &&& final(l).wf()
            &&& final(l).issued() == old(l).issued()
            &&& forall|q: PortfolioId, b: u64| #[trigger] final(l).total(q, b) == old(l).total(q, b)
            &&& forall|q: PortfolioId, b: u64| #[trigger] final(l).locked(q, b) == old(l).locked(q, b) + need(legs@, ps@, q, b, legs@.len() as int)
            &&& forall|b: u64, j: u64| #[trigger] final(l).nft_owner(b, j) == old(l).nft_owner(b, j)
            &&& forall|b: u64, j: u64| #[trigger] final(l).nft_locked(b, j) == (old(l).nft_locked(b, j) || moves_nft(legs@, ps@, b, j, legs@.len() as int))
        },
{
    let ghost l0 = *l;
    let ghost s = legs@;

    let mut k: usize = 0;
    while k < legs.len()
        invariant
            s == legs@,
            l0 == *old(l),
            l0.wf(),
            l.wf(),
            crate::settlement::nft_ids_distinct(s),
            k <= s.len(),
            l.issued() == l0.issued(),
            forall|q: PortfolioId, b: u64| #[trigger] l.total(q, b) == l0.total(q, b),
            forall|q: PortfolioId, b: u64| #[trigger] l.locked(q, b) == l0.locked(q, b) + need(s, ps@, q, b, k as int),
            forall|b: u64, j: u64| #[trigger] l.nft_owner(b, j) == l0.nft_owner(b, j),
            forall|b: u64, j: u64| #[trigger] l.nft_locked(b, j) == (l0.nft_locked(b, j) || moves_nft(s, ps@, b, j, k as int)),
            forall|k2: int, i: int|
                0 <= k2 < k && #[trigger] s[k2] is NonFungible && ps@.contains(s[k2].sender_of())
                    && 0 <= i < s[k2]->NonFungible_ids@.len() ==> {
                    &&& l0.nft_owner(s[k2].asset_of(), #[trigger] s[k2]->NonFungible_ids@[i]) == Some(s[k2].sender_of())
                    &&& !l0.nft_locked(s[k2].asset_of(), s[k2]->NonFungible_ids@[i])
                },
        decreases s.len() - k,
    {
        let ghost lk = *l;
        match &legs[k] {
            Leg::Fungible { sender, asset, amount, .. } => {
                if contains_portfolio(ps, *sender) {
                    let res = l.lock(*sender, *asset, *amount);
                    if res.is_err() {
                        proof {
                            assert(lk.locked(*sender, *asset) == l0.locked(*sender, *asset) + need(s, ps@, *sender, *asset, k as int));
                            assert(need(s, ps@, *sender, *asset, k + 1) == need(s, ps@, *sender, *asset, k as int) + *amount);
                            assert(need(s, ps@, *sender, *asset, k + 1) > l0.available(*sender, *asset));
                            lemma_need_grows(s, ps@, *sender, *asset, k + 1, s.len() as int);
                            assert(need(s, ps@, *sender, *asset, s.len() as int) > l0.available(*sender, *asset));
                            assert(!funds_lockable(l0, s, ps@));
                        }
                        return Err(SettlementError::InsufficientPortfolioBalance);
                    }
                }
                proof {
                    assert forall|b: u64, j: u64| #[trigger] l.nft_locked(b, j) == (l0.nft_locked(b, j) || moves_nft(s, ps@, b, j, k + 1)) by {
                        if moves_nft(s, ps@, b, j, k + 1) {
                            let (k2, i2) = choose|k2: int, i2: int|
                                0 <= k2 < k + 1 && #[trigger] s[k2] is NonFungible && ps@.contains(s[k2].sender_of()) && s[k2].asset_of() == b
                                    && 0 <= i2 < s[k2]->NonFungible_ids@.len() && #[trigger] s[k2]->NonFungible_ids@[i2] == j;
                            assert(moves_nft(s, ps@, b, j, k as int));
                        }
                    }
                    assert forall|q: PortfolioId, b: u64| #[trigger] l.locked(q, b) == l0.locked(q, b) + need(s, ps@, q, b, k + 1) by {
                        assert(l.locked(q, b) == lk.locked(q, b) || (q == *sender && b == *asset));
                    }
                }
            },
            Leg::NonFungible { sender, asset, ids, .. } => {
                if contains_portfolio(ps, *sender) {
                    let mut i: usize = 0;
                    while i < ids.len()
                        invariant
                            s == legs@,
                            l0 == *old(l),
                            k < s.len(),
                            s[k as int] is NonFungible,
                            ids@ == s[k as int]->NonFungible_ids@,
                            *asset == s[k as int].asset_of(),
                            *sender == s[k as int].sender_of(),
                            ps@.contains(*sender),
                            l0.wf(),
                            l.wf(),
                            crate::settlement::nft_ids_distinct(s),
                            i <= ids@.len(),
                            l.issued() == l0.issued(),
                            forall|q: PortfolioId, b: u64| #[trigger] l.total(q, b) == l0.total(q, b),
                            forall|q: PortfolioId, b: u64| #[trigger] l.locked(q, b) == l0.locked(q, b) + need(s, ps@, q, b, k as int),
                            forall|b: u64, j: u64| #[trigger] l.nft_owner(b, j) == l0.nft_owner(b, j),
                            forall|b: u64, j: u64| #[trigger] l.nft_locked(b, j) == (l0.nft_locked(b, j) || moves_nft(s, ps@, b, j, k as int)
                                || (b == *asset && exists|i2: int| 0 <= i2 < i && ids@[i2] == j)),
                            forall|k2: int, i3: int|
                                0 <= k2 < k && #[trigger] s[k2] is NonFungible && ps@.contains(s[k2].sender_of())
                                    && 0 <= i3 < s[k2]->NonFungible_ids@.len() ==> {
                                    &&& l0.nft_owner(s[k2].asset_of(), #[trigger] s[k2]->NonFungible_ids@[i3]) == Some(s[k2].sender_of())
                                    &&& !l0.nft_locked(s[k2].asset_of(), s[k2]->NonFungible_ids@[i3])
                                },
                            forall|i3: int| 0 <= i3 < i ==> {
                                &&& l0.nft_owner(*asset, #[trigger] ids@[i3]) == Some(*sender)
                                &&& !l0.nft_locked(*asset, ids@[i3])
                            },
                        decreases ids@.len() - i,
                    {
                        let id = ids[i];
                        proof {
                            // No earlier leg, nor an earlier index of this one, names this token.
                            assert(!moves_nft(s, ps@, *asset, id, k as int)) by {
                                if moves_nft(s, ps@, *asset, id, k as int) {
                                    let (k2, i2) = choose|k2: int, i2: int|
                                        0 <= k2 < k && #[trigger] s[k2] is NonFungible && ps@.contains(s[k2].sender_of()) && s[k2].asset_of() == *asset
                                            && 0 <= i2 < s[k2]->NonFungible_ids@.len() && #[trigger] s[k2]->NonFungible_ids@[i2] == id;
                                    assert(s[k2]->NonFungible_ids@[i2] != s[k as int]->NonFungible_ids@[i as int]);
                                }
                            }
                            assert(!(exists|i2: int| 0 <= i2 < i && ids@[i2] == id)) by {
                                if exists|i2: int| 0 <= i2 < i && ids@[i2] == id {
                                    let i2 = choose|i2: int| 0 <= i2 < i && ids@[i2] == id;
                                    assert(s[k as int]->NonFungible_ids@[i2] != s[k as int]->NonFungible_ids@[i as int]);
                                }
                            }
                        }
                        let ghost li = *l;
                        let res = l.lock_nft(*sender, *asset, id);
                        if res.is_err() {
                            proof {
                                assert(!(l0.nft_owner(*asset, id) == Some(*sender) && !l0.nft_locked(*asset, id)));
                                assert(s[k as int]->NonFungible_ids@[i as int] == id);
                                if nfts_lockable(l0, s, ps@) {
                                    assert(l0.nft_owner(s[k as int].asset_of(), s[k as int]->NonFungible_ids@[i as int]) == Some(s[k as int].sender_of()));
                                }
                            }
                            return res;
                        }
                        i = i + 1;
                        proof {
                            assert forall|b: u64, j: u64| #[trigger] l.nft_locked(b, j) == (l0.nft_locked(b, j) || moves_nft(s, ps@, b, j, k as int)
                                || (b == *asset && exists|i2: int| 0 <= i2 < i && ids@[i2] == j)) by {
                                if b == *asset && j == id {
                                    assert(ids@[i - 1] == j);
                                } else {
                                    assert(l.nft_locked(b, j) == li.nft_locked(b, j));
                                    if b == *asset && exists|i2: int| 0 <= i2 < i && ids@[i2] == j {
                                        let i2 = choose|i2: int| 0 <= i2 < i && ids@[i2] == j;
                                        assert(i2 < i - 1);
                                    }
                                }
                            }
                            assert forall|b: u64, j: u64| #[trigger] l.nft_owner(b, j) == l0.nft_owner(b, j) by {
                                assert(l.nft_owner(b, j) == li.nft_owner(b, j));
                            }
                            assert forall|q: PortfolioId, b: u64| #[trigger] l.total(q, b) == l0.total(q, b) by {
                                assert(l.total(q, b) == li.total(q, b));
                            }
                            assert forall|q: PortfolioId, b: u64| #[trigger] l.locked(q, b) == l0.locked(q, b) + need(s, ps@, q, b, k as int) by {
                                assert(l.locked(q, b) == li.locked(q, b));
                            }
                        }
                    }
                }
                proof {
                    assert forall|b: u64, j: u64| #[trigger] l.nft_locked(b, j) == (l0.nft_locked(b, j) || moves_nft(s, ps@, b, j, k + 1)) by {
                        if moves_nft(s, ps@, b, j, k + 1) && !moves_nft(s, ps@, b, j, k as int) {
                            let (k2, i2) = choose|k2: int, i2: int|
                                0 <= k2 < k + 1 && #[trigger] s[k2] is NonFungible && ps@.contains(s[k2].sender_of()) && s[k2].asset_of() == b
                                    && 0 <= i2 < s[k2]->NonFungible_ids@.len() && #[trigger] s[k2]->NonFungible_ids@[i2] == j;
                            assert(k2 == k);
                            assert(ids@[i2] == j);
                        }
                        if ps@.contains(*sender) && b == *asset && exists|i2: int| 0 <= i2 < ids@.len() && ids@[i2] == j {
                            let i2 = choose|i2: int| 0 <= i2 < ids@.len() && ids@[i2] == j;
                            assert(s[k as int]->NonFungible_ids@[i2] == j);
                            assert(moves_nft(s, ps@, b, j, k + 1));
                        }
                    }
                    assert forall|q: PortfolioId, b: u64| #[trigger] l.locked(q, b) == l0.locked(q, b) + need(s, ps@, q, b, k + 1) by {
                    }
                }
            },
            Leg::OffChain { .. } => {
                proof {
                    assert forall|b: u64, j: u64| #[trigger] l.nft_locked(b, j) == (l0.nft_locked(b, j) || moves_nft(s, ps@, b, j, k + 1)) by {
                        if moves_nft(s, ps@, b, j, k + 1) {
                            let (k2, i2) = choose|k2: int, i2: int|
                                0 <= k2 < k + 1 && #[trigger] s[k2] is NonFungible && ps@.contains(s[k2].sender_of()) && s[k2].asset_of() == b
                                    && 0 <= i2 < s[k2]->NonFungible_ids@.len() && #[trigger] s[k2]->NonFungible_ids@[i2] == j;
                            assert(moves_nft(s, ps@, b, j, k as int));
                        }
                    }
                    assert forall|q: PortfolioId, b: u64| #[trigger] l.locked(q, b) == l0.locked(q, b) + need(s, ps@, q, b, k + 1) by {
                    }
                }
            },
        }
        k = k + 1;
    }
    proof {
        assert forall|q: PortfolioId, b: u64| #[trigger] need(s, ps@, q, b, s.len() as int) <= l0.available(q, b) by {
            l.lemma_locked_le_total(q, b);
        }
    }
    Ok(())
}

/// Releases what the legs reserved from senders among `ps`: every amount,
/// as far as it is reserved, and every token.
pub fn unlock_legs(l: &mut Ledger, legs: &Vec<Leg>, ps: &Vec<PortfolioId>)
    requires
        old(l).wf(),
    ensures
        final(l).wf(),
        final(l).issued() == old(l).issued(),
        forall|q: PortfolioId, b: u64| #[trigger] final(l).total(q, b) == old(l).total(q, b),
        forall|q: PortfolioId, b: u64| #[trigger] final(l).locked(q, b) == sat_sub(old(l).locked(q, b), need(legs@, ps@, q, b, legs@.len() as int)),
        forall|b: u64, j: u64| #[trigger] final(l).nft_owner(b, j) == old(l).nft_owner(b, j),
        forall|b: u64, j: u64| #[trigger] final(l).nft_locked(b, j) == (old(l).nft_locked(b, j) && !moves_nft(legs@, ps@, b, j, legs@.len() as int)),
{
    let ghost l0 = *l;
    let ghost s = legs@;
    let mut k: usize = 0;
    while k < legs.len()
        invariant
            s == legs@,
            l0 == *old(l),
            l.wf(),
            k <= s.len(),
            l.issued() == l0.issued(),
            forall|q: PortfolioId, b: u64| #[trigger] l.total(q, b) == l0.total(q, b),
            forall|q: PortfolioId, b: u64| #[trigger] l.locked(q, b) == sat_sub(l0.locked(q, b), need(s, ps@, q, b, k as int)),
            forall|b: u64, j: u64| #[trigger] l.nft_owner(b, j) == l0.nft_owner(b, j),
            forall|b: u64, j: u64| #[trigger] l.nft_locked(b, j) == (l0.nft_locked(b, j) && !moves_nft(s, ps@, b, j, k as int)),
        decreases s.len() - k,
    {
        let ghost lk = *l;
        match &legs[k] {
            Leg::Fungible { sender, asset, amount, .. } => {
                if contains_portfolio(ps, *sender) {
                    l.unlock(*sender, *asset, *amount);
                }
                proof {
                    assert forall|q: PortfolioId, b: u64| #[trigger] l.locked(q, b) == sat_sub(l0.locked(q, b), need(s, ps@, q, b, k + 1)) by {
                        assert(l.locked(q, b) == lk.locked(q, b) || (q == *sender && b == *asset));
                    }
                    assert forall|b: u64, j: u64| #[trigger] l.nft_locked(b, j) == (l0.nft_locked(b, j) && !moves_nft(s, ps@, b, j, k + 1)) by {
                        if moves_nft(s, ps@, b, j, k + 1) {
                            let (k2, i2) = choose|k2: int, i2: int|
                                0 <= k2 < k + 1 && #[trigger] s[k2] is NonFungible && ps@.contains(s[k2].sender_of()) && s[k2].asset_of() == b
                                    && 0 <= i2 < s[k2]->NonFungible_ids@.len() && #[trigger] s[k2]->NonFungible_ids@[i2] == j;
                            assert(moves_nft(s, ps@, b, j, k as int));
                        }
                    }
                }
            },
            Leg::NonFungible { sender, asset, ids, .. } => {
                if contains_portfolio(ps, *sender) {
                    let mut i: usize = 0;
                    while i < ids.len()
                        invariant
                            s == legs@,
                            l0 == *old(l),
                            k < s.len(),
                            s[k as int] is NonFungible,
                            ids@ == s[k as int]->NonFungible_ids@,
                            *asset == s[k as int].asset_of(),
                            *sender == s[k as int].sender_of(),
                            l.wf(),
                            i <= ids@.len(),
                            l.issued() == l0.issued(),
                            forall|q: PortfolioId, b: u64| #[trigger] l.total(q, b) == l0.total(q, b),
                            forall|q: PortfolioId, b: u64| #[trigger] l.locked(q, b) == sat_sub(l0.locked(q, b), need(s, ps@, q, b, k as int)),
                            forall|b: u64, j: u64| #[trigger] l.nft_owner(b, j) == l0.nft_owner(b, j),
                            forall|b: u64, j: u64| #[trigger] l.nft_locked(b, j) == (l0.nft_locked(b, j) && !moves_nft(s, ps@, b, j, k as int)
                                && !(b == *asset && exists|i2: int| 0 <= i2 < i && ids@[i2] == j)),
                        decreases ids@.len() - i,
                    {
                        let ghost li = *l;
                        l.unlock_nft(*asset, ids[i]);
                        i = i + 1;
                        proof {
                            assert forall|b: u64, j: u64| #[trigger] l.nft_locked(b, j) == (l0.nft_locked(b, j) && !moves_nft(s, ps@, b, j, k as int)
                                && !(b == *asset && exists|i2: int| 0 <= i2 < i && ids@[i2] == j)) by {
                                if b == *asset && j == ids@[i - 1] {
                                    assert(ids@[i - 1] == j);
                                } else {
                                    assert(l.nft_locked(b, j) == li.nft_locked(b, j));
                                    if b == *asset && exists|i2: int| 0 <= i2 < i && ids@[i2] == j {
                                        let i2 = choose|i2: int| 0 <= i2 < i && ids@[i2] == j;
                                        assert(i2 < i - 1);
                                    }
                                }
                            }
                            assert forall|b: u64, j: u64| #[trigger] l.nft_owner(b, j) == l0.nft_owner(b, j) by {
                                assert(l.nft_owner(b, j) == li.nft_owner(b, j));
                            }
                        }
                    }
                }
                proof {
                    assert forall|b: u64, j: u64| #[trigger] l.nft_locked(b, j) == (l0.nft_locked(b, j) && !moves_nft(s, ps@, b, j, k + 1)) by {
                        if moves_nft(s, ps@, b, j, k + 1) && !moves_nft(s, ps@, b, j, k as int) {
                            let (k2, i2) = choose|k2: int, i2: int|
                                0 <= k2 < k + 1 && #[trigger] s[k2] is NonFungible && ps@.contains(s[k2].sender_of()) && s[k2].asset_of() == b
                                    && 0 <= i2 < s[k2]->NonFungible_ids@.len() && #[trigger] s[k2]->NonFungible_ids@[i2] == j;
                            assert(k2 == k);
                            assert(ids@[i2] == j);
                        }
                        if ps@.contains(*sender) && b == *asset && exists|i2: int| 0 <= i2 < ids@.len() && ids@[i2] == j {
                            let i2 = choose|i2: int| 0 <= i2 < ids@.len() && ids@[i2] == j;
                            assert(s[k as int]->NonFungible_ids@[i2] == j);
                            assert(moves_nft(s, ps@, b, j, k + 1));
                        }
                    }
                }
            },
            Leg::OffChain { .. } => {
                proof {
                    assert forall|b: u64, j: u64| #[trigger] l.nft_locked(b, j) == (l0.nft_locked(b, j) && !moves_nft(s, ps@, b, j, k + 1)) by {
                        if moves_nft(s, ps@, b, j, k + 1) {
                            let (k2, i2) = choose|k2: int, i2: int|
                                0 <= k2 < k + 1 && #[trigger] s[k2] is NonFungible && ps@.contains(s[k2].sender_of()) && s[k2].asset_of() == b
                                    && 0 <= i2 < s[k2]->NonFungible_ids@.len() && #[trigger] s[k2]->NonFungible_ids@[i2] == j;
                            assert(moves_nft(s, ps@, b, j, k as int));
                        }
                    }
                }
            },
        }
        k = k + 1;
    }
}

} // verus!
