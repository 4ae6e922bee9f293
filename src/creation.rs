use vstd::prelude::*;

use crate::registry::{contains_u64, has_duplicates, no_duplicates};
use crate::reservation::{lemma_outgoing_non_sender, lemma_reserved_push, reserved};
use crate::settlement::{
    lemma_pending_parties_bound, lemma_pending_receipts_bound, nft_ids_distinct, pending_parties,
    pending_receipts, Instruction, Party, ScheduledCall, Settlement,
};
use crate::types::{
    AffirmationStatus, InstructionStatus, Leg, LegStatus, PortfolioId, SettlementError,
    SettlementType, MAX_FUNGIBLE_LEGS, MAX_NFTS_PER_INSTRUCTION, MAX_NFTS_PER_LEG,
    MAX_OFFCHAIN_LEGS,
};

verus! {

/// Number of fungible legs among the first `n`.
pub open spec fn count_fungible(legs: Seq<Leg>, n: int) -> nat
    decreases n,
{
    if n <= 0 {
        0
    } else {
        count_fungible(legs, n - 1) + if legs[n - 1] is Fungible {
            1nat
        } else {
            0nat
        }
    }
}

/// Number of off-chain legs among the first `n`.
pub open spec fn count_offchain(legs: Seq<Leg>, n: int) -> nat
    decreases n,
{
    if n <= 0 {
        0
    } else {
        count_offchain(legs, n - 1) + if legs[n - 1] is OffChain {
            1nat
        } else {
            0nat
        }
    }
}

/// Number of tokens the first `n` legs move.
pub open spec fn count_nfts(legs: Seq<Leg>, n: int) -> nat
    decreases n,
{
    if n <= 0 {
        0
    } else {
        count_nfts(legs, n - 1) + match legs[n - 1] {
            Leg::NonFungible { ids, .. } => ids@.len(),
            _ => 0nat,
        }
    }
}

/// Whether non-fungible leg `k` names a token twice, or one that an
/// earlier leg of the same collection names.
pub open spec fn nft_conflict(legs: Seq<Leg>, k: int) -> bool {
    let ids = legs[k]->NonFungible_ids@;
    ||| !no_duplicates(ids)
    ||| exists|j: int, i: int|
        0 <= j < k && 0 <= i < ids.len() && legs[j] is NonFungible && legs[j].asset_of() == legs[k].asset_of()
            && #[trigger] legs[j]->NonFungible_ids@.contains(#[trigger] ids[i])
}

/// Whether some entry of `ps` is of portfolio `q`.
pub open spec fn lists_portfolio(ps: Seq<Party>, q: PortfolioId) -> bool {
    exists|m: int| 0 <= m < ps.len() && #[trigger] ps[m].portfolio == q
}

/// Whether portfolio `p` sends in some on-chain leg.
pub open spec fn is_sender(legs: Seq<Leg>, p: PortfolioId) -> bool {
    exists|k: int| 0 <= k < legs.len() && legs[k].is_onchain() && #[trigger] legs[k].sender_of() == p
}

/// Whether portfolio `p` sends or receives in some on-chain leg.
pub open spec fn is_party(legs: Seq<Leg>, p: PortfolioId) -> bool {
    exists|k: int|
        0 <= k < legs.len() && #[trigger] legs[k].is_onchain() && (legs[k].sender_of() == p || legs[k].receiver_of() == p)
}

impl Settlement {
    /// The first reason leg `k` of an instruction of venue `v` is refused.
    pub open spec fn leg_error(self, v: u64, legs: Seq<Leg>, k: int) -> Option<SettlementError> {
        match legs[k] {
            Leg::Fungible { sender, receiver, asset, amount } => {
                if amount == 0 {
                    Some(SettlementError::ZeroAmount)
                } else if sender == receiver {
                    Some(SettlementError::SameSenderReceiver)
                } else if !self.asset_known(asset) {
                    Some(SettlementError::UnexpectedOFFChainAsset)
                } else if !self.asset(asset).admits_venue(v) {
                    Some(SettlementError::UnauthorizedVenue)
                } else {
                    None
                }
            },
            Leg::NonFungible { sender, receiver, asset, ids } => {
                if ids@.len() == 0 {
                    Some(SettlementError::EmptyNFTLeg)
                } else if ids@.len() > MAX_NFTS_PER_LEG {
                    Some(SettlementError::MaxNumberOfNFTsPerLegExceeded)
                } else if sender == receiver {
                    Some(SettlementError::SameSenderReceiver)
                } else if !self.asset_known(asset) {
                    Some(SettlementError::UnexpectedOFFChainAsset)
                } else if !self.asset(asset).admits_venue(v) {
                    Some(SettlementError::UnauthorizedVenue)
                } else if nft_conflict(legs, k) {
                    Some(SettlementError::DuplicatedNFTId)
                } else {
                    None
                }
            },
            Leg::OffChain { amount, .. } => {
                if amount == 0 {
                    Some(SettlementError::ZeroAmount)
                } else {
                    None
                }
            },
        }
    }

    /// The reason the first refused leg among the first `n` is refused.
    pub open spec fn first_leg_error(self, v: u64, legs: Seq<Leg>, n: int) -> Option<SettlementError>
        decreases n,
    {
        if n <= 0 {
            None
        } else {
            match self.first_leg_error(v, legs, n - 1) {
                Some(e) => Some(e),
                None => self.leg_error(v, legs, n - 1),
            }
        }
    }

    /// Why `caller` may not create an instruction of venue `v` with
    /// settlement `st` and legs `legs`, if it may not.
    pub open spec fn creation_error(self, caller: u64, v: u64, st: SettlementType, legs: Seq<Leg>) -> Option<SettlementError> {
        if v >= self.venues@.len() {
            Some(SettlementError::InvalidVenue)
        } else if self.venues@[v as int].creator != caller {
            Some(SettlementError::Unauthorized)
        } else if (st matches SettlementType::SettleOnBlock(b) && b <= self.block) || (st matches SettlementType::SettleManual(b) && b <= self.block) {
            Some(SettlementError::SettleOnPastBlock)
        } else if legs.len() == 0 {
            Some(SettlementError::NoLegs)
        } else if count_fungible(legs, legs.len() as int) > MAX_FUNGIBLE_LEGS {
            Some(SettlementError::MaxNumberOfFungibleAssetsExceeded)
        } else if count_offchain(legs, legs.len() as int) > MAX_OFFCHAIN_LEGS {
            Some(SettlementError::MaxNumberOfOffChainAssetsExceeded)
        } else if self.first_leg_error(v, legs, legs.len() as int) is Some {
            self.first_leg_error(v, legs, legs.len() as int)
        } else if count_nfts(legs, legs.len() as int) > MAX_NFTS_PER_INSTRUCTION {
            Some(SettlementError::MaxNumberOfNFTsExceeded)
        } else {
            None
        }
    }

    /// Whether receiving portfolio `p` must affirm: it sends in some leg,
    /// or receives in one without standing consent for that leg's asset.
    pub open spec fn needs_affirmation(self, legs: Seq<Leg>, p: PortfolioId) -> bool {
        ||| is_sender(legs, p)
        ||| exists|k: int|
            0 <= k < legs.len() && legs[k].is_onchain() && #[trigger] legs[k].receiver_of() == p
                && !self.receipt_waived(p, legs[k].asset_of())
    }

    /// Status a new instruction gives party `p`.
    pub open spec fn initial_status(self, legs: Seq<Leg>, p: PortfolioId) -> AffirmationStatus {
        if self.needs_affirmation(legs, p) {
            AffirmationStatus::Pending
        } else {
            AffirmationStatus::Affirmed
        }
    }

    /// Whether non-fungible leg `k` conflicts with itself or an earlier leg.
    fn nft_conflict_at(legs: &Vec<Leg>, k: usize) -> (r: bool)
        requires
            k < legs@.len(),
            legs@[k as int] is NonFungible,
        ensures
            r == nft_conflict(legs@, k as int),
    {
        let ghost s = legs@;
        match &legs[k] {
            Leg::NonFungible { asset, ids, .. } => {
                if has_duplicates(ids) {
                    return true;
                }
                let mut j: usize = 0;
                while j < k
                    invariant
                        s == legs@,
                        k < s.len(),
                        s[k as int] is NonFungible,
                        *asset == s[k as int].asset_of(),
                        ids@ == s[k as int]->NonFungible_ids@,
                        no_duplicates(ids@),
                        j <= k,
                        forall|j2: int, i: int|
                            0 <= j2 < j && 0 <= i < ids@.len() && s[j2] is NonFungible && s[j2].asset_of() == *asset
                                ==> !(#[trigger] s[j2]->NonFungible_ids@.contains(#[trigger] ids@[i])),
                    decreases k - j,
                {
                    match &legs[j] {
                        Leg::NonFungible { asset: a2, ids: ids2, .. } => {
                            if *a2 == *asset {
                                let mut i: usize = 0;
                                while i < ids.len()
                                    invariant
                                        s == legs@,
                                        j < k < s.len(),
                                        s[j as int] is NonFungible,
                                        s[k as int] is NonFungible,
                                        *a2 == *asset,
                                        s[j as int].asset_of() == *asset,
                                        *asset == s[k as int].asset_of(),
                                        ids@ == s[k as int]->NonFungible_ids@,
                                        no_duplicates(ids@),
                                        forall|j2: int, i: int|
                                            0 <= j2 < j && 0 <= i < ids@.len() && s[j2] is NonFungible && s[j2].asset_of() == *asset
                                                ==> !(#[trigger] s[j2]->NonFungible_ids@.contains(#[trigger] ids@[i])),
                                        ids2@ == s[j as int]->NonFungible_ids@,
                                        i <= ids@.len(),
                                        forall|i2: int| 0 <= i2 < i ==> !ids2@.contains(#[trigger] ids@[i2]),
                                    decreases ids@.len() - i,
                                {
                                    if contains_u64(ids2, ids[i]) {
                                        proof {
                                            assert(s[j as int]->NonFungible_ids@.contains(ids@[i as int]));
                                            let ki = s[k as int]->NonFungible_ids@;
                                            assert(ki[i as int] == ids@[i as int]);
                                            assert(s[j as int]->NonFungible_ids@.contains(ki[i as int]));
                                        }
                                        return true;
                                    }
                                    i = i + 1;
                                }
                            }
                        },
                        _ => {},
                    }
                    j = j + 1;
                }
                false
            },
            _ => false,
        }
    }

    /// Whether venue `v` may carry asset `a`, which is known.
    fn venue_admitted(&self, k: usize, v: u64) -> (r: bool)
        requires
            k < self.assets@.len(),
        ensures
            r == self.assets@[k as int].admits_venue(v),
    {
        !self.assets[k].venue_filtering || contains_u64(&self.assets[k].allowed_venues, v)
    }

    /// The first reason leg `k` is refused, if any.
    fn check_leg(&self, v: u64, legs: &Vec<Leg>, k: usize) -> (r: Option<SettlementError>)
        requires
            self.wf(),
            k < legs@.len(),
        ensures
            r == self.leg_error(v, legs@, k as int),
    {
        match &legs[k] {
            Leg::Fungible { sender, receiver, asset, amount } => {
                if *amount == 0 {
                    return Some(SettlementError::ZeroAmount);
                }
                if *sender == *receiver {
                    return Some(SettlementError::SameSenderReceiver);
                }
                match self.asset_index(*asset) {
                    None => Some(SettlementError::UnexpectedOFFChainAsset),
                    Some(a) => {
                        if !self.venue_admitted(a, v) {
                            Some(SettlementError::UnauthorizedVenue)
                        } else {
                            None
                        }
                    },
                }
            },
            Leg::NonFungible { sender, receiver, asset, ids } => {
                if ids.len() == 0 {
                    return Some(SettlementError::EmptyNFTLeg);
                }
                if ids.len() > MAX_NFTS_PER_LEG {
                    return Some(SettlementError::MaxNumberOfNFTsPerLegExceeded);
                }
                if *sender == *receiver {
                    return Some(SettlementError::SameSenderReceiver);
                }
                match self.asset_index(*asset) {
                    None => Some(SettlementError::UnexpectedOFFChainAsset),
                    Some(a) => {
                        if !self.venue_admitted(a, v) {
                            Some(SettlementError::UnauthorizedVenue)
                        } else if Self::nft_conflict_at(legs, k) {
                            Some(SettlementError::DuplicatedNFTId)
                        } else {
                            None
                        }
                    },
                }
            },
            Leg::OffChain { amount, .. } => {
                if *amount == 0 {
                    Some(SettlementError::ZeroAmount)
                } else {
                    None
                }
            },
        }
    }

    proof fn lemma_first_leg_error_stable(self, v: u64, legs: Seq<Leg>, a: int, b: int)
        requires
            0 <= a <= b,
            self.first_leg_error(v, legs, a) is Some,
        ensures
            self.first_leg_error(v, legs, b) == self.first_leg_error(v, legs, a),
        decreases b - a,
    {
        if a < b {
            self.lemma_first_leg_error_stable(v, legs, a, b - 1);
        }
    }

    /// Why the legs are refused, if they are: the first refused leg decides.
    fn check_legs(&self, v: u64, legs: &Vec<Leg>) -> (r: Option<SettlementError>)
        requires
            self.wf(),
        ensures
            r == self.first_leg_error(v, legs@, legs@.len() as int),
    {
        let mut k: usize = 0;
        while k < legs.len()
            invariant
                self.wf(),
                k <= legs@.len(),
                self.first_leg_error(v, legs@, k as int) is None,
            decreases legs@.len() - k,
        {
            let e = self.check_leg(v, legs, k);
            if e.is_some() {
                proof {
                    self.lemma_first_leg_error_stable(v, legs@, k as int + 1, legs@.len() as int);
                }
                return e;
            }
            k = k + 1;
        }
        None
    }
}

impl Settlement {
    proof fn lemma_no_leg_error(self, v: u64, legs: Seq<Leg>, n: int)
        requires
            0 <= n <= legs.len(),
            self.first_leg_error(v, legs, n) is None,
        ensures
            forall|k: int| 0 <= k < n ==> #[trigger] self.leg_error(v, legs, k) is None,
        decreases n,
    {
        if n > 0 {
            self.lemma_no_leg_error(v, legs, n - 1);
        }
    }

    /// Legs that pass their checks name each token once.
    proof fn lemma_valid_legs_distinct(self, v: u64, legs: Seq<Leg>)
        requires
            self.first_leg_error(v, legs, legs.len() as int) is None,
        ensures
            nft_ids_distinct(legs),
    {
        self.lemma_no_leg_error(v, legs, legs.len() as int);
        assert forall|k1: int, k2: int, i1: int, i2: int|
            0 <= k1 < legs.len() && 0 <= k2 < legs.len() && (k1, i1) != (k2, i2) && legs[k1] is NonFungible && legs[k2] is NonFungible
                && legs[k1].asset_of() == legs[k2].asset_of()
                && 0 <= i1 < legs[k1]->NonFungible_ids@.len() && 0 <= i2 < legs[k2]->NonFungible_ids@.len()
            implies #[trigger] legs[k1]->NonFungible_ids@[i1] != #[trigger] legs[k2]->NonFungible_ids@[i2] by {
            assert(self.leg_error(v, legs, k1) is None);
            assert(self.leg_error(v, legs, k2) is None);
            assert(!nft_conflict(legs, k1));
            assert(!nft_conflict(legs, k2));
            if k1 < k2 {
                let ids = legs[k2]->NonFungible_ids@;
                assert(!legs[k1]->NonFungible_ids@.contains(ids[i2]));
            } else if k2 < k1 {
                let ids = legs[k1]->NonFungible_ids@;
                assert(!legs[k2]->NonFungible_ids@.contains(ids[i1]));
            } else {
                if i1 < i2 {
                    assert(no_duplicates(legs[k1]->NonFungible_ids@));
                } else {
                    assert(no_duplicates(legs[k1]->NonFungible_ids@));
                }
            }
        }
    }

    /// Status a new instruction gives party `p`.
    fn initial_status_of(&self, legs: &Vec<Leg>, p: PortfolioId) -> (r: AffirmationStatus)
        requires
            self.wf(),
        ensures
            r == self.initial_status(legs@, p),
    {
        let mut k: usize = 0;
        while k < legs.len()
            invariant
                self.wf(),
                k <= legs@.len(),
                forall|j: int| 0 <= j < k && legs@[j].is_onchain() ==> #[trigger] legs@[j].sender_of() != p,
                forall|j: int|
                    0 <= j < k && legs@[j].is_onchain() && #[trigger] legs@[j].receiver_of() == p
                        ==> self.receipt_waived(p, legs@[j].asset_of()),
            decreases legs@.len() - k,
        {
            let leg = &legs[k];
            if !leg.is_offchain() {
                if leg.sender() == p {
                    return AffirmationStatus::Pending;
                }
                if leg.receiver() == p && !self.is_receipt_waived(p, leg.asset()) {
                    return AffirmationStatus::Pending;
                }
            }
            k = k + 1;
        }
        AffirmationStatus::Affirmed
    }

    /// The parties of the legs, each once, with the status a new
    /// instruction gives them.
    fn collect_parties(&self, legs: &Vec<Leg>) -> (r: Vec<Party>)
        requires
            self.wf(),
        ensures
            forall|a: int, b: int| 0 <= a < b < r@.len() ==> r@[a].portfolio != r@[b].portfolio,
            forall|m: int| 0 <= m < r@.len() ==> is_party(legs@, #[trigger] r@[m].portfolio),
            forall|m: int| 0 <= m < r@.len() ==> #[trigger] r@[m].status == self.initial_status(legs@, r@[m].portfolio),
            forall|q: PortfolioId| is_party(legs@, q) ==> #[trigger] lists_portfolio(r@, q),
            r@.len() <= 2 * legs@.len(),
    {
        let mut ps: Vec<Party> = Vec::new();
        let mut k: usize = 0;
        while k < legs.len()
            invariant
                self.wf(),
                k <= legs@.len(),
                ps@.len() <= 2 * k,
                forall|a: int, b: int| 0 <= a < b < ps@.len() ==> ps@[a].portfolio != ps@[b].portfolio,
                forall|m: int| 0 <= m < ps@.len() ==> is_party(legs@, #[trigger] ps@[m].portfolio),
                forall|m: int| 0 <= m < ps@.len() ==> #[trigger] ps@[m].status == self.initial_status(legs@, ps@[m].portfolio),
                forall|j: int| 0 <= j < k && #[trigger] legs@[j].is_onchain() ==> {
                    &&& lists_portfolio(ps@, legs@[j].sender_of())
                    &&& lists_portfolio(ps@, legs@[j].receiver_of())
                },
            decreases legs@.len() - k,
        {
            if !legs[k].is_offchain() {
                let s = legs[k].sender();
                let rcv = legs[k].receiver();
                proof {
                    assert(is_party(legs@, s) && is_party(legs@, rcv)) by {
                        assert(legs@[k as int].is_onchain());
                    }
                }
                self.add_party(&mut ps, legs, s);
                self.add_party(&mut ps, legs, rcv);
            }
            k = k + 1;
        }
        proof {
            assert forall|q: PortfolioId| is_party(legs@, q) implies #[trigger] lists_portfolio(ps@, q) by {
                let j = choose|j: int| 0 <= j < legs@.len() && #[trigger] legs@[j].is_onchain() && (legs@[j].sender_of() == q || legs@[j].receiver_of() == q);
                assert(legs@[j].is_onchain());
            }
        }
        ps
    }

    /// Adds party `p` to `ps` unless it is there.
    fn add_party(&self, ps: &mut Vec<Party>, legs: &Vec<Leg>, p: PortfolioId)
        requires
            self.wf(),
            is_party(legs@, p),
            forall|a: int, b: int| 0 <= a < b < old(ps)@.len() ==> old(ps)@[a].portfolio != old(ps)@[b].portfolio,
            forall|m: int| 0 <= m < old(ps)@.len() ==> is_party(legs@, #[trigger] old(ps)@[m].portfolio),
            forall|m: int| 0 <= m < old(ps)@.len() ==> #[trigger] old(ps)@[m].status == self.initial_status(legs@, old(ps)@[m].portfolio),
        ensures
            forall|a: int, b: int| 0 <= a < b < final(ps)@.len() ==> final(ps)@[a].portfolio != final(ps)@[b].portfolio,
            forall|m: int| 0 <= m < final(ps)@.len() ==> is_party(legs@, #[trigger] final(ps)@[m].portfolio),
            forall|m: int| 0 <= m < final(ps)@.len() ==> #[trigger] final(ps)@[m].status == self.initial_status(legs@, final(ps)@[m].portfolio),
            lists_portfolio(final(ps)@, p),
            forall|q: PortfolioId| lists_portfolio(old(ps)@, q) ==> #[trigger] lists_portfolio(final(ps)@, q),
            final(ps)@.len() <= old(ps)@.len() + 1,
    {
        let mut i: usize = 0;
        while i < ps.len()
            invariant
                ps@ == old(ps)@,
                forall|a: int, b: int| 0 <= a < b < old(ps)@.len() ==> old(ps)@[a].portfolio != old(ps)@[b].portfolio,
                forall|m: int| 0 <= m < old(ps)@.len() ==> is_party(legs@, #[trigger] old(ps)@[m].portfolio),
                forall|m: int| 0 <= m < old(ps)@.len() ==> #[trigger] old(ps)@[m].status == self.initial_status(legs@, old(ps)@[m].portfolio),
                i <= ps@.len(),
                forall|m: int| 0 <= m < i ==> #[trigger] ps@[m].portfolio != p,
            decreases ps@.len() - i,
        {
            if ps[i].portfolio == p {
                proof {
                    assert(ps@[i as int].portfolio == p);
                }
                return;
            }
            i = i + 1;
        }
        let st = self.initial_status_of(legs, p);
        ps.push(Party { portfolio: p, status: st });
        proof {
            assert(ps@[ps@.len() - 1].portfolio == p);
            assert forall|q: PortfolioId| lists_portfolio(old(ps)@, q) implies #[trigger] lists_portfolio(ps@, q) by {
                let m = choose|m: int| 0 <= m < old(ps)@.len() && #[trigger] old(ps)@[m].portfolio == q;
                assert(ps@[m] == old(ps)@[m]);
            }
        }
    }
}

/// Number of non-fungible legs among the first `n`.
pub open spec fn count_nft_legs(legs: Seq<Leg>, n: int) -> nat
    decreases n,
{
    if n <= 0 {
        0
    } else {
        count_nft_legs(legs, n - 1) + if legs[n - 1] is NonFungible {
            1nat
        } else {
            0nat
        }
    }
}

proof fn lemma_leg_counts(legs: Seq<Leg>, n: int)
    requires
        0 <= n,
    ensures
        count_fungible(legs, n) + count_offchain(legs, n) + count_nft_legs(legs, n) == n,
    decreases n,
{
    if n > 0 {
        lemma_leg_counts(legs, n - 1);
    }
}

proof fn lemma_nft_legs_bound(legs: Seq<Leg>, n: int)
    requires
        0 <= n <= legs.len(),
        forall|k: int| 0 <= k < n && #[trigger] legs[k] is NonFungible ==> legs[k]->NonFungible_ids@.len() > 0,
    ensures
        count_nft_legs(legs, n) <= count_nfts(legs, n),
    decreases n,
{
    if n > 0 {
        lemma_nft_legs_bound(legs, n - 1);
    }
}

/// Number of parties whose affirmation is missing.
fn count_pending_parties(ps: &Vec<Party>) -> (r: u64)
    requires
        ps@.len() <= u64::MAX,
    ensures
        r == pending_parties(ps@),
{
    let mut n: u64 = 0;
    let mut i: usize = 0;
    while i < ps.len()
        invariant
            ps@.len() <= u64::MAX,
            i <= ps@.len(),
            n == pending_parties(ps@.subrange(0, i as int)),
            n <= i,
        decreases ps@.len() - i,
    {
        proof {
            assert(ps@.subrange(0, i + 1).drop_last() =~= ps@.subrange(0, i as int));
        }
        if ps[i].status == AffirmationStatus::Pending {
            n = n + 1;
        }
        i = i + 1;
    }
    proof {
        assert(ps@.subrange(0, i as int) =~= ps@);
    }
    n
}

/// Number of receipts whose affirmation is missing.
fn count_pending_receipts(s: &Vec<AffirmationStatus>) -> (r: u64)
    requires
        s@.len() <= u64::MAX,
    ensures
        r == pending_receipts(s@),
{
    let mut n: u64 = 0;
    let mut i: usize = 0;
    while i < s.len()
        invariant
            s@.len() <= u64::MAX,
            i <= s@.len(),
            n == pending_receipts(s@.subrange(0, i as int)),
            n <= i,
        decreases s@.len() - i,
    {
        proof {
            assert(s@.subrange(0, i + 1).drop_last() =~= s@.subrange(0, i as int));
        }
        if s[i] == AffirmationStatus::Pending {
            n = n + 1;
        }
        i = i + 1;
    }
    proof {
        assert(s@.subrange(0, i as int) =~= s@);
    }
    n
}

impl Settlement {
    /// Creates an instruction of venue `v` moving `legs`, settled as `st`
    /// says, and returns its id. Only the venue's creator may. Senders must
    /// affirm; a receiver must too unless it consents in advance to every
    /// asset it receives (see `receipt_waived`); each off-chain leg waits
    /// for a receipt. An instruction settled at a block is handed to the
    /// scheduler for that block.
    pub fn add_instruction(
        &mut self,
        caller: u64,
        v: u64,
        st: SettlementType,
        trade_date: Option<u64>,
        value_date: Option<u64>,
        legs: Vec<Leg>,
        memo: Option<Vec<u8>>,
    ) -> (r: Result<u64, SettlementError>)
        requires
            old(self).wf(),
            old(self).instructions@.len() < u64::MAX,
        ensures
            final(self).wf(),
            r is Err <==> old(self).creation_error(caller, v, st, legs@) is Some,
            r is Err ==> r == Err::<u64, SettlementError>(old(self).creation_error(caller, v, st, legs@)->Some_0) && *final(self) == *old(self),
            r is Ok ==> {
                let id = old(self).instructions@.len();
                let inst = final(self).instructions@[id as int];
                &&& r->Ok_0 == id
                &&& final(self).instructions@.len() == id + 1
                &&& forall|j: int| 0 <= j < id ==> #[trigger] final(self).instructions@[j] == old(self).instructions@[j]
                &&& inst.venue_id == v
                &&& inst.settlement_type == st
                &&& inst.created_at == old(self).block
                &&& inst.trade_date == trade_date
                &&& inst.value_date == value_date
                &&& inst.memo == memo
                &&& inst.status == InstructionStatus::Pending
                &&& inst.legs@ == legs@
                &&& forall|k: int| 0 <= k < legs@.len() ==> #[trigger] inst.leg_status@[k] == LegStatus::PendingTokenLock
                &&& forall|k: int| 0 <= k < legs@.len() ==> #[trigger] inst.offchain@[k] == if legs@[k] is OffChain {
                    AffirmationStatus::Pending
                } else {
                    AffirmationStatus::Unknown
                }
                &&& forall|q: PortfolioId| #[trigger] inst.has_party(q) <==> is_party(legs@, q)
                &&& forall|m: int| 0 <= m < inst.parties@.len() ==> #[trigger] inst.parties@[m].status == old(self).initial_status(legs@, inst.parties@[m].portfolio)
                &&& inst.pending == pending_parties(inst.parties@) + pending_receipts(inst.offchain@)
                &&& final(self).schedule@ == match st {
                    SettlementType::SettleOnBlock(b) => old(self).schedule@.push(ScheduledCall { block: b, instruction: id as u64 }),
                    _ => old(self).schedule@,
                }
                &&& final(self).block == old(self).block
                &&& final(self).ledger == old(self).ledger
                &&& final(self).assets == old(self).assets
                &&& final(self).venues == old(self).venues
                &&& final(self).custodians == old(self).custodians
                &&& final(self).ticker_approvals == old(self).ticker_approvals
                &&& final(self).portfolio_approvals == old(self).portfolio_approvals
                &&& final(self).used_receipts == old(self).used_receipts
            },
    {
        if v >= self.venues.len() as u64 {
            return Err(SettlementError::InvalidVenue);
        }
        if self.venues[v as usize].creator != caller {
            return Err(SettlementError::Unauthorized);
        }
        let past = match st {
            SettlementType::SettleOnBlock(b) => b <= self.block,
            SettlementType::SettleManual(b) => b <= self.block,
            SettlementType::SettleOnAffirmation => false,
        };
        if past {
            return Err(SettlementError::SettleOnPastBlock);
        }
        if legs.len() == 0 {
            return Err(SettlementError::NoLegs);
        }
        if count_exceeds(&legs, true, MAX_FUNGIBLE_LEGS) {
            return Err(SettlementError::MaxNumberOfFungibleAssetsExceeded);
        }
        if count_exceeds(&legs, false, MAX_OFFCHAIN_LEGS) {
            return Err(SettlementError::MaxNumberOfOffChainAssetsExceeded);
        }
        if let Some(e) = self.check_legs(v, &legs) {
            return Err(e);
        }
        if nfts_exceed(&legs, MAX_NFTS_PER_INSTRUCTION) {
            return Err(SettlementError::MaxNumberOfNFTsExceeded);
        }
        proof {
            let n = legs@.len() as int;
            self.lemma_no_leg_error(v, legs@, n);
            assert forall|k: int| 0 <= k < n && #[trigger] legs@[k] is NonFungible implies legs@[k]->NonFungible_ids@.len() > 0 by {
                assert(self.leg_error(v, legs@, k) is None);
            }
            lemma_nft_legs_bound(legs@, n);
            lemma_leg_counts(legs@, n);
            self.lemma_valid_legs_distinct(v, legs@);
            assert forall|k: int| 0 <= k < n && #[trigger] legs@[k].is_onchain() implies legs@[k].sender_of() != legs@[k].receiver_of() by {
                assert(self.leg_error(v, legs@, k) is None);
            }
            assert forall|k: int| 0 <= k < n && #[trigger] legs@[k] is NonFungible implies legs@[k]->NonFungible_ids@.len() <= MAX_NFTS_PER_LEG by {
                assert(self.leg_error(v, legs@, k) is None);
            }
        }
        let parties = self.collect_parties(&legs);
        let mut leg_status: Vec<LegStatus> = Vec::new();
        let mut offchain: Vec<AffirmationStatus> = Vec::new();
        let mut k: usize = 0;
        while k < legs.len()
            invariant
                k <= legs@.len(),
                leg_status@.len() == k,
                offchain@.len() == k,
                forall|j: int| 0 <= j < k ==> #[trigger] leg_status@[j] == LegStatus::PendingTokenLock,
                forall|j: int| 0 <= j < k ==> #[trigger] offchain@[j] == if legs@[j] is OffChain {
                    AffirmationStatus::Pending
                } else {
                    AffirmationStatus::Unknown
                },
            decreases legs@.len() - k,
        {
            leg_status.push(LegStatus::PendingTokenLock);
            if legs[k].is_offchain() {
                offchain.push(AffirmationStatus::Pending);
            } else {
                offchain.push(AffirmationStatus::Unknown);
            }
            k = k + 1;
        }
        proof {
            assert(legs@.len() <= 120);
            lemma_pending_parties_bound(parties@);
            lemma_pending_receipts_bound(offchain@);
        }
        let pending = count_pending_parties(&parties) + count_pending_receipts(&offchain);
        let id = self.instructions.len() as u64;
        let ghost legs_v = legs@;
        let inst = Instruction {
            venue_id: v,
            settlement_type: st,
            created_at: self.block,
            trade_date,
            value_date,
            memo,
            status: InstructionStatus::Pending,
            legs,
            leg_status,
            offchain,
            parties,
            pending,
        };
        proof {
            assert forall|q: PortfolioId| #[trigger] inst.has_party(q) <==> is_party(legs_v, q) by {
                if is_party(legs_v, q) {
                    assert(lists_portfolio(inst.parties@, q));
                }
                if inst.has_party(q) {
                    let m = choose|m: int| 0 <= m < inst.parties@.len() && #[trigger] inst.parties@[m].portfolio == q;
                    assert(is_party(legs_v, inst.parties@[m].portfolio));
                }
            }
        }
        proof {
            assert forall|k: int| 0 <= k < inst.legs@.len() && #[trigger] inst.legs@[k].is_onchain() implies inst.has_party(inst.legs@[k].sender_of()) by {
                assert(is_party(legs_v, legs_v[k].sender_of()));
            }
            assert forall|m: int| 0 <= m < inst.parties@.len() implies #[trigger] inst.parties@[m].status == AffirmationStatus::Pending
                || inst.parties@[m].status == AffirmationStatus::Affirmed by {
            }
            assert forall|q: PortfolioId, b: u64| #[trigger] inst.reserved_by(q, b) == 0 by {
                if inst.status_of(q) == AffirmationStatus::Affirmed {
                    let m = choose|m: int| 0 <= m < inst.parties@.len() && #[trigger] inst.parties@[m].portfolio == q;
                    assert(inst.parties@[m].status == self.initial_status(legs_v, q));
                    assert(!is_sender(legs_v, q));
                    assert forall|k: int| 0 <= k < legs_v.len() && #[trigger] legs_v[k].is_onchain() implies legs_v[k].sender_of() != q by {
                        if legs_v[k].sender_of() == q {
                            assert(is_sender(legs_v, q));
                        }
                    }
                    lemma_outgoing_non_sender(legs_v, q, b, legs_v.len() as int);
                }
            }
        }
        let ghost before = self.instructions@;
        self.instructions.push(inst);
        proof {
            assert forall|q: PortfolioId, b: u64| #[trigger] self.ledger.locked(q, b) == reserved(self.instructions@, q, b) by {
                lemma_reserved_push(before, inst, q, b);
                assert(old(self).ledger.locked(q, b) == reserved(old(self).instructions@, q, b));
            }
        }
        match st {
            SettlementType::SettleOnBlock(b) => {
                self.schedule.push(ScheduledCall { block: b, instruction: id });
            },
            _ => {},
        }
        proof {
            assert forall|i: int| 0 <= i < self.instructions@.len() implies {
                &&& #[trigger] self.instructions@[i].wf()
                &&& self.instructions@[i].venue_id < self.venues@.len()
            } by {
                if i < old(self).instructions@.len() {
                    assert(old(self).instructions@[i].wf());
                    assert(self.instructions@[i] == old(self).instructions@[i]);
                }
            }
        }
        Ok(id)
    }
}

/// Whether more than `max` legs are fungible (`fungible`) or off-chain.
fn count_exceeds(legs: &Vec<Leg>, fungible: bool, max: usize) -> (r: bool)
    ensures
        fungible ==> r == (count_fungible(legs@, legs@.len() as int) > max),
        !fungible ==> r == (count_offchain(legs@, legs@.len() as int) > max),
{
    let mut n: usize = 0;
    let mut k: usize = 0;
    while k < legs.len()
        invariant
            k <= legs@.len(),
            n <= k,
            fungible ==> n == count_fungible(legs@, k as int),
            !fungible ==> n == count_offchain(legs@, k as int),
        decreases legs@.len() - k,
    {
        let hit = match &legs[k] {
            Leg::Fungible { .. } => fungible,
            Leg::OffChain { .. } => !fungible,
            _ => false,
        };
        if hit {
            n = n + 1;
        }
        k = k + 1;
    }
    n > max
}

/// Whether the legs move more than `max` tokens.
fn nfts_exceed(legs: &Vec<Leg>, max: usize) -> (r: bool)
    ensures
        r == (count_nfts(legs@, legs@.len() as int) > max),
{
    let mut n: usize = 0;
    let mut k: usize = 0;
    while k < legs.len()
        invariant
            k <= legs@.len(),
            n == count_nfts(legs@, k as int),
            n <= max,
        decreases legs@.len() - k,
    {
        match &legs[k] {
            Leg::NonFungible { ids, .. } => {
                if ids.len() > max - n {
                    proof {
                        lemma_count_nfts_grows(legs@, k as int + 1, legs@.len() as int);
                    }
                    return true;
                }
                n = n + ids.len();
            },
            _ => {},
        }
        k = k + 1;
    }
    false
}

proof fn lemma_count_nfts_grows(legs: Seq<Leg>, a: int, b: int)
    requires
        0 <= a <= b,
    ensures
        count_nfts(legs, a) <= count_nfts(legs, b),
    decreases b - a,
{
    if a < b {
        lemma_count_nfts_grows(legs, a, b - 1);
    }
}


} // verus!
