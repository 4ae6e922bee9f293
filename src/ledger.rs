use vstd::prelude::*;

use crate::types::{PortfolioId, SettlementError};

verus! {

/// Balance of one asset in one portfolio, and the part of it that is
/// reserved for settlement.
#[derive(Clone, Copy, Debug, PartialEq, Eq, Structural)]
pub struct Holding {
    pub portfolio: PortfolioId,
    pub asset: u64,
    pub total: u128,
    pub locked: u128,
}

/// Where one non-fungible token is held, and whether it is reserved.
#[derive(Clone, Copy, Debug, PartialEq, Eq, Structural)]
pub struct NftHolding {
    pub asset: u64,
    pub id: u64,
    pub owner: PortfolioId,
    pub locked: bool,
}

/// Last index below `n` whose holding is of `(p, a)`, or -1.
pub open spec fn find_holding(s: Seq<Holding>, p: PortfolioId, a: u64, n: int) -> int
    decreases n,
{
    if n <= 0 {
        -1
    } else if s[n - 1].portfolio == p && s[n - 1].asset == a {
        n - 1
    } else {
        find_holding(s, p, a, n - 1)
    }
}

/// Last index below `n` whose entry is the token `(a, id)`, or -1.
pub open spec fn find_nft(s: Seq<NftHolding>, a: u64, id: u64, n: int) -> int
    decreases n,
{
    if n <= 0 {
        -1
    } else if s[n - 1].asset == a && s[n - 1].id == id {
        n - 1
    } else {
        find_nft(s, a, id, n - 1)
    }
}

/// Sum of all balances, over every portfolio and asset.
pub open spec fn sum_totals(s: Seq<Holding>) -> nat
    decreases s.len(),
{
    if s.len() == 0 {
        0
    } else {
        sum_totals(s.drop_last()) + s.last().total as nat
    }
}

proof fn lemma_find_holding_range(s: Seq<Holding>, p: PortfolioId, a: u64, n: int)
    requires
        n <= s.len(),
    ensures
        find_holding(s, p, a, n) == -1 || (0 <= find_holding(s, p, a, n) < n && s[find_holding(
            s,
            p,
            a,
            n,
        )].portfolio == p && s[find_holding(s, p, a, n)].asset == a),
    decreases n,
{
    if n > 0 {
        lemma_find_holding_range(s, p, a, n - 1);
    }
}

proof fn lemma_find_holding_update(
    s: Seq<Holding>,
    i: int,
    x: Holding,
    p: PortfolioId,
    a: u64,
    n: int,
)
    requires
        0 <= i < s.len(),
        n <= s.len(),
        x.portfolio == s[i].portfolio,
        x.asset == s[i].asset,
    ensures
        find_holding(s.update(i, x), p, a, n) == find_holding(s, p, a, n),
    decreases n,
{
    if n > 0 {
        lemma_find_holding_update(s, i, x, p, a, n - 1);
    }
}

proof fn lemma_find_holding_push(s: Seq<Holding>, x: Holding, p: PortfolioId, a: u64, n: int)
    requires
        n <= s.len(),
    ensures
        find_holding(s.push(x), p, a, n) == find_holding(s, p, a, n),
    decreases n,
{
    if n > 0 {
        lemma_find_holding_push(s, x, p, a, n - 1);
    }
}

proof fn lemma_find_nft_range(s: Seq<NftHolding>, a: u64, id: u64, n: int)
    requires
        n <= s.len(),
    ensures
        find_nft(s, a, id, n) == -1 || (0 <= find_nft(s, a, id, n) < n && s[find_nft(
            s,
            a,
            id,
            n,
        )].asset == a && s[find_nft(s, a, id, n)].id == id),
    decreases n,
{
    if n > 0 {
        lemma_find_nft_range(s, a, id, n - 1);
    }
}

proof fn lemma_find_nft_update(s: Seq<NftHolding>, i: int, x: NftHolding, a: u64, id: u64, n: int)
    requires
        0 <= i < s.len(),
        n <= s.len(),
        x.asset == s[i].asset,
        x.id == s[i].id,
    ensures
        find_nft(s.update(i, x), a, id, n) == find_nft(s, a, id, n),
    decreases n,
{
    if n > 0 {
        lemma_find_nft_update(s, i, x, a, id, n - 1);
    }
}

proof fn lemma_find_nft_push(s: Seq<NftHolding>, x: NftHolding, a: u64, id: u64, n: int)
    requires
        n <= s.len(),
    ensures
        find_nft(s.push(x), a, id, n) == find_nft(s, a, id, n),
    decreases n,
{
    if n > 0 {
        lemma_find_nft_push(s, x, a, id, n - 1);
    }
}

proof fn lemma_sum_update(s: Seq<Holding>, i: int, x: Holding)
    requires
        0 <= i < s.len(),
    ensures
        sum_totals(s.update(i, x)) + s[i].total == sum_totals(s) + x.total,
    decreases s.len(),
{
    if i < s.len() - 1 {
        lemma_sum_update(s.drop_last(), i, x);
        assert(s.update(i, x).drop_last() =~= s.drop_last().update(i, x));
    } else {
        assert(s.update(i, x).drop_last() =~= s.drop_last());
    }
}

proof fn lemma_sum_push(s: Seq<Holding>, x: Holding)
    ensures
        sum_totals(s.push(x)) == sum_totals(s) + x.total,
{
    assert(s.push(x).drop_last() =~= s);
}

proof fn lemma_sum_bounds(s: Seq<Holding>, i: int, j: int)
    requires
        0 <= i < s.len(),
        0 <= j < s.len(),
    ensures
        s[i].total <= sum_totals(s),
        i != j ==> s[i].total + s[j].total <= sum_totals(s),
    decreases s.len(),
{
    let k = s.len() - 1;
    if i < k && j < k {
        lemma_sum_bounds(s.drop_last(), i, j);
    } else if i < k {
        lemma_sum_bounds(s.drop_last(), i, i);
    } else if j < k {
        lemma_sum_bounds(s.drop_last(), j, j);
    }
}

/// Balances, reservations and token ownership of every portfolio.
pub struct Ledger {
    holdings: Vec<Holding>,
    nfts: Vec<NftHolding>,
}

impl Ledger {
    /// Reservations never exceed balances, and all balances together fit
    /// in a `u128`, so that no credit can overflow.
    pub closed spec fn wf(self) -> bool {
        &&& forall|i: int| 0 <= i < self.holdings@.len() ==> #[trigger] self.holdings@[i].locked <= self.holdings@[i].total
        &&& sum_totals(self.holdings@) <= u128::MAX
    }

    /// Balance of `a` in `p`.
    pub closed spec fn total(self, p: PortfolioId, a: u64) -> nat {
        let i = find_holding(self.holdings@, p, a, self.holdings@.len() as int);
        if i >= 0 {
            self.holdings@[i].total as nat
        } else {
            0
        }
    }

    /// Part of the balance of `a` in `p` reserved for settlement.
    pub closed spec fn locked(self, p: PortfolioId, a: u64) -> nat {
        let i = find_holding(self.holdings@, p, a, self.holdings@.len() as int);
        if i >= 0 {
            self.holdings@[i].locked as nat
        } else {
            0
        }
    }

    /// Sum of every balance held.
    pub closed spec fn issued(self) -> nat {
        sum_totals(self.holdings@)
    }

    /// Holder of the token `(a, id)`, if it exists.
    pub closed spec fn nft_owner(self, a: u64, id: u64) -> Option<PortfolioId> {
        let i = find_nft(self.nfts@, a, id, self.nfts@.len() as int);
        if i >= 0 {
            Some(self.nfts@[i].owner)
        } else {
            None
        }
    }

    /// Whether the token `(a, id)` is reserved for settlement.
    pub closed spec fn nft_locked(self, a: u64, id: u64) -> bool {
        let i = find_nft(self.nfts@, a, id, self.nfts@.len() as int);
        i >= 0 && self.nfts@[i].locked
    }

    /// `self` and `o` hold the same entries.
    pub closed spec fn same_as(self, o: Ledger) -> bool {
        self.holdings@ == o.holdings@ && self.nfts@ == o.nfts@
    }

    pub proof fn lemma_same_as(self, o: Ledger)
        requires
            self.same_as(o),
        ensures
            self.wf() == o.wf(),
            self.issued() == o.issued(),
            self.same_fungible(o),
            self.same_nfts(o),
    {
    }

    pub proof fn lemma_locked_le_total(self, p: PortfolioId, a: u64)
        requires
            self.wf(),
        ensures
            self.locked(p, a) <= self.total(p, a),
    {
        lemma_find_holding_range(self.holdings@, p, a, self.holdings@.len() as int);
    }

    pub open spec fn available(self, p: PortfolioId, a: u64) -> int {
        self.total(p, a) - self.locked(p, a)
    }

    /// `self` and `o` agree on every fungible balance but those of `(p, a)`.
    pub open spec fn same_except(self, o: Ledger, p: PortfolioId, a: u64) -> bool {
        &&& (forall|q: PortfolioId, b: u64| !(q == p && b == a) ==> #[trigger] self.total(q, b) == o.total(q, b))
        &&& (forall|q: PortfolioId, b: u64| !(q == p && b == a) ==> #[trigger] self.locked(q, b) == o.locked(q, b))
    }

    /// `self` and `o` agree on every fungible balance.
    pub open spec fn same_fungible(self, o: Ledger) -> bool {
        &&& (forall|q: PortfolioId, b: u64| #[trigger] self.total(q, b) == o.total(q, b))
        &&& (forall|q: PortfolioId, b: u64| #[trigger] self.locked(q, b) == o.locked(q, b))
    }

    /// `self` and `o` agree on every token but `(a, id)`.
    pub open spec fn nfts_same_except(self, o: Ledger, a: u64, id: u64) -> bool {
        &&& (forall|b: u64, j: u64| !(b == a && j == id) ==> #[trigger] self.nft_owner(b, j) == o.nft_owner(b, j))
        &&& (forall|b: u64, j: u64| !(b == a && j == id) ==> #[trigger] self.nft_locked(b, j) == o.nft_locked(b, j))
    }

    /// `self` and `o` agree on every token.
    pub open spec fn same_nfts(self, o: Ledger) -> bool {
        &&& (forall|b: u64, j: u64| #[trigger] self.nft_owner(b, j) == o.nft_owner(b, j))
        &&& (forall|b: u64, j: u64| #[trigger] self.nft_locked(b, j) == o.nft_locked(b, j))
    }

    pub fn new() -> (r: Ledger)
        ensures
            r.wf(),
            r.issued() == 0,
            forall|q: PortfolioId, b: u64| #[trigger] r.total(q, b) == 0,
            forall|q: PortfolioId, b: u64| #[trigger] r.locked(q, b) == 0,
            forall|b: u64, j: u64| #[trigger] r.nft_owner(b, j) == None::<PortfolioId>,
            forall|b: u64, j: u64| !(#[trigger] r.nft_locked(b, j)),
    {
        Ledger { holdings: Vec::new(), nfts: Vec::new() }
    }

    /// An equal ledger.
    pub fn duplicate(&self) -> (r: Ledger)
        ensures
            r.same_as(*self),
    {
        let mut holdings: Vec<Holding> = Vec::new();
        let mut i: usize = 0;
        while i < self.holdings.len()
            invariant
                i <= self.holdings@.len(),
                holdings@ == self.holdings@.subrange(0, i as int),
            decreases self.holdings@.len() - i,
        {
            holdings.push(self.holdings[i]);
            i = i + 1;
            assert(holdings@ =~= self.holdings@.subrange(0, i as int));
        }
        assert(holdings@ =~= self.holdings@);
        let mut nfts: Vec<NftHolding> = Vec::new();
        let mut j: usize = 0;
        while j < self.nfts.len()
            invariant
                j <= self.nfts@.len(),
                nfts@ == self.nfts@.subrange(0, j as int),
            decreases self.nfts@.len() - j,
        {
            nfts.push(self.nfts[j]);
            j = j + 1;
            assert(nfts@ =~= self.nfts@.subrange(0, j as int));
        }
        assert(nfts@ =~= self.nfts@);
        Ledger { holdings, nfts }
    }

    fn index_of(&self, p: PortfolioId, a: u64) -> (r: Option<usize>)
        ensures
            match r {
                Some(i) => find_holding(self.holdings@, p, a, self.holdings@.len() as int) == i
                    as int,
                None => find_holding(self.holdings@, p, a, self.holdings@.len() as int) == -1,
            },
    {
        let mut n: usize = self.holdings.len();
        while n > 0
            invariant
                n <= self.holdings@.len(),
                find_holding(self.holdings@, p, a, self.holdings@.len() as int) == find_holding(
                    self.holdings@,
                    p,
                    a,
                    n as int,
                ),
            decreases n,
        {
            let h = self.holdings[n - 1];
            if h.portfolio == p && h.asset == a {
                return Some(n - 1);
            }
            n = n - 1;
        }
        None
    }

    fn nft_index_of(&self, a: u64, id: u64) -> (r: Option<usize>)
        ensures
            match r {
                Some(i) => find_nft(self.nfts@, a, id, self.nfts@.len() as int) == i as int,
                None => find_nft(self.nfts@, a, id, self.nfts@.len() as int) == -1,
            },
    {
        let mut n: usize = self.nfts.len();
        while n > 0
            invariant
                n <= self.nfts@.len(),
                find_nft(self.nfts@, a, id, self.nfts@.len() as int) == find_nft(
                    self.nfts@,
                    a,
                    id,
                    n as int,
                ),
            decreases n,
        {
            let h = self.nfts[n - 1];
            if h.asset == a && h.id == id {
                return Some(n - 1);
            }
            n = n - 1;
        }
        None
    }

    /// Balance of `a` in `p`.
    pub fn balance_of(&self, p: PortfolioId, a: u64) -> (r: u128)
        requires
            self.wf(),
        ensures
            r == self.total(p, a),
    {
        proof {
            lemma_find_holding_range(self.holdings@, p, a, self.holdings@.len() as int);
        }
        match self.index_of(p, a) {
            Some(i) => self.holdings[i].total,
            None => 0,
        }
    }

    /// Reserved part of the balance of `a` in `p`.
    pub fn locked_of(&self, p: PortfolioId, a: u64) -> (r: u128)
        requires
            self.wf(),
        ensures
            r == self.locked(p, a),
    {
        proof {
            lemma_find_holding_range(self.holdings@, p, a, self.holdings@.len() as int);
        }
        match self.index_of(p, a) {
            Some(i) => self.holdings[i].locked,
            None => 0,
        }
    }

    /// Holder of the token `(a, id)`.
    pub fn owner_of_nft(&self, a: u64, id: u64) -> (r: Option<PortfolioId>)
        ensures
            r == self.nft_owner(a, id),
    {
        proof {
            lemma_find_nft_range(self.nfts@, a, id, self.nfts@.len() as int);
        }
        match self.nft_index_of(a, id) {
            Some(i) => Some(self.nfts[i].owner),
            None => None,
        }
    }

    /// Whether the token `(a, id)` is reserved.
    pub fn is_nft_locked(&self, a: u64, id: u64) -> (r: bool)
        ensures
            r == self.nft_locked(a, id),
    {
        proof {
            lemma_find_nft_range(self.nfts@, a, id, self.nfts@.len() as int);
        }
        match self.nft_index_of(a, id) {
            Some(i) => self.nfts[i].locked,
            None => false,
        }
    }

    /// Writes the holding of `(p, a)`: at `i` where it already stands, else
    /// as a new entry.
    fn put(&mut self, i: Option<usize>, h: Holding)
        requires
            match i {
                Some(k) => k < old(self).holdings@.len() && find_holding(
                    old(self).holdings@,
                    h.portfolio,
                    h.asset,
                    old(self).holdings@.len() as int,
                ) == k,
                None => find_holding(
                    old(self).holdings@,
                    h.portfolio,
                    h.asset,
                    old(self).holdings@.len() as int,
                ) == -1,
            },
            old(self).wf(),
            h.locked <= h.total,
            sum_totals(old(self).holdings@) + h.total <= u128::MAX + old(self).total(
                h.portfolio,
                h.asset,
            ),
        ensures
            final(self).wf(),
            final(self).nfts == old(self).nfts,
            final(self).same_nfts(*old(self)),
            final(self).total(h.portfolio, h.asset) == h.total,
            final(self).locked(h.portfolio, h.asset) == h.locked,
            final(self).same_except(*old(self), h.portfolio, h.asset),
            sum_totals(final(self).holdings@) + old(self).total(h.portfolio, h.asset) == sum_totals(
                old(self).holdings@,
            ) + h.total,
            forall|k: int|
                0 <= k < final(self).holdings@.len() ==> #[trigger] final(self).holdings@[k]
                    == h || (k < old(self).holdings@.len() && final(self).holdings@[k] == old(
                    self,
                ).holdings@[k]),
    {
        let ghost s = self.holdings@;
        let ghost n = s.len() as int;
        match i {
            Some(k) => {
                proof {
                    lemma_find_holding_range(s, h.portfolio, h.asset, n);
                    lemma_sum_update(s, k as int, h);
                }
                self.holdings.set(k, h);
                proof {
                    let t = self.holdings@;
                    assert(t == s.update(k as int, h));
                    lemma_find_holding_update(s, k as int, h, h.portfolio, h.asset, n);
                    assert forall|q: PortfolioId, b: u64|
                        #![trigger self.total(q, b)]
                        #![trigger self.locked(q, b)]
                        !(q == h.portfolio && b == h.asset) implies {
                        &&& self.total(q, b) == old(self).total(q, b)
                        &&& self.locked(q, b) == old(self).locked(q, b)
                    } by {
                        lemma_find_holding_update(s, k as int, h, q, b, n);
                        lemma_find_holding_range(s, q, b, n);
                    }
                    assert forall|j: int| 0 <= j < t.len() implies #[trigger] t[j].locked <= t[j].total by {
                        if j != k {
                            assert(s[j].locked <= s[j].total);
                        }
                    }
                }
            },
            None => {
                proof {
                    lemma_sum_push(s, h);
                }
                self.holdings.push(h);
                proof {
                    let t = self.holdings@;
                    assert(t == s.push(h));
                    assert forall|q: PortfolioId, b: u64|
                        #![trigger self.total(q, b)]
                        #![trigger self.locked(q, b)]
                        !(q == h.portfolio && b == h.asset) implies {
                        &&& self.total(q, b) == old(self).total(q, b)
                        &&& self.locked(q, b) == old(self).locked(q, b)
                    } by {
                        lemma_find_holding_push(s, h, q, b, n);
                        lemma_find_holding_range(s, q, b, n);
                        assert(find_holding(t, q, b, n + 1) == find_holding(t, q, b, n));
                    }
                    assert forall|j: int| 0 <= j < t.len() implies #[trigger] t[j].locked <= t[j].total by {
                        if j < n {
                            assert(s[j].locked <= s[j].total);
                        }
                    }
                }
            },
        }
    }

    /// Credits `amount` of `a` to `p`; refused when all balances together
    /// would no longer fit in a `u128`.
    pub fn deposit(&mut self, p: PortfolioId, a: u64, amount: u128) -> (r: Result<(), SettlementError>)
        requires
            old(self).wf(),
        ensures
            final(self).wf(),
            r is Ok <==> old(self).issued() + amount <= u128::MAX,
            r is Err ==> r == Err::<(), SettlementError>(SettlementError::BalanceOverflow) && *final(self) == *old(self),
            r is Ok ==> {
                &&& final(self).total(p, a) == old(self).total(p, a) + amount
                &&& final(self).locked(p, a) == old(self).locked(p, a)
                &&& final(self).issued() == old(self).issued() + amount
                &&& final(self).same_except(*old(self), p, a)
                &&& final(self).same_nfts(*old(self))
            },
    {
        let ghost s = self.holdings@;
        let i = self.index_of(p, a);
        proof {
            lemma_find_holding_range(s, p, a, s.len() as int);
        }
        let cur = match i {
            Some(k) => self.holdings[k],
            None => Holding { portfolio: p, asset: a, total: 0, locked: 0 },
        };
        proof {
            if i is Some {
                lemma_sum_bounds(s, i->0 as int, i->0 as int);
            }
        }
        if amount > u128::MAX - cur.total || !self.fits(amount) {
            proof {
                assert(sum_totals(s) + amount > u128::MAX);
            }
            return Err(SettlementError::BalanceOverflow);
        }
        let h = Holding { portfolio: p, asset: a, total: cur.total + amount, locked: cur.locked };
        self.put(i, h);
        Ok(())
    }

    /// Holding of `(p, a)` as it stands, with its index if it has one.
    fn entry(&self, p: PortfolioId, a: u64) -> (r: (Option<usize>, Holding))
        requires
            self.wf(),
        ensures
            match r.0 {
                Some(k) => k < self.holdings@.len() && find_holding(
                    self.holdings@,
                    p,
                    a,
                    self.holdings@.len() as int,
                ) == k,
                None => find_holding(self.holdings@, p, a, self.holdings@.len() as int) == -1,
            },
            r.1.portfolio == p,
            r.1.asset == a,
            r.1.total == self.total(p, a),
            r.1.locked == self.locked(p, a),
            r.1.locked <= r.1.total,
            r.1.total <= sum_totals(self.holdings@),
    {
        let i = self.index_of(p, a);
        proof {
            lemma_find_holding_range(self.holdings@, p, a, self.holdings@.len() as int);
        }
        match i {
            Some(k) => {
                proof {
                    lemma_sum_bounds(self.holdings@, k as int, k as int);
                }
                (i, self.holdings[k])
            },
            None => (i, Holding { portfolio: p, asset: a, total: 0, locked: 0 }),
        }
    }

    /// Reserves `amount` of `a` in `p`; refused when less than that is
    /// available.
    pub fn lock(&mut self, p: PortfolioId, a: u64, amount: u128) -> (r: Result<(), SettlementError>)
        requires
            old(self).wf(),
        ensures
            final(self).wf(),
            r is Ok <==> amount <= old(self).available(p, a),
            r is Err ==> r == Err::<(), SettlementError>(SettlementError::InsufficientPortfolioBalance) && *final(self) == *old(self),
            r is Ok ==> {
                &&& final(self).total(p, a) == old(self).total(p, a)
                &&& final(self).locked(p, a) == old(self).locked(p, a) + amount
            },
            final(self).issued() == old(self).issued(),
            final(self).same_except(*old(self), p, a),
            final(self).same_nfts(*old(self)),
    {
        let (i, cur) = self.entry(p, a);
        if amount > cur.total - cur.locked {
            return Err(SettlementError::InsufficientPortfolioBalance);
        }
        let h = Holding { locked: cur.locked + amount, ..cur };
        self.put(i, h);
        Ok(())
    }

    /// Releases up to `amount` of the reservation of `a` in `p`.
    pub fn unlock(&mut self, p: PortfolioId, a: u64, amount: u128)
        requires
            old(self).wf(),
        ensures
            final(self).wf(),
            final(self).total(p, a) == old(self).total(p, a),
            final(self).locked(p, a) == if old(self).locked(p, a) >= amount {
                old(self).locked(p, a) - amount
            } else {
                0
            },
            final(self).issued() == old(self).issued(),
            final(self).same_except(*old(self), p, a),
            final(self).same_nfts(*old(self)),
    {
        let (i, cur) = self.entry(p, a);
        let locked = if cur.locked >= amount {
            cur.locked - amount
        } else {
            0
        };
        let h = Holding { locked, ..cur };
        self.put(i, h);
    }

    /// Releases `amount` reserved of `a` in `from` and moves it to `to`;
    /// refused when less than `amount` is reserved.
    pub fn transfer_locked(&mut self, from: PortfolioId, to: PortfolioId, a: u64, amount: u128) -> (r: Result<(), SettlementError>)
        requires
            old(self).wf(),
            from != to,
        ensures
            final(self).wf(),
            r is Ok <==> amount <= old(self).locked(from, a),
            r is Err ==> r == Err::<(), SettlementError>(SettlementError::FailedToReleaseLockOrTransferAssets) && *final(self) == *old(self),
            r is Ok ==> {
                &&& final(self).total(from, a) == old(self).total(from, a) - amount
                &&& final(self).locked(from, a) == old(self).locked(from, a) - amount
                &&& final(self).total(to, a) == old(self).total(to, a) + amount
                &&& final(self).locked(to, a) == old(self).locked(to, a)
                &&& forall|q: PortfolioId, b: u64|
                    #![trigger final(self).total(q, b)]
                    #![trigger final(self).locked(q, b)]
                    !(q == from && b == a) && !(q == to && b == a) ==> {
                        &&& final(self).total(q, b) == old(self).total(q, b)
                        &&& final(self).locked(q, b) == old(self).locked(q, b)
                    }
            },
            final(self).issued() == old(self).issued(),
            final(self).same_nfts(*old(self)),
    {
        let ghost s0 = self.holdings@;
        let (i, src) = self.entry(from, a);
        if amount > src.locked {
            return Err(SettlementError::FailedToReleaseLockOrTransferAssets);
        }
        let (j, dst) = self.entry(to, a);
        proof {
            lemma_find_holding_range(s0, from, a, s0.len() as int);
            lemma_find_holding_range(s0, to, a, s0.len() as int);
            if i is Some && j is Some {
                lemma_sum_bounds(s0, i->0 as int, j->0 as int);
            }
        }
        let h1 = Holding { total: src.total - amount, locked: src.locked - amount, ..src };
        self.put(i, h1);
        let ghost mid = *self;
        let (j2, dst2) = self.entry(to, a);
        assert(dst2 == dst);
        let h2 = Holding { total: dst.total + amount, ..dst };
        self.put(j2, h2);
        proof {
            assert(self.total(from, a) == mid.total(from, a));
            assert(self.locked(from, a) == mid.locked(from, a));
            assert(mid.total(to, a) == old(self).total(to, a));
            assert(mid.locked(to, a) == old(self).locked(to, a));
            assert forall|q: PortfolioId, b: u64|
                #![trigger self.total(q, b)]
                #![trigger self.locked(q, b)]
                !(q == from && b == a) && !(q == to && b == a) implies {
                    &&& self.total(q, b) == old(self).total(q, b)
                    &&& self.locked(q, b) == old(self).locked(q, b)
                } by {
                assert(self.total(q, b) == mid.total(q, b));
                assert(mid.total(q, b) == old(self).total(q, b));
            }
        }
        Ok(())
    }

    /// Writes the entry of token `(h.asset, h.id)`.
    fn put_nft(&mut self, i: Option<usize>, h: NftHolding)
        requires
            match i {
                Some(k) => k < old(self).nfts@.len() && find_nft(
                    old(self).nfts@,
                    h.asset,
                    h.id,
                    old(self).nfts@.len() as int,
                ) == k,
                None => find_nft(old(self).nfts@, h.asset, h.id, old(self).nfts@.len() as int)
                    == -1,
            },
        ensures
            final(self).holdings == old(self).holdings,
            final(self).nft_owner(h.asset, h.id) == Some(h.owner),
            final(self).nft_locked(h.asset, h.id) == h.locked,
            final(self).nfts_same_except(*old(self), h.asset, h.id),
    {
        let ghost s = self.nfts@;
        let ghost n = s.len() as int;
        match i {
            Some(k) => {
                proof {
                    lemma_find_nft_range(s, h.asset, h.id, n);
                }
                self.nfts.set(k, h);
                proof {
                    assert(self.nfts@ == s.update(k as int, h));
                    lemma_find_nft_update(s, k as int, h, h.asset, h.id, n);
                    assert forall|b: u64, j: u64|
                        #![trigger self.nft_owner(b, j)]
                        #![trigger self.nft_locked(b, j)]
                        !(b == h.asset && j == h.id) implies {
                        &&& self.nft_owner(b, j) == old(self).nft_owner(b, j)
                        &&& self.nft_locked(b, j) == old(self).nft_locked(b, j)
                    } by {
                        lemma_find_nft_update(s, k as int, h, b, j, n);
                        lemma_find_nft_range(s, b, j, n);
                        let f = find_nft(s, b, j, n);
                        assert(find_nft(self.nfts@, b, j, n) == f);
                        if f >= 0 {
                            assert(f != k);
                            assert(self.nfts@[f] == s[f]);
                        }
                    }
                }
            },
            None => {
                self.nfts.push(h);
                proof {
                    let t = self.nfts@;
                    assert(t == s.push(h));
                    assert(t[n] == h);
                    assert forall|b: u64, j: u64|
                        #![trigger self.nft_owner(b, j)]
                        #![trigger self.nft_locked(b, j)]
                        !(b == h.asset && j == h.id) implies {
                        &&& self.nft_owner(b, j) == old(self).nft_owner(b, j)
                        &&& self.nft_locked(b, j) == old(self).nft_locked(b, j)
                    } by {
                        lemma_find_nft_push(s, h, b, j, n);
                        lemma_find_nft_range(s, b, j, n);
                        assert(find_nft(t, b, j, n + 1) == find_nft(t, b, j, n));
                    }
                }
            },
        }
    }

    /// Creates the token `(a, id)` in `p`; refused when it exists.
    pub fn mint_nft(&mut self, p: PortfolioId, a: u64, id: u64) -> (r: Result<(), SettlementError>)
        requires
            old(self).wf(),
        ensures
            final(self).wf(),
            r is Ok <==> old(self).nft_owner(a, id) is None,
            r is Err ==> r == Err::<(), SettlementError>(SettlementError::DuplicatedNFTId) && *final(self) == *old(self),
            r is Ok ==> final(self).nft_owner(a, id) == Some(p) && !final(self).nft_locked(a, id),
            final(self).same_fungible(*old(self)),
            final(self).issued() == old(self).issued(),
            final(self).nfts_same_except(*old(self), a, id),
    {
        proof {
            lemma_find_nft_range(self.nfts@, a, id, self.nfts@.len() as int);
        }
        let i = self.nft_index_of(a, id);
        if i.is_some() {
            return Err(SettlementError::DuplicatedNFTId);
        }
        self.put_nft(i, NftHolding { asset: a, id, owner: p, locked: false });
        Ok(())
    }

    /// Reserves the token `(a, id)` held by `p`.
    pub fn lock_nft(&mut self, p: PortfolioId, a: u64, id: u64) -> (r: Result<(), SettlementError>)
        requires
            old(self).wf(),
        ensures
            final(self).wf(),
            r is Ok <==> old(self).nft_owner(a, id) == Some(p) && !old(self).nft_locked(a, id),
            old(self).nft_owner(a, id) != Some(p) ==> r == Err::<(), SettlementError>(SettlementError::NFTNotFoundInPortfolio),
            old(self).nft_owner(a, id) == Some(p) && old(self).nft_locked(a, id) ==> r == Err::<(), SettlementError>(SettlementError::NFTAlreadyLocked),
            r is Err ==> *final(self) == *old(self),
            r is Ok ==> final(self).nft_owner(a, id) == Some(p) && final(self).nft_locked(a, id),
            final(self).same_fungible(*old(self)),
            final(self).issued() == old(self).issued(),
            final(self).nfts_same_except(*old(self), a, id),
    {
        proof {
            lemma_find_nft_range(self.nfts@, a, id, self.nfts@.len() as int);
        }
        let i = self.nft_index_of(a, id);
        match i {
            None => Err(SettlementError::NFTNotFoundInPortfolio),
            Some(k) => {
                let h = self.nfts[k];
                if h.owner != p {
                    return Err(SettlementError::NFTNotFoundInPortfolio);
                }
                if h.locked {
                    return Err(SettlementError::NFTAlreadyLocked);
                }
                self.put_nft(i, NftHolding { locked: true, ..h });
                Ok(())
            },
        }
    }

    /// Releases the reservation of the token `(a, id)`, if it exists.
    pub fn unlock_nft(&mut self, a: u64, id: u64)
        requires
            old(self).wf(),
        ensures
            final(self).wf(),
            final(self).nft_owner(a, id) == old(self).nft_owner(a, id),
            !final(self).nft_locked(a, id),
            final(self).same_fungible(*old(self)),
            final(self).issued() == old(self).issued(),
            final(self).nfts_same_except(*old(self), a, id),
    {
        proof {
            lemma_find_nft_range(self.nfts@, a, id, self.nfts@.len() as int);
        }
        let i = self.nft_index_of(a, id);
        if let Some(k) = i {
            let h = self.nfts[k];
            self.put_nft(i, NftHolding { locked: false, ..h });
        }
    }

    /// Moves the reserved token `(a, id)` from `from` to `to`, released;
    /// refused unless `from` holds it reserved.
    pub fn transfer_nft(&mut self, from: PortfolioId, to: PortfolioId, a: u64, id: u64) -> (r: Result<(), SettlementError>)
        requires
            old(self).wf(),
        ensures
            final(self).wf(),
            r is Ok <==> old(self).nft_owner(a, id) == Some(from) && old(self).nft_locked(a, id),
            r is Err ==> r == Err::<(), SettlementError>(SettlementError::FailedToReleaseLockOrTransferAssets) && *final(self) == *old(self),
            r is Ok ==> final(self).nft_owner(a, id) == Some(to) && !final(self).nft_locked(a, id),
            final(self).same_fungible(*old(self)),
            final(self).issued() == old(self).issued(),
            final(self).nfts_same_except(*old(self), a, id),
    {
        proof {
            lemma_find_nft_range(self.nfts@, a, id, self.nfts@.len() as int);
        }
        let i = self.nft_index_of(a, id);
        match i {
            None => Err(SettlementError::FailedToReleaseLockOrTransferAssets),
            Some(k) => {
                let h = self.nfts[k];
                if h.owner != from || !h.locked {
                    return Err(SettlementError::FailedToReleaseLockOrTransferAssets);
                }
                self.put_nft(i, NftHolding { owner: to, locked: false, ..h });
                Ok(())
            },
        }
    }

    /// Whether `amount` more fits under the bound on all balances together.
    fn fits(&self, amount: u128) -> (r: bool)
        requires
            self.wf(),
        ensures
            r == (sum_totals(self.holdings@) + amount <= u128::MAX),
    {
        let mut sum: u128 = 0;
        let mut i: usize = 0;
        while i < self.holdings.len()
            invariant
                i <= self.holdings@.len(),
                sum == sum_totals(self.holdings@.subrange(0, i as int)),
                sum_totals(self.holdings@) <= u128::MAX,
            decreases self.holdings@.len() - i,
        {
            proof {
                let s = self.holdings@;
                assert(s.subrange(0, i + 1).drop_last() =~= s.subrange(0, i as int));
                lemma_sum_prefix(s, i + 1);
            }
            sum = sum + self.holdings[i].total;
            i = i + 1;
        }
        proof {
            assert(self.holdings@.subrange(0, i as int) =~= self.holdings@);
        }
        amount <= u128::MAX - sum
    }
}

proof fn lemma_sum_prefix(s: Seq<Holding>, n: int)
    requires
        0 <= n <= s.len(),
    ensures
        sum_totals(s.subrange(0, n)) <= sum_totals(s),
    decreases s.len() - n,
{
    if n < s.len() {
        lemma_sum_prefix(s, n + 1);
        assert(s.subrange(0, n + 1).drop_last() =~= s.subrange(0, n));
    } else {
        assert(s.subrange(0, n) =~= s);
    }
}

} // verus!
