use vstd::prelude::*;

use crate::types::{PortfolioId, SettlementError, VenueType, MAX_VENUE_SIGNERS};

verus! {

/// A venue: who created it, its kind, and the keys that may sign receipts
/// for its instructions.
#[derive(Clone, Debug)]
pub struct Venue {
    pub creator: u64,
    pub venue_type: VenueType,
    pub details: Vec<u8>,
    pub signers: Vec<u64>,
}

/// An asset known to the ledger, with what governs its transfers.
#[derive(Clone, Debug)]
pub struct AssetRecord {
    pub id: u64,
    pub owner: u64,
    /// Transfers of a frozen asset are refused.
    pub frozen: bool,
    /// Whether the asset's compliance rules admit transfers.
    pub compliant: bool,
    /// Receivers of this asset never need to affirm.
    pub exempt: bool,
    /// Whether only `allowed_venues` may carry the asset.
    pub venue_filtering: bool,
    pub allowed_venues: Vec<u64>,
}

impl AssetRecord {
    /// Whether a transfer of this asset passes its compliance check.
    pub open spec fn transfers_allowed(self) -> bool {
        !self.frozen && self.compliant
    }

    /// Whether an instruction of venue `v` may carry this asset.
    pub open spec fn admits_venue(self, v: u64) -> bool {
        !self.venue_filtering || self.allowed_venues@.contains(v)
    }
}

/// Who controls a portfolio in place of its owner.
#[derive(Clone, Copy, Debug, PartialEq, Eq, Structural)]
pub struct Custody {
    pub portfolio: PortfolioId,
    pub custodian: u64,
}

/// An identity's standing consent to receive an asset.
#[derive(Clone, Copy, Debug, PartialEq, Eq, Structural)]
pub struct TickerApproval {
    pub did: u64,
    pub asset: u64,
}

/// A portfolio's standing consent to receive an asset.
#[derive(Clone, Copy, Debug, PartialEq, Eq, Structural)]
pub struct PortfolioApproval {
    pub portfolio: PortfolioId,
    pub asset: u64,
}

/// Last index below `n` whose entry is of portfolio `p`, or -1.
pub open spec fn find_custody(s: Seq<Custody>, p: PortfolioId, n: int) -> int
    decreases n,
{
    if n <= 0 {
        -1
    } else if s[n - 1].portfolio == p {
        n - 1
    } else {
        find_custody(s, p, n - 1)
    }
}

/// The identity that controls `p`: its custodian if one was assigned, else
/// its owner.
pub open spec fn custodian_in(s: Seq<Custody>, p: PortfolioId) -> u64 {
    let i = find_custody(s, p, s.len() as int);
    if 0 <= i < s.len() {
        s[i].custodian
    } else {
        p.did
    }
}

pub proof fn lemma_find_custody_range(s: Seq<Custody>, p: PortfolioId, n: int)
    requires
        n <= s.len(),
    ensures
        find_custody(s, p, n) == -1 || (0 <= find_custody(s, p, n) < n && s[find_custody(
            s,
            p,
            n,
        )].portfolio == p),
    decreases n,
{
    if n > 0 {
        lemma_find_custody_range(s, p, n - 1);
    }
}

proof fn lemma_find_custody_push(s: Seq<Custody>, x: Custody, p: PortfolioId, n: int)
    requires
        n <= s.len(),
    ensures
        find_custody(s.push(x), p, n) == find_custody(s, p, n),
    decreases n,
{
    if n > 0 {
        lemma_find_custody_push(s, x, p, n - 1);
    }
}

/// The identity that controls `p`.
pub fn custodian_of(s: &Vec<Custody>, p: PortfolioId) -> (r: u64)
    ensures
        r == custodian_in(s@, p),
{
    proof {
        lemma_find_custody_range(s@, p, s@.len() as int);
    }
    let mut n: usize = s.len();
    while n > 0
        invariant
            n <= s@.len(),
            find_custody(s@, p, s@.len() as int) == find_custody(s@, p, n as int),
        decreases n,
    {
        if s[n - 1].portfolio == p {
            return s[n - 1].custodian;
        }
        n = n - 1;
    }
    p.did
}

/// Records `c` as the custodian of `p`.
pub fn assign_custody(s: &mut Vec<Custody>, p: PortfolioId, c: u64)
    ensures
        custodian_in(final(s)@, p) == c,
        forall|q: PortfolioId| q != p ==> #[trigger] custodian_in(final(s)@, q) == custodian_in(old(s)@, q),
{
    let ghost s0 = s@;
    s.push(Custody { portfolio: p, custodian: c });
    proof {
        let n = s0.len() as int;
        assert forall|q: PortfolioId| q != p implies #[trigger] custodian_in(s@, q) == custodian_in(s0, q) by {
            lemma_find_custody_push(s0, Custody { portfolio: p, custodian: c }, q, n);
            lemma_find_custody_range(s0, q, n);
        }
    }
}

/// Whether `x` is in `s`.
pub fn contains_u64(s: &Vec<u64>, x: u64) -> (r: bool)
    ensures
        r == s@.contains(x),
{
    let mut i: usize = 0;
    while i < s.len()
        invariant
            i <= s@.len(),
            forall|k: int| 0 <= k < i ==> s@[k] != x,
        decreases s@.len() - i,
    {
        if s[i] == x {
            return true;
        }
        i = i + 1;
    }
    false
}

/// Whether `s` holds no value twice.
pub open spec fn no_duplicates(s: Seq<u64>) -> bool {
    forall|i: int, j: int| 0 <= i < j < s.len() ==> s[i] != s[j]
}

/// Whether `s` holds some value twice.
pub fn has_duplicates(s: &Vec<u64>) -> (r: bool)
    ensures
        r == !no_duplicates(s@),
{
    let mut i: usize = 0;
    while i < s.len()
        invariant
            i <= s@.len(),
            forall|a: int, b: int| 0 <= a < b < s@.len() && a < i ==> s@[a] != s@[b],
        decreases s@.len() - i,
    {
        let mut j: usize = i + 1;
        while j < s.len()
            invariant
                i < s@.len(),
                i + 1 <= j <= s@.len(),
                forall|a: int, b: int| 0 <= a < b < s@.len() && a < i ==> s@[a] != s@[b],
                forall|b: int| i < b < j ==> s@[i as int] != s@[b],
            decreases s@.len() - j,
        {
            if s[i] == s[j] {
                return true;
            }
            j = j + 1;
        }
        i = i + 1;
    }
    false
}

/// The test "is not in `t`".
pub open spec fn not_in(t: Seq<u64>) -> spec_fn(u64) -> bool {
    |y: u64| !t.contains(y)
}

/// `s` without the values in `t`, order kept. Where `s` holds no value twice
/// and every value of `t` once, the result is `t.len()` shorter.
pub fn retain_not_in(s: &Vec<u64>, t: &Vec<u64>) -> (r: Vec<u64>)
    ensures
        r@ == s@.filter(not_in(t@)),
        no_duplicates(s@) ==> no_duplicates(r@),
        no_duplicates(s@) && no_duplicates(t@) && (forall|k: int| 0 <= k < t@.len() ==> s@.contains(#[trigger] t@[k])) ==> r@.len() == s@.len() - t@.len(),
{
    let mut r: Vec<u64> = Vec::new();
    let mut i: usize = 0;
    let ghost mut dropped: Seq<u64> = Seq::empty();
    while i < s.len()
        invariant
            i <= s@.len(),
            r@ == s@.subrange(0, i as int).filter(not_in(t@)),
            forall|k: int| 0 <= k < r@.len() ==> s@.subrange(0, i as int).contains(#[trigger] r@[k]),
            no_duplicates(s@) ==> no_duplicates(r@),
            no_duplicates(s@) ==> no_duplicates(dropped),
            r@.len() + dropped.len() == i,
            forall|k: int| 0 <= k < dropped.len() ==> t@.contains(#[trigger] dropped[k]) && s@.subrange(0, i as int).contains(dropped[k]),
            forall|x: u64| t@.contains(x) && s@.subrange(0, i as int).contains(x) ==> dropped.contains(x),
        decreases s@.len() - i,
    {
        let x = s[i];
        let ghost d0 = dropped;
        proof {
            assert(s@.subrange(0, i + 1) =~= s@.subrange(0, i as int).push(x));
            s@.subrange(0, i as int).lemma_filter_push(x, not_in(t@));
            if no_duplicates(s@) {
                assert(!s@.subrange(0, i as int).contains(x)) by {
                    if s@.subrange(0, i as int).contains(x) {
                        let j = choose|j: int| 0 <= j < i && #[trigger] s@.subrange(0, i as int)[j] == x;
                        assert(s@[j] == s@[i as int]);
                    }
                }
            }
        }
        if !contains_u64(t, x) {
            r.push(x);
        } else {
            proof {
                dropped = dropped.push(x);
            }
        }
        i = i + 1;
        proof {
            assert forall|k: int| 0 <= k < r@.len() implies s@.subrange(0, i as int).contains(#[trigger] r@[k]) by {
                if k < r@.len() - 1 || t@.contains(x) {
                    assert(s@.subrange(0, i - 1).contains(r@[k]));
                    let j = choose|j: int| 0 <= j < i - 1 && #[trigger] s@.subrange(0, i - 1)[j] == r@[k];
                    assert(s@.subrange(0, i as int)[j] == r@[k]);
                } else {
                    assert(s@.subrange(0, i as int)[i - 1] == x);
                }
            }
            assert forall|k: int| 0 <= k < dropped.len() implies t@.contains(#[trigger] dropped[k]) && s@.subrange(0, i as int).contains(dropped[k]) by {
                if k < dropped.len() - 1 || !t@.contains(x) {
                    assert(s@.subrange(0, i - 1).contains(dropped[k]));
                    let j = choose|j: int| 0 <= j < i - 1 && #[trigger] s@.subrange(0, i - 1)[j] == dropped[k];
                    assert(s@.subrange(0, i as int)[j] == dropped[k]);
                } else {
                    assert(s@.subrange(0, i as int)[i - 1] == x);
                }
            }
            assert forall|y: u64| t@.contains(y) && s@.subrange(0, i as int).contains(y) implies dropped.contains(y) by {
                let j = choose|j: int| 0 <= j < i && #[trigger] s@.subrange(0, i as int)[j] == y;
                if j < i - 1 {
                    assert(s@.subrange(0, i - 1)[j] == y);
                    assert(s@.subrange(0, i - 1).contains(y));
                    assert(d0.contains(y));
                    let m = choose|m: int| 0 <= m < d0.len() && #[trigger] d0[m] == y;
                    assert(dropped[m] == y);
                } else {
                    assert(dropped.last() == x);
                }
            }
        }
    }
    proof {
        assert(s@.subrange(0, i as int) =~= s@);
        if no_duplicates(s@) && no_duplicates(t@) && (forall|k: int| 0 <= k < t@.len() ==> s@.contains(#[trigger] t@[k])) {
            assert forall|k: int| 0 <= k < t@.len() implies dropped.contains(#[trigger] t@[k]) by {
                assert(s@.contains(t@[k]));
            }
            lemma_same_size(dropped, t@);
        }
    }
    r
}

/// Two duplicate-free sequences that hold the same values have one length.
pub proof fn lemma_same_size(a: Seq<u64>, b: Seq<u64>)
    requires
        no_duplicates(a),
        no_duplicates(b),
        forall|k: int| 0 <= k < a.len() ==> b.contains(#[trigger] a[k]),
        forall|k: int| 0 <= k < b.len() ==> a.contains(#[trigger] b[k]),
    ensures
        a.len() == b.len(),
{
    a.unique_seq_to_set();
    b.unique_seq_to_set();
    assert(a.to_set() =~= b.to_set()) by {
        assert forall|x: u64| a.to_set().contains(x) implies b.to_set().contains(x) by {
            let k = choose|k: int| 0 <= k < a.len() && #[trigger] a[k] == x;
            assert(b.contains(a[k]));
        }
        assert forall|x: u64| b.to_set().contains(x) implies a.to_set().contains(x) by {
            let k = choose|k: int| 0 <= k < b.len() && #[trigger] b[k] == x;
            assert(a.contains(b[k]));
        }
    }
}

} // verus!
