//! The escrow's persistent state: balances, offer records, and custody
//! accounts, modelled as a single ledger.
//!
//! Every account is keyed by its controller and an asset type.  A user's
//! account is controlled by the user's own identity; a custody account is
//! controlled by a derived, keyless [`Authority`].  Offer records are keyed
//! by (maker, id).  The ledger's view is a pair of maps, over which every
//! contract in the crate is stated.

use vstd::prelude::*;

use crate::authority::Authority;
use crate::authority::OFFER_NAMESPACE;
use crate::authority::spec_authority;
use crate::error::TransferError;

verus! {

/// The controlling authority of an account: either a directly signing user
/// or a derived, keyless custody authority.
#[derive(Clone, Copy, Debug, PartialEq, Eq, Structural)]
pub enum Controller {
    /// An end-user identity, able to sign for its own accounts.
    User(u64),
    /// A derived authority; no private key exists for it.
    Derived(Authority),
}

/// One account: a balance of one asset under one controller.
#[derive(Clone, Copy, Debug, PartialEq, Eq, Structural)]
pub struct BalanceEntry {
    pub owner: Controller,
    pub asset: u64,
    pub amount: u64,
}

/// One offer record, the persistent terms of one outstanding swap.
/// Read-only after creation; destroyed atomically by a successful take.
#[derive(Clone, Copy, Debug, PartialEq, Eq, Structural)]
pub struct Offer {
    /// Caller-chosen, unique per maker; (maker, id) is the natural key.
    pub id: u64,
    /// Identity of the depositor.
    pub maker: u64,
    /// Type descriptor of the offered asset.
    pub asset_a: u64,
    /// Type descriptor of the wanted asset.
    pub asset_b: u64,
    /// Amount of asset B required to unlock the swap.
    pub amount_b_wanted: u64,
    /// Collision-avoidance salt chosen when the authority was derived.
    pub authority_salt: u8,
}

/// The key of an account: its controller and asset type.
pub type AccountKey = (Controller, u64);

/// The natural key of an offer record: (maker, id).
pub type OfferKey = (u64, u64);

/// The mathematical model of a ledger.
#[verifier::ext_equal]
pub struct LedgerView {
    /// Balance of each existing account; a key's absence means the account
    /// does not exist.
    pub balances: Map<AccountKey, u64>,
    /// The outstanding offer records.
    pub offers: Map<OfferKey, Offer>,
}

/// The key of a balance entry.
pub open spec fn bal_key(e: BalanceEntry) -> AccountKey {
    (e.owner, e.asset)
}

/// The key of an offer record.
pub open spec fn offer_key(o: Offer) -> OfferKey {
    (o.maker, o.id)
}

/// The custody account of an offer: an asset-A account controlled by the
/// authority derived from the record's own fields.
pub open spec fn custody_key(o: Offer) -> AccountKey {
    (
        Controller::Derived(spec_authority(OFFER_NAMESPACE, o.maker, o.id, o.authority_salt)),
        o.asset_a,
    )
}

/// Whether some entry of `s` has key `k`.
pub open spec fn has_bal(s: Seq<BalanceEntry>, k: AccountKey) -> bool {
    exists|i: int| 0 <= i < s.len() && bal_key(s[i]) == k
}

/// The index of the entry with key `k`, where one exists.
pub open spec fn bal_index_of(s: Seq<BalanceEntry>, k: AccountKey) -> int {
    choose|i: int| 0 <= i < s.len() && bal_key(s[i]) == k
}

/// The balances of `s` as a map from account key to amount.
pub open spec fn balances_map(s: Seq<BalanceEntry>) -> Map<AccountKey, u64> {
    Map::new(|k: AccountKey| has_bal(s, k), |k: AccountKey| s[bal_index_of(s, k)].amount)
}

/// No two entries of `s` share a key.
pub open spec fn balances_unique(s: Seq<BalanceEntry>) -> bool {
    forall|i: int, j: int|
        0 <= i < s.len() && 0 <= j < s.len() && #[trigger] bal_key(s[i]) == #[trigger] bal_key(
            s[j],
        ) ==> i == j
}

/// Whether some record of `s` has key `k`.
pub open spec fn has_offer(s: Seq<Offer>, k: OfferKey) -> bool {
    exists|i: int| 0 <= i < s.len() && offer_key(s[i]) == k
}

/// The index of the record with key `k`, where one exists.
pub open spec fn offer_index_of(s: Seq<Offer>, k: OfferKey) -> int {
    choose|i: int| 0 <= i < s.len() && offer_key(s[i]) == k
}

/// The records of `s` as a map from (maker, id) to record.
pub open spec fn offers_map(s: Seq<Offer>) -> Map<OfferKey, Offer> {
    Map::new(|k: OfferKey| has_offer(s, k), |k: OfferKey| s[offer_index_of(s, k)])
}

/// No two records of `s` share a key.
pub open spec fn offers_unique(s: Seq<Offer>) -> bool {
    forall|i: int, j: int|
        0 <= i < s.len() && 0 <= j < s.len() && #[trigger] offer_key(s[i]) == #[trigger] offer_key(
            s[j],
        ) ==> i == j
}

/// The balance of an account, taking a missing account as zero.
pub open spec fn spec_balance(l: LedgerView, owner: Controller, asset: u64) -> u64 {
    if l.balances.dom().contains((owner, asset)) {
        l.balances[(owner, asset)]
    } else {
        0u64
    }
}

/// The record/custody invariant of a well-formed ledger: an offer record
/// exists if and only if its custody account exists, the custody account is
/// controlled by the authority derived from the record's own (maker, id,
/// salt), and no derived-authority account exists without its record.
pub open spec fn linked(l: LedgerView) -> bool {
    &&& forall|k: OfferKey| #[trigger]
        l.offers.dom().contains(k) ==> {
            let o = l.offers[k];
            &&& o.maker == k.0
            &&& o.id == k.1
            &&& l.balances.dom().contains(custody_key(o))
        }
    &&& forall|bk: AccountKey| #[trigger]
        l.balances.dom().contains(bk) ==> match bk.0 {
            Controller::User(_) => true,
            Controller::Derived(a) => {
                &&& a.namespace == OFFER_NAMESPACE
                &&& l.offers.dom().contains((a.maker, a.id))
                &&& a.salt == l.offers[(a.maker, a.id)].authority_salt
                &&& bk.1 == l.offers[(a.maker, a.id)].asset_a
            },
        }
}

// ---------------------------------------------------------------------------
// Lemmas relating the backing sequences to their map views.
// ---------------------------------------------------------------------------

/// The entry at a valid index of a duplicate-free sequence is what the map
/// holds under that entry's key.
pub proof fn lemma_bmap_at(s: Seq<BalanceEntry>, i: int)
    requires
        balances_unique(s),
        0 <= i < s.len(),
    ensures
        balances_map(s).dom().contains(bal_key(s[i])),
        balances_map(s)[bal_key(s[i])] == s[i].amount,
{
    let k = bal_key(s[i]);
    assert(has_bal(s, k));
    let j = bal_index_of(s, k);
    assert(0 <= j < s.len() && bal_key(s[j]) == k);
    assert(j == i);
}

/// Pushing an entry with a fresh key inserts it into the map view.
pub proof fn lemma_bmap_push(s: Seq<BalanceEntry>, e: BalanceEntry)
    requires
        balances_unique(s),
        !has_bal(s, bal_key(e)),
    ensures
        balances_unique(s.push(e)),
        balances_map(s.push(e)) == balances_map(s).insert(bal_key(e), e.amount),
{
    let s2 = s.push(e);
    let k0 = bal_key(e);
    assert forall|i: int, j: int|
        0 <= i < s2.len() && 0 <= j < s2.len() && #[trigger] bal_key(s2[i]) == #[trigger] bal_key(
            s2[j],
        ) implies i == j by {
        if i < s.len() && j < s.len() {
            assert(bal_key(s[i]) == bal_key(s[j]));
        } else if i < s.len() && j == s.len() {
            assert(bal_key(s[i]) == k0);
            assert(has_bal(s, k0));
        } else if i == s.len() && j < s.len() {
            assert(bal_key(s[j]) == k0);
            assert(has_bal(s, k0));
        }
    }
    assert(bal_key(s2[s.len() as int]) == k0);
    assert(has_bal(s2, k0));
    assert forall|k: AccountKey| has_bal(s, k) implies has_bal(s2, k) by {
        let i = bal_index_of(s, k);
        assert(bal_key(s2[i]) == k);
    }
    assert forall|k: AccountKey| has_bal(s2, k) && k != k0 implies has_bal(s, k) by {
        let i = bal_index_of(s2, k);
        assert(0 <= i < s2.len() && bal_key(s2[i]) == k);
        assert(i < s.len());
        assert(bal_key(s[i]) == k);
    }
    let m1 = balances_map(s2);
    let m2 = balances_map(s).insert(k0, e.amount);
    assert forall|k: AccountKey| #[trigger] m1.dom().contains(k) implies m2.dom().contains(k)
        && m1[k] == m2[k] by {
        let i = bal_index_of(s2, k);
        assert(0 <= i < s2.len() && bal_key(s2[i]) == k);
        if k == k0 {
            assert(i == s.len()) by {
                if i < s.len() {
                    assert(bal_key(s[i]) == k0);
                    assert(has_bal(s, k0));
                }
            }
            assert(m1[k] == e.amount);
        } else {
            assert(i < s.len());
            assert(bal_key(s[i]) == k);
            assert(has_bal(s, k));
            lemma_bmap_at(s, i);
            assert(m1[k] == s[i].amount);
        }
    }
    assert(m1 =~= m2);
}

/// Replacing the amount at a valid index updates the map view in place.
pub proof fn lemma_bmap_update(s: Seq<BalanceEntry>, i: int, e: BalanceEntry)
    requires
        balances_unique(s),
        0 <= i < s.len(),
        bal_key(e) == bal_key(s[i]),
    ensures
        balances_unique(s.update(i, e)),
        balances_map(s.update(i, e)) == balances_map(s).insert(bal_key(e), e.amount),
{
    let s2 = s.update(i, e);
    let k0 = bal_key(e);
    assert forall|j: int| 0 <= j < s2.len() implies #[trigger] bal_key(s2[j]) == bal_key(
        s[j],
    ) by {
        if j != i {
            assert(s2[j] == s[j]);
        }
    }
    assert forall|p: int, q: int|
        0 <= p < s2.len() && 0 <= q < s2.len() && #[trigger] bal_key(s2[p]) == #[trigger] bal_key(
            s2[q],
        ) implies p == q by {
        assert(bal_key(s[p]) == bal_key(s[q]));
    }
    assert forall|k: AccountKey| has_bal(s2, k) implies has_bal(s, k) by {
        let j = bal_index_of(s2, k);
        assert(bal_key(s[j]) == k);
    }
    assert forall|k: AccountKey| has_bal(s, k) implies has_bal(s2, k) by {
        let j = bal_index_of(s, k);
        assert(bal_key(s2[j]) == k);
    }
    let m1 = balances_map(s2);
    let m2 = balances_map(s).insert(k0, e.amount);
    assert(has_bal(s, k0)) by {
        assert(bal_key(s[i]) == k0);
    }
    assert forall|k: AccountKey| #[trigger] m1.dom().contains(k) implies m2.dom().contains(k)
        && m1[k] == m2[k] by {
        let j = bal_index_of(s2, k);
        assert(0 <= j < s2.len() && bal_key(s2[j]) == k);
        if k == k0 {
            assert(j == i) by {
                assert(bal_key(s2[i]) == k0);
            }
            assert(m1[k] == e.amount);
        } else {
            assert(j != i);
            assert(s2[j] == s[j]);
            lemma_bmap_at(s, j);
            assert(m1[k] == s[j].amount);
        }
    }
    assert(m1 =~= m2);
}

/// Swap-removing a valid index removes exactly that entry's key from the
/// map view.
pub proof fn lemma_bmap_swap_remove(s: Seq<BalanceEntry>, i: int)
    requires
        balances_unique(s),
        0 <= i < s.len(),
    ensures
        balances_unique(s.update(i, s.last()).drop_last()),
        balances_map(s.update(i, s.last()).drop_last()) == balances_map(s).remove(bal_key(s[i])),
{
    let s2 = s.update(i, s.last()).drop_last();
    let n = s.len() as int;
    let k0 = bal_key(s[i]);
    assert(s2.len() == n - 1);
    assert forall|j: int| 0 <= j < n - 1 implies #[trigger] s2[j] == (if j == i {
        s[n - 1]
    } else {
        s[j]
    }) by {}
    assert forall|p: int, q: int|
        0 <= p < s2.len() && 0 <= q < s2.len() && #[trigger] bal_key(s2[p]) == #[trigger] bal_key(
            s2[q],
        ) implies p == q by {
        let p0: int = if p == i {
            n - 1
        } else {
            p
        };
        let q0: int = if q == i {
            n - 1
        } else {
            q
        };
        assert(bal_key(s[p0]) == bal_key(s[q0]));
        assert(p0 == q0);
    }
    assert forall|k: AccountKey| has_bal(s2, k) implies has_bal(s, k) && k != k0 by {
        let j = bal_index_of(s2, k);
        let j0: int = if j == i {
            n - 1
        } else {
            j
        };
        assert(bal_key(s[j0]) == k);
        assert(has_bal(s, k));
        if k == k0 {
            assert(bal_key(s[j0]) == bal_key(s[i]));
            assert(j0 == i);
            assert(false);
        }
    }
    assert forall|k: AccountKey| has_bal(s, k) && k != k0 implies has_bal(s2, k) by {
        let j = bal_index_of(s, k);
        assert(0 <= j < n && bal_key(s[j]) == k);
        assert(j != i);
        if j == n - 1 {
            assert(i < n - 1);
            assert(bal_key(s2[i]) == k);
        } else {
            assert(bal_key(s2[j]) == k);
        }
    }
    let m1 = balances_map(s2);
    let m2 = balances_map(s).remove(k0);
    assert forall|k: AccountKey| #[trigger] m1.dom().contains(k) implies m2.dom().contains(k)
        && m1[k] == m2[k] by {
        let j = bal_index_of(s2, k);
        assert(0 <= j < s2.len() && bal_key(s2[j]) == k);
        let j0: int = if j == i {
            n - 1
        } else {
            j
        };
        assert(s2[j] == s[j0]);
        lemma_bmap_at(s, j0);
        assert(m1[k] == s[j0].amount);
    }
    assert(m1 =~= m2);
}

/// The record at a valid index of a duplicate-free sequence is what the map
/// holds under that record's key.
pub proof fn lemma_omap_at(s: Seq<Offer>, i: int)
    requires
        offers_unique(s),
        0 <= i < s.len(),
    ensures
        offers_map(s).dom().contains(offer_key(s[i])),
        offers_map(s)[offer_key(s[i])] == s[i],
{
    let k = offer_key(s[i]);
    assert(has_offer(s, k));
    let j = offer_index_of(s, k);
    assert(0 <= j < s.len() && offer_key(s[j]) == k);
    assert(j == i);
}

/// Pushing a record with a fresh key inserts it into the map view.
pub proof fn lemma_omap_push(s: Seq<Offer>, o: Offer)
    requires
        offers_unique(s),
        !has_offer(s, offer_key(o)),
    ensures
        offers_unique(s.push(o)),
        offers_map(s.push(o)) == offers_map(s).insert(offer_key(o), o),
{
    let s2 = s.push(o);
    let k0 = offer_key(o);
    assert forall|i: int, j: int|
        0 <= i < s2.len() && 0 <= j < s2.len() && #[trigger] offer_key(s2[i])
            == #[trigger] offer_key(s2[j]) implies i == j by {
        if i < s.len() && j < s.len() {
            assert(offer_key(s[i]) == offer_key(s[j]));
        } else if i < s.len() && j == s.len() {
            assert(offer_key(s[i]) == k0);
            assert(has_offer(s, k0));
        } else if i == s.len() && j < s.len() {
            assert(offer_key(s[j]) == k0);
            assert(has_offer(s, k0));
        }
    }
    assert(offer_key(s2[s.len() as int]) == k0);
    assert(has_offer(s2, k0));
    assert forall|k: OfferKey| has_offer(s, k) implies has_offer(s2, k) by {
        let i = offer_index_of(s, k);
        assert(offer_key(s2[i]) == k);
    }
    assert forall|k: OfferKey| has_offer(s2, k) && k != k0 implies has_offer(s, k) by {
        let i = offer_index_of(s2, k);
        assert(0 <= i < s2.len() && offer_key(s2[i]) == k);
        assert(i < s.len());
        assert(offer_key(s[i]) == k);
    }
    let m1 = offers_map(s2);
    let m2 = offers_map(s).insert(k0, o);
    assert forall|k: OfferKey| #[trigger] m1.dom().contains(k) implies m2.dom().contains(k)
        && m1[k] == m2[k] by {
        let i = offer_index_of(s2, k);
        assert(0 <= i < s2.len() && offer_key(s2[i]) == k);
        if k == k0 {
            assert(i == s.len()) by {
                if i < s.len() {
                    assert(offer_key(s[i]) == k0);
                    assert(has_offer(s, k0));
                }
            }
            assert(m1[k] == o);
        } else {
            assert(i < s.len());
            assert(offer_key(s[i]) == k);
            assert(has_offer(s, k));
            lemma_omap_at(s, i);
            assert(m1[k] == s[i]);
        }
    }
    assert(m1 =~= m2);
}

/// Swap-removing a valid index removes exactly that record's key from the
/// map view.
pub proof fn lemma_omap_swap_remove(s: Seq<Offer>, i: int)
    requires
        offers_unique(s),
        0 <= i < s.len(),
    ensures
        offers_unique(s.update(i, s.last()).drop_last()),
        offers_map(s.update(i, s.last()).drop_last()) == offers_map(s).remove(offer_key(s[i])),
{
    let s2 = s.update(i, s.last()).drop_last();
    let n = s.len() as int;
    let k0 = offer_key(s[i]);
    assert(s2.len() == n - 1);
    assert forall|j: int| 0 <= j < n - 1 implies #[trigger] s2[j] == (if j == i {
        s[n - 1]
    } else {
        s[j]
    }) by {}
    assert forall|p: int, q: int|
        0 <= p < s2.len() && 0 <= q < s2.len() && #[trigger] offer_key(s2[p])
            == #[trigger] offer_key(s2[q]) implies p == q by {
        let p0: int = if p == i {
            n - 1
        } else {
            p
        };
        let q0: int = if q == i {
            n - 1
        } else {
            q
        };
        assert(offer_key(s[p0]) == offer_key(s[q0]));
        assert(p0 == q0);
    }
    assert forall|k: OfferKey| has_offer(s2, k) implies has_offer(s, k) && k != k0 by {
        let j = offer_index_of(s2, k);
        let j0: int = if j == i {
            n - 1
        } else {
            j
        };
        assert(offer_key(s[j0]) == k);
        assert(has_offer(s, k));
        if k == k0 {
            assert(offer_key(s[j0]) == offer_key(s[i]));
            assert(j0 == i);
            assert(false);
        }
    }
    assert forall|k: OfferKey| has_offer(s, k) && k != k0 implies has_offer(s2, k) by {
        let j = offer_index_of(s, k);
        assert(0 <= j < n && offer_key(s[j]) == k);
        assert(j != i);
        if j == n - 1 {
            assert(i < n - 1);
            assert(offer_key(s2[i]) == k);
        } else {
            assert(offer_key(s2[j]) == k);
        }
    }
    let m1 = offers_map(s2);
    let m2 = offers_map(s).remove(k0);
    assert forall|k: OfferKey| #[trigger] m1.dom().contains(k) implies m2.dom().contains(k)
        && m1[k] == m2[k] by {
        let j = offer_index_of(s2, k);
        assert(0 <= j < s2.len() && offer_key(s2[j]) == k);
        let j0: int = if j == i {
            n - 1
        } else {
            j
        };
        assert(s2[j] == s[j0]);
        lemma_omap_at(s, j0);
        assert(m1[k] == s[j0]);
    }
    assert(m1 =~= m2);
}

// ---------------------------------------------------------------------------
// The ledger.
// ---------------------------------------------------------------------------

/// The escrow's state: all existing accounts and all outstanding offers.
pub struct Ledger {
    pub(crate) balances: Vec<BalanceEntry>,
    pub(crate) offers: Vec<Offer>,
}

impl View for Ledger {
    type V = LedgerView;

    open(crate) spec fn view(&self) -> LedgerView {
        LedgerView { balances: balances_map(self.balances@), offers: offers_map(self.offers@) }
    }
}

impl Ledger {
    /// The backing stores hold no duplicate keys.
    pub open(crate) spec fn keys_unique(&self) -> bool {
        balances_unique(self.balances@) && offers_unique(self.offers@)
    }

    /// A well-formed ledger: duplicate-free stores whose offer records and
    /// custody accounts satisfy the record/custody invariant.
    pub open spec fn wf(&self) -> bool {
        self.keys_unique() && linked(self@)
    }

    /// An empty ledger: no accounts, no offers.
    pub fn new() -> (r: Ledger)
        ensures
            r.wf(),
            r@.balances == Map::<AccountKey, u64>::empty(),
            r@.offers == Map::<OfferKey, Offer>::empty(),
    {
        let r = Ledger { balances: Vec::new(), offers: Vec::new() };
        proof {
            assert(r@.balances =~= Map::<AccountKey, u64>::empty());
            assert(r@.offers =~= Map::<OfferKey, Offer>::empty());
        }
        r
    }

    /// The index of the account with the given key, where one exists.
    pub(crate) fn find_balance(&self, owner: Controller, asset: u64) -> (r: Option<usize>)
        ensures
            match r {
                Some(i) => i < self.balances@.len() && bal_key(self.balances@[i as int]) == (
                owner,
                asset,
                ),
                None => !has_bal(self.balances@, (owner, asset)),
            },
    {
        let mut i: usize = 0;
        while i < self.balances.len()
            invariant
                i <= self.balances@.len(),
                forall|j: int| 0 <= j < i ==> #[trigger] bal_key(self.balances@[j]) != (
                    owner,
                    asset,
                ),
            decreases self.balances@.len() - i,
        {
            let e = self.balances[i];
            if e.owner == owner && e.asset == asset {
                return Some(i);
            }
            i = i + 1;
        }
        None
    }

    /// The index of the offer record with the given key, where one exists.
    pub(crate) fn find_offer_index(&self, maker: u64, id: u64) -> (r: Option<usize>)
        ensures
            match r {
                Some(i) => i < self.offers@.len() && offer_key(self.offers@[i as int]) == (
                maker,
                id,
                ),
                None => !has_offer(self.offers@, (maker, id)),
            },
    {
        let mut i: usize = 0;
        while i < self.offers.len()
            invariant
                i <= self.offers@.len(),
                forall|j: int| 0 <= j < i ==> #[trigger] offer_key(self.offers@[j]) != (maker, id),
            decreases self.offers@.len() - i,
        {
            let o = self.offers[i];
            if o.maker == maker && o.id == id {
                return Some(i);
            }
            i = i + 1;
        }
        None
    }

    /// Whether an account with the given controller and asset exists.
    pub fn has_account(&self, owner: Controller, asset: u64) -> (r: bool)
        requires
            self.keys_unique(),
        ensures
            r == self@.balances.dom().contains((owner, asset)),
    {
        self.find_balance(owner, asset).is_some()
    }

    /// The balance of an account; a missing account holds zero.
    pub fn balance_of(&self, owner: Controller, asset: u64) -> (r: u64)
        requires
            self.keys_unique(),
        ensures
            r == spec_balance(self@, owner, asset),
    {
        match self.find_balance(owner, asset) {
            Some(i) => {
                proof {
                    lemma_bmap_at(self.balances@, i as int);
                }
                self.balances[i].amount
            },
            None => 0,
        }
    }

    /// The offer record stored under (maker, id), where one exists.
    pub fn get_offer(&self, maker: u64, id: u64) -> (r: Option<Offer>)
        requires
            self.keys_unique(),
        ensures
            match r {
                Some(o) => self@.offers.dom().contains((maker, id)) && o == self@.offers[(
                    maker,
                    id,
                )],
                None => !self@.offers.dom().contains((maker, id)),
            },
    {
        match self.find_offer_index(maker, id) {
            Some(i) => {
                proof {
                    lemma_omap_at(self.offers@, i as int);
                }
                Some(self.offers[i])
            },
            None => None,
        }
    }

    /// Credits freshly issued units of `asset` to a user's account, creating
    /// the account when it does not exist.  This is how balances enter the
    /// model; it never touches custody accounts or offers.
    pub fn deposit(&mut self, user: u64, asset: u64, amount: u64) -> (r: Result<(), TransferError>)
        requires
            old(self).wf(),
        ensures
            final(self).wf(),
            (match r {
                Ok(()) => {
                    &&& spec_balance(old(self)@, Controller::User(user), asset) + amount
                        <= u64::MAX
                    &&& final(self)@.offers == old(self)@.offers
                    &&& final(self)@.balances == old(self)@.balances.insert(
                        (Controller::User(user), asset),
                        (spec_balance(old(self)@, Controller::User(user), asset) + amount) as u64,
                    )
                },
                Err(e) => {
                    &&& e == TransferError::Overflow
                    &&& spec_balance(old(self)@, Controller::User(user), asset) + amount
                        > u64::MAX
                    &&& final(self)@ == old(self)@
                },
            }),
    {
        let owner = Controller::User(user);
        match self.find_balance(owner, asset) {
            Some(i) => {
                proof {
                    lemma_bmap_at(self.balances@, i as int);
                }
                let held = self.balances[i].amount;
                if held > u64::MAX - amount {
                    return Err(TransferError::Overflow);
                }
                let ghost old_entries = self.balances@;
                let e = balance_entry_mut(&mut self.balances, i);
                let updated = BalanceEntry { owner: e.owner, asset: e.asset, amount: held + amount };
                *e = updated;
                proof {
                    lemma_bmap_update(old_entries, i as int, updated);
                    assert(linked(self@)) by {
                        lemma_linked_user_balance_change(
                            LedgerView {
                                balances: balances_map(old_entries),
                                offers: self@.offers,
                            },
                            self@,
                            user,
                            asset,
                        );
                    }
                }
                Ok(())
            },
            None => {
                let entry = BalanceEntry { owner, asset, amount };
                proof {
                    lemma_bmap_push(self.balances@, entry);
                }
                self.balances.push(entry);
                proof {
                    assert(linked(self@)) by {
                        lemma_linked_user_balance_change(
                            LedgerView {
                                balances: old(self)@.balances,
                                offers: self@.offers,
                            },
                            self@,
                            user,
                            asset,
                        );
                    }
                }
                Ok(())
            },
        }
    }

    /// A deep copy of the ledger, equal to it entry for entry.
    pub(crate) fn snapshot(&self) -> (r: Ledger)
        ensures
            r.balances@ == self.balances@,
            r.offers@ == self.offers@,
            r@ == self@,
    {
        let mut balances: Vec<BalanceEntry> = Vec::new();
        let mut i: usize = 0;
        while i < self.balances.len()
            invariant
                i <= self.balances@.len(),
                balances@ == self.balances@.subrange(0, i as int),
            decreases self.balances@.len() - i,
        {
            balances.push(self.balances[i]);
            proof {
                assert(balances@ =~= self.balances@.subrange(0, i + 1));
            }
            i = i + 1;
        }
        let mut offers: Vec<Offer> = Vec::new();
        let mut j: usize = 0;
        while j < self.offers.len()
            invariant
                j <= self.offers@.len(),
                offers@ == self.offers@.subrange(0, j as int),
            decreases self.offers@.len() - j,
        {
            offers.push(self.offers[j]);
            proof {
                assert(offers@ =~= self.offers@.subrange(0, j + 1));
            }
            j = j + 1;
        }
        proof {
            assert(balances@ =~= self.balances@);
            assert(offers@ =~= self.offers@);
        }
        Ledger { balances, offers }
    }
}

/// A mutable borrow of one balance entry.
pub(crate) fn balance_entry_mut(v: &mut Vec<BalanceEntry>, i: usize) -> (e: &mut BalanceEntry)
    requires
        i < old(v).len(),
    ensures
        *e == old(v)@[i as int],
        final(v)@ == old(v)@.update(i as int, *final(e)),
{
    &mut v[i]
}

/// Changing only user-account balances, without creating or destroying any
/// derived-authority account, preserves the record/custody invariant.
pub proof fn lemma_linked_user_balance_change(l1: LedgerView, l2: LedgerView, user: u64, asset: u64)
    requires
        linked(l1),
        l2.offers == l1.offers,
        l2.balances.dom() =~= l1.balances.dom().insert((Controller::User(user), asset)),
    ensures
        linked(l2),
{
    assert forall|k: OfferKey| #[trigger] l2.offers.dom().contains(k) implies {
        let o = l2.offers[k];
        &&& o.maker == k.0
        &&& o.id == k.1
        &&& l2.balances.dom().contains(custody_key(o))
    } by {
        assert(l1.offers.dom().contains(k));
        assert(l1.balances.dom().contains(custody_key(l1.offers[k])));
    }
}

} // verus!
