//! The make-offer handler: creates an offer record and its custody account,
//! and moves the offered amount of asset A into custody, as one atomic unit.

use vstd::prelude::*;

use crate::authority::OFFER_NAMESPACE;
use crate::authority::spec_authority;
use crate::authority::spec_derive_authority;
use crate::authority::derive_authority;
use crate::error::ErrorCode;
use crate::state::BalanceEntry;
use crate::state::Controller;
use crate::state::Ledger;
use crate::state::LedgerView;
use crate::state::Offer;
use crate::state::custody_key;
use crate::state::has_bal;
use crate::state::has_offer;
use crate::state::lemma_bmap_push;
use crate::state::lemma_omap_push;
use crate::state::linked;
use crate::state::spec_balance;
use crate::transfer::Authorization;
use crate::transfer::transfer_tokens;

verus! {

/// The accounts a maker supplies when creating an offer: its own identity
/// and the type descriptors of the offered and wanted assets.
#[derive(Clone, Copy, Debug, PartialEq, Eq, Structural)]
pub struct MakeOffer {
    pub maker: u64,
    pub asset_a: u64,
    pub asset_b: u64,
}

/// What making an offer does: unless the (maker, id) key is taken, the
/// offered amount is zero, or the maker cannot fund the deposit, it creates
/// the offer record and a custody account controlled by the derived
/// authority, funded with the offered amount from the maker's account.
pub open spec fn spec_make_offer(
    l: LedgerView,
    ctx: MakeOffer,
    id: u64,
    amount_a_offered: u64,
    amount_b_wanted: u64,
) -> Result<LedgerView, ErrorCode> {
    let key = (ctx.maker, id);
    let maker_bal = spec_balance(l, Controller::User(ctx.maker), ctx.asset_a);
    if l.offers.dom().contains(key) {
        Err(ErrorCode::DuplicateOffer)
    } else if amount_a_offered == 0 {
        Err(ErrorCode::InvalidAmount)
    } else if maker_bal < amount_a_offered {
        Err(ErrorCode::InsufficientMakerBalance)
    } else {
        let derived = spec_derive_authority(OFFER_NAMESPACE, ctx.maker, id);
        let offer = Offer {
            id,
            maker: ctx.maker,
            asset_a: ctx.asset_a,
            asset_b: ctx.asset_b,
            amount_b_wanted,
            authority_salt: derived.1,
        };
        Ok(
            LedgerView {
                balances: l.balances.insert(
                    (Controller::User(ctx.maker), ctx.asset_a),
                    (maker_bal - amount_a_offered) as u64,
                ).insert((Controller::Derived(derived.0), ctx.asset_a), amount_a_offered),
                offers: l.offers.insert(key, offer),
            },
        )
    }
}

/// Creates the offer record and its funded custody account, or fails with
/// no observable effect: duplicate (maker, id), a zero offered amount, and
/// an underfunded maker are rejected before any state is created.
pub fn make_offer_handler(
    ledger: &mut Ledger,
    ctx: MakeOffer,
    id: u64,
    amount_a_offered: u64,
    amount_b_wanted: u64,
) -> (r: Result<(), ErrorCode>)
    requires
        old(ledger).wf(),
    ensures
        final(ledger).wf(),
        (match r {
            Ok(()) => spec_make_offer(old(ledger)@, ctx, id, amount_a_offered, amount_b_wanted)
                == Ok::<LedgerView, ErrorCode>(final(ledger)@),
            Err(e) => spec_make_offer(old(ledger)@, ctx, id, amount_a_offered, amount_b_wanted)
                == Err::<LedgerView, ErrorCode>(e) && final(ledger)@ == old(ledger)@,
        }),
{
    let ghost l0 = ledger@;
    if ledger.find_offer_index(ctx.maker, id).is_some() {
        return Err(ErrorCode::DuplicateOffer);
    }
    if amount_a_offered == 0 {
        return Err(ErrorCode::InvalidAmount);
    }
    let maker_owner = Controller::User(ctx.maker);
    let maker_bal = ledger.balance_of(maker_owner, ctx.asset_a);
    if maker_bal < amount_a_offered {
        return Err(ErrorCode::InsufficientMakerBalance);
    }
    let derived = derive_authority(OFFER_NAMESPACE, ctx.maker, id);
    let custody = Controller::Derived(derived.0);
    let offer = Offer {
        id,
        maker: ctx.maker,
        asset_a: ctx.asset_a,
        asset_b: ctx.asset_b,
        amount_b_wanted,
        authority_salt: derived.1,
    };
    // The custody account's key is fresh: by the record/custody invariant a
    // derived-authority account exists only together with its offer record,
    // and the duplicate check just ruled that record out.
    proof {
        if ledger@.balances.dom().contains((custody, ctx.asset_a)) {
            assert(l0.offers.dom().contains((ctx.maker, id)));
            assert(false);
        }
        assert(!has_bal(ledger.balances@, (custody, ctx.asset_a)));
        assert(!has_offer(ledger.offers@, (ctx.maker, id)));
        lemma_omap_push(ledger.offers@, offer);
        lemma_bmap_push(
            ledger.balances@,
            BalanceEntry { owner: custody, asset: ctx.asset_a, amount: 0 },
        );
    }
    // Create the offer record and the custody account, empty for now.
    ledger.offers.push(offer);
    ledger.balances.push(BalanceEntry { owner: custody, asset: ctx.asset_a, amount: 0 });
    let ghost mid = ledger@;
    // Fund the custody account from the maker's account, authorized directly
    // by the maker; no derived signature is needed for deposits.
    let moved = transfer_tokens(
        ledger,
        maker_owner,
        custody,
        ctx.asset_a,
        amount_a_offered,
        Authorization::Signer(ctx.maker),
    );
    match moved {
        Err(_) => {
            // The maker's funds and the fresh custody account were checked
            // above, so the deposit cannot fail.
            proof {
                assert(spec_balance(mid, maker_owner, ctx.asset_a) == maker_bal);
                assert(false);
            }
            Err(ErrorCode::InsufficientMakerBalance)
        },
        Ok(()) => {
            proof {
                let expected = LedgerView {
                    balances: l0.balances.insert(
                        (maker_owner, ctx.asset_a),
                        (maker_bal - amount_a_offered) as u64,
                    ).insert((custody, ctx.asset_a), amount_a_offered),
                    offers: l0.offers.insert((ctx.maker, id), offer),
                };
                assert(spec_balance(mid, maker_owner, ctx.asset_a) == maker_bal);
                assert(l0.balances.dom().contains((maker_owner, ctx.asset_a)));
                assert(ledger@.balances =~= expected.balances);
                assert(ledger@.offers =~= expected.offers);
                assert(ledger@ =~= expected);
                lemma_make_linked(l0, ctx, id, amount_a_offered, amount_b_wanted);
            }
            Ok(())
        },
    }
}

/// Making an offer preserves the record/custody invariant: the new record
/// and its custody account appear together, and every other record keeps
/// its custody account.
proof fn lemma_make_linked(
    l: LedgerView,
    ctx: MakeOffer,
    id: u64,
    amount_a_offered: u64,
    amount_b_wanted: u64,
)
    requires
        linked(l),
        spec_make_offer(l, ctx, id, amount_a_offered, amount_b_wanted) is Ok,
    ensures
        linked(spec_make_offer(l, ctx, id, amount_a_offered, amount_b_wanted)->Ok_0),
{
    let l2 = spec_make_offer(l, ctx, id, amount_a_offered, amount_b_wanted)->Ok_0;
    let key = (ctx.maker, id);
    let derived = spec_derive_authority(OFFER_NAMESPACE, ctx.maker, id);
    let custody = Controller::Derived(derived.0);
    let ck = (custody, ctx.asset_a);
    assert forall|k: (u64, u64)| #[trigger] l2.offers.dom().contains(k) implies {
        let o = l2.offers[k];
        &&& o.maker == k.0
        &&& o.id == k.1
        &&& l2.balances.dom().contains(custody_key(o))
    } by {
        if k != key {
            assert(l.offers.dom().contains(k));
            assert(l.balances.dom().contains(custody_key(l.offers[k])));
        }
    }
    assert forall|bk: (Controller, u64)| #[trigger] l2.balances.dom().contains(bk) implies match bk.0 {
        Controller::User(_) => true,
        Controller::Derived(a) => {
            &&& a.namespace == OFFER_NAMESPACE
            &&& l2.offers.dom().contains((a.maker, a.id))
            &&& a.salt == l2.offers[(a.maker, a.id)].authority_salt
            &&& bk.1 == l2.offers[(a.maker, a.id)].asset_a
        },
    } by {
        if bk != ck && bk != (Controller::User(ctx.maker), ctx.asset_a) {
            assert(l.balances.dom().contains(bk));
            match bk.0 {
                Controller::User(_) => {},
                Controller::Derived(a) => {
                    assert(l.offers.dom().contains((a.maker, a.id)));
                    assert((a.maker, a.id) != key);
                },
            }
        }
    }
}

/// Conservation: a successful make moves exactly the offered amount of
/// asset A from the maker's account into the fresh custody account, leaving
/// their total unchanged.  (A failed make changes nothing: the handler's
/// contract pins the ledger to its old value on every error.)
pub proof fn lemma_make_conserves(
    l: LedgerView,
    ctx: MakeOffer,
    id: u64,
    amount_a_offered: u64,
    amount_b_wanted: u64,
    made: LedgerView,
)
    requires
        linked(l),
        spec_make_offer(l, ctx, id, amount_a_offered, amount_b_wanted) == Ok::<
            LedgerView,
            ErrorCode,
        >(made),
    ensures
        ({
            let custody = Controller::Derived(
                spec_derive_authority(OFFER_NAMESPACE, ctx.maker, id).0,
            );
            let maker = Controller::User(ctx.maker);
            &&& spec_balance(made, custody, ctx.asset_a) == amount_a_offered
            &&& spec_balance(made, maker, ctx.asset_a) + amount_a_offered == spec_balance(
                l,
                maker,
                ctx.asset_a,
            )
            &&& spec_balance(made, maker, ctx.asset_a) + spec_balance(made, custody, ctx.asset_a)
                == spec_balance(l, maker, ctx.asset_a) + spec_balance(l, custody, ctx.asset_a)
        }),
{
    let custody = Controller::Derived(spec_derive_authority(OFFER_NAMESPACE, ctx.maker, id).0);
    let maker = Controller::User(ctx.maker);
    let ck = (custody, ctx.asset_a);
    // The custody account was fresh: a derived-authority account exists only
    // together with its record, and the (maker, id) record did not exist.
    if l.balances.dom().contains(ck) {
        assert(l.offers.dom().contains((ctx.maker, id)));
        assert(false);
    }
    assert(spec_balance(l, custody, ctx.asset_a) == 0);
}

} // verus!
