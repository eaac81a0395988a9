//! The take-offer handler: validates the caller's accounts against the offer
//! record, settles the swap in three legs, and tears down the custody account
//! and the record, all as one indivisible unit of work.

use vstd::prelude::*;

use crate::authority::OFFER_NAMESPACE;
use crate::authority::rederive_authority;
use crate::authority::spec_authority;
use crate::error::ErrorCode;
use crate::state::Controller;
use crate::state::Ledger;
use crate::state::LedgerView;
use crate::state::custody_key;
use crate::state::has_offer;
use crate::state::lemma_omap_at;
use crate::state::lemma_omap_swap_remove;
use crate::state::linked;
use crate::state::spec_balance;
use crate::transfer::Authorization;
use crate::transfer::close_token_account;
use crate::transfer::spec_close;
use crate::transfer::spec_transfer;
use crate::transfer::transfer_tokens;

verus! {

/// The accounts a taker supplies: its own identity, the (maker, id) key
/// locating the offer, and the type descriptors of the two assets, which
/// must match the record's terms.
#[derive(Clone, Copy, Debug, PartialEq, Eq, Structural)]
pub struct TakeOffer {
    pub taker: u64,
    pub maker: u64,
    pub id: u64,
    pub asset_a: u64,
    pub asset_b: u64,
}

/// What taking an offer does, leg by leg, each depending on the prior step:
/// after the record is located and the supplied accounts and the re-derived
/// custody authority are validated, leg 1 drains the entire current custody
/// balance of asset A to the taker under the derived authority's signature,
/// leg 2 closes the now-empty custody account, and leg 3 moves the wanted
/// amount of asset B from the taker to the maker under the taker's own
/// signature; the record is then destroyed in the same unit.  The first
/// failing leg aborts the whole operation with its own error code.
pub open spec fn spec_take_offer(l: LedgerView, ctx: TakeOffer) -> Result<LedgerView, ErrorCode> {
    let key = (ctx.maker, ctx.id);
    if !l.offers.dom().contains(key) {
        Err(ErrorCode::OfferNotFound)
    } else {
        let o = l.offers[key];
        let auth = spec_authority(OFFER_NAMESPACE, o.maker, o.id, o.authority_salt);
        let custody = Controller::Derived(auth);
        if o.maker != ctx.maker || o.id != ctx.id || o.asset_a != ctx.asset_a || o.asset_b
            != ctx.asset_b {
            Err(ErrorCode::AccountMismatch)
        } else if !l.balances.dom().contains((custody, o.asset_a)) {
            Err(ErrorCode::AccountMismatch)
        } else {
            let vault_amount = l.balances[(custody, o.asset_a)];
            match spec_transfer(
                l,
                custody,
                Controller::User(ctx.taker),
                o.asset_a,
                vault_amount,
                Authorization::Derived(auth),
            ) {
                Err(_) => Err(ErrorCode::FailedVaultWithdrawal),
                Ok(l1) => match spec_close(l1, custody, o.asset_a, Authorization::Derived(auth)) {
                    Err(_) => Err(ErrorCode::FailedVaultClosure),
                    Ok(l2) => match spec_transfer(
                        l2,
                        Controller::User(ctx.taker),
                        Controller::User(ctx.maker),
                        o.asset_b,
                        o.amount_b_wanted,
                        Authorization::Signer(ctx.taker),
                    ) {
                        Err(_) => Err(ErrorCode::InsufficientTakerBalance),
                        Ok(l3) => Ok(
                            LedgerView { balances: l3.balances, offers: l3.offers.remove(key) },
                        ),
                    },
                },
            }
        }
    }
}

/// Settles the swap located by (maker, id) for the taker, or fails with no
/// observable effect.  Either all three legs and the two destructions
/// complete, or the ledger is exactly as it was.
pub fn take_offer_handler(ledger: &mut Ledger, ctx: TakeOffer) -> (r: Result<(), ErrorCode>)
    requires
        old(ledger).wf(),
    ensures
        final(ledger).wf(),
        (match r {
            Ok(()) => spec_take_offer(old(ledger)@, ctx) == Ok::<LedgerView, ErrorCode>(
                final(ledger)@,
            ),
            Err(e) => spec_take_offer(old(ledger)@, ctx) == Err::<LedgerView, ErrorCode>(e)
                && final(ledger)@ == old(ledger)@,
        }),
{
    let ghost l0 = ledger@;
    let offer = match ledger.get_offer(ctx.maker, ctx.id) {
        None => {
            return Err(ErrorCode::OfferNotFound);
        },
        Some(o) => o,
    };
    // The supplied accounts must match the record's terms.
    if offer.maker != ctx.maker || offer.id != ctx.id || offer.asset_a != ctx.asset_a
        || offer.asset_b != ctx.asset_b {
        return Err(ErrorCode::AccountMismatch);
    }
    // Re-derive the custody authority from the record's own fields; the
    // custody account's recorded controller must be exactly this identifier.
    let auth = rederive_authority(OFFER_NAMESPACE, offer.maker, offer.id, offer.authority_salt);
    let custody = Controller::Derived(auth);
    if !ledger.has_account(custody, offer.asset_a) {
        return Err(ErrorCode::AccountMismatch);
    }
    // All legs run on a working copy; the ledger itself changes only when
    // the whole unit has succeeded.
    let mut work = ledger.snapshot();
    let vault_amount = work.balance_of(custody, offer.asset_a);
    // Leg 1: drain the entire current custody balance to the taker, signed
    // by the re-derived custody authority, not by the taker.
    match transfer_tokens(
        &mut work,
        custody,
        Controller::User(ctx.taker),
        offer.asset_a,
        vault_amount,
        Authorization::Derived(auth),
    ) {
        Err(_) => {
            return Err(ErrorCode::FailedVaultWithdrawal);
        },
        Ok(()) => {},
    }
    // Leg 2: tear down the now-empty custody account.
    match close_token_account(&mut work, custody, offer.asset_a, Authorization::Derived(auth)) {
        Err(_) => {
            return Err(ErrorCode::FailedVaultClosure);
        },
        Ok(()) => {},
    }
    // Leg 3: the taker pays the maker exactly the wanted amount of asset B,
    // signed directly by the taker.
    match transfer_tokens(
        &mut work,
        Controller::User(ctx.taker),
        Controller::User(ctx.maker),
        offer.asset_b,
        offer.amount_b_wanted,
        Authorization::Signer(ctx.taker),
    ) {
        Err(_) => {
            return Err(ErrorCode::InsufficientTakerBalance);
        },
        Ok(()) => {},
    }
    // Destroy the offer record within the same unit of work.
    proof {
        assert(work@.offers.dom().contains((ctx.maker, ctx.id)));
        assert(has_offer(work.offers@, (ctx.maker, ctx.id)));
    }
    let idx = match work.find_offer_index(ctx.maker, ctx.id) {
        Some(i) => i,
        None => {
            proof {
                assert(false);
            }
            return Err(ErrorCode::OfferNotFound);
        },
    };
    proof {
        lemma_omap_at(work.offers@, idx as int);
        lemma_omap_swap_remove(work.offers@, idx as int);
    }
    work.offers.swap_remove(idx);
    proof {
        assert(spec_take_offer(l0, ctx) == Ok::<LedgerView, ErrorCode>(work@)) by {
            assert(work@ =~= spec_take_offer(l0, ctx)->Ok_0);
        }
        lemma_take_linked(l0, ctx);
    }
    *ledger = work;
    Ok(())
}

/// Taking an offer preserves the record/custody invariant: the taken record
/// and its custody account vanish together, every other record keeps its
/// custody account, and no derived-authority account appears.
proof fn lemma_take_linked(l: LedgerView, ctx: TakeOffer)
    requires
        linked(l),
        spec_take_offer(l, ctx) is Ok,
    ensures
        linked(spec_take_offer(l, ctx)->Ok_0),
{
    let l9 = spec_take_offer(l, ctx)->Ok_0;
    let key = (ctx.maker, ctx.id);
    let o = l.offers[key];
    let auth = spec_authority(OFFER_NAMESPACE, o.maker, o.id, o.authority_salt);
    let custody = Controller::Derived(auth);
    let ck = (custody, o.asset_a);
    assert forall|k: (u64, u64)| #[trigger] l9.offers.dom().contains(k) implies {
        let oo = l9.offers[k];
        &&& oo.maker == k.0
        &&& oo.id == k.1
        &&& l9.balances.dom().contains(custody_key(oo))
    } by {
        assert(k != key);
        assert(l.offers.dom().contains(k));
        let oo = l.offers[k];
        assert(l.balances.dom().contains(custody_key(oo)));
        assert(oo.maker == k.0 && oo.id == k.1);
        assert(o.maker == key.0 && o.id == key.1);
        assert(custody_key(oo) != ck);
    }
    assert forall|bk: (Controller, u64)| #[trigger] l9.balances.dom().contains(bk) implies match bk.0 {
        Controller::User(_) => true,
        Controller::Derived(a) => {
            &&& a.namespace == OFFER_NAMESPACE
            &&& l9.offers.dom().contains((a.maker, a.id))
            &&& a.salt == l9.offers[(a.maker, a.id)].authority_salt
            &&& bk.1 == l9.offers[(a.maker, a.id)].asset_a
        },
    } by {
        match bk.0 {
            Controller::User(_) => {},
            Controller::Derived(a) => {
                assert(bk != ck);
                assert(l.balances.dom().contains(bk));
                assert(l.offers.dom().contains((a.maker, a.id)));
                if (a.maker, a.id) == key {
                    assert(a == auth);
                    assert(bk.1 == o.asset_a);
                    assert(false);
                }
            },
        }
    }
}

/// Exactly-once take: once a take has succeeded, a second attempt against
/// the same (maker, id) fails as not-found — the record is gone, so it can
/// neither succeed nor move funds again.
pub proof fn lemma_take_exactly_once(l: LedgerView, ctx: TakeOffer, taken: LedgerView, again: TakeOffer)
    requires
        spec_take_offer(l, ctx) == Ok::<LedgerView, ErrorCode>(taken),
        again.maker == ctx.maker,
        again.id == ctx.id,
    ensures
        spec_take_offer(taken, again) == Err::<LedgerView, ErrorCode>(ErrorCode::OfferNotFound),
{
}

/// Atomicity of a successful take, stated exactly: the taker's asset-A
/// balance grows by the entire custody balance, the maker's asset-B balance
/// grows by exactly the wanted amount, and the custody account and the offer
/// record no longer exist.  (A failed take changes nothing: the handler's
/// contract pins the ledger to its old value on every error.)
pub proof fn lemma_take_atomic(l: LedgerView, ctx: TakeOffer, taken: LedgerView)
    requires
        ctx.taker != ctx.maker,
        ctx.asset_a != ctx.asset_b,
        spec_take_offer(l, ctx) == Ok::<LedgerView, ErrorCode>(taken),
    ensures
        spec_balance(taken, Controller::User(ctx.taker), ctx.asset_a) == spec_balance(
            l,
            Controller::User(ctx.taker),
            ctx.asset_a,
        ) + spec_balance(l, Controller::Derived(spec_authority(OFFER_NAMESPACE, ctx.maker, ctx.id, l.offers[(ctx.maker, ctx.id)].authority_salt)), ctx.asset_a),
        spec_balance(taken, Controller::User(ctx.maker), ctx.asset_b) == spec_balance(
            l,
            Controller::User(ctx.maker),
            ctx.asset_b,
        ) + l.offers[(ctx.maker, ctx.id)].amount_b_wanted,
        !taken.balances.dom().contains(custody_key(l.offers[(ctx.maker, ctx.id)])),
        !taken.offers.dom().contains((ctx.maker, ctx.id)),
{
    let o = l.offers[(ctx.maker, ctx.id)];
    assert(o.maker == ctx.maker && o.id == ctx.id && o.asset_a == ctx.asset_a && o.asset_b
        == ctx.asset_b);
    lemma_take_balances(l, ctx, taken);
}

/// Conservation: a successful take leaves the total of asset A over the
/// taker, the maker and the custody account unchanged, and the total of
/// asset B over the taker and the maker unchanged; a failed take changes no
/// balance at all (the handler's contract pins the ledger to its old value).
pub proof fn lemma_take_conserves(l: LedgerView, ctx: TakeOffer, taken: LedgerView)
    requires
        ctx.taker != ctx.maker,
        ctx.asset_a != ctx.asset_b,
        spec_take_offer(l, ctx) == Ok::<LedgerView, ErrorCode>(taken),
    ensures
        ({
            let custody = Controller::Derived(
                spec_authority(OFFER_NAMESPACE, ctx.maker, ctx.id, l.offers[(ctx.maker, ctx.id)].authority_salt),
            );
            &&& spec_balance(taken, Controller::User(ctx.taker), ctx.asset_a) + spec_balance(
                taken,
                Controller::User(ctx.maker),
                ctx.asset_a,
            ) + spec_balance(taken, custody, ctx.asset_a) == spec_balance(
                l,
                Controller::User(ctx.taker),
                ctx.asset_a,
            ) + spec_balance(l, Controller::User(ctx.maker), ctx.asset_a) + spec_balance(
                l,
                custody,
                ctx.asset_a,
            )
            &&& spec_balance(taken, Controller::User(ctx.taker), ctx.asset_b) + spec_balance(
                taken,
                Controller::User(ctx.maker),
                ctx.asset_b,
            ) == spec_balance(l, Controller::User(ctx.taker), ctx.asset_b) + spec_balance(
                l,
                Controller::User(ctx.maker),
                ctx.asset_b,
            )
        }),
{
    let o = l.offers[(ctx.maker, ctx.id)];
    assert(o.maker == ctx.maker && o.id == ctx.id && o.asset_a == ctx.asset_a && o.asset_b
        == ctx.asset_b);
    lemma_take_balances(l, ctx, taken);
}

/// Walks a successful take leg by leg and characterizes every balance the
/// settlement touches.
proof fn lemma_take_balances(l: LedgerView, ctx: TakeOffer, taken: LedgerView)
    requires
        ctx.taker != ctx.maker,
        ctx.asset_a != ctx.asset_b,
        spec_take_offer(l, ctx) == Ok::<LedgerView, ErrorCode>(taken),
    ensures
        ({
            let o = l.offers[(ctx.maker, ctx.id)];
            let custody = Controller::Derived(
                spec_authority(OFFER_NAMESPACE, o.maker, o.id, o.authority_salt),
            );
            let taker = Controller::User(ctx.taker);
            let maker = Controller::User(ctx.maker);
            &&& spec_balance(taken, taker, ctx.asset_a) == spec_balance(l, taker, ctx.asset_a)
                + spec_balance(l, custody, ctx.asset_a)
            &&& spec_balance(taken, maker, ctx.asset_a) == spec_balance(l, maker, ctx.asset_a)
            &&& spec_balance(taken, maker, ctx.asset_b) == spec_balance(l, maker, ctx.asset_b)
                + o.amount_b_wanted
            &&& spec_balance(taken, taker, ctx.asset_b) + o.amount_b_wanted == spec_balance(
                l,
                taker,
                ctx.asset_b,
            )
            &&& spec_balance(taken, custody, ctx.asset_a) == 0
            &&& !taken.balances.dom().contains((custody, ctx.asset_a))
            &&& !taken.offers.dom().contains((ctx.maker, ctx.id))
        }),
{
    let key = (ctx.maker, ctx.id);
    let o = l.offers[key];
    let auth = spec_authority(OFFER_NAMESPACE, o.maker, o.id, o.authority_salt);
    let custody = Controller::Derived(auth);
    let taker = Controller::User(ctx.taker);
    let maker = Controller::User(ctx.maker);
    assert(o.maker == ctx.maker && o.asset_a == ctx.asset_a && o.asset_b == ctx.asset_b);
    let ck = (custody, o.asset_a);
    let tka = (taker, o.asset_a);
    let mka = (maker, o.asset_a);
    let tkb = (taker, o.asset_b);
    let mkb = (maker, o.asset_b);
    let vault = l.balances[ck];
    let r1 = spec_transfer(l, custody, taker, o.asset_a, vault, Authorization::Derived(auth));
    assert(r1 is Ok);
    let l1 = r1->Ok_0;
    assert(l1.balances == l.balances.insert(ck, 0u64).insert(
        tka,
        (spec_balance(l, taker, o.asset_a) + vault) as u64,
    ));
    let r2 = spec_close(l1, custody, o.asset_a, Authorization::Derived(auth));
    assert(r2 is Ok);
    let l2 = r2->Ok_0;
    assert(l2.balances == l1.balances.remove(ck));
    let r3 = spec_transfer(
        l2,
        taker,
        maker,
        o.asset_b,
        o.amount_b_wanted,
        Authorization::Signer(ctx.taker),
    );
    assert(r3 is Ok);
    let l3 = r3->Ok_0;
    assert(taken.balances == l3.balances);
    assert(taken.offers == l3.offers.remove(key));
    let tbal_b = spec_balance(l2, taker, o.asset_b);
    let mbal_b = spec_balance(l2, maker, o.asset_b);
    assert(l3.balances == (if l2.balances.dom().contains(tkb) {
        l2.balances.insert(tkb, (tbal_b - o.amount_b_wanted) as u64)
    } else {
        l2.balances
    }).insert(mkb, (mbal_b + o.amount_b_wanted) as u64));
    if !l2.balances.dom().contains(tkb) {
        assert(tbal_b == 0 && o.amount_b_wanted == 0);
        assert(!l3.balances.dom().contains(tkb));
    }
    assert(spec_balance(l2, taker, o.asset_a) == spec_balance(l, taker, o.asset_a) + vault);
    assert(spec_balance(l2, maker, o.asset_a) == spec_balance(l, maker, o.asset_a));
    assert(tbal_b == spec_balance(l, taker, o.asset_b));
    assert(mbal_b == spec_balance(l, maker, o.asset_b));
}

} // verus!
