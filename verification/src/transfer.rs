//! The shared transfer adapter: the single choke point through which every
//! balance movement in the system passes.
//!
//! A movement is authorized either by the directly signing party that owns
//! the source account, or by a derived-authority witness that equals the
//! source account's controller.  Centralizing the signed/derived branch here
//! keeps the authorization rule in one place for every leg of every handler.

use vstd::prelude::*;

use crate::authority::Authority;
use crate::authority::OFFER_NAMESPACE;
use crate::authority::spec_authority;
use crate::error::TransferError;
use crate::state::AccountKey;
use crate::state::BalanceEntry;
use crate::state::Controller;
use crate::state::Ledger;
use crate::state::LedgerView;
use crate::state::balance_entry_mut;
use crate::state::has_bal;
use crate::state::lemma_bmap_at;
use crate::state::lemma_bmap_push;
use crate::state::lemma_bmap_swap_remove;
use crate::state::lemma_bmap_update;
use crate::state::spec_balance;

verus! {

/// The two authorization modes of the adapter: a directly signing party, or
/// an authorization witness re-derived by the authority deriver.  A witness
/// stands in lieu of a signature; it is accepted only when it equals the
/// source account's derived controller.
#[derive(Clone, Copy, Debug, PartialEq, Eq, Structural)]
pub enum Authorization {
    /// A party signing directly for its own account.
    Signer(u64),
    /// A derived-authority witness, computed by the authority deriver in the
    /// same call path.
    Derived(Authority),
}

/// Whether an authorization controls the account of owner `from`.
pub open spec fn authorizes(auth: Authorization, from: Controller) -> bool {
    match auth {
        Authorization::Signer(u) => from == Controller::User(u),
        Authorization::Derived(a) => from == Controller::Derived(a),
    }
}

/// What a transfer does: checks authorization, funds, destination existence
/// and overflow in that order, then moves `amount` of `asset` between the
/// two accounts.  A missing account holds zero; a missing user destination
/// is created on demand, but a custody (derived-controller) account never
/// is.  On any failure the ledger is unchanged.
pub open spec fn spec_transfer(
    l: LedgerView,
    from: Controller,
    to: Controller,
    asset: u64,
    amount: u64,
    auth: Authorization,
) -> Result<LedgerView, TransferError> {
    let fk = (from, asset);
    let tk = (to, asset);
    let fbal = spec_balance(l, from, asset);
    let tbal = spec_balance(l, to, asset);
    if !authorizes(auth, from) {
        Err(TransferError::Unauthorized)
    } else if fbal < amount {
        Err(TransferError::InsufficientFunds)
    } else if !l.balances.dom().contains(tk) && to is Derived {
        Err(TransferError::AccountNotFound)
    } else if from == to {
        Ok(l)
    } else if tbal + amount > u64::MAX {
        Err(TransferError::Overflow)
    } else {
        let debited = if l.balances.dom().contains(fk) {
            l.balances.insert(fk, (fbal - amount) as u64)
        } else {
            l.balances
        };
        Ok(LedgerView { balances: debited.insert(tk, (tbal + amount) as u64), offers: l.offers })
    }
}

/// What closing an account does: only the account's controller may close it,
/// and only an empty account can be closed; the account then ceases to
/// exist.  On any failure the ledger is unchanged.
pub open spec fn spec_close(
    l: LedgerView,
    owner: Controller,
    asset: u64,
    auth: Authorization,
) -> Result<LedgerView, TransferError> {
    let k = (owner, asset);
    if !authorizes(auth, owner) {
        Err(TransferError::Unauthorized)
    } else if !l.balances.dom().contains(k) {
        Err(TransferError::AccountNotFound)
    } else if l.balances[k] != 0 {
        Err(TransferError::AccountNotEmpty)
    } else {
        Ok(LedgerView { balances: l.balances.remove(k), offers: l.offers })
    }
}

/// Moves `amount` of `asset` from the account of `from` to the account of
/// `to`, authorized by `auth`; all or nothing.
pub fn transfer_tokens(
    ledger: &mut Ledger,
    from: Controller,
    to: Controller,
    asset: u64,
    amount: u64,
    auth: Authorization,
) -> (r: Result<(), TransferError>)
    requires
        old(ledger).keys_unique(),
    ensures
        final(ledger).keys_unique(),
        final(ledger)@.offers == old(ledger)@.offers,
        (match r {
            Ok(()) => spec_transfer(old(ledger)@, from, to, asset, amount, auth) == Ok::<
                LedgerView,
                TransferError,
            >(final(ledger)@),
            Err(e) => spec_transfer(old(ledger)@, from, to, asset, amount, auth) == Err::<
                LedgerView,
                TransferError,
            >(e) && final(ledger)@ == old(ledger)@,
        }),
{
    let authorized = match auth {
        Authorization::Signer(u) => from == Controller::User(u),
        Authorization::Derived(a) => from == Controller::Derived(a),
    };
    if !authorized {
        return Err(TransferError::Unauthorized);
    }
    let from_bal = ledger.balance_of(from, asset);
    if from_bal < amount {
        return Err(TransferError::InsufficientFunds);
    }
    let to_existing = ledger.find_balance(to, asset);
    let to_is_derived = match to {
        Controller::User(_) => false,
        Controller::Derived(_) => true,
    };
    if to_existing.is_none() && to_is_derived {
        return Err(TransferError::AccountNotFound);
    }
    if from == to {
        return Ok(());
    }
    let to_bal = match to_existing {
        Some(j) => {
            proof {
                lemma_bmap_at(ledger.balances@, j as int);
            }
            ledger.balances[j].amount
        },
        None => 0,
    };
    if to_bal > u64::MAX - amount {
        return Err(TransferError::Overflow);
    }
    let ghost l0 = ledger@;
    // Debit the source.  When the source account does not exist, the amount
    // is provably zero and there is nothing to debit.
    match ledger.find_balance(from, asset) {
        Some(i) => {
            let ghost pre = ledger.balances@;
            let e = balance_entry_mut(&mut ledger.balances, i);
            let updated = BalanceEntry { owner: from, asset, amount: from_bal - amount };
            *e = updated;
            proof {
                lemma_bmap_update(pre, i as int, updated);
            }
        },
        None => {
            proof {
                assert(amount == 0);
            }
        },
    }
    proof {
        assert(ledger@.balances == (if l0.balances.dom().contains((from, asset)) {
            l0.balances.insert((from, asset), (spec_balance(l0, from, asset) - amount) as u64)
        } else {
            l0.balances
        }));
        assert(ledger@.balances.dom() =~= l0.balances.dom().union(
            if l0.balances.dom().contains((from, asset)) {
                Set::<AccountKey>::empty().insert((from, asset))
            } else {
                Set::<AccountKey>::empty()
            },
        ));
    }
    // Credit the destination, creating a user account on demand.
    match ledger.find_balance(to, asset) {
        Some(j) => {
            let ghost pre = ledger.balances@;
            proof {
                lemma_bmap_at(pre, j as int);
                assert(ledger@.balances[(to, asset)] == spec_balance(l0, to, asset));
                assert(to_bal == spec_balance(l0, to, asset));
            }
            let held = ledger.balances[j].amount;
            let e = balance_entry_mut(&mut ledger.balances, j);
            let updated = BalanceEntry { owner: to, asset, amount: held + amount };
            *e = updated;
            proof {
                lemma_bmap_update(pre, j as int, updated);
            }
        },
        None => {
            proof {
                if l0.balances.dom().contains((to, asset)) {
                    assert(ledger@.balances.dom().contains((to, asset)));
                    assert(has_bal(ledger.balances@, (to, asset)));
                    assert(false);
                }
                assert(to_bal == 0);
            }
            let entry = BalanceEntry { owner: to, asset, amount };
            proof {
                lemma_bmap_push(ledger.balances@, entry);
            }
            ledger.balances.push(entry);
        },
    }
    Ok(())
}

/// Closes the (empty) account of `owner` for `asset`, authorized by `auth`;
/// the account ceases to exist.
pub fn close_token_account(
    ledger: &mut Ledger,
    owner: Controller,
    asset: u64,
    auth: Authorization,
) -> (r: Result<(), TransferError>)
    requires
        old(ledger).keys_unique(),
    ensures
        final(ledger).keys_unique(),
        final(ledger)@.offers == old(ledger)@.offers,
        (match r {
            Ok(()) => spec_close(old(ledger)@, owner, asset, auth) == Ok::<
                LedgerView,
                TransferError,
            >(final(ledger)@),
            Err(e) => spec_close(old(ledger)@, owner, asset, auth) == Err::<
                LedgerView,
                TransferError,
            >(e) && final(ledger)@ == old(ledger)@,
        }),
{
    let authorized = match auth {
        Authorization::Signer(u) => owner == Controller::User(u),
        Authorization::Derived(a) => owner == Controller::Derived(a),
    };
    if !authorized {
        return Err(TransferError::Unauthorized);
    }
    match ledger.find_balance(owner, asset) {
        None => Err(TransferError::AccountNotFound),
        Some(i) => {
            proof {
                lemma_bmap_at(ledger.balances@, i as int);
            }
            if ledger.balances[i].amount != 0 {
                return Err(TransferError::AccountNotEmpty);
            }
            proof {
                lemma_bmap_swap_remove(ledger.balances@, i as int);
            }
            ledger.balances.swap_remove(i);
            Ok(())
        },
    }
}

/// Authority non-forgeability: a transfer out of a custody account presented
/// with a witness derived from a different (maker, id) pair than the one
/// that created the account always fails as unauthorized, whatever the
/// ledger holds and whatever the salts were.
pub proof fn lemma_authority_non_forgeable(
    l: LedgerView,
    maker: u64,
    id: u64,
    salt: u8,
    other_maker: u64,
    other_id: u64,
    other_salt: u8,
    to: Controller,
    asset: u64,
    amount: u64,
)
    requires
        (maker, id) != (other_maker, other_id),
    ensures
        spec_transfer(
            l,
            Controller::Derived(spec_authority(OFFER_NAMESPACE, maker, id, salt)),
            to,
            asset,
            amount,
            Authorization::Derived(spec_authority(OFFER_NAMESPACE, other_maker, other_id, other_salt)),
        ) == Err::<LedgerView, TransferError>(TransferError::Unauthorized),
{
}

} // verus!
