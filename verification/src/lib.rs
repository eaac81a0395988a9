//! A trustless two-party asset-swap escrow.
//!
//! A maker deposits an amount of asset A into a custody account controlled by
//! a derived, keyless authority and declares the amount of asset B wanted in
//! return.  Any taker may later satisfy those terms atomically: the custody
//! account is drained to the taker, torn down, and the taker pays the maker,
//! all as one all-or-nothing unit of work.

use vstd::prelude::*;

pub mod authority;
pub mod error;
pub mod make_offer;
pub mod state;
pub mod take_offer;
pub mod transfer;

use crate::error::ErrorCode;
use crate::make_offer::MakeOffer;
use crate::make_offer::make_offer_handler;
use crate::make_offer::spec_make_offer;
use crate::state::Ledger;
use crate::state::LedgerView;

verus! {

/// Creates an offer: the named operation the command layer routes to the
/// make-offer handler.
pub fn make_offer(
    ledger: &mut Ledger,
    ctx: MakeOffer,
    id: u64,
    amount_a_offered: u64,
    amount_b_wanted: u64,
) -> (r: Result<(), ErrorCode>)
    requires
        old(ledger).wf(),
    ensures
        final(ledger).wf(),
        (match r {
            Ok(()) => spec_make_offer(old(ledger)@, ctx, id, amount_a_offered, amount_b_wanted)
                == Ok::<LedgerView, ErrorCode>(final(ledger)@),
            Err(e) => spec_make_offer(old(ledger)@, ctx, id, amount_a_offered, amount_b_wanted)
                == Err::<LedgerView, ErrorCode>(e) && final(ledger)@ == old(ledger)@,
        }),
{
    make_offer_handler(ledger, ctx, id, amount_a_offered, amount_b_wanted)
}

} // verus!
