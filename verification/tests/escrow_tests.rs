use escrow::authority::derive_authority;
use escrow::authority::rederive_authority;
use escrow::authority::Authority;
use escrow::authority::OFFER_NAMESPACE;
use escrow::error::ErrorCode;
use escrow::error::TransferError;
use escrow::make_offer;
use escrow::make_offer::make_offer_handler;
use escrow::make_offer::MakeOffer;
use escrow::state::Controller;
use escrow::state::Ledger;
use escrow::take_offer::take_offer_handler;
use escrow::take_offer::TakeOffer;
use escrow::transfer::close_token_account;
use escrow::transfer::transfer_tokens;
use escrow::transfer::Authorization;

const ASSET_X: u64 = 10;
const ASSET_Y: u64 = 20;
const MAKER: u64 = 1;
const TAKER: u64 = 2;

fn custody_of(maker: u64, id: u64) -> Controller {
    let (authority, _salt) = derive_authority(OFFER_NAMESPACE, maker, id);
    Controller::Derived(authority)
}

/// A ledger holding the Scenario-A offer: maker deposited 100 of X and
/// offered it for 50 of Y under id 1.
fn scenario_a_ledger() -> Ledger {
    let mut ledger = Ledger::new();
    ledger.deposit(MAKER, ASSET_X, 100).unwrap();
    let ctx = MakeOffer { maker: MAKER, asset_a: ASSET_X, asset_b: ASSET_Y };
    make_offer(&mut ledger, ctx, 1, 100, 50).unwrap();
    ledger
}

#[test]
fn scenario_a_make_offer() {
    let ledger = scenario_a_ledger();
    assert_eq!(ledger.balance_of(Controller::User(MAKER), ASSET_X), 0);
    assert_eq!(ledger.balance_of(custody_of(MAKER, 1), ASSET_X), 100);
    let offer = ledger.get_offer(MAKER, 1).unwrap();
    assert_eq!(offer.id, 1);
    assert_eq!(offer.maker, MAKER);
    assert_eq!(offer.asset_a, ASSET_X);
    assert_eq!(offer.asset_b, ASSET_Y);
    assert_eq!(offer.amount_b_wanted, 50);
}

#[test]
fn scenario_b_take_offer() {
    let mut ledger = scenario_a_ledger();
    ledger.deposit(TAKER, ASSET_Y, 50).unwrap();
    let ctx = TakeOffer { taker: TAKER, maker: MAKER, id: 1, asset_a: ASSET_X, asset_b: ASSET_Y };
    assert_eq!(take_offer_handler(&mut ledger, ctx), Ok(()));
    assert_eq!(ledger.balance_of(Controller::User(TAKER), ASSET_X), 100);
    assert_eq!(ledger.balance_of(Controller::User(TAKER), ASSET_Y), 0);
    assert_eq!(ledger.balance_of(Controller::User(MAKER), ASSET_Y), 50);
    assert!(!ledger.has_account(custody_of(MAKER, 1), ASSET_X));
    assert!(ledger.get_offer(MAKER, 1).is_none());
}

#[test]
fn scenario_c_insufficient_taker_balance() {
    let mut ledger = scenario_a_ledger();
    ledger.deposit(TAKER, ASSET_Y, 49).unwrap();
    let ctx = TakeOffer { taker: TAKER, maker: MAKER, id: 1, asset_a: ASSET_X, asset_b: ASSET_Y };
    assert_eq!(take_offer_handler(&mut ledger, ctx), Err(ErrorCode::InsufficientTakerBalance));
    // The whole operation aborted: custody still funded, record intact,
    // the taker's X account was never created.
    assert_eq!(ledger.balance_of(custody_of(MAKER, 1), ASSET_X), 100);
    assert_eq!(ledger.balance_of(Controller::User(MAKER), ASSET_X), 0);
    assert!(ledger.get_offer(MAKER, 1).is_some());
    assert!(!ledger.has_account(Controller::User(TAKER), ASSET_X));
    assert_eq!(ledger.balance_of(Controller::User(TAKER), ASSET_Y), 49);
}

#[test]
fn scenario_d_second_taker_finds_nothing() {
    let mut ledger = scenario_a_ledger();
    ledger.deposit(TAKER, ASSET_Y, 50).unwrap();
    let other_taker: u64 = 3;
    ledger.deposit(other_taker, ASSET_Y, 50).unwrap();
    let first = TakeOffer { taker: TAKER, maker: MAKER, id: 1, asset_a: ASSET_X, asset_b: ASSET_Y };
    let second =
        TakeOffer { taker: other_taker, maker: MAKER, id: 1, asset_a: ASSET_X, asset_b: ASSET_Y };
    assert_eq!(take_offer_handler(&mut ledger, first), Ok(()));
    assert_eq!(take_offer_handler(&mut ledger, second), Err(ErrorCode::OfferNotFound));
    // The loser's funds never moved and the winner's settlement stands.
    assert_eq!(ledger.balance_of(Controller::User(other_taker), ASSET_Y), 50);
    assert_eq!(ledger.balance_of(Controller::User(TAKER), ASSET_X), 100);
    assert_eq!(ledger.balance_of(Controller::User(MAKER), ASSET_Y), 50);
}

#[test]
fn scenario_e_duplicate_offer_rejected() {
    let mut ledger = scenario_a_ledger();
    ledger.deposit(MAKER, ASSET_X, 70).unwrap();
    let ctx = MakeOffer { maker: MAKER, asset_a: ASSET_X, asset_b: ASSET_Y };
    assert_eq!(make_offer(&mut ledger, ctx, 1, 70, 10), Err(ErrorCode::DuplicateOffer));
    // The first record is untouched.
    let offer = ledger.get_offer(MAKER, 1).unwrap();
    assert_eq!(offer.amount_b_wanted, 50);
    assert_eq!(ledger.balance_of(custody_of(MAKER, 1), ASSET_X), 100);
    assert_eq!(ledger.balance_of(Controller::User(MAKER), ASSET_X), 70);
}

#[test]
fn derivation_is_deterministic() {
    let first = derive_authority(OFFER_NAMESPACE, MAKER, 7);
    let second = derive_authority(OFFER_NAMESPACE, MAKER, 7);
    assert_eq!(first, second);
    let (authority, salt) = first;
    assert_eq!(rederive_authority(OFFER_NAMESPACE, MAKER, 7, salt), authority);
}

#[test]
fn derivation_separates_offers() {
    assert_ne!(derive_authority(OFFER_NAMESPACE, MAKER, 1), derive_authority(OFFER_NAMESPACE, MAKER, 2));
    assert_ne!(derive_authority(OFFER_NAMESPACE, MAKER, 1), derive_authority(OFFER_NAMESPACE, TAKER, 1));
}

#[test]
fn forged_witness_cannot_drain_custody() {
    let mut ledger = scenario_a_ledger();
    // A witness derived from a different (maker, id) pair is refused.
    let (forged, _salt) = derive_authority(OFFER_NAMESPACE, MAKER, 2);
    let moved = transfer_tokens(
        &mut ledger,
        custody_of(MAKER, 1),
        Controller::User(TAKER),
        ASSET_X,
        100,
        Authorization::Derived(forged),
    );
    assert_eq!(moved, Err(TransferError::Unauthorized));
    assert_eq!(ledger.balance_of(custody_of(MAKER, 1), ASSET_X), 100);
    // A direct signature of any user is refused as well.
    let signed = transfer_tokens(
        &mut ledger,
        custody_of(MAKER, 1),
        Controller::User(TAKER),
        ASSET_X,
        100,
        Authorization::Signer(TAKER),
    );
    assert_eq!(signed, Err(TransferError::Unauthorized));
    assert_eq!(ledger.balance_of(custody_of(MAKER, 1), ASSET_X), 100);
}

#[test]
fn matching_witness_is_accepted() {
    let mut ledger = scenario_a_ledger();
    let (authority, _salt) = derive_authority(OFFER_NAMESPACE, MAKER, 1);
    let moved = transfer_tokens(
        &mut ledger,
        Controller::Derived(authority),
        Controller::User(TAKER),
        ASSET_X,
        40,
        Authorization::Derived(authority),
    );
    assert_eq!(moved, Ok(()));
    assert_eq!(ledger.balance_of(Controller::User(TAKER), ASSET_X), 40);
    assert_eq!(ledger.balance_of(Controller::Derived(authority), ASSET_X), 60);
}

#[test]
fn conservation_across_make_and_take() {
    let mut ledger = Ledger::new();
    ledger.deposit(MAKER, ASSET_X, 250).unwrap();
    ledger.deposit(TAKER, ASSET_Y, 80).unwrap();
    let total_x = |l: &Ledger| {
        l.balance_of(Controller::User(MAKER), ASSET_X)
            + l.balance_of(Controller::User(TAKER), ASSET_X)
            + l.balance_of(custody_of(MAKER, 9), ASSET_X)
    };
    let total_y = |l: &Ledger| {
        l.balance_of(Controller::User(MAKER), ASSET_Y)
            + l.balance_of(Controller::User(TAKER), ASSET_Y)
    };
    let ctx = MakeOffer { maker: MAKER, asset_a: ASSET_X, asset_b: ASSET_Y };
    make_offer(&mut ledger, ctx, 9, 130, 80).unwrap();
    assert_eq!(total_x(&ledger), 250);
    assert_eq!(total_y(&ledger), 80);
    // A failed take moves nothing.
    let bad = TakeOffer { taker: TAKER, maker: MAKER, id: 9, asset_a: ASSET_X, asset_b: ASSET_X };
    assert_eq!(take_offer_handler(&mut ledger, bad), Err(ErrorCode::AccountMismatch));
    assert_eq!(total_x(&ledger), 250);
    assert_eq!(total_y(&ledger), 80);
    // A successful take moves exactly the declared amounts.
    let good = TakeOffer { taker: TAKER, maker: MAKER, id: 9, asset_a: ASSET_X, asset_b: ASSET_Y };
    assert_eq!(take_offer_handler(&mut ledger, good), Ok(()));
    assert_eq!(total_x(&ledger), 250);
    assert_eq!(total_y(&ledger), 80);
    assert_eq!(ledger.balance_of(Controller::User(TAKER), ASSET_X), 130);
    assert_eq!(ledger.balance_of(Controller::User(MAKER), ASSET_Y), 80);
}

#[test]
fn zero_offered_amount_rejected() {
    let mut ledger = Ledger::new();
    ledger.deposit(MAKER, ASSET_X, 100).unwrap();
    let ctx = MakeOffer { maker: MAKER, asset_a: ASSET_X, asset_b: ASSET_Y };
    assert_eq!(make_offer(&mut ledger, ctx, 1, 0, 50), Err(ErrorCode::InvalidAmount));
    assert!(ledger.get_offer(MAKER, 1).is_none());
}

#[test]
fn underfunded_maker_rejected() {
    let mut ledger = Ledger::new();
    ledger.deposit(MAKER, ASSET_X, 99).unwrap();
    let ctx = MakeOffer { maker: MAKER, asset_a: ASSET_X, asset_b: ASSET_Y };
    assert_eq!(make_offer(&mut ledger, ctx, 1, 100, 50), Err(ErrorCode::InsufficientMakerBalance));
    assert!(ledger.get_offer(MAKER, 1).is_none());
    assert!(!ledger.has_account(custody_of(MAKER, 1), ASSET_X));
    assert_eq!(ledger.balance_of(Controller::User(MAKER), ASSET_X), 99);
}

#[test]
fn maker_with_no_account_rejected() {
    let mut ledger = Ledger::new();
    let ctx = MakeOffer { maker: MAKER, asset_a: ASSET_X, asset_b: ASSET_Y };
    assert_eq!(make_offer(&mut ledger, ctx, 1, 5, 5), Err(ErrorCode::InsufficientMakerBalance));
}

#[test]
fn gift_offer_with_nothing_wanted() {
    let mut ledger = scenario_a_ledger();
    let ctx = MakeOffer { maker: MAKER, asset_a: ASSET_X, asset_b: ASSET_Y };
    ledger.deposit(MAKER, ASSET_X, 30).unwrap();
    assert_eq!(make_offer(&mut ledger, ctx, 2, 30, 0), Ok(()));
    // A taker holding no asset B at all can take it.
    let take = TakeOffer { taker: TAKER, maker: MAKER, id: 2, asset_a: ASSET_X, asset_b: ASSET_Y };
    assert_eq!(take_offer_handler(&mut ledger, take), Ok(()));
    assert_eq!(ledger.balance_of(Controller::User(TAKER), ASSET_X), 30);
}

#[test]
fn take_of_unknown_offer_not_found() {
    let mut ledger = scenario_a_ledger();
    let ctx = TakeOffer { taker: TAKER, maker: MAKER, id: 2, asset_a: ASSET_X, asset_b: ASSET_Y };
    assert_eq!(take_offer_handler(&mut ledger, ctx), Err(ErrorCode::OfferNotFound));
    let ctx = TakeOffer { taker: TAKER, maker: TAKER, id: 1, asset_a: ASSET_X, asset_b: ASSET_Y };
    assert_eq!(take_offer_handler(&mut ledger, ctx), Err(ErrorCode::OfferNotFound));
}

#[test]
fn take_with_mismatched_assets_rejected() {
    let mut ledger = scenario_a_ledger();
    ledger.deposit(TAKER, ASSET_Y, 50).unwrap();
    let wrong_a = TakeOffer { taker: TAKER, maker: MAKER, id: 1, asset_a: ASSET_Y, asset_b: ASSET_Y };
    assert_eq!(take_offer_handler(&mut ledger, wrong_a), Err(ErrorCode::AccountMismatch));
    let wrong_b = TakeOffer { taker: TAKER, maker: MAKER, id: 1, asset_a: ASSET_X, asset_b: ASSET_X };
    assert_eq!(take_offer_handler(&mut ledger, wrong_b), Err(ErrorCode::AccountMismatch));
    assert_eq!(ledger.balance_of(custody_of(MAKER, 1), ASSET_X), 100);
    assert!(ledger.get_offer(MAKER, 1).is_some());
}

#[test]
fn overflowing_withdrawal_fails_leg_one() {
    let mut ledger = scenario_a_ledger();
    ledger.deposit(TAKER, ASSET_Y, 50).unwrap();
    // The taker already holds so much of X that receiving the vault would
    // overflow, so leg 1 fails and nothing moves.
    ledger.deposit(TAKER, ASSET_X, u64::MAX).unwrap();
    let ctx = TakeOffer { taker: TAKER, maker: MAKER, id: 1, asset_a: ASSET_X, asset_b: ASSET_Y };
    assert_eq!(take_offer_handler(&mut ledger, ctx), Err(ErrorCode::FailedVaultWithdrawal));
    assert_eq!(ledger.balance_of(custody_of(MAKER, 1), ASSET_X), 100);
    assert_eq!(ledger.balance_of(Controller::User(TAKER), ASSET_Y), 50);
    assert!(ledger.get_offer(MAKER, 1).is_some());
}

#[test]
fn transfer_needs_funds_and_room() {
    let mut ledger = Ledger::new();
    ledger.deposit(MAKER, ASSET_X, 10).unwrap();
    let short = transfer_tokens(
        &mut ledger,
        Controller::User(MAKER),
        Controller::User(TAKER),
        ASSET_X,
        11,
        Authorization::Signer(MAKER),
    );
    assert_eq!(short, Err(TransferError::InsufficientFunds));
    ledger.deposit(TAKER, ASSET_X, u64::MAX).unwrap();
    let brimming = transfer_tokens(
        &mut ledger,
        Controller::User(MAKER),
        Controller::User(TAKER),
        ASSET_X,
        1,
        Authorization::Signer(MAKER),
    );
    assert_eq!(brimming, Err(TransferError::Overflow));
    assert_eq!(ledger.balance_of(Controller::User(MAKER), ASSET_X), 10);
}

#[test]
fn transfer_never_creates_a_custody_account() {
    let mut ledger = Ledger::new();
    ledger.deposit(MAKER, ASSET_X, 10).unwrap();
    let authority = Authority { namespace: OFFER_NAMESPACE, maker: MAKER, id: 1, salt: 0 };
    let moved = transfer_tokens(
        &mut ledger,
        Controller::User(MAKER),
        Controller::Derived(authority),
        ASSET_X,
        5,
        Authorization::Signer(MAKER),
    );
    assert_eq!(moved, Err(TransferError::AccountNotFound));
    assert!(!ledger.has_account(Controller::Derived(authority), ASSET_X));
    assert_eq!(ledger.balance_of(Controller::User(MAKER), ASSET_X), 10);
}

#[test]
fn close_requires_owner_and_emptiness() {
    let mut ledger = Ledger::new();
    ledger.deposit(MAKER, ASSET_X, 10).unwrap();
    let stranger = close_token_account(
        &mut ledger,
        Controller::User(MAKER),
        ASSET_X,
        Authorization::Signer(TAKER),
    );
    assert_eq!(stranger, Err(TransferError::Unauthorized));
    let loaded = close_token_account(
        &mut ledger,
        Controller::User(MAKER),
        ASSET_X,
        Authorization::Signer(MAKER),
    );
    assert_eq!(loaded, Err(TransferError::AccountNotEmpty));
    let missing = close_token_account(
        &mut ledger,
        Controller::User(MAKER),
        ASSET_Y,
        Authorization::Signer(MAKER),
    );
    assert_eq!(missing, Err(TransferError::AccountNotFound));
    // Drain it, then closing succeeds and the account is gone.
    transfer_tokens(
        &mut ledger,
        Controller::User(MAKER),
        Controller::User(TAKER),
        ASSET_X,
        10,
        Authorization::Signer(MAKER),
    )
    .unwrap();
    let emptied = close_token_account(
        &mut ledger,
        Controller::User(MAKER),
        ASSET_X,
        Authorization::Signer(MAKER),
    );
    assert_eq!(emptied, Ok(()));
    assert!(!ledger.has_account(Controller::User(MAKER), ASSET_X));
}

#[test]
fn deposit_overflow_rejected() {
    let mut ledger = Ledger::new();
    ledger.deposit(MAKER, ASSET_X, u64::MAX).unwrap();
    assert_eq!(ledger.deposit(MAKER, ASSET_X, 1), Err(TransferError::Overflow));
    assert_eq!(ledger.balance_of(Controller::User(MAKER), ASSET_X), u64::MAX);
}

#[test]
fn handler_named_by_dispatch_matches_direct_call() {
    let mut routed = Ledger::new();
    routed.deposit(MAKER, ASSET_X, 100).unwrap();
    let mut direct = Ledger::new();
    direct.deposit(MAKER, ASSET_X, 100).unwrap();
    let ctx = MakeOffer { maker: MAKER, asset_a: ASSET_X, asset_b: ASSET_Y };
    assert_eq!(make_offer(&mut routed, ctx, 4, 60, 30), Ok(()));
    assert_eq!(make_offer_handler(&mut direct, ctx, 4, 60, 30), Ok(()));
    assert_eq!(routed.get_offer(MAKER, 4), direct.get_offer(MAKER, 4));
    assert_eq!(
        routed.balance_of(custody_of(MAKER, 4), ASSET_X),
        direct.balance_of(custody_of(MAKER, 4), ASSET_X),
    );
}
