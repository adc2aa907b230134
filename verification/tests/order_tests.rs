use batch_auction::auction::registration_refund;
use batch_auction::{AuctionError, Contract, ErrorKind};

const ONE_NEAR: u128 = 1_000_000_000_000_000_000_000_000;
const DEADLINE: u64 = 60_000_000_000;
const BEFORE: u64 = 1_000_000_000;
const AFTER: u64 = DEADLINE + 1_000_000_000;

#[test]
fn test_new() {
    let c = Contract::new(
        "auctioneer.test.near".to_string(),
        1_000_000_000_000_000,
        DEADLINE,
        50 * ONE_NEAR,
    );
    let info = c.get_auction_info();
    assert_eq!(info.auctioner, "auctioneer.test.near");
    assert_eq!(info.auction_duration, DEADLINE);
    assert_eq!(info.auctioned_sell_amount, 1_000_000_000_000_000);
    assert_eq!(info.min_buy_amount, 50 * ONE_NEAR);
    assert!(!info.is_settled);
    assert_eq!(info.winning_orders.len(), 0);
    assert_eq!(info.final_auction_price, 0);
    assert_eq!(info.refunded_orders.len(), 0);
    assert_eq!(c.get_orders().len(), 0);
}

#[test]
fn test_place_one_order() {
    let mut c = Contract::new(
        "auctioneer.test.near".to_string(),
        1_000_000_000,
        DEADLINE,
        0,
    );
    let r = c.place_order(
        "alice.test.near".to_string(),
        1,
        ONE_NEAR,
        BEFORE,
        true,
    );
    assert_eq!(r, Ok(()));

    let orders = c.get_orders();
    assert_eq!(orders.len(), 1);
    assert_eq!(orders[0].bidder, "alice.test.near");
    assert_eq!(orders[0].buy_amount, 1);
    assert_eq!(orders[0].sell_amount, 1_000_000_000_000_000_000_000_000);
}

#[test]
fn test_place_multiple_orders() {
    let mut c = Contract::new(
        "auctioneer.test.near".to_string(),
        100,
        DEADLINE,
        50 * ONE_NEAR,
    );
    let alice = c.place_order("alice.test.near".to_string(), 1, ONE_NEAR, BEFORE, true);
    let bob = c.place_order("bob.test.near".to_string(), 2, 5 * ONE_NEAR, BEFORE, true);
    assert_eq!(alice, Ok(()));
    assert_eq!(bob, Ok(()));

    let orders = c.get_orders();
    assert_eq!(orders.len(), 2);
    assert_eq!(orders[0].bidder, "alice.test.near");
    assert_eq!(orders[0].buy_amount, 1);
    assert_eq!(orders[0].sell_amount, 1_000_000_000_000_000_000_000_000);
    assert_eq!(orders[1].bidder, "bob.test.near");
    assert_eq!(orders[1].buy_amount, 2);
    assert_eq!(orders[1].sell_amount, 5_000_000_000_000_000_000_000_000);
}

#[test]
fn test_place_order_rejections() {
    let mut c = Contract::new(
        "auctioneer.test.near".to_string(),
        100,
        DEADLINE,
        50 * ONE_NEAR,
    );

    let unregistered = c.place_order("a.test.near".to_string(), 1, ONE_NEAR, BEFORE, false);
    assert_eq!(unregistered, Err(AuctionError::BidderNotRegistered));

    let late = c.place_order("a.test.near".to_string(), 1, ONE_NEAR, AFTER, true);
    assert_eq!(late, Err(AuctionError::BiddingClosed));
    // Bidding at the deadline itself is already closed.
    let at_deadline = c.place_order("a.test.near".to_string(), 1, ONE_NEAR, DEADLINE, true);
    assert_eq!(at_deadline, Err(AuctionError::BiddingClosed));

    let free = c.place_order("a.test.near".to_string(), 1, 0, BEFORE, true);
    assert_eq!(free, Err(AuctionError::ZeroSellAmount));

    let too_many = c.place_order("a.test.near".to_string(), 101, ONE_NEAR, BEFORE, true);
    assert_eq!(too_many, Err(AuctionError::BuyAmountTooLarge));

    let nothing = c.place_order("a.test.near".to_string(), 0, ONE_NEAR, BEFORE, true);
    assert_eq!(nothing, Err(AuctionError::ZeroBuyAmount));

    // Reserve is 0.5 NEAR per unit: 2 units for 0.9 NEAR is below it.
    let cheap = c.place_order(
        "a.test.near".to_string(),
        2,
        9 * ONE_NEAR / 10,
        BEFORE,
        true,
    );
    assert_eq!(cheap, Err(AuctionError::PriceBelowReserve));
    assert_eq!(
        cheap.unwrap_err().kind(),
        ErrorKind::PreconditionViolation
    );

    // Exactly at the reserve price the order is accepted.
    let at_reserve = c.place_order("a.test.near".to_string(), 2, ONE_NEAR, BEFORE, true);
    assert_eq!(at_reserve, Ok(()));

    // Every rejection left the ledger untouched.
    assert_eq!(c.get_orders().len(), 1);
}

#[test]
fn test_registration_refund() {
    assert_eq!(
        registration_refund(ONE_NEAR, 2 * ONE_NEAR),
        Err(AuctionError::DepositTooSmall)
    );
    assert_eq!(registration_refund(2 * ONE_NEAR, 2 * ONE_NEAR), Ok(0));
    assert_eq!(
        registration_refund(3 * ONE_NEAR, 2 * ONE_NEAR),
        Ok(ONE_NEAR)
    );
}
