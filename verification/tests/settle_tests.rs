use batch_auction::{AuctionError, Contract, ErrorKind};

const ONE_NEAR: u128 = 1_000_000_000_000_000_000_000_000;
const DEADLINE: u64 = 600_000_000_000;
const BEFORE: u64 = 1_000_000_000;
const AFTER: u64 = DEADLINE + 1_000_000_000;

fn new_auction(supply: u128, min_total_near: u128) -> Contract {
    Contract::new(
        "auctioneer.test.near".to_string(),
        supply,
        DEADLINE,
        min_total_near * ONE_NEAR,
    )
}

fn place(c: &mut Contract, who: &str, buy: u128, sell_near: u128) {
    let r = c.place_order(who.to_string(), buy, sell_near * ONE_NEAR, BEFORE, true);
    assert_eq!(r, Ok(()));
}

#[test]
fn test_simple_settle_auction() {
    let mut c = new_auction(100, 50);
    place(&mut c, "alice.test.near", 1, 10);
    place(&mut c, "bob.test.near", 2, 10);

    let unsorted = c.get_orders();
    assert_eq!(unsorted.len(), 2);
    assert_eq!(unsorted[0].bidder, "alice.test.near");
    assert_eq!(unsorted[1].bidder, "bob.test.near");

    assert_eq!(c.settle_auction(AFTER), Ok(()));

    let sorted = c.get_orders();
    assert_eq!(sorted.len(), 2);
    assert_eq!(sorted[0].bidder, "alice.test.near");
    assert_eq!(sorted[1].bidder, "bob.test.near");

    let winners = c.get_auction_winner();
    assert_eq!(winners.len(), 2);
    assert_eq!(winners[0].0.bidder, "alice.test.near");
    assert_eq!(winners[1].0.bidder, "bob.test.near");

    assert_eq!(c.get_final_auction_price(), 5_000_000_000_000_000_000_000_000);
}

#[test]
fn test_settle_auction_when_user_buy_almost_all_tokens_but_offer_price_is_equal() {
    let mut c = new_auction(100, 100);
    place(&mut c, "alice.test.near", 90, 90);
    place(&mut c, "bob.test.near", 20, 20);

    assert_eq!(c.settle_auction(AFTER), Ok(()));

    let sorted = c.get_orders();
    assert_eq!(sorted.len(), 2);
    assert_eq!(sorted[0].bidder, "alice.test.near");
    assert_eq!(sorted[1].bidder, "bob.test.near");

    let winners = c.get_auction_winner();
    assert_eq!(winners.len(), 2);
    assert_eq!(winners[0].0.bidder, "alice.test.near");
    assert_eq!(winners[0].0.buy_amount, 90);
    assert_eq!(winners[0].0.sell_amount, 90_000_000_000_000_000_000_000_000);
    assert_eq!(winners[1].0.bidder, "bob.test.near");
    assert_eq!(winners[1].0.buy_amount, 10);
    assert_eq!(winners[1].0.sell_amount, 10_000_000_000_000_000_000_000_000);

    assert_eq!(c.get_final_auction_price(), 1_000_000_000_000_000_000_000_000);
}

#[test]
fn test_settle_auction_when_user_buy_almost_all_tokens_but_offer_price_is_not_equal_and_one_bidder_win_all_tokens(
) {
    let mut c = new_auction(10, 100);
    place(&mut c, "alice.test.near", 1, 10);
    place(&mut c, "bob.test.near", 10, 500);

    assert_eq!(c.settle_auction(AFTER), Ok(()));

    let sorted = c.get_orders();
    assert_eq!(sorted.len(), 2);
    assert_eq!(sorted[0].bidder, "bob.test.near");
    assert_eq!(sorted[1].bidder, "alice.test.near");

    let winners = c.get_auction_winner();
    assert_eq!(winners.len(), 1);
    assert_eq!(winners[0].0.bidder, "bob.test.near");
    assert_eq!(winners[0].0.buy_amount, 10);
    assert_eq!(winners[0].0.sell_amount, 500_000_000_000_000_000_000_000_000);

    assert_eq!(c.get_final_auction_price(), 50_000_000_000_000_000_000_000_000);
}

#[test]
fn test_settle_auction_when_user_buy_almost_all_tokens_but_offer_price_is_not_equal_and_both_bidders_win_tokens(
) {
    let mut c = new_auction(10, 100);
    place(&mut c, "alice.test.near", 1, 10);
    place(&mut c, "bob.test.near", 8, 400);

    assert_eq!(c.settle_auction(AFTER), Ok(()));

    let sorted = c.get_orders();
    assert_eq!(sorted.len(), 2);
    assert_eq!(sorted[0].bidder, "bob.test.near");
    assert_eq!(sorted[1].bidder, "alice.test.near");

    let winners = c.get_auction_winner();
    assert_eq!(winners.len(), 2);
    assert_eq!(winners[0].0.bidder, "bob.test.near");
    assert_eq!(winners[0].0.buy_amount, 8);
    assert_eq!(winners[0].0.sell_amount, 400_000_000_000_000_000_000_000_000);
    assert_eq!(winners[1].0.bidder, "alice.test.near");
    assert_eq!(winners[1].0.buy_amount, 1);
    assert_eq!(winners[1].0.sell_amount, 10_000_000_000_000_000_000_000_000);

    assert_eq!(c.get_final_auction_price(), 10_000_000_000_000_000_000_000_000);
}

#[test]
fn test_equal_price_earlier_order_ranks_first() {
    // Two orders at exactly the same unit price: the earlier-submitted
    // one must be ranked first and fully filled before the later one.
    let mut c = new_auction(10, 1);
    place(&mut c, "first.test.near", 8, 8);
    place(&mut c, "second.test.near", 8, 8);

    assert_eq!(c.settle_auction(AFTER), Ok(()));

    let sorted = c.get_orders();
    assert_eq!(sorted[0].bidder, "first.test.near");
    assert_eq!(sorted[1].bidder, "second.test.near");

    let winners = c.get_auction_winner();
    assert_eq!(winners.len(), 2);
    assert_eq!(winners[0].0.bidder, "first.test.near");
    assert_eq!(winners[0].0.buy_amount, 8);
    assert_eq!(winners[0].0.sell_amount, 8 * ONE_NEAR);
    // The later order is the boundary: 2 of 8 units, payment scaled
    // down pro rata: 8 NEAR * 2 / 8 = 2 NEAR.
    assert_eq!(winners[1].0.bidder, "second.test.near");
    assert_eq!(winners[1].0.buy_amount, 2);
    assert_eq!(winners[1].0.sell_amount, 2 * ONE_NEAR);

    assert_eq!(c.get_final_auction_price(), ONE_NEAR);
}

#[test]
fn test_settle_before_deadline_rejected() {
    let mut c = new_auction(100, 50);
    place(&mut c, "alice.test.near", 1, 10);
    let r = c.settle_auction(BEFORE);
    assert_eq!(r, Err(AuctionError::BiddingStillOpen));
    assert!(!c.get_auction_info().is_settled);
    // At the deadline itself settlement is also rejected.
    assert_eq!(c.settle_auction(DEADLINE), Err(AuctionError::BiddingStillOpen));
}

#[test]
fn test_settle_twice_rejected() {
    let mut c = new_auction(100, 50);
    place(&mut c, "alice.test.near", 1, 10);
    assert_eq!(c.settle_auction(AFTER), Ok(()));
    let r = c.settle_auction(AFTER);
    assert_eq!(r, Err(AuctionError::AlreadySettled));
    assert_eq!(r.unwrap_err().kind(), ErrorKind::PreconditionViolation);
}

#[test]
fn test_settle_with_no_orders_rejected() {
    let mut c = new_auction(100, 50);
    let r = c.settle_auction(AFTER);
    assert_eq!(r, Err(AuctionError::NoOrders));
    assert!(!c.get_auction_info().is_settled);
}

#[test]
fn test_settle_boundary_payment_overflow_rejected() {
    // The boundary order's payment scaling multiplies its payment by
    // the remaining supply; at the extreme that overflows, and the
    // settlement must abort with no state change.
    let mut c = Contract::new("auctioneer.test.near".to_string(), 10, DEADLINE, 1);
    assert_eq!(
        c.place_order("alice.test.near".to_string(), 5, u128::MAX, BEFORE, true),
        Ok(())
    );
    assert_eq!(
        c.place_order("bob.test.near".to_string(), 10, u128::MAX, BEFORE, true),
        Ok(())
    );
    let r = c.settle_auction(AFTER);
    assert_eq!(r, Err(AuctionError::ArithmeticOverflow));
    assert_eq!(r.unwrap_err().kind(), ErrorKind::ArithmeticOverflow);
    let info = c.get_auction_info();
    assert!(!info.is_settled);
    assert_eq!(info.winning_orders.len(), 0);
}
