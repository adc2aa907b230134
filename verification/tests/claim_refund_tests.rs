use batch_auction::{AuctionError, Contract, ErrorKind};

const ONE_NEAR: u128 = 1_000_000_000_000_000_000_000_000;
const DEADLINE: u64 = 600_000_000_000;
const BEFORE: u64 = 1_000_000_000;
const AFTER: u64 = DEADLINE + 1_000_000_000;

fn scenario_a() -> Contract {
    // Supply 100, reserve 50 NEAR for the pool (0.5 NEAR per unit).
    // X offers 70 NEAR for 60 units (1.166/unit), Y offers 55 for 50
    // (1.1/unit), Z offers 10 for 10 (1.0/unit).
    let mut c = Contract::new(
        "auctioneer.test.near".to_string(),
        100,
        DEADLINE,
        50 * ONE_NEAR,
    );
    let x = c.place_order("x.test.near".to_string(), 60, 70 * ONE_NEAR, BEFORE, true);
    assert_eq!(x, Ok(()));
    let y = c.place_order("y.test.near".to_string(), 50, 55 * ONE_NEAR, BEFORE, true);
    assert_eq!(y, Ok(()));
    let z = c.place_order("z.test.near".to_string(), 10, 10 * ONE_NEAR, BEFORE, true);
    assert_eq!(z, Ok(()));
    c
}

#[test]
fn test_claim_and_refund() {
    let mut c = scenario_a();
    assert_eq!(c.settle_auction(AFTER), Ok(()));

    // X wins 60 whole; Y is the boundary: 40 of 50 units at payment
    // 55 * 40 / 50 = 44 NEAR; Z loses.
    let winners = c.get_auction_winner();
    assert_eq!(winners.len(), 2);
    assert_eq!(winners[0].0.bidder, "x.test.near");
    assert_eq!(winners[0].0.buy_amount, 60);
    assert_eq!(winners[1].0.bidder, "y.test.near");
    assert_eq!(winners[1].0.buy_amount, 40);
    assert_eq!(winners[1].0.sell_amount, 44 * ONE_NEAR);

    // Clearing price: 44 NEAR / 40 units = 1.1 NEAR per unit.
    let price = c.get_final_auction_price();
    assert_eq!(price, 44 * ONE_NEAR / 40);
    assert_eq!(price, 1_100_000_000_000_000_000_000_000);

    // X claims 60 units and is refunded 70 - 1.1 * 60 = 4 NEAR.
    let x_claim = c.claim_tokens(&"x.test.near".to_string());
    assert_eq!(x_claim, Ok((60, 4 * ONE_NEAR)));

    // Y claims the partial fill; at the uniform price the refund is 0.
    let y_claim = c.claim_tokens(&"y.test.near".to_string());
    assert_eq!(y_claim, Ok((40, 0)));

    // Z is no winner: the claim is rejected, the refund returns the
    // full 10 NEAR payment.
    let z_claim = c.claim_tokens(&"z.test.near".to_string());
    assert_eq!(z_claim, Err(AuctionError::NothingToClaim));
    let z_refund = c.refund_deposit(&"z.test.near".to_string());
    assert_eq!(z_refund, Ok(10 * ONE_NEAR));

    // Round trip: claims moved 60 + 40 = 100 units, the whole supply,
    // and the organizer retains (70 - 4) + (44 - 0) = 110 NEAR, which
    // is the clearing price times the quantity sold.
    assert_eq!(60 + 40, 100);
    assert_eq!((70 - 4 + 44) * ONE_NEAR, price * 100);
}

#[test]
fn test_second_claim_fails_and_changes_nothing() {
    let mut c = scenario_a();
    assert_eq!(c.settle_auction(AFTER), Ok(()));

    assert!(c.claim_tokens(&"x.test.near".to_string()).is_ok());
    let before = c.get_auction_winner();

    let again = c.claim_tokens(&"x.test.near".to_string());
    assert_eq!(again, Err(AuctionError::NothingToClaim));
    assert_eq!(again.unwrap_err().kind(), ErrorKind::IneligibleClaimOrRefund);

    let after = c.get_auction_winner();
    assert_eq!(before.len(), after.len());
    for i in 0..before.len() {
        assert_eq!(before[i].0.bidder, after[i].0.bidder);
        assert_eq!(before[i].0.buy_amount, after[i].0.buy_amount);
        assert_eq!(before[i].0.sell_amount, after[i].0.sell_amount);
        assert_eq!(before[i].1, after[i].1);
    }
}

#[test]
fn test_second_refund_fails_and_changes_nothing() {
    let mut c = scenario_a();
    assert_eq!(c.settle_auction(AFTER), Ok(()));

    assert_eq!(
        c.refund_deposit(&"z.test.near".to_string()),
        Ok(10 * ONE_NEAR)
    );
    let again = c.refund_deposit(&"z.test.near".to_string());
    assert_eq!(again, Err(AuctionError::AlreadyRefunded));
    assert_eq!(again.unwrap_err().kind(), ErrorKind::IneligibleClaimOrRefund);
    assert_eq!(c.get_auction_info().refunded_orders.len(), 1);
}

#[test]
fn test_winner_cannot_refund() {
    let mut c = scenario_a();
    assert_eq!(c.settle_auction(AFTER), Ok(()));
    let r = c.refund_deposit(&"x.test.near".to_string());
    assert_eq!(r, Err(AuctionError::WinnerCannotRefund));
}

#[test]
fn test_claim_before_settlement_rejected() {
    let mut c = scenario_a();
    let r = c.claim_tokens(&"x.test.near".to_string());
    assert_eq!(r, Err(AuctionError::NotSettled));
    assert_eq!(r.unwrap_err().kind(), ErrorKind::PreconditionViolation);
    let r2 = c.refund_deposit(&"z.test.near".to_string());
    assert_eq!(r2, Err(AuctionError::NotSettled));
}

#[test]
fn test_claim_without_any_order_rejected() {
    let mut c = scenario_a();
    assert_eq!(c.settle_auction(AFTER), Ok(()));
    let r = c.claim_tokens(&"stranger.test.near".to_string());
    assert_eq!(r, Err(AuctionError::NothingToClaim));
    let r2 = c.refund_deposit(&"stranger.test.near".to_string());
    assert_eq!(r2, Err(AuctionError::NoOrderFound));
    assert_eq!(r2.unwrap_err().kind(), ErrorKind::IneligibleClaimOrRefund);
}

#[test]
fn test_bidder_with_two_winning_orders_claims_each_once() {
    let mut c = Contract::new(
        "auctioneer.test.near".to_string(),
        100,
        DEADLINE,
        ONE_NEAR,
    );
    assert_eq!(
        c.place_order("alice.test.near".to_string(), 10, 30 * ONE_NEAR, BEFORE, true),
        Ok(())
    );
    assert_eq!(
        c.place_order("alice.test.near".to_string(), 20, 40 * ONE_NEAR, BEFORE, true),
        Ok(())
    );
    assert_eq!(c.settle_auction(AFTER), Ok(()));

    // Both orders win whole; price comes from the last winner:
    // 40 NEAR / 20 units = 2 NEAR per unit.
    let price = c.get_final_auction_price();
    assert_eq!(price, 2 * ONE_NEAR);

    // The first claim settles the first entry (10 units, 30 NEAR paid,
    // owes 20): refund 10 NEAR. The second settles the second entry
    // (20 units, 40 NEAR paid, owes 40): refund 0.
    assert_eq!(
        c.claim_tokens(&"alice.test.near".to_string()),
        Ok((10, 10 * ONE_NEAR))
    );
    assert_eq!(c.claim_tokens(&"alice.test.near".to_string()), Ok((20, 0)));
    assert_eq!(
        c.claim_tokens(&"alice.test.near".to_string()),
        Err(AuctionError::NothingToClaim)
    );
}

#[test]
fn test_claimed_flags_recorded() {
    let mut c = scenario_a();
    assert_eq!(c.settle_auction(AFTER), Ok(()));
    assert!(!c.get_auction_winner()[0].1);
    assert!(c.claim_tokens(&"x.test.near".to_string()).is_ok());
    let winners = c.get_auction_winner();
    assert!(winners[0].1);
    assert!(!winners[1].1);
}
