//! Bids and their unit-price order.
//!
//! An order offers `sell_amount` of the payment asset for `buy_amount`
//! units of the sale asset. Its unit price `sell_amount / buy_amount`
//! is never materialised: prices are compared by cross-multiplication,
//! so everything stays in the integer domain.

use vstd::prelude::*;

use crate::math::mul_lt;

verus! {

/// A bid: `bidder` offers `sell_amount` (smallest payment units) for
/// `buy_amount` units of the sale asset.
pub struct Order {
    pub bidder: String,
    pub buy_amount: u128,
    pub sell_amount: u128,
}

/// Mathematical image of an [`Order`].
pub struct OrderView {
    pub bidder: Seq<char>,
    pub buy_amount: int,
    pub sell_amount: int,
}

impl View for Order {
    type V = OrderView;

    open spec fn view(&self) -> OrderView {
        OrderView {
            bidder: self.bidder@,
            buy_amount: self.buy_amount as int,
            sell_amount: self.sell_amount as int,
        }
    }
}

impl DeepView for Order {
    type V = OrderView;

    open spec fn deep_view(&self) -> OrderView {
        self.view()
    }
}

impl Clone for Order {
    fn clone(&self) -> (r: Self)
        ensures
            r@ == self@,
    {
        Order {
            bidder: self.bidder.clone(),
            buy_amount: self.buy_amount,
            sell_amount: self.sell_amount,
        }
    }
}

/// An order the ledger can hold: positive quantity and payment.
pub open spec fn positive_order(o: OrderView) -> bool {
    o.buy_amount > 0 && o.sell_amount > 0
}

/// The unit price of `a` is at most that of `b`, by cross-multiplication:
/// `a.sell / a.buy <= b.sell / b.buy`.
pub open spec fn price_le(a: OrderView, b: OrderView) -> bool {
    a.sell_amount * b.buy_amount <= b.sell_amount * a.buy_amount
}

/// The unit price of `a` is strictly below that of `b`.
pub open spec fn price_lt(a: OrderView, b: OrderView) -> bool {
    a.sell_amount * b.buy_amount < b.sell_amount * a.buy_amount
}

/// `a` and `b` offer exactly the same unit price.
pub open spec fn price_eq(a: OrderView, b: OrderView) -> bool {
    a.sell_amount * b.buy_amount == b.sell_amount * a.buy_amount
}

/// Decides whether `a`'s unit price is strictly below `b`'s.
pub fn price_below(a: &Order, b: &Order) -> (r: bool)
    ensures
        r == price_lt(a@, b@),
{
    mul_lt(a.sell_amount, b.buy_amount, b.sell_amount, a.buy_amount)
}

/// The price comparison is transitive on orders with positive quantities.
pub proof fn lemma_price_trans(a: OrderView, b: OrderView, c: OrderView)
    requires
        a.buy_amount > 0,
        b.buy_amount > 0,
        c.buy_amount > 0,
        price_le(a, b),
        price_le(b, c),
    ensures
        price_le(a, c),
{
    assert(a.sell_amount * c.buy_amount <= c.sell_amount * a.buy_amount)
        by (nonlinear_arith)
        requires
            a.buy_amount > 0,
            b.buy_amount > 0,
            c.buy_amount > 0,
            a.sell_amount * b.buy_amount <= b.sell_amount * a.buy_amount,
            b.sell_amount * c.buy_amount <= c.sell_amount * b.buy_amount,
    ;
}

} // verus!
