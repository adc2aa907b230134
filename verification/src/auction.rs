//! The auction state and its four operations: place an order, settle,
//! claim, refund.
//!
//! Every operation is atomic: a failed precondition returns an error
//! and leaves the state exactly as it was. Once settled, the winner
//! set and the clearing price never change again (only the per-entry
//! claimed flags and the refunded set do).

use vstd::prelude::*;

use crate::clearing::{
    allocate_winners, allocation_overflows, entries_view, sum_buy, sum_sell,
    unclaimed_entries, winner_shape, winners_of,
};
use crate::math::{mul_lt, saturating_mul};
use crate::order::{Order, OrderView};
use crate::sorting::{sort_desc, sort_orders_list, sorted_desc};

verus! {

/// Why an operation was rejected. Every rejection leaves the state
/// untouched.
#[derive(Clone, Copy, Debug, PartialEq, Eq, Structural)]
pub enum AuctionError {
    /// The bidder is not registered with the token ledger.
    BidderNotRegistered,
    /// The bidding deadline has passed.
    BiddingClosed,
    /// The attached payment is zero.
    ZeroSellAmount,
    /// The requested quantity exceeds the auctioned supply.
    BuyAmountTooLarge,
    /// The requested quantity is zero.
    ZeroBuyAmount,
    /// The offered unit price is below the reserve price.
    PriceBelowReserve,
    /// The bidding deadline has not passed yet.
    BiddingStillOpen,
    /// The auction has already been settled.
    AlreadySettled,
    /// There are no orders to clear.
    NoOrders,
    /// Scaling the boundary payment would overflow.
    ArithmeticOverflow,
    /// The auction has not been settled yet.
    NotSettled,
    /// The caller has no winning entry left to claim.
    NothingToClaim,
    /// The caller never placed an order.
    NoOrderFound,
    /// The attached deposit does not cover the registration minimum.
    DepositTooSmall,
    /// The caller has already taken their refund.
    AlreadyRefunded,
    /// A winner cannot take the loser refund.
    WinnerCannotRefund,
}

/// The three classes of rejection.
#[derive(Clone, Copy, Debug, PartialEq, Eq, Structural)]
pub enum ErrorKind {
    /// A phase or input precondition did not hold.
    PreconditionViolation,
    /// An amount computation would overflow.
    ArithmeticOverflow,
    /// A claim or refund that is not (or no longer) owed.
    IneligibleClaimOrRefund,
}

impl AuctionError {
    /// The class this error belongs to.
    pub open spec fn kind_spec(self) -> ErrorKind {
        match self {
            AuctionError::ArithmeticOverflow => ErrorKind::ArithmeticOverflow,
            AuctionError::NothingToClaim => ErrorKind::IneligibleClaimOrRefund,
            AuctionError::NoOrderFound => ErrorKind::IneligibleClaimOrRefund,
            AuctionError::AlreadyRefunded => ErrorKind::IneligibleClaimOrRefund,
            AuctionError::WinnerCannotRefund => ErrorKind::IneligibleClaimOrRefund,
            _ => ErrorKind::PreconditionViolation,
        }
    }

    /// Classifies the error.
    pub fn kind(&self) -> (k: ErrorKind)
        ensures
            k == self.kind_spec(),
    {
        match self {
            AuctionError::ArithmeticOverflow => ErrorKind::ArithmeticOverflow,
            AuctionError::NothingToClaim => ErrorKind::IneligibleClaimOrRefund,
            AuctionError::NoOrderFound => ErrorKind::IneligibleClaimOrRefund,
            AuctionError::AlreadyRefunded => ErrorKind::IneligibleClaimOrRefund,
            AuctionError::WinnerCannotRefund => ErrorKind::IneligibleClaimOrRefund,
            _ => ErrorKind::PreconditionViolation,
        }
    }
}

/// The auction record: parameters fixed at creation, then the outcome
/// of settlement.
pub struct Auction {
    /// The party that receives the proceeds.
    pub auctioner: String,
    /// Absolute time after which bidding closes and settlement may run.
    pub auction_duration: u64,
    /// Total quantity of the sale asset on offer.
    pub auctioned_sell_amount: u128,
    /// Reserve: minimum total payment asked for the whole supply.
    pub min_buy_amount: u128,
    /// Whether the clearing engine has run; irreversible.
    pub is_settled: bool,
    /// Winner entries with their claimed flags; empty until settled.
    pub winning_orders: Vec<(Order, bool)>,
    /// Uniform payment per unit applied to every winner; zero until
    /// settled.
    pub final_auction_price: u128,
    /// Orders whose full payment has been refunded to a loser.
    pub refunded_orders: Vec<Order>,
}

/// Mathematical image of an [`Auction`].
#[verifier::ext_equal]
pub struct AuctionView {
    pub auctioner: Seq<char>,
    pub auction_duration: int,
    pub auctioned_sell_amount: int,
    pub min_buy_amount: int,
    pub is_settled: bool,
    pub winning_orders: Seq<(OrderView, bool)>,
    pub final_auction_price: int,
    pub refunded_orders: Seq<OrderView>,
}

impl View for Auction {
    type V = AuctionView;

    open spec fn view(&self) -> AuctionView {
        AuctionView {
            auctioner: self.auctioner@,
            auction_duration: self.auction_duration as int,
            auctioned_sell_amount: self.auctioned_sell_amount as int,
            min_buy_amount: self.min_buy_amount as int,
            is_settled: self.is_settled,
            winning_orders: entries_view(self.winning_orders@),
            final_auction_price: self.final_auction_price as int,
            refunded_orders: self.refunded_orders.deep_view(),
        }
    }
}

/// The whole auction state: the record plus the append-only order
/// ledger.
pub struct Contract {
    pub auction: Auction,
    pub orders: Vec<Order>,
}

/// Mathematical image of a [`Contract`].
#[verifier::ext_equal]
pub struct ContractView {
    pub auction: AuctionView,
    pub orders: Seq<OrderView>,
}

impl View for Contract {
    type V = ContractView;

    open spec fn view(&self) -> ContractView {
        ContractView { auction: self.auction@, orders: self.orders.deep_view() }
    }
}

/// An order the ledger accepts: positive amounts, quantity within the
/// supply.
pub open spec fn valid_ledger_order(o: OrderView, supply: int) -> bool {
    0 < o.buy_amount <= supply && o.sell_amount > 0
}

/// The order components of the winner entries.
pub open spec fn winner_orders(ws: Seq<(OrderView, bool)>) -> Seq<OrderView> {
    Seq::new(ws.len(), |i: int| ws[i].0)
}

/// What settlement establishes and every later operation preserves.
pub open spec fn settled_wf(a: AuctionView) -> bool {
    let w = winner_orders(a.winning_orders);
    &&& a.winning_orders.len() > 0
    &&& winner_shape(w)
    &&& sorted_desc(w)
    &&& sum_buy(w) <= a.auctioned_sell_amount
    &&& a.final_auction_price == w.last().sell_amount / w.last().buy_amount
}

/// Well-formedness of the auction state.
pub open spec fn wf(c: ContractView) -> bool {
    &&& forall|i: int|
        0 <= i < c.orders.len() ==> valid_ledger_order(
            #[trigger] c.orders[i],
            c.auction.auctioned_sell_amount,
        )
    &&& !c.auction.is_settled ==> (c.auction.winning_orders.len() == 0
        && c.auction.final_auction_price == 0
        && c.auction.refunded_orders.len() == 0)
    &&& c.auction.is_settled ==> settled_wf(c.auction)
}

/// The first rejection [`Contract::place_order`] reports, if any, in
/// the order the checks run.
pub open spec fn place_order_error(
    c: ContractView,
    buy_amount: int,
    sell_amount: int,
    now: int,
    registered: bool,
) -> Option<AuctionError> {
    if !registered {
        Some(AuctionError::BidderNotRegistered)
    } else if now >= c.auction.auction_duration {
        Some(AuctionError::BiddingClosed)
    } else if sell_amount <= 0 {
        Some(AuctionError::ZeroSellAmount)
    } else if buy_amount > c.auction.auctioned_sell_amount {
        Some(AuctionError::BuyAmountTooLarge)
    } else if buy_amount <= 0 {
        Some(AuctionError::ZeroBuyAmount)
    } else if sell_amount * c.auction.auctioned_sell_amount
        < c.auction.min_buy_amount * buy_amount {
        Some(AuctionError::PriceBelowReserve)
    } else {
        None
    }
}

/// The first rejection [`Contract::settle_auction`] reports, if any.
pub open spec fn settle_error(c: ContractView, now: int) -> Option<
    AuctionError,
> {
    if now <= c.auction.auction_duration {
        Some(AuctionError::BiddingStillOpen)
    } else if c.auction.is_settled {
        Some(AuctionError::AlreadySettled)
    } else if c.orders.len() == 0 {
        Some(AuctionError::NoOrders)
    } else if allocation_overflows(
        sort_desc(c.orders),
        c.auction.auctioned_sell_amount,
    ) {
        Some(AuctionError::ArithmeticOverflow)
    } else {
        None
    }
}

/// The state settlement leaves behind: ledger ranked, winner entries
/// unclaimed, the uniform price taken from the last winner.
pub open spec fn settled_view(c: ContractView) -> ContractView {
    let sorted = sort_desc(c.orders);
    let winners = winners_of(sorted, c.auction.auctioned_sell_amount);
    ContractView {
        orders: sorted,
        auction: AuctionView {
            is_settled: true,
            winning_orders: unclaimed_entries(winners),
            final_auction_price: winners.last().sell_amount
                / winners.last().buy_amount,
            ..c.auction
        },
    }
}

/// Ranking keeps every ledger order valid: the ranked list holds the
/// same orders.
proof fn lemma_sorted_orders_valid(s: Seq<OrderView>, supply: int)
    requires
        forall|i: int|
            0 <= i < s.len() ==> valid_ledger_order(#[trigger] s[i], supply),
    ensures
        crate::sorting::all_positive(s),
        crate::sorting::all_positive(sort_desc(s)),
        sort_desc(s).len() == s.len(),
        forall|i: int|
            0 <= i < sort_desc(s).len() ==> valid_ledger_order(
                #[trigger] sort_desc(s)[i],
                supply,
            ),
        sorted_desc(sort_desc(s)),
{
    crate::sorting::lemma_sort_desc_props(s);
    let r = sort_desc(s);
    s.to_multiset_ensures();
    r.to_multiset_ensures();
    assert forall|i: int| 0 <= i < r.len() implies valid_ledger_order(
        #[trigger] r[i],
        supply,
    ) by {
        assert(r.contains(r[i]));
        assert(r.to_multiset().count(r[i]) > 0);
        assert(s.contains(r[i]));
        let j = choose|j: int| 0 <= j < s.len() && s[j] == r[i];
        assert(valid_ledger_order(s[j], supply));
    }
}

/// Index of the first winner entry of `b` that is still unclaimed.
pub open spec fn find_unclaimed(ws: Seq<(OrderView, bool)>, b: Seq<char>) -> Option<
    int,
>
    decreases ws.len(),
{
    if ws.len() == 0 {
        None
    } else if ws[0].0.bidder == b && !ws[0].1 {
        Some(0)
    } else {
        match find_unclaimed(ws.drop_first(), b) {
            Some(i) => Some(i + 1),
            None => None,
        }
    }
}

/// Index of the first ledger order placed by `b`.
pub open spec fn find_order(s: Seq<OrderView>, b: Seq<char>) -> Option<int>
    decreases s.len(),
{
    if s.len() == 0 {
        None
    } else if s[0].bidder == b {
        Some(0)
    } else {
        match find_order(s.drop_first(), b) {
            Some(i) => Some(i + 1),
            None => None,
        }
    }
}

/// Whether some order of `s` was placed by `b`.
pub open spec fn contains_bidder(s: Seq<OrderView>, b: Seq<char>) -> bool {
    exists|i: int| 0 <= i < s.len() && (#[trigger] s[i]).bidder == b
}

/// Whether `b` owns some winner entry.
pub open spec fn winners_include(
    ws: Seq<(OrderView, bool)>,
    b: Seq<char>,
) -> bool {
    exists|i: int| 0 <= i < ws.len() && (#[trigger] ws[i]).0.bidder == b
}

/// The overpayment returned at claim time: the winner's original
/// payment minus what the uniform price asks, clamped at zero.
pub open spec fn claim_refund(o: OrderView, price: int) -> int {
    let cost = if price * o.buy_amount > u128::MAX {
        u128::MAX as int
    } else {
        price * o.buy_amount
    };
    if o.sell_amount - cost < 0 {
        0
    } else {
        o.sell_amount - cost
    }
}

/// The rejection [`Contract::claim_tokens`] reports, if any.
pub open spec fn claim_error(c: ContractView, b: Seq<char>) -> Option<
    AuctionError,
> {
    if !c.auction.is_settled {
        Some(AuctionError::NotSettled)
    } else if find_unclaimed(c.auction.winning_orders, b) is None {
        Some(AuctionError::NothingToClaim)
    } else {
        None
    }
}

/// The state a successful claim of entry `i` leaves behind: only that
/// entry's claimed flag is set.
pub open spec fn claimed_view(c: ContractView, i: int) -> ContractView {
    ContractView {
        auction: AuctionView {
            winning_orders: c.auction.winning_orders.update(
                i,
                (c.auction.winning_orders[i].0, true),
            ),
            ..c.auction
        },
        ..c
    }
}

/// The state a successful refund of the order at index `i` leaves
/// behind: that order joins the refunded set.
pub open spec fn refunded_view(c: ContractView, i: int) -> ContractView {
    ContractView {
        auction: AuctionView {
            refunded_orders: c.auction.refunded_orders.push(c.orders[i]),
            ..c.auction
        },
        ..c
    }
}

/// The rejection [`Contract::refund_deposit`] reports, if any.
pub open spec fn refund_error(c: ContractView, b: Seq<char>) -> Option<
    AuctionError,
> {
    if !c.auction.is_settled {
        Some(AuctionError::NotSettled)
    } else if find_order(c.orders, b) is None {
        Some(AuctionError::NoOrderFound)
    } else if contains_bidder(c.auction.refunded_orders, b) {
        Some(AuctionError::AlreadyRefunded)
    } else if winners_include(c.auction.winning_orders, b) {
        Some(AuctionError::WinnerCannotRefund)
    } else {
        None
    }
}

/// Finds the first still-unclaimed winner entry of `claimer`.
fn find_unclaimed_index(ws: &Vec<(Order, bool)>, claimer: &String) -> (r: Option<
    usize,
>)
    ensures
        match r {
            Some(i) => 0 <= i < ws@.len() && find_unclaimed(
                entries_view(ws@),
                claimer@,
            ) == Some(i as int),
            None => find_unclaimed(entries_view(ws@), claimer@) is None,
        },
{
    let ghost ev = entries_view(ws@);
    let n = ws.len();
    let mut i: usize = 0;
    proof {
        assert(ev.skip(0) =~= ev);
    }
    while i < n
        invariant
            n == ws@.len(),
            ev == entries_view(ws@),
            0 <= i <= n,
            find_unclaimed(ev, claimer@) == (match find_unclaimed(
                ev.skip(i as int),
                claimer@,
            ) {
                Some(j) => Some(i + j),
                None => None::<int>,
            }),
        decreases n - i,
    {
        let ghost tail = ev.skip(i as int);
        proof {
            assert(tail[0] == ev[i as int]);
            assert(tail.drop_first() =~= ev.skip(i as int + 1));
            assert(ev[i as int] == (ws@[i as int].0@, ws@[i as int].1));
        }
        let e = &ws[i];
        if e.0.bidder.eq(claimer) && !e.1 {
            return Some(i);
        }
        i += 1;
    }
    proof {
        assert(ev.skip(n as int) =~= Seq::<(OrderView, bool)>::empty());
    }
    None
}

/// Finds the first ledger order of `claimer`.
fn find_order_index(orders: &Vec<Order>, claimer: &String) -> (r: Option<
    usize,
>)
    ensures
        match r {
            Some(i) => 0 <= i < orders@.len() && find_order(
                orders.deep_view(),
                claimer@,
            ) == Some(i as int),
            None => find_order(orders.deep_view(), claimer@) is None,
        },
{
    let ghost dv = orders.deep_view();
    let n = orders.len();
    let mut i: usize = 0;
    proof {
        assert(dv.skip(0) =~= dv);
    }
    while i < n
        invariant
            n == orders@.len(),
            dv == orders.deep_view(),
            0 <= i <= n,
            find_order(dv, claimer@) == (match find_order(
                dv.skip(i as int),
                claimer@,
            ) {
                Some(j) => Some(i + j),
                None => None::<int>,
            }),
        decreases n - i,
    {
        let ghost tail = dv.skip(i as int);
        proof {
            assert(tail[0] == dv[i as int]);
            assert(tail.drop_first() =~= dv.skip(i as int + 1));
        }
        if orders[i].bidder.eq(claimer) {
            return Some(i);
        }
        i += 1;
    }
    proof {
        assert(dv.skip(n as int) =~= Seq::<OrderView>::empty());
    }
    None
}

/// Whether `claimer` owns any winner entry.
fn winners_contain(ws: &Vec<(Order, bool)>, claimer: &String) -> (r: bool)
    ensures
        r == winners_include(entries_view(ws@), claimer@),
{
    let ghost ev = entries_view(ws@);
    let n = ws.len();
    let mut i: usize = 0;
    while i < n
        invariant
            n == ws@.len(),
            ev == entries_view(ws@),
            0 <= i <= n,
            forall|k: int| 0 <= k < i ==> (#[trigger] ev[k]).0.bidder != claimer@,
        decreases n - i,
    {
        proof {
            assert(ev[i as int] == (ws@[i as int].0@, ws@[i as int].1));
        }
        if ws[i].0.bidder.eq(claimer) {
            assert(ev[i as int].0.bidder == claimer@);
            return true;
        }
        i += 1;
    }
    false
}

/// Whether `claimer` already took a refund.
fn refunded_contains(rs: &Vec<Order>, claimer: &String) -> (r: bool)
    ensures
        r == contains_bidder(rs.deep_view(), claimer@),
{
    let ghost dv = rs.deep_view();
    let n = rs.len();
    let mut i: usize = 0;
    while i < n
        invariant
            n == rs@.len(),
            dv == rs.deep_view(),
            0 <= i <= n,
            forall|k: int| 0 <= k < i ==> (#[trigger] dv[k]).bidder != claimer@,
        decreases n - i,
    {
        if rs[i].bidder.eq(claimer) {
            assert(dv[i as int].bidder == claimer@);
            return true;
        }
        i += 1;
    }
    false
}

impl Contract {
    /// Creates the auction: parameters fixed, ledger empty, not yet
    /// settled. Minting the supply to the custody account is the token
    /// ledger's business, not this record's.
    pub fn new(
        owner_id: String,
        total_supply: u128,
        auction_duration: u64,
        min_buy_amount: u128,
    ) -> (c: Contract)
        ensures
            wf(c@),
            c@.auction.auctioner == owner_id@,
            c@.auction.auction_duration == auction_duration as int,
            c@.auction.auctioned_sell_amount == total_supply as int,
            c@.auction.min_buy_amount == min_buy_amount as int,
            !c@.auction.is_settled,
            c@.auction.winning_orders.len() == 0,
            c@.auction.final_auction_price == 0,
            c@.auction.refunded_orders.len() == 0,
            c@.orders.len() == 0,
    {
        let c = Contract {
            auction: Auction {
                auctioner: owner_id,
                auction_duration,
                auctioned_sell_amount: total_supply,
                min_buy_amount,
                is_settled: false,
                winning_orders: Vec::new(),
                final_auction_price: 0,
                refunded_orders: Vec::new(),
            },
            orders: Vec::new(),
        };
        proof {
            assert(entries_view(c.auction.winning_orders@) =~= Seq::<
                (OrderView, bool),
            >::empty());
            assert(c.auction.refunded_orders.deep_view() =~= Seq::<
                OrderView,
            >::empty());
            assert(c.orders.deep_view() =~= Seq::<OrderView>::empty());
        }
        c
    }

    /// Appends a bid to the ledger, or rejects it. The caller supplies
    /// the clock reading and whether the bidder is registered with the
    /// token ledger; the attached payment is `sell_amount`.
    pub fn place_order(
        &mut self,
        bidder: String,
        buy_amount: u128,
        sell_amount: u128,
        now: u64,
        bidder_registered: bool,
    ) -> (r: Result<(), AuctionError>)
        requires
            wf(old(self)@),
        ensures
            wf(final(self)@),
            match place_order_error(
                old(self)@,
                buy_amount as int,
                sell_amount as int,
                now as int,
                bidder_registered,
            ) {
                Some(e) => r == Err::<(), AuctionError>(e) && final(self)@
                    == old(self)@,
                None => r == Ok::<(), AuctionError>(()) && final(self)@ == (
                ContractView {
                    orders: old(self)@.orders.push(
                        OrderView {
                            bidder: bidder@,
                            buy_amount: buy_amount as int,
                            sell_amount: sell_amount as int,
                        },
                    ),
                    ..old(self)@
                }),
            },
    {
        if !bidder_registered {
            return Err(AuctionError::BidderNotRegistered);
        }
        if now >= self.auction.auction_duration {
            return Err(AuctionError::BiddingClosed);
        }
        if sell_amount == 0 {
            return Err(AuctionError::ZeroSellAmount);
        }
        if buy_amount > self.auction.auctioned_sell_amount {
            return Err(AuctionError::BuyAmountTooLarge);
        }
        if buy_amount == 0 {
            return Err(AuctionError::ZeroBuyAmount);
        }
        if mul_lt(
            sell_amount,
            self.auction.auctioned_sell_amount,
            self.auction.min_buy_amount,
            buy_amount,
        ) {
            return Err(AuctionError::PriceBelowReserve);
        }
        let order = Order { bidder, buy_amount, sell_amount };
        let ghost prev = self@;
        let ghost ov = order@;
        self.orders.push(order);
        proof {
            assert(self.orders.deep_view() =~= prev.orders.push(ov));
            assert(self@ =~= (ContractView {
                orders: prev.orders.push(ov),
                ..prev
            }));
        }
        Ok(())
    }

    /// Runs the clearing engine once: ranks the ledger, builds the
    /// winner set with at most one boundary partial fill, and fixes
    /// the uniform clearing price from the last winner. Callable only
    /// after the deadline, exactly once, and only on a non-empty
    /// ledger.
    pub fn settle_auction(&mut self, now: u64) -> (r: Result<
        (),
        AuctionError,
    >)
        requires
            wf(old(self)@),
        ensures
            wf(final(self)@),
            match settle_error(old(self)@, now as int) {
                Some(e) => r == Err::<(), AuctionError>(e) && final(self)@
                    == old(self)@,
                None => r == Ok::<(), AuctionError>(()) && final(self)@
                    == settled_view(old(self)@),
            },
    {
        if now <= self.auction.auction_duration {
            return Err(AuctionError::BiddingStillOpen);
        }
        if self.auction.is_settled {
            return Err(AuctionError::AlreadySettled);
        }
        if self.orders.len() == 0 {
            return Err(AuctionError::NoOrders);
        }
        let ghost prev = self@;
        let ghost supply = self.auction.auctioned_sell_amount as int;
        proof {
            lemma_sorted_orders_valid(prev.orders, supply);
        }
        let sorted_vec = sort_orders_list(&self.orders);
        let ghost sorted = sort_desc(prev.orders);
        let ghost winners = winners_of(sorted, supply);
        match allocate_winners(&sorted_vec, self.auction.auctioned_sell_amount)
        {
            None => Err(AuctionError::ArithmeticOverflow),
            Some(winners_vec) => {
                proof {
                    assert(winners.len() > 0) by {
                        assert(valid_ledger_order(sorted[0], supply));
                    }
                    assert(entries_view(winners_vec@).len()
                        == unclaimed_entries(winners).len());
                    crate::clearing::lemma_winners_sorted(sorted, supply);
                    crate::clearing::lemma_winners_quantity(sorted, supply);
                }
                let n = winners_vec.len();
                let last = &winners_vec[n - 1].0;
                proof {
                    assert(entries_view(winners_vec@)[n - 1]
                        == unclaimed_entries(winners)[n - 1]);
                    assert(last@ == winners.last());
                    assert(winners.last().buy_amount > 0);
                }
                let price = last.sell_amount / last.buy_amount;
                self.orders = sorted_vec;
                self.auction.winning_orders = winners_vec;
                self.auction.final_auction_price = price;
                self.auction.is_settled = true;
                proof {
                    assert(self@.orders =~= sorted);
                    assert(self@ =~= settled_view(prev));
                    let ws = self@.auction.winning_orders;
                    assert(winner_orders(ws) =~= winners);
                    assert(wf(self@));
                }
                Ok(())
            },
        }
    }

    /// Settles the claim of `claimer`'s first unclaimed winner entry:
    /// marks it claimed and returns the token quantity to hand over
    /// and the overpayment to return. Each entry can be claimed
    /// exactly once; the caller performs both transfers after this
    /// commits.
    pub fn claim_tokens(&mut self, claimer: &String) -> (r: Result<
        (u128, u128),
        AuctionError,
    >)
        requires
            wf(old(self)@),
        ensures
            wf(final(self)@),
            match claim_error(old(self)@, claimer@) {
                Some(e) => r == Err::<(u128, u128), AuctionError>(e)
                    && final(self)@ == old(self)@,
                None => match find_unclaimed(
                    old(self)@.auction.winning_orders,
                    claimer@,
                ) {
                    Some(i) => final(self)@ == claimed_view(old(self)@, i) && (
                    r matches Ok(p)
                    && p.0 as int
                        == old(self)@.auction.winning_orders[i].0.buy_amount
                    && p.1 as int == claim_refund(
                        old(self)@.auction.winning_orders[i].0,
                        old(self)@.auction.final_auction_price,
                    )),
                    None => false,
                },
            },
    {
        if !self.auction.is_settled {
            return Err(AuctionError::NotSettled);
        }
        let ghost prev = self@;
        let found = find_unclaimed_index(&self.auction.winning_orders, claimer);
        match found {
            None => Err(AuctionError::NothingToClaim),
            Some(idx) => {
                let ghost i = idx as int;
                let ghost ws = prev.auction.winning_orders;
                proof {
                    lemma_find_unclaimed_in_range(ws, claimer@);
                }
                let (order, _was_claimed) = self.auction.winning_orders.remove(
                    idx,
                );
                let quantity = order.buy_amount;
                let payment = order.sell_amount;
                self.auction.winning_orders.insert(idx, (order, true));
                let cost = saturating_mul(
                    self.auction.final_auction_price,
                    quantity,
                );
                let refund = payment.saturating_sub(cost);
                proof {
                    assert(self.auction.winning_orders@ =~= old(
                        self,
                    ).auction.winning_orders@.update(
                        i,
                        (old(self).auction.winning_orders@[i].0, true),
                    ));
                    assert(entries_view(self.auction.winning_orders@)
                        =~= ws.update(i, (ws[i].0, true)));
                    assert(self@ =~= claimed_view(prev, i));
                    assert(winner_orders(self@.auction.winning_orders)
                        =~= winner_orders(ws));
                    assert(wf(self@));
                }
                Ok((quantity, refund))
            },
        }
    }

    /// Returns the full payment of `claimer`'s first order, provided
    /// the auction is settled, `claimer` placed an order, won nothing,
    /// and has not been refunded before. The bidder is recorded so a
    /// second refund is rejected; the caller performs the transfer.
    pub fn refund_deposit(&mut self, claimer: &String) -> (r: Result<
        u128,
        AuctionError,
    >)
        requires
            wf(old(self)@),
        ensures
            wf(final(self)@),
            match refund_error(old(self)@, claimer@) {
                Some(e) => r == Err::<u128, AuctionError>(e) && final(self)@
                    == old(self)@,
                None => match find_order(old(self)@.orders, claimer@) {
                    Some(i) => final(self)@ == refunded_view(old(self)@, i)
                        && (r matches Ok(p)
                        && p as int == old(self)@.orders[i].sell_amount),
                    None => false,
                },
            },
    {
        if !self.auction.is_settled {
            return Err(AuctionError::NotSettled);
        }
        let ghost prev = self@;
        let found = find_order_index(&self.orders, claimer);
        match found {
            None => Err(AuctionError::NoOrderFound),
            Some(idx) => {
                if refunded_contains(&self.auction.refunded_orders, claimer) {
                    return Err(AuctionError::AlreadyRefunded);
                }
                if winners_contain(&self.auction.winning_orders, claimer) {
                    return Err(AuctionError::WinnerCannotRefund);
                }
                let ghost i = idx as int;
                let order = self.orders[idx].clone();
                let payment = order.sell_amount;
                self.auction.refunded_orders.push(order);
                proof {
                    assert(self.auction.refunded_orders.deep_view()
                        =~= prev.auction.refunded_orders.push(prev.orders[i]));
                    assert(self@ =~= refunded_view(prev, i));
                    assert(winner_orders(self@.auction.winning_orders)
                        =~= winner_orders(prev.auction.winning_orders));
                    assert(wf(self@));
                }
                Ok(payment)
            },
        }
    }
}

/// Copies an order list element by element.
fn clone_orders(v: &Vec<Order>) -> (r: Vec<Order>)
    ensures
        r.deep_view() == v.deep_view(),
{
    let n = v.len();
    let mut r: Vec<Order> = Vec::new();
    let mut i: usize = 0;
    while i < n
        invariant
            n == v@.len(),
            0 <= i <= n,
            r.deep_view() =~= v.deep_view().take(i as int),
        decreases n - i,
    {
        let ghost prev = r.deep_view();
        r.push(v[i].clone());
        proof {
            assert(r.deep_view() =~= prev.push(v.deep_view()[i as int]));
            assert(v.deep_view().take(i as int + 1) =~= prev.push(
                v.deep_view()[i as int],
            ));
        }
        i += 1;
    }
    proof {
        assert(v.deep_view().take(n as int) =~= v.deep_view());
    }
    r
}

/// Copies a winner-entry list element by element.
fn clone_entries(v: &Vec<(Order, bool)>) -> (r: Vec<(Order, bool)>)
    ensures
        entries_view(r@) == entries_view(v@),
{
    let n = v.len();
    let mut r: Vec<(Order, bool)> = Vec::new();
    let mut i: usize = 0;
    proof {
        assert(entries_view(r@) =~= entries_view(v@).take(0));
    }
    while i < n
        invariant
            n == v@.len(),
            0 <= i <= n,
            entries_view(r@) =~= entries_view(v@).take(i as int),
        decreases n - i,
    {
        let ghost prev = entries_view(r@);
        let ghost prev_raw = r@;
        let e = &v[i];
        r.push((e.0.clone(), e.1));
        proof {
            assert forall|k: int|
                0 <= k < entries_view(r@).len() implies entries_view(r@)[k]
                == prev.push(entries_view(v@)[i as int])[k] by {
                assert(entries_view(r@)[k] == (r@[k].0@, r@[k].1));
                if k < prev_raw.len() {
                    assert(r@[k] == prev_raw[k]);
                    assert(prev[k] == (prev_raw[k].0@, prev_raw[k].1));
                } else {
                    assert(entries_view(v@)[i as int] == (
                        v@[i as int].0@,
                        v@[i as int].1,
                    ));
                }
            }
            assert(entries_view(r@) =~= prev.push(
                entries_view(v@)[i as int],
            ));
            assert(entries_view(v@).take(i as int + 1) =~= prev.push(
                entries_view(v@)[i as int],
            ));
        }
        i += 1;
    }
    proof {
        assert(entries_view(v@).take(n as int) =~= entries_view(v@));
    }
    r
}

/// Total overpayment returned across a winner list at a uniform
/// price.
pub open spec fn sum_refunds(w: Seq<OrderView>, price: int) -> int
    decreases w.len(),
{
    if w.len() == 0 {
        0
    } else {
        claim_refund(w[0], price) + sum_refunds(w.drop_first(), price)
    }
}

/// Law: a settlement never hands out more than the supply, and hands
/// out all of it unless total demand falls short.
pub proof fn lemma_settlement_supply(c: ContractView, now: int)
    requires
        wf(c),
        settle_error(c, now) is None,
    ensures
        sum_buy(winner_orders(settled_view(c).auction.winning_orders))
            <= c.auction.auctioned_sell_amount,
        sum_buy(c.orders) >= c.auction.auctioned_sell_amount ==> sum_buy(
            winner_orders(settled_view(c).auction.winning_orders),
        ) == c.auction.auctioned_sell_amount,
{
    let supply = c.auction.auctioned_sell_amount;
    let sorted = sort_desc(c.orders);
    let winners = winners_of(sorted, supply);
    assert(c.orders.len() > 0);
    assert(valid_ledger_order(c.orders[0], supply));
    lemma_sorted_orders_valid(c.orders, supply);
    crate::clearing::lemma_winners_quantity(sorted, supply);
    crate::clearing::lemma_sort_sum_buy(c.orders);
    assert(winner_orders(unclaimed_entries(winners)) =~= winners);
}

/// Law: the ranked list settlement leaves behind is the
/// price-descending, submission-stable ordering of the ledger, and
/// the winners are exactly the prefix of it that reaches the supply,
/// with at most one synthetic partial fill at the boundary.
pub proof fn lemma_settlement_winner_form(c: ContractView, now: int)
    requires
        wf(c),
        settle_error(c, now) is None,
    ensures
        settled_view(c).orders == sort_desc(c.orders),
        sorted_desc(sort_desc(c.orders)),
        sort_desc(c.orders).to_multiset() == c.orders.to_multiset(),
        forall|p: OrderView|
            crate::order::positive_order(p) ==> sort_desc(c.orders).filter(
                #[trigger] crate::sorting::price_class(p),
            ) == c.orders.filter(crate::sorting::price_class(p)),
        winner_orders(settled_view(c).auction.winning_orders) == (if
            crate::clearing::full_count(
            sort_desc(c.orders),
            c.auction.auctioned_sell_amount,
        ) < c.orders.len() && c.auction.auctioned_sell_amount - sum_buy(
            sort_desc(c.orders).take(
                crate::clearing::full_count(
                    sort_desc(c.orders),
                    c.auction.auctioned_sell_amount,
                ),
            ),
        ) > 0 {
            sort_desc(c.orders).take(
                crate::clearing::full_count(
                    sort_desc(c.orders),
                    c.auction.auctioned_sell_amount,
                ),
            ).push(
                crate::clearing::partial_fill(
                    sort_desc(c.orders)[crate::clearing::full_count(
                        sort_desc(c.orders),
                        c.auction.auctioned_sell_amount,
                    )],
                    c.auction.auctioned_sell_amount - sum_buy(
                        sort_desc(c.orders).take(
                            crate::clearing::full_count(
                                sort_desc(c.orders),
                                c.auction.auctioned_sell_amount,
                            ),
                        ),
                    ),
                ),
            )
        } else {
            sort_desc(c.orders).take(
                crate::clearing::full_count(
                    sort_desc(c.orders),
                    c.auction.auctioned_sell_amount,
                ),
            )
        }),
{
    let supply = c.auction.auctioned_sell_amount;
    let sorted = sort_desc(c.orders);
    let winners = winners_of(sorted, supply);
    assert(c.orders.len() > 0);
    assert(valid_ledger_order(c.orders[0], supply));
    lemma_sorted_orders_valid(c.orders, supply);
    crate::sorting::lemma_sort_desc_props(c.orders);
    assert forall|p: OrderView|
        crate::order::positive_order(p) implies sorted.filter(
        #[trigger] crate::sorting::price_class(p),
    ) == c.orders.filter(crate::sorting::price_class(p)) by {
        crate::sorting::lemma_sort_desc_stable(c.orders, p);
    }
    crate::clearing::lemma_winners_prefix(sorted, supply);
    assert(winner_orders(unclaimed_entries(winners)) =~= winners);
}

/// Law: after settlement the clearing price is the last winner's
/// payment over its quantity (floor), and at that uniform price no
/// winner owes more than it offered, so no payout is negative.
pub proof fn lemma_uniform_price(c: ContractView)
    requires
        wf(c),
        c.auction.is_settled,
    ensures
        c.auction.final_auction_price == winner_orders(
            c.auction.winning_orders,
        ).last().sell_amount / winner_orders(
            c.auction.winning_orders,
        ).last().buy_amount,
        c.auction.final_auction_price >= 0,
        forall|i: int|
            0 <= i < c.auction.winning_orders.len()
                ==> c.auction.final_auction_price * winner_orders(
                c.auction.winning_orders,
            )[i].buy_amount <= (#[trigger] winner_orders(
                c.auction.winning_orders,
            )[i]).sell_amount,
{
    let w = winner_orders(c.auction.winning_orders);
    let price = c.auction.final_auction_price;
    crate::clearing::lemma_clearing_price_covers(w, price);
    assert(price >= 0) by (nonlinear_arith)
        requires
            price == w.last().sell_amount / w.last().buy_amount,
            w.last().buy_amount > 0,
            w.last().sell_amount >= 0,
    ;
}

/// Law: once a winner entry is claimed it can never be selected for a
/// claim again; a later claim by the same bidder can only reach a
/// strictly later entry.
pub proof fn lemma_claim_exactly_once(
    ws: Seq<(OrderView, bool)>,
    b: Seq<char>,
    i: int,
)
    requires
        find_unclaimed(ws, b) == Some(i),
    ensures
        match find_unclaimed(ws.update(i, (ws[i].0, true)), b) {
            Some(j) => j > i,
            None => true,
        },
    decreases ws.len(),
{
    lemma_find_unclaimed_in_range(ws, b);
    let ws2 = ws.update(i, (ws[i].0, true));
    if i == 0 {
        assert(ws2[0].1);
        assert(ws2.drop_first() =~= ws.drop_first());
        lemma_find_unclaimed_in_range(ws.drop_first(), b);
    } else {
        assert(ws2[0] == ws[0]);
        assert(ws2.drop_first() =~= ws.drop_first().update(
            i - 1,
            (ws.drop_first()[i - 1].0, true),
        ));
        assert(find_unclaimed(ws.drop_first(), b) == Some(i - 1));
        lemma_claim_exactly_once(ws.drop_first(), b, i - 1);
    }
}

/// Law: once a loser has taken the refund, a second refund is always
/// rejected as already refunded.
pub proof fn lemma_refund_exactly_once(c: ContractView, b: Seq<char>)
    requires
        wf(c),
        refund_error(c, b) is None,
    ensures
        match find_order(c.orders, b) {
            Some(i) => refund_error(refunded_view(c, i), b) == Some(
                AuctionError::AlreadyRefunded,
            ),
            None => false,
        },
{
    lemma_find_order_in_range(c.orders, b);
    let i = match find_order(c.orders, b) {
        Some(i) => i,
        None => 0,
    };
    let c2 = refunded_view(c, i);
    let rs = c2.auction.refunded_orders;
    assert(rs.last() == c.orders[i]);
    assert(rs[rs.len() - 1].bidder == b);
    assert(contains_bidder(rs, b));
}

/// A found first order lies inside the ledger and belongs to the
/// bidder.
pub proof fn lemma_find_order_in_range(s: Seq<OrderView>, b: Seq<char>)
    ensures
        match find_order(s, b) {
            Some(i) => 0 <= i < s.len() && s[i].bidder == b,
            None => true,
        },
    decreases s.len(),
{
    if s.len() > 0 && s[0].bidder != b {
        lemma_find_order_in_range(s.drop_first(), b);
        assert(forall|k: int|
            0 <= k < s.drop_first().len() ==> #[trigger] s.drop_first()[k]
                == s[k + 1]);
    }
}

/// Law: per winner entry, payment retained plus refund returned is
/// the original payment, so over the whole winner set the organizer
/// retains exactly `clearing_price * sum(quantity)`.
pub proof fn lemma_payout_conservation(w: Seq<OrderView>, price: int)
    requires
        price >= 0,
        forall|i: int|
            0 <= i < w.len() ==> price * (#[trigger] w[i]).buy_amount
                <= w[i].sell_amount,
        forall|i: int|
            0 <= i < w.len() ==> (#[trigger] w[i]).sell_amount <= u128::MAX,
    ensures
        sum_sell(w) == price * sum_buy(w) + sum_refunds(w, price),
    decreases w.len(),
{
    if w.len() == 0 {
        assert(price * sum_buy(w) == 0) by (nonlinear_arith)
            requires
                sum_buy(w) == 0,
        ;
    } else {
        let t = w.drop_first();
        assert(forall|k: int|
            0 <= k < t.len() ==> #[trigger] t[k] == w[k + 1]);
        lemma_payout_conservation(t, price);
        assert(claim_refund(w[0], price) == w[0].sell_amount - price
            * w[0].buy_amount);
        assert(sum_sell(w) == w[0].sell_amount + sum_sell(t));
        assert(sum_buy(w) == w[0].buy_amount + sum_buy(t));
        assert(sum_refunds(w, price) == claim_refund(w[0], price)
            + sum_refunds(t, price));
        assert(price * sum_buy(w) == price * w[0].buy_amount + price
            * sum_buy(t)) by {
            vstd::arithmetic::mul::lemma_mul_is_distributive_add(
                price,
                w[0].buy_amount,
                sum_buy(t),
            );
        }
    }
}

/// Law: the round trip over a settled state. Each winner entry is
/// claimable exactly once and hands out its quantity, so claims move
/// `sum_buy` units in total, and payments kept and refunds returned
/// add back up to the payments attached.
pub proof fn lemma_settlement_round_trip(c: ContractView)
    requires
        wf(c),
        c.auction.is_settled,
        forall|i: int|
            0 <= i < c.auction.winning_orders.len() ==> (#[trigger] winner_orders(
                c.auction.winning_orders,
            )[i]).sell_amount <= u128::MAX,
    ensures
        sum_sell(winner_orders(c.auction.winning_orders))
            == c.auction.final_auction_price * sum_buy(
            winner_orders(c.auction.winning_orders),
        ) + sum_refunds(
            winner_orders(c.auction.winning_orders),
            c.auction.final_auction_price,
        ),
{
    lemma_uniform_price(c);
    lemma_payout_conservation(
        winner_orders(c.auction.winning_orders),
        c.auction.final_auction_price,
    );
}

/// The registration rule: the attached deposit must cover the
/// ledger's minimum storage balance; whatever exceeds it goes back to
/// the bidder.
pub fn registration_refund(deposit: u128, minimum_balance: u128) -> (r: Result<
    u128,
    AuctionError,
>)
    ensures
        deposit < minimum_balance ==> r == Err::<u128, AuctionError>(
            AuctionError::DepositTooSmall,
        ),
        deposit >= minimum_balance ==> r == Ok::<u128, AuctionError>(
            (deposit - minimum_balance) as u128,
        ),
{
    if deposit < minimum_balance {
        Err(AuctionError::DepositTooSmall)
    } else {
        Ok(deposit - minimum_balance)
    }
}

impl Contract {
    /// The order ledger, in its current (post-settlement: ranked)
    /// order.
    pub fn get_orders(&self) -> (r: Vec<Order>)
        ensures
            r.deep_view() == self@.orders,
    {
        clone_orders(&self.orders)
    }

    /// A copy of the auction record.
    pub fn get_auction_info(&self) -> (r: Auction)
        ensures
            r@ == self@.auction,
    {
        let r = Auction {
            auctioner: self.auction.auctioner.clone(),
            auction_duration: self.auction.auction_duration,
            auctioned_sell_amount: self.auction.auctioned_sell_amount,
            min_buy_amount: self.auction.min_buy_amount,
            is_settled: self.auction.is_settled,
            winning_orders: clone_entries(&self.auction.winning_orders),
            final_auction_price: self.auction.final_auction_price,
            refunded_orders: clone_orders(&self.auction.refunded_orders),
        };
        proof {
            assert(r@ =~= self@.auction);
        }
        r
    }

    /// The winner entries with their claimed flags.
    pub fn get_auction_winner(&self) -> (r: Vec<(Order, bool)>)
        ensures
            entries_view(r@) == self@.auction.winning_orders,
    {
        clone_entries(&self.auction.winning_orders)
    }

    /// The uniform clearing price; zero before settlement.
    pub fn get_final_auction_price(&self) -> (r: u128)
        ensures
            r as int == self@.auction.final_auction_price,
    {
        self.auction.final_auction_price
    }
}

/// A found unclaimed entry lies inside the winner list.
pub proof fn lemma_find_unclaimed_in_range(
    ws: Seq<(OrderView, bool)>,
    b: Seq<char>,
)
    ensures
        match find_unclaimed(ws, b) {
            Some(i) => 0 <= i < ws.len() && ws[i].0.bidder == b && !ws[i].1,
            None => true,
        },
    decreases ws.len(),
{
    if ws.len() > 0 && !(ws[0].0.bidder == b && !ws[0].1) {
        lemma_find_unclaimed_in_range(ws.drop_first(), b);
        assert(forall|k: int|
            0 <= k < ws.drop_first().len() ==> #[trigger] ws.drop_first()[k]
                == ws[k + 1]);
    }
}

} // verus!
