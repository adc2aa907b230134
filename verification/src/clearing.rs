//! The clearing engine: walks the ranked order list and builds the
//! winner set.
//!
//! Orders win in rank order while supply remains. The first order that
//! does not fit whole is split: one synthetic entry takes the remaining
//! supply at a proportionally reduced payment (floor division). All
//! later orders lose.

use vstd::prelude::*;

use crate::order::{
    lemma_price_trans, positive_order, price_le, Order, OrderView,
};
use crate::sorting::{all_positive, lemma_price_le_lt_trans, sorted_desc};

verus! {

/// Total quantity requested by a sequence of orders.
pub open spec fn sum_buy(s: Seq<OrderView>) -> int
    decreases s.len(),
{
    if s.len() == 0 {
        0
    } else {
        s[0].buy_amount + sum_buy(s.drop_first())
    }
}

/// Total payment attached to a sequence of orders.
pub open spec fn sum_sell(s: Seq<OrderView>) -> int
    decreases s.len(),
{
    if s.len() == 0 {
        0
    } else {
        s[0].sell_amount + sum_sell(s.drop_first())
    }
}

/// Payment of a partial fill: the original payment scaled down
/// pro rata to the filled quantity, rounded towards the organizer.
pub open spec fn scaled_payment(o: OrderView, rem: int) -> int {
    o.sell_amount * rem / o.buy_amount
}

/// The synthetic boundary order: `rem` units of `o` at the scaled
/// payment.
pub open spec fn partial_fill(o: OrderView, rem: int) -> OrderView {
    OrderView {
        bidder: o.bidder,
        buy_amount: rem,
        sell_amount: scaled_payment(o, rem),
    }
}

/// The winner list for ranked orders `s` and remaining supply `rem`:
/// the longest prefix that fits whole, plus at most one partial fill
/// at the boundary.
pub open spec fn winners_of(s: Seq<OrderView>, rem: int) -> Seq<OrderView>
    decreases s.len(),
{
    if s.len() == 0 {
        Seq::empty()
    } else if s[0].buy_amount <= rem {
        seq![s[0]] + winners_of(s.drop_first(), rem - s[0].buy_amount)
    } else if rem > 0 {
        seq![partial_fill(s[0], rem)]
    } else {
        Seq::empty()
    }
}

/// Whether building the winner list would overflow the payment type:
/// only the boundary multiplication `sell_amount * rem` can.
pub open spec fn allocation_overflows(s: Seq<OrderView>, rem: int) -> bool
    decreases s.len(),
{
    if s.len() == 0 {
        false
    } else if s[0].buy_amount <= rem {
        allocation_overflows(s.drop_first(), rem - s[0].buy_amount)
    } else if rem > 0 {
        s[0].sell_amount * rem > u128::MAX
    } else {
        false
    }
}

/// Number of orders of `s` that are filled whole.
pub open spec fn full_count(s: Seq<OrderView>, rem: int) -> int
    decreases s.len(),
{
    if s.len() == 0 {
        0
    } else if s[0].buy_amount <= rem {
        1 + full_count(s.drop_first(), rem - s[0].buy_amount)
    } else {
        0
    }
}

/// Winners never take more than the supply, and take all of it unless
/// total demand falls short.
pub proof fn lemma_winners_quantity(s: Seq<OrderView>, rem: int)
    requires
        all_positive(s),
        rem >= 0,
    ensures
        sum_buy(winners_of(s, rem)) <= rem,
        sum_buy(s) >= rem ==> sum_buy(winners_of(s, rem)) == rem,
        sum_buy(s) < rem ==> winners_of(s, rem) == s,
    decreases s.len(),
{
    let w = winners_of(s, rem);
    if s.len() == 0 {
        assert(w =~= s);
    } else {
        let t = s.drop_first();
        assert(all_positive(t)) by {
            assert(forall|i: int|
                0 <= i < t.len() ==> #[trigger] t[i] == s[i + 1]);
        }
        if s[0].buy_amount <= rem {
            lemma_winners_quantity(t, rem - s[0].buy_amount);
            assert(sum_buy(w) == s[0].buy_amount + sum_buy(
                winners_of(t, rem - s[0].buy_amount),
            )) by {
                assert(w.drop_first() =~= winners_of(
                    t,
                    rem - s[0].buy_amount,
                ));
                assert(w[0] == s[0]);
            }
            if sum_buy(t) < rem - s[0].buy_amount {
                assert(w =~= seq![s[0]] + t);
                assert(w =~= s);
            }
        } else if rem > 0 {
            assert(sum_buy(w) == rem + sum_buy(w.drop_first()));
            assert(w.drop_first() =~= Seq::<OrderView>::empty());
            assert(positive_order(s[0]));
            assert(sum_buy(t) >= 0) by {
                lemma_sum_buy_nonneg(t);
            }
        } else {
            assert(w =~= Seq::<OrderView>::empty());
            assert(positive_order(s[0]));
            lemma_sum_buy_nonneg(t);
        }
    }
}

/// Total demand of positive orders is never negative.
pub proof fn lemma_sum_buy_nonneg(s: Seq<OrderView>)
    requires
        all_positive(s),
    ensures
        sum_buy(s) >= 0,
    decreases s.len(),
{
    if s.len() > 0 {
        let t = s.drop_first();
        assert(all_positive(t)) by {
            assert(forall|i: int|
                0 <= i < t.len() ==> #[trigger] t[i] == s[i + 1]);
        }
        lemma_sum_buy_nonneg(t);
    }
}

/// The winner list is the full prefix of the ranked list, plus one
/// partial fill of the next order when supply remains for it.
pub proof fn lemma_winners_prefix(s: Seq<OrderView>, rem: int)
    requires
        all_positive(s),
        rem >= 0,
    ensures
        0 <= full_count(s, rem) <= s.len(),
        winners_of(s, rem) == if full_count(s, rem) < s.len() && rem - sum_buy(
            s.take(full_count(s, rem)),
        ) > 0 {
            s.take(full_count(s, rem)).push(
                partial_fill(
                    s[full_count(s, rem)],
                    rem - sum_buy(s.take(full_count(s, rem))),
                ),
            )
        } else {
            s.take(full_count(s, rem))
        },
    decreases s.len(),
{
    let k = full_count(s, rem);
    if s.len() == 0 {
        assert(winners_of(s, rem) =~= s.take(0));
    } else {
        let t = s.drop_first();
        assert(all_positive(t)) by {
            assert(forall|i: int|
                0 <= i < t.len() ==> #[trigger] t[i] == s[i + 1]);
        }
        if s[0].buy_amount <= rem {
            lemma_winners_prefix(t, rem - s[0].buy_amount);
            let k1 = full_count(t, rem - s[0].buy_amount);
            assert(k == 1 + k1);
            assert(s.take(k) =~= seq![s[0]] + t.take(k1));
            assert(sum_buy(s.take(k)) == s[0].buy_amount + sum_buy(t.take(k1)))
                by {
                assert(s.take(k).drop_first() =~= t.take(k1));
            }
            if k1 < t.len() && (rem - s[0].buy_amount) - sum_buy(t.take(k1))
                > 0 {
                assert(s[k] == t[k1]);
                assert(winners_of(s, rem) =~= s.take(k).push(
                    partial_fill(s[k], rem - sum_buy(s.take(k))),
                ));
            } else {
                assert(winners_of(s, rem) =~= s.take(k));
            }
        } else {
            assert(k == 0);
            assert(s.take(0) =~= Seq::<OrderView>::empty());
            assert(sum_buy(s.take(0)) == 0);
            if rem > 0 {
                assert(winners_of(s, rem) =~= s.take(0).push(
                    partial_fill(s[0], rem),
                ));
            } else {
                assert(winners_of(s, rem) =~= s.take(0));
            }
        }
    }
}

/// Winner entries as first stored: each order paired with an
/// unset claimed flag.
pub open spec fn unclaimed_entries(s: Seq<OrderView>) -> Seq<
    (OrderView, bool),
> {
    Seq::new(s.len(), |i: int| (s[i], false))
}

/// The image of an executable entry list under the view.
pub open spec fn entries_view(es: Seq<(Order, bool)>) -> Seq<
    (OrderView, bool),
> {
    Seq::new(es.len(), |i: int| (es[i].0@, es[i].1))
}

/// Pushing an unclaimed entry onto a list that mirrors `done` keeps
/// the mirror.
proof fn lemma_unclaimed_push(
    prev_out: Seq<(Order, bool)>,
    prev_done: Seq<OrderView>,
    new_out: Seq<(Order, bool)>,
    new_done: Seq<OrderView>,
)
    requires
        entries_view(prev_out) == unclaimed_entries(prev_done),
        new_out.len() == prev_out.len() + 1,
        forall|k: int|
            0 <= k < prev_out.len() ==> new_out[k] == prev_out[k],
        new_done == prev_done.push(new_out.last().0@),
        new_out.last().1 == false,
    ensures
        entries_view(new_out) == unclaimed_entries(new_done),
{
    assert(entries_view(prev_out).len() == prev_out.len());
    assert(unclaimed_entries(prev_done).len() == prev_done.len());
    assert(prev_out.len() == prev_done.len());
    assert(new_done.len() == new_out.len());
    assert forall|k: int|
        0 <= k < new_out.len() implies entries_view(new_out)[k]
        == unclaimed_entries(new_done)[k] by {
        assert(entries_view(new_out)[k] == (new_out[k].0@, new_out[k].1));
        assert(unclaimed_entries(new_done)[k] == (new_done[k], false));
        if k < prev_out.len() {
            assert(entries_view(prev_out)[k] == unclaimed_entries(
                prev_done,
            )[k]);
            assert(entries_view(prev_out)[k] == (
                prev_out[k].0@,
                prev_out[k].1,
            ));
            assert(unclaimed_entries(prev_done)[k] == (prev_done[k], false));
            assert(new_done[k] == prev_done[k]);
        } else {
            assert(new_out[k] == new_out.last());
            assert(new_done[k] == new_out.last().0@);
        }
    }
    assert(entries_view(new_out) =~= unclaimed_entries(new_done));
}

/// Inserting adds exactly the inserted order's demand.
pub proof fn lemma_insert_sum_buy(s: Seq<OrderView>, x: OrderView)
    ensures
        sum_buy(crate::sorting::insert_desc(s, x)) == sum_buy(s)
            + x.buy_amount,
    decreases s.len(),
{
    let r = crate::sorting::insert_desc(s, x);
    if s.len() == 0 {
        assert(r == seq![x]);
        assert(r.drop_first() =~= Seq::<OrderView>::empty());
        assert(sum_buy(r.drop_first()) == 0);
        assert(sum_buy(r) == x.buy_amount + sum_buy(r.drop_first()));
        assert(sum_buy(s) == 0);
    } else if price_le(x, s[0]) {
        let t = s.drop_first();
        lemma_insert_sum_buy(t, x);
        assert(r == seq![s[0]] + crate::sorting::insert_desc(t, x));
        assert(r.drop_first() =~= crate::sorting::insert_desc(t, x));
        assert(r[0] == s[0]);
        assert(sum_buy(r) == r[0].buy_amount + sum_buy(r.drop_first()));
        assert(sum_buy(s) == s[0].buy_amount + sum_buy(t));
    } else {
        assert(r == seq![x] + s);
        assert(r.drop_first() =~= s);
        assert(r[0] == x);
        assert(sum_buy(r) == r[0].buy_amount + sum_buy(r.drop_first()));
    }
}

/// Ranking the orders does not change the total demand.
pub proof fn lemma_sort_sum_buy(s: Seq<OrderView>)
    ensures
        sum_buy(crate::sorting::sort_desc(s)) == sum_buy(s),
    decreases s.len(),
{
    if s.len() > 0 {
        let t = s.drop_last();
        lemma_sort_sum_buy(t);
        lemma_insert_sum_buy(crate::sorting::sort_desc(t), s.last());
        lemma_sum_buy_push(t, s.last());
        assert(s =~= t.push(s.last()));
    }
}

/// Appending an order adds its demand to the total.
pub proof fn lemma_sum_buy_push(s: Seq<OrderView>, x: OrderView)
    ensures
        sum_buy(s.push(x)) == sum_buy(s) + x.buy_amount,
    decreases s.len(),
{
    let r = s.push(x);
    assert(r.len() == s.len() + 1);
    if s.len() == 0 {
        assert(r.drop_first() =~= Seq::<OrderView>::empty());
        assert(r[0] == x);
        assert(sum_buy(r.drop_first()) == 0);
        assert(sum_buy(r) == x.buy_amount + sum_buy(r.drop_first()));
        assert(sum_buy(s) == 0);
    } else {
        lemma_sum_buy_push(s.drop_first(), x);
        assert(r.drop_first() =~= s.drop_first().push(x));
        assert(r[0] == s[0]);
        assert(sum_buy(r) == r[0].buy_amount + sum_buy(r.drop_first()));
        assert(sum_buy(s) == s[0].buy_amount + sum_buy(s.drop_first()));
    }
}

/// Shape of a winner entry: it asks a positive quantity; the scaled
/// boundary payment may round down to zero.
pub open spec fn winner_shape(s: Seq<OrderView>) -> bool {
    forall|i: int|
        0 <= i < s.len() ==> (#[trigger] s[i]).buy_amount > 0 && s[i].sell_amount
            >= 0
}

/// The partial fill never prices above the order it splits.
pub proof fn lemma_partial_fill_price(o: OrderView, rem: int)
    requires
        o.buy_amount > 0,
        o.sell_amount > 0,
        rem > 0,
    ensures
        price_le(partial_fill(o, rem), o),
        partial_fill(o, rem).sell_amount >= 0,
{
    let p = o.sell_amount * rem / o.buy_amount;
    assert(p * o.buy_amount <= o.sell_amount * rem && p >= 0)
        by (nonlinear_arith)
        requires
            p == o.sell_amount * rem / o.buy_amount,
            o.buy_amount > 0,
            o.sell_amount > 0,
            rem > 0,
    ;
}

/// The winner list of a ranked order list is itself ranked, well
/// shaped, and bounded above in price by the head order.
pub proof fn lemma_winners_sorted(s: Seq<OrderView>, rem: int)
    requires
        all_positive(s),
        sorted_desc(s),
        rem >= 0,
    ensures
        winner_shape(winners_of(s, rem)),
        sorted_desc(winners_of(s, rem)),
        s.len() > 0 ==> forall|k: int|
            0 <= k < winners_of(s, rem).len() ==> price_le(
                #[trigger] winners_of(s, rem)[k],
                s[0],
            ),
    decreases s.len(),
{
    let w = winners_of(s, rem);
    if s.len() == 0 {
    } else {
        let t = s.drop_first();
        assert(all_positive(t) && sorted_desc(t)) by {
            assert(forall|i: int|
                0 <= i < t.len() ==> #[trigger] t[i] == s[i + 1]);
        }
        if s[0].buy_amount <= rem {
            lemma_winners_sorted(t, rem - s[0].buy_amount);
            let wt = winners_of(t, rem - s[0].buy_amount);
            assert(w == seq![s[0]] + wt);
            assert forall|k: int| 0 <= k < w.len() implies price_le(
                #[trigger] w[k],
                s[0],
            ) by {
                if k == 0 {
                } else {
                    assert(w[k] == wt[k - 1]);
                    if t.len() > 0 {
                        assert(price_le(wt[k - 1], t[0]));
                        assert(price_le(t[0], s[0]));
                        lemma_price_trans(wt[k - 1], t[0], s[0]);
                    }
                }
            }
            assert(winner_shape(w)) by {
                assert(forall|k: int|
                    1 <= k < w.len() ==> #[trigger] w[k] == wt[k - 1]);
            }
            assert forall|i: int, j: int|
                0 <= i < j < w.len() implies price_le(
                #[trigger] w[j],
                #[trigger] w[i],
            ) by {
                if i == 0 {
                    assert(price_le(w[j], s[0]));
                } else {
                    assert(w[i] == wt[i - 1] && w[j] == wt[j - 1]);
                }
            }
        } else if rem > 0 {
            lemma_partial_fill_price(s[0], rem);
            assert(w =~= seq![partial_fill(s[0], rem)]);
        } else {
            assert(w =~= Seq::<OrderView>::empty());
        }
    }
}

/// At the uniform clearing price, no winner owes more than it offered:
/// `price * quantity <= payment` for every winner entry.
pub proof fn lemma_clearing_price_covers(w: Seq<OrderView>, price: int)
    requires
        winner_shape(w),
        sorted_desc(w),
        w.len() > 0,
        price == w.last().sell_amount / w.last().buy_amount,
    ensures
        forall|i: int|
            0 <= i < w.len() ==> price * (#[trigger] w[i]).buy_amount <= w[i].sell_amount,
{
    let l = w.last();
    assert(price * l.buy_amount <= l.sell_amount && price >= 0)
        by (nonlinear_arith)
        requires
            price == l.sell_amount / l.buy_amount,
            l.buy_amount > 0,
            l.sell_amount >= 0,
    ;
    assert forall|i: int| 0 <= i < w.len() implies price * (
    #[trigger] w[i]).buy_amount <= w[i].sell_amount by {
        assert(price_le(l, w[i]));
        assert(price * w[i].buy_amount <= w[i].sell_amount)
            by (nonlinear_arith)
            requires
                price >= 0,
                price * l.buy_amount <= l.sell_amount,
                l.sell_amount * w[i].buy_amount <= w[i].sell_amount
                    * l.buy_amount,
                l.buy_amount > 0,
                w[i].buy_amount > 0,
                w[i].sell_amount >= 0,
        ;
    }
}

/// Builds the winner entries for a ranked order list, or reports that
/// the boundary payment would overflow.
pub fn allocate_winners(sorted: &Vec<Order>, supply: u128) -> (r: Option<
    Vec<(Order, bool)>,
>)
    requires
        all_positive(sorted.deep_view()),
    ensures
        match r {
            Some(w) => !allocation_overflows(
                sorted.deep_view(),
                supply as int,
            ) && entries_view(w@) == unclaimed_entries(
                winners_of(sorted.deep_view(), supply as int),
            ),
            None => allocation_overflows(sorted.deep_view(), supply as int),
        },
{
    let ghost dv = sorted.deep_view();
    let n = sorted.len();
    let mut out: Vec<(Order, bool)> = Vec::new();
    let ghost mut done: Seq<OrderView> = Seq::empty();
    let mut rem = supply;
    let mut i: usize = 0;
    let mut stop = false;
    proof {
        assert(dv.skip(0) =~= dv);
        assert(entries_view(out@) =~= unclaimed_entries(done));
    }
    while i < n && !stop
        invariant
            n == dv.len(),
            dv == sorted.deep_view(),
            all_positive(dv),
            0 <= i <= n,
            entries_view(out@) == unclaimed_entries(done),
            !stop ==> winners_of(dv, supply as int) == done + winners_of(
                dv.skip(i as int),
                rem as int,
            ),
            !stop ==> allocation_overflows(dv, supply as int)
                == allocation_overflows(dv.skip(i as int), rem as int),
            stop ==> winners_of(dv, supply as int) == done,
            stop ==> !allocation_overflows(dv, supply as int),
        decreases n - i, (if stop { 0int } else { 1int }),
    {
        let ghost tail = dv.skip(i as int);
        proof {
            assert(tail[0] == dv[i as int]);
            assert(tail.drop_first() =~= dv.skip(i as int + 1));
            assert(positive_order(dv[i as int]));
        }
        let o = &sorted[i];
        proof {
            assert(o@ == dv[i as int]);
        }
        if o.buy_amount <= rem {
            let entry = (o.clone(), false);
            let ghost prev_out = out@;
            let ghost prev_done = done;
            out.push(entry);
            proof {
                done = done.push(dv[i as int]);
                lemma_unclaimed_push(prev_out, prev_done, out@, done);
                assert(done.drop_last() + winners_of(tail, rem as int)
                    =~= done + winners_of(
                    dv.skip(i as int + 1),
                    (rem - o.buy_amount) as int,
                )) by {
                    assert(winners_of(tail, rem as int) == seq![tail[0]]
                        + winners_of(
                        tail.drop_first(),
                        rem - tail[0].buy_amount,
                    ));
                }
            }
            rem = rem - o.buy_amount;
            i = i + 1;
        } else {
            if rem > 0 {
                match o.sell_amount.checked_mul(rem) {
                    Some(prod) => {
                        let pay = prod / o.buy_amount;
                        let entry = (
                            Order {
                                bidder: o.bidder.clone(),
                                buy_amount: rem,
                                sell_amount: pay,
                            },
                            false,
                        );
                        proof {
                            assert(entry.0@ == partial_fill(
                                dv[i as int],
                                rem as int,
                            ));
                        }
                        let ghost prev_out = out@;
                        let ghost prev_done = done;
                        out.push(entry);
                        proof {
                            done = done.push(
                                partial_fill(dv[i as int], rem as int),
                            );
                            lemma_unclaimed_push(
                                prev_out,
                                prev_done,
                                out@,
                                done,
                            );
                            assert(winners_of(tail, rem as int) =~= seq![
                                partial_fill(dv[i as int], rem as int),
                            ]);
                            assert(done.drop_last() + winners_of(
                                tail,
                                rem as int,
                            ) =~= done);
                        }
                    },
                    None => {
                        proof {
                            assert(allocation_overflows(tail, rem as int));
                        }
                        return None;
                    },
                }
            } else {
                proof {
                    assert(winners_of(tail, rem as int) =~= Seq::<
                        OrderView,
                    >::empty());
                    assert(done + winners_of(tail, rem as int) =~= done);
                }
            }
            stop = true;
        }
    }
    proof {
        if !stop {
            assert(dv.skip(n as int) =~= Seq::<OrderView>::empty());
            assert(done + winners_of(Seq::empty(), rem as int) =~= done);
        }
    }
    Some(out)
}

} // verus!
