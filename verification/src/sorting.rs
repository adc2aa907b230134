//! Stable ranking of orders by descending unit price.
//!
//! Ranking is an insertion sort: a later-submitted order is placed
//! after every earlier order whose price is greater than or equal to
//! its own, so equal-priced orders keep their submission order. This
//! tie-break is the fairness rule of the auction.

use vstd::multiset::Multiset;
use vstd::prelude::*;

use crate::order::{
    lemma_price_trans, positive_order, price_below, price_eq, price_le, price_lt, Order,
    OrderView,
};

verus! {

/// Every order in the sequence has positive quantity and payment.
pub open spec fn all_positive(s: Seq<OrderView>) -> bool {
    forall|i: int| 0 <= i < s.len() ==> positive_order(#[trigger] s[i])
}

/// Unit prices never increase along the sequence.
pub open spec fn sorted_desc(s: Seq<OrderView>) -> bool {
    forall|i: int, j: int|
        0 <= i < j < s.len() ==> price_le(#[trigger] s[j], #[trigger] s[i])
}

/// Inserts `x` after every order of `s` whose price is at least `x`'s,
/// and before the first order whose price is strictly below.
pub open spec fn insert_desc(s: Seq<OrderView>, x: OrderView) -> Seq<OrderView>
    decreases s.len(),
{
    if s.len() == 0 {
        seq![x]
    } else if price_le(x, s[0]) {
        seq![s[0]] + insert_desc(s.drop_first(), x)
    } else {
        seq![x] + s
    }
}

/// Stable sort by descending unit price: orders are inserted in
/// submission order, so equal-priced orders keep that order.
pub open spec fn sort_desc(s: Seq<OrderView>) -> Seq<OrderView>
    decreases s.len(),
{
    if s.len() == 0 {
        Seq::empty()
    } else {
        insert_desc(sort_desc(s.drop_last()), s.last())
    }
}

/// Inserting grows the sequence by one and adds exactly `x` to its
/// contents.
pub proof fn lemma_insert_desc_multiset(s: Seq<OrderView>, x: OrderView)
    ensures
        insert_desc(s, x).len() == s.len() + 1,
        insert_desc(s, x).to_multiset() =~= s.to_multiset().insert(x),
    decreases s.len(),
{
    broadcast use vstd::seq_lib::group_seq_properties;

    if s.len() == 0 {
        assert(insert_desc(s, x) =~= Seq::empty().push(x));
        assert(s.to_multiset() =~= Multiset::empty());
    } else if price_le(x, s[0]) {
        lemma_insert_desc_multiset(s.drop_first(), x);
        assert(insert_desc(s, x) =~= insert_desc(s.drop_first(), x).insert(
            0,
            s[0],
        ));
        lemma_to_multiset_insert_front(insert_desc(s.drop_first(), x), s[0]);
        lemma_to_multiset_insert_front(s.drop_first(), s[0]);
        assert(s =~= s.drop_first().insert(0, s[0]));
    } else {
        lemma_to_multiset_insert_front(s, x);
        assert(insert_desc(s, x) =~= s.insert(0, x));
    }
}

/// Prepending an element inserts it into the multiset of contents.
proof fn lemma_to_multiset_insert_front(s: Seq<OrderView>, x: OrderView)
    ensures
        s.insert(0, x).to_multiset() =~= s.to_multiset().insert(x),
{
    s.insert(0, x).to_multiset_ensures();
    s.to_multiset_ensures();
    assert(s.insert(0, x).remove(0) =~= s);
    assert(s.insert(0, x).remove(0).to_multiset() =~= s.insert(
        0,
        x,
    ).to_multiset().remove(x));
    let m = s.insert(0, x).to_multiset();
    assert(m.contains(x)) by {
        assert(s.insert(0, x)[0] == x);
        assert(s.insert(0, x).contains(x));
    }
    assert(m.remove(x).insert(x) =~= m);
}

/// Every element of the inserted sequence is `x` or an element of `s`.
pub proof fn lemma_insert_desc_elements(s: Seq<OrderView>, x: OrderView, k: int)
    requires
        0 <= k < insert_desc(s, x).len(),
    ensures
        insert_desc(s, x)[k] == x || s.contains(insert_desc(s, x)[k]),
    decreases s.len(),
{
    lemma_insert_desc_multiset(s, x);
    if s.len() == 0 {
    } else if price_le(x, s[0]) {
        if k == 0 {
            assert(s.contains(s[0]));
        } else {
            lemma_insert_desc_multiset(s.drop_first(), x);
            lemma_insert_desc_elements(s.drop_first(), x, k - 1);
            assert(insert_desc(s, x)[k] == insert_desc(s.drop_first(), x)[k
                - 1]);
            if s.drop_first().contains(insert_desc(s, x)[k]) {
                let j = choose|j: int|
                    0 <= j < s.drop_first().len() && s.drop_first()[j]
                        == insert_desc(s, x)[k];
                assert(s[j + 1] == insert_desc(s, x)[k]);
            }
        }
    } else {
        if k > 0 {
            assert(insert_desc(s, x)[k] == s[k - 1]);
        }
    }
}

/// Inserting into a sorted sequence of positive orders keeps it sorted.
pub proof fn lemma_insert_desc_sorted(s: Seq<OrderView>, x: OrderView)
    requires
        sorted_desc(s),
        all_positive(s),
        positive_order(x),
    ensures
        sorted_desc(insert_desc(s, x)),
    decreases s.len(),
{
    let r = insert_desc(s, x);
    lemma_insert_desc_multiset(s, x);
    if s.len() == 0 {
    } else if price_le(x, s[0]) {
        let t = s.drop_first();
        assert(sorted_desc(t)) by {
            assert(forall|i: int, j: int|
                0 <= i < j < t.len() ==> price_le(#[trigger] t[j], #[trigger] t[i]))
                by {
                assert(forall|i: int, j: int|
                    0 <= i < j < t.len() ==> t[i] == s[i + 1] && t[j] == s[j
                        + 1]);
            }
        }
        assert(all_positive(t));
        lemma_insert_desc_sorted(t, x);
        let rt = insert_desc(t, x);
        assert(r == seq![s[0]] + rt);
        assert forall|j: int| 0 <= j < rt.len() implies price_le(
            #[trigger] rt[j],
            s[0],
        ) by {
            lemma_insert_desc_elements(t, x, j);
            if rt[j] == x {
            } else {
                let i = choose|i: int|
                    0 <= i < t.len() && t[i] == rt[j];
                assert(t[i] == s[i + 1]);
                assert(price_le(s[i + 1], s[0]));
            }
        }
        assert forall|i: int, j: int|
            0 <= i < j < r.len() implies price_le(
            #[trigger] r[j],
            #[trigger] r[i],
        ) by {
            if i == 0 {
                assert(r[j] == rt[j - 1]);
            } else {
                assert(r[i] == rt[i - 1] && r[j] == rt[j - 1]);
            }
        }
    } else {
        assert(price_lt(s[0], x));
        assert forall|j: int| 1 <= j < r.len() implies price_le(
            #[trigger] r[j],
            x,
        ) by {
            assert(r[j] == s[j - 1]);
            assert(price_le(s[j - 1], s[0]));
            lemma_price_le_lt_trans(s[j - 1], s[0], x);
        }
        assert forall|i: int, j: int|
            0 <= i < j < r.len() implies price_le(
            #[trigger] r[j],
            #[trigger] r[i],
        ) by {
            if i > 0 {
                assert(r[i] == s[i - 1] && r[j] == s[j - 1]);
            }
        }
    }
}

/// Inserting at the first index whose price is strictly below `x`'s is
/// what [`insert_desc`] does.
pub proof fn lemma_insert_desc_at(s: Seq<OrderView>, x: OrderView, idx: int)
    requires
        0 <= idx <= s.len(),
        forall|j: int| 0 <= j < idx ==> price_le(x, #[trigger] s[j]),
        idx < s.len() ==> price_lt(s[idx], x),
    ensures
        insert_desc(s, x) == s.take(idx).push(x) + s.skip(idx),
    decreases idx,
{
    if idx == 0 {
        if s.len() == 0 {
            assert(insert_desc(s, x) =~= s.take(0).push(x) + s.skip(0));
        } else {
            assert(!price_le(x, s[0]));
            assert(insert_desc(s, x) =~= s.take(0).push(x) + s.skip(0));
        }
    } else {
        assert(price_le(x, s[0]));
        let t = s.drop_first();
        assert(forall|j: int|
            0 <= j < idx - 1 ==> #[trigger] t[j] == s[j + 1]);
        lemma_insert_desc_at(t, x, idx - 1);
        assert(insert_desc(s, x) == seq![s[0]] + insert_desc(t, x));
        assert(seq![s[0]] + (t.take(idx - 1).push(x) + t.skip(idx - 1))
            =~= s.take(idx).push(x) + s.skip(idx));
    }
}

/// Finds the first position whose order is priced strictly below `x`.
fn find_insert_pos(v: &Vec<Order>, x: &Order) -> (idx: usize)
    ensures
        0 <= idx <= v@.len(),
        forall|j: int|
            0 <= j < idx ==> price_le(x@, #[trigger] v.deep_view()[j]),
        idx < v@.len() ==> price_lt(v.deep_view()[idx as int], x@),
{
    let n = v.len();
    let mut i: usize = 0;
    while i < n
        invariant
            n == v@.len(),
            0 <= i <= n,
            forall|j: int|
                0 <= j < i ==> price_le(x@, #[trigger] v.deep_view()[j]),
        decreases n - i,
    {
        if price_below(&v[i], x) {
            return i;
        }
        assert(price_le(x@, v.deep_view()[i as int]));
        i += 1;
    }
    i
}

/// Places `x` after every stored order whose price is at least `x`'s.
fn insert_order(v: &mut Vec<Order>, x: Order)
    ensures
        final(v).deep_view() == insert_desc(old(v).deep_view(), x@),
{
    let ghost s = v.deep_view();
    let ghost xv = x@;
    let idx = find_insert_pos(v, &x);
    proof {
        lemma_insert_desc_at(s, xv, idx as int);
    }
    v.insert(idx, x);
    proof {
        assert(v.deep_view() =~= s.take(idx as int).push(xv) + s.skip(
            idx as int,
        ));
    }
}

/// Ranks the orders by descending unit price, stably: the result is
/// exactly the stable sort of the input.
pub fn sort_orders_list(orders: &Vec<Order>) -> (r: Vec<Order>)
    ensures
        r.deep_view() == sort_desc(orders.deep_view()),
{
    let n = orders.len();
    let mut out: Vec<Order> = Vec::new();
    let mut i: usize = 0;
    while i < n
        invariant
            n == orders@.len(),
            0 <= i <= n,
            out.deep_view() == sort_desc(orders.deep_view().take(i as int)),
        decreases n - i,
    {
        let x = orders[i].clone();
        insert_order(&mut out, x);
        proof {
            let dv = orders.deep_view();
            assert(dv.take(i + 1).drop_last() =~= dv.take(i as int));
            assert(dv.take(i + 1).last() == dv[i as int]);
        }
        i += 1;
    }
    proof {
        assert(orders.deep_view().take(n as int) =~= orders.deep_view());
    }
    out
}

/// A price at most `b`'s, with `b`'s strictly below `c`'s, is strictly
/// below `c`'s.
pub proof fn lemma_price_le_lt_trans(a: OrderView, b: OrderView, c: OrderView)
    requires
        a.buy_amount > 0,
        b.buy_amount > 0,
        c.buy_amount > 0,
        price_le(a, b),
        price_lt(b, c),
    ensures
        price_lt(a, c),
{
    assert(a.sell_amount * c.buy_amount < c.sell_amount * a.buy_amount)
        by (nonlinear_arith)
        requires
            a.buy_amount > 0,
            b.buy_amount > 0,
            c.buy_amount > 0,
            a.sell_amount * b.buy_amount <= b.sell_amount * a.buy_amount,
            b.sell_amount * c.buy_amount < c.sell_amount * b.buy_amount,
    ;
}

/// The orders that share one unit price, as a filter predicate.
pub open spec fn price_class(p: OrderView) -> spec_fn(OrderView) -> bool {
    |o: OrderView| price_eq(o, p)
}

/// Inserting appends `x` to its own price class and leaves every other
/// class unchanged: this is the stability of the sort.
pub proof fn lemma_insert_desc_stable(s: Seq<OrderView>, x: OrderView, p: OrderView)
    requires
        sorted_desc(s),
        all_positive(s),
        positive_order(x),
        positive_order(p),
    ensures
        insert_desc(s, x).filter(price_class(p)) == if price_eq(x, p) {
            s.filter(price_class(p)).push(x)
        } else {
            s.filter(price_class(p))
        },
    decreases s.len(),
{
    broadcast use vstd::seq_lib::group_seq_properties;

    let cls = price_class(p);
    reveal_with_fuel(Seq::filter, 3);
    if s.len() == 0 {
        assert(insert_desc(s, x) =~= Seq::empty().push(x));
        assert(s =~= Seq::<OrderView>::empty());
    } else if price_le(x, s[0]) {
        let t = s.drop_first();
        assert(sorted_desc(t) && all_positive(t)) by {
            assert(forall|i: int|
                0 <= i < t.len() ==> #[trigger] t[i] == s[i + 1]);
        }
        lemma_insert_desc_stable(t, x, p);
        let head = seq![s[0]];
        assert(insert_desc(s, x) == head + insert_desc(t, x));
        assert(s =~= head + t);
        Seq::filter_distributes_over_add(head, insert_desc(t, x), cls);
        Seq::filter_distributes_over_add(head, t, cls);
        if price_eq(x, p) {
            Seq::push_distributes_over_add(
                head.filter(cls),
                t.filter(cls),
                x,
            );
        }
    } else {
        assert(price_lt(s[0], x));
        assert(insert_desc(s, x) == seq![x] + s);
        assert(seq![x] =~= Seq::empty().push(x));
        Seq::filter_distributes_over_add(seq![x], s, cls);
        if price_eq(x, p) {
            assert forall|i: int| 0 <= i < s.len() implies !cls(
                #[trigger] s[i],
            ) by {
                if price_eq(s[i], p) {
                    lemma_price_eq_trans(s[i], x, p);
                    if i > 0 {
                        lemma_price_le_lt_trans(s[i], s[0], x);
                    }
                    assert(price_lt(s[i], x));
                    assert(false);
                }
            }
            assert(s.all(|o: OrderView| !cls(o)));
            s.lemma_all_neg_filter_empty(cls);
            assert(s.filter(cls) =~= Seq::<OrderView>::empty());
            assert(seq![x].filter(cls) =~= seq![x]);
            assert(insert_desc(s, x).filter(cls) =~= s.filter(cls).push(x));
        }
    }
}

/// The sorted sequence: same length, same contents, descending prices,
/// still all positive.
pub proof fn lemma_sort_desc_props(s: Seq<OrderView>)
    requires
        all_positive(s),
    ensures
        sort_desc(s).len() == s.len(),
        sort_desc(s).to_multiset() =~= s.to_multiset(),
        sorted_desc(sort_desc(s)),
        all_positive(sort_desc(s)),
    decreases s.len(),
{
    broadcast use vstd::seq_lib::group_seq_properties;

    if s.len() == 0 {
    } else {
        let t = s.drop_last();
        let x = s.last();
        assert(all_positive(t)) by {
            assert(forall|i: int|
                0 <= i < t.len() ==> #[trigger] t[i] == s[i]);
        }
        lemma_sort_desc_props(t);
        lemma_insert_desc_multiset(sort_desc(t), x);
        lemma_insert_desc_sorted(sort_desc(t), x);
        s.to_multiset_ensures();
        t.to_multiset_ensures();
        assert(s =~= t.push(x));
        assert(all_positive(sort_desc(s))) by {
            assert forall|k: int|
                0 <= k < sort_desc(s).len() implies positive_order(
                #[trigger] sort_desc(s)[k],
            ) by {
                lemma_insert_desc_elements(sort_desc(t), x, k);
            }
        }
    }
}

/// The sort preserves each price class exactly: equal-priced orders
/// come out in submission order.
pub proof fn lemma_sort_desc_stable(s: Seq<OrderView>, p: OrderView)
    requires
        all_positive(s),
        positive_order(p),
    ensures
        sort_desc(s).filter(price_class(p)) == s.filter(price_class(p)),
    decreases s.len(),
{
    let cls = price_class(p);
    reveal_with_fuel(Seq::filter, 2);
    if s.len() == 0 {
        assert(sort_desc(s) =~= s);
    } else {
        let t = s.drop_last();
        let x = s.last();
        assert(all_positive(t)) by {
            assert(forall|i: int|
                0 <= i < t.len() ==> #[trigger] t[i] == s[i]);
        }
        lemma_sort_desc_props(t);
        lemma_sort_desc_stable(t, p);
        lemma_insert_desc_stable(sort_desc(t), x, p);
    }
}

/// Price equality carries across a shared positive pivot.
pub proof fn lemma_price_eq_trans(a: OrderView, b: OrderView, p: OrderView)
    requires
        a.buy_amount > 0,
        b.buy_amount > 0,
        p.buy_amount > 0,
        price_eq(a, p),
        price_eq(b, p),
    ensures
        price_eq(a, b),
{
    assert(a.sell_amount * b.buy_amount == b.sell_amount * a.buy_amount)
        by (nonlinear_arith)
        requires
            a.buy_amount > 0,
            b.buy_amount > 0,
            p.buy_amount > 0,
            a.sell_amount * p.buy_amount == p.sell_amount * a.buy_amount,
            b.sell_amount * p.buy_amount == p.sell_amount * b.buy_amount,
    ;
}

} // verus!
