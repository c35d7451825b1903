//! Per-symbol order book: price-time matching, cancel, depth snapshot.
//!
//! Matching walks the opposite side from the best price outward and is
//! specified by `spec_match`, a recursive function over the resting
//! sequence. Every trade takes the resting order's price. GTC posts
//! any remainder with time priority inside its price level, IOC
//! discards it, and FOK demands that a pre-scan find the whole
//! quantity fillable, else nothing happens.

use vstd::prelude::*;
use crate::decimal::{Dec, AMT_MAX, SCALE};
use crate::models::{Order, OrderBook, OrderError, OrderType, Side, TimeInForce, Trade};

verus! {

/// One fill, with what the exchange needs to settle both parties:
/// the trade record plus the resting (maker) order's owner and leverage.
#[derive(Debug)]
pub struct Execution {
    pub trade: Trade,
    pub maker_user_id: u128,
    pub maker_leverage: Option<Dec>,
}

/// What every order resting in a book satisfies: a limit order with a
/// positive in-range price, partially unfilled, and in-range leverage
/// when leveraged.
pub open spec fn wf_resting(o: Order) -> bool {
    &&& 0 < o.price@ <= AMT_MAX
    &&& 0 <= o.filled_quantity@ < o.quantity@ <= AMT_MAX
    &&& o.order_type == OrderType::Limit
    &&& match o.leverage {
        Some(l) => SCALE < l@ <= AMT_MAX,
        None => true,
    }
}

/// Price priority: on the bid side higher prices come first, on the
/// ask side lower prices come first. `a` may rest at or before `b`.
pub open spec fn ordered_before(a_price: int, b_price: int, is_bid: bool) -> bool {
    if is_bid {
        a_price >= b_price
    } else {
        a_price <= b_price
    }
}

/// The side is ordered best price first.
pub open spec fn sorted_side(s: Seq<Order>, is_bid: bool) -> bool {
    forall|i: int, j: int|
        0 <= i < j < s.len() ==> ordered_before(s[i].price@, s[j].price@, is_bid)
}

/// No resting bid reaches any resting ask.
pub open spec fn uncrossed(bids: Seq<Order>, asks: Seq<Order>) -> bool {
    forall|i: int, j: int|
        0 <= i < bids.len() && 0 <= j < asks.len() ==> bids[i].price@ < asks[j].price@
}

/// Whether the incoming order may fill at a resting price: market
/// orders at any price, limit orders only at prices not worse than
/// their own.
pub open spec fn taker_accepts(taker: Order, maker_price: int) -> bool {
    ||| taker.order_type == OrderType::Market
    ||| (taker.side == Side::Buy && maker_price <= taker.price@)
    ||| (taker.side == Side::Sell && maker_price >= taker.price@)
}

/// Unfilled quantity of a resting order.
pub open spec fn avail(o: Order) -> int {
    o.quantity@ - o.filled_quantity@
}

/// The resting order after absorbing a fill of `q`.
pub open spec fn with_fill(o: Order, q: int) -> Order {
    Order { filled_quantity: (Dec { m: (o.filled_quantity@ + q) as i128 }), ..o }
}

/// Price-time matching against one side of the book.  Returns the
/// fills (each the resting order as it stood, with the quantity taken
/// from it), the side after matching (fully filled orders removed,
/// a partially filled head updated), and the taker's unfilled
/// remainder.
pub open spec fn spec_match(opp: Seq<Order>, rem: int, taker: Order) -> (
    Seq<(Order, int)>,
    Seq<Order>,
    int,
)
    decreases opp.len(),
{
    if rem <= 0 || opp.len() == 0 || !taker_accepts(taker, opp[0].price@) {
        (Seq::<(Order, int)>::empty(), opp, rem)
    } else {
        let a = avail(opp[0]);
        if rem < a {
            (seq![(opp[0], rem)], seq![with_fill(opp[0], rem)] + opp.skip(1), 0)
        } else {
            let tail = spec_match(opp.skip(1), rem - a, taker);
            (seq![(opp[0], a)] + tail.0, tail.1, tail.2)
        }
    }
}

/// Quantity available to the taker on the opposite side, walking from
/// the best price until the first price it does not accept.
pub open spec fn spec_fillable(opp: Seq<Order>, taker: Order) -> int
    decreases opp.len(),
{
    if opp.len() == 0 || !taker_accepts(taker, opp[0].price@) {
        0
    } else {
        avail(opp[0]) + spec_fillable(opp.skip(1), taker)
    }
}

/// Sum of the quantities of a fill sequence.
pub open spec fn fills_total(fs: Seq<(Order, int)>) -> int
    decreases fs.len(),
{
    if fs.len() == 0 {
        0
    } else {
        fs[0].1 + fills_total(fs.skip(1))
    }
}

/// Where a newly posted order goes on its side: after every resting
/// order whose price is at or better than its own (time priority
/// within a price level).
pub open spec fn insert_index(s: Seq<Order>, o: Order, is_bid: bool) -> int
    decreases s.len(),
{
    if s.len() == 0 {
        0
    } else if ordered_before(s[0].price@, o.price@, is_bid) {
        1 + insert_index(s.skip(1), o, is_bid)
    } else {
        0
    }
}

/// The side after posting `o` with time priority.
pub open spec fn spec_insert(s: Seq<Order>, o: Order, is_bid: bool) -> Seq<Order> {
    s.insert(insert_index(s, o, is_bid), o)
}

/// Orders the book agrees to match: limit or market, positive
/// quantity, positive price when limit.
pub open spec fn spec_order_matchable(o: Order) -> bool {
    &&& (o.order_type == OrderType::Limit || o.order_type == OrderType::Market)
    &&& o.quantity@ > 0
    &&& (o.order_type == OrderType::Limit ==> o.price@ > 0)
}

/// Whether a remainder is posted: only limit GTC remainders rest.
pub open spec fn spec_posts(o: Order, rem: int) -> bool {
    rem > 0 && o.order_type == OrderType::Limit && o.time_in_force == TimeInForce::GTC
}

/// The posted remainder: the order with the unfilled quantity as its
/// new size and nothing filled.
pub open spec fn spec_posted(o: Order, rem: int, now: i64) -> Order {
    Order { quantity: (Dec { m: rem as i128 }), filled_quantity: (Dec { m: 0 }), updated_at: now, ..o }
}

/// How a trade record reflects one fill of `spec_match`: the resting
/// order's price, the filled quantity, and the two parties' order ids.
pub open spec fn trade_matches_fill(
    t: Trade,
    fill: (Order, int),
    taker: Order,
    sym: Seq<char>,
    now: i64,
) -> bool {
    &&& t.symbol@ == sym
    &&& t.price == fill.0.price
    &&& t.quantity@ == fill.1
    &&& t.executed_at == now
    &&& t.buyer_order_id == (if taker.side == Side::Buy {
        taker.id
    } else {
        fill.0.id
    })
    &&& t.seller_order_id == (if taker.side == Side::Buy {
        fill.0.id
    } else {
        taker.id
    })
}

/// How an executed trade record reflects one fill of `spec_match`.
pub open spec fn exec_matches_fill(
    ex: Execution,
    fill: (Order, int),
    taker: Order,
    sym: Seq<char>,
    now: i64,
) -> bool {
    &&& trade_matches_fill(ex.trade, fill, taker, sym, now)
    &&& ex.maker_user_id == fill.0.user_id
    &&& ex.maker_leverage == fill.0.leverage
}

/// The opposite side an incoming order matches against.
pub open spec fn opposite_of(book: OrderBook, side: Side) -> Seq<Order> {
    if side == Side::Buy {
        book.asks@
    } else {
        book.bids@
    }
}

/// The side an incoming order would rest on.
pub open spec fn own_of(book: OrderBook, side: Side) -> Seq<Order> {
    if side == Side::Buy {
        book.bids@
    } else {
        book.asks@
    }
}

/// When the book turns an order away without touching anything: a
/// stop order, a non-positive quantity, a non-positive limit price,
/// or a FOK order the opposite side cannot fill whole.
pub open spec fn spec_rejected(pre: OrderBook, order: Order) -> bool {
    ||| !spec_order_matchable(order)
    ||| (order.time_in_force == TimeInForce::FOK && spec_fillable(
        opposite_of(pre, order.side),
        order,
    ) < order.quantity@)
}

/// The book transition of an accepted order: the opposite side is
/// matched per `spec_match`, and a GTC limit remainder is posted with
/// time priority on the order's own side.
pub open spec fn spec_books_after(pre: OrderBook, post: OrderBook, order: Order, now: i64) -> bool {
    let sm = spec_match(opposite_of(pre, order.side), order.quantity@, order);
    &&& opposite_of(post, order.side) == sm.1
    &&& own_of(post, order.side) == (if spec_posts(order, sm.2) {
        spec_insert(own_of(pre, order.side), spec_posted(order, sm.2, now), order.side == Side::Buy)
    } else {
        own_of(pre, order.side)
    })
}

/// The accepted-order transition: the book per `spec_books_after`,
/// and the executions record the fills.
pub open spec fn spec_execute_ok(
    pre: OrderBook,
    post: OrderBook,
    order: Order,
    now: i64,
    execs: Seq<Execution>,
) -> bool {
    let sm = spec_match(opposite_of(pre, order.side), order.quantity@, order);
    &&& spec_books_after(pre, post, order, now)
    &&& execs.len() == sm.0.len()
    &&& forall|i: int|
        0 <= i < sm.0.len() ==> exec_matches_fill(#[trigger] execs[i], sm.0[i], order, pre.symbol@, now)
}

/// As `spec_execute_ok`, seen through the trade records alone.
pub open spec fn spec_add_ok(
    pre: OrderBook,
    post: OrderBook,
    order: Order,
    now: i64,
    trades: Seq<Trade>,
) -> bool {
    let sm = spec_match(opposite_of(pre, order.side), order.quantity@, order);
    &&& spec_books_after(pre, post, order, now)
    &&& trades.len() == sm.0.len()
    &&& forall|i: int|
        0 <= i < sm.0.len() ==> trade_matches_fill(
            #[trigger] trades[i],
            sm.0[i],
            order,
            pre.symbol@,
            now,
        )
}

/// Index of the first resting order with the given id, or -1.
pub open spec fn find_id(s: Seq<Order>, id: u128) -> int
    decreases s.len(),
{
    if s.len() == 0 {
        -1
    } else if s[0].id == id {
        0
    } else if find_id(s.skip(1), id) == -1 {
        -1
    } else {
        1 + find_id(s.skip(1), id)
    }
}

/// The fillable quantity is never negative.
pub proof fn lemma_fillable_nonneg(opp: Seq<Order>, taker: Order)
    requires
        forall|i: int| 0 <= i < opp.len() ==> #[trigger] wf_resting(opp[i]),
    ensures
        spec_fillable(opp, taker) >= 0,
    decreases opp.len(),
{
    if opp.len() == 0 || !taker_accepts(taker, opp[0].price@) {
    } else {
        assert(wf_resting(opp[0]));
        assert(forall|i: int|
            0 <= i < opp.skip(1).len() ==> #[trigger] wf_resting(opp.skip(1)[i]));
        lemma_fillable_nonneg(opp.skip(1), taker);
    }
}

/// Matching consumes exactly the difference between the quantity asked
/// for and the remainder, and never fills more than asked.
pub proof fn lemma_match_total(opp: Seq<Order>, rem: int, taker: Order)
    requires
        rem >= 0,
        forall|i: int| 0 <= i < opp.len() ==> #[trigger] wf_resting(opp[i]),
    ensures
        0 <= spec_match(opp, rem, taker).2 <= rem,
        fills_total(spec_match(opp, rem, taker).0) == rem - spec_match(opp, rem, taker).2,
    decreases opp.len(),
{
    let sm = spec_match(opp, rem, taker);
    assert(fills_total(Seq::<(Order, int)>::empty()) == 0);
    if rem <= 0 || opp.len() == 0 || !taker_accepts(taker, opp[0].price@) {
        assert(sm.0 =~= Seq::<(Order, int)>::empty());
        assert(fills_total(sm.0) == 0);
    } else {
        assert(wf_resting(opp[0]));
        let a = avail(opp[0]);
        if rem < a {
            assert(sm.0 =~= seq![(opp[0], rem)]);
            assert(sm.0.skip(1) =~= Seq::<(Order, int)>::empty());
            assert(fills_total(sm.0.skip(1)) == 0);
            assert(fills_total(sm.0) == sm.0[0].1 + fills_total(sm.0.skip(1)));
            assert(fills_total(sm.0) == rem);
        } else {
            assert(forall|i: int|
                0 <= i < opp.skip(1).len() ==> #[trigger] wf_resting(opp.skip(1)[i]));
            lemma_match_total(opp.skip(1), rem - a, taker);
            let tail = spec_match(opp.skip(1), rem - a, taker);
            assert(sm.0 =~= seq![(opp[0], a)] + tail.0);
            assert(sm.0.skip(1) =~= tail.0);
            assert(fills_total(sm.0) == sm.0[0].1 + fills_total(sm.0.skip(1)));
            assert(fills_total(sm.0) == a + fills_total(tail.0));
        }
    }
}

/// The remainder of matching is what the fillable quantity cannot
/// cover: zero when the opposite side can fill the whole quantity.
pub proof fn lemma_match_fillable(opp: Seq<Order>, rem: int, taker: Order)
    requires
        rem >= 0,
        forall|i: int| 0 <= i < opp.len() ==> #[trigger] wf_resting(opp[i]),
    ensures
        spec_match(opp, rem, taker).2 == (if rem <= spec_fillable(opp, taker) {
            0int
        } else {
            rem - spec_fillable(opp, taker)
        }),
    decreases opp.len(),
{
    lemma_fillable_nonneg(opp, taker);
    if rem <= 0 || opp.len() == 0 || !taker_accepts(taker, opp[0].price@) {
    } else {
        assert(wf_resting(opp[0]));
        let a = avail(opp[0]);
        assert(forall|i: int|
            0 <= i < opp.skip(1).len() ==> #[trigger] wf_resting(opp.skip(1)[i]));
        if rem < a {
            lemma_fillable_nonneg(opp.skip(1), taker);
        } else {
            lemma_match_fillable(opp.skip(1), rem - a, taker);
        }
    }
}

/// Each fill of `spec_match` takes the i-th resting order exactly as
/// it stood in the book: the matching price law in structural form.
pub proof fn lemma_match_fills_front(opp: Seq<Order>, rem: int, taker: Order)
    ensures
        spec_match(opp, rem, taker).0.len() <= opp.len(),
        forall|i: int|
            0 <= i < spec_match(opp, rem, taker).0.len()
                ==> #[trigger] spec_match(opp, rem, taker).0[i].0 == opp[i],
    decreases opp.len(),
{
    if rem <= 0 || opp.len() == 0 || !taker_accepts(taker, opp[0].price@) {
    } else {
        let a = avail(opp[0]);
        if rem < a {
        } else {
            lemma_match_fills_front(opp.skip(1), rem - a, taker);
        }
    }
}

/// The book after matching is a suffix of the old book, except that
/// its first order may carry extra fill; and when a remainder is left
/// the first remaining price (if any) is one the taker does not accept.
pub proof fn lemma_match_book_shape(opp: Seq<Order>, rem: int, taker: Order)
    requires
        forall|i: int| 0 <= i < opp.len() ==> #[trigger] wf_resting(opp[i]),
    ensures
        ({
            let sm = spec_match(opp, rem, taker);
            let k = opp.len() - sm.1.len();
            &&& sm.1.len() <= opp.len()
            &&& forall|i: int| #![trigger sm.1[i]] 1 <= i < sm.1.len() ==> sm.1[i] == opp[k + i]
            &&& forall|i: int|
                #![trigger sm.1[i]]
                0 <= i < sm.1.len() ==> wf_resting(sm.1[i])
                    && sm.1[i].price@ == opp[k + i].price@
                    && sm.1[i].id == opp[k + i].id
                    && sm.1[i].side == opp[k + i].side
            &&& sm.2 > 0 ==> (sm.1.len() == 0 || !taker_accepts(taker, sm.1[0].price@))
        }),
    decreases opp.len(),
{
    let sm = spec_match(opp, rem, taker);
    let k = opp.len() - sm.1.len();
    if rem <= 0 || opp.len() == 0 || !taker_accepts(taker, opp[0].price@) {
        assert(sm.1 == opp);
        assert forall|i: int|
            0 <= i < sm.1.len() implies (#[trigger] wf_resting(sm.1[i]))
                && sm.1[i].price@ == opp[k + i].price@
                && sm.1[i].id == opp[k + i].id
                && sm.1[i].side == opp[k + i].side by {
            assert(wf_resting(opp[i]));
        }
    } else {
        assert(wf_resting(opp[0]));
        let a = avail(opp[0]);
        if rem < a {
            let upd = with_fill(opp[0], rem);
            assert(0 <= opp[0].filled_quantity@ + rem < opp[0].quantity@);
            assert(upd.filled_quantity@ == opp[0].filled_quantity@ + rem);
            assert(wf_resting(upd));
            assert(k == 0);
            assert forall|i: int| 1 <= i < sm.1.len() implies sm.1[i] == opp[k + i] by {
                assert(sm.1[i] == opp.skip(1)[i - 1]);
            }
            assert forall|i: int|
                0 <= i < sm.1.len() implies (#[trigger] wf_resting(sm.1[i]))
                    && sm.1[i].price@ == opp[k + i].price@
                    && sm.1[i].id == opp[k + i].id
                    && sm.1[i].side == opp[k + i].side by {
                if i == 0 {
                    assert(sm.1[0] == upd);
                } else {
                    assert(sm.1[i] == opp[i]);
                    assert(wf_resting(opp[i]));
                }
            }
        } else {
            assert(forall|i: int|
                0 <= i < opp.skip(1).len() ==> #[trigger] wf_resting(opp.skip(1)[i]));
            lemma_match_book_shape(opp.skip(1), rem - a, taker);
            let tail = spec_match(opp.skip(1), rem - a, taker);
            let k1 = opp.skip(1).len() - tail.1.len();
            assert(sm.1 == tail.1);
            assert(k == k1 + 1);
            assert forall|i: int| 1 <= i < sm.1.len() implies sm.1[i] == opp[k + i] by {
                assert(tail.1[i] == opp.skip(1)[k1 + i]);
                assert(opp.skip(1)[k1 + i] == opp[k + i]);
            }
            assert forall|i: int|
                0 <= i < sm.1.len() implies (#[trigger] wf_resting(sm.1[i]))
                    && sm.1[i].price@ == opp[k + i].price@
                    && sm.1[i].id == opp[k + i].id
                    && sm.1[i].side == opp[k + i].side by {
                assert(wf_resting(tail.1[i]));
                assert(tail.1[i].price@ == opp.skip(1)[k1 + i].price@);
                assert(tail.1[i].id == opp.skip(1)[k1 + i].id);
                assert(tail.1[i].side == opp.skip(1)[k1 + i].side);
                assert(opp.skip(1)[k1 + i] == opp[k + i]);
            }
        }
    }
}

/// Characterisation of the post index: everything before it is at or
/// better than the new order's price, the entry at it (if any) is
/// strictly worse.
pub proof fn lemma_insert_index_char(s: Seq<Order>, o: Order, is_bid: bool)
    ensures
        0 <= insert_index(s, o, is_bid) <= s.len(),
        forall|j: int|
            0 <= j < insert_index(s, o, is_bid)
                ==> ordered_before(#[trigger] s[j].price@, o.price@, is_bid),
        insert_index(s, o, is_bid) < s.len() ==> !ordered_before(
            s[insert_index(s, o, is_bid)].price@,
            o.price@,
            is_bid,
        ),
    decreases s.len(),
{
    if s.len() == 0 {
    } else if ordered_before(s[0].price@, o.price@, is_bid) {
        lemma_insert_index_char(s.skip(1), o, is_bid);
        let k = insert_index(s, o, is_bid);
        assert forall|j: int|
            0 <= j < k implies ordered_before(#[trigger] s[j].price@, o.price@, is_bid) by {
            if j > 0 {
                assert(s.skip(1)[j - 1] == s[j]);
                assert(ordered_before(s.skip(1)[j - 1].price@, o.price@, is_bid));
            }
        }
        if k < s.len() {
            assert(s.skip(1)[k - 1] == s[k]);
        }
    } else {
    }
}

/// Posting with time priority keeps the side sorted and adds exactly
/// the posted order.
pub proof fn lemma_spec_insert_props(s: Seq<Order>, o: Order, is_bid: bool)
    ensures
        spec_insert(s, o, is_bid).len() == s.len() + 1,
        forall|i: int|
            0 <= i < spec_insert(s, o, is_bid).len()
                ==> (#[trigger] spec_insert(s, o, is_bid)[i] == o || exists|j: int|
                0 <= j < s.len() && spec_insert(s, o, is_bid)[i] == s[j]),
        sorted_side(s, is_bid) ==> sorted_side(spec_insert(s, o, is_bid), is_bid),
{
    lemma_insert_index_char(s, o, is_bid);
    let k = insert_index(s, o, is_bid);
    let r = spec_insert(s, o, is_bid);
    assert forall|i: int| 0 <= i < r.len() implies (#[trigger] r[i] == o || exists|j: int|
        0 <= j < s.len() && r[i] == s[j]) by {
        if i < k {
            assert(r[i] == s[i]);
        } else if i == k {
            assert(r[i] == o);
        } else {
            assert(r[i] == s[i - 1]);
        }
    }
    if sorted_side(s, is_bid) {
        assert forall|i: int, j: int|
            0 <= i < j < r.len() implies ordered_before(r[i].price@, r[j].price@, is_bid) by {
            if i < k && j < k {
            } else if i < k && j == k {
            } else if i == k && j > k {
                assert(!ordered_before(s[k].price@, o.price@, is_bid));
                if j - 1 > k {
                    assert(ordered_before(s[k].price@, s[j - 1].price@, is_bid));
                }
            } else if i < k && j > k {
            } else if i > k && j > k {
            } else {
            }
        }
    }
}

/// Every fill of `spec_match` takes a positive in-range quantity at
/// a positive in-range price from a well-formed resting order with
/// in-range leverage.
pub proof fn lemma_match_fill_bounds(opp: Seq<Order>, rem: int, taker: Order)
    requires
        forall|i: int| 0 <= i < opp.len() ==> #[trigger] wf_resting(opp[i]),
        0 <= rem <= AMT_MAX,
    ensures
        forall|i: int|
            0 <= i < spec_match(opp, rem, taker).0.len() ==> ({
                let fill = #[trigger] spec_match(opp, rem, taker).0[i];
                &&& 0 < fill.1 <= AMT_MAX
                &&& 0 < fill.0.price@ <= AMT_MAX
                &&& match fill.0.leverage {
                    Some(l) => SCALE < l@ <= AMT_MAX,
                    None => true,
                }
            }),
    decreases opp.len(),
{
    if rem <= 0 || opp.len() == 0 || !taker_accepts(taker, opp[0].price@) {
    } else {
        assert(wf_resting(opp[0]));
        let a = avail(opp[0]);
        let sm = spec_match(opp, rem, taker);
        if rem < a {
        } else {
            assert(forall|i: int|
                0 <= i < opp.skip(1).len() ==> #[trigger] wf_resting(opp.skip(1)[i]));
            lemma_match_fill_bounds(opp.skip(1), rem - a, taker);
            let tail = spec_match(opp.skip(1), rem - a, taker);
            assert forall|i: int|
                0 <= i < sm.0.len() implies ({
                let fill = #[trigger] sm.0[i];
                &&& 0 < fill.1 <= AMT_MAX
                &&& 0 < fill.0.price@ <= AMT_MAX
                &&& match fill.0.leverage {
                    Some(l) => SCALE < l@ <= AMT_MAX,
                    None => true,
                }
            }) by {
                if i > 0 {
                    assert(sm.0[i] == tail.0[i - 1]);
                }
            }
        }
    }
}

/// No crossed book: in a well-formed book every resting bid price is
/// at or below every resting ask price.
pub proof fn lemma_book_uncrossed(book: OrderBook)
    requires
        book.wf(),
    ensures
        forall|i: int, j: int|
            0 <= i < book.bids@.len() && 0 <= j < book.asks@.len()
                ==> (#[trigger] book.bids@[i]).price@ <= (#[trigger] book.asks@[j]).price@,
{
}

/// FOK atomicity, the filling half: when the opposite side can fill
/// the whole quantity, matching consumes exactly that quantity, so the
/// trades of an accepted FOK order sum to its full size.  (The other
/// half is structural: a FOK order whose pre-scan falls short is
/// rejected with the book unchanged, as `execute_order` ensures.)
pub proof fn lemma_fok_atomicity(opp: Seq<Order>, taker: Order)
    requires
        forall|i: int| 0 <= i < opp.len() ==> #[trigger] wf_resting(opp[i]),
        taker.quantity@ >= 0,
        spec_fillable(opp, taker) >= taker.quantity@,
    ensures
        fills_total(spec_match(opp, taker.quantity@, taker).0) == taker.quantity@,
        spec_match(opp, taker.quantity@, taker).2 == 0,
{
    lemma_match_fillable(opp, taker.quantity@, taker);
    lemma_match_total(opp, taker.quantity@, taker);
}

/// IOC no-rest: matching never adds the incoming order to the book
/// side it walks, so after an IOC placement (which never posts a
/// remainder either, as `spec_posts` requires GTC) the incoming order
/// rests nowhere.
pub proof fn lemma_ioc_no_rest(opp: Seq<Order>, rem: int, taker: Order)
    requires
        forall|i: int| 0 <= i < opp.len() ==> (#[trigger] opp[i]).id != taker.id,
    ensures
        forall|i: int|
            0 <= i < spec_match(opp, rem, taker).1.len()
                ==> (#[trigger] spec_match(opp, rem, taker).1[i]).id != taker.id,
    decreases opp.len(),
{
    let sm = spec_match(opp, rem, taker);
    if rem <= 0 || opp.len() == 0 || !taker_accepts(taker, opp[0].price@) {
        assert forall|i: int|
            0 <= i < sm.1.len() implies (#[trigger] sm.1[i]).id != taker.id by {
            assert(sm.1[i] == opp[i]);
        }
    } else {
        let a = avail(opp[0]);
        if rem < a {
            assert forall|i: int|
                0 <= i < sm.1.len() implies (#[trigger] sm.1[i]).id != taker.id by {
                if i == 0 {
                    assert(sm.1[0] == with_fill(opp[0], rem));
                } else {
                    assert(sm.1[i] == opp[i]);
                }
            }
        } else {
            assert(forall|i: int|
                0 <= i < opp.skip(1).len() ==> (#[trigger] opp.skip(1)[i]).id != taker.id);
            lemma_ioc_no_rest(opp.skip(1), rem - a, taker);
        }
    }
}

/// Matching price law: every trade of an accepted order carries the
/// price of the order that was already resting at the moment of
/// match — the i-th trade prices at the i-th resting order the taker
/// walked, never at the incoming order's own price.
pub proof fn lemma_trade_price_law(
    pre: OrderBook,
    post: OrderBook,
    order: Order,
    now: i64,
    trades: Seq<Trade>,
)
    requires
        spec_add_ok(pre, post, order, now, trades),
    ensures
        trades.len() <= opposite_of(pre, order.side).len(),
        forall|i: int|
            0 <= i < trades.len() ==> (#[trigger] trades[i]).price == opposite_of(
                pre,
                order.side,
            )[i].price,
{
    let opp = opposite_of(pre, order.side);
    let sm = spec_match(opp, order.quantity@, order);
    lemma_match_fills_front(opp, order.quantity@, order);
    assert forall|i: int|
        0 <= i < trades.len() implies (#[trigger] trades[i]).price == opp[i].price by {
        assert(trade_matches_fill(trades[i], sm.0[i], order, pre.symbol@, now));
        assert(sm.0[i].0 == opp[i]);
    }
}

/// Characterisation of `find_id`: it is the first index holding the
/// id, or -1 when no resting order has it.
pub proof fn lemma_find_id_char(s: Seq<Order>, id: u128)
    ensures
        -1 <= find_id(s, id) < s.len(),
        find_id(s, id) >= 0 ==> s[find_id(s, id)].id == id,
        find_id(s, id) >= 0 ==> forall|j: int| 0 <= j < find_id(s, id) ==> (#[trigger] s[j]).id
            != id,
        find_id(s, id) == -1 ==> forall|j: int| 0 <= j < s.len() ==> (#[trigger] s[j]).id != id,
    decreases s.len(),
{
    if s.len() == 0 {
    } else if s[0].id == id {
    } else {
        lemma_find_id_char(s.skip(1), id);
        let r = find_id(s, id);
        if find_id(s.skip(1), id) == -1 {
            assert forall|j: int| 0 <= j < s.len() implies (#[trigger] s[j]).id != id by {
                if j > 0 {
                    assert(s.skip(1)[j - 1] == s[j]);
                }
            }
        } else {
            assert(r == 1 + find_id(s.skip(1), id));
            assert(s[r] == s.skip(1)[r - 1]);
            assert forall|j: int| 0 <= j < r implies (#[trigger] s[j]).id != id by {
                if j > 0 {
                    assert(s.skip(1)[j - 1] == s[j]);
                }
            }
        }
    }
}

/// The matched side keeps well-formed resting orders of the same side
/// and stays sorted.
pub proof fn lemma_matched_wf(
    opp0: Seq<Order>,
    rem: int,
    taker: Order,
    opp_is_bid: bool,
    mk_side: Side,
)
    requires
        forall|i: int|
            0 <= i < opp0.len() ==> wf_resting(#[trigger] opp0[i]) && opp0[i].side == mk_side,
        sorted_side(opp0, opp_is_bid),
    ensures
        ({
            let sm1 = spec_match(opp0, rem, taker).1;
            &&& forall|i: int|
                0 <= i < sm1.len() ==> wf_resting(#[trigger] sm1[i]) && sm1[i].side == mk_side
            &&& sorted_side(sm1, opp_is_bid)
        }),
{
    lemma_match_book_shape(opp0, rem, taker);
    let sm1 = spec_match(opp0, rem, taker).1;
    let k = opp0.len() - sm1.len();
    assert forall|i: int|
        0 <= i < sm1.len() implies wf_resting(#[trigger] sm1[i]) && sm1[i].side == mk_side by {
        assert(sm1[i].side == opp0[k + i].side);
        assert(wf_resting(opp0[k + i]));
    }
    assert forall|i: int, j: int|
        0 <= i < j < sm1.len() implies ordered_before(sm1[i].price@, sm1[j].price@, opp_is_bid) by {
        assert(sm1[i].price@ == opp0[k + i].price@);
        assert(sm1[j].price@ == opp0[k + j].price@);
        assert(ordered_before(opp0[k + i].price@, opp0[k + j].price@, opp_is_bid));
    }
}

/// Matching the asks of an uncrossed book keeps it uncrossed.
pub proof fn lemma_uncrossed_match_asks(bids0: Seq<Order>, asks0: Seq<Order>, rem: int, taker: Order)
    requires
        uncrossed(bids0, asks0),
        forall|i: int| 0 <= i < asks0.len() ==> #[trigger] wf_resting(asks0[i]),
    ensures
        uncrossed(bids0, spec_match(asks0, rem, taker).1),
{
    lemma_match_book_shape(asks0, rem, taker);
    let sm1 = spec_match(asks0, rem, taker).1;
    let k = asks0.len() - sm1.len();
    assert forall|a: int, b: int|
        0 <= a < bids0.len() && 0 <= b < sm1.len() implies bids0[a].price@ < sm1[b].price@ by {
        assert(sm1[b].price@ == asks0[k + b].price@);
        assert(bids0[a].price@ < asks0[k + b].price@);
    }
}

/// Matching the bids of an uncrossed book keeps it uncrossed.
pub proof fn lemma_uncrossed_match_bids(bids0: Seq<Order>, asks0: Seq<Order>, rem: int, taker: Order)
    requires
        uncrossed(bids0, asks0),
        forall|i: int| 0 <= i < bids0.len() ==> #[trigger] wf_resting(bids0[i]),
    ensures
        uncrossed(spec_match(bids0, rem, taker).1, asks0),
{
    lemma_match_book_shape(bids0, rem, taker);
    let sm1 = spec_match(bids0, rem, taker).1;
    let k = bids0.len() - sm1.len();
    assert forall|a: int, b: int|
        0 <= a < sm1.len() && 0 <= b < asks0.len() implies sm1[a].price@ < asks0[b].price@ by {
        assert(sm1[a].price@ == bids0[k + a].price@);
        assert(bids0[k + a].price@ < asks0[b].price@);
    }
}

/// When a limit remainder is left, every price still resting on the
/// matched side is strictly beyond the taker's own price.
pub proof fn lemma_posted_clears_opposite(opp0: Seq<Order>, rem: int, taker: Order, opp_is_bid: bool)
    requires
        forall|i: int| 0 <= i < opp0.len() ==> #[trigger] wf_resting(opp0[i]),
        sorted_side(opp0, opp_is_bid),
        taker.order_type == OrderType::Limit,
        (taker.side == Side::Buy) == !opp_is_bid,
        spec_match(opp0, rem, taker).2 > 0,
    ensures
        forall|j: int|
            0 <= j < spec_match(opp0, rem, taker).1.len() ==> (if opp_is_bid {
                (#[trigger] spec_match(opp0, rem, taker).1[j]).price@ < taker.price@
            } else {
                taker.price@ < (#[trigger] spec_match(opp0, rem, taker).1[j]).price@
            }),
{
    lemma_match_book_shape(opp0, rem, taker);
    let sm1 = spec_match(opp0, rem, taker).1;
    let k = opp0.len() - sm1.len();
    assert forall|j: int|
        0 <= j < sm1.len() implies (if opp_is_bid {
            (#[trigger] sm1[j]).price@ < taker.price@
        } else {
            taker.price@ < (#[trigger] sm1[j]).price@
        }) by {
        assert(!taker_accepts(taker, sm1[0].price@));
        assert(sm1[j].price@ == opp0[k + j].price@);
        assert(sm1[0].price@ == opp0[k].price@);
        if j > 0 {
            assert(ordered_before(opp0[k].price@, opp0[k + j].price@, opp_is_bid));
        }
    }
}

/// Removes the first resting order with the given id, keeping the
/// side sorted and well-formed.
fn remove_by_id(v: &mut Vec<Order>, order_id: u128, is_bid: bool) -> (r: Result<(), OrderError>)
    requires
        sorted_side(old(v)@, is_bid),
        forall|i: int|
            0 <= i < old(v)@.len() ==> wf_resting(#[trigger] old(v)@[i]) && old(v)@[i].side == (
            if is_bid {
                Side::Buy
            } else {
                Side::Sell
            }),
    ensures
        sorted_side(final(v)@, is_bid),
        forall|i: int|
            0 <= i < final(v)@.len() ==> wf_resting(#[trigger] final(v)@[i]) && final(v)@[i].side
                == (if is_bid {
                Side::Buy
            } else {
                Side::Sell
            }),
        match r {
            Result::Ok(u) => find_id(old(v)@, order_id) >= 0 && final(v)@ == old(v)@.remove(
                find_id(old(v)@, order_id),
            ),
            Result::Err(e) => e == OrderError::OrderNotFound && find_id(old(v)@, order_id) == -1
                && final(v)@ == old(v)@,
        },
{
    proof {
        lemma_find_id_char(old(v)@, order_id);
    }
    let ghost s0 = v@;
    let n = v.len();
    let mut i: usize = 0;
    loop
        invariant
            0 <= i <= n,
            n == v@.len(),
            v@ == s0,
            forall|j: int| 0 <= j < i ==> (#[trigger] s0[j]).id != order_id,
        ensures
            v@ == s0,
            i <= n,
            i < n ==> s0[i as int].id == order_id,
            i == n ==> forall|j: int| 0 <= j < n ==> (#[trigger] s0[j]).id != order_id,
        decreases n - i,
    {
        if i == n {
            break;
        }
        if v[i].id == order_id {
            break;
        }
        i = i + 1;
    }
    if i == n {
        proof {
            assert(find_id(s0, order_id) == -1);
        }
        return Err(OrderError::OrderNotFound);
    }
    proof {
        let f = find_id(s0, order_id);
        if f < i as int {
            assert(s0[f].id != order_id);
            assert(false);
        }
        if f > i as int {
            assert(s0[i as int].id != order_id);
            assert(false);
        }
    }
    let removed = v.remove(i);
    proof {
        let s1 = v@;
        assert forall|a: int, b: int|
            0 <= a < b < s1.len() implies ordered_before(s1[a].price@, s1[b].price@, is_bid) by {
            let a0 = if a < i as int {
                a
            } else {
                a + 1
            };
            let b0 = if b < i as int {
                b
            } else {
                b + 1
            };
            assert(s1[a] == s0[a0]);
            assert(s1[b] == s0[b0]);
            assert(ordered_before(s0[a0].price@, s0[b0].price@, is_bid));
        }
        assert forall|a: int|
            0 <= a < v@.len() implies wf_resting(#[trigger] v@[a]) && v@[a].side == (if is_bid {
            Side::Buy
        } else {
            Side::Sell
        }) by {
            let a0 = if a < i as int {
                a
            } else {
                a + 1
            };
            assert(v@[a] == s0[a0]);
            assert(wf_resting(s0[a0]));
        }
    }
    Ok(())
}

impl OrderBook {
    /// Well-formed book: both sides hold resting limit orders of their
    /// own side, each side is ordered best price first, and no bid
    /// price reaches any ask price.
    pub open spec fn wf(&self) -> bool {
        &&& forall|i: int|
            0 <= i < self.bids@.len() ==> wf_resting(#[trigger] self.bids@[i])
                && self.bids@[i].side == Side::Buy
        &&& forall|i: int|
            0 <= i < self.asks@.len() ==> wf_resting(#[trigger] self.asks@[i])
                && self.asks@[i].side == Side::Sell
        &&& sorted_side(self.bids@, true)
        &&& sorted_side(self.asks@, false)
        &&& uncrossed(self.bids@, self.asks@)
    }

    /// An empty book for one symbol.
    pub fn new(symbol: String) -> (r: OrderBook)
        ensures
            r.symbol@ == symbol@,
            r.bids@.len() == 0,
            r.asks@.len() == 0,
            r.wf(),
    {
        OrderBook { symbol, bids: Vec::new(), asks: Vec::new() }
    }

    /// Whether the book would turn this order away without touching
    /// anything.
    pub fn rejects(&self, order: &Order) -> (r: bool)
        requires
            self.wf(),
            order.valid(),
        ensures
            r == spec_rejected(*self, *order),
    {
        let type_ok = order.order_type == OrderType::Limit || order.order_type
            == OrderType::Market;
        if !type_ok {
            return true;
        }
        if order.quantity.m <= 0 {
            return true;
        }
        if order.order_type == OrderType::Limit && order.price.m <= 0 {
            return true;
        }
        if order.time_in_force == TimeInForce::FOK {
            if order.side == Side::Buy {
                proof {
                    assert(forall|i: int|
                        0 <= i < self.asks@.len() ==> #[trigger] wf_resting(self.asks@[i]));
                }
                !fillable_at_least(&self.asks, order, order.quantity)
            } else {
                proof {
                    assert(forall|i: int|
                        0 <= i < self.bids@.len() ==> #[trigger] wf_resting(self.bids@[i]));
                }
                !fillable_at_least(&self.bids, order, order.quantity)
            }
        } else {
            false
        }
    }

    /// Matches an incoming order and returns the executions: trades
    /// plus the resting parties' identity and leverage.  Rejects stop
    /// orders, non-positive quantities, non-positive limit prices, and
    /// FOK orders the book cannot fill whole; a rejection leaves the
    /// book untouched.
    pub fn execute_order(&mut self, order: Order, now: i64) -> (r: Result<
        Vec<Execution>,
        OrderError,
    >)
        requires
            old(self).wf(),
            order.valid(),
            0 <= now,
        ensures
            final(self).wf(),
            final(self).symbol@ == old(self).symbol@,
            match r {
                Result::Err(e) => e == OrderError::InvalidOrder && spec_rejected(
                    *old(self),
                    order,
                ) && final(self).bids@ == old(self).bids@ && final(self).asks@ == old(
                    self,
                ).asks@,
                Result::Ok(execs) => !spec_rejected(*old(self), order) && spec_execute_ok(
                    *old(self),
                    *final(self),
                    order,
                    now,
                    execs@,
                ),
            },
    {
        let type_ok = order.order_type == OrderType::Limit || order.order_type
            == OrderType::Market;
        if !type_ok {
            return Err(OrderError::InvalidOrder);
        }
        if order.quantity.m <= 0 {
            return Err(OrderError::InvalidOrder);
        }
        if order.order_type == OrderType::Limit && order.price.m <= 0 {
            return Err(OrderError::InvalidOrder);
        }
        if order.side == Side::Buy {
            self.match_buy_order(order, now)
        } else {
            self.match_sell_order(order, now)
        }
    }

    /// Buy path: match against the asks, post any GTC remainder on the
    /// bids.
    fn match_buy_order(&mut self, order: Order, now: i64) -> (r: Result<Vec<Execution>, OrderError>)
        requires
            old(self).wf(),
            order.valid(),
            0 <= now,
            spec_order_matchable(order),
            order.side == Side::Buy,
        ensures
            final(self).wf(),
            final(self).symbol@ == old(self).symbol@,
            match r {
                Result::Err(e) => e == OrderError::InvalidOrder && spec_rejected(
                    *old(self),
                    order,
                ) && final(self).bids@ == old(self).bids@ && final(self).asks@ == old(
                    self,
                ).asks@,
                Result::Ok(execs) => !spec_rejected(*old(self), order) && spec_execute_ok(
                    *old(self),
                    *final(self),
                    order,
                    now,
                    execs@,
                ),
            },
    {
        if order.time_in_force == TimeInForce::FOK {
            if !fillable_at_least(&self.asks, &order, order.quantity) {
                return Err(OrderError::InvalidOrder);
            }
        }
        let ghost sm = spec_match(old(self).asks@, order.quantity@, order);
        proof {
            lemma_matched_wf(old(self).asks@, order.quantity@, order, false, Side::Sell);
            lemma_uncrossed_match_asks(old(self).bids@, old(self).asks@, order.quantity@, order);
        }
        let (execs, remaining) = match_loop(&mut self.asks, &self.symbol, &order, now);
        if remaining.m > 0 && order.order_type == OrderType::Limit && order.time_in_force
            == TimeInForce::GTC {
            let posted = Order {
                quantity: remaining,
                filled_quantity: Dec::zero(),
                updated_at: now,
                ..order
            };
            proof {
                assert(posted == spec_posted(order, sm.2, now));
                assert(wf_resting(posted));
                lemma_posted_clears_opposite(old(self).asks@, order.quantity@, order, false);
                lemma_spec_insert_props(old(self).bids@, posted, true);
            }
            insert_resting(&mut self.bids, posted, true);
            proof {
                let bids1 = self.bids@;
                let asks1 = self.asks@;
                assert forall|i: int|
                    0 <= i < bids1.len() implies wf_resting(#[trigger] bids1[i]) && bids1[i].side
                        == Side::Buy by {
                    if bids1[i] != posted {
                        let j = choose|j: int|
                            0 <= j < old(self).bids@.len() && bids1[i] == old(self).bids@[j];
                        assert(wf_resting(old(self).bids@[j]));
                    }
                }
                assert forall|a: int, b: int|
                    0 <= a < bids1.len() && 0 <= b < asks1.len() implies bids1[a].price@
                        < asks1[b].price@ by {
                    if bids1[a] == posted {
                        assert(asks1[b] == sm.1[b]);
                    } else {
                        let j = choose|j: int|
                            0 <= j < old(self).bids@.len() && bids1[a] == old(self).bids@[j];
                        assert(old(self).bids@[j].price@ < sm.1[b].price@);
                    }
                }
            }
        }
        Ok(execs)
    }

    /// Sell path: match against the bids, post any GTC remainder on
    /// the asks.
    fn match_sell_order(&mut self, order: Order, now: i64) -> (r: Result<
        Vec<Execution>,
        OrderError,
    >)
        requires
            old(self).wf(),
            order.valid(),
            0 <= now,
            spec_order_matchable(order),
            order.side == Side::Sell,
        ensures
            final(self).wf(),
            final(self).symbol@ == old(self).symbol@,
            match r {
                Result::Err(e) => e == OrderError::InvalidOrder && spec_rejected(
                    *old(self),
                    order,
                ) && final(self).bids@ == old(self).bids@ && final(self).asks@ == old(
                    self,
                ).asks@,
                Result::Ok(execs) => !spec_rejected(*old(self), order) && spec_execute_ok(
                    *old(self),
                    *final(self),
                    order,
                    now,
                    execs@,
                ),
            },
    {
        if order.time_in_force == TimeInForce::FOK {
            if !fillable_at_least(&self.bids, &order, order.quantity) {
                return Err(OrderError::InvalidOrder);
            }
        }
        let ghost sm = spec_match(old(self).bids@, order.quantity@, order);
        proof {
            lemma_matched_wf(old(self).bids@, order.quantity@, order, true, Side::Buy);
            lemma_uncrossed_match_bids(old(self).bids@, old(self).asks@, order.quantity@, order);
        }
        let (execs, remaining) = match_loop(&mut self.bids, &self.symbol, &order, now);
        if remaining.m > 0 && order.order_type == OrderType::Limit && order.time_in_force
            == TimeInForce::GTC {
            let posted = Order {
                quantity: remaining,
                filled_quantity: Dec::zero(),
                updated_at: now,
                ..order
            };
            proof {
                assert(posted == spec_posted(order, sm.2, now));
                assert(wf_resting(posted));
                lemma_posted_clears_opposite(old(self).bids@, order.quantity@, order, true);
                lemma_spec_insert_props(old(self).asks@, posted, false);
            }
            insert_resting(&mut self.asks, posted, false);
            proof {
                let bids1 = self.bids@;
                let asks1 = self.asks@;
                assert forall|i: int|
                    0 <= i < asks1.len() implies wf_resting(#[trigger] asks1[i]) && asks1[i].side
                        == Side::Sell by {
                    if asks1[i] != posted {
                        let j = choose|j: int|
                            0 <= j < old(self).asks@.len() && asks1[i] == old(self).asks@[j];
                        assert(wf_resting(old(self).asks@[j]));
                    }
                }
                assert forall|a: int, b: int|
                    0 <= a < bids1.len() && 0 <= b < asks1.len() implies bids1[a].price@
                        < asks1[b].price@ by {
                    if asks1[b] == posted {
                        assert(bids1[a] == sm.1[a]);
                    } else {
                        let j = choose|j: int|
                            0 <= j < old(self).asks@.len() && asks1[b] == old(self).asks@[j];
                        assert(sm.1[a].price@ < old(self).asks@[j].price@);
                    }
                }
            }
        }
        Ok(execs)
    }

    /// Matches an incoming order and returns the trades it produced.
    pub fn add_order(&mut self, order: Order, now: i64) -> (r: Result<Vec<Trade>, OrderError>)
        requires
            old(self).wf(),
            order.valid(),
            0 <= now,
        ensures
            final(self).wf(),
            final(self).symbol@ == old(self).symbol@,
            match r {
                Result::Err(e) => e == OrderError::InvalidOrder && spec_rejected(
                    *old(self),
                    order,
                ) && final(self).bids@ == old(self).bids@ && final(self).asks@ == old(
                    self,
                ).asks@,
                Result::Ok(trades) => !spec_rejected(*old(self), order) && spec_add_ok(
                    *old(self),
                    *final(self),
                    order,
                    now,
                    trades@,
                ),
            },
    {
        match self.execute_order(order, now) {
            Ok(execs) => {
                let ghost gex = execs@;
                let mut rest = execs;
                let mut trades: Vec<Trade> = Vec::new();
                loop
                    invariant
                        trades@.len() + rest@.len() == gex.len(),
                        rest@ =~= gex.skip(trades@.len() as int),
                        forall|i: int|
                            0 <= i < trades@.len() ==> #[trigger] trades@[i] == gex[i].trade,
                    ensures
                        rest@.len() == 0,
                        trades@.len() == gex.len(),
                        forall|i: int|
                            0 <= i < trades@.len() ==> #[trigger] trades@[i] == gex[i].trade,
                    decreases rest@.len(),
                {
                    if rest.len() == 0 {
                        break;
                    }
                    let e = rest.remove(0);
                    proof {
                        assert(e == gex[trades@.len() as int]);
                    }
                    trades.push(e.trade);
                }
                Ok(trades)
            },
            Err(e) => Err(e),
        }
    }

    /// Removes the resting order with the given id from the named
    /// side; fails with `OrderNotFound` when no such order rests there.
    pub fn cancel_order(&mut self, order_id: u128, side: Side) -> (r: Result<(), OrderError>)
        requires
            old(self).wf(),
        ensures
            final(self).wf(),
            final(self).symbol@ == old(self).symbol@,
            ({
                let s0 = own_of(*old(self), side);
                let s1 = own_of(*final(self), side);
                let t0 = opposite_of(*old(self), side);
                let t1 = opposite_of(*final(self), side);
                match r {
                    Result::Ok(u) => find_id(s0, order_id) >= 0 && s1 == s0.remove(
                        find_id(s0, order_id),
                    ) && t1 == t0,
                    Result::Err(e) => e == OrderError::OrderNotFound && find_id(s0, order_id)
                        == -1 && s1 == s0 && t1 == t0,
                }
            }),
    {
        let r = if side == Side::Buy {
            remove_by_id(&mut self.bids, order_id, true)
        } else {
            remove_by_id(&mut self.asks, order_id, false)
        };
        proof {
            lemma_find_id_char(own_of(*old(self), side), order_id);
            let bids1 = self.bids@;
            let asks1 = self.asks@;
            let bids0 = old(self).bids@;
            let asks0 = old(self).asks@;
            assert forall|a: int, b: int|
                0 <= a < bids1.len() && 0 <= b < asks1.len() implies bids1[a].price@
                    < asks1[b].price@ by {
                if side == Side::Buy {
                    if r is Ok {
                        let f = find_id(bids0, order_id);
                        let a0 = if a < f {
                            a
                        } else {
                            a + 1
                        };
                        assert(bids1[a] == bids0[a0]);
                        assert(bids0[a0].price@ < asks0[b].price@);
                    }
                } else {
                    if r is Ok {
                        let f = find_id(asks0, order_id);
                        let b0 = if b < f {
                            b
                        } else {
                            b + 1
                        };
                        assert(asks1[b] == asks0[b0]);
                        assert(bids0[a].price@ < asks0[b0].price@);
                    }
                }
            }
        }
        r
    }

    /// Top-of-book snapshot: the first `depth` (price, remaining
    /// quantity) pairs of each side, best first.
    pub fn get_depth(&self, depth: usize) -> (r: (Vec<(Dec, Dec)>, Vec<(Dec, Dec)>))
        requires
            self.wf(),
        ensures
            r.0@.len() == (if depth <= self.bids@.len() {
                depth as int
            } else {
                self.bids@.len() as int
            }),
            r.1@.len() == (if depth <= self.asks@.len() {
                depth as int
            } else {
                self.asks@.len() as int
            }),
            forall|i: int|
                0 <= i < r.0@.len() ==> (#[trigger] r.0@[i]).0 == self.bids@[i].price
                    && r.0@[i].1@ == avail(self.bids@[i]),
            forall|i: int|
                0 <= i < r.1@.len() ==> (#[trigger] r.1@[i]).0 == self.asks@[i].price
                    && r.1@[i].1@ == avail(self.asks@[i]),
    {
        let mut bids: Vec<(Dec, Dec)> = Vec::new();
        let mut i: usize = 0;
        loop
            invariant
                self.wf(),
                0 <= i <= self.bids@.len(),
                i <= depth,
                bids@.len() == i,
                forall|j: int|
                    0 <= j < i ==> (#[trigger] bids@[j]).0 == self.bids@[j].price && bids@[j].1@
                        == avail(self.bids@[j]),
            ensures
                bids@.len() == i,
                i == (if depth <= self.bids@.len() {
                    depth as int
                } else {
                    self.bids@.len() as int
                }),
                forall|j: int|
                    0 <= j < i ==> (#[trigger] bids@[j]).0 == self.bids@[j].price && bids@[j].1@
                        == avail(self.bids@[j]),
            decreases self.bids@.len() - i,
        {
            if i == depth || i == self.bids.len() {
                break;
            }
            proof {
                assert(wf_resting(self.bids@[i as int]));
            }
            let o = &self.bids[i];
            bids.push((o.price, o.quantity.sub(o.filled_quantity)));
            i = i + 1;
        }
        let mut asks: Vec<(Dec, Dec)> = Vec::new();
        let mut i2: usize = 0;
        loop
            invariant
                self.wf(),
                0 <= i2 <= self.asks@.len(),
                i2 <= depth,
                asks@.len() == i2,
                forall|j: int|
                    0 <= j < i2 ==> (#[trigger] asks@[j]).0 == self.asks@[j].price && asks@[j].1@
                        == avail(self.asks@[j]),
            ensures
                asks@.len() == i2,
                i2 == (if depth <= self.asks@.len() {
                    depth as int
                } else {
                    self.asks@.len() as int
                }),
                forall|j: int|
                    0 <= j < i2 ==> (#[trigger] asks@[j]).0 == self.asks@[j].price && asks@[j].1@
                        == avail(self.asks@[j]),
            decreases self.asks@.len() - i2,
        {
            if i2 == depth || i2 == self.asks.len() {
                break;
            }
            proof {
                assert(wf_resting(self.asks@[i2 as int]));
            }
            let o = &self.asks[i2];
            asks.push((o.price, o.quantity.sub(o.filled_quantity)));
            i2 = i2 + 1;
        }
        (bids, asks)
    }
}

/// Whether at least `q` is fillable for `taker` on `opp`.
fn fillable_at_least(opp: &Vec<Order>, taker: &Order, q: Dec) -> (r: bool)
    requires
        forall|i: int| 0 <= i < opp@.len() ==> #[trigger] wf_resting(opp@[i]),
        0 < q@ <= AMT_MAX,
    ensures
        r == (spec_fillable(opp@, *taker) >= q@),
{
    proof {
        lemma_fillable_nonneg(opp@, *taker);
        assert(opp@.skip(0) =~= opp@);
    }
    let mut acc: Dec = Dec::zero();
    let mut i: usize = 0;
    loop
        invariant
            0 <= i <= opp@.len(),
            0 <= acc@ < q@,
            forall|k: int| 0 <= k < opp@.len() ==> #[trigger] wf_resting(opp@[k]),
            0 < q@ <= AMT_MAX,
            spec_fillable(opp@, *taker) == acc@ + spec_fillable(opp@.skip(i as int), *taker),
        ensures
            spec_fillable(opp@, *taker) == acc@,
        decreases opp@.len() - i,
    {
        if i == opp.len() {
            proof {
                assert(opp@.skip(i as int) =~= Seq::<Order>::empty());
            }
            break;
        }
        let ghost suffix = opp@.skip(i as int);
        proof {
            assert(suffix[0] == opp@[i as int]);
            assert(wf_resting(opp@[i as int]));
        }
        let mk_price = opp[i].price;
        let accepts = match taker.order_type {
            OrderType::Market => true,
            _ => match taker.side {
                Side::Buy => mk_price.le(taker.price),
                Side::Sell => mk_price.ge(taker.price),
            },
        };
        proof {
            if taker.order_type != OrderType::Market && taker.side != Side::Buy {
                assert(taker.side == Side::Sell);
            }
            assert(accepts == taker_accepts(*taker, suffix[0].price@));
        }
        if !accepts {
            break;
        }
        let av = opp[i].quantity.sub(opp[i].filled_quantity);
        proof {
            assert(suffix.skip(1) =~= opp@.skip(i + 1 as int));
            assert(forall|k: int|
                0 <= k < suffix.skip(1).len() ==> #[trigger] wf_resting(suffix.skip(1)[k]));
            lemma_fillable_nonneg(suffix.skip(1), *taker);
        }
        acc = acc.add(av);
        if acc.ge(q) {
            return true;
        }
        i = i + 1;
    }
    acc.ge(q)
}

/// The matching loop: walks `opp` from the front, filling until the
/// quantity is exhausted or the next price is not acceptable, exactly
/// as `spec_match` describes.
fn match_loop(opp: &mut Vec<Order>, symbol: &String, taker: &Order, now: i64) -> (r: (
    Vec<Execution>,
    Dec,
))
    requires
        forall|i: int| 0 <= i < old(opp)@.len() ==> #[trigger] wf_resting(old(opp)@[i]),
        taker.valid(),
        0 <= now,
    ensures
        ({
            let sm = spec_match(old(opp)@, taker.quantity@, *taker);
            &&& final(opp)@ == sm.1
            &&& r.1@ == sm.2
            &&& 0 <= sm.2 <= taker.quantity@
            &&& r.0@.len() == sm.0.len()
            &&& forall|i: int|
                0 <= i < sm.0.len() ==> exec_matches_fill(
                    #[trigger] r.0@[i],
                    sm.0[i],
                    *taker,
                    symbol@,
                    now,
                )
        }),
{
    let ghost opp0 = opp@;
    let ghost q0: int = taker.quantity@;
    let mut execs: Vec<Execution> = Vec::new();
    let mut remaining: Dec = taker.quantity;
    let ghost mut gfills: Seq<(Order, int)> = Seq::empty();
    proof {
        assert(spec_match(opp0, q0, *taker).0 =~= gfills + spec_match(opp@, remaining@, *taker).0);
    }
    loop
        invariant
            0 <= remaining@ <= q0,
            q0 == taker.quantity@,
            taker.valid(),
            0 <= now,
            forall|i: int| 0 <= i < opp@.len() ==> #[trigger] wf_resting(opp@[i]),
            spec_match(opp0, q0, *taker).0 == gfills + spec_match(opp@, remaining@, *taker).0,
            spec_match(opp0, q0, *taker).1 == spec_match(opp@, remaining@, *taker).1,
            spec_match(opp0, q0, *taker).2 == spec_match(opp@, remaining@, *taker).2,
            execs@.len() == gfills.len(),
            forall|i: int|
                0 <= i < gfills.len() ==> exec_matches_fill(
                    #[trigger] execs@[i],
                    gfills[i],
                    *taker,
                    symbol@,
                    now,
                ),
        ensures
            spec_match(opp@, remaining@, *taker).0 =~= Seq::<(Order, int)>::empty(),
            spec_match(opp@, remaining@, *taker).1 == opp@,
            spec_match(opp@, remaining@, *taker).2 == remaining@,
        decreases opp@.len(),
    {
        if remaining.m <= 0 {
            break;
        }
        if opp.len() == 0 {
            break;
        }
        let mk_price = opp[0].price;
        let accepts = match taker.order_type {
            OrderType::Market => true,
            _ => match taker.side {
                Side::Buy => mk_price.le(taker.price),
                Side::Sell => mk_price.ge(taker.price),
            },
        };
        proof {
            if taker.order_type != OrderType::Market && taker.side != Side::Buy {
                assert(taker.side == Side::Sell);
            }
            assert(accepts == taker_accepts(*taker, opp@[0].price@));
        }
        if !accepts {
            break;
        }
        let ghost mk0 = opp@[0];
        let ghost pre_opp = opp@;
        let ghost pre_rem: int = remaining@;
        proof {
            assert(wf_resting(opp@[0]));
        }
        let avail_q = opp[0].quantity.sub(opp[0].filled_quantity);
        if remaining.lt(avail_q) {
            let mut mk = opp.remove(0);
            let ex = Execution {
                trade: Trade {
                    id: crate::ids::fresh_id(),
                    symbol: symbol.clone(),
                    buyer_order_id: if taker.side == Side::Buy {
                        taker.id
                    } else {
                        mk.id
                    },
                    seller_order_id: if taker.side == Side::Buy {
                        mk.id
                    } else {
                        taker.id
                    },
                    price: mk.price,
                    quantity: remaining,
                    executed_at: now,
                },
                maker_user_id: mk.user_id,
                maker_leverage: mk.leverage,
            };
            execs.push(ex);
            proof {
                gfills = gfills.push((mk0, pre_rem));
            }
            mk.filled_quantity = mk.filled_quantity.add(remaining);
            opp.insert(0, mk);
            remaining = Dec::zero();
            proof {
                assert(opp@[0] == with_fill(mk0, pre_rem));
                assert(opp@ =~= seq![with_fill(mk0, pre_rem)] + pre_opp.skip(1));
                let step = spec_match(pre_opp, pre_rem, *taker);
                assert(step.0 =~= seq![(mk0, pre_rem)] + spec_match(opp@, 0, *taker).0);
                assert(gfills + spec_match(opp@, remaining@, *taker).0 =~= (gfills.drop_last())
                    + step.0);
            }
            break;
        } else {
            let mk = opp.remove(0);
            let ex = Execution {
                trade: Trade {
                    id: crate::ids::fresh_id(),
                    symbol: symbol.clone(),
                    buyer_order_id: if taker.side == Side::Buy {
                        taker.id
                    } else {
                        mk.id
                    },
                    seller_order_id: if taker.side == Side::Buy {
                        mk.id
                    } else {
                        taker.id
                    },
                    price: mk.price,
                    quantity: avail_q,
                    executed_at: now,
                },
                maker_user_id: mk.user_id,
                maker_leverage: mk.leverage,
            };
            execs.push(ex);
            proof {
                gfills = gfills.push((mk0, avail(mk0)));
            }
            remaining = remaining.sub(avail_q);
            proof {
                assert(opp@ =~= pre_opp.skip(1));
                let step = spec_match(pre_opp, pre_rem, *taker);
                assert(step.0 =~= seq![(mk0, avail(mk0))] + spec_match(
                    opp@,
                    remaining@,
                    *taker,
                ).0);
                assert(gfills + spec_match(opp@, remaining@, *taker).0 =~= (gfills.drop_last())
                    + step.0);
            }
        }
    }
    proof {
        assert(spec_match(opp0, q0, *taker).0 =~= gfills);
        lemma_match_total(opp0, q0, *taker);
    }
    (execs, remaining)
}

/// Posts a resting order at its price-time position.
fn insert_resting(side: &mut Vec<Order>, o: Order, is_bid: bool)
    ensures
        final(side)@ == spec_insert(old(side)@, o, is_bid),
{
    proof {
        lemma_insert_index_char(old(side)@, o, is_bid);
    }
    let mut idx: usize = 0;
    loop
        invariant
            0 <= idx <= side@.len(),
            side@ == old(side)@,
            forall|j: int|
                0 <= j < idx ==> ordered_before(#[trigger] side@[j].price@, o.price@, is_bid),
        ensures
            side@ == old(side)@,
            idx <= side@.len(),
            forall|j: int|
                0 <= j < idx ==> ordered_before(#[trigger] side@[j].price@, o.price@, is_bid),
            idx < side@.len() ==> !ordered_before(side@[idx as int].price@, o.price@, is_bid),
        decreases side@.len() - idx,
    {
        if idx == side.len() {
            break;
        }
        let keeps = if is_bid {
            side[idx].price.ge(o.price)
        } else {
            side[idx].price.le(o.price)
        };
        if !keeps {
            break;
        }
        idx = idx + 1;
    }
    proof {
        let k = insert_index(side@, o, is_bid);
        if k < idx as int {
            assert(ordered_before(side@[k].price@, o.price@, is_bid));
            assert(false);
        }
        if k > idx as int {
            assert(ordered_before(side@[idx as int].price@, o.price@, is_bid));
            assert(false);
        }
    }
    side.insert(idx, o);
}

} // verus!
