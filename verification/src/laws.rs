//! Laws of matching and cancellation, proved of the model in [`crate::book`].

use vstd::prelude::*;
use crate::book::{
    after_trade, best, cancel, crosses, has_best, is_best, maker_fill, match_book, next_id,
    outranks, reduced, submit, taker_fill, traded, volume, with_size, BookView,
};
use crate::index::only_filled;
use crate::types::{OrderId, OrderView, Price, Side};

verus! {

/// Replacing one order changes the total unfilled quantity by the
/// difference of the two quantities.
pub proof fn lemma_volume_update(orders: Seq<OrderView>, i: int, o: OrderView)
    requires
        0 <= i < orders.len(),
    ensures
        volume(orders.update(i, o)) == volume(orders) - orders[i].size + o.size,
    decreases orders.len(),
{
    let changed = orders.update(i, o);
    if i == orders.len() - 1 {
        assert(changed.drop_last() =~= orders.drop_last());
    } else {
        assert(changed.drop_last() =~= orders.drop_last().update(i, o));
        lemma_volume_update(orders.drop_last(), i, o);
    }
}

/// The total of two sequences joined is the sum of their totals.
pub proof fn lemma_volume_concat(a: Seq<OrderView>, b: Seq<OrderView>)
    ensures
        volume(a + b) == volume(a) + volume(b),
    decreases b.len(),
{
    if b.len() == 0 {
        assert(a + b =~= a);
    } else {
        assert((a + b).drop_last() =~= a + b.drop_last());
        lemma_volume_concat(a, b.drop_last());
    }
}

/// Conservation. Matching only ever lowers unfilled quantities: no order
/// appears, disappears, or changes its trader, side or price. The quantity
/// that leaves the incoming order equals the quantity that leaves the
/// resting orders, so it exceeds neither the submitted quantity nor what was
/// resting; and every unit traded is reported twice, once to each side.
pub proof fn lemma_match_conserves(orders: Seq<OrderView>, taker: OrderView)
    ensures
        only_filled(orders, match_book(orders, taker).orders),
        forall|i: int|
            0 <= i < orders.len() ==> #[trigger] match_book(orders, taker).orders[i] == with_size(
                orders[i],
                match_book(orders, taker).orders[i].size,
            ),
        match_book(orders, taker).remaining <= taker.size,
        volume(orders) - volume(match_book(orders, taker).orders) == taker.size - match_book(
            orders,
            taker,
        ).remaining,
        volume(match_book(orders, taker).fills) == 2 * (taker.size - match_book(
            orders,
            taker,
        ).remaining),
    decreases taker.size,
{
    let m = match_book(orders, taker);
    if taker.size > 0 && has_best(orders, taker.side, taker.price) {
        let i = best(orders, taker.side, taker.price);
        let maker = orders[i];
        let qty = traded(taker, maker);
        let next = after_trade(orders, taker, i);
        let rest = match_book(next, reduced(taker, qty));
        lemma_match_conserves(next, reduced(taker, qty));
        lemma_volume_update(orders, i, reduced(maker, qty));
        let pair = seq![taker_fill(taker, maker), maker_fill(taker, maker)];
        lemma_volume_concat(pair, rest.fills);
        assert(volume(pair) == 2 * qty) by {
            assert(pair.drop_last() =~= seq![taker_fill(taker, maker)]);
            assert(pair.drop_last().drop_last() =~= Seq::<OrderView>::empty());
            assert(volume(pair.drop_last()) == volume(pair.drop_last().drop_last())
                + pair.drop_last().last().size);
        }
        assert forall|k: int| 0 <= k < orders.len() implies {
            &&& (#[trigger] m.orders[k]).price == orders[k].price
            &&& m.orders[k].side == orders[k].side
            &&& m.orders[k].size <= orders[k].size
            &&& m.orders[k] == with_size(orders[k], m.orders[k].size)
        } by {
            assert(rest.orders[k] == with_size(next[k], rest.orders[k].size));
        }
    } else {
        assert(volume(m.fills) == 0);
    }
}

/// Each trade is for the smaller of the two unfilled quantities, and lowers
/// both by exactly that quantity.
pub proof fn lemma_trade_quantity(orders: Seq<OrderView>, taker: OrderView, i: int)
    requires
        0 <= i < orders.len(),
    ensures
        traded(taker, orders[i]) <= taker.size,
        traded(taker, orders[i]) <= orders[i].size,
        traded(taker, orders[i]) == taker.size || traded(taker, orders[i]) == orders[i].size,
        reduced(taker, traded(taker, orders[i])).size == taker.size - traded(taker, orders[i]),
        after_trade(orders, taker, i)[i].size == orders[i].size - traded(taker, orders[i]),
        taker_fill(taker, orders[i]).size == traded(taker, orders[i]),
        maker_fill(taker, orders[i]).size == traded(taker, orders[i]),
{
}

/// Among the first `n` orders, if any crosses, one of them outranks every
/// other that crosses.
proof fn lemma_best_in_prefix(orders: Seq<OrderView>, side: Side, limit: Price, n: int) -> (b: int)
    requires
        0 <= n <= orders.len(),
        exists|i: int| 0 <= i < n && crosses(side, limit, #[trigger] orders[i]),
    ensures
        0 <= b < n,
        crosses(side, limit, orders[b]),
        forall|j: int|
            0 <= j < n && j != b && crosses(side, limit, #[trigger] orders[j]) ==> outranks(
                orders,
                side,
                b,
                j,
            ),
    decreases n,
{
    let last = n - 1;
    if exists|i: int| 0 <= i < last && crosses(side, limit, #[trigger] orders[i]) {
        let b0 = lemma_best_in_prefix(orders, side, limit, last);
        if crosses(side, limit, orders[last]) && outranks(orders, side, last, b0) {
            last
        } else {
            b0
        }
    } else {
        last
    }
}

/// Matching has a next order to trade with exactly when some resting order
/// crosses.
pub proof fn lemma_best_exists(orders: Seq<OrderView>, side: Side, limit: Price)
    ensures
        has_best(orders, side, limit) <==> exists|i: int|
            0 <= i < orders.len() && crosses(side, limit, #[trigger] orders[i]),
{
    if exists|i: int| 0 <= i < orders.len() && crosses(side, limit, #[trigger] orders[i]) {
        let b = lemma_best_in_prefix(orders, side, limit, orders.len() as int);
        assert(is_best(orders, side, limit, b));
    }
    if has_best(orders, side, limit) {
        let b = best(orders, side, limit);
        assert(crosses(side, limit, orders[b]));
    }
}

/// Matching goes on as long as it can: afterwards the incoming order is
/// filled or no resting order crosses it.
pub proof fn lemma_match_exhausts(orders: Seq<OrderView>, taker: OrderView)
    ensures
        match_book(orders, taker).remaining == 0 || forall|i: int|
            0 <= i < match_book(orders, taker).orders.len() ==> !crosses(
                taker.side,
                taker.price,
                #[trigger] match_book(orders, taker).orders[i],
            ),
    decreases taker.size,
{
    if taker.size > 0 && has_best(orders, taker.side, taker.price) {
        let i = best(orders, taker.side, taker.price);
        let qty = traded(taker, orders[i]);
        lemma_match_exhausts(after_trade(orders, taker, i), reduced(taker, qty));
    } else if taker.size > 0 {
        lemma_best_exists(orders, taker.side, taker.price);
    }
}

/// Priority. A resting order trades only once every resting order that
/// crosses and outranks it has been filled completely.
pub proof fn lemma_priority(orders: Seq<OrderView>, taker: OrderView, first: int, later: int)
    requires
        0 <= first < orders.len(),
        0 <= later < orders.len(),
        crosses(taker.side, taker.price, orders[first]),
        outranks(orders, taker.side, first, later),
        match_book(orders, taker).orders[later].size < orders[later].size,
    ensures
        match_book(orders, taker).orders[first].size == 0,
    decreases taker.size,
{
    if taker.size > 0 && has_best(orders, taker.side, taker.price) {
        let b = best(orders, taker.side, taker.price);
        let qty = traded(taker, orders[b]);
        let next = after_trade(orders, taker, b);
        let smaller = reduced(taker, qty);
        lemma_match_conserves(next, smaller);
        if later == b {
            assert(first != b);
            assert(outranks(orders, taker.side, b, first));
        } else {
            assert(next[later] == orders[later]);
            if first == b {
                assert(smaller.size > 0);
            } else {
                assert(next[first] == orders[first]);
                lemma_priority(next, smaller, first, later);
            }
        }
    }
}

/// Price priority. For an incoming bid, a resting ask at a lower price is
/// filled completely before an ask at a higher price trades at all; for an
/// incoming ask, a resting bid at a higher price is filled completely
/// before a bid at a lower price trades at all. When the orders arrived does
/// not matter.
pub proof fn lemma_price_priority(
    orders: Seq<OrderView>,
    taker: OrderView,
    better: int,
    worse: int,
)
    requires
        0 <= better < orders.len(),
        0 <= worse < orders.len(),
        crosses(taker.side, taker.price, orders[better]),
        if taker.side {
            orders[better].price > orders[worse].price
        } else {
            orders[better].price < orders[worse].price
        },
        match_book(orders, taker).orders[worse].size < orders[worse].size,
    ensures
        match_book(orders, taker).orders[better].size == 0,
{
    lemma_priority(orders, taker, better, worse);
}

/// Time priority. Of two resting orders at the same price, the one that
/// arrived earlier is filled completely before the other trades at all.
pub proof fn lemma_time_priority(
    orders: Seq<OrderView>,
    taker: OrderView,
    earlier: int,
    later: int,
)
    requires
        0 <= earlier < later < orders.len(),
        crosses(taker.side, taker.price, orders[earlier]),
        orders[earlier].price == orders[later].price,
        match_book(orders, taker).orders[later].size < orders[later].size,
    ensures
        match_book(orders, taker).orders[earlier].size == 0,
{
    lemma_priority(orders, taker, earlier, later);
}

/// Every execution is priced at least as well for the incoming order as its
/// limit, and is reported under the incoming order's side first and the
/// opposite side second.
pub proof fn lemma_fills_within_limit(orders: Seq<OrderView>, taker: OrderView, k: int)
    requires
        0 <= k < match_book(orders, taker).fills.len(),
    ensures
        match_book(orders, taker).fills.len() % 2 == 0,
        match_book(orders, taker).fills[k].size > 0,
        match_book(orders, taker).fills[k].side == (if k % 2 == 0 {
            taker.side
        } else {
            !taker.side
        }),
        if taker.side {
            match_book(orders, taker).fills[k].price >= taker.price
        } else {
            match_book(orders, taker).fills[k].price <= taker.price
        },
    decreases taker.size,
{
    if taker.size > 0 && has_best(orders, taker.side, taker.price) {
        let b = best(orders, taker.side, taker.price);
        let qty = traded(taker, orders[b]);
        let rest = match_book(after_trade(orders, taker, b), reduced(taker, qty));
        if k >= 2 {
            lemma_fills_within_limit(after_trade(orders, taker, b), reduced(taker, qty), k - 2);
            assert(match_book(orders, taker).fills[k] == rest.fills[k - 2]);
        }
        if rest.fills.len() > 0 {
            lemma_fills_within_limit(after_trade(orders, taker, b), reduced(taker, qty), 0);
        }
    }
}

/// Idempotent cancel. Cancelling an identifier a second time changes
/// nothing, and neither does cancelling one that was never handed out or
/// whose order has nothing left.
pub proof fn lemma_cancel_idempotent(book: BookView, id: OrderId)
    ensures
        cancel(cancel(book, id), id) == cancel(book, id),
        id == 0 || id > book.orders.len() ==> cancel(book, id) == book,
        1 <= id <= book.orders.len() && book.orders[id - 1].size == 0 ==> cancel(book, id) == book,
        cancel(book, id).log == book.log,
        next_id(cancel(book, id)) == next_id(book),
{
    let once = cancel(book, id);
    assert(cancel(once, id).orders =~= once.orders);
    if 1 <= id <= book.orders.len() && book.orders[id - 1].size == 0 {
        assert(once.orders =~= book.orders);
    }
}

/// A cancelled order never trades: whatever is submitted afterwards, it
/// keeps a quantity of zero.
pub proof fn lemma_cancelled_stays_out(book: BookView, id: OrderId, order: OrderView)
    requires
        1 <= id <= book.orders.len(),
    ensures
        submit(cancel(book, id), order).orders[id - 1].size == 0,
{
    lemma_match_conserves(cancel(book, id).orders, order);
}

/// Identifiers count up. An empty book hands out 1 first; every submission,
/// whatever its side, price or fate, gets the successor of the one before;
/// cancelling hands out nothing.
pub proof fn lemma_ids_increase(book: BookView, order: OrderView)
    ensures
        next_id(BookView { orders: Seq::empty(), log: Seq::empty() }) == 1,
        next_id(submit(book, order)) == next_id(book) + 1,
{
    lemma_match_conserves(book.orders, order);
}

} // verus!
