//! The order book as a mathematical object.
//!
//! A book is the sequence of every order accepted so far, oldest first, each
//! with its unfilled quantity, together with the executions reported so far.
//! The order at position `i` carries the identifier `i + 1`. An order whose
//! unfilled quantity is zero has been filled or cancelled and takes no further
//! part in matching.
//!
//! Matching is stated here without any reference to how the engine finds
//! orders: an incoming order repeatedly trades with the resting order of
//! highest priority that it crosses, until it is filled or nothing crosses.

use vstd::prelude::*;
use crate::types::{OrderId, OrderView, Price, Side, Size};

verus! {

/// Number of distinct prices, and so of price levels.
pub const PRICE_LEVELS: usize = 65536;

/// Abstract state of an engine.
pub struct BookView {
    /// Every accepted order with its unfilled quantity; position `i` holds id `i + 1`.
    pub orders: Seq<OrderView>,
    /// The executions reported so far, in the order they were emitted.
    pub log: Seq<OrderView>,
}

/// What matching one incoming order against the book produces.
pub struct MatchOutcome {
    /// The resting orders after the trades.
    pub orders: Seq<OrderView>,
    /// The executions emitted, two per trade.
    pub fills: Seq<OrderView>,
    /// The quantity of the incoming order left unfilled.
    pub remaining: Size,
}

/// The same order with another unfilled quantity.
pub open spec fn with_size(o: OrderView, size: Size) -> OrderView {
    OrderView { symbol: o.symbol, trader: o.trader, side: o.side, price: o.price, size }
}

/// An incoming order on `side` with limit price `limit` can trade with
/// `resting`: the resting order is live, on the other side, and priced at
/// least as well as the limit.
pub open spec fn crosses(side: Side, limit: Price, resting: OrderView) -> bool {
    &&& resting.size > 0
    &&& resting.side != side
    &&& if side {
        resting.price >= limit
    } else {
        resting.price <= limit
    }
}

/// For an incoming order on `side`, the resting order at position `i` is
/// served before the one at position `j`: it has the better price (higher
/// for a resting bid, lower for a resting ask) or the same price and an
/// earlier arrival.
pub open spec fn outranks(orders: Seq<OrderView>, side: Side, i: int, j: int) -> bool {
    ||| if side {
        orders[i].price > orders[j].price
    } else {
        orders[i].price < orders[j].price
    }
    ||| orders[i].price == orders[j].price && i < j
}

/// Position `i` holds the resting order that an incoming order on `side`
/// with limit `limit` must trade with next.
pub open spec fn is_best(orders: Seq<OrderView>, side: Side, limit: Price, i: int) -> bool {
    &&& 0 <= i < orders.len()
    &&& crosses(side, limit, orders[i])
    &&& forall|j: int|
        0 <= j < orders.len() && j != i && crosses(side, limit, #[trigger] orders[j]) ==> outranks(
            orders,
            side,
            i,
            j,
        )
}

/// Some resting order can be traded with.
pub open spec fn has_best(orders: Seq<OrderView>, side: Side, limit: Price) -> bool {
    exists|i: int| is_best(orders, side, limit, i)
}

/// The position of the resting order to trade with next.
pub open spec fn best(orders: Seq<OrderView>, side: Side, limit: Price) -> int {
    choose|i: int| is_best(orders, side, limit, i)
}

/// Quantity exchanged when `taker` meets `maker`: the smaller unfilled quantity.
pub open spec fn traded(taker: OrderView, maker: OrderView) -> Size {
    if taker.size <= maker.size {
        taker.size
    } else {
        maker.size
    }
}

/// The execution reported to the incoming side of a trade. The price is the
/// one at which the resting order stood.
pub open spec fn taker_fill(taker: OrderView, maker: OrderView) -> OrderView {
    OrderView {
        symbol: taker.symbol,
        trader: taker.trader,
        side: taker.side,
        price: maker.price,
        size: traded(taker, maker),
    }
}

/// The execution reported to the resting side of a trade.
pub open spec fn maker_fill(taker: OrderView, maker: OrderView) -> OrderView {
    OrderView {
        symbol: taker.symbol,
        trader: maker.trader,
        side: !taker.side,
        price: maker.price,
        size: traded(taker, maker),
    }
}

/// An order after `qty` of it has traded.
pub open spec fn reduced(o: OrderView, qty: Size) -> OrderView {
    with_size(o, (o.size - qty) as Size)
}

/// The book after the incoming order has traded with the order at position `i`.
pub open spec fn after_trade(orders: Seq<OrderView>, taker: OrderView, i: int) -> Seq<OrderView> {
    orders.update(i, reduced(orders[i], traded(taker, orders[i])))
}

/// Matches `taker` against the resting orders: while it has quantity left
/// and some resting order crosses, it trades with the best one.
pub open spec fn match_book(orders: Seq<OrderView>, taker: OrderView) -> MatchOutcome
    decreases taker.size,
{
    if taker.size > 0 && has_best(orders, taker.side, taker.price) {
        let i = best(orders, taker.side, taker.price);
        let maker = orders[i];
        let rest = match_book(after_trade(orders, taker, i), reduced(taker, traded(taker, maker)));
        MatchOutcome {
            orders: rest.orders,
            fills: seq![taker_fill(taker, maker), maker_fill(taker, maker)] + rest.fills,
            remaining: rest.remaining,
        }
    } else {
        MatchOutcome { orders, fills: Seq::empty(), remaining: taker.size }
    }
}

/// Total unfilled quantity of a sequence of orders; for executions, the
/// total quantity reported.
pub open spec fn volume(orders: Seq<OrderView>) -> int
    decreases orders.len(),
{
    if orders.len() == 0 {
        0
    } else {
        volume(orders.drop_last()) + orders.last().size
    }
}

/// The identifier that the next accepted order will get.
pub open spec fn next_id(book: BookView) -> nat {
    book.orders.len() + 1
}

/// The book after `order` has been submitted: it is matched, and what is
/// left of it joins the book as its newest order.
pub open spec fn submit(book: BookView, order: OrderView) -> BookView {
    let m = match_book(book.orders, order);
    BookView { orders: m.orders.push(with_size(order, m.remaining)), log: book.log + m.fills }
}

/// The book after a request to cancel `id`: an identifier that was handed
/// out loses its unfilled quantity, any other changes nothing.
pub open spec fn cancel(book: BookView, id: OrderId) -> BookView {
    if 1 <= id <= book.orders.len() {
        BookView {
            orders: book.orders.update(id - 1, with_size(book.orders[id - 1], 0)),
            log: book.log,
        }
    } else {
        book
    }
}

} // verus!
