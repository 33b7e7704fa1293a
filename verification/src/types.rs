//! Order records and the scalar domains they are built from.

use vstd::prelude::*;

verus! {

/// Identifier handed out by the engine when it accepts an order.
pub type OrderId = u64;

/// Fixed-point price: currency times one hundred, so `12345` stands for 123.45.
pub type Price = u16;

/// Number of shares.
pub type Size = u64;

/// Side of the book: `false` is a bid, `true` is an ask.
pub type Side = bool;

/// Whether a side is the selling side.
pub fn is_ask(s: Side) -> (b: bool)
    ensures
        b == s,
{
    s
}

/// An order as submitted to, and kept by, the engine.
///
/// While an order rests in the book `size` is its unfilled quantity.
#[derive(Debug)]
pub struct Order {
    pub symbol: String,
    pub trader: String,
    pub side: Side,
    pub price: Price,
    pub size: Size,
}

/// A report of one side of a trade; `size` is the quantity traded.
pub type Execution = Order;

/// Mathematical value of an [`Order`].
pub struct OrderView {
    pub symbol: Seq<char>,
    pub trader: Seq<char>,
    pub side: Side,
    pub price: Price,
    pub size: Size,
}

impl View for Order {
    type V = OrderView;

    open spec fn view(&self) -> OrderView {
        OrderView {
            symbol: self.symbol@,
            trader: self.trader@,
            side: self.side,
            price: self.price,
            size: self.size,
        }
    }
}

/// The values of a sequence of orders, in the same order.
pub open spec fn order_views(s: Seq<Order>) -> Seq<OrderView> {
    Seq::new(s.len(), |i: int| s[i]@)
}

impl Clone for Order {
    fn clone(&self) -> (copy: Self)
        ensures
            copy@ == self@,
    {
        Order {
            symbol: self.symbol.clone(),
            trader: self.trader.clone(),
            side: self.side,
            price: self.price,
            size: self.size,
        }
    }
}

impl PartialEq for Order {
    fn eq(&self, other: &Self) -> (equal: bool) {
        self.symbol == other.symbol && self.trader == other.trader && self.side == other.side
            && self.price == other.price && self.size == other.size
    }
}

impl vstd::std_specs::cmp::PartialEqSpecImpl for Order {
    open spec fn obeys_eq_spec() -> bool {
        true
    }

    open spec fn eq_spec(&self, other: &Self) -> bool {
        self@ == other@
    }
}

impl Eq for Order {

}

} // verus!
