//! The matching engine: an order store, one queue of order identifiers per
//! price, and the two boundary prices between which no order rests.

use vstd::prelude::*;
use std::collections::VecDeque;
use crate::book::{
    after_trade, best, has_best, is_best, maker_fill, match_book, next_id, reduced, submit,
    taker_fill, traded, volume, with_size, BookView, PRICE_LEVELS,
};
use crate::index::{
    best_ask_after, best_bid_after, front_is_live, ids_within, index_consistent, index_volume,
    lemma_accept_keeps_index, lemma_best_unique, lemma_beyond_boundary_no_match,
    lemma_book_uncrossed, lemma_drop_dead_front, lemma_fills_keep_index, lemma_front_ask_is_best,
    lemma_front_bid_is_best, lemma_index_matches_store, lemma_walking_fills, lemma_walking_purge,
    levels_after, levels_after_walk, marketable, only_filled, sides_bounded, skip_dead, walking,
};
use crate::laws::lemma_match_conserves;
use crate::types::{is_ask, order_views, Execution, Order, OrderId, OrderView, Price};

verus! {

/// An accepted order together with the identifier it was given.
pub struct OrderIn {
    order: Order,
    id: OrderId,
}

/// The queue of identifiers resting at one price, oldest first.
struct PricePoint {
    items: VecDeque<OrderId>,
}

/// A limit order book for one instrument.
pub struct Engine {
    /// No ask is queued below this price; `PRICE_LEVELS` when the walk has passed every level.
    ask_min: i32,
    /// No bid is queued above this price; `-1` when the walk has passed every level.
    bid_max: i32,
    /// Every accepted order; the order with identifier `id` is at position `id - 1`.
    book_entries: Vec<OrderIn>,
    /// One queue per price.
    price_points: Vec<PricePoint>,
    /// The executions reported so far, two per trade: first the incoming side, then the resting side.
    pub execution_log: Vec<Execution>,
}

impl View for Engine {
    type V = BookView;

    closed spec fn view(&self) -> BookView {
        BookView { orders: self.orders(), log: order_views(self.execution_log@) }
    }
}

impl Engine {
    /// Every accepted order with its unfilled quantity, oldest first.
    pub closed spec fn orders(&self) -> Seq<OrderView> {
        Seq::new(self.book_entries.len() as nat, |i: int| self.book_entries[i].order@)
    }

    /// The queue of identifiers at each price.
    pub closed spec fn levels(&self) -> Seq<Seq<OrderId>> {
        Seq::new(self.price_points.len() as nat, |q: int| self.price_points[q].items@)
    }

    /// The cached highest price at which a bid may rest, `-1` if there is none.
    pub closed spec fn best_bid(&self) -> int {
        self.bid_max as int
    }

    /// The cached lowest price at which an ask may rest, `PRICE_LEVELS` if there is none.
    pub closed spec fn best_ask(&self) -> int {
        self.ask_min as int
    }

    /// The engine's invariant.
    pub closed spec fn wf(&self) -> bool {
        &&& self.price_points.len() == PRICE_LEVELS
        &&& forall|i: int|
            0 <= i < self.book_entries.len() ==> (#[trigger] self.book_entries[i]).id == i + 1
        &&& index_consistent(self.levels(), self.orders())
        &&& sides_bounded(self.levels(), self.orders(), self.best_bid(), self.best_ask())
    }

    /// What the engine's invariant says of its queues and its store.
    pub proof fn lemma_wf(&self)
        requires
            self.wf(),
        ensures
            index_consistent(self.levels(), self@.orders),
            sides_bounded(self.levels(), self@.orders, self.best_bid(), self.best_ask()),
    {
    }

    /// Index and store agree: walking the queues finds exactly the
    /// unfilled quantity that the store holds.
    pub proof fn lemma_round_trip(&self)
        requires
            self.wf(),
        ensures
            index_volume(self.levels(), self@.orders) == volume(self@.orders),
    {
        lemma_index_matches_store(self.levels(), self.orders());
    }

    /// The book is never crossed: every live bid is priced strictly below
    /// every live ask.
    pub proof fn lemma_uncrossed(&self, bid: int, ask: int)
        requires
            self.wf(),
            0 <= bid < self@.orders.len(),
            0 <= ask < self@.orders.len(),
            !self@.orders[bid].side && self@.orders[bid].size > 0,
            self@.orders[ask].side && self@.orders[ask].size > 0,
        ensures
            self@.orders[bid].price < self@.orders[ask].price,
    {
        lemma_book_uncrossed(
            self.levels(),
            self.orders(),
            self.best_bid(),
            self.best_ask(),
            bid,
            ask,
        );
    }

    /// The identifiers queued at `level` name stored orders.
    proof fn lemma_ids_within(&self, level: int)
        requires
            self.wf(),
            0 <= level < PRICE_LEVELS,
        ensures
            ids_within(self.levels()[level], self.orders().len()),
    {
    }

    /// Every queued identifier names a stored order.
    proof fn lemma_all_ids_within(&self)
        requires
            self.wf(),
        ensures
            forall|q: int|
                0 <= q < self.levels().len() ==> ids_within(
                    #[trigger] self.levels()[q],
                    self.orders().len(),
                ),
    {
    }

    fn _new() -> (engine: Engine)
        ensures
            engine.wf(),
            engine@ == (BookView { orders: Seq::empty(), log: Seq::empty() }),
            engine.best_bid() == -1,
            engine.best_ask() == PRICE_LEVELS,
            engine.levels() == Seq::new(PRICE_LEVELS as nat, |q: int| Seq::<OrderId>::empty()),
    {
        let max_orders: usize = 1010000;
        let mut pps: Vec<PricePoint> = Vec::with_capacity(PRICE_LEVELS);
        let mut idx: usize = 0;
        while idx < PRICE_LEVELS
            invariant
                idx <= PRICE_LEVELS,
                pps.len() == idx,
                forall|q: int| 0 <= q < idx ==> (#[trigger] pps[q]).items@.len() == 0,
            decreases PRICE_LEVELS - idx,
        {
            pps.push(PricePoint { items: VecDeque::new() });
            idx += 1;
        }
        let engine = Engine {
            ask_min: 65536,
            bid_max: -1,
            book_entries: Vec::with_capacity(max_orders),
            price_points: pps,
            execution_log: Vec::new(),
        };
        proof {
            assert(engine@.orders =~= Seq::<OrderView>::empty());
            assert(engine@.log =~= Seq::<OrderView>::empty());
            assert forall|q: int| 0 <= q < PRICE_LEVELS implies #[trigger] engine.levels()[q]
                == Seq::<OrderId>::empty() by {
                assert(engine.levels()[q] =~= Seq::<OrderId>::empty());
            }
            assert(engine.levels() =~= Seq::new(
                PRICE_LEVELS as nat,
                |q: int| Seq::<OrderId>::empty(),
            ));
        }
        engine
    }

    /// An engine with an empty book and an empty execution log.
    pub fn new() -> (engine: Engine)
        ensures
            engine.wf(),
            engine@ == (BookView { orders: Seq::empty(), log: Seq::empty() }),
            engine.best_bid() == -1,
            engine.best_ask() == PRICE_LEVELS,
            engine.levels() == Seq::new(PRICE_LEVELS as nat, |q: int| Seq::<OrderId>::empty()),
    {
        Engine::_new()
    }

    /// Same as [`Engine::new`]: executions are always recorded.
    pub fn new_debug() -> (engine: Engine)
        ensures
            engine.wf(),
            engine@ == (BookView { orders: Seq::empty(), log: Seq::empty() }),
            engine.best_bid() == -1,
            engine.best_ask() == PRICE_LEVELS,
            engine.levels() == Seq::new(PRICE_LEVELS as nat, |q: int| Seq::<OrderId>::empty()),
    {
        Engine::_new()
    }

    /// An incoming bid at `bid` can trade with a resting ask at `ask`.
    fn hit_ask(bid: Price, ask: Price) -> (hit: bool)
        ensures
            hit == (bid >= ask),
    {
        bid >= ask
    }

    /// An incoming ask at `ask` can trade with a resting bid at `bid`.
    fn hit_bid(ask: Price, bid: Price) -> (hit: bool)
        ensures
            hit == (ask <= bid),
    {
        ask <= bid
    }

    /// A new ask at `ask_new` becomes the best ask when the boundary stands at `ask_old`.
    fn priority_ask(ask_new: Price, ask_old: i32) -> (better: bool)
        ensures
            better == (ask_new < ask_old),
    {
        (ask_new as i32) < ask_old
    }

    /// A new bid at `bid_new` becomes the best bid when the boundary stands at `bid_old`.
    fn priority_bid(bid_new: Price, bid_old: i32) -> (better: bool)
        ensures
            better == (bid_new > bid_old),
    {
        (bid_new as i32) > bid_old
    }

    /// Drops from the front of the queue at `price` every identifier whose
    /// order is filled or cancelled, until the front is a live order or the
    /// queue is empty. Nothing else removes an identifier from a queue.
    fn pop_front_if_tombstoned(&mut self, price: usize)
        requires
            old(self).wf(),
            price < PRICE_LEVELS,
        ensures
            final(self).wf(),
            final(self)@ == old(self)@,
            final(self).best_bid() == old(self).best_bid(),
            final(self).best_ask() == old(self).best_ask(),
            final(self).levels() == old(self).levels().update(
                price as int,
                skip_dead(old(self).levels()[price as int], old(self).orders()),
            ),
            final(self).levels()[price as int].len() > 0 ==> front_is_live(
                final(self).levels()[price as int],
                final(self).orders(),
            ),
    {
        let ghost levels0 = self.levels();
        let ghost orders0 = self.orders();
        loop
            invariant
                self.wf(),
                price < PRICE_LEVELS,
                self.orders() == orders0,
                self@ == old(self)@,
                self.bid_max == old(self).bid_max,
                self.ask_min == old(self).ask_min,
                levels0.len() == PRICE_LEVELS,
                self.levels() == levels0.update(price as int, self.levels()[price as int]),
                skip_dead(self.levels()[price as int], orders0) == skip_dead(
                    levels0[price as int],
                    orders0,
                ),
            ensures
                self.levels()[price as int].len() == 0 || front_is_live(
                    self.levels()[price as int],
                    orders0,
                ),
            decreases self.levels()[price as int].len(),
        {
            if self.price_points[price].items.len() == 0 {
                break ;
            }
            let id = self.price_points[price].items[0];
            let idx = (id - 1) as usize;
            if self.book_entries[idx].order.size > 0 {
                break ;
            }
            let ghost before = self.levels();
            proof {
                lemma_drop_dead_front(
                    before,
                    orders0,
                    self.best_bid(),
                    self.best_ask(),
                    price as int,
                );
            }
            self.price_points[price].items.pop_front();
            proof {
                assert(self.levels() =~= before.update(
                    price as int,
                    before[price as int].drop_first(),
                ));
                assert(self.orders() =~= orders0);
                assert(self.levels() =~= levels0.update(price as int, self.levels()[price as int]));
            }
        }
    }

    /// Stores `order` under the next identifier and, when it has quantity
    /// left, appends that identifier to the queue at its price.
    fn queue(&mut self, order: Order) -> (id: OrderId)
        requires
            old(self).wf(),
            order.size > 0 ==> if order.side {
                old(self).best_ask() <= order.price
            } else {
                order.price <= old(self).best_bid()
            },
        ensures
            final(self).wf(),
            final(self)@.orders == old(self)@.orders.push(order@),
            final(self)@.log == old(self)@.log,
            id == old(self)@.orders.len() + 1,
            final(self).best_bid() == old(self).best_bid(),
            final(self).best_ask() == old(self).best_ask(),
            final(self).levels() == if order.size > 0 {
                old(self).levels().update(
                    order.price as int,
                    old(self).levels()[order.price as int].push(id),
                )
            } else {
                old(self).levels()
            },
    {
        let price = order.price as usize;
        let live = order.size > 0;
        let ghost accepted = order@;
        self.book_entries.push(OrderIn { order, id: 0 });
        let id = self.book_entries.len() as u64;
        let last = self.book_entries.len() - 1;
        self.book_entries[last].id = id;
        if live {
            self.price_points[price].items.push_back(id);
        }
        proof {
            lemma_accept_keeps_index(
                old(self).levels(),
                old(self).orders(),
                old(self).best_bid(),
                old(self).best_ask(),
                accepted,
            );
            assert(self.orders() =~= old(self).orders().push(accepted));
            if live {
                assert(self.levels() =~= old(self).levels().update(
                    price as int,
                    old(self).levels()[price as int].push(id),
                ));
            } else {
                assert(self.levels() =~= old(self).levels());
            }
        }
        id
    }

    /// Trades the incoming `order` with the live order at the front of the
    /// queue at `level`, which is the order that it must trade with next.
    fn take_front(&mut self, level: usize, order: &mut Order)
        requires
            old(self).wf(),
            level < PRICE_LEVELS,
            old(order).size > 0,
            front_is_live(old(self).levels()[level as int], old(self).orders()),
            is_best(
                old(self).orders(),
                old(order).side,
                old(order).price,
                old(self).levels()[level as int][0] - 1,
            ),
        ensures
            final(self).wf(),
            final(self).levels() == old(self).levels(),
            final(self).best_bid() == old(self).best_bid(),
            final(self).best_ask() == old(self).best_ask(),
            only_filled(old(self).orders(), final(self).orders()),
            final(order)@ == with_size(old(order)@, final(order).size),
            final(order).size < old(order).size,
            final(self)@.log.len() > 0,
            final(self)@.log.last().price == level,
            match_book(final(self).orders(), final(order)@).orders == match_book(
                old(self).orders(),
                old(order)@,
            ).orders,
            match_book(final(self).orders(), final(order)@).remaining == match_book(
                old(self).orders(),
                old(order)@,
            ).remaining,
            final(self)@.log + match_book(final(self).orders(), final(order)@).fills
                == old(self)@.log + match_book(old(self).orders(), old(order)@).fills,
    {
        let id = self.price_points[level].items[0];
        let idx = (id - 1) as usize;
        let ghost before = self.orders();
        let ghost taker = order@;
        let ghost log_before = self@.log;
        proof {
            assert(self.levels()[level as int][0] == id);
            assert(has_best(before, taker.side, taker.price));
            lemma_best_unique(
                before,
                taker.side,
                taker.price,
                best(before, taker.side, taker.price),
                idx as int,
            );
        }
        Engine::trade(order, &mut self.book_entries[idx].order, &mut self.execution_log);
        proof {
            assert(self.orders() =~= after_trade(before, taker, idx as int));
            assert(self.levels() =~= old(self).levels());
            lemma_fills_keep_index(
                self.levels(),
                before,
                self.orders(),
                self.best_bid(),
                self.best_ask(),
            );
            let step = match_book(before, taker);
            let rest = match_book(self.orders(), order@);
            assert(step.fills == seq![
                taker_fill(taker, before[idx as int]),
                maker_fill(taker, before[idx as int]),
            ] + rest.fills);
            assert(self@.log + rest.fills =~= log_before + step.fills);
            assert(self@.log.last() == maker_fill(taker, before[idx as int]));
        }
    }

    /// Matches an incoming ask against the resting bids, best price first
    /// and oldest first within a price, walking down from the bid boundary.
    fn cross_ask(&mut self, order: &mut Order)
        requires
            old(self).wf(),
            old(order).side,
        ensures
            final(self).wf(),
            final(self)@.orders == match_book(old(self)@.orders, old(order)@).orders,
            final(self)@.log == old(self)@.log + match_book(old(self)@.orders, old(order)@).fills,
            final(order)@ == with_size(
                old(order)@,
                match_book(old(self)@.orders, old(order)@).remaining,
            ),
            final(order).size > 0 ==> final(self).best_bid() < final(order).price,
            final(self).best_ask() == old(self).best_ask(),
            final(self).best_bid() == best_bid_after(
                old(self).best_bid(),
                old(self).best_ask(),
                old(order)@,
                match_book(old(self)@.orders, old(order)@),
            ),
            final(self).levels() == levels_after_walk(
                old(self).levels(),
                old(self).best_bid(),
                old(self).best_ask(),
                old(order)@,
                match_book(old(self)@.orders, old(order)@),
            ),
    {
        let ghost taker0 = order@;
        let ghost log0 = self@.log;
        let ghost orders0 = self.orders();
        let ghost start = self.levels();
        let ghost bb0 = self.best_bid();
        let ghost ba0 = self.best_ask();
        let ghost m0 = match_book(orders0, taker0);
        proof {
            assert(order@ == with_size(taker0, order.size));
            assert(self@.log + m0.fills == log0 + m0.fills);
            assert forall|q: int| 0 <= q < start.len() implies ids_within(
                #[trigger] start[q],
                orders0.len(),
            ) by {}
        }
        while order.size > 0 && self.bid_max >= 0 && Engine::hit_bid(
            order.price,
            self.bid_max as Price,
        )
            invariant
                self.wf(),
                order.side,
                order@ == with_size(taker0, order.size),
                order.size <= taker0.size,
                self.ask_min == old(self).ask_min,
                match_book(self.orders(), order@).orders == m0.orders,
                match_book(self.orders(), order@).remaining == m0.remaining,
                self@.log + match_book(self.orders(), order@).fills == log0 + m0.fills,
                self.orders().len() == orders0.len(),
                start.len() == PRICE_LEVELS,
                forall|q: int| 0 <= q < start.len() ==> ids_within(#[trigger] start[q], orders0.len()),
                -1 <= self.bid_max <= bb0 < PRICE_LEVELS,
                walking(
                    start,
                    self.levels(),
                    self.orders(),
                    self.bid_max + 1,
                    bb0,
                    self.bid_max as int,
                ),
                marketable(taker0, bb0, ba0) || (self.levels() == start && self.bid_max == bb0
                    && order.size == taker0.size),
                self.bid_max >= 0 ==> self.levels()[self.bid_max as int] == start[self.bid_max as int]
                    || taker0.price <= self.bid_max,
                self.bid_max < bb0 ==> taker0.price <= self.bid_max + 1,
                order.size == 0 && taker0.size > 0 ==> {
                    &&& self.bid_max >= 0
                    &&& self@.log.len() > 0
                    &&& self@.log.last().price == self.bid_max
                    &&& self.levels()[self.bid_max as int] == skip_dead(
                        start[self.bid_max as int],
                        self.orders(),
                    )
                },
            decreases order.size, self.bid_max + 1,
        {
            let level = self.bid_max as usize;
            proof {
                self.lemma_ids_within(level as int);
                lemma_walking_purge(
                    start,
                    self.levels(),
                    self.orders(),
                    self.bid_max + 1,
                    bb0,
                    level as int,
                );
            }
            self.pop_front_if_tombstoned(level);
            if self.price_points[level].items.len() == 0 {
                self.bid_max = self.bid_max - 1;
                proof {
                    assert(self.levels()[level as int].len() == 0);
                    assert(skip_dead(self.levels()[level as int], self.orders())
                        =~= self.levels()[level as int]);
                }
            } else {
                let ghost before = self.orders();
                proof {
                    assert(self.levels()[level as int].len() > 0);
                    lemma_front_bid_is_best(
                        self.levels(),
                        before,
                        self.best_bid(),
                        self.best_ask(),
                        order.price,
                    );
                    self.lemma_all_ids_within();
                }
                self.take_front(level, order);
                proof {
                    lemma_walking_fills(
                        start,
                        self.levels(),
                        before,
                        self.orders(),
                        self.bid_max + 1,
                        bb0,
                        level as int,
                    );
                }
                if order.size == 0 {
                    proof {
                        self.lemma_ids_within(level as int);
                        lemma_walking_purge(
                            start,
                            self.levels(),
                            self.orders(),
                            self.bid_max + 1,
                            bb0,
                            level as int,
                        );
                    }
                    self.pop_front_if_tombstoned(level);
                }
            }
        }
        proof {
            if order.size > 0 {
                lemma_beyond_boundary_no_match(
                    self.levels(),
                    self.orders(),
                    self.best_bid(),
                    self.best_ask(),
                    true,
                    order.price,
                );
            }
            assert(match_book(self.orders(), order@).fills =~= Seq::<OrderView>::empty());
            assert(self@.log =~= log0 + m0.fills);
            lemma_match_conserves(orders0, taker0);
            if order.size == 0 && taker0.size > 0 {
                assert(m0.fills.len() > 0) by {
                    if m0.fills.len() == 0 {
                        assert(volume(m0.fills) == 0);
                    }
                }
                assert(self@.log.last() == m0.fills.last());
            }
            let after = levels_after_walk(start, bb0, ba0, taker0, m0);
            assert forall|q: int| 0 <= q < PRICE_LEVELS implies #[trigger] self.levels()[q]
                == after[q] by {
                if self.bid_max < q <= bb0 {
                    assert(self.levels()[q].len() == 0);
                    assert(self.levels()[q] =~= skip_dead(start[q], self.orders()));
                }
            }
            assert(self.levels() =~= after);
        }
    }

    /// Matches an incoming bid against the resting asks, best price first
    /// and oldest first within a price, walking up from the ask boundary.
    fn cross_bid(&mut self, order: &mut Order)
        requires
            old(self).wf(),
            !old(order).side,
        ensures
            final(self).wf(),
            final(self)@.orders == match_book(old(self)@.orders, old(order)@).orders,
            final(self)@.log == old(self)@.log + match_book(old(self)@.orders, old(order)@).fills,
            final(order)@ == with_size(
                old(order)@,
                match_book(old(self)@.orders, old(order)@).remaining,
            ),
            final(order).size > 0 ==> final(order).price < final(self).best_ask(),
            final(self).best_bid() == old(self).best_bid(),
            final(self).best_ask() == best_ask_after(
                old(self).best_bid(),
                old(self).best_ask(),
                old(order)@,
                match_book(old(self)@.orders, old(order)@),
            ),
            final(self).levels() == levels_after_walk(
                old(self).levels(),
                old(self).best_bid(),
                old(self).best_ask(),
                old(order)@,
                match_book(old(self)@.orders, old(order)@),
            ),
    {
        let ghost taker0 = order@;
        let ghost log0 = self@.log;
        let ghost orders0 = self.orders();
        let ghost start = self.levels();
        let ghost bb0 = self.best_bid();
        let ghost ba0 = self.best_ask();
        let ghost m0 = match_book(orders0, taker0);
        proof {
            assert(order@ == with_size(taker0, order.size));
            assert(self@.log + m0.fills == log0 + m0.fills);
            assert forall|q: int| 0 <= q < start.len() implies ids_within(
                #[trigger] start[q],
                orders0.len(),
            ) by {}
        }
        while order.size > 0 && self.ask_min < 65536 && Engine::hit_ask(
            order.price,
            self.ask_min as Price,
        )
            invariant
                self.wf(),
                !order.side,
                order@ == with_size(taker0, order.size),
                order.size <= taker0.size,
                self.bid_max == old(self).bid_max,
                match_book(self.orders(), order@).orders == m0.orders,
                match_book(self.orders(), order@).remaining == m0.remaining,
                self@.log + match_book(self.orders(), order@).fills == log0 + m0.fills,
                self.orders().len() == orders0.len(),
                start.len() == PRICE_LEVELS,
                forall|q: int| 0 <= q < start.len() ==> ids_within(#[trigger] start[q], orders0.len()),
                0 <= ba0 <= self.ask_min <= PRICE_LEVELS,
                walking(
                    start,
                    self.levels(),
                    self.orders(),
                    ba0,
                    self.ask_min - 1,
                    self.ask_min as int,
                ),
                marketable(taker0, bb0, ba0) || (self.levels() == start && self.ask_min == ba0
                    && order.size == taker0.size),
                self.ask_min < PRICE_LEVELS ==> self.levels()[self.ask_min as int]
                    == start[self.ask_min as int] || taker0.price >= self.ask_min,
                self.ask_min > ba0 ==> taker0.price >= self.ask_min - 1,
                order.size == 0 && taker0.size > 0 ==> {
                    &&& self.ask_min < PRICE_LEVELS
                    &&& self@.log.len() > 0
                    &&& self@.log.last().price == self.ask_min
                    &&& self.levels()[self.ask_min as int] == skip_dead(
                        start[self.ask_min as int],
                        self.orders(),
                    )
                },
            decreases order.size, 65536 - self.ask_min,
        {
            let level = self.ask_min as usize;
            proof {
                self.lemma_ids_within(level as int);
                lemma_walking_purge(
                    start,
                    self.levels(),
                    self.orders(),
                    ba0,
                    self.ask_min - 1,
                    level as int,
                );
            }
            self.pop_front_if_tombstoned(level);
            if self.price_points[level].items.len() == 0 {
                self.ask_min = self.ask_min + 1;
                proof {
                    assert(self.levels()[level as int].len() == 0);
                    assert(skip_dead(self.levels()[level as int], self.orders())
                        =~= self.levels()[level as int]);
                }
            } else {
                let ghost before = self.orders();
                proof {
                    assert(self.levels()[level as int].len() > 0);
                    lemma_front_ask_is_best(
                        self.levels(),
                        before,
                        self.best_bid(),
                        self.best_ask(),
                        order.price,
                    );
                    self.lemma_all_ids_within();
                }
                self.take_front(level, order);
                proof {
                    lemma_walking_fills(
                        start,
                        self.levels(),
                        before,
                        self.orders(),
                        ba0,
                        self.ask_min - 1,
                        level as int,
                    );
                }
                if order.size == 0 {
                    proof {
                        self.lemma_ids_within(level as int);
                        lemma_walking_purge(
                            start,
                            self.levels(),
                            self.orders(),
                            ba0,
                            self.ask_min - 1,
                            level as int,
                        );
                    }
                    self.pop_front_if_tombstoned(level);
                }
            }
        }
        proof {
            if order.size > 0 {
                lemma_beyond_boundary_no_match(
                    self.levels(),
                    self.orders(),
                    self.best_bid(),
                    self.best_ask(),
                    false,
                    order.price,
                );
            }
            assert(match_book(self.orders(), order@).fills =~= Seq::<OrderView>::empty());
            assert(self@.log =~= log0 + m0.fills);
            lemma_match_conserves(orders0, taker0);
            if order.size == 0 && taker0.size > 0 {
                assert(m0.fills.len() > 0) by {
                    if m0.fills.len() == 0 {
                        assert(volume(m0.fills) == 0);
                    }
                }
                assert(self@.log.last() == m0.fills.last());
            }
            let after = levels_after_walk(start, bb0, ba0, taker0, m0);
            assert forall|q: int| 0 <= q < PRICE_LEVELS implies #[trigger] self.levels()[q]
                == after[q] by {
                if ba0 <= q < self.ask_min {
                    assert(self.levels()[q].len() == 0);
                    assert(self.levels()[q] =~= skip_dead(start[q], self.orders()));
                }
            }
            assert(self.levels() =~= after);
        }
    }

    /// Matches the incoming `order` against the other side of the book and
    /// leaves in it the quantity that found no counterpart. Returns whether
    /// the order was filled completely.
    fn cross(&mut self, order: &mut Order) -> (filled: bool)
        requires
            old(self).wf(),
        ensures
            final(self).wf(),
            final(self)@.orders == match_book(old(self)@.orders, old(order)@).orders,
            final(self)@.log == old(self)@.log + match_book(old(self)@.orders, old(order)@).fills,
            final(order)@ == with_size(
                old(order)@,
                match_book(old(self)@.orders, old(order)@).remaining,
            ),
            filled == (final(order).size == 0),
            !filled ==> if final(order).side {
                final(self).best_bid() < final(order).price
            } else {
                final(order).price < final(self).best_ask()
            },
            final(self).best_bid() == if old(order).side {
                best_bid_after(
                    old(self).best_bid(),
                    old(self).best_ask(),
                    old(order)@,
                    match_book(old(self)@.orders, old(order)@),
                )
            } else {
                old(self).best_bid()
            },
            final(self).best_ask() == if old(order).side {
                old(self).best_ask()
            } else {
                best_ask_after(
                    old(self).best_bid(),
                    old(self).best_ask(),
                    old(order)@,
                    match_book(old(self)@.orders, old(order)@),
                )
            },
            final(self).levels() == levels_after_walk(
                old(self).levels(),
                old(self).best_bid(),
                old(self).best_ask(),
                old(order)@,
                match_book(old(self)@.orders, old(order)@),
            ),
    {
        if is_ask(order.side) {
            self.cross_ask(order);
        } else {
            self.cross_bid(order);
        }
        order.size == 0
    }

    /// Accepts a limit order. It trades against the resting orders of the
    /// other side that its price reaches, best price first and oldest first
    /// within a price; what is left of it rests in the book. Every trade
    /// appends two executions to the log. Returns the order's identifier.
    pub fn limit_order(&mut self, order: Order) -> (id: OrderId)
        requires
            old(self).wf(),
        ensures
            final(self).wf(),
            id == next_id(old(self)@),
            final(self)@ == submit(old(self)@, order@),
            final(self).best_bid() == best_bid_after(
                old(self).best_bid(),
                old(self).best_ask(),
                order@,
                match_book(old(self)@.orders, order@),
            ),
            final(self).best_ask() == best_ask_after(
                old(self).best_bid(),
                old(self).best_ask(),
                order@,
                match_book(old(self)@.orders, order@),
            ),
            final(self).levels() == levels_after(
                old(self).levels(),
                old(self).best_bid(),
                old(self).best_ask(),
                order@,
                match_book(old(self)@.orders, order@),
                id,
            ),
    {
        let mut remainder = order;
        let filled = self.cross(&mut remainder);
        if !filled {
            if is_ask(remainder.side) {
                if Engine::priority_ask(remainder.price, self.ask_min) {
                    self.ask_min = remainder.price as i32;
                }
            } else {
                if Engine::priority_bid(remainder.price, self.bid_max) {
                    self.bid_max = remainder.price as i32;
                }
            }
        }
        proof {
            lemma_match_conserves(old(self)@.orders, order@);
        }
        self.queue(remainder)
    }

    /// Reports one trade: appends the execution of the incoming order
    /// `order_1`, then that of the resting order `order_2`, both for the
    /// smaller of the two unfilled quantities and at the resting order's price.
    fn send_execution(order_1: &Order, order_2: &Order, log: &mut Vec<Execution>)
        ensures
            order_views(final(log)@) == order_views(old(log)@).push(
                taker_fill(order_1@, order_2@),
            ).push(maker_fill(order_1@, order_2@)),
    {
        let qty: u64 = if order_1.size <= order_2.size {
            order_1.size
        } else {
            order_2.size
        };
        let exec = Order {
            symbol: order_1.symbol.clone(),
            trader: order_1.trader.clone(),
            side: order_1.side,
            price: order_2.price,
            size: qty,
        };
        let other = Order {
            symbol: order_1.symbol.clone(),
            trader: order_2.trader.clone(),
            side: !order_1.side,
            price: order_2.price,
            size: qty,
        };
        log.push(exec);
        log.push(other);
        proof {
            assert(order_views(log@) =~= order_views(old(log)@).push(
                taker_fill(order_1@, order_2@),
            ).push(maker_fill(order_1@, order_2@)));
        }
    }

    /// Trades the incoming `order` against the resting `matched_order`:
    /// the smaller unfilled quantity leaves both and the trade is reported.
    /// When either has nothing left, nothing happens.
    fn trade(order: &mut Order, matched_order: &mut Order, log: &mut Vec<Execution>)
        ensures
            old(order).size > 0 && old(matched_order).size > 0 ==> {
                &&& final(order)@ == reduced(old(order)@, traded(old(order)@, old(matched_order)@))
                &&& final(matched_order)@ == reduced(
                    old(matched_order)@,
                    traded(old(order)@, old(matched_order)@),
                )
                &&& order_views(final(log)@) == order_views(old(log)@).push(
                    taker_fill(old(order)@, old(matched_order)@),
                ).push(maker_fill(old(order)@, old(matched_order)@))
            },
            old(order).size == 0 || old(matched_order).size == 0 ==> {
                &&& final(order)@ == old(order)@
                &&& final(matched_order)@ == old(matched_order)@
                &&& final(log)@ == old(log)@
            },
    {
        if order.size == 0 || matched_order.size == 0 {
            return ;
        }
        Engine::send_execution(order, matched_order, log);
        if order.size >= matched_order.size {
            order.size -= matched_order.size;
            matched_order.size = 0;
        } else {
            matched_order.size -= order.size;
            order.size = 0;
        }
    }

    /// Cancels the order `id`. An identifier that was never handed out, or
    /// whose order is already filled or cancelled, changes nothing.
    pub fn cancel(&mut self, id: OrderId)
        requires
            old(self).wf(),
        ensures
            final(self).wf(),
            final(self)@ == crate::book::cancel(old(self)@, id),
            final(self).levels() == old(self).levels(),
            final(self).best_bid() == old(self).best_bid(),
            final(self).best_ask() == old(self).best_ask(),
    {
        if 1 <= id && id <= self.book_entries.len() as u64 {
            let idx = (id - 1) as usize;
            self.book_entries[idx].order.size = 0;
            proof {
                assert(self.levels() =~= old(self).levels());
                assert(self.orders() =~= crate::book::cancel(old(self)@, id).orders);
                assert forall|i: int| 0 <= i < self.orders().len() implies {
                    &&& (#[trigger] self.orders()[i]).price == old(self).orders()[i].price
                    &&& self.orders()[i].side == old(self).orders()[i].side
                    &&& self.orders()[i].size <= old(self).orders()[i].size
                } by {}
            }
        } else {
            proof {
                assert(self.orders() =~= old(self).orders());
            }
        }
    }
}

} // verus!
