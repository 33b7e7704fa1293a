//! What must hold between the price-level queues and the order store.
//!
//! A level is the queue of order identifiers resting at one price, in arrival
//! order. Queues may still hold identifiers of orders that have since been
//! filled or cancelled; such entries are dropped the next time the front of
//! the queue is looked at.

use vstd::prelude::*;
use crate::book::{crosses, has_best, is_best, volume, MatchOutcome, PRICE_LEVELS};
use crate::types::{OrderId, OrderView, Price};

verus! {

/// The queues agree with the store:
/// every queued identifier was handed out and stands at the price of its
/// order, identifiers grow along each queue, and every live order is queued
/// at its price.
pub open spec fn index_consistent(levels: Seq<Seq<OrderId>>, orders: Seq<OrderView>) -> bool {
    &&& levels.len() == PRICE_LEVELS
    &&& forall|q: int, k: int|
        0 <= q < levels.len() && 0 <= k < levels[q].len() ==> {
            &&& 1 <= #[trigger] levels[q][k] <= orders.len()
            &&& orders[levels[q][k] - 1].price == q
        }
    &&& forall|q: int, k: int, l: int|
        0 <= q < levels.len() && 0 <= k < l < levels[q].len() ==> #[trigger] levels[q][k]
            < #[trigger] levels[q][l]
    &&& forall|i: int|
        0 <= i < orders.len() && (#[trigger] orders[i]).size > 0 ==> queued(
            levels[orders[i].price as int],
            i + 1,
        )
}

/// The identifier `id` stands somewhere in `queue`.
pub open spec fn queued(queue: Seq<OrderId>, id: int) -> bool {
    exists|k: int| 0 <= k < queue.len() && #[trigger] queue[k] == id
}

/// The boundary prices fence the two sides off from each other: no bid is
/// queued above `best_bid`, no ask below `best_ask`, and the first lies
/// strictly below the second.
pub open spec fn sides_bounded(
    levels: Seq<Seq<OrderId>>,
    orders: Seq<OrderView>,
    best_bid: int,
    best_ask: int,
) -> bool {
    &&& -1 <= best_bid < best_ask <= PRICE_LEVELS
    &&& forall|q: int, k: int|
        0 <= q < levels.len() && 0 <= k < levels[q].len() ==> if orders[#[trigger] levels[q][k]
            - 1].side {
            q >= best_ask
        } else {
            q <= best_bid
        }
}

/// The order whose identifier stands first in `queue` has quantity left.
pub open spec fn front_is_live(queue: Seq<OrderId>, orders: Seq<OrderView>) -> bool {
    queue.len() > 0 && orders[queue[0] - 1].size > 0
}

/// A queue without the filled or cancelled identifiers at its front.
pub open spec fn skip_dead(queue: Seq<OrderId>, orders: Seq<OrderView>) -> Seq<OrderId>
    decreases queue.len(),
{
    if queue.len() > 0 && orders[queue[0] - 1].size == 0 {
        skip_dead(queue.drop_first(), orders)
    } else {
        queue
    }
}

/// `after` is `before` with some unfilled quantities made smaller.
pub open spec fn only_filled(before: Seq<OrderView>, after: Seq<OrderView>) -> bool {
    &&& after.len() == before.len()
    &&& forall|i: int|
        0 <= i < before.len() ==> {
            &&& (#[trigger] after[i]).price == before[i].price
            &&& after[i].side == before[i].side
            &&& after[i].size <= before[i].size
        }
}

/// Filling or cancelling orders leaves the queues in agreement with the store.
pub proof fn lemma_fills_keep_index(
    levels: Seq<Seq<OrderId>>,
    before: Seq<OrderView>,
    after: Seq<OrderView>,
    best_bid: int,
    best_ask: int,
)
    requires
        index_consistent(levels, before),
        sides_bounded(levels, before, best_bid, best_ask),
        only_filled(before, after),
    ensures
        index_consistent(levels, after),
        sides_bounded(levels, after, best_bid, best_ask),
{
    assert forall|q: int, k: int| 0 <= q < levels.len() && 0 <= k < levels[q].len() implies {
        &&& 1 <= #[trigger] levels[q][k] <= after.len()
        &&& after[levels[q][k] - 1].price == q
        &&& if after[levels[q][k] - 1].side {
            q >= best_ask
        } else {
            q <= best_bid
        }
    } by {
        let i = levels[q][k] - 1;
        assert(after[i].price == before[i].price);
    }
    assert forall|i: int| 0 <= i < after.len() && (#[trigger] after[i]).size > 0 implies queued(
        levels[after[i].price as int],
        i + 1,
    ) by {
        assert(before[i].size > 0);
    }
}

/// Dropping a filled or cancelled identifier from the front of a queue
/// leaves the queues in agreement with the store.
pub proof fn lemma_drop_dead_front(
    levels: Seq<Seq<OrderId>>,
    orders: Seq<OrderView>,
    best_bid: int,
    best_ask: int,
    q: int,
)
    requires
        index_consistent(levels, orders),
        sides_bounded(levels, orders, best_bid, best_ask),
        0 <= q < levels.len(),
        levels[q].len() > 0,
        orders[levels[q][0] - 1].size == 0,
    ensures
        index_consistent(levels.update(q, levels[q].drop_first()), orders),
        sides_bounded(levels.update(q, levels[q].drop_first()), orders, best_bid, best_ask),
{
    let shorter = levels.update(q, levels[q].drop_first());
    assert forall|p: int, k: int| 0 <= p < shorter.len() && 0 <= k < shorter[p].len() implies {
        &&& 1 <= #[trigger] shorter[p][k] <= orders.len()
        &&& orders[shorter[p][k] - 1].price == p
        &&& if orders[shorter[p][k] - 1].side {
            p >= best_ask
        } else {
            p <= best_bid
        }
    } by {
        if p == q {
            assert(shorter[p][k] == levels[q][k + 1]);
        } else {
            assert(shorter[p][k] == levels[p][k]);
        }
    }
    assert forall|p: int, k: int, l: int|
        0 <= p < shorter.len() && 0 <= k < l < shorter[p].len() implies #[trigger] shorter[p][k]
        < #[trigger] shorter[p][l] by {
        if p == q {
            assert(shorter[p][k] == levels[q][k + 1]);
            assert(shorter[p][l] == levels[q][l + 1]);
        } else {
            assert(shorter[p][k] == levels[p][k]);
            assert(shorter[p][l] == levels[p][l]);
        }
    }
    assert forall|i: int| 0 <= i < orders.len() && (#[trigger] orders[i]).size > 0 implies queued(
        shorter[orders[i].price as int],
        i + 1,
    ) by {
        let p = orders[i].price as int;
        let id = i + 1;
        assert(queued(levels[p], id));
        let k = choose|k: int| 0 <= k < levels[p].len() && #[trigger] levels[p][k] == id;
        if p == q {
            assert(k != 0);
            assert(shorter[p][k - 1] == id);
        } else {
            assert(shorter[p][k] == id);
        }
    }
}

/// Accepting a new order keeps the queues in agreement with the store: a
/// live one is appended to the queue at its price, which must lie on its own
/// side of the boundaries; one with nothing left is stored only.
pub proof fn lemma_accept_keeps_index(
    levels: Seq<Seq<OrderId>>,
    orders: Seq<OrderView>,
    best_bid: int,
    best_ask: int,
    o: OrderView,
)
    requires
        index_consistent(levels, orders),
        sides_bounded(levels, orders, best_bid, best_ask),
        orders.len() < u64::MAX,
        o.size > 0 ==> if o.side {
            best_ask <= o.price
        } else {
            o.price <= best_bid
        },
    ensures
        o.size == 0 ==> index_consistent(levels, orders.push(o)) && sides_bounded(
            levels,
            orders.push(o),
            best_bid,
            best_ask,
        ),
        o.size > 0 ==> index_consistent(
            levels.update(
                o.price as int,
                levels[o.price as int].push((orders.len() + 1) as OrderId),
            ),
            orders.push(o),
        ) && sides_bounded(
            levels.update(
                o.price as int,
                levels[o.price as int].push((orders.len() + 1) as OrderId),
            ),
            orders.push(o),
            best_bid,
            best_ask,
        ),
{
    let grown = orders.push(o);
    let id = (orders.len() + 1) as OrderId;
    let at = o.price as int;
    assert forall|i: int| 0 <= i < orders.len() implies #[trigger] grown[i] == orders[i] by {}
    if o.size == 0 {
        assert forall|q: int, k: int| 0 <= q < levels.len() && 0 <= k < levels[q].len() implies {
            &&& 1 <= #[trigger] levels[q][k] <= grown.len()
            &&& grown[levels[q][k] - 1].price == q
            &&& if grown[levels[q][k] - 1].side {
                q >= best_ask
            } else {
                q <= best_bid
            }
        } by {
            assert(grown[levels[q][k] - 1] == orders[levels[q][k] - 1]);
        }
        assert forall|i: int| 0 <= i < grown.len() && (#[trigger] grown[i]).size > 0 implies queued(
            levels[grown[i].price as int],
            i + 1,
        ) by {
            assert(i < orders.len());
            assert(orders[i].size > 0);
        }
    } else {
        let longer = levels.update(at, levels[at].push(id));
        assert forall|q: int, k: int| 0 <= q < longer.len() && 0 <= k < longer[q].len() implies {
            &&& 1 <= #[trigger] longer[q][k] <= grown.len()
            &&& grown[longer[q][k] - 1].price == q
            &&& if grown[longer[q][k] - 1].side {
                q >= best_ask
            } else {
                q <= best_bid
            }
        } by {
            if q == at && k == levels[at].len() {
                assert(longer[q][k] == id);
                assert(grown[id - 1] == o);
            } else {
                assert(longer[q][k] == levels[q][k]);
                assert(grown[levels[q][k] - 1] == orders[levels[q][k] - 1]);
            }
        }
        assert forall|q: int, k: int, l: int|
            0 <= q < longer.len() && 0 <= k < l < longer[q].len() implies #[trigger] longer[q][k]
            < #[trigger] longer[q][l] by {
            assert(longer[q][k] == levels[q][k]);
            if q == at && l == levels[at].len() {
                assert(longer[q][l] == id);
            } else {
                assert(longer[q][l] == levels[q][l]);
            }
        }
        assert forall|i: int| 0 <= i < grown.len() && (#[trigger] grown[i]).size > 0 implies queued(
            longer[grown[i].price as int],
            i + 1,
        ) by {
            let p = grown[i].price as int;
            if i < orders.len() {
                assert(orders[i].size > 0);
                let old_id = i + 1;
                assert(queued(levels[p], old_id));
                let k = choose|k: int| 0 <= k < levels[p].len() && #[trigger] levels[p][k] == old_id;
                assert(longer[p][k] == old_id);
            } else {
                assert(longer[at][levels[at].len() as int] == id);
            }
        }
    }
}

/// At most one position holds the order to trade with next.
pub proof fn lemma_best_unique(orders: Seq<OrderView>, side: bool, limit: Price, i: int, j: int)
    requires
        is_best(orders, side, limit, i),
        is_best(orders, side, limit, j),
    ensures
        i == j,
{
}

/// For an incoming ask, the live identifier at the front of the queue at
/// `best_bid` is the order to trade with next.
pub proof fn lemma_front_bid_is_best(
    levels: Seq<Seq<OrderId>>,
    orders: Seq<OrderView>,
    best_bid: int,
    best_ask: int,
    limit: Price,
)
    requires
        index_consistent(levels, orders),
        sides_bounded(levels, orders, best_bid, best_ask),
        0 <= limit <= best_bid,
        levels[best_bid].len() > 0,
        orders[levels[best_bid][0] - 1].size > 0,
    ensures
        is_best(orders, true, limit, levels[best_bid][0] - 1),
{
    let front = levels[best_bid][0] - 1;
    assert forall|j: int|
        0 <= j < orders.len() && j != front && crosses(true, limit, #[trigger] orders[j]) implies {
        ||| orders[front].price > orders[j].price
        ||| orders[front].price == orders[j].price && front < j
    } by {
        let p = orders[j].price as int;
        let id = j + 1;
        assert(queued(levels[p], id));
        let k = choose|k: int| 0 <= k < levels[p].len() && #[trigger] levels[p][k] == id;
        assert(levels[p][k] == id);
        if p == best_bid {
            assert(k != 0);
            assert(levels[p][0] < levels[p][k]);
        }
    }
}

/// For an incoming bid, the live identifier at the front of the queue at
/// `best_ask` is the order to trade with next.
pub proof fn lemma_front_ask_is_best(
    levels: Seq<Seq<OrderId>>,
    orders: Seq<OrderView>,
    best_bid: int,
    best_ask: int,
    limit: Price,
)
    requires
        index_consistent(levels, orders),
        sides_bounded(levels, orders, best_bid, best_ask),
        best_ask <= limit,
        levels[best_ask].len() > 0,
        orders[levels[best_ask][0] - 1].size > 0,
    ensures
        is_best(orders, false, limit, levels[best_ask][0] - 1),
{
    let front = levels[best_ask][0] - 1;
    assert forall|j: int|
        0 <= j < orders.len() && j != front && crosses(false, limit, #[trigger] orders[j]) implies {
        ||| orders[front].price < orders[j].price
        ||| orders[front].price == orders[j].price && front < j
    } by {
        let p = orders[j].price as int;
        let id = j + 1;
        assert(queued(levels[p], id));
        let k = choose|k: int| 0 <= k < levels[p].len() && #[trigger] levels[p][k] == id;
        assert(levels[p][k] == id);
        if p == best_ask {
            assert(k != 0);
            assert(levels[p][0] < levels[p][k]);
        }
    }
}

/// An incoming order that does not reach the boundary of the other side
/// crosses nothing.
pub proof fn lemma_beyond_boundary_no_match(
    levels: Seq<Seq<OrderId>>,
    orders: Seq<OrderView>,
    best_bid: int,
    best_ask: int,
    side: bool,
    limit: Price,
)
    requires
        index_consistent(levels, orders),
        sides_bounded(levels, orders, best_bid, best_ask),
        if side {
            best_bid < limit
        } else {
            limit < best_ask
        },
    ensures
        forall|i: int| 0 <= i < orders.len() ==> !crosses(side, limit, #[trigger] orders[i]),
        !has_best(orders, side, limit),
{
    assert forall|i: int| 0 <= i < orders.len() implies !crosses(
        side,
        limit,
        #[trigger] orders[i],
    ) by {
        if crosses(side, limit, orders[i]) {
            let p = orders[i].price as int;
            let id = i + 1;
            assert(queued(levels[p], id));
            let k = choose|k: int| 0 <= k < levels[p].len() && #[trigger] levels[p][k] == id;
            assert(levels[p][k] == id);
            assert(false);
        }
    }
}

/// Total unfilled quantity of the orders whose identifiers stand in `queue`.
pub open spec fn queue_volume(queue: Seq<OrderId>, orders: Seq<OrderView>) -> int
    decreases queue.len(),
{
    if queue.len() == 0 {
        0
    } else {
        queue_volume(queue.drop_last(), orders) + orders[queue.last() - 1].size
    }
}

/// Total unfilled quantity found by walking every queue and looking each
/// identifier up in the store.
pub open spec fn index_volume(levels: Seq<Seq<OrderId>>, orders: Seq<OrderView>) -> int
    decreases levels.len(),
{
    if levels.len() == 0 {
        0
    } else {
        index_volume(levels.drop_last(), orders) + queue_volume(levels.last(), orders)
    }
}

/// A queue's total depends only on the orders that its identifiers name.
proof fn lemma_queue_volume_agree(
    queue: Seq<OrderId>,
    orders: Seq<OrderView>,
    shorter: Seq<OrderView>,
)
    requires
        shorter.len() <= orders.len(),
        forall|i: int| 0 <= i < shorter.len() ==> #[trigger] shorter[i] == orders[i],
        forall|k: int| 0 <= k < queue.len() ==> 1 <= #[trigger] queue[k] <= shorter.len(),
    ensures
        queue_volume(queue, orders) == queue_volume(queue, shorter),
    decreases queue.len(),
{
    if queue.len() > 0 {
        let rest = queue.drop_last();
        assert forall|k: int| 0 <= k < rest.len() implies 1 <= #[trigger] rest[k]
            <= shorter.len() by {
            assert(rest[k] == queue[k]);
        }
        lemma_queue_volume_agree(rest, orders, shorter);
        assert(1 <= queue[queue.len() - 1] <= shorter.len());
    }
}

/// The index total depends only on the orders that the queued identifiers name.
proof fn lemma_index_volume_agree(
    levels: Seq<Seq<OrderId>>,
    orders: Seq<OrderView>,
    shorter: Seq<OrderView>,
)
    requires
        shorter.len() <= orders.len(),
        forall|i: int| 0 <= i < shorter.len() ==> #[trigger] shorter[i] == orders[i],
        forall|q: int, k: int|
            0 <= q < levels.len() && 0 <= k < levels[q].len() ==> 1 <= #[trigger] levels[q][k]
                <= shorter.len(),
    ensures
        index_volume(levels, orders) == index_volume(levels, shorter),
    decreases levels.len(),
{
    if levels.len() > 0 {
        let rest = levels.drop_last();
        let top = levels.len() - 1;
        assert forall|q: int, k: int| 0 <= q < rest.len() && 0 <= k < rest[q].len() implies 1
            <= #[trigger] rest[q][k] <= shorter.len() by {
            assert(rest[q][k] == levels[q][k]);
        }
        lemma_index_volume_agree(rest, orders, shorter);
        assert forall|k: int| 0 <= k < levels[top].len() implies 1 <= #[trigger] levels[top][k]
            <= shorter.len() by {}
        lemma_queue_volume_agree(levels[top], orders, shorter);
    }
}

/// Replacing one queue changes the index total by the difference of the
/// two queues' totals.
proof fn lemma_index_volume_update(
    levels: Seq<Seq<OrderId>>,
    orders: Seq<OrderView>,
    q: int,
    queue: Seq<OrderId>,
)
    requires
        0 <= q < levels.len(),
    ensures
        index_volume(levels.update(q, queue), orders) == index_volume(levels, orders)
            - queue_volume(levels[q], orders) + queue_volume(queue, orders),
    decreases levels.len(),
{
    let changed = levels.update(q, queue);
    if q == levels.len() - 1 {
        assert(changed.drop_last() =~= levels.drop_last());
    } else {
        assert(changed.drop_last() =~= levels.drop_last().update(q, queue));
        lemma_index_volume_update(levels.drop_last(), orders, q, queue);
    }
}

/// Empty queues hold no quantity.
proof fn lemma_index_volume_empty(levels: Seq<Seq<OrderId>>, orders: Seq<OrderView>)
    requires
        forall|q: int| 0 <= q < levels.len() ==> (#[trigger] levels[q]).len() == 0,
    ensures
        index_volume(levels, orders) == 0,
    decreases levels.len(),
{
    if levels.len() > 0 {
        let rest = levels.drop_last();
        assert forall|q: int| 0 <= q < rest.len() implies (#[trigger] rest[q]).len() == 0 by {
            assert(rest[q] == levels[q]);
        }
        lemma_index_volume_empty(rest, orders);
    }
}

/// Without its newest order, and with that order's identifier taken off
/// the queue that ends in it, the index still agrees with the store.
proof fn lemma_without_newest(levels: Seq<Seq<OrderId>>, orders: Seq<OrderView>) -> (fewer: Seq<
    Seq<OrderId>,
>)
    requires
        index_consistent(levels, orders),
        orders.len() > 0,
    ensures
        index_consistent(fewer, orders.drop_last()),
        index_volume(levels, orders) == index_volume(fewer, orders) + orders.last().size,
{
    let newest = orders.len() as int;
    let o = orders.last();
    let p = o.price as int;
    let shorter = orders.drop_last();
    if queued(levels[p], newest) {
        let k = choose|k: int| 0 <= k < levels[p].len() && #[trigger] levels[p][k] == newest;
        let end = levels[p].len() - 1;
        if k < end {
            assert(levels[p][k] < levels[p][end]);
            assert(false);
        }
        let fewer = levels.update(p, levels[p].drop_last());
        assert forall|q: int, j: int| 0 <= q < fewer.len() && 0 <= j < fewer[q].len() implies {
            &&& 1 <= #[trigger] fewer[q][j] <= shorter.len()
            &&& shorter[fewer[q][j] - 1].price == q
        } by {
            assert(fewer[q][j] == levels[q][j]);
            if levels[q][j] == newest {
                assert(q == p);
                assert(levels[p][j] < levels[p][end]);
            }
        }
        assert forall|q: int, j: int, l: int|
            0 <= q < fewer.len() && 0 <= j < l < fewer[q].len() implies #[trigger] fewer[q][j]
            < #[trigger] fewer[q][l] by {
            assert(fewer[q][j] == levels[q][j]);
            assert(fewer[q][l] == levels[q][l]);
        }
        assert forall|i: int| 0 <= i < shorter.len() && (#[trigger] shorter[i]).size > 0 implies queued(
            fewer[shorter[i].price as int],
            i + 1,
        ) by {
            let at = shorter[i].price as int;
            assert(orders[i].size > 0);
            assert(queued(levels[at], i + 1));
            let w = choose|w: int| 0 <= w < levels[at].len() && #[trigger] levels[at][w] == i + 1;
            assert(fewer[at][w] == i + 1);
        }
        lemma_index_volume_update(levels, orders, p, levels[p].drop_last());
        fewer
    } else {
        assert(o.size == 0) by {
            if orders[newest - 1].size > 0 {
                assert(queued(levels[orders[newest - 1].price as int], newest));
            }
        }
        assert forall|q: int, j: int| 0 <= q < levels.len() && 0 <= j < levels[q].len() implies {
            &&& 1 <= #[trigger] levels[q][j] <= shorter.len()
            &&& shorter[levels[q][j] - 1].price == q
        } by {
            if levels[q][j] == newest {
                assert(q == p);
            }
        }
        assert forall|i: int| 0 <= i < shorter.len() && (#[trigger] shorter[i]).size > 0 implies queued(
            levels[shorter[i].price as int],
            i + 1,
        ) by {
            assert(orders[i].size > 0);
        }
        levels
    }
}

/// Index and store agree. The unfilled quantity found by walking the
/// queues equals the unfilled quantity held in the store: every live order
/// is queued exactly once, and what else is queued has nothing left.
pub proof fn lemma_index_matches_store(levels: Seq<Seq<OrderId>>, orders: Seq<OrderView>)
    requires
        index_consistent(levels, orders),
    ensures
        index_volume(levels, orders) == volume(orders),
    decreases orders.len(),
{
    if orders.len() == 0 {
        assert forall|q: int| 0 <= q < levels.len() implies (#[trigger] levels[q]).len() == 0 by {
            if levels[q].len() > 0 {
                assert(1 <= levels[q][0] <= orders.len());
            }
        }
        lemma_index_volume_empty(levels, orders);
    } else {
        let shorter = orders.drop_last();
        let fewer = lemma_without_newest(levels, orders);
        lemma_index_matches_store(fewer, shorter);
        lemma_index_volume_agree(fewer, orders, shorter);
    }
}

/// The book is never crossed: every live bid is priced strictly below
/// every live ask.
pub proof fn lemma_book_uncrossed(
    levels: Seq<Seq<OrderId>>,
    orders: Seq<OrderView>,
    best_bid: int,
    best_ask: int,
    bid: int,
    ask: int,
)
    requires
        index_consistent(levels, orders),
        sides_bounded(levels, orders, best_bid, best_ask),
        0 <= bid < orders.len(),
        0 <= ask < orders.len(),
        !orders[bid].side && orders[bid].size > 0,
        orders[ask].side && orders[ask].size > 0,
    ensures
        orders[bid].price <= best_bid < best_ask <= orders[ask].price,
{
    let pb = orders[bid].price as int;
    let pa = orders[ask].price as int;
    assert(queued(levels[pb], bid + 1));
    assert(queued(levels[pa], ask + 1));
    let kb = choose|k: int| 0 <= k < levels[pb].len() && #[trigger] levels[pb][k] == bid + 1;
    let ka = choose|k: int| 0 <= k < levels[pa].len() && #[trigger] levels[pa][k] == ask + 1;
    assert(levels[pb][kb] == bid + 1);
    assert(levels[pa][ka] == ask + 1);
}

/// The incoming order has quantity and reaches the boundary of the other
/// side, so that matching it walks the price levels.
pub open spec fn marketable(order: OrderView, best_bid: int, best_ask: int) -> bool {
    order.size > 0 && if order.side {
        order.price <= best_bid
    } else {
        order.price >= best_ask
    }
}

/// The last level that the walk looks at: the level of the last trade when
/// the order is filled there, else the order's own price.
pub open spec fn walk_end(order: OrderView, m: MatchOutcome) -> int {
    if m.remaining > 0 {
        order.price as int
    } else {
        m.fills.last().price as int
    }
}

/// The walk of a marketable order looks at level `q`.
pub open spec fn walked(q: int, best_bid: int, best_ask: int, order: OrderView, m: MatchOutcome) -> bool {
    marketable(order, best_bid, best_ask) && if order.side {
        walk_end(order, m) <= q <= best_bid
    } else {
        best_ask <= q <= walk_end(order, m)
    }
}

/// The bid boundary after `order` has been submitted with outcome `m`.
/// An ask that walks moves it down past every level it has emptied: to the
/// level where the ask was filled, or below the ask's price when it was not.
/// A bid that rests above it pulls it up to the bid's price.
pub open spec fn best_bid_after(best_bid: int, best_ask: int, order: OrderView, m: MatchOutcome) -> int {
    if order.side {
        if !marketable(order, best_bid, best_ask) {
            best_bid
        } else if m.remaining > 0 {
            walk_end(order, m) - 1
        } else {
            walk_end(order, m)
        }
    } else {
        if m.remaining > 0 && order.price > best_bid {
            order.price as int
        } else {
            best_bid
        }
    }
}

/// The ask boundary after `order` has been submitted with outcome `m`;
/// the mirror image of [`best_bid_after`].
pub open spec fn best_ask_after(best_bid: int, best_ask: int, order: OrderView, m: MatchOutcome) -> int {
    if order.side {
        if m.remaining > 0 && order.price < best_ask {
            order.price as int
        } else {
            best_ask
        }
    } else {
        if !marketable(order, best_bid, best_ask) {
            best_ask
        } else if m.remaining > 0 {
            walk_end(order, m) + 1
        } else {
            walk_end(order, m)
        }
    }
}

/// The queues after the walk: each level that the walk has looked at has
/// lost the filled or cancelled identifiers at its front; no other level
/// has changed.
pub open spec fn levels_after_walk(
    levels: Seq<Seq<OrderId>>,
    best_bid: int,
    best_ask: int,
    order: OrderView,
    m: MatchOutcome,
) -> Seq<Seq<OrderId>> {
    Seq::new(
        levels.len(),
        |q: int|
            if walked(q, best_bid, best_ask, order, m) {
                skip_dead(levels[q], m.orders)
            } else {
                levels[q]
            },
    )
}

/// The queues after `order` has been submitted with outcome `m`: after the
/// walk, an order with quantity left joins the queue at its price under the
/// identifier `id`.
pub open spec fn levels_after(
    levels: Seq<Seq<OrderId>>,
    best_bid: int,
    best_ask: int,
    order: OrderView,
    m: MatchOutcome,
    id: OrderId,
) -> Seq<Seq<OrderId>> {
    let seen = levels_after_walk(levels, best_bid, best_ask, order, m);
    if m.remaining > 0 {
        seen.update(order.price as int, seen[order.price as int].push(id))
    } else {
        seen
    }
}

/// Progress of a walk that started from the queues `start`: the levels
/// `lo..=hi` have been emptied and left behind, the level `cur` is being
/// looked at, and no other level has been touched.
pub open spec fn walking(
    start: Seq<Seq<OrderId>>,
    levels: Seq<Seq<OrderId>>,
    orders: Seq<OrderView>,
    lo: int,
    hi: int,
    cur: int,
) -> bool {
    &&& levels.len() == start.len()
    &&& forall|q: int|
        0 <= q < levels.len() && lo <= q <= hi ==> (#[trigger] levels[q]).len() == 0 && skip_dead(
            start[q],
            orders,
        ).len() == 0
    &&& forall|q: int|
        0 <= q < levels.len() && !(lo <= q <= hi) && q != cur ==> #[trigger] levels[q] == start[q]
    &&& 0 <= cur < levels.len() ==> skip_dead(start[cur], orders) == skip_dead(levels[cur], orders)
}

/// Every identifier in `queue` names an order among the first `n`.
pub open spec fn ids_within(queue: Seq<OrderId>, n: nat) -> bool {
    forall|k: int| 0 <= k < queue.len() ==> 1 <= #[trigger] queue[k] <= n
}

/// Skipping the dead front after more orders have been filled gives the
/// same queue whether or not the front was skipped before.
pub proof fn lemma_skip_dead_after_fills(
    queue: Seq<OrderId>,
    before: Seq<OrderView>,
    after: Seq<OrderView>,
)
    requires
        only_filled(before, after),
        ids_within(queue, before.len()),
    ensures
        skip_dead(queue, after) == skip_dead(skip_dead(queue, before), after),
    decreases queue.len(),
{
    if queue.len() > 0 && before[queue[0] - 1].size == 0 {
        let rest = queue.drop_first();
        assert forall|k: int| 0 <= k < rest.len() implies 1 <= #[trigger] rest[k]
            <= before.len() by {
            assert(rest[k] == queue[k + 1]);
        }
        lemma_skip_dead_after_fills(rest, before, after);
        assert(after[queue[0] - 1].size == 0);
    }
}

/// Filling orders does not disturb a walk in progress.
pub proof fn lemma_walking_fills(
    start: Seq<Seq<OrderId>>,
    levels: Seq<Seq<OrderId>>,
    before: Seq<OrderView>,
    after: Seq<OrderView>,
    lo: int,
    hi: int,
    cur: int,
)
    requires
        walking(start, levels, before, lo, hi, cur),
        only_filled(before, after),
        forall|q: int| 0 <= q < start.len() ==> ids_within(#[trigger] start[q], before.len()),
        forall|q: int| 0 <= q < levels.len() ==> ids_within(#[trigger] levels[q], before.len()),
    ensures
        walking(start, levels, after, lo, hi, cur),
{
    assert forall|q: int| 0 <= q < levels.len() && lo <= q <= hi implies (#[trigger] levels[q]).len()
        == 0 && skip_dead(start[q], after).len() == 0 by {
        assert(levels[q].len() == 0);
        assert(ids_within(start[q], before.len()));
        lemma_skip_dead_after_fills(start[q], before, after);
        assert(skip_dead(start[q], before) =~= Seq::<OrderId>::empty());
    }
    if 0 <= cur < levels.len() {
        assert(ids_within(start[cur], before.len()));
        assert(ids_within(levels[cur], before.len()));
        lemma_skip_dead_after_fills(start[cur], before, after);
        lemma_skip_dead_after_fills(levels[cur], before, after);
    }
}

/// Dropping the dead front of the level being looked at does not disturb
/// the walk.
pub proof fn lemma_walking_purge(
    start: Seq<Seq<OrderId>>,
    levels: Seq<Seq<OrderId>>,
    orders: Seq<OrderView>,
    lo: int,
    hi: int,
    cur: int,
)
    requires
        walking(start, levels, orders, lo, hi, cur),
        0 <= cur < levels.len(),
        !(lo <= cur <= hi),
        ids_within(levels[cur], orders.len()),
    ensures
        walking(start, levels.update(cur, skip_dead(levels[cur], orders)), orders, lo, hi, cur),
        skip_dead(levels[cur], orders) == skip_dead(start[cur], orders),
{
    let purged = levels.update(cur, skip_dead(levels[cur], orders));
    lemma_skip_dead_after_fills(levels[cur], orders, orders);
    assert forall|q: int| 0 <= q < purged.len() && lo <= q <= hi implies (#[trigger] purged[q]).len()
        == 0 && skip_dead(start[q], orders).len() == 0 by {
        assert(purged[q] == levels[q]);
    }
    assert forall|q: int| 0 <= q < purged.len() && !(lo <= q <= hi) && q != cur implies #[trigger] purged[q]
        == start[q] by {
        assert(purged[q] == levels[q]);
    }
}

} // verus!
