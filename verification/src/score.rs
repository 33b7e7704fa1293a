//! Replaying a recorded feed of messages through an engine.
//!
//! A feed is a sequence of records shaped like orders. A record whose price
//! is zero is a cancellation, and its size is the identifier to cancel; any
//! other record is a limit order.

use vstd::prelude::*;
use crate::book::{cancel, submit, BookView};
use crate::engine::Engine;
use crate::types::{order_views, Order, OrderView};

verus! {

/// The book after one message of the feed.
pub open spec fn apply(book: BookView, msg: OrderView) -> BookView {
    if msg.price == 0 {
        cancel(book, msg.size)
    } else {
        submit(book, msg)
    }
}

/// The book after the messages `msgs`, taken in order.
pub open spec fn replay(book: BookView, msgs: Seq<OrderView>) -> BookView
    decreases msgs.len(),
{
    if msgs.len() == 0 {
        book
    } else {
        apply(replay(book, msgs.drop_last()), msgs.last())
    }
}

/// Replaying two runs of messages one after the other is replaying their
/// concatenation.
pub proof fn lemma_replay_concat(book: BookView, a: Seq<OrderView>, b: Seq<OrderView>)
    ensures
        replay(replay(book, a), b) == replay(book, a + b),
    decreases b.len(),
{
    if b.len() == 0 {
        assert(a + b =~= a);
    } else {
        assert((a + b).drop_last() =~= a + b.drop_last());
        lemma_replay_concat(book, a, b.drop_last());
    }
}

/// Sends the messages `flow[begin..end]` to the engine, in order. An empty
/// or inverted range sends nothing.
pub fn feed(begin: usize, end: usize, engine: &mut Engine, flow: &Vec<Order>)
    requires
        old(engine).wf(),
        end <= flow.len(),
    ensures
        final(engine).wf(),
        begin <= end ==> final(engine)@ == replay(
            old(engine)@,
            order_views(flow@).subrange(begin as int, end as int),
        ),
        begin > end ==> final(engine)@ == old(engine)@,
{
    let mut idx: usize = begin;
    while idx < end
        invariant
            engine.wf(),
            end <= flow.len(),
            begin <= idx,
            begin <= end ==> idx <= end,
            begin <= end ==> engine@ == replay(
                old(engine)@,
                order_views(flow@).subrange(begin as int, idx as int),
            ),
            begin > end ==> engine@ == old(engine)@,
        decreases end - idx,
    {
        let ghost sent = order_views(flow@).subrange(begin as int, idx as int);
        let ghost more = order_views(flow@).subrange(begin as int, idx + 1);
        proof {
            assert(more.drop_last() =~= sent);
            assert(more.last() == flow[idx as int]@);
        }
        if flow[idx].price == 0 {
            engine.cancel(flow[idx].size);
        } else {
            engine.limit_order(flow[idx].clone());
        }
        idx += 1;
    }
}

/// Number of messages sent to the engine between two measurements.
pub const MSG_BATCH_SIZE: usize = 10;

/// Plays a whole feed through a fresh engine, batch by batch, and returns
/// the engine.
pub fn playback(flow: &Vec<Order>) -> (engine: Engine)
    ensures
        engine.wf(),
        engine@ == replay(
            BookView { orders: Seq::empty(), log: Seq::empty() },
            order_views(flow@),
        ),
{
    let mut engine = Engine::new();
    let mut batch: usize = 0;
    let ghost empty = engine@;
    while batch < flow.len()
        invariant
            engine.wf(),
            batch <= flow.len(),
            engine@ == replay(empty, order_views(flow@).subrange(0, batch as int)),
        decreases flow.len() - batch,
    {
        let end = if flow.len() - batch < MSG_BATCH_SIZE {
            flow.len()
        } else {
            batch + MSG_BATCH_SIZE
        };
        proof {
            lemma_replay_concat(
                empty,
                order_views(flow@).subrange(0, batch as int),
                order_views(flow@).subrange(batch as int, end as int),
            );
            assert(order_views(flow@).subrange(0, batch as int) + order_views(flow@).subrange(
                batch as int,
                end as int,
            ) =~= order_views(flow@).subrange(0, end as int));
        }
        feed(batch, end, &mut engine, flow);
        batch = end;
    }
    proof {
        assert(order_views(flow@).subrange(0, batch as int) =~= order_views(flow@));
    }
    engine
}

} // verus!
