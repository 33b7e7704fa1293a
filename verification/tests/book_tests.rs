use matching_engine::engine::Engine;
use matching_engine::score::{feed, playback};
use matching_engine::types::{is_ask, Execution, Order};

fn order(trader: &str, side: bool, price: u16, size: u64) -> Order {
    Order { symbol: String::from("JPM"), trader: String::from(trader), side, price, size }
}

fn ask(trader: &str, price: u16, size: u64) -> Order {
    order(trader, true, price, size)
}

fn bid(trader: &str, price: u16, size: u64) -> Order {
    order(trader, false, price, size)
}

fn exec(trader: &str, side: bool, price: u16, size: u64) -> Execution {
    order(trader, side, price, size)
}

fn traded_total(engine: &Engine) -> u64 {
    let mut total = 0;
    let mut i = 0;
    while i < engine.execution_log.len() {
        total += engine.execution_log[i].size;
        i += 2;
    }
    total
}

#[test]
fn full_cross_leaves_nothing() {
    let mut engine = Engine::new();
    assert_eq!(engine.limit_order(ask("A", 101, 100)), 1);
    assert_eq!(engine.limit_order(bid("B", 101, 100)), 2);
    assert_eq!(engine.execution_log, vec![exec("B", false, 101, 100), exec("A", true, 101, 100)]);
    // Nothing is left on either side.
    engine.limit_order(bid("C", 101, 10));
    engine.limit_order(ask("D", 102, 10));
    assert_eq!(engine.execution_log.len(), 2);
}

#[test]
fn partial_fill_leaves_resting_remainder() {
    let mut engine = Engine::new();
    engine.limit_order(ask("A", 101, 100));
    engine.limit_order(bid("B", 101, 50));
    assert_eq!(engine.execution_log, vec![exec("B", false, 101, 50), exec("A", true, 101, 50)]);
    engine.limit_order(bid("C", 101, 50));
    assert_eq!(engine.execution_log.len(), 4);
    assert_eq!(engine.execution_log[2], exec("C", false, 101, 50));
    assert_eq!(engine.execution_log[3], exec("A", true, 101, 50));
    // The ask is used up and no new ask has appeared.
    engine.limit_order(bid("D", 101, 50));
    assert_eq!(engine.execution_log.len(), 4);
}

#[test]
fn cancel_removes_liquidity() {
    let mut engine = Engine::new();
    let id = engine.limit_order(ask("A", 101, 25));
    engine.cancel(id);
    engine.limit_order(bid("B", 101, 25));
    assert_eq!(engine.execution_log.len(), 0);
    // The bid now rests and meets the next ask.
    engine.limit_order(ask("C", 101, 25));
    assert_eq!(engine.execution_log, vec![exec("C", true, 101, 25), exec("B", false, 101, 25)]);
}

#[test]
fn cancel_is_idempotent() {
    let mut engine = Engine::new();
    let first = engine.limit_order(ask("A", 101, 25));
    let second = engine.limit_order(ask("B", 101, 40));
    engine.cancel(first);
    engine.cancel(first);
    engine.cancel(0);
    engine.cancel(3);
    engine.cancel(u64::MAX);
    engine.limit_order(bid("C", 101, 100));
    assert_eq!(second, 2);
    assert_eq!(engine.execution_log, vec![exec("C", false, 101, 40), exec("B", true, 101, 40)]);
}

#[test]
fn cancel_of_filled_order_changes_nothing() {
    let mut engine = Engine::new();
    let a = engine.limit_order(ask("A", 101, 10));
    let b = engine.limit_order(bid("B", 101, 10));
    engine.cancel(a);
    engine.cancel(b);
    assert_eq!(engine.execution_log.len(), 2);
    assert_eq!(engine.limit_order(ask("C", 101, 10)), 3);
    engine.limit_order(bid("D", 101, 10));
    assert_eq!(engine.execution_log.len(), 4);
    assert_eq!(engine.execution_log[3], exec("C", true, 101, 10));
}

#[test]
fn cancel_of_partly_filled_order_removes_the_rest() {
    let mut engine = Engine::new();
    let a = engine.limit_order(ask("A", 101, 100));
    engine.limit_order(bid("B", 101, 30));
    engine.cancel(a);
    engine.limit_order(bid("C", 101, 70));
    assert_eq!(engine.execution_log.len(), 2);
    assert_eq!(engine.execution_log[0].size, 30);
}

#[test]
fn ids_count_up_from_one() {
    let mut engine = Engine::new();
    assert_eq!(engine.limit_order(ask("A", 500, 10)), 1);
    assert_eq!(engine.limit_order(bid("B", 20, 10)), 2);
    // Filled on arrival: still gets the next id.
    assert_eq!(engine.limit_order(bid("C", 500, 10)), 3);
    engine.cancel(2);
    engine.cancel(99);
    assert_eq!(engine.limit_order(ask("D", 65535, 1)), 4);
    assert_eq!(engine.limit_order(bid("E", 0, 1)), 5);
    assert_eq!(engine.limit_order(bid("F", 7, 0)), 6);
    assert_eq!(engine.limit_order(ask("G", 7, 3)), 7);
}

#[test]
fn lower_ask_matches_first() {
    let mut engine = Engine::new();
    engine.limit_order(ask("HIGH", 103, 10));
    engine.limit_order(ask("LOW", 101, 10));
    engine.limit_order(ask("MID", 102, 10));
    engine.limit_order(bid("B", 103, 25));
    assert_eq!(
        engine.execution_log,
        vec![
            exec("B", false, 101, 10),
            exec("LOW", true, 101, 10),
            exec("B", false, 102, 10),
            exec("MID", true, 102, 10),
            exec("B", false, 103, 5),
            exec("HIGH", true, 103, 5),
        ]
    );
}

#[test]
fn higher_bid_matches_first() {
    let mut engine = Engine::new();
    engine.limit_order(bid("LOW", 99, 10));
    engine.limit_order(bid("HIGH", 101, 10));
    engine.limit_order(bid("MID", 100, 10));
    engine.limit_order(ask("S", 99, 25));
    assert_eq!(
        engine.execution_log,
        vec![
            exec("S", true, 101, 10),
            exec("HIGH", false, 101, 10),
            exec("S", true, 100, 10),
            exec("MID", false, 100, 10),
            exec("S", true, 99, 5),
            exec("LOW", false, 99, 5),
        ]
    );
}

#[test]
fn earlier_order_matches_first_at_one_price() {
    let mut engine = Engine::new();
    engine.limit_order(bid("BRETT", 101, 25));
    engine.limit_order(bid("MAX", 101, 25));
    engine.limit_order(ask("MAX", 101, 25));
    assert_eq!(engine.execution_log, vec![exec("MAX", true, 101, 25), exec("BRETT", false, 101, 25)]);
    engine.limit_order(ask("ANN", 101, 25));
    assert_eq!(engine.execution_log[2], exec("ANN", true, 101, 25));
    assert_eq!(engine.execution_log[3], exec("MAX", false, 101, 25));
}

#[test]
fn partly_filled_order_keeps_its_place() {
    let mut engine = Engine::new();
    engine.limit_order(ask("FIRST", 101, 30));
    engine.limit_order(ask("SECOND", 101, 30));
    engine.limit_order(bid("B1", 101, 10));
    engine.limit_order(bid("B2", 101, 30));
    assert_eq!(
        engine.execution_log,
        vec![
            exec("B1", false, 101, 10),
            exec("FIRST", true, 101, 10),
            exec("B2", false, 101, 20),
            exec("FIRST", true, 101, 20),
            exec("B2", false, 101, 10),
            exec("SECOND", true, 101, 10),
        ]
    );
}

#[test]
fn trade_quantity_is_the_smaller_remainder() {
    let mut engine = Engine::new();
    engine.limit_order(ask("A", 101, 70));
    engine.limit_order(ask("B", 101, 20));
    engine.limit_order(bid("C", 101, 100));
    assert_eq!(engine.execution_log.len(), 4);
    assert_eq!(engine.execution_log[0].size, 70);
    assert_eq!(engine.execution_log[1].size, 70);
    assert_eq!(engine.execution_log[2].size, 20);
    assert_eq!(engine.execution_log[3].size, 20);
    assert_eq!(traded_total(&engine), 90);
    // The 10 left of the bid rest at 101.
    engine.limit_order(ask("D", 101, 50));
    assert_eq!(engine.execution_log[4], exec("D", true, 101, 10));
    assert_eq!(engine.execution_log[5], exec("C", false, 101, 10));
    assert_eq!(traded_total(&engine), 100);
}

#[test]
fn execution_price_is_the_resting_price() {
    let mut engine = Engine::new();
    engine.limit_order(ask("A", 101, 10));
    engine.limit_order(bid("B", 105, 10));
    assert_eq!(engine.execution_log, vec![exec("B", false, 101, 10), exec("A", true, 101, 10)]);
    engine.limit_order(bid("C", 200, 10));
    engine.limit_order(ask("D", 150, 4));
    assert_eq!(engine.execution_log[2], exec("D", true, 200, 4));
    assert_eq!(engine.execution_log[3], exec("C", false, 200, 4));
}

#[test]
fn no_trade_when_prices_do_not_meet() {
    let mut engine = Engine::new();
    engine.limit_order(ask("A", 102, 10));
    engine.limit_order(bid("B", 101, 10));
    engine.limit_order(ask("C", 103, 10));
    engine.limit_order(bid("D", 100, 10));
    assert_eq!(engine.execution_log.len(), 0);
}

#[test]
fn walk_passes_cancelled_and_empty_levels() {
    let mut engine = Engine::new();
    let a = engine.limit_order(ask("A", 101, 10));
    let b = engine.limit_order(ask("B", 101, 10));
    engine.limit_order(ask("C", 300, 10));
    engine.cancel(a);
    engine.cancel(b);
    engine.limit_order(bid("D", 300, 15));
    assert_eq!(engine.execution_log, vec![exec("D", false, 300, 10), exec("C", true, 300, 10)]);
    // What is left of the bid rests at 300 and is found by a low ask.
    engine.limit_order(ask("E", 1, 5));
    assert_eq!(engine.execution_log[2], exec("E", true, 300, 5));
    assert_eq!(engine.execution_log[3], exec("D", false, 300, 5));
}

#[test]
fn cancelled_order_in_the_middle_is_skipped() {
    let mut engine = Engine::new();
    engine.limit_order(bid("A", 50, 5));
    let b = engine.limit_order(bid("B", 50, 5));
    engine.limit_order(bid("C", 50, 5));
    engine.cancel(b);
    engine.limit_order(ask("S", 50, 10));
    assert_eq!(
        engine.execution_log,
        vec![
            exec("S", true, 50, 5),
            exec("A", false, 50, 5),
            exec("S", true, 50, 5),
            exec("C", false, 50, 5),
        ]
    );
}

#[test]
fn extreme_prices_rest_and_match() {
    let mut engine = Engine::new();
    engine.limit_order(bid("LOW", 0, 3));
    engine.limit_order(ask("HIGH", 65535, 4));
    assert_eq!(engine.execution_log.len(), 0);
    engine.limit_order(ask("S", 0, 3));
    engine.limit_order(bid("B", 65535, 4));
    assert_eq!(
        engine.execution_log,
        vec![
            exec("S", true, 0, 3),
            exec("LOW", false, 0, 3),
            exec("B", false, 65535, 4),
            exec("HIGH", true, 65535, 4),
        ]
    );
    // Both boundaries have moved past every level; new orders still rest.
    engine.limit_order(bid("B2", 10, 1));
    engine.limit_order(ask("S2", 10, 1));
    assert_eq!(engine.execution_log[4], exec("S2", true, 10, 1));
    assert_eq!(engine.execution_log[5], exec("B2", false, 10, 1));
}

#[test]
fn order_without_quantity_neither_trades_nor_rests() {
    let mut engine = Engine::new();
    engine.limit_order(ask("A", 101, 10));
    assert_eq!(engine.limit_order(bid("B", 101, 0)), 2);
    assert_eq!(engine.execution_log.len(), 0);
    assert_eq!(engine.limit_order(ask("C", 90, 0)), 3);
    engine.limit_order(bid("D", 101, 10));
    assert_eq!(engine.execution_log, vec![exec("D", false, 101, 10), exec("A", true, 101, 10)]);
}

#[test]
fn sweep_finds_every_live_order() {
    let mut engine = Engine::new();
    let mut live: u64 = 0;
    let mut n: u64 = 0;
    while n < 40 {
        let price = 100 + (n % 7) as u16;
        let size = 1 + n;
        let id = engine.limit_order(ask("A", price, size));
        if n % 3 == 0 {
            engine.cancel(id);
        } else {
            live += size;
        }
        n += 1;
    }
    // Take part of the book, then the rest.
    engine.limit_order(bid("B", 103, 200));
    let first = traded_total(&engine);
    assert!(first <= 200);
    engine.limit_order(bid("C", 65535, u64::MAX));
    assert_eq!(traded_total(&engine), live);
    // Nothing is left to sell.
    let before = engine.execution_log.len();
    engine.limit_order(ask("D", 0, 5));
    assert_eq!(engine.execution_log.len(), before + 2);
    assert_eq!(engine.execution_log[before + 1].trader, "C");
}

#[test]
fn executions_come_in_pairs_of_equal_size() {
    let mut engine = Engine::new();
    engine.limit_order(bid("A", 10, 7));
    engine.limit_order(bid("B", 12, 9));
    engine.limit_order(bid("C", 11, 2));
    engine.limit_order(ask("S", 10, 15));
    assert_eq!(engine.execution_log.len(), 6);
    let mut i = 0;
    let mut total = 0;
    while i < engine.execution_log.len() {
        let taker = &engine.execution_log[i];
        let maker = &engine.execution_log[i + 1];
        assert_eq!(taker.size, maker.size);
        assert_eq!(taker.price, maker.price);
        assert_eq!(taker.side, !maker.side);
        assert_eq!(taker.trader, "S");
        assert!(taker.price >= 10);
        total += taker.size;
        i += 2;
    }
    assert_eq!(total, 15);
    assert_eq!(engine.execution_log[1].trader, "B");
    assert_eq!(engine.execution_log[3].trader, "C");
    assert_eq!(engine.execution_log[5].trader, "A");
    assert_eq!(engine.execution_log[5].size, 4);
}

#[test]
fn new_debug_starts_empty_and_records() {
    let mut engine = Engine::new_debug();
    assert_eq!(engine.execution_log.len(), 0);
    assert_eq!(engine.limit_order(ask("A", 101, 100)), 1);
    assert_eq!(engine.limit_order(bid("B", 101, 100)), 2);
    assert_eq!(engine.execution_log.len(), 2);
}

#[test]
fn is_ask_tells_the_sides_apart() {
    assert!(is_ask(true));
    assert!(!is_ask(false));
}

#[test]
fn orders_compare_field_by_field() {
    let a = ask("A", 101, 10);
    assert!(a == a.clone());
    assert!(a != ask("B", 101, 10));
    assert!(a != bid("A", 101, 10));
    assert!(a != ask("A", 102, 10));
    assert!(a != ask("A", 101, 11));
    let mut other = a.clone();
    other.symbol = String::from("IBM");
    assert!(a != other);
}

#[test]
fn feed_treats_price_zero_as_cancel() {
    let flow = vec![
        ask("A", 101, 25),
        ask("B", 101, 30),
        order("X", false, 0, 1),
        bid("C", 101, 40),
    ];
    let mut engine = Engine::new();
    feed(0, flow.len(), &mut engine, &flow);
    assert_eq!(engine.execution_log, vec![exec("C", false, 101, 30), exec("B", true, 101, 30)]);
    // The cancel took no id: the next order is the fourth.
    assert_eq!(engine.limit_order(ask("D", 200, 1)), 4);
}

#[test]
fn feed_sends_only_the_given_range() {
    let flow = vec![ask("A", 101, 25), bid("B", 101, 10), bid("C", 101, 10), bid("D", 101, 10)];
    let mut engine = Engine::new();
    feed(0, 2, &mut engine, &flow);
    assert_eq!(engine.execution_log.len(), 2);
    feed(2, 2, &mut engine, &flow);
    feed(3, 1, &mut engine, &flow);
    assert_eq!(engine.execution_log.len(), 2);
    feed(2, 4, &mut engine, &flow);
    assert_eq!(engine.execution_log.len(), 6);
    assert_eq!(engine.execution_log[5], exec("A", true, 101, 5));
}

#[test]
fn playback_equals_sending_one_by_one() {
    let mut flow = Vec::new();
    let mut n: u64 = 0;
    while n < 57 {
        let side = n % 2 == 0;
        let price = 100 + (n % 5) as u16;
        if n % 11 == 10 {
            flow.push(order("X", false, 0, n / 2));
        } else {
            flow.push(order("T", side, price, 1 + n % 4));
        }
        n += 1;
    }
    let played = playback(&flow);
    let mut engine = Engine::new();
    for msg in &flow {
        if msg.price == 0 {
            engine.cancel(msg.size);
        } else {
            engine.limit_order(msg.clone());
        }
    }
    assert!(played.execution_log.len() > 0);
    assert_eq!(played.execution_log, engine.execution_log);
    let empty = playback(&Vec::new());
    assert_eq!(empty.execution_log.len(), 0);
}
