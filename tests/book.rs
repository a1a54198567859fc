use orderbook::book::OrderBook;
use orderbook::notice::{Event, Message};
use orderbook::orders::{LimitOrder, MarketOrder, MarketSide, Orders, Timestamp};

const T: Timestamp = Timestamp { micros: 1_700_000_000_000_000 };

fn limit(side: MarketSide, price: usize, size: usize, client: u64) -> Orders {
    Orders::Limit(LimitOrder::new(T, size, 0, side, price, client))
}

fn market(side: MarketSide, size: usize, client: u64) -> Orders {
    Orders::Market(MarketOrder::new(T, size, 0, side, client))
}

fn market_filled(events: &[Event]) -> usize {
    events
        .iter()
        .map(|e| match e {
            Event::Notify { message: Message::FilledAt { filled, .. }, .. } => *filled,
            _ => 0,
        })
        .sum()
}

fn resting_filled(events: &[Event]) -> usize {
    events
        .iter()
        .map(|e| match e {
            Event::Notify { message: Message::Filled { filled, .. }, .. } => *filled,
            _ => 0,
        })
        .sum()
}

#[test]
fn new_book_is_empty() {
    let book = OrderBook::new();
    assert_eq!(book.get_best_bid(), None);
    assert_eq!(book.get_best_ask(), None);
    assert_eq!(book.dump(), "OrderBook:\nBids:\nAsks:\n");
}

#[test]
fn best_bid_and_best_ask() {
    let mut book = OrderBook::new();
    for p in [100, 105, 98] {
        assert!(book.handle_order(limit(MarketSide::Bid, p, 1, 1)).is_empty());
    }
    for p in [110, 108, 115] {
        assert!(book.handle_order(limit(MarketSide::Ask, p, 1, 2)).is_empty());
    }
    assert_eq!(book.get_best_bid(), Some(105));
    assert_eq!(book.get_best_ask(), Some(108));
}

#[test]
fn insertion_appends_to_the_tail_of_its_level() {
    let mut book = OrderBook::new();
    book.add_order(LimitOrder::new(T, 3, 0, MarketSide::Bid, 100, 1));
    book.add_order(LimitOrder::new(T, 4, 0, MarketSide::Bid, 101, 2));
    book.add_order(LimitOrder::new(T, 5, 0, MarketSide::Bid, 100, 3));
    let level = book.resting_orders(MarketSide::Bid, 100);
    assert_eq!(level.len(), 2);
    assert_eq!(level[0].client(), 1);
    assert_eq!(level[1].client(), 3);
    assert!(book.resting_orders(MarketSide::Ask, 100).is_empty());
    assert!(book.resting_orders(MarketSide::Bid, 99).is_empty());
}

#[test]
fn earlier_order_at_a_price_is_consumed_first() {
    let mut book = OrderBook::new();
    book.handle_order(limit(MarketSide::Bid, 100, 3, 1));
    book.handle_order(limit(MarketSide::Bid, 100, 4, 2));
    let events = book.handle_order(market(MarketSide::Ask, 2, 9));
    assert_eq!(events.len(), 3);
    let level = book.resting_orders(MarketSide::Bid, 100);
    assert_eq!(level.len(), 2);
    assert_eq!((level[0].client(), level[0].fill_size()), (1, 2));
    assert_eq!((level[1].client(), level[1].fill_size()), (2, 0));

    book.handle_order(market(MarketSide::Ask, 3, 9));
    let level = book.resting_orders(MarketSide::Bid, 100);
    assert_eq!(level.len(), 1);
    assert_eq!((level[0].client(), level[0].fill_size()), (2, 2));
}

#[test]
fn better_price_trades_before_earlier_time() {
    let mut book = OrderBook::new();
    book.handle_order(limit(MarketSide::Ask, 110, 2, 1));
    book.handle_order(limit(MarketSide::Ask, 108, 2, 2));
    let events = book.handle_order(market(MarketSide::Bid, 3, 9));
    assert_eq!(
        events,
        vec![
            Event::Notify { client: 2, message: Message::Filled { filled: 2, requested: 2 } },
            Event::Notify {
                client: 9,
                message: Message::FilledAt { filled: 2, requested: 3, price: 108 },
            },
            Event::Trade { price: 108 },
            Event::Notify { client: 1, message: Message::Filled { filled: 1, requested: 2 } },
            Event::Notify {
                client: 9,
                message: Message::FilledAt { filled: 1, requested: 3, price: 110 },
            },
            Event::Trade { price: 110 },
        ]
    );
    assert_eq!(book.get_best_ask(), Some(110));
}

#[test]
fn partial_remainder_stays_at_the_front() {
    let mut book = OrderBook::new();
    book.handle_order(limit(MarketSide::Bid, 100, 10, 1));
    book.handle_order(limit(MarketSide::Bid, 100, 2, 2));
    book.handle_order(market(MarketSide::Ask, 4, 3));
    let level = book.resting_orders(MarketSide::Bid, 100);
    assert_eq!(level.len(), 2);
    assert_eq!(level[0].client(), 1);
    assert_eq!(level[0].fill_size(), 4);
    assert_eq!(level[0].size(), 10);
    assert_eq!(level[1].fill_size(), 0);
}

#[test]
fn single_order_partial_requeue() {
    let mut book = OrderBook::new();
    book.handle_order(limit(MarketSide::Bid, 100, 10, 1));
    book.handle_order(market(MarketSide::Ask, 4, 2));
    let level = book.resting_orders(MarketSide::Bid, 100);
    assert_eq!(level.len(), 1);
    assert_eq!((level[0].fill_size(), level[0].size()), (4, 10));
    assert_eq!(book.get_best_bid(), Some(100));
}

#[test]
fn unfilled_market_order_on_empty_side() {
    let mut book = OrderBook::new();
    book.handle_order(limit(MarketSide::Ask, 120, 3, 1));
    let before = book.dump();
    let events = book.handle_order(market(MarketSide::Ask, 5, 7));
    assert_eq!(
        events,
        vec![Event::Notify { client: 7, message: Message::Unfilled { remainder: 5, requested: 5 } }]
    );
    assert_eq!(book.dump(), before);
    match events[0] {
        Event::Notify { message, .. } => assert_eq!(message.text(), "Unfilled [5/5]"),
        _ => unreachable!(),
    }
}

#[test]
fn end_to_end_two_bids_one_market_ask() {
    let mut book = OrderBook::new();
    let (x, y, z) = (10, 11, 12);
    book.handle_order(limit(MarketSide::Bid, 100, 5, x));
    book.handle_order(limit(MarketSide::Bid, 100, 3, y));
    let events = book.handle_order(market(MarketSide::Ask, 6, z));
    assert_eq!(
        events,
        vec![
            Event::Notify { client: x, message: Message::Filled { filled: 5, requested: 5 } },
            Event::Notify {
                client: z,
                message: Message::FilledAt { filled: 5, requested: 6, price: 100 },
            },
            Event::Trade { price: 100 },
            Event::Notify { client: y, message: Message::Filled { filled: 1, requested: 3 } },
            Event::Notify {
                client: z,
                message: Message::FilledAt { filled: 1, requested: 6, price: 100 },
            },
            Event::Trade { price: 100 },
        ]
    );
    assert_eq!(market_filled(&events), 6);
    let texts: Vec<String> = events
        .iter()
        .filter_map(|e| match e {
            Event::Notify { message, .. } => Some(message.text()),
            _ => None,
        })
        .collect();
    assert_eq!(
        texts,
        vec![
            "Order filled [5/5]",
            "Order filled [5/6] at 100",
            "Order filled [1/3]",
            "Order filled [1/6] at 100",
        ]
    );
    let level = book.resting_orders(MarketSide::Bid, 100);
    assert_eq!(level.len(), 1);
    assert_eq!((level[0].client(), level[0].fill_size(), level[0].size()), (y, 1, 3));
}

#[test]
fn quantity_is_conserved() {
    let mut book = OrderBook::new();
    book.handle_order(limit(MarketSide::Ask, 101, 4, 1));
    book.handle_order(limit(MarketSide::Ask, 101, 2, 2));
    book.handle_order(limit(MarketSide::Ask, 103, 7, 3));
    let events = book.handle_order(market(MarketSide::Bid, 9, 4));
    assert_eq!(market_filled(&events), 9);
    assert_eq!(resting_filled(&events), 9);
    let rest = book.resting_orders(MarketSide::Ask, 103);
    assert_eq!(rest[0].size() - rest[0].fill_size(), 4);
    let events = book.handle_order(market(MarketSide::Bid, 10, 4));
    assert_eq!(market_filled(&events), 4);
    assert_eq!(resting_filled(&events), 4);
    assert_eq!(
        events.last(),
        Some(&Event::Notify { client: 4, message: Message::Unfilled { remainder: 6, requested: 10 } })
    );
}

#[test]
fn exact_fill_removes_the_order() {
    let mut book = OrderBook::new();
    book.handle_order(limit(MarketSide::Bid, 100, 5, 1));
    let events = book.handle_order(market(MarketSide::Ask, 5, 2));
    assert_eq!(events.len(), 3);
    assert_eq!(book.get_best_bid(), None);
    assert!(book.resting_orders(MarketSide::Bid, 100).is_empty());
}

#[test]
fn no_resting_order_is_over_filled() {
    let mut book = OrderBook::new();
    for (p, s) in [(100, 3), (100, 1), (99, 6), (98, 2)] {
        book.handle_order(limit(MarketSide::Bid, p, s, p as u64));
    }
    for s in [2, 3, 4] {
        book.handle_order(market(MarketSide::Ask, s, 0));
        for p in [98, 99, 100] {
            for o in book.resting_orders(MarketSide::Bid, p) {
                assert!(o.fill_size() < o.size());
            }
        }
    }
}

#[test]
fn drained_level_is_removed() {
    let mut book = OrderBook::new();
    book.handle_order(limit(MarketSide::Bid, 105, 2, 1));
    book.handle_order(limit(MarketSide::Bid, 100, 2, 2));
    book.handle_order(market(MarketSide::Ask, 2, 3));
    assert!(book.resting_orders(MarketSide::Bid, 105).is_empty());
    assert_eq!(book.get_best_bid(), Some(100));
    assert_eq!(book.dump(), "OrderBook:\nBids:\n  100 -> LimitOrder: size: 2, fill_size: 0 \nAsks:\n");
}

#[test]
fn market_order_already_filled_does_nothing() {
    let mut book = OrderBook::new();
    book.handle_order(limit(MarketSide::Ask, 50, 2, 1));
    let events = book.match_order(MarketOrder::new(T, 4, 4, MarketSide::Bid, 2));
    assert!(events.is_empty());
    assert_eq!(book.resting_orders(MarketSide::Ask, 50)[0].fill_size(), 0);
}

#[test]
fn dump_lists_levels_by_ascending_price() {
    let mut book = OrderBook::new();
    book.handle_order(limit(MarketSide::Bid, 100, 5, 1));
    book.handle_order(limit(MarketSide::Bid, 90, 2, 1));
    book.handle_order(limit(MarketSide::Bid, 100, 3, 1));
    book.handle_order(limit(MarketSide::Ask, 120, 1, 1));
    book.handle_order(limit(MarketSide::Ask, 110, 4, 1));
    assert_eq!(
        book.dump(),
        "OrderBook:\nBids:\n  90 -> LimitOrder: size: 2, fill_size: 0 \n  100 -> LimitOrder: size: 5, fill_size: 0 LimitOrder: size: 3, fill_size: 0 \nAsks:\n  110 -> LimitOrder: size: 4, fill_size: 0 \n  120 -> LimitOrder: size: 1, fill_size: 0 \n"
    );
}

#[test]
fn message_texts() {
    assert_eq!(Message::Filled { filled: 5, requested: 5 }.text(), "Order filled [5/5]");
    assert_eq!(
        Message::FilledAt { filled: 12, requested: 340, price: 10007 }.text(),
        "Order filled [12/340] at 10007"
    );
    assert_eq!(Message::Unfilled { remainder: 0, requested: 9 }.text(), "Unfilled [0/9]");
    assert_eq!(
        LimitOrder::new(T, 10, 4, MarketSide::Ask, 1, 1).text(),
        "LimitOrder: size: 10, fill_size: 4"
    );
}

#[test]
fn order_accessors() {
    let mut m = MarketOrder::new(T, 8, 1, MarketSide::Ask, 42);
    assert_eq!((m.size(), m.fill_size(), m.side(), m.client(), m.timestamp()), (8, 1, MarketSide::Ask, 42, T));
    m.set_fill_size(5);
    assert_eq!(m.fill_size(), 5);
    let mut l = LimitOrder::new(T, 9, 0, MarketSide::Bid, 77, 43);
    assert_eq!((l.size(), l.price(), l.side(), l.client(), l.timestamp()), (9, 77, MarketSide::Bid, 43, T));
    l.set_fill_size(3);
    assert_eq!(l.fill_size(), 3);
    assert_eq!(Orders::from(l), Orders::Limit(l));
    assert_eq!(Orders::from(m), Orders::Market(m));
    assert_eq!(MarketSide::Bid.opposite(), MarketSide::Ask);
}
