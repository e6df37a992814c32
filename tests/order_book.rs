use exchange_core::order_book::{
    CancellingError, ChangeOrderVolumeError, Deal, Order, OrderBook, SetupError, Side,
};

struct TestCase {
    initial_orders: Vec<Order>,
    placed_order: Order,
    expected_deals: Vec<Deal>,
    remaining_buys: Vec<Order>,
    remaining_sells: Vec<Order>,
}

impl TestCase {
    fn run(self) {
        let mut book = OrderBook::new_with_orders(self.initial_orders).unwrap();
        let deals = book.place(self.placed_order).unwrap();
        let buys: Vec<Order> = book.buy_orders();
        let sells: Vec<Order> = book.sell_orders();
        assert_eq!(deals, self.expected_deals);
        assert_eq!(buys, self.remaining_buys);
        assert_eq!(sells, self.remaining_sells);
    }
}

fn buy(price: u64, volume: u64) -> Order {
    Order::new(Side::Buy, price, volume)
}

fn sell(price: u64, volume: u64) -> Order {
    Order::new(Side::Sell, price, volume)
}

fn with_volume(mut order: Order, volume: u64) -> Order {
    order.volume = volume;
    order
}

#[test]
fn place_sell_order_and_fill_it_fully() {
    let initial_orders = vec![buy(5200, 3), buy(5100, 12), buy(4700, 10)];
    let placed_order = sell(4800, 15);
    let expected_deals = vec![
        Deal { taker_order: placed_order, maker_order: initial_orders[0], volume: 3 },
        Deal {
            taker_order: with_volume(placed_order, 12),
            maker_order: initial_orders[1],
            volume: 12,
        },
    ];
    let remaining_sells = vec![];
    let remaining_buys = vec![initial_orders[2]];

    TestCase { placed_order, initial_orders, expected_deals, remaining_buys, remaining_sells }.run()
}

#[test]
fn place_sell_order_and_fill_it_partially() {
    let initial_orders = vec![buy(5200, 3), buy(5100, 11), buy(4700, 10)];
    let placed_order = sell(4800, 15);
    let expected_deals = vec![
        Deal { taker_order: placed_order, maker_order: initial_orders[0], volume: 3 },
        Deal {
            taker_order: with_volume(placed_order, 12),
            maker_order: initial_orders[1],
            volume: 11,
        },
    ];
    let remaining_sells = vec![with_volume(placed_order, 1)];
    let remaining_buys = vec![initial_orders[2]];

    TestCase { placed_order, initial_orders, expected_deals, remaining_buys, remaining_sells }.run()
}

#[test]
fn place_sell_order_and_fill_it_partially_exceeding_buys() {
    let maker_order = buy(5000, 9);
    let placed_order = sell(4800, 10);
    let expected_deals = vec![Deal { taker_order: placed_order, maker_order, volume: 9 }];
    let remaining_sells = vec![with_volume(placed_order, 1)];
    let remaining_buys = vec![];

    TestCase {
        initial_orders: vec![maker_order],
        placed_order,
        expected_deals,
        remaining_buys,
        remaining_sells,
    }
    .run()
}

#[test]
fn place_sell_order_without_filling() {
    let initial_buys = vec![buy(5200, 3), buy(5100, 12), buy(4700, 10)];
    let initial_sells = vec![sell(5300, 100), sell(5350, 200), sell(5400, 300)];
    let mut initial_orders = initial_buys.clone();
    initial_orders.extend(initial_sells.iter().cloned());

    let placed_order = sell(5250, 15);
    let remaining_buys = initial_buys;
    let remaining_sells =
        vec![placed_order, initial_sells[0], initial_sells[1], initial_sells[2]];

    TestCase {
        placed_order,
        initial_orders,
        expected_deals: vec![],
        remaining_buys,
        remaining_sells,
    }
    .run()
}

#[test]
fn place_buy_order_and_fill_it_partially_exceeding_sells() {
    let maker_order = sell(4500, 7);
    let placed_order = buy(4900, 20);
    let expected_deals = vec![Deal { taker_order: placed_order, maker_order, volume: 7 }];
    let remaining_buys = vec![with_volume(placed_order, 13)];
    let remaining_sells = vec![];

    TestCase {
        initial_orders: vec![maker_order],
        placed_order,
        expected_deals,
        remaining_buys,
        remaining_sells,
    }
    .run()
}

#[test]
fn place_buy_order_and_fill_it_partially_by_better_price() {
    let initial_orders = vec![sell(4500, 7), sell(4800, 3), sell(5100, 30)];
    let placed_order = buy(4900, 20);
    let expected_deals = vec![
        Deal { taker_order: placed_order, maker_order: initial_orders[0], volume: 7 },
        Deal {
            taker_order: with_volume(placed_order, 13),
            maker_order: initial_orders[1],
            volume: 3,
        },
    ];
    let remaining_sells = vec![initial_orders[2]];
    let remaining_buys = vec![with_volume(placed_order, 10)];

    TestCase { placed_order, initial_orders, expected_deals, remaining_buys, remaining_sells }.run()
}

#[test]
fn place_buy_order_and_fill_it_partially_by_better_price_exceeding_sells() {
    let initial_orders = vec![sell(4500, 7), sell(4800, 3)];
    let placed_order = buy(4900, 20);
    let expected_deals = vec![
        Deal { taker_order: placed_order, maker_order: initial_orders[0], volume: 7 },
        Deal {
            taker_order: with_volume(placed_order, 13),
            maker_order: initial_orders[1],
            volume: 3,
        },
    ];
    let remaining_sells = vec![];
    let remaining_buys = vec![with_volume(placed_order, 10)];

    TestCase { placed_order, initial_orders, expected_deals, remaining_buys, remaining_sells }.run()
}

fn fixed(id: u128, side: Side, price: u64, volume: u64) -> Order {
    Order { id, side, price, volume }
}

#[test]
fn opposite_side() {
    assert_eq!(Side::Buy.opposite(), Side::Sell);
    assert_eq!(Side::Sell.opposite(), Side::Buy);
}

#[test]
fn new_orders_get_distinct_ids() {
    let a = buy(100, 1);
    let b = buy(100, 1);
    assert_ne!(a.id, b.id);
    assert_eq!(a.side, Side::Buy);
    assert_eq!(a.price, 100);
    assert_eq!(a.volume, 1);
}

#[test]
fn same_price_fills_in_arrival_order() {
    let first = fixed(1, Side::Sell, 100, 5);
    let second = fixed(2, Side::Sell, 100, 5);
    let third = fixed(3, Side::Sell, 100, 5);
    let mut book = OrderBook::new_with_orders(vec![first, second, third]).unwrap();
    let taker = fixed(4, Side::Buy, 100, 7);
    let deals = book.place(taker).unwrap();
    assert_eq!(deals.len(), 2);
    assert_eq!(deals[0].maker_order, first);
    assert_eq!(deals[0].volume, 5);
    assert_eq!(deals[1].maker_order, second);
    assert_eq!(deals[1].volume, 2);
    assert_eq!(book.sell_orders(), vec![with_volume(second, 3), third]);
    assert!(book.get_order(1).is_none());
}

#[test]
fn same_price_buys_fill_in_arrival_order() {
    let first = fixed(1, Side::Buy, 100, 4);
    let second = fixed(2, Side::Buy, 100, 4);
    let mut book = OrderBook::new_with_orders(vec![first, second]).unwrap();
    let deals = book.place(fixed(3, Side::Sell, 90, 6)).unwrap();
    assert_eq!(deals[0].maker_order, first);
    assert_eq!(deals[1].maker_order, second);
    assert_eq!(deals[1].volume, 2);
    assert_eq!(book.buy_orders(), vec![with_volume(second, 2)]);
}

#[test]
fn sell_touches_highest_bid_first() {
    let low = fixed(1, Side::Buy, 90, 5);
    let high = fixed(2, Side::Buy, 110, 5);
    let mid = fixed(3, Side::Buy, 100, 5);
    let mut book = OrderBook::new_with_orders(vec![low, high, mid]).unwrap();
    let deals = book.place(fixed(4, Side::Sell, 95, 1)).unwrap();
    assert_eq!(deals.len(), 1);
    assert_eq!(deals[0].maker_order, high);
    assert_eq!(book.buy_orders(), vec![with_volume(high, 4), mid, low]);
}

#[test]
fn buy_touches_lowest_ask_first() {
    let a = fixed(1, Side::Sell, 120, 5);
    let b = fixed(2, Side::Sell, 100, 5);
    let mut book = OrderBook::new_with_orders(vec![a, b]).unwrap();
    let deals = book.place(fixed(3, Side::Buy, 130, 1)).unwrap();
    assert_eq!(deals[0].maker_order, b);
}

#[test]
fn deal_volumes_and_rest_add_up() {
    let mut book = OrderBook::new_with_orders(vec![
        fixed(1, Side::Sell, 10, 3),
        fixed(2, Side::Sell, 11, 4),
        fixed(3, Side::Sell, 12, 5),
    ])
    .unwrap();
    let taker = fixed(4, Side::Buy, 11, 10);
    let deals = book.place(taker).unwrap();
    let traded: u64 = deals.iter().map(|d| d.volume).sum();
    let rest = book.get_order(4).unwrap().volume;
    assert_eq!(traded + rest, 10);
    assert_eq!(rest, 3);
    for d in &deals {
        assert_eq!(d.volume, d.maker_order.volume.min(d.taker_order.volume));
    }
    assert_eq!(book.sell_orders(), vec![fixed(3, Side::Sell, 12, 5)]);
}

#[test]
fn resting_sides_never_cross() {
    let mut book = OrderBook::new();
    book.place(fixed(1, Side::Buy, 100, 5)).unwrap();
    book.place(fixed(2, Side::Sell, 105, 5)).unwrap();
    book.place(fixed(3, Side::Buy, 106, 7)).unwrap();
    let buys = book.buy_orders();
    let sells = book.sell_orders();
    assert!(sells.is_empty() || buys[0].price < sells[0].price);
    assert_eq!(buys, vec![fixed(3, Side::Buy, 106, 2), fixed(1, Side::Buy, 100, 5)]);
}

#[test]
fn exact_fill_removes_both() {
    let mut book = OrderBook::new_with_orders(vec![fixed(1, Side::Buy, 50, 8)]).unwrap();
    let deals = book.place(fixed(2, Side::Sell, 50, 8)).unwrap();
    assert_eq!(deals.len(), 1);
    assert_eq!(deals[0].volume, 8);
    assert!(book.buy_orders().is_empty());
    assert!(book.sell_orders().is_empty());
    assert!(book.get_order(1).is_none());
    assert!(book.get_order(2).is_none());
}

#[test]
fn empty_book_rests_order() {
    let mut book = OrderBook::default();
    let deals = book.place(fixed(1, Side::Sell, 7, 2)).unwrap();
    assert!(deals.is_empty());
    assert_eq!(book.get_order(1), Some(&fixed(1, Side::Sell, 7, 2)));
}

#[test]
fn cancel_removes_exactly_one() {
    let a = fixed(1, Side::Buy, 100, 5);
    let b = fixed(2, Side::Buy, 101, 6);
    let c = fixed(3, Side::Sell, 200, 7);
    let mut book = OrderBook::new_with_orders(vec![a, b, c]).unwrap();
    assert_eq!(book.cancel_order(2), Ok(()));
    assert!(book.get_order(2).is_none());
    assert_eq!(book.get_order(1), Some(&a));
    assert_eq!(book.get_order(3), Some(&c));
    assert_eq!(book.buy_orders(), vec![a]);
    assert_eq!(book.cancel_order(2), Err(CancellingError::OrderNotFound));
}

#[test]
fn change_volume_keeps_priority() {
    let a = fixed(1, Side::Sell, 100, 5);
    let b = fixed(2, Side::Sell, 100, 5);
    let mut book = OrderBook::new_with_orders(vec![a, b]).unwrap();
    assert_eq!(book.change_order_volume(1, 9), Ok(()));
    assert_eq!(book.get_order(1), Some(&with_volume(a, 9)));
    assert_eq!(book.sell_orders(), vec![with_volume(a, 9), b]);
    let deals = book.place(fixed(3, Side::Buy, 100, 1)).unwrap();
    assert_eq!(deals[0].maker_order, with_volume(a, 9));
}

#[test]
fn change_volume_errors() {
    let mut book = OrderBook::new_with_orders(vec![fixed(1, Side::Buy, 10, 1)]).unwrap();
    assert_eq!(book.change_order_volume(1, 0), Err(ChangeOrderVolumeError::ZeroVolume));
    assert_eq!(book.change_order_volume(9, 4), Err(ChangeOrderVolumeError::OrderNotFound));
    assert_eq!(book.get_order(1), Some(&fixed(1, Side::Buy, 10, 1)));
}

#[test]
fn new_with_crossing_orders_fails() {
    let r = OrderBook::new_with_orders(vec![
        fixed(1, Side::Buy, 100, 1),
        fixed(2, Side::Sell, 100, 1),
    ]);
    assert_eq!(r.err(), Some(SetupError::OrdersMatch));
}

#[test]
fn new_and_next_sequence() {
    let mut book = OrderBook::new();
    assert_eq!(book.next_seq_id(), 0);
    book.place(fixed(1, Side::Buy, 1, 1)).unwrap();
    assert_eq!(book.next_seq_id(), 1);
    book.place(fixed(2, Side::Sell, 1, 1)).unwrap();
    assert_eq!(book.next_seq_id(), 1);
}

#[test]
fn extreme_prices_keep_order() {
    let top = fixed(1, Side::Buy, u64::MAX, 1);
    let bottom = fixed(2, Side::Buy, 0, 1);
    let mut book = OrderBook::new_with_orders(vec![bottom, top]).unwrap();
    assert_eq!(book.buy_orders(), vec![top, bottom]);
    let deals = book.place(fixed(3, Side::Sell, u64::MAX, 5)).unwrap();
    assert_eq!(deals.len(), 1);
    assert_eq!(deals[0].maker_order, top);
    assert_eq!(book.buy_orders(), vec![bottom]);
    assert_eq!(book.sell_orders(), vec![fixed(3, Side::Sell, u64::MAX, 4)]);
}

#[test]
fn largest_volume_taker() {
    let mut book = OrderBook::new_with_orders(vec![
        fixed(1, Side::Sell, 5, u64::MAX - 1),
        fixed(2, Side::Sell, 6, 1),
    ])
    .unwrap();
    let deals = book.place(fixed(3, Side::Buy, 6, u64::MAX)).unwrap();
    assert_eq!(deals.len(), 2);
    assert_eq!(deals[0].volume, u64::MAX - 1);
    assert_eq!(deals[1].taker_order.volume, 1);
    assert_eq!(deals[1].volume, 1);
    assert!(book.sell_orders().is_empty());
    assert!(book.buy_orders().is_empty());
}
