use rainybook::{
    into_mbo_messages, Action, MarketByOrderMessage, MarketByPrice, MboProcessError, MboProcessor,
    Order, OrderBook, OrderBookError, OrderLevel, Side,
};

fn order(order_id: u64, side: Side, price: i64, size: u64) -> Order {
    Order {
        order_id,
        side,
        price,
        size,
    }
}

fn message(action: Action, side: Side, price: i64, order_id: u64, size: u32) -> MarketByOrderMessage {
    MarketByOrderMessage {
        action,
        side,
        price,
        order_id,
        size,
    }
}

#[test]
fn level_count_and_removal_walkthrough() {
    let mut book = OrderBook::new();
    book.add_order(order(1, Side::Bid, 10050, 100));
    assert_eq!(book.best_bid(), Some((10050, 100)));
    book.add_order(order(2, Side::Bid, 10050, 50));
    assert_eq!(book.best_bid(), Some((10050, 150)));
    assert_eq!(book.levels(Side::Bid).len(), 1);
    assert_eq!(book.levels(Side::Bid)[0].order_count(), 2);
    book.remove_order(1);
    assert_eq!(book.best_bid(), Some((10050, 50)));
    book.remove_order(2);
    assert_eq!(book.best_bid(), None);
    assert!(book.levels(Side::Bid).is_empty());
}

#[test]
fn overfill_is_refused_and_changes_nothing() {
    let mut book = OrderBook::new();
    book.add_order(order(123, Side::Bid, 10050, 100));
    assert_eq!(
        book.fill_order(123, 150),
        Err(OrderBookError::FillQuantityExceedsOrderSize(150, 100))
    );
    assert_eq!(book.best_bid(), Some((10050, 100)));
}

#[test]
fn re_adding_an_id_moves_the_order() {
    let mut book = OrderBook::new();
    book.add_order(order(123, Side::Bid, 10050, 100));
    book.add_order(order(123, Side::Bid, 10051, 150));
    assert_eq!(book.best_bid(), Some((10051, 150)));
    assert_eq!(book.levels(Side::Bid).len(), 1);
    assert_eq!(book.levels(Side::Bid)[0].price(), 10051);
    assert_eq!(book.top_n_bids(5), vec![(10051, 150)]);
}

#[test]
fn re_adding_an_id_can_switch_sides() {
    let mut book = OrderBook::new();
    book.add_order(order(7, Side::Bid, 100, 10));
    book.add_order(order(7, Side::Ask, 105, 20));
    assert_eq!(book.best_bid(), None);
    assert_eq!(book.best_ask(), Some((105, 20)));
    assert_eq!(book.get_order(7), Some(&order(7, Side::Ask, 105, 20)));
}

#[test]
fn modify_middle_order_updates_aggregate() {
    let mut book = OrderBook::new();
    book.add_order(order(1, Side::Bid, 10050, 100));
    book.add_order(order(2, Side::Bid, 10050, 50));
    book.add_order(order(3, Side::Bid, 10050, 75));
    assert_eq!(book.top_n_bids(1), vec![(10050, 225)]);
    book.modify_order(2, 150).unwrap();
    assert_eq!(book.top_n_bids(1), vec![(10050, 325)]);
}

#[test]
fn fill_of_whole_size_removes_and_one_more_is_refused() {
    let mut book = OrderBook::new();
    book.add_order(order(5, Side::Ask, 200, 40));
    assert_eq!(
        book.fill_order(5, 41),
        Err(OrderBookError::FillQuantityExceedsOrderSize(41, 40))
    );
    assert_eq!(book.get_order(5).map(|o| o.size), Some(40));
    assert_eq!(book.fill_order(5, 40), Ok(()));
    assert_eq!(book.get_order(5), None);
    assert_eq!(book.best_ask(), None);
}

#[test]
fn best_prices_are_extremes() {
    let mut book = OrderBook::new();
    book.add_order(order(1, Side::Bid, 99, 1));
    book.add_order(order(2, Side::Bid, 101, 2));
    book.add_order(order(3, Side::Bid, 100, 3));
    book.add_order(order(4, Side::Ask, 110, 4));
    book.add_order(order(5, Side::Ask, 108, 5));
    book.add_order(order(6, Side::Ask, 109, 6));
    assert_eq!(book.best_bid(), Some((101, 2)));
    assert_eq!(book.best_ask(), Some((108, 5)));
    book.add_order(order(7, Side::Bid, -5, 1));
    book.add_order(order(8, Side::Ask, -3, 1));
    assert_eq!(book.best_bid(), Some((101, 2)));
    assert_eq!(book.best_ask(), Some((-3, 1)));
}

#[test]
fn changes_on_one_side_leave_the_other_alone() {
    let mut book = OrderBook::new();
    book.add_order(order(1, Side::Bid, 100, 10));
    book.add_order(order(2, Side::Ask, 105, 20));
    book.add_order(order(3, Side::Ask, 106, 30));
    let asks_before = book.top_n_asks(10);
    book.add_order(order(4, Side::Bid, 101, 5));
    book.modify_order(1, 70).unwrap();
    book.fill_order(4, 2).unwrap();
    book.add_order(order(1, Side::Bid, 98, 1));
    book.remove_order(4);
    assert_eq!(book.top_n_asks(10), asks_before);
    assert_eq!(book.best_ask(), Some((105, 20)));
    assert_eq!(book.top_n_bids(10), vec![(98, 1)]);
}

#[test]
fn every_indexed_order_is_found_after_mixed_operations() {
    let mut book = OrderBook::new();
    book.add_order(order(1, Side::Bid, 100, 10));
    book.add_order(order(2, Side::Bid, 100, 20));
    book.add_order(order(3, Side::Ask, 103, 30));
    book.add_order(order(4, Side::Ask, 104, 40));
    book.modify_order(2, 25).unwrap();
    book.fill_order(3, 30).unwrap();
    book.fill_order(4, 15).unwrap();
    book.add_order(order(1, Side::Ask, 104, 5));
    book.remove_order(99);
    assert_eq!(book.get_order(1), Some(&order(1, Side::Ask, 104, 5)));
    assert_eq!(book.get_order(2), Some(&order(2, Side::Bid, 100, 25)));
    assert_eq!(book.get_order(3), None);
    assert_eq!(book.get_order(4), Some(&order(4, Side::Ask, 104, 25)));
    for side in [Side::Bid, Side::Ask] {
        for level in book.levels(side) {
            assert!(!level.is_empty());
        }
    }
    assert_eq!(book.top_n_bids(3), vec![(100, 25)]);
    assert_eq!(book.top_n_asks(3), vec![(104, 30)]);
}

#[test]
fn level_aggregates_match_recomputed_sums() {
    let mut book = OrderBook::new();
    book.add_order(order(1, Side::Bid, 100, 10));
    book.add_order(order(2, Side::Bid, 100, 20));
    book.add_order(order(3, Side::Bid, 99, 7));
    book.modify_order(1, 11).unwrap();
    for level in book.levels(Side::Bid) {
        let mut sum = 0u64;
        let mut count = 0usize;
        for id in 1..=3u64 {
            if let Some(o) = level.get_order(id) {
                sum += o.size;
                count += 1;
            }
        }
        assert_eq!(level.total_qty(), sum);
        assert_eq!(level.order_count(), count);
    }
    assert_eq!(book.top_n_bids(2), vec![(100, 31), (99, 7)]);
}

#[test]
fn modify_to_zero_keeps_the_order() {
    let mut book = OrderBook::new();
    book.add_order(order(1, Side::Bid, 100, 10));
    book.modify_order(1, 0).unwrap();
    assert_eq!(book.get_order(1).map(|o| o.size), Some(0));
    assert_eq!(book.best_bid(), Some((100, 0)));
    // A zero fill of a zero-size order leaves nothing, so the order goes.
    book.fill_order(1, 0).unwrap();
    assert_eq!(book.get_order(1), None);
    assert_eq!(book.best_bid(), None);
}

#[test]
fn modify_unknown_order_fails() {
    let mut book = OrderBook::new();
    book.add_order(order(1, Side::Bid, 100, 10));
    assert_eq!(book.modify_order(2, 5), Err(OrderBookError::OrderNotFound(2)));
    assert_eq!(book.best_bid(), Some((100, 10)));
}

#[test]
fn top_n_edges() {
    let mut book = OrderBook::new();
    assert_eq!(book.top_n_bids(3), vec![]);
    assert_eq!(book.top_n_asks(3), vec![]);
    book.add_order(order(1, Side::Ask, 10, 1));
    book.add_order(order(2, Side::Ask, 12, 2));
    book.add_order(order(3, Side::Ask, 11, 3));
    assert_eq!(book.top_n_asks(0), vec![]);
    assert_eq!(book.top_n_asks(2), vec![(10, 1), (11, 3)]);
    assert_eq!(book.top_n_asks(10), vec![(10, 1), (11, 3), (12, 2)]);
}

#[test]
fn totals_up_to_the_largest_size() {
    let mut book = OrderBook::new();
    book.add_order(order(1, Side::Bid, 100, u64::MAX - 5));
    book.add_order(order(2, Side::Bid, 100, 5));
    assert_eq!(book.best_bid(), Some((100, u64::MAX)));
    book.fill_order(1, u64::MAX - 5).unwrap();
    assert_eq!(book.best_bid(), Some((100, 5)));
}

#[test]
fn order_level_operations() {
    let mut level = OrderLevel::new(500);
    assert!(level.is_empty());
    assert_eq!(level.price(), 500);
    assert_eq!(level.total_qty(), 0);
    level.add_order(order(1, Side::Ask, 500, 10));
    level.add_order(order(2, Side::Ask, 500, 20));
    level.add_order(order(1, Side::Ask, 500, 15));
    assert_eq!(level.order_count(), 2);
    assert_eq!(level.total_qty(), 35);
    assert_eq!(level.modify_order(2, 1), Ok(()));
    assert_eq!(level.modify_order(3, 1), Err(OrderBookError::OrderNotFound(3)));
    assert_eq!(level.total_qty(), 16);
    assert_eq!(level.get_order(2), Some(&order(2, Side::Ask, 500, 1)));
    assert_eq!(level.remove_order(1), Some(order(1, Side::Ask, 500, 15)));
    assert_eq!(level.remove_order(1), None);
    assert_eq!(level.total_qty(), 1);
    assert_eq!(level.remove_order(2), Some(order(2, Side::Ask, 500, 1)));
    assert!(level.is_empty());
}

#[test]
fn codes_decode() {
    assert_eq!(Side::from_code(1), Some(Side::Bid));
    assert_eq!(Side::from_code(2), Some(Side::Ask));
    assert_eq!(Side::from_code(0), None);
    assert_eq!(Side::Ask.code(), 2);
    assert_eq!(Action::from_code(1), Some(Action::Add));
    assert_eq!(Action::from_code(6), Some(Action::Trade));
    assert_eq!(Action::from_code(7), None);
    assert_eq!(Action::Clear.code(), 5);
}

#[test]
fn raw_fields_decode_or_report() {
    assert_eq!(
        MarketByOrderMessage::from_raw(9, 1, 10, 1, 5),
        Err(MboProcessError::UnknownAction(9))
    );
    assert_eq!(
        MarketByOrderMessage::from_raw(9, 0, 10, 1, 5),
        Err(MboProcessError::UnknownAction(9))
    );
    assert_eq!(
        MarketByOrderMessage::from_raw(4, 0, 10, 1, 5),
        Err(MboProcessError::SideConversionError(0))
    );
    assert_eq!(
        MarketByOrderMessage::from_raw(4, 2, 10, 1, 5),
        Ok(message(Action::Fill, Side::Ask, 10, 1, 5))
    );
}

#[test]
fn columns_become_messages() {
    let actions = vec![Some(1), Some(2), None, Some(9), Some(3), Some(4), Some(5)];
    let sides = vec![Some(1), Some(2), Some(1), Some(1), Some(0), Some(2)];
    let prices = vec![Some(100), Some(101), Some(102), Some(103), Some(104), Some(105), Some(106)];
    let order_ids = vec![Some(1), Some(2), Some(3), Some(4), Some(5), Some(6), Some(7)];
    let sizes = vec![Some(10), None, Some(30), Some(40), Some(50), Some(60), Some(70)];
    let msgs = into_mbo_messages(&actions, &sides, &prices, &order_ids, &sizes);
    assert_eq!(
        msgs,
        vec![
            message(Action::Add, Side::Bid, 100, 1, 10),
            message(Action::Fill, Side::Ask, 105, 6, 60),
        ]
    );
}

#[test]
fn processor_applies_events() {
    let mut p = MboProcessor::new();
    assert_eq!(p.process_message(&message(Action::Add, Side::Bid, 100, 1, 10)), Ok(()));
    assert_eq!(p.process_message(&message(Action::Add, Side::Ask, 105, 2, 20)), Ok(()));
    assert_eq!(p.process_message(&message(Action::Modify, Side::Bid, 0, 1, 12)), Ok(()));
    assert_eq!(p.process_message(&message(Action::Fill, Side::Ask, 0, 2, 5)), Ok(()));
    assert_eq!(p.process_message(&message(Action::Trade, Side::Ask, 105, 2, 5)), Ok(()));
    assert_eq!(p.order_book().best_bid(), Some((100, 12)));
    assert_eq!(p.order_book().best_ask(), Some((105, 15)));
    assert_eq!(p.process_message(&message(Action::Cancel, Side::Bid, 0, 1, 0)), Ok(()));
    assert_eq!(p.process_message(&message(Action::Cancel, Side::Bid, 0, 1, 0)), Ok(()));
    assert_eq!(p.order_book().best_bid(), None);
    assert_eq!(
        p.process_message(&message(Action::Fill, Side::Ask, 0, 2, 16)),
        Err(MboProcessError::OrderBookError(OrderBookError::FillQuantityExceedsOrderSize(16, 15)))
    );
    assert_eq!(
        p.process_message(&message(Action::Modify, Side::Ask, 0, 3, 1)),
        Err(MboProcessError::OrderBookError(OrderBookError::OrderNotFound(3)))
    );
    assert_eq!(p.order_book().best_ask(), Some((105, 15)));
    assert_eq!(p.process_message(&message(Action::Clear, Side::Bid, 0, 0, 0)), Ok(()));
    assert_eq!(p.order_book().best_ask(), None);
    let mbp = MarketByPrice::from_book(p.order_book());
    assert!(mbp.bids.is_empty() && mbp.asks.is_empty());
}
