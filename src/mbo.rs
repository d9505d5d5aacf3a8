//! Market-by-order events and the processor that applies them to a book.
use vstd::prelude::*;

use crate::book::OrderBook;
use crate::order::{Order, OrderBookError, Side};

verus! {

/// What a market-by-order event does.
#[derive(Debug, Clone, Copy, PartialEq, Eq, Hash, Structural)]
pub enum Action {
    Add,
    Cancel,
    Modify,
    Fill,
    /// The book is cleared, as at the start of a new trading day.
    Clear,
    Trade,
}

impl Action {
    /// The wire code of an action, from 1 for `Add` to 6 for `Trade`.
    pub open spec fn code_spec(self) -> i8 {
        match self {
            Action::Add => 1,
            Action::Cancel => 2,
            Action::Modify => 3,
            Action::Fill => 4,
            Action::Clear => 5,
            Action::Trade => 6,
        }
    }

    /// The action whose wire code is `code`, if there is one.
    pub open spec fn spec_from_code(code: i8) -> Option<Action> {
        if code == 1 {
            Some(Action::Add)
        } else if code == 2 {
            Some(Action::Cancel)
        } else if code == 3 {
            Some(Action::Modify)
        } else if code == 4 {
            Some(Action::Fill)
        } else if code == 5 {
            Some(Action::Clear)
        } else if code == 6 {
            Some(Action::Trade)
        } else {
            None
        }
    }

    /// The wire code of this action.
    pub fn code(self) -> (r: i8)
        ensures
            r == self.code_spec(),
    {
        match self {
            Action::Add => 1,
            Action::Cancel => 2,
            Action::Modify => 3,
            Action::Fill => 4,
            Action::Clear => 5,
            Action::Trade => 6,
        }
    }

    /// The action whose wire code is `code`, if there is one.
    pub fn from_code(code: i8) -> (r: Option<Action>)
        ensures
            r == Action::spec_from_code(code),
    {
        match code {
            1 => Some(Action::Add),
            2 => Some(Action::Cancel),
            3 => Some(Action::Modify),
            4 => Some(Action::Fill),
            5 => Some(Action::Clear),
            6 => Some(Action::Trade),
            _ => None,
        }
    }
}

/// What can go wrong while turning raw events into book changes.
#[derive(Debug, Clone, Copy, PartialEq, Eq, Structural)]
pub enum MboProcessError {
    /// The action code is not one of the six known ones.
    UnknownAction(i8),
    /// The side code is neither a bid nor an ask.
    SideConversionError(i8),
    /// The book refused the change.
    OrderBookError(OrderBookError),
}

/// A market-by-order event: an order change, a trade or a clear.
#[derive(Debug, Clone, Copy, PartialEq, Eq, Hash, Structural)]
pub struct MarketByOrderMessage {
    pub action: Action,
    pub side: Side,
    pub price: i64,
    pub order_id: u64,
    pub size: u32,
}

/// The event with these raw fields, or the error for its first code that
/// does not decode.
pub open spec fn spec_from_raw(action: i8, side: i8, price: i64, order_id: u64, size: u32) -> Result<
    MarketByOrderMessage,
    MboProcessError,
> {
    match Action::spec_from_code(action) {
        None => Err(MboProcessError::UnknownAction(action)),
        Some(a) => match Side::spec_from_code(side) {
            None => Err(MboProcessError::SideConversionError(side)),
            Some(s) => Ok(MarketByOrderMessage { action: a, side: s, price, order_id, size }),
        },
    }
}

impl MarketByOrderMessage {
    /// Decodes an event from its raw fields, checking the action code first and
    /// the side code second.
    pub fn from_raw(action: i8, side: i8, price: i64, order_id: u64, size: u32) -> (r: Result<
        MarketByOrderMessage,
        MboProcessError,
    >)
        ensures
            r == spec_from_raw(action, side, price, order_id, size),
    {
        let action = match Action::from_code(action) {
            Some(a) => a,
            None => return Err(MboProcessError::UnknownAction(action)),
        };
        let side_code = side;
        let side = match Side::from_code(side) {
            Some(s) => s,
            None => return Err(MboProcessError::SideConversionError(side_code)),
        };
        Ok(MarketByOrderMessage { action, side, price, order_id, size })
    }
}

/// The event in one row of raw columns: `None` when a field is missing or a
/// code does not decode.
pub open spec fn row_message(
    action: Option<i8>,
    side: Option<i8>,
    price: Option<i64>,
    order_id: Option<u64>,
    size: Option<u32>,
) -> Option<MarketByOrderMessage> {
    match (action, side, price, order_id, size) {
        (Some(a), Some(s), Some(p), Some(o), Some(z)) => match spec_from_raw(a, s, p, o, z) {
            Ok(msg) => Some(msg),
            Err(_) => None,
        },
        _ => None,
    }
}

/// The events of the first `n` rows of raw columns, in order, skipping the
/// rows that do not make an event.
pub open spec fn decoded_rows(
    actions: Seq<Option<i8>>,
    sides: Seq<Option<i8>>,
    prices: Seq<Option<i64>>,
    order_ids: Seq<Option<u64>>,
    sizes: Seq<Option<u32>>,
    n: int,
) -> Seq<MarketByOrderMessage>
    decreases n,
{
    if n <= 0 {
        Seq::empty()
    } else {
        let before = decoded_rows(actions, sides, prices, order_ids, sizes, n - 1);
        match row_message(
            actions[n - 1],
            sides[n - 1],
            prices[n - 1],
            order_ids[n - 1],
            sizes[n - 1],
        ) {
            Some(msg) => before.push(msg),
            None => before,
        }
    }
}

/// The smallest of five lengths.
pub open spec fn min_len(a: nat, b: nat, c: nat, d: nat, e: nat) -> nat {
    let ab = if a < b { a } else { b };
    let cd = if c < d { c } else { d };
    let abcd = if ab < cd { ab } else { cd };
    if abcd < e { abcd } else { e }
}

/// Turns columns of raw event fields into events, row by row up to the
/// shortest column, skipping rows with a missing field or a code that does
/// not decode.
pub fn into_mbo_messages(
    actions: &Vec<Option<i8>>,
    sides: &Vec<Option<i8>>,
    prices: &Vec<Option<i64>>,
    order_ids: &Vec<Option<u64>>,
    sizes: &Vec<Option<u32>>,
) -> (r: Vec<MarketByOrderMessage>)
    ensures
        r@ == decoded_rows(
            actions@,
            sides@,
            prices@,
            order_ids@,
            sizes@,
            min_len(
                actions@.len(),
                sides@.len(),
                prices@.len(),
                order_ids@.len(),
                sizes@.len(),
            ) as int,
        ),
{
    let mut n = actions.len();
    if sides.len() < n {
        n = sides.len();
    }
    if prices.len() < n {
        n = prices.len();
    }
    if order_ids.len() < n {
        n = order_ids.len();
    }
    if sizes.len() < n {
        n = sizes.len();
    }
    let mut messages: Vec<MarketByOrderMessage> = Vec::new();
    let mut i: usize = 0;
    while i < n
        invariant
            i <= n,
            n <= actions@.len(),
            n <= sides@.len(),
            n <= prices@.len(),
            n <= order_ids@.len(),
            n <= sizes@.len(),
            messages@ == decoded_rows(actions@, sides@, prices@, order_ids@, sizes@, i as int),
        decreases n - i,
    {
        match (actions[i], sides[i], prices[i], order_ids[i], sizes[i]) {
            (Some(a), Some(s), Some(p), Some(o), Some(z)) => {
                match MarketByOrderMessage::from_raw(a, s, p, o, z) {
                    Ok(msg) => messages.push(msg),
                    Err(_) => {},
                }
            },
            _ => {},
        }
        i += 1;
    }
    messages
}

/// What applying `msg` to a book that holds the orders `m` gives: the orders
/// afterwards, or the error reported, in which case the orders stay as they
/// were.
pub open spec fn apply_message(m: Map<u64, Order>, msg: MarketByOrderMessage) -> Result<
    Map<u64, Order>,
    MboProcessError,
> {
    let id = msg.order_id;
    let q = msg.size as u64;
    match msg.action {
        Action::Add => Ok(
            m.insert(id, Order { order_id: id, side: msg.side, price: msg.price, size: q }),
        ),
        Action::Cancel => Ok(m.remove(id)),
        Action::Modify => if m.contains_key(id) {
            Ok(m.insert(id, m[id].with_size(q)))
        } else {
            Err(MboProcessError::OrderBookError(OrderBookError::OrderNotFound(id)))
        },
        Action::Fill => if !m.contains_key(id) {
            Err(MboProcessError::OrderBookError(OrderBookError::OrderNotFound(id)))
        } else if q > m[id].size {
            Err(
                MboProcessError::OrderBookError(
                    OrderBookError::FillQuantityExceedsOrderSize(q, m[id].size),
                ),
            )
        } else if q == m[id].size {
            Ok(m.remove(id))
        } else {
            Ok(m.insert(id, m[id].with_size((m[id].size - q) as u64)))
        },
        Action::Clear => Ok(Map::empty()),
        Action::Trade => Ok(m),
    }
}

/// Keeps one order book in step with a stream of market-by-order events.
pub struct MboProcessor {
    order_book: OrderBook,
}

impl View for MboProcessor {
    type V = Map<u64, Order>;

    /// The orders resting in the book.
    closed spec fn view(&self) -> Map<u64, Order> {
        self.order_book@
    }
}

impl MboProcessor {
    /// The book is well formed.
    pub closed spec fn wf(&self) -> bool {
        self.order_book.wf()
    }

    /// A processor over an empty book.
    pub fn new() -> (r: MboProcessor)
        ensures
            r.wf(),
            r@ == Map::<u64, Order>::empty(),
    {
        MboProcessor { order_book: OrderBook::new() }
    }

    /// The book as the events so far have left it.
    pub fn order_book(&self) -> (r: &OrderBook)
        requires
            self.wf(),
        ensures
            r.wf(),
            r@ == self@,
    {
        &self.order_book
    }

    /// Applies one event to the book: adds, cancels, modifies or fills the
    /// order it names, replaces the book by an empty one on a clear, and
    /// leaves it alone on a trade. Errors of the book are passed on.
    pub fn process_message(&mut self, message: &MarketByOrderMessage) -> (r: Result<(), MboProcessError>)
        requires
            old(self).wf(),
        ensures
            final(self).wf(),
            match apply_message(old(self)@, *message) {
                Ok(m) => r is Ok && final(self)@ == m,
                Err(e) => r == Err::<(), MboProcessError>(e) && final(self)@ == old(self)@,
            },
    {
        match message.action {
            Action::Add => {
                self.order_book.add_order(
                    Order {
                        order_id: message.order_id,
                        side: message.side,
                        price: message.price,
                        size: message.size as u64,
                    },
                );
            },
            Action::Cancel => {
                self.order_book.remove_order(message.order_id);
            },
            Action::Modify => {
                match self.order_book.modify_order(message.order_id, message.size as u64) {
                    Ok(()) => {},
                    Err(e) => return Err(MboProcessError::OrderBookError(e)),
                }
            },
            Action::Fill => {
                match self.order_book.fill_order(message.order_id, message.size as u64) {
                    Ok(()) => {},
                    Err(e) => return Err(MboProcessError::OrderBookError(e)),
                }
            },
            Action::Clear => {
                self.order_book = OrderBook::new();
            },
            Action::Trade => {},
        }
        Ok(())
    }
}

} // verus!
