use std::collections::{BTreeMap, HashMap, VecDeque};
use vstd::prelude::*;

use crate::errors::EngineError;
use crate::level::{
    FillPlan, FillResult, LevelView, PriceLevel, fill_trades, first_position, holds_order,
    lemma_first_position_exists,
    is_first_position, lemma_fill_conserves, lemma_remove_undoes_add, lemma_wf_can_remove, level_of, match_queue,
    sum_amounts,
};
use crate::order::{Amount, MarketEvent, Order, OrderEvent, OrderId, Price, Side, Trade};

verus! {

/// `p` is the smallest key of the map.
pub open spec fn is_lowest_key<V>(m: Map<u64, V>, p: u64) -> bool {
    m.contains_key(p) && forall|q: u64| #[trigger] m.contains_key(q) ==> p <= q
}

/// `p` is the largest key of the map.
pub open spec fn is_highest_key<V>(m: Map<u64, V>, p: u64) -> bool {
    m.contains_key(p) && forall|q: u64| #[trigger] m.contains_key(q) ==> q <= p
}

/// The smallest key of the map, if it has one.
pub open spec fn lowest_key<V>(m: Map<u64, V>) -> Option<u64> {
    if exists|p: u64| is_lowest_key(m, p) {
        Some(choose|p: u64| is_lowest_key(m, p))
    } else {
        None
    }
}

/// The largest key of the map, if it has one.
pub open spec fn highest_key<V>(m: Map<u64, V>) -> Option<u64> {
    if exists|p: u64| is_highest_key(m, p) {
        Some(choose|p: u64| is_highest_key(m, p))
    } else {
        None
    }
}

/// Every level of one side of the book is well formed.
pub open spec fn levels_wf(levels: Map<u64, LevelView>) -> bool {
    forall|p: u64| #[trigger] levels.contains_key(p) ==> levels[p].wf()
}

/// One side of the book with an order added at the back of the level at its
/// price, which is created if there is none.
pub open spec fn add_to_levels(levels: Map<u64, LevelView>, price: u64, id: u64, amount: u64) -> Map<
    u64,
    LevelView,
> {
    levels.insert(
        price,
        match levels.get(price) {
            Some(level) => level.with_order(id, amount),
            None => level_of(id, amount),
        },
    )
}

/// The level at the price, if any, can take the amount.
pub open spec fn can_rest(levels: Map<u64, LevelView>, price: u64, amount: u64) -> bool {
    levels.contains_key(price) ==> levels[price].accepts(amount)
}

/// The side that an order of this side trades against.
pub open spec fn opposite(side: Side) -> Side {
    match side {
        Side::Bid => Side::Ask,
        Side::Ask => Side::Bid,
    }
}

/// A resting price of the opposite side is good enough for an order of this
/// side and limit price: a bid takes asks at or below its price, an ask takes
/// bids at or above it.
pub open spec fn crosses(side: Side, resting_price: u64, limit: u64) -> bool {
    match side {
        Side::Bid => resting_price <= limit,
        Side::Ask => resting_price >= limit,
    }
}

/// The events that report a fill at the given price: a trade event for each
/// trade, then a filled event for each filled order, then a partially filled
/// event for the order filled in part, if any.
pub open spec fn plan_events(plan: FillPlan, price: u64) -> Seq<MarketEvent> {
    fill_trades(plan.amounts, price).map_values(|t: Trade| MarketEvent::Trade(Box::new(t)))
        + plan.filled.map_values(|id: u64| MarketEvent::OrderFilled(id)) + match plan.partial {
        Some(id) => seq![MarketEvent::OrderPartiallyFilled(id)],
        None => Seq::<MarketEvent>::empty(),
    }
}

/// The state of the book: the levels of each side by price, and where each
/// order id was last placed.
pub struct BookView {
    pub bids: Map<u64, LevelView>,
    pub asks: Map<u64, LevelView>,
    pub index: Map<u64, (u64, Side)>,
}

impl BookView {
    /// Every level of the book is well formed.
    pub open spec fn wf(self) -> bool {
        levels_wf(self.bids) && levels_wf(self.asks)
    }

    /// The levels of one side.
    pub open spec fn side_levels(self, side: Side) -> Map<u64, LevelView> {
        match side {
            Side::Bid => self.bids,
            Side::Ask => self.asks,
        }
    }

    /// The book with the levels of one side replaced.
    pub open spec fn with_side_levels(self, side: Side, levels: Map<u64, LevelView>) -> BookView {
        match side {
            Side::Bid => BookView { bids: levels, asks: self.asks, index: self.index },
            Side::Ask => BookView { bids: self.bids, asks: levels, index: self.index },
        }
    }

    /// The book with an order resting on one side, and the index pointing the
    /// order id at it.
    pub open spec fn with_resting(self, side: Side, id: u64, price: u64, amount: u64) -> BookView {
        let book = self.with_side_levels(
            side,
            add_to_levels(self.side_levels(side), price, id, amount),
        );
        BookView { bids: book.bids, asks: book.asks, index: self.index.insert(id, (price, side)) }
    }

    /// The best price of the side that an order of this side trades against:
    /// the lowest ask for a bid, the highest bid for an ask.
    pub open spec fn best_opposite(self, side: Side) -> Option<u64> {
        match side {
            Side::Bid => lowest_key(self.asks),
            Side::Ask => highest_key(self.bids),
        }
    }

    /// The level that an order of this side and limit price matches against:
    /// the best opposite level, if its price crosses the limit.
    pub open spec fn crossing_price(self, side: Side, limit: u64) -> Option<u64> {
        match self.best_opposite(side) {
            Some(p) => if crosses(side, p, limit) {
                Some(p)
            } else {
                None
            },
            None => None,
        }
    }

    /// How the order matches against the crossing level, if there is one.
    pub open spec fn plan_for(self, side: Side, order: Order) -> FillPlan {
        let p = self.crossing_price(side, order.price)->Some_0;
        match_queue(self.side_levels(opposite(side))[p].orders, order.amount)
    }

    /// The amount of the order that is left to rest in the book, if any.
    pub open spec fn resting_amount(self, side: Side, order: Order) -> Option<u64> {
        match self.crossing_price(side, order.price) {
            Some(p) => {
                let plan = self.plan_for(side, order);
                if plan.remaining > 0 {
                    Some(plan.remaining)
                } else {
                    None
                }
            },
            None => Some(order.amount),
        }
    }

    /// Placing the order on this side keeps the totals of the level it trades
    /// against from going below zero, and those of the level it rests in
    /// within `u64`.
    pub open spec fn can_place(self, side: Side, order: Order) -> bool {
        &&& match self.crossing_price(side, order.price) {
            Some(p) => self.side_levels(opposite(side))[p].can_fill(order.amount),
            None => true,
        }
        &&& match self.resting_amount(side, order) {
            Some(amount) => can_rest(self.side_levels(side), order.price, amount),
            None => true,
        }
    }

    /// Placing a limit order on one side of the book: if the best level of the
    /// opposite side crosses its price, the order is matched against that one
    /// level, first in first out, at the order's own price, and what is left
    /// of it rests on its side; otherwise all of it rests. The events report
    /// the order as updated or placed, then the fill.
    pub open spec fn place(self, side: Side, order: Order) -> (BookView, Seq<MarketEvent>) {
        match self.crossing_price(side, order.price) {
            Some(p) => {
                let opp = opposite(side);
                let levels = self.side_levels(opp);
                let plan = self.plan_for(side, order);
                let matched = self.with_side_levels(
                    opp,
                    levels.insert(p, levels[p].after_fill(order.amount)),
                );
                let fill = plan_events(plan, order.price);
                if plan.remaining > 0 {
                    (
                        matched.with_resting(side, order.id, order.price, plan.remaining),
                        seq![MarketEvent::OrderUpdated(order.id)] + fill,
                    )
                } else {
                    (matched, fill)
                }
            },
            None => (
                self.with_resting(side, order.id, order.price, order.amount),
                seq![MarketEvent::OrderPlaced(order.id)],
            ),
        }
    }

    /// Cancelling an order: its id leaves the index, and its first entry
    /// leaves the level that the index pointed at. It is an error if the id
    /// is not indexed, or the level does not hold it.
    pub open spec fn cancel(self, id: u64) -> (BookView, Result<MarketEvent, EngineError>) {
        if self.index.contains_key(id) {
            let (price, side) = self.index[id];
            let unindexed = BookView { bids: self.bids, asks: self.asks, index: self.index.remove(id) };
            let levels = self.side_levels(side);
            if levels.contains_key(price) && holds_order(levels[price].orders, id) {
                (
                    unindexed.with_side_levels(
                        side,
                        levels.insert(price, levels[price].without_order(id)),
                    ),
                    Ok(MarketEvent::OrderCancelled(id)),
                )
            } else {
                (unindexed, Err(EngineError::OrderNotFound(id)))
            }
        } else {
            (self, Err(EngineError::OrderNotFound(id)))
        }
    }

    /// Cancelling the order keeps the totals of the level it is taken out of
    /// from going below zero.
    pub open spec fn can_cancel(self, id: u64) -> bool {
        let (price, side) = self.index[id];
        self.index.contains_key(id) && self.side_levels(side).contains_key(price)
            ==> self.side_levels(side)[price].can_remove(id)
    }

    /// Changing the amount of an order in the levels of one side, at the price
    /// that the index holds for it: every entry of the id there gets the new
    /// amount. Nothing happens if the id is not indexed or there is no level
    /// at that price; it is an error if the level does not hold the id.
    pub open spec fn update(self, side: Side, id: u64, new_amount: u64) -> (BookView, Result<(), EngineError>) {
        let levels = self.side_levels(side);
        if self.index.contains_key(id) && levels.contains_key(self.index[id].0) {
            let price = self.index[id].0;
            if holds_order(levels[price].orders, id) {
                (
                    self.with_side_levels(
                        side,
                        levels.insert(price, levels[price].with_amount(id, new_amount)),
                    ),
                    Ok(()),
                )
            } else {
                (self, Err(EngineError::OrderNotFound(id)))
            }
        } else {
            (self, Ok(()))
        }
    }

    /// Changing the amount keeps the running total of the level from going
    /// below zero and within `u64`.
    pub open spec fn can_update(self, side: Side, id: u64, new_amount: u64) -> bool {
        let levels = self.side_levels(side);
        self.index.contains_key(id) && levels.contains_key(self.index[id].0) ==> levels[self.index[
            id].0].can_update(id, new_amount)
    }
}

/// The levels of one side by their views.
pub open spec fn levels_view(levels: Map<u64, PriceLevel>) -> Map<u64, LevelView> {
    levels.map_values(|l: PriceLevel| l@)
}

/// The order book: the levels of each side by price, and an index from order
/// id to where the order was last placed.
pub struct MatchingEngine {
    /// Buy orders by price
    pub bids: BTreeMap<Price, PriceLevel>,
    /// Sell orders by price
    pub asks: BTreeMap<Price, PriceLevel>,
    /// The price and side at which each order id was last placed
    pub id_index: HashMap<OrderId, (Price, Side)>,
}

impl View for MatchingEngine {
    type V = BookView;

    open spec fn view(&self) -> BookView {
        BookView {
            bids: levels_view(self.bids@),
            asks: levels_view(self.asks@),
            index: self.id_index@,
        }
    }
}

/// Calls `BTreeMap::first_key_value`, which std documents as returning the
/// entry with the minimum key of the map, and `None` when the map is empty;
/// the key is handed back.
#[verifier::external_body]
fn lowest_price(levels: &BTreeMap<Price, PriceLevel>) -> (r: Option<Price>)
    ensures
        match r {
            Some(p) => is_lowest_key(levels@, p),
            None => levels@.dom().is_empty(),
        },
{
    match levels.first_key_value() {
        Some((price, _)) => Some(*price),
        None => None,
    }
}

/// Calls `BTreeMap::last_key_value`, which std documents as returning the
/// entry with the maximum key of the map, and `None` when the map is empty;
/// the key is handed back.
#[verifier::external_body]
fn highest_price(levels: &BTreeMap<Price, PriceLevel>) -> (r: Option<Price>)
    ensures
        match r {
            Some(p) => is_highest_key(levels@, p),
            None => levels@.dom().is_empty(),
        },
{
    match levels.last_key_value() {
        Some((price, _)) => Some(*price),
        None => None,
    }
}


proof fn lemma_levels_view_insert(levels: Map<u64, PriceLevel>, p: u64, level: PriceLevel)
    ensures
        levels_view(levels.insert(p, level)) == levels_view(levels).insert(p, level@),
{
    assert(levels_view(levels.insert(p, level)) =~= levels_view(levels).insert(p, level@));
}

proof fn lemma_levels_view_remove(levels: Map<u64, PriceLevel>, p: u64)
    ensures
        levels_view(levels.remove(p)) == levels_view(levels).remove(p),
{
    assert(levels_view(levels.remove(p)) =~= levels_view(levels).remove(p));
}

proof fn lemma_lowest_key<V>(m: Map<u64, V>, p: u64)
    requires
        is_lowest_key(m, p),
    ensures
        lowest_key(m) == Some(p),
{
    let q = choose|q: u64| is_lowest_key(m, q);
    assert(is_lowest_key(m, q));
    assert(m.contains_key(p) && m.contains_key(q));
}

proof fn lemma_highest_key<V>(m: Map<u64, V>, p: u64)
    requires
        is_highest_key(m, p),
    ensures
        highest_key(m) == Some(p),
{
    let q = choose|q: u64| is_highest_key(m, q);
    assert(is_highest_key(m, q));
    assert(m.contains_key(p) && m.contains_key(q));
}

proof fn lemma_fill_events(fill: FillResult, plan: FillPlan, price: u64)
    requires
        fill.records(plan, price),
    ensures
        fill.events() == plan_events(plan, price),
{
}

/// Cancelling an order a second time fails with `OrderNotFound` and leaves
/// the book as the first cancel left it.
pub proof fn lemma_cancel_twice(book: BookView, id: u64)
    ensures
        book.cancel(id).0.cancel(id) == (
            book.cancel(id).0,
            Err::<MarketEvent, EngineError>(EngineError::OrderNotFound(id)),
        ),
{
    let first = book.cancel(id).0;
    assert(!first.index.contains_key(id));
}

/// Cancelling an order right after it came to rest succeeds and takes it out
/// again: the index no longer holds its id, the other side is untouched, and
/// the level it rested in holds what it held before (it stays in the book,
/// empty, if the order had created it).
pub proof fn lemma_cancel_undoes_rest(book: BookView, side: Side, id: u64, price: u64, amount: u64)
    requires
        book.wf(),
        can_rest(book.side_levels(side), price, amount),
        book.side_levels(side).contains_key(price) ==> !holds_order(
            book.side_levels(side)[price].orders,
            id,
        ),
    ensures
        ({
            let (after, r) = book.with_resting(side, id, price, amount).cancel(id);
            let levels = book.side_levels(side);
            &&& r == Ok::<MarketEvent, EngineError>(MarketEvent::OrderCancelled(id))
            &&& after.index == book.index.remove(id)
            &&& after.side_levels(opposite(side)) == book.side_levels(opposite(side))
            &&& after.side_levels(side) == levels.insert(
                price,
                if levels.contains_key(price) {
                    levels[price]
                } else {
                    LevelView { quantity: 0, order_count: 0, orders: Seq::empty() }
                },
            )
        }),
{
    let levels = book.side_levels(side);
    let rested = book.with_resting(side, id, price, amount);
    let level = rested.side_levels(side)[price];
    assert(rested.index[id] == (price, side));
    if levels.contains_key(price) {
        lemma_remove_undoes_add(levels[price], id, amount);
        let n = levels[price].orders.len() as int;
        assert(level.orders[n].0 == id);
    } else {
        assert(level.orders[0].0 == id);
        assert(is_first_position(level.orders, id, 0));
        assert(first_position(level.orders, id) == 0);
        assert(level.orders.remove(0) == Seq::<(u64, u64)>::empty());
    }
    assert(rested.index.remove(id) == book.index.remove(id));
}

/// Placing an order accounts for all of it: when it crosses, what trades and
/// what comes to rest add up to its amount, and the level it traded against
/// loses exactly what traded.
pub proof fn lemma_place_accounts(book: BookView, side: Side, order: Order)
    requires
        book.wf(),
        book.crossing_price(side, order.price) is Some,
    ensures
        ({
            let p = book.crossing_price(side, order.price)->Some_0;
            let plan = book.plan_for(side, order);
            let after = book.place(side, order).0;
            &&& sum_amounts(plan.amounts) + match book.resting_amount(side, order) {
                Some(a) => a as nat,
                None => 0nat,
            } == order.amount
            &&& after.side_levels(opposite(side))[p].quantity + sum_amounts(plan.amounts)
                == book.side_levels(opposite(side))[p].quantity
        }),
{
    let p = book.crossing_price(side, order.price)->Some_0;
    let levels = book.side_levels(opposite(side));
    match side {
        Side::Bid => {
            let q = choose|q: u64| is_lowest_key(book.asks, q);
            assert(levels.contains_key(q));
        },
        Side::Ask => {
            let q = choose|q: u64| is_highest_key(book.bids, q);
            assert(levels.contains_key(q));
        },
    }
    assert(levels.contains_key(p));
    assert(levels[p].wf());
    lemma_fill_conserves(levels[p].orders, order.amount);
}

/// In a well formed book every cancel request can be carried out.
pub proof fn lemma_wf_can_cancel(book: BookView, id: u64)
    requires
        book.wf(),
    ensures
        book.can_cancel(id),
{
    let (price, side) = book.index[id];
    if book.index.contains_key(id) && book.side_levels(side).contains_key(price) {
        lemma_wf_can_remove(book.side_levels(side)[price], id);
    }
}

/// The amount that the trade events of a sequence of events add up to.
pub open spec fn traded_amount(events: Seq<MarketEvent>) -> nat
    decreases events.len(),
{
    if events.len() == 0 {
        0
    } else {
        traded_amount(events.drop_last()) + match events.last() {
            MarketEvent::Trade(t) => t.amount as nat,
            _ => 0nat,
        }
    }
}

proof fn lemma_traded_amount_append(a: Seq<MarketEvent>, b: Seq<MarketEvent>)
    ensures
        traded_amount(a + b) == traded_amount(a) + traded_amount(b),
    decreases b.len(),
{
    if b.len() == 0 {
        assert(a + b == a);
    } else {
        lemma_traded_amount_append(a, b.drop_last());
        assert((a + b).drop_last() == a + b.drop_last());
    }
}

proof fn lemma_traded_amount_of_trades(amounts: Seq<u64>, price: u64)
    ensures
        traded_amount(
            fill_trades(amounts, price).map_values(|t: Trade| MarketEvent::Trade(Box::new(t))),
        ) == sum_amounts(amounts),
    decreases amounts.len(),
{
    let events = fill_trades(amounts, price).map_values(
        |t: Trade| MarketEvent::Trade(Box::new(t)),
    );
    if amounts.len() > 0 {
        let shorter = amounts.drop_last();
        lemma_traded_amount_of_trades(shorter, price);
        assert(events.drop_last() == fill_trades(shorter, price).map_values(
            |t: Trade| MarketEvent::Trade(Box::new(t)),
        ));
    }
}

proof fn lemma_traded_amount_of_filled(ids: Seq<u64>)
    ensures
        traded_amount(ids.map_values(|id: u64| MarketEvent::OrderFilled(id))) == 0,
    decreases ids.len(),
{
    if ids.len() > 0 {
        lemma_traded_amount_of_filled(ids.drop_last());
        assert(ids.map_values(|id: u64| MarketEvent::OrderFilled(id)).drop_last()
            == ids.drop_last().map_values(|id: u64| MarketEvent::OrderFilled(id)));
    }
}

proof fn lemma_traded_amount_single(e: MarketEvent)
    ensures
        traded_amount(seq![e]) == match e {
            MarketEvent::Trade(t) => t.amount as nat,
            _ => 0nat,
        },
{
    assert(seq![e].drop_last() == Seq::<MarketEvent>::empty());
    assert(seq![e].last() == e);
    assert(traded_amount(Seq::<MarketEvent>::empty()) == 0);
}

proof fn lemma_traded_amount_of_plan(plan: FillPlan, price: u64)
    ensures
        traded_amount(plan_events(plan, price)) == sum_amounts(plan.amounts),
{
    let trades = fill_trades(plan.amounts, price).map_values(
        |t: Trade| MarketEvent::Trade(Box::new(t)),
    );
    let filled = plan.filled.map_values(|id: u64| MarketEvent::OrderFilled(id));
    let partial = match plan.partial {
        Some(id) => seq![MarketEvent::OrderPartiallyFilled(id)],
        None => Seq::<MarketEvent>::empty(),
    };
    lemma_traded_amount_of_trades(plan.amounts, price);
    lemma_traded_amount_of_filled(plan.filled);
    lemma_traded_amount_append(trades, filled);
    lemma_traded_amount_append(trades + filled, partial);
    match plan.partial {
        Some(id) => lemma_traded_amount_single(MarketEvent::OrderPartiallyFilled(id)),
        None => {},
    }
}

/// Placing an order never loses it. If nothing crosses, the whole order comes
/// to rest at the back of its price level on its own side, indexed under its
/// id, and is reported placed; nothing trades. If it crosses, the trades add up
/// to at most its amount; whatever they leave comes to rest at the back of its
/// price level on its own side, indexed under its id, and the order is reported
/// updated first; if the trades use it up, its own side and the index are
/// untouched.
pub proof fn lemma_place_never_loses_order(book: BookView, side: Side, order: Order)
    requires
        book.wf(),
        book.can_place(side, order),
    ensures
        ({
            let (after, events) = book.place(side, order);
            let traded = traded_amount(events);
            let own = book.side_levels(side);
            let queue = if own.contains_key(order.price) {
                own[order.price].orders
            } else {
                Seq::<(u64, u64)>::empty()
            };
            let rests = book.crossing_price(side, order.price) is None || traded < order.amount;
            &&& traded <= order.amount
            &&& book.crossing_price(side, order.price) is None ==> {
                &&& traded == 0
                &&& events == seq![MarketEvent::OrderPlaced(order.id)]
                &&& after.side_levels(opposite(side)) == book.side_levels(opposite(side))
            }
            &&& rests ==> {
                &&& after.side_levels(side).contains_key(order.price)
                &&& after.side_levels(side)[order.price].orders == queue.push(
                    (order.id, (order.amount - traded) as u64),
                )
                &&& after.side_levels(side) == own.insert(
                    order.price,
                    after.side_levels(side)[order.price],
                )
                &&& after.index == book.index.insert(order.id, (order.price, side))
                &&& events.len() > 0
                &&& (events[0] == MarketEvent::OrderPlaced(order.id) || events[0]
                    == MarketEvent::OrderUpdated(order.id))
            }
            &&& !rests ==> {
                &&& after.side_levels(side) == own
                &&& after.index == book.index
            }
        }),
{
    let (after, events) = book.place(side, order);
    match book.crossing_price(side, order.price) {
        Some(p) => {
            let plan = book.plan_for(side, order);
            let levels = book.side_levels(opposite(side));
            match side {
                Side::Bid => {
                    let q = choose|q: u64| is_lowest_key(book.asks, q);
                    assert(levels.contains_key(q));
                },
                Side::Ask => {
                    let q = choose|q: u64| is_highest_key(book.bids, q);
                    assert(levels.contains_key(q));
                },
            }
            lemma_fill_conserves(levels[p].orders, order.amount);
            lemma_traded_amount_of_plan(plan, order.price);
            if plan.remaining > 0 {
                lemma_traded_amount_append(
                    seq![MarketEvent::OrderUpdated(order.id)],
                    plan_events(plan, order.price),
                );
                lemma_traded_amount_single(MarketEvent::OrderUpdated(order.id));
            }
        },
        None => {
            lemma_traded_amount_single(MarketEvent::OrderPlaced(order.id));
        },
    }
}

/// Amending an order leaves the index and the other side of the book alone;
/// on its side only the level at the indexed price changes, and there only
/// the amounts of the entries of the order.
pub proof fn lemma_amend_keeps_index(book: BookView, side: Side, id: u64, new_amount: u64)
    ensures
        ({
            let (after, r) = book.update(side, id, new_amount);
            let levels = book.side_levels(side);
            let amended = levels.remove(book.index[id].0);
            &&& after.index == book.index
            &&& after.side_levels(opposite(side)) == book.side_levels(opposite(side))
            &&& after.side_levels(side).dom() == levels.dom()
            &&& after.side_levels(side).remove(book.index[id].0) == amended
        }),
{
    let (after, r) = book.update(side, id, new_amount);
    let levels = book.side_levels(side);
    if book.index.contains_key(id) && levels.contains_key(book.index[id].0) {
        let price = book.index[id].0;
        if holds_order(levels[price].orders, id) {
            assert(after.side_levels(side).remove(price) == levels.remove(price));
        }
    }
}

/// An order that was amended can be cancelled right after.
pub proof fn lemma_cancel_after_amend(book: BookView, side: Side, id: u64, new_amount: u64)
    requires
        book.index.contains_key(id),
        book.index[id].1 == side,
        book.side_levels(side).contains_key(book.index[id].0),
        book.update(side, id, new_amount).1 is Ok,
    ensures
        book.update(side, id, new_amount).0.cancel(id).1 == Ok::<MarketEvent, EngineError>(
            MarketEvent::OrderCancelled(id),
        ),
{
    let (after, r) = book.update(side, id, new_amount);
    let price = book.index[id].0;
    let level = book.side_levels(side)[price];
    let i = choose|i: int| 0 <= i < level.orders.len() && #[trigger] level.orders[i].0 == id;
    let amended = after.side_levels(side)[price];
    assert(amended.orders[i].0 == id);
}

/// Resting an order appends it at the back of the level at its price on its
/// side (a new level if there was none), indexes it there, and touches
/// nothing else.
pub proof fn lemma_rest_appends(book: BookView, side: Side, id: u64, price: u64, amount: u64)
    requires
        can_rest(book.side_levels(side), price, amount),
    ensures
        ({
            let after = book.with_resting(side, id, price, amount);
            let own = book.side_levels(side);
            let level = after.side_levels(side)[price];
            &&& after.side_levels(side) == own.insert(price, level)
            &&& after.side_levels(opposite(side)) == book.side_levels(opposite(side))
            &&& after.index == book.index.insert(id, (price, side))
            &&& if own.contains_key(price) {
                &&& level.orders == own[price].orders.push((id, amount))
                &&& level.quantity == own[price].quantity + amount
                &&& level.order_count == own[price].order_count + 1
            } else {
                &&& level.orders == seq![(id, amount)]
                &&& level.quantity == amount
                &&& level.order_count == 1
            }
        }),
{
}

/// Cancelling touches only the order: its id leaves the index, the other side
/// of the book is untouched, and on its side only the level it is taken out
/// of changes. A cancel of an id that is not indexed changes nothing.
pub proof fn lemma_cancel_touches_only_its_order(book: BookView, id: u64)
    ensures
        ({
            let (after, r) = book.cancel(id);
            let (price, side) = book.index[id];
            &&& !book.index.contains_key(id) ==> after == book && r == Err::<
                MarketEvent,
                EngineError,
            >(EngineError::OrderNotFound(id))
            &&& book.index.contains_key(id) ==> {
                &&& after.index == book.index.remove(id)
                &&& after.side_levels(opposite(side)) == book.side_levels(opposite(side))
                &&& after.side_levels(side).remove(price) == book.side_levels(side).remove(price)
                &&& r is Ok <==> book.side_levels(side).contains_key(price)
                    && after.side_levels(side)[price].orders.len() + 1 == book.side_levels(
                    side,
                )[price].orders.len()
            }
        }),
{
    let (after, r) = book.cancel(id);
    let (price, side) = book.index[id];
    if book.index.contains_key(id) {
        let levels = book.side_levels(side);
        if levels.contains_key(price) && holds_order(levels[price].orders, id) {
            lemma_first_position_exists(levels[price].orders, id);
            assert(after.side_levels(side).remove(price) == levels.remove(price));
        }
    }
}

/// Append an order at the back of the level at its price, creating the level
/// if there is none.
fn rest_order(levels: &mut BTreeMap<Price, PriceLevel>, order: &Order)
    requires
        can_rest(levels_view(old(levels)@), order.price, order.amount),
    ensures
        levels_view(final(levels)@) == add_to_levels(
            levels_view(old(levels)@),
            order.price,
            order.id,
            order.amount,
        ),
        levels_wf(levels_view(old(levels)@)) ==> levels_wf(levels_view(final(levels)@)),
{
    let ghost before = levels@;
    match levels.remove(&order.price) {
        Some(mut level) => {
            proof {
                lemma_levels_view_remove(before, order.price);
            }
            level.add_order(order.id, order.amount);
            levels.insert(order.price, level);
            proof {
                lemma_levels_view_insert(before.remove(order.price), order.price, level);
                assert(before.remove(order.price).insert(order.price, level) == before.insert(order.price, level));
                lemma_levels_view_insert(before, order.price, level);
            }
        },
        None => {
            let mut level = PriceLevel::new();
            level.add_order(order.id, order.amount);
            levels.insert(order.price, level);
            proof {
                assert(level@.orders == seq![(order.id, order.amount)]);
                lemma_levels_view_insert(before, order.price, level);
            }
        },
    }
}

/// Match an order against the level at the price.
fn fill_at(levels: &mut BTreeMap<Price, PriceLevel>, price: Price, order: &Order) -> (r: Option<
    FillResult,
>)
    requires
        old(levels)@.contains_key(price),
        old(levels)@[price]@.can_fill(order.amount),
    ensures
        r is Some,
        r->Some_0.records(match_queue(old(levels)@[price]@.orders, order.amount), order.price),
        levels_view(final(levels)@) == levels_view(old(levels)@).insert(
            price,
            old(levels)@[price]@.after_fill(order.amount),
        ),
        levels_wf(levels_view(old(levels)@)) ==> levels_wf(levels_view(final(levels)@)),
{
    let ghost before = levels@;
    assert(levels_view(before).contains_key(price));
    match levels.remove(&price) {
        Some(mut level) => {
            let result = level.try_fill(order);
            levels.insert(price, level);
            proof {
                assert(before.remove(price).insert(price, level) == before.insert(price, level));
                lemma_levels_view_insert(before, price, level);
            }
            result
        },
        None => None,
    }
}

/// Cancel an order in the level at the price.
fn cancel_at(levels: &mut BTreeMap<Price, PriceLevel>, price: Price, order_id: OrderId) -> (r: Result<
    MarketEvent,
    EngineError,
>)
    requires
        levels_view(old(levels)@).contains_key(price) ==> levels_view(old(levels)@)[price].can_remove(
            order_id,
        ),
    ensures
        ({
            let before = levels_view(old(levels)@);
            if before.contains_key(price) && holds_order(before[price].orders, order_id) {
                &&& r == Ok::<MarketEvent, EngineError>(MarketEvent::OrderCancelled(order_id))
                &&& levels_view(final(levels)@) == before.insert(
                    price,
                    before[price].without_order(order_id),
                )
            } else {
                &&& r == Err::<MarketEvent, EngineError>(EngineError::OrderNotFound(order_id))
                &&& levels_view(final(levels)@) == before
            }
        }),
        levels_wf(levels_view(old(levels)@)) ==> levels_wf(levels_view(final(levels)@)),
{
    let ghost before = levels@;
    match levels.remove(&price) {
        Some(mut level) => {
            assert(levels_view(before).contains_key(price));
            let result = level.remove_order(order_id);
            levels.insert(price, level);
            proof {
                assert(before.remove(price).insert(price, level) == before.insert(price, level));
                lemma_levels_view_insert(before, price, level);
                if result is Err {
                    assert(levels_view(before).insert(price, level@) == levels_view(before));
                }
            }
            match result {
                Ok(()) => Ok(MarketEvent::OrderCancelled(order_id)),
                Err(e) => Err(e),
            }
        },
        None => Err(EngineError::OrderNotFound(order_id)),
    }
}

/// Give every entry of the order id in the level at the price the new amount.
fn update_at(
    levels: &mut BTreeMap<Price, PriceLevel>,
    price: Price,
    order_id: OrderId,
    new_amount: u64,
) -> (r: Result<(), EngineError>)
    requires
        levels_view(old(levels)@).contains_key(price) ==> levels_view(old(levels)@)[price].can_update(
            order_id,
            new_amount,
        ),
    ensures
        ({
            let before = levels_view(old(levels)@);
            if !before.contains_key(price) {
                &&& r == Ok::<(), EngineError>(())
                &&& levels_view(final(levels)@) == before
            } else if holds_order(before[price].orders, order_id) {
                &&& r == Ok::<(), EngineError>(())
                &&& levels_view(final(levels)@) == before.insert(
                    price,
                    before[price].with_amount(order_id, new_amount),
                )
            } else {
                &&& r == Err::<(), EngineError>(EngineError::OrderNotFound(order_id))
                &&& levels_view(final(levels)@) == before
            }
        }),
        levels_wf(levels_view(old(levels)@)) ==> levels_wf(levels_view(final(levels)@)),
{
    let ghost before = levels@;
    match levels.remove(&price) {
        Some(mut level) => {
            assert(levels_view(before).contains_key(price));
            let result = level.update_order(order_id, new_amount);
            levels.insert(price, level);
            proof {
                assert(before.remove(price).insert(price, level) == before.insert(price, level));
                lemma_levels_view_insert(before, price, level);
                if result is Err {
                    assert(levels_view(before).insert(price, level@) == levels_view(before));
                }
            }
            result
        },
        None => Ok(()),
    }
}

/// What is left of an incoming amount after matching it against a queue, and
/// how many orders of the queue it fills completely.
fn fill_outcome(orders: &VecDeque<(OrderId, Amount)>, amount: u64) -> (r: (u64, usize))
    ensures
        r.0 == match_queue(orders@, amount).remaining,
        r.1 == match_queue(orders@, amount).filled.len(),
{
    let n = orders.len();
    let mut i: usize = 0;
    let mut remaining = amount;
    proof {
        assert(orders@.skip(0) == orders@);
    }
    while remaining > 0 && i < n
        invariant
            n == orders@.len(),
            i <= n,
            match_queue(orders@.skip(i as int), remaining).remaining == match_queue(
                orders@,
                amount,
            ).remaining,
            i + match_queue(orders@.skip(i as int), remaining).filled.len() == match_queue(
                orders@,
                amount,
            ).filled.len(),
        decreases n - i,
    {
        let current = orders[i].1;
        proof {
            assert(orders@.skip(i as int).drop_first() == orders@.skip(i + 1));
            assert(orders@.skip(i as int)[0] == orders@[i as int]);
        }
        if current <= remaining {
            remaining -= current;
            i += 1;
        } else {
            return (0, i);
        }
    }
    proof {
        if i == n {
            assert(orders@.skip(i as int).len() == 0);
        }
    }
    (remaining, i)
}

impl MatchingEngine {
    /// Create a new matching engine with empty order books.
    pub fn new() -> (engine: Self)
        ensures
            engine@ == (BookView { bids: Map::empty(), asks: Map::empty(), index: Map::empty() }),
            engine@.wf(),
    {
        let engine = Self { bids: BTreeMap::new(), asks: BTreeMap::new(), id_index: HashMap::new() };
        proof {
            assert(levels_view(engine.bids@) == Map::<u64, LevelView>::empty());
            assert(levels_view(engine.asks@) == Map::<u64, LevelView>::empty());
        }
        engine
    }

    pub fn insert_bid(&mut self, order: &Order)
        requires
            can_rest(old(self)@.bids, order.price, order.amount),
        ensures
            final(self)@ == old(self)@.with_resting(Side::Bid, order.id, order.price, order.amount),
            old(self)@.wf() ==> final(self)@.wf(),
    {
        rest_order(&mut self.bids, order);
        self.id_index.insert(order.id, (order.price, Side::Bid));
    }

    pub fn insert_ask(&mut self, order: &Order)
        requires
            can_rest(old(self)@.asks, order.price, order.amount),
        ensures
            final(self)@ == old(self)@.with_resting(Side::Ask, order.id, order.price, order.amount),
            old(self)@.wf() ==> final(self)@.wf(),
    {
        rest_order(&mut self.asks, order);
        self.id_index.insert(order.id, (order.price, Side::Ask));
    }

    pub fn update_bid(&mut self, order_id: OrderId, new_amount: u64) -> (r: Result<(), EngineError>)
        requires
            old(self)@.can_update(Side::Bid, order_id, new_amount),
        ensures
            (final(self)@, r) == old(self)@.update(Side::Bid, order_id, new_amount),
            old(self)@.wf() ==> final(self)@.wf(),
    {
        let indexed = match self.id_index.get(&order_id) {
            Some(entry) => Some(entry.0),
            None => None,
        };
        let ghost before = self@;
        let r = match indexed {
            Some(price) => update_at(&mut self.bids, price, order_id, new_amount),
            None => Ok(()),
        };
        proof {
            let expected = before.update(Side::Bid, order_id, new_amount);
            assert(self@.bids == expected.0.bids);
            assert(self@ == expected.0);
        }
        r
    }

    pub fn update_ask(&mut self, order_id: OrderId, new_amount: u64) -> (r: Result<(), EngineError>)
        requires
            old(self)@.can_update(Side::Ask, order_id, new_amount),
        ensures
            (final(self)@, r) == old(self)@.update(Side::Ask, order_id, new_amount),
            old(self)@.wf() ==> final(self)@.wf(),
    {
        let indexed = match self.id_index.get(&order_id) {
            Some(entry) => Some(entry.0),
            None => None,
        };
        let ghost before = self@;
        let r = match indexed {
            Some(price) => update_at(&mut self.asks, price, order_id, new_amount),
            None => Ok(()),
        };
        proof {
            let expected = before.update(Side::Ask, order_id, new_amount);
            assert(self@.asks == expected.0.asks);
            assert(self@ == expected.0);
        }
        r
    }

    pub fn process_cancel_order(&mut self, order_id: OrderId) -> (r: Result<MarketEvent, EngineError>)
        requires
            old(self)@.can_cancel(order_id),
        ensures
            (final(self)@, r) == old(self)@.cancel(order_id),
            old(self)@.wf() ==> final(self)@.wf(),
    {
        let ghost before = self@;
        let r = match self.id_index.remove(&order_id) {
            Some((price, side)) => match side {
                Side::Bid => cancel_at(&mut self.bids, price, order_id),
                Side::Ask => cancel_at(&mut self.asks, price, order_id),
            },
            None => Err(EngineError::OrderNotFound(order_id)),
        };
        proof {
            let expected = before.cancel(order_id);
            assert(self@.bids == expected.0.bids);
            assert(self@.asks == expected.0.asks);
            assert(self@.index == expected.0.index);
            assert(r == expected.1);
        }
        r
    }

    pub fn process_buy_order(&mut self, order: &Order) -> (r: Result<Vec<MarketEvent>, EngineError>)
        requires
            old(self)@.can_place(Side::Bid, *order),
        ensures
            r is Ok,
            (final(self)@, r->Ok_0@) == old(self)@.place(Side::Bid, *order),
            old(self)@.wf() ==> final(self)@.wf(),
    {
        let ghost before = self@;
        let mut events: Vec<MarketEvent> = Vec::new();
        let best = lowest_price(&self.asks);
        proof {
            match best {
                Some(p) => {
                    assert(is_lowest_key(before.asks, p));
                    lemma_lowest_key(before.asks, p);
                },
                None => {
                    assert(!exists|p: u64| is_lowest_key(before.asks, p));
                },
            }
        }
        match best {
            Some(price) if price <= order.price => {
                match fill_at(&mut self.asks, price, order) {
                    Some(fill_result) => {
                        proof {
                            lemma_fill_events(fill_result, before.plan_for(Side::Bid, *order), order.price);
                        }
                        if fill_result.remaining_amount > 0 {
                            let remaining_order = Order::new(
                                order.id,
                                order.side,
                                order.price,
                                fill_result.remaining_amount,
                            );
                            self.insert_bid(&remaining_order);
                            events.push(MarketEvent::OrderUpdated(order.id));
                        }
                        let mut fill_events = fill_result.into_events();
                        events.append(&mut fill_events);
                    },
                    None => {
                        self.insert_bid(order);
                        events.push(MarketEvent::OrderPlaced(order.id));
                    },
                }
            },
            _ => {
                self.insert_bid(order);
                events.push(MarketEvent::OrderPlaced(order.id));
            },
        }
        Ok(events)
    }

    pub fn process_sell_order(&mut self, order: &Order) -> (r: Result<Vec<MarketEvent>, EngineError>)
        requires
            old(self)@.can_place(Side::Ask, *order),
        ensures
            r is Ok,
            (final(self)@, r->Ok_0@) == old(self)@.place(Side::Ask, *order),
            old(self)@.wf() ==> final(self)@.wf(),
    {
        let ghost before = self@;
        let mut events: Vec<MarketEvent> = Vec::new();
        let best = highest_price(&self.bids);
        proof {
            match best {
                Some(p) => {
                    assert(is_highest_key(before.bids, p));
                    lemma_highest_key(before.bids, p);
                },
                None => {
                    assert(!exists|p: u64| is_highest_key(before.bids, p));
                },
            }
        }
        match best {
            Some(price) if price >= order.price => {
                match fill_at(&mut self.bids, price, order) {
                    Some(fill_result) => {
                        proof {
                            lemma_fill_events(fill_result, before.plan_for(Side::Ask, *order), order.price);
                        }
                        if fill_result.remaining_amount > 0 {
                            let remaining_order = Order::new(
                                order.id,
                                order.side,
                                order.price,
                                fill_result.remaining_amount,
                            );
                            self.insert_ask(&remaining_order);
                            events.push(MarketEvent::OrderUpdated(order.id));
                        }
                        let mut fill_events = fill_result.into_events();
                        events.append(&mut fill_events);
                    },
                    None => {
                        self.insert_ask(order);
                        events.push(MarketEvent::OrderPlaced(order.id));
                    },
                }
            },
            _ => {
                self.insert_ask(order);
                events.push(MarketEvent::OrderPlaced(order.id));
            },
        }
        Ok(events)
    }

    /// The decision of one step of the engine's event loop: a new order is
    /// placed on its side, a cancel request cancels. The events to publish
    /// come back, or the error to report.
    pub fn handle_order_event(&mut self, event: OrderEvent) -> (r: Result<Vec<MarketEvent>, EngineError>)
        requires
            match event {
                OrderEvent::New(order) => old(self)@.can_place(order.side, *order),
                OrderEvent::Cancel(id) => old(self)@.can_cancel(id),
            },
        ensures
            match event {
                OrderEvent::New(order) => {
                    &&& r is Ok
                    &&& (final(self)@, r->Ok_0@) == old(self)@.place(order.side, *order)
                },
                OrderEvent::Cancel(id) => {
                    &&& final(self)@ == old(self)@.cancel(id).0
                    &&& match old(self)@.cancel(id).1 {
                        Ok(e) => r is Ok && r->Ok_0@ == seq![e],
                        Err(e) => r == Err::<Vec<MarketEvent>, EngineError>(e),
                    }
                },
            },
            old(self)@.wf() ==> final(self)@.wf(),
    {
        match event {
            OrderEvent::New(new_order) => self.process_new_order(&new_order),
            OrderEvent::Cancel(order_id) => match self.process_cancel_order(order_id) {
                Ok(event) => {
                    let mut events: Vec<MarketEvent> = Vec::new();
                    events.push(event);
                    Ok(events)
                },
                Err(err) => Err(err),
            },
        }
    }

    pub fn process_new_order(&mut self, new_order: &Order) -> (r: Result<Vec<MarketEvent>, EngineError>)
        requires
            old(self)@.can_place(new_order.side, *new_order),
        ensures
            r is Ok,
            (final(self)@, r->Ok_0@) == old(self)@.place(new_order.side, *new_order),
            old(self)@.wf() ==> final(self)@.wf(),
    {
        match new_order.side {
            Side::Bid => self.process_buy_order(new_order),
            Side::Ask => self.process_sell_order(new_order),
        }
    }

    /// Whether the order can be placed on this side: the level it trades
    /// against keeps its totals from going below zero, and the level it would
    /// rest in, if any, keeps them within `u64`.
    pub fn accepts_order(&self, side: Side, order: &Order) -> (r: bool)
        ensures
            r == self@.can_place(side, *order),
    {
        let ghost book = self@;
        let (best, crossing_levels) = match side {
            Side::Bid => (lowest_price(&self.asks), &self.asks),
            Side::Ask => (highest_price(&self.bids), &self.bids),
        };
        proof {
            match best {
                Some(p) => {
                    if side == Side::Bid {
                        assert(is_lowest_key(book.asks, p));
                        lemma_lowest_key(book.asks, p);
                    } else {
                        assert(is_highest_key(book.bids, p));
                        lemma_highest_key(book.bids, p);
                    }
                },
                None => {
                    if side == Side::Bid {
                        assert(!exists|p: u64| is_lowest_key(book.asks, p));
                    } else {
                        assert(!exists|p: u64| is_highest_key(book.bids, p));
                    }
                },
            }
        }
        let crossing = match best {
            Some(p) => match side {
                Side::Bid => p <= order.price,
                Side::Ask => p >= order.price,
            },
            None => false,
        };
        let (fits, resting): (bool, Option<u64>) = if crossing {
            match (best, crossing_levels.get(&best.unwrap())) {
                (Some(_), Some(level)) => {
                    let (left, filled) = fill_outcome(&level.orders, order.amount);
                    proof {
                        lemma_fill_conserves(level@.orders, order.amount);
                    }
                    let fits = level.quantity >= order.amount - left && level.order_count
                        >= filled as u64;
                    if left > 0 {
                        (fits, Some(left))
                    } else {
                        (fits, None)
                    }
                },
                _ => (true, None),
            }
        } else {
            (true, Some(order.amount))
        };
        if !fits {
            return false;
        }
        match resting {
            Some(amount) => {
                let own_levels = match side {
                    Side::Bid => &self.bids,
                    Side::Ask => &self.asks,
                };
                match own_levels.get(&order.price) {
                    Some(level) => level.quantity <= u64::MAX - amount && level.order_count
                        < u64::MAX,
                    None => true,
                }
            },
            None => true,
        }
    }

    /// Whether the order can be cancelled: the level it would be taken out of
    /// keeps its totals from going below zero.
    pub fn accepts_cancel(&self, order_id: OrderId) -> (r: bool)
        ensures
            r == self@.can_cancel(order_id),
    {
        let indexed = match self.id_index.get(&order_id) {
            Some(entry) => Some(*entry),
            None => None,
        };
        match indexed {
            Some((price, side)) => {
                let levels = match side {
                    Side::Bid => &self.bids,
                    Side::Ask => &self.asks,
                };
                match levels.get(&price) {
                    Some(level) => match level.find_order(order_id) {
                        Some(i) => {
                            proof {
                                assert(first_position(level@.orders, order_id) == i);
                            }
                            level.quantity >= level.orders[i].1 && level.order_count >= 1
                        },
                        None => true,
                    },
                    None => true,
                }
            },
            None => true,
        }
    }
}
} // verus!
