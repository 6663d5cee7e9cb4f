use std::collections::VecDeque;
use vstd::prelude::*;

use crate::errors::EngineError;
use crate::order::{Amount, MarketEvent, Order, OrderId, Trade};

verus! {

/// Sum of the amounts of a queue of `(order id, amount)` entries.
pub open spec fn total_amount(s: Seq<(u64, u64)>) -> nat
    decreases s.len(),
{
    if s.len() == 0 {
        0
    } else {
        total_amount(s.drop_last()) + s.last().1 as nat
    }
}

/// Sum of a sequence of amounts.
pub open spec fn sum_amounts(s: Seq<u64>) -> nat
    decreases s.len(),
{
    if s.len() == 0 {
        0
    } else {
        sum_amounts(s.drop_last()) + s.last() as nat
    }
}

/// Whether some entry of the queue carries the order id.
pub open spec fn holds_order(s: Seq<(u64, u64)>, id: u64) -> bool {
    exists|i: int| 0 <= i < s.len() && #[trigger] s[i].0 == id
}

/// `i` is the first position of the queue that carries the order id.
pub open spec fn is_first_position(s: Seq<(u64, u64)>, id: u64, i: int) -> bool {
    &&& 0 <= i < s.len()
    &&& s[i].0 == id
    &&& forall|j: int| 0 <= j < i ==> #[trigger] s[j].0 != id
}

/// The first position of the queue that carries the order id.
pub open spec fn first_position(s: Seq<(u64, u64)>, id: u64) -> int {
    choose|i: int| is_first_position(s, id, i)
}

/// The queue with every entry of the order id given the new amount.
pub open spec fn replace_amounts(s: Seq<(u64, u64)>, id: u64, new_amount: u64) -> Seq<(u64, u64)> {
    s.map_values(|e: (u64, u64)| if e.0 == id { (id, new_amount) } else { e })
}

/// What an incoming amount does to a queue of resting orders, taken first in
/// first out.
pub struct FillPlan {
    /// The amount of each trade, in the order the trades happen.
    pub amounts: Seq<u64>,
    /// The ids of the resting orders that were filled completely.
    pub filled: Seq<u64>,
    /// The resting order that was filled in part, if any.
    pub partial: Option<u64>,
    /// What is left of the incoming amount.
    pub remaining: u64,
    /// The queue afterwards.
    pub rest: Seq<(u64, u64)>,
}

/// First-in-first-out matching of an incoming amount against a queue: the
/// front order trades as much as it can; if it is filled completely it leaves
/// the queue and matching goes on with the next one, otherwise it stays at the
/// front with what is left of it, and the incoming amount is used up.
pub open spec fn match_queue(orders: Seq<(u64, u64)>, remaining: u64) -> FillPlan
    decreases orders.len(),
{
    if remaining == 0 || orders.len() == 0 {
        FillPlan {
            amounts: Seq::empty(),
            filled: Seq::empty(),
            partial: None,
            remaining,
            rest: orders,
        }
    } else if orders[0].1 <= remaining {
        let next = match_queue(orders.drop_first(), (remaining - orders[0].1) as u64);
        FillPlan {
            amounts: seq![orders[0].1] + next.amounts,
            filled: seq![orders[0].0] + next.filled,
            partial: next.partial,
            remaining: next.remaining,
            rest: next.rest,
        }
    } else {
        FillPlan {
            amounts: seq![remaining],
            filled: Seq::empty(),
            partial: Some(orders[0].0),
            remaining: 0,
            rest: seq![(orders[0].0, (orders[0].1 - remaining) as u64)] + orders.drop_first(),
        }
    }
}

/// The trades of a fill at the given price, numbered from zero.
pub open spec fn fill_trades(amounts: Seq<u64>, price: u64) -> Seq<Trade> {
    Seq::new(amounts.len(), |i: int| Trade { id: i as u64, price, amount: amounts[i] })
}

/// The state of a price level.
pub struct LevelView {
    pub quantity: u64,
    pub order_count: u64,
    pub orders: Seq<(u64, u64)>,
}

impl LevelView {
    /// The level's totals agree with its queue.
    pub open spec fn wf(self) -> bool {
        &&& self.quantity == total_amount(self.orders)
        &&& self.order_count == self.orders.len()
    }

    /// Adding the amount keeps both totals within `u64`.
    pub open spec fn accepts(self, amount: u64) -> bool {
        &&& self.quantity + amount <= u64::MAX
        &&& self.order_count < u64::MAX
    }

    /// The level with an order appended at the back of its queue.
    pub open spec fn with_order(self, id: u64, amount: u64) -> LevelView {
        LevelView {
            quantity: (self.quantity + amount) as u64,
            order_count: (self.order_count + 1) as u64,
            orders: self.orders.push((id, amount)),
        }
    }

    /// Taking out the first entry of the order id, if there is one, keeps
    /// both totals from going below zero.
    pub open spec fn can_remove(self, id: u64) -> bool {
        holds_order(self.orders, id) ==> {
            &&& self.quantity >= self.orders[first_position(self.orders, id)].1
            &&& self.order_count >= 1
        }
    }

    /// The level without the first entry of the order id.
    pub open spec fn without_order(self, id: u64) -> LevelView {
        let i = first_position(self.orders, id);
        LevelView {
            quantity: (self.quantity - self.orders[i].1) as u64,
            order_count: (self.order_count - 1) as u64,
            orders: self.orders.remove(i),
        }
    }

    /// The level's total once the entries of the order id among the first
    /// `j` of the queue were given the new amount, each in turn.
    pub open spec fn running_quantity(self, id: u64, new_amount: u64, j: int) -> int {
        self.quantity + total_amount(replace_amounts(self.orders.take(j), id, new_amount))
            - total_amount(self.orders.take(j))
    }

    /// While the entries of the order id are given the new amount, front to
    /// back, the running total neither goes below zero nor leaves `u64`.
    pub open spec fn can_update(self, id: u64, new_amount: u64) -> bool {
        forall|j: int|
            #![trigger self.orders[j]]
            0 <= j < self.orders.len() && self.orders[j].0 == id ==> {
                &&& self.running_quantity(id, new_amount, j) >= self.orders[j].1
                &&& self.running_quantity(id, new_amount, j) - self.orders[j].1 + new_amount
                    <= u64::MAX
            }
    }

    /// The level with every entry of the order id given the new amount.
    pub open spec fn with_amount(self, id: u64, new_amount: u64) -> LevelView {
        LevelView {
            quantity: self.running_quantity(id, new_amount, self.orders.len() as int) as u64,
            order_count: self.order_count,
            orders: replace_amounts(self.orders, id, new_amount),
        }
    }

    /// Matching an incoming amount against the level keeps both totals from
    /// going below zero.
    pub open spec fn can_fill(self, amount: u64) -> bool {
        let plan = match_queue(self.orders, amount);
        &&& self.quantity >= sum_amounts(plan.amounts)
        &&& self.order_count >= plan.filled.len()
    }

    /// The level after an incoming amount was matched against it: what traded
    /// leaves its quantity, and the filled orders leave its count.
    pub open spec fn after_fill(self, amount: u64) -> LevelView {
        let plan = match_queue(self.orders, amount);
        LevelView {
            quantity: (self.quantity - sum_amounts(plan.amounts)) as u64,
            order_count: (self.order_count - plan.filled.len()) as u64,
            orders: plan.rest,
        }
    }
}

/// An empty level with the order as its only entry.
pub open spec fn level_of(id: u64, amount: u64) -> LevelView {
    LevelView { quantity: amount, order_count: 1, orders: seq![(id, amount)] }
}

/// The orders resting at one price, oldest first, with their total amount and
/// their number.
#[derive(Debug, Clone)]
pub struct PriceLevel {
    pub quantity: u64,
    pub orders: VecDeque<(OrderId, Amount)>,
    pub order_count: u64,
}

impl View for PriceLevel {
    type V = LevelView;

    open spec fn view(&self) -> LevelView {
        LevelView { quantity: self.quantity, order_count: self.order_count, orders: self.orders@ }
    }
}

/// What matching an order against a level produced.
pub struct FillResult {
    pub trades: Vec<Trade>,
    pub filled_orders: Vec<OrderId>,
    pub partially_filled_order: Option<OrderId>,
    pub remaining_amount: u64,
}

impl FillResult {
    /// The result records the plan, with its trades at the given price.
    pub open spec fn records(self, plan: FillPlan, price: u64) -> bool {
        &&& self.trades@ == fill_trades(plan.amounts, price)
        &&& self.filled_orders@ == plan.filled
        &&& self.partially_filled_order == plan.partial
        &&& self.remaining_amount == plan.remaining
    }

    /// The events that report the result: a trade event for each trade, then a
    /// filled event for each filled order, then a partially filled event for
    /// the order filled in part, if any.
    pub open spec fn events(self) -> Seq<MarketEvent> {
        self.trades@.map_values(|t: Trade| MarketEvent::Trade(Box::new(t)))
            + self.filled_orders@.map_values(|id: u64| MarketEvent::OrderFilled(id))
            + match self.partially_filled_order {
            Some(id) => seq![MarketEvent::OrderPartiallyFilled(id)],
            None => Seq::<MarketEvent>::empty(),
        }
    }

    pub fn into_events(self) -> (events: Vec<MarketEvent>)
        ensures
            events@ == self.events(),
    {
        let mut events: Vec<MarketEvent> = Vec::new();
        let n = self.trades.len();
        for i in 0..n
            invariant
                n == self.trades@.len(),
                events@ == self.trades@.take(i as int).map_values(
                    |t: Trade| MarketEvent::Trade(Box::new(t)),
                ),
        {
            events.push(MarketEvent::Trade(Box::new(self.trades[i])));
            assert(self.trades@.take(i + 1) == self.trades@.take(i as int).push(self.trades@[i as int]));
        }
        assert(self.trades@.take(n as int) == self.trades@);
        let ghost trade_events = events@;
        let m = self.filled_orders.len();
        for j in 0..m
            invariant
                m == self.filled_orders@.len(),
                events@ == trade_events + self.filled_orders@.take(j as int).map_values(
                    |id: u64| MarketEvent::OrderFilled(id),
                ),
        {
            events.push(MarketEvent::OrderFilled(self.filled_orders[j]));
            assert(self.filled_orders@.take(j + 1) == self.filled_orders@.take(j as int).push(
                self.filled_orders@[j as int],
            ));
        }
        assert(self.filled_orders@.take(m as int) == self.filled_orders@);
        if let Some(id) = self.partially_filled_order {
            events.push(MarketEvent::OrderPartiallyFilled(id));
        }
        events
    }
}

proof fn lemma_total_amount_append(a: Seq<(u64, u64)>, b: Seq<(u64, u64)>)
    ensures
        total_amount(a + b) == total_amount(a) + total_amount(b),
    decreases b.len(),
{
    if b.len() == 0 {
        assert(a + b == a);
    } else {
        lemma_total_amount_append(a, b.drop_last());
        assert((a + b).drop_last() == a + b.drop_last());
    }
}

proof fn lemma_total_amount_push(s: Seq<(u64, u64)>, e: (u64, u64))
    ensures
        total_amount(s.push(e)) == total_amount(s) + e.1,
{
    assert(s.push(e).drop_last() == s);
}

proof fn lemma_sum_amounts_push(s: Seq<u64>, x: u64)
    ensures
        sum_amounts(s.push(x)) == sum_amounts(s) + x,
{
    assert(s.push(x).drop_last() == s);
}

proof fn lemma_sum_amounts_append(a: Seq<u64>, b: Seq<u64>)
    ensures
        sum_amounts(a + b) == sum_amounts(a) + sum_amounts(b),
    decreases b.len(),
{
    if b.len() == 0 {
        assert(a + b == a);
    } else {
        lemma_sum_amounts_append(a, b.drop_last());
        assert((a + b).drop_last() == a + b.drop_last());
    }
}

proof fn lemma_total_amount_single(e: (u64, u64))
    ensures
        total_amount(seq![e]) == e.1,
{
    let one = seq![e];
    assert(one.drop_last() == Seq::<(u64, u64)>::empty());
    assert(one.last() == e);
    assert(total_amount(one.drop_last()) == 0);
}

proof fn lemma_total_amount_front(s: Seq<(u64, u64)>)
    requires
        s.len() > 0,
    ensures
        total_amount(s) == s[0].1 + total_amount(s.drop_first()),
{
    lemma_total_amount_append(seq![s[0]], s.drop_first());
    lemma_total_amount_single(s[0]);
    assert(seq![s[0]] + s.drop_first() == s);
}

proof fn lemma_total_amount_remove(s: Seq<(u64, u64)>, i: int)
    requires
        0 <= i < s.len(),
    ensures
        total_amount(s) == total_amount(s.remove(i)) + s[i].1,
{
    lemma_total_amount_append(s.take(i), s.skip(i));
    lemma_total_amount_front(s.skip(i));
    lemma_total_amount_append(s.take(i), s.skip(i + 1));
    assert(s.take(i) + s.skip(i) == s);
    assert(s.skip(i).drop_first() == s.skip(i + 1));
    assert(s.take(i) + s.skip(i + 1) == s.remove(i));
}

proof fn lemma_sum_amounts_prepend(x: u64, s: Seq<u64>)
    ensures
        sum_amounts(seq![x] + s) == x + sum_amounts(s),
    decreases s.len(),
{
    if s.len() == 0 {
        assert(seq![x] + s == seq![x]);
        assert(seq![x].drop_last() == Seq::<u64>::empty());
        assert(seq![x].last() == x);
        assert(sum_amounts(Seq::<u64>::empty()) == 0);
    } else {
        lemma_sum_amounts_prepend(x, s.drop_last());
        assert((seq![x] + s).drop_last() == seq![x] + s.drop_last());
    }
}

/// A fill neither creates nor loses an amount: the trades and what is left of
/// the incoming amount add up to it, the trades and what rests in the queue
/// afterwards add up to what rested before, and something is left of the
/// incoming amount only if the whole queue was used up.
pub proof fn lemma_fill_conserves(orders: Seq<(u64, u64)>, amount: u64)
    ensures
        sum_amounts(match_queue(orders, amount).amounts) + match_queue(orders, amount).remaining
            == amount,
        total_amount(match_queue(orders, amount).rest) + sum_amounts(
            match_queue(orders, amount).amounts,
        ) == total_amount(orders),
        match_queue(orders, amount).remaining > 0 ==> match_queue(orders, amount).rest.len() == 0,
    decreases orders.len(),
{
    if amount == 0 || orders.len() == 0 {
        assert(sum_amounts(Seq::<u64>::empty()) == 0);
    } else if orders[0].1 <= amount {
        let next = match_queue(orders.drop_first(), (amount - orders[0].1) as u64);
        lemma_fill_conserves(orders.drop_first(), (amount - orders[0].1) as u64);
        lemma_sum_amounts_prepend(orders[0].1, next.amounts);
        lemma_total_amount_front(orders);
    } else {
        let rest = seq![(orders[0].0, (orders[0].1 - amount) as u64)] + orders.drop_first();
        lemma_sum_amounts_prepend(amount, Seq::<u64>::empty());
        assert(seq![amount] + Seq::<u64>::empty() == seq![amount]);
        assert(sum_amounts(Seq::<u64>::empty()) == 0);
        lemma_total_amount_front(rest);
        assert(rest.drop_first() == orders.drop_first());
        lemma_total_amount_front(orders);
    }
}

/// A fill takes the queue in order, oldest first: the filled orders are the
/// front of the queue, each traded in full; if an order is filled in part it
/// is the next one, it keeps its place at the front with what is left of it,
/// and the orders behind it are untouched.
pub proof fn lemma_fill_first_in_first_out(orders: Seq<(u64, u64)>, amount: u64)
    ensures
        ({
            let plan = match_queue(orders, amount);
            let k = plan.filled.len() as int;
            &&& k <= orders.len()
            &&& forall|i: int| 0 <= i < k ==> #[trigger] plan.filled[i] == orders[i].0
            &&& forall|i: int| 0 <= i < k ==> #[trigger] plan.amounts[i] == orders[i].1
            &&& match plan.partial {
                None => {
                    &&& plan.amounts.len() == k
                    &&& plan.rest == orders.skip(k)
                },
                Some(id) => {
                    &&& k < orders.len()
                    &&& id == orders[k].0
                    &&& plan.amounts.len() == k + 1
                    &&& plan.amounts[k] < orders[k].1
                    &&& plan.rest == seq![(id, (orders[k].1 - plan.amounts[k]) as u64)]
                        + orders.skip(k + 1)
                },
            }
        }),
    decreases orders.len(),
{
    let plan = match_queue(orders, amount);
    if amount == 0 || orders.len() == 0 {
        assert(orders.skip(0) == orders);
    } else if orders[0].1 <= amount {
        let tail = orders.drop_first();
        let next = match_queue(tail, (amount - orders[0].1) as u64);
        lemma_fill_first_in_first_out(tail, (amount - orders[0].1) as u64);
        let k = plan.filled.len() as int;
        assert(k == next.filled.len() + 1);
        assert forall|i: int| 0 <= i < k implies #[trigger] plan.filled[i] == orders[i].0 by {
            if i > 0 {
                assert(plan.filled[i] == next.filled[i - 1]);
                assert(tail[i - 1] == orders[i]);
            }
        }
        assert forall|i: int| 0 <= i < k implies #[trigger] plan.amounts[i] == orders[i].1 by {
            if i > 0 {
                assert(plan.amounts[i] == next.amounts[i - 1]);
                assert(tail[i - 1] == orders[i]);
            }
        }
        assert(tail.skip(k - 1) == orders.skip(k));
        match plan.partial {
            None => {},
            Some(id) => {
                assert(tail.skip(k) == orders.skip(k + 1));
                assert(plan.amounts[k] == next.amounts[k - 1]);
                assert(tail[k - 1] == orders[k]);
            },
        }
    } else {
        assert(orders.drop_first() == orders.skip(1));
    }
}

/// Taking out the order just added gives the level back as it was.
pub proof fn lemma_remove_undoes_add(level: LevelView, id: u64, amount: u64)
    requires
        level.wf(),
        level.accepts(amount),
        !holds_order(level.orders, id),
    ensures
        level.with_order(id, amount).without_order(id) == level,
{
    let added = level.with_order(id, amount);
    let n = level.orders.len() as int;
    assert(added.orders[n].0 == id);
    assert forall|j: int| 0 <= j < n implies #[trigger] added.orders[j].0 != id by {
        assert(added.orders[j] == level.orders[j]);
    }
    assert(is_first_position(added.orders, id, n));
    assert(first_position(added.orders, id) == n);
    assert(added.orders.remove(n) == level.orders);
}

/// An order id that a queue holds has a first position in it.
pub proof fn lemma_first_position_exists(s: Seq<(u64, u64)>, id: u64)
    requires
        holds_order(s, id),
    ensures
        is_first_position(s, id, first_position(s, id)),
    decreases s.len(),
{
    if s[0].0 == id {
        assert(is_first_position(s, id, 0));
    } else {
        let tail = s.drop_first();
        let i = choose|i: int| 0 <= i < s.len() && #[trigger] s[i].0 == id;
        assert(tail[i - 1].0 == id);
        lemma_first_position_exists(tail, id);
        let j = first_position(tail, id);
        assert forall|k: int| 0 <= k < j + 1 implies #[trigger] s[k].0 != id by {
            if k > 0 {
                assert(s[k] == tail[k - 1]);
            }
        }
        assert(is_first_position(s, id, j + 1));
    }
}

/// A well formed level can give up the first entry of any order id it holds.
pub proof fn lemma_wf_can_remove(level: LevelView, id: u64)
    requires
        level.wf(),
    ensures
        level.can_remove(id),
{
    if holds_order(level.orders, id) {
        lemma_first_position_exists(level.orders, id);
        lemma_total_amount_remove(level.orders, first_position(level.orders, id));
    }
}

/// A well formed level can be matched against any incoming amount.
pub proof fn lemma_wf_can_fill(level: LevelView, amount: u64)
    requires
        level.wf(),
    ensures
        level.can_fill(amount),
{
    lemma_fill_conserves(level.orders, amount);
    lemma_fill_first_in_first_out(level.orders, amount);
}

/// Adding an order appends it at the back of the queue: every entry already
/// there keeps its place, and the totals grow by the order.
pub proof fn lemma_add_appends(level: LevelView, id: u64, amount: u64)
    requires
        level.accepts(amount),
    ensures
        ({
            let after = level.with_order(id, amount);
            let n = level.orders.len() as int;
            &&& after.orders.len() == n + 1
            &&& forall|i: int| 0 <= i < n ==> #[trigger] after.orders[i] == level.orders[i]
            &&& after.orders[n] == (id, amount)
            &&& after.quantity == level.quantity + amount
            &&& after.order_count == level.order_count + 1
        }),
{
}

proof fn lemma_match_queue_spares_back(s: Seq<(u64, u64)>, x: (u64, u64), incoming: u64)
    requires
        incoming <= total_amount(s),
    ensures
        match_queue(s.push(x), incoming).rest.len() > 0,
        match_queue(s.push(x), incoming).rest.last() == x,
        match_queue(s.push(x), incoming).filled.len() <= s.len(),
    decreases s.len(),
{
    let q = s.push(x);
    if incoming == 0 {
    } else if s.len() == 0 {
        assert(total_amount(s) == 0);
    } else {
        lemma_total_amount_front(s);
        assert(q[0] == s[0]);
        assert(q.drop_first() == s.drop_first().push(x));
        if q[0].1 <= incoming {
            lemma_match_queue_spares_back(s.drop_first(), x, (incoming - s[0].1) as u64);
        } else {
            let rest = match_queue(q, incoming).rest;
            assert(rest == seq![(q[0].0, (q[0].1 - incoming) as u64)] + s.drop_first().push(x));
            assert(rest.last() == x);
        }
    }
}

/// Time priority: an order added to a level is not reached by a fill that the
/// orders already resting there can cover; it stays, untouched, at the back.
pub proof fn lemma_time_priority(level: LevelView, id: u64, amount: u64, incoming: u64)
    requires
        incoming <= total_amount(level.orders),
    ensures
        ({
            let after = level.with_order(id, amount).after_fill(incoming);
            &&& after.orders.len() > 0
            &&& after.orders.last() == (id, amount)
            &&& match_queue(level.with_order(id, amount).orders, incoming).filled.len()
                <= level.orders.len()
        }),
{
    lemma_match_queue_spares_back(level.orders, (id, amount), incoming);
}

/// A fill takes the level's queue front first and leaves the rest of it in
/// place: the filled orders are the front of the queue, each traded in full;
/// an order filled in part is the next one and stays at the front with what is
/// left of it; the orders behind keep their relative order. The traded amounts
/// and what is left of the incoming amount add up to it, and the level's totals
/// lose exactly what traded and the filled orders.
pub proof fn lemma_fill_keeps_queue_order(level: LevelView, amount: u64)
    requires
        level.can_fill(amount),
    ensures
        ({
            let plan = match_queue(level.orders, amount);
            let after = level.after_fill(amount);
            let k = plan.filled.len() as int;
            &&& k <= level.orders.len()
            &&& forall|i: int| 0 <= i < k ==> #[trigger] plan.filled[i] == level.orders[i].0
            &&& forall|i: int| 0 <= i < k ==> #[trigger] plan.amounts[i] == level.orders[i].1
            &&& sum_amounts(plan.amounts) + plan.remaining == amount
            &&& after.quantity + sum_amounts(plan.amounts) == level.quantity
            &&& after.order_count + k == level.order_count
            &&& plan.remaining > 0 ==> after.orders.len() == 0
            &&& match plan.partial {
                None => {
                    &&& plan.amounts.len() == k
                    &&& after.orders == level.orders.skip(k)
                },
                Some(pid) => {
                    &&& k < level.orders.len()
                    &&& pid == level.orders[k].0
                    &&& plan.amounts.len() == k + 1
                    &&& plan.amounts[k] < level.orders[k].1
                    &&& after.orders == seq![(pid, (level.orders[k].1 - plan.amounts[k]) as u64)]
                        + level.orders.skip(k + 1)
                },
            }
        }),
{
    lemma_fill_first_in_first_out(level.orders, amount);
    lemma_fill_conserves(level.orders, amount);
}

/// Removing an order takes out the first entry of its id and nothing else:
/// the entries before and after it keep their relative order, and the totals
/// lose exactly that entry.
pub proof fn lemma_remove_takes_first_entry(level: LevelView, id: u64)
    requires
        holds_order(level.orders, id),
        level.can_remove(id),
    ensures
        exists|i: int|
            #![trigger level.orders[i]]
            {
                let after = level.without_order(id);
                &&& 0 <= i < level.orders.len()
                &&& level.orders[i].0 == id
                &&& forall|j: int| 0 <= j < i ==> #[trigger] level.orders[j].0 != id
                &&& after.orders == level.orders.take(i) + level.orders.skip(i + 1)
                &&& after.quantity + level.orders[i].1 == level.quantity
                &&& after.order_count + 1 == level.order_count
            },
{
    lemma_first_position_exists(level.orders, id);
    let i = first_position(level.orders, id);
    assert(level.orders.remove(i) == level.orders.take(i) + level.orders.skip(i + 1));
    let after = level.without_order(id);
    assert(after.orders == level.orders.take(i) + level.orders.skip(i + 1));
    assert(level.orders[i].0 == id);
}

/// Changing an order's amount changes the amount of each of its entries and
/// nothing else: the queue keeps its length and order, and every other entry
/// is untouched.
pub proof fn lemma_amend_changes_only_amounts(level: LevelView, id: u64, new_amount: u64)
    ensures
        ({
            let after = level.with_amount(id, new_amount);
            &&& after.orders.len() == level.orders.len()
            &&& after.order_count == level.order_count
            &&& forall|i: int|
                0 <= i < level.orders.len() ==> #[trigger] after.orders[i] == if level.orders[i].0
                    == id {
                    (id, new_amount)
                } else {
                    level.orders[i]
                }
        }),
{
}

impl PriceLevel {
    /// Create a new price level
    pub fn new() -> (level: Self)
        ensures
            level@ == (LevelView { quantity: 0, order_count: 0, orders: Seq::empty() }),
            level@.wf(),
    {
        Self { quantity: 0, orders: VecDeque::new(), order_count: 0 }
    }

    pub fn add_order(&mut self, order_id: OrderId, amount: Amount)
        requires
            old(self)@.accepts(amount),
        ensures
            final(self)@ == old(self)@.with_order(order_id, amount),
            old(self)@.wf() ==> final(self)@.wf(),
    {
        self.orders.push_back((order_id, amount));
        self.order_count += 1;
        self.quantity += amount;
        proof {
            assert(self.orders@.drop_last() == old(self).orders@);
        }
    }

    pub(crate) fn find_order(&self, order_id: OrderId) -> (r: Option<usize>)
        ensures
            match r {
                Some(i) => is_first_position(self.orders@, order_id, i as int),
                None => !holds_order(self.orders@, order_id),
            },
    {
        let n = self.orders.len();
        for i in 0..n
            invariant
                n == self.orders@.len(),
                forall|j: int| 0 <= j < i ==> #[trigger] self.orders@[j].0 != order_id,
        {
            if self.orders[i].0 == order_id {
                return Some(i);
            }
        }
        None
    }

    pub fn remove_order(&mut self, order_id: OrderId) -> (r: Result<(), EngineError>)
        requires
            old(self)@.can_remove(order_id),
        ensures
            holds_order(old(self).orders@, order_id) ==> r == Ok::<(), EngineError>(())
                && final(self)@ == old(self)@.without_order(order_id),
            !holds_order(old(self).orders@, order_id) ==> r == Err::<(), EngineError>(
                EngineError::OrderNotFound(order_id),
            ) && final(self)@ == old(self)@,
            old(self)@.wf() ==> final(self)@.wf(),
    {
        match self.find_order(order_id) {
            Some(i) => {
                proof {
                    lemma_total_amount_remove(self.orders@, i as int);
                    assert(is_first_position(self.orders@, order_id, i as int));
                    assert(first_position(self.orders@, order_id) == i);
                }
                let removed = self.orders.remove(i);
                match removed {
                    Some((_, amount)) => {
                        self.quantity -= amount;
                        self.order_count -= 1;
                    },
                    None => {},
                }
                Ok(())
            },
            None => Err(EngineError::OrderNotFound(order_id)),
        }
    }

    /// Match an incoming order against the level, front of the queue first.
    /// The trades happen at the incoming order's price.
    pub fn try_fill(&mut self, order: &Order) -> (r: Option<FillResult>)
        requires
            old(self)@.can_fill(order.amount),
        ensures
            r is Some,
            r->Some_0.records(match_queue(old(self).orders@, order.amount), order.price),
            final(self)@ == old(self)@.after_fill(order.amount),
            old(self)@.wf() ==> final(self)@.wf(),
    {
        let ghost plan = match_queue(self.orders@, order.amount);
        let ghost n = self.orders@.len();
        let ghost mut done: Seq<u64> = Seq::empty();
        let _ = self.orders.len();
        let mut trades: Vec<Trade> = Vec::new();
        let mut filled_orders: Vec<OrderId> = Vec::new();
        let mut partially_filled_order: Option<OrderId> = None;
        let mut remaining_amount: u64 = order.amount;
        let mut trade_id: u64 = 0;
        proof {
            assert(done + plan.amounts == plan.amounts);
            assert(filled_orders@ + plan.filled == plan.filled);
        }
        while remaining_amount > 0 && self.orders.len() > 0
            invariant
                n == old(self).orders@.len(),
                n <= u64::MAX,
                plan == match_queue(old(self).orders@, order.amount),
                old(self)@.can_fill(order.amount),
                self.quantity == old(self).quantity - sum_amounts(done),
                self.order_count == old(self).order_count - filled_orders@.len(),
                trade_id == trades@.len(),
                trades@ == fill_trades(done, order.price),
                partially_filled_order is Some ==> remaining_amount == 0,
                partially_filled_order is None ==> trades@.len() + self.orders@.len() <= n,
                ({
                    let m = match_queue(self.orders@, remaining_amount);
                    &&& done + m.amounts == plan.amounts
                    &&& filled_orders@ + m.filled == plan.filled
                    &&& (if partially_filled_order is Some {
                        partially_filled_order
                    } else {
                        m.partial
                    }) == plan.partial
                    &&& m.remaining == plan.remaining
                    &&& m.rest == plan.rest
                }),
            decreases self.orders@.len(), remaining_amount,
        {
            let ghost cur = self.orders@;
            let ghost filled_before = filled_orders@;
            let ghost m0 = match_queue(cur, remaining_amount);
            proof {
                lemma_sum_amounts_append(done, m0.amounts);
                lemma_sum_amounts_prepend(m0.amounts[0], m0.amounts.drop_first());
                assert(m0.amounts == seq![m0.amounts[0]] + m0.amounts.drop_first());
                lemma_sum_amounts_push(done, m0.amounts[0]);
            }
            let (current_id, mut current_amount) = match self.orders.pop_front() {
                Some(entry) => entry,
                None => return None,
            };
            assert(cur.drop_first() == self.orders@);
            if current_amount <= remaining_amount {
                let trade_amount = current_amount;
                trades.push(Trade { id: trade_id, price: order.price, amount: trade_amount });
                filled_orders.push(current_id);
                remaining_amount -= trade_amount;
                self.quantity -= trade_amount;
                self.order_count -= 1;
                trade_id += 1;
                proof {
                    let m1 = match_queue(self.orders@, remaining_amount);
                    assert(m0.amounts == seq![trade_amount] + m1.amounts);
                    assert(done + m0.amounts == done.push(trade_amount) + m1.amounts);
                    assert(m0.filled == seq![current_id] + m1.filled);
                    assert(filled_before + m0.filled == filled_orders@ + m1.filled);
                    done = done.push(trade_amount);
                    assert(trades@ == fill_trades(done, order.price));
                }
            } else {
                let trade_amount = remaining_amount;
                trades.push(Trade { id: trade_id, price: order.price, amount: trade_amount });
                current_amount -= trade_amount;
                partially_filled_order = Some(current_id);
                self.orders.push_front((current_id, current_amount));
                self.quantity -= trade_amount;
                remaining_amount = 0;
                trade_id += 1;
                proof {
                    done = done.push(trade_amount);
                    assert(trades@ == fill_trades(done, order.price));
                }
            }
        }
        proof {
            assert(done + Seq::<u64>::empty() == done);
            assert(filled_orders@ + Seq::<u64>::empty() == filled_orders@);
            if old(self)@.wf() {
                lemma_fill_conserves(old(self).orders@, order.amount);
                lemma_fill_first_in_first_out(old(self).orders@, order.amount);
                assert(plan.rest.len() == n - plan.filled.len()) by {
                    let k = plan.filled.len() as int;
                    if plan.partial is Some {
                        assert(plan.rest.len() == 1 + old(self).orders@.skip(k + 1).len());
                    }
                }
            }
        }
        Some(FillResult { trades, filled_orders, partially_filled_order, remaining_amount })
    }

    pub fn update_order(&mut self, order_id: OrderId, new_amount: u64) -> (r: Result<(), EngineError>)
        requires
            old(self)@.can_update(order_id, new_amount),
        ensures
            holds_order(old(self).orders@, order_id) ==> r == Ok::<(), EngineError>(())
                && final(self)@ == old(self)@.with_amount(order_id, new_amount),
            !holds_order(old(self).orders@, order_id) ==> r == Err::<(), EngineError>(
                EngineError::OrderNotFound(order_id),
            ) && final(self)@ == old(self)@,
            old(self)@.wf() ==> final(self)@.wf(),
    {
        let ghost s = self.orders@;
        let ghost start = self@;
        let n = self.orders.len();
        let mut rebuilt: VecDeque<(OrderId, Amount)> = VecDeque::new();
        let mut found = false;
        let mut i: usize = 0;
        proof {
            assert(s.take(0) == Seq::<(u64, u64)>::empty());
            assert(replace_amounts(s.take(0), order_id, new_amount) == Seq::<(u64, u64)>::empty());
        }
        while i < n
            invariant
                n == s.len(),
                i <= n,
                self.orders@ == s,
                start == old(self)@,
                s == start.orders,
                self.order_count == start.order_count,
                start.can_update(order_id, new_amount),
                rebuilt@ == replace_amounts(s.take(i as int), order_id, new_amount),
                self.quantity == start.running_quantity(order_id, new_amount, i as int),
                found <==> holds_order(s.take(i as int), order_id),
            decreases n - i,
        {
            let (id, amount) = self.orders[i];
            let ghost before = rebuilt@;
            let ghost e = if id == order_id { (order_id, new_amount) } else { s[i as int] };
            proof {
                assert((id, amount) == s[i as int]);
                assert(s.take(i + 1) == s.take(i as int).push(s[i as int]));
                assert(replace_amounts(s.take(i + 1), order_id, new_amount) == before.push(e));
                lemma_total_amount_push(s.take(i as int), s[i as int]);
                lemma_total_amount_push(before, e);
                assert(start.running_quantity(order_id, new_amount, i + 1)
                    == start.running_quantity(order_id, new_amount, i as int) + e.1 - amount);
            }
            if id == order_id {
                self.quantity -= amount;
                self.quantity += new_amount;
                rebuilt.push_back((id, new_amount));
                found = true;
            } else {
                rebuilt.push_back((id, amount));
            }
            proof {
                if holds_order(s.take(i + 1), order_id) && !found {
                    let k = choose|k: int|
                        0 <= k < s.take(i + 1).len() && #[trigger] s.take(i + 1)[k].0 == order_id;
                    assert(s.take(i as int)[k].0 == order_id);
                }
                if found && id != order_id {
                    let k = choose|k: int|
                        0 <= k < s.take(i as int).len() && #[trigger] s.take(i as int)[k].0 == order_id;
                    assert(s.take(i + 1)[k].0 == order_id);
                }
                if id == order_id {
                    assert(s.take(i + 1)[i as int].0 == order_id);
                }
            }
            i += 1;
        }
        proof {
            assert(s.take(n as int) == s);
            if !found {
                assert(replace_amounts(s, order_id, new_amount) == s);
            }
        }
        self.orders = rebuilt;
        if !found {
            Err(EngineError::OrderNotFound(order_id))
        } else {
            Ok(())
        }
    }
}

} // verus!
