//! The matching engine as a mathematical object: a state, and what each command
//! makes of it.
use crate::book_model::{Book, Resting};
use crate::policy::acceptable;
use crate::types::{
    Command, EventMeta, MatchEvent, OrderId, OrderType, RejectReason, Side, StpMode, TimeInForce,
    STP_NONE,
};
use vstd::prelude::*;

verus! {

/// A stop-limit order that waits for a trade at its stop price.
#[derive(Debug, Clone, Copy, PartialEq, Eq, Structural)]
pub struct StopEntry {
    pub id: OrderId,
    pub side: Side,
    pub limit_price: u64,
    pub qty: u64,
    pub time_in_force: TimeInForce,
    pub visible_qty: Option<u64>,
    pub stp_group: Option<u32>,
}

/// An order as it comes in.
#[derive(Debug, Clone, Copy, PartialEq, Eq, Structural)]
pub struct Incoming {
    pub id: OrderId,
    pub side: Side,
    pub price: u64,
    pub qty: u64,
    pub order_type: OrderType,
    pub time_in_force: TimeInForce,
    pub visible_qty: Option<u64>,
    pub stop_price: Option<u64>,
    pub stp_group: Option<u32>,
}

impl StopEntry {
    /// The limit order that the stop becomes when it triggers, as a specification.
    pub open spec fn order(self) -> Incoming {
        Incoming {
            id: self.id,
            side: self.side,
            price: self.limit_price,
            qty: self.qty,
            order_type: OrderType::Limit,
            time_in_force: self.time_in_force,
            visible_qty: self.visible_qty,
            stop_price: None,
            stp_group: self.stp_group,
        }
    }

    /// The limit order that the stop becomes when it triggers.
    pub fn triggered(&self) -> (order: Incoming)
        ensures
            order == self.order(),
    {
        Incoming {
            id: self.id,
            side: self.side,
            price: self.limit_price,
            qty: self.qty,
            order_type: OrderType::Limit,
            time_in_force: self.time_in_force,
            visible_qty: self.visible_qty,
            stop_price: None,
            stp_group: self.stp_group,
        }
    }
}

impl Incoming {
    /// The price up to which the order may trade: any price for a market order.
    pub open spec fn reach(self) -> u64 {
        match (self.order_type, self.side) {
            (OrderType::Market, Side::Bid) => u64::MAX,
            (OrderType::Market, Side::Ask) => 0,
            _ => self.price,
        }
    }

    /// The price up to which the order may trade.
    #[inline]
    pub fn effective_price(&self) -> (price: u64)
        ensures
            price == self.reach(),
    {
        match self.order_type {
            OrderType::Market => match self.side {
                Side::Bid => u64::MAX,
                Side::Ask => 0,
            },
            _ => self.price,
        }
    }

    /// The order that rests when `qty` of the incoming order is left.
    pub open spec fn remainder(self, qty: u64) -> Resting {
        Resting::fresh(
            self.side,
            self.price,
            qty,
            self.order_type,
            self.visible_qty,
            self.stp_group.unwrap_or(STP_NONE),
        )
    }

    /// The replacement of a modified order, on its side and in its group.
    pub open spec fn replacement(id: OrderId, order: Resting, price: u64, qty: u64) -> Incoming {
        Incoming {
            id,
            side: order.side,
            price,
            qty,
            order_type: OrderType::Limit,
            time_in_force: TimeInForce::GTC,
            visible_qty: None,
            stop_price: None,
            stp_group: if order.stp_group == STP_NONE {
                None
            } else {
                Some(order.stp_group)
            },
        }
    }

    /// The stop that waits for the order's stop price.
    pub open spec fn stop(self) -> StopEntry {
        StopEntry {
            id: self.id,
            side: self.side,
            limit_price: self.price,
            qty: self.qty,
            time_in_force: self.time_in_force,
            visible_qty: self.visible_qty,
            stp_group: self.stp_group,
        }
    }
}

/// Whether a taker with group `taker` and a maker with group `maker` must not
/// trade.
pub open spec fn same_group(taker: Option<u32>, maker: u32) -> bool {
    maker != STP_NONE && taker == Some(maker)
}

/// The lesser of two integers.
pub open spec fn lesser(a: int, b: int) -> int {
    if a < b {
        a
    } else {
        b
    }
}

/// Where a stop with price `price` goes in the queue of buy stops, which rise, or
/// sell stops, which fall: behind all that trigger earlier or at the same price.
pub open spec fn stop_position(side: Side, stops: Seq<(u64, StopEntry)>, price: u64) -> int
    decreases stops.len(),
{
    if stops.len() == 0 {
        0
    } else if match side {
        Side::Bid => stops[0].0 <= price,
        Side::Ask => stops[0].0 >= price,
    } {
        1 + stop_position(side, stops.drop_first(), price)
    } else {
        0
    }
}

/// Whether stops are in the order in which they trigger.
pub open spec fn stops_sorted(side: Side, stops: Seq<(u64, StopEntry)>) -> bool {
    forall|i: int, j: int|
        0 <= i < j < stops.len() ==> match side {
            Side::Bid => (#[trigger] stops[i]).0 <= (#[trigger] stops[j]).0,
            Side::Ask => stops[i].0 >= stops[j].0,
        }
}

/// Where a stop goes is in the queue; the stops before it trigger no later, and the
/// stop at its place triggers later.
pub proof fn lemma_stop_position(side: Side, stops: Seq<(u64, StopEntry)>, price: u64)
    ensures
        0 <= stop_position(side, stops, price) <= stops.len(),
        forall|i: int|
            0 <= i < stop_position(side, stops, price) ==> match side {
                Side::Bid => (#[trigger] stops[i]).0 <= price,
                Side::Ask => stops[i].0 >= price,
            },
        stop_position(side, stops, price) < stops.len() ==> match side {
            Side::Bid => stops[stop_position(side, stops, price)].0 > price,
            Side::Ask => stops[stop_position(side, stops, price)].0 < price,
        },
    decreases stops.len(),
{
    if stops.len() > 0 && match side {
        Side::Bid => stops[0].0 <= price,
        Side::Ask => stops[0].0 >= price,
    } {
        let rest = stops.drop_first();
        lemma_stop_position(side, rest, price);
        assert forall|i: int| 0 <= i < stop_position(side, stops, price) implies match side {
            Side::Bid => (#[trigger] stops[i]).0 <= price,
            Side::Ask => stops[i].0 >= price,
        } by {
            if i > 0 {
                assert(rest[i - 1] == stops[i]);
            }
        }
    }
}

/// Whether a trade at `last` triggers a stop at `price`: a buy stop at that price
/// or higher, a sell stop at that price or lower.
pub open spec fn triggers(side: Side, price: u64, last: u64) -> bool {
    match side {
        Side::Bid => price <= last,
        Side::Ask => price >= last,
    }
}

/// State of the matching engine of one instrument.
#[verifier::ext_equal]
pub struct Engine {
    pub book: Book,
    /// Number of further orders that can rest.
    pub free: nat,
    /// Sequence of the last event.
    pub sequence: nat,
    /// Buy stops by rising stop price.
    pub stop_bids: Seq<(u64, StopEntry)>,
    /// Sell stops by falling stop price.
    pub stop_asks: Seq<(u64, StopEntry)>,
    /// Price of the last fill.
    pub last_trade: Option<u64>,
    pub stp_mode: StpMode,
    /// Events of the command in process.
    pub events: Seq<MatchEvent>,
    /// Whether the quantity on each side has always fitted a `u64`.
    pub bounded: bool,
}

impl Engine {
    /// An engine that has seen no command.
    pub open spec fn start(base: u64, ticks: u32, capacity: nat, stp_mode: StpMode) -> Engine {
        Engine {
            book: Book::empty(base, ticks),
            free: capacity,
            sequence: 0,
            stop_bids: Seq::empty(),
            stop_asks: Seq::empty(),
            last_trade: None,
            stp_mode,
            events: Seq::empty(),
            bounded: true,
        }
    }

    /// Whether the numbers in the state fit their machine types.
    pub open spec fn fits(self) -> bool {
        self.bounded && self.sequence <= u64::MAX
    }

    /// Metadata of the next event.
    pub open spec fn next_meta(self) -> EventMeta {
        EventMeta {
            sequence: (self.sequence + 1) as u64,
            timestamp_ns: (self.sequence + 1) as u64,
        }
    }

    /// The state after one more event.
    pub open spec fn emit(self, event: MatchEvent) -> Engine {
        Engine { sequence: self.sequence + 1, events: self.events.push(event), ..self }
    }

    /// Order `id` is rejected.
    pub open spec fn rejected(self, id: OrderId, reason: RejectReason) -> Engine {
        self.emit(MatchEvent::OrderRejected { meta: self.next_meta(), id, reason })
    }

    /// An incoming order is accepted.
    pub open spec fn accepted(self, order: Incoming) -> Engine {
        self.emit(
            MatchEvent::OrderAccepted {
                meta: self.next_meta(),
                id: order.id,
                side: order.side,
                price: order.price,
                qty: order.qty,
                order_type: order.order_type,
            },
        )
    }

    /// `remaining_qty` of order `id` is cancelled.
    pub open spec fn cancelled(self, id: OrderId, remaining_qty: int) -> Engine {
        self.emit(
            MatchEvent::OrderCancelled {
                meta: self.next_meta(),
                id,
                remaining_qty: remaining_qty as u64,
            },
        )
    }

    /// The quantity at a level is published.
    pub open spec fn book_update(self, side: Side, price: u64) -> Engine {
        self.emit(
            MatchEvent::BookUpdate {
                meta: self.next_meta(),
                side,
                price,
                qty: self.book.level_qty(side, price as int) as u64,
            },
        )
    }

    /// Order `id` rests, unless an order with this identifier rests already or there
    /// is no room.
    pub open spec fn rest(self, id: OrderId, order: Resting) -> Engine {
        if self.book.orders.contains_key(id.0) || self.free == 0 {
            self
        } else {
            let book = self.book.rest(id.0, order);
            Engine {
                book,
                free: (self.free - 1) as nat,
                bounded: self.bounded && book.side_qty(order.side) <= u64::MAX,
                ..self
            }
        }
    }

    /// Order `id` leaves the book.
    pub open spec fn take_out(self, id: u64) -> Engine {
        Engine { book: self.book.take_out(id), free: self.free + 1, ..self }
    }

    /// The resting order that an incoming order on `side`, good up to `price`, meets
    /// first: the oldest at the best price of the other side.
    pub open spec fn first_maker(self, side: Side, price: u64) -> Option<u64> {
        match self.book.best(side.other()) {
            Some(resting) if acceptable(side, price, resting) => Some(
                self.book.queue(side.other(), resting)[0],
            ),
            _ => None,
        }
    }

    /// A maker that must not trade with the taker is cancelled.
    pub open spec fn cancel_maker(self, maker: u64) -> Engine {
        let order = self.book.orders[maker];
        self.take_out(maker).cancelled(OrderId(maker), order.unfilled()).book_update(
            order.side,
            order.price,
        )
    }

    /// A maker that must not trade with the taker loses `overlap`.
    pub open spec fn decrement_maker(self, maker: u64, overlap: int) -> Engine {
        let order = self.book.orders[maker];
        let reduced = if overlap == order.unfilled() {
            self.take_out(maker)
        } else {
            Engine { book: self.book.reduce(maker, overlap), ..self }
        };
        reduced.book_update(order.side, order.price)
    }

    /// Order `id` goes to the end of its queue.
    pub open spec fn requeue(self, id: u64) -> Engine {
        Engine { book: self.book.requeue(id), ..self }
    }

    /// The taker, of which `left` is then left, trades `qty` with a maker. A maker that
    /// is filled leaves the book. One that loses all that one match may take and is not
    /// filled has shown a slice of its quantity: it shows the next, at the end of its
    /// queue.
    pub open spec fn fill(self, maker: u64, taker: OrderId, qty: int, left: int) -> Engine {
        let order = self.book.orders[maker];
        let traded = Engine { book: self.book.reduce(maker, qty), ..self };
        let published = Engine { last_trade: Some(order.price), ..traded.emit(
            MatchEvent::Fill {
                meta: self.next_meta(),
                maker_id: OrderId(maker),
                taker_id: taker,
                price: order.price,
                qty: qty as u64,
                maker_remaining: (order.unfilled() - qty) as u64,
                taker_remaining: left as u64,
            },
        ) }.book_update(order.side, order.price);
        if qty == order.unfilled() {
            published.take_out(maker)
        } else if qty == order.matchable() {
            published.requeue(maker)
        } else {
            published
        }
    }

    /// What matching makes of the state, of the taker's quantity `left`, and whether
    /// the taker is to be cancelled. The taker trades with one maker after the other,
    /// each time with the first that it then meets.
    pub open spec fn match_book(self, taker: Incoming, left: int) -> (Engine, int, bool)
        decreases left, self.book.orders.dom().len(),
        when self.book.wf() && left >= 0
    {
        match self.first_maker(taker.side, taker.reach()) {
            Some(maker) if left > 0 => {
                let order = self.book.orders[maker];
                proof {
                    self.lemma_first_maker(taker.side, taker.reach());
                }
                if order.unfilled() == 0 {
                    self.take_out(maker).match_book(taker, left)
                } else if same_group(taker.stp_group, order.stp_group) {
                    match self.stp_mode {
                        StpMode::CancelNewest => (self, left, true),
                        StpMode::CancelOldest => self.cancel_maker(maker).match_book(taker, left),
                        StpMode::CancelBoth => (self.cancel_maker(maker), left, true),
                        StpMode::DecrementAndCancel => {
                            let overlap = lesser(left, order.unfilled());
                            (self.decrement_maker(maker, overlap), left - overlap, true)
                        },
                    }
                } else {
                    let qty = lesser(left, order.matchable());
                    self.fill(maker, taker.id, qty, left - qty).match_book(taker, left - qty)
                }
            },
            _ => (self, left, false),
        }
    }

    /// The first maker rests, on the other side and at an acceptable price.
    pub proof fn lemma_first_maker(self, side: Side, price: u64)
        requires
            self.book.wf(),
        ensures
            self.first_maker(side, price) matches Some(maker) ==> {
                let order = self.book.orders[maker];
                &&& self.book.orders.contains_key(maker)
                &&& self.book.best(side.other()) == Some(order.price)
                &&& order.side == side.other()
                &&& acceptable(side, price, order.price)
                &&& order.filled <= order.quantity
                &&& 0 <= order.matchable() <= order.unfilled()
                &&& order.unfilled() > 0 ==> order.matchable() > 0
                &&& self.book.queue(order.side, order.price)[0] == maker
                &&& self.book.queue(order.side, order.price).len() > 0
            },
            self.book.best(side.other()) is None ==> self.first_maker(side, price) is None,
    {
        match self.book.best(side.other()) {
            Some(resting) => {
                let level = (side.other(), resting);
                assert(self.book.queue(side.other(), resting).len() > 0);
                assert(self.book.placed(level, self.book.queues[level][0]));
                let order = self.book.orders[self.book.queues[level][0]];
                if order.visible_quantity > 0 {
                    let peak = order.visible_quantity as int;
                    assert(0 <= order.filled as int % peak < peak) by (nonlinear_arith)
                        requires
                            peak > 0,
                            order.filled as int >= 0,
                    ;
                }
            },
            None => {},
        }
    }

    /// What is left of an incoming order rests or is cancelled.
    pub open spec fn settle(self, order: Incoming, left: int, cancel: bool) -> Engine {
        if cancel {
            self.cancelled(order.id, left)
        } else if left == 0 {
            self
        } else if order.order_type != OrderType::Market && order.time_in_force == TimeInForce::GTC {
            self.rest(order.id, order.remainder(left as u64)).book_update(order.side, order.price)
        } else {
            self.cancelled(order.id, left)
        }
    }

    /// A post-only order comes in: it rests, or is rejected where it would trade.
    pub open spec fn post_only(self, order: Incoming) -> Engine {
        if self.first_maker(order.side, order.price) is Some {
            self.rejected(order.id, RejectReason::WouldCrossSpread)
        } else {
            self.accepted(order).rest(order.id, order.remainder(order.qty)).book_update(
                order.side,
                order.price,
            )
        }
    }

    /// A stop-limit order comes in: it waits for its stop price.
    pub open spec fn stop_limit(self, order: Incoming) -> Engine {
        if order.qty == 0 {
            self.rejected(order.id, RejectReason::InvalidQuantity)
        } else {
            match order.stop_price {
                None => self.rejected(order.id, RejectReason::InvalidPrice),
                Some(stop) => {
                    let waiting = self.accepted(order);
                    match order.side {
                        Side::Bid => Engine {
                            stop_bids: self.stop_bids.insert(
                                stop_position(Side::Bid, self.stop_bids, stop),
                                (stop, order.stop()),
                            ),
                            ..waiting
                        },
                        Side::Ask => Engine {
                            stop_asks: self.stop_asks.insert(
                                stop_position(Side::Ask, self.stop_asks, stop),
                                (stop, order.stop()),
                            ),
                            ..waiting
                        },
                    }
                },
            }
        }
    }

    /// Why a limit, market or iceberg order is rejected, if it is.
    pub open spec fn refusal(self, order: Incoming) -> Option<RejectReason> {
        if order.qty == 0 {
            Some(RejectReason::InvalidQuantity)
        } else if self.book.orders.contains_key(order.id.0) {
            Some(RejectReason::DuplicateOrderId)
        } else if order.time_in_force == TimeInForce::FOK && self.book.depth(
            order.side.other(),
            order.reach(),
        ) < order.qty {
            Some(RejectReason::InsufficientLiquidity)
        } else if self.stp_mode == StpMode::CancelNewest && (self.first_maker(
            order.side,
            order.reach(),
        ) matches Some(maker) && same_group(order.stp_group, self.book.orders[maker].stp_group)) {
            Some(RejectReason::SelfTradePreventionTriggered)
        } else {
            None
        }
    }

    /// An order comes in.
    pub open spec fn new_order(self, order: Incoming) -> Engine {
        match order.order_type {
            OrderType::PostOnly => self.post_only(order),
            OrderType::StopLimit => self.stop_limit(order),
            _ => match self.refusal(order) {
                Some(reason) => self.rejected(order.id, reason),
                None => {
                    let (matched, left, cancel) = self.accepted(order).match_book(
                        order,
                        order.qty as int,
                    );
                    matched.settle(order, left, cancel)
                },
            },
        }
    }

    /// A resting order is cancelled.
    pub open spec fn cancel(self, id: OrderId) -> Engine {
        if self.book.orders.contains_key(id.0) {
            let order = self.book.orders[id.0];
            self.take_out(id.0).cancelled(id, order.unfilled()).book_update(order.side, order.price)
        } else {
            self.rejected(id, RejectReason::OrderNotFound)
        }
    }

    /// The state when the replacement of a resting order comes in.
    pub open spec fn replacing(self, id: OrderId, new_price: u64, new_qty: u64) -> Engine {
        let order = self.book.orders[id.0];
        let out = self.take_out(id.0);
        out.emit(
            MatchEvent::OrderModified { meta: out.next_meta(), id, new_price, new_qty },
        ).book_update(order.side, order.price)
    }

    /// A resting order is replaced by a limit order on its side and in its group, which
    /// comes in as a new one.
    pub open spec fn modify(self, id: OrderId, new_price: u64, new_qty: u64) -> Engine {
        if self.book.orders.contains_key(id.0) {
            self.replacing(id, new_price, new_qty).new_order(
                Incoming::replacement(id, self.book.orders[id.0], new_price, new_qty),
            )
        } else {
            self.rejected(id, RejectReason::OrderNotFound)
        }
    }

    /// The stops of `side`, in the order in which they trigger.
    pub open spec fn stops(self, side: Side) -> Seq<(u64, StopEntry)> {
        match side {
            Side::Bid => self.stop_bids,
            Side::Ask => self.stop_asks,
        }
    }

    /// The state without the first stop of `side`.
    pub open spec fn pop_stop(self, side: Side) -> Engine {
        match side {
            Side::Bid => Engine { stop_bids: self.stop_bids.drop_first(), ..self },
            Side::Ask => Engine { stop_asks: self.stop_asks.drop_first(), ..self },
        }
    }

    /// The state when the first stop of `side` comes in as a limit order.
    pub open spec fn triggering(self, side: Side) -> Engine {
        let stop = self.stops(side)[0].1;
        let out = self.pop_stop(side);
        out.emit(
            MatchEvent::StopTriggered {
                meta: out.next_meta(),
                stop_id: stop.id,
                new_order_id: stop.id,
            },
        )
    }

    /// The first stop of `side` triggers and comes in as a limit order.
    pub open spec fn trigger(self, side: Side) -> Engine {
        self.triggering(side).new_order(self.stops(side)[0].1.order())
    }

    /// The stops of `side` that a trade at `last` triggers come in, one after the
    /// other.
    pub open spec fn drain_side(self, side: Side, last: u64) -> Engine
        decreases self.stops(side).len(),
        when self.book.wf()
    {
        if self.stops(side).len() > 0 && triggers(side, self.stops(side)[0].0, last) {
            proof {
                self.lemma_trigger(side);
            }
            self.trigger(side).drain_side(side, last)
        } else {
            self
        }
    }

    /// All stops that the last trade triggers come in; where they moved the last
    /// trade price, so do those that the new price triggers.
    pub open spec fn drain(self) -> Engine
        decreases self.stop_bids.len() + self.stop_asks.len(),
        when self.book.wf()
    {
        match self.last_trade {
            None => self,
            Some(last) => {
                let bids = self.drain_side(Side::Bid, last);
                let both = bids.drain_side(Side::Ask, last);
                proof {
                    self.lemma_drain_side(Side::Bid, last);
                    bids.lemma_drain_side(Side::Ask, last);
                }
                if both.last_trade == Some(last) {
                    both
                } else {
                    both.drain()
                }
            },
        }
    }

    /// A command is processed.
    pub open spec fn process(self, command: Command) -> Engine {
        let ready = Engine { events: Seq::empty(), ..self };
        let done = match command {
            Command::NewOrder {
                id,
                instrument_id,
                side,
                price,
                qty,
                order_type,
                time_in_force,
                visible_qty,
                stop_price,
                stp_group,
            } => ready.new_order(
                Incoming {
                    id,
                    side,
                    price,
                    qty,
                    order_type,
                    time_in_force,
                    visible_qty,
                    stop_price,
                    stp_group,
                },
            ),
            Command::CancelOrder { id } => ready.cancel(id),
            Command::ModifyOrder { id, new_price, new_qty } => ready.modify(id, new_price, new_qty),
        };
        done.drain()
    }
}

/// Metadata of an event.
pub open spec fn meta_of(event: MatchEvent) -> EventMeta {
    match event {
        MatchEvent::OrderAccepted { meta, .. } => meta,
        MatchEvent::OrderRejected { meta, .. } => meta,
        MatchEvent::Fill { meta, .. } => meta,
        MatchEvent::OrderCancelled { meta, .. } => meta,
        MatchEvent::OrderModified { meta, .. } => meta,
        MatchEvent::BookUpdate { meta, .. } => meta,
        MatchEvent::StopTriggered { meta, .. } => meta,
    }
}

impl Engine {
    /// What holds between a state and any that follows it within a command: the
    /// book stays well formed, events are only added, and each carries the next
    /// number.
    pub open spec fn leads_to(self, after: Engine) -> bool {
        &&& after.book.wf()
        &&& after.bounded ==> self.bounded
        &&& after.stp_mode == self.stp_mode
        &&& after.book.base == self.book.base
        &&& after.book.ticks == self.book.ticks
        &&& after.free + after.book.orders.dom().len() == self.free + self.book.orders.dom().len()
        &&& self.events.len() <= after.events.len()
        &&& after.sequence == self.sequence + (after.events.len() - self.events.len())
        &&& forall|i: int| 0 <= i < self.events.len() ==> #[trigger] after.events[i] == self.events[i]
        &&& forall|i: int|
            self.events.len() <= i < after.events.len() ==> meta_of(#[trigger] after.events[i])
                == self.meta_at(i - self.events.len())
    }

    /// Metadata of the event that follows `n` others.
    pub open spec fn meta_at(self, n: int) -> EventMeta {
        EventMeta {
            sequence: (self.sequence + 1 + n) as u64,
            timestamp_ns: (self.sequence + 1 + n) as u64,
        }
    }

    /// The stops and the last trade price are the same.
    pub open spec fn same_stops(self, after: Engine) -> bool {
        self.stop_bids == after.stop_bids && self.stop_asks == after.stop_asks
    }

    /// One state leads to another that leads to a third.
    pub proof fn lemma_leads(self, mid: Engine, after: Engine)
        requires
            self.leads_to(mid),
            mid.leads_to(after),
        ensures
            self.leads_to(after),
    {
        assert forall|i: int| self.events.len() <= i < after.events.len() implies meta_of(
            #[trigger] after.events[i],
        ) == self.meta_at(i - self.events.len()) by {
            if i < mid.events.len() {
                assert(after.events[i] == mid.events[i]);
            }
        }
        assert forall|i: int| 0 <= i < self.events.len() implies #[trigger] after.events[i]
            == self.events[i] by {
            assert(after.events[i] == mid.events[i]);
        }
    }

    /// An event with the next number leads on.
    pub proof fn lemma_emit(self, event: MatchEvent)
        requires
            self.book.wf(),
            meta_of(event) == self.next_meta(),
        ensures
            self.leads_to(self.emit(event)),
            self.same_stops(self.emit(event)),
    {
    }

    /// A resting order leads on.
    pub proof fn lemma_rest(self, id: OrderId, order: Resting)
        requires
            self.book.wf(),
            order.filled <= order.quantity,
        ensures
            self.leads_to(self.rest(id, order)),
            self.same_stops(self.rest(id, order)),
            self.rest(id, order).last_trade == self.last_trade,
    {
        if !self.book.orders.contains_key(id.0) {
            self.book.lemma_rest(id.0, order);
            assert(self.book.rest(id.0, order).orders.dom() =~= self.book.orders.dom().insert(id.0));
        }
    }

    /// An order that leaves the book leads on.
    pub proof fn lemma_take_out(self, id: u64)
        requires
            self.book.wf(),
            self.book.orders.contains_key(id),
        ensures
            self.leads_to(self.take_out(id)),
            self.same_stops(self.take_out(id)),
            self.take_out(id).book.orders.dom().len() < self.book.orders.dom().len(),
    {
        self.book.lemma_take_out(id);
        assert(self.book.take_out(id).orders.dom() =~= self.book.orders.dom().remove(id));
        assert(self.book.orders.dom().contains(id));
    }

    /// A partly filled order leads on.
    pub proof fn lemma_reduce(self, id: u64, delta: int)
        requires
            self.book.wf(),
            self.book.orders.contains_key(id),
            0 <= delta <= self.book.orders[id].unfilled(),
        ensures
            self.leads_to(Engine { book: self.book.reduce(id, delta), ..self }),
    {
        self.book.lemma_reduce(id, delta);
        assert(self.book.reduce(id, delta).orders.dom() =~= self.book.orders.dom());
    }

    /// An order that goes to the end of its queue leads on.
    pub proof fn lemma_requeue(self, id: u64)
        requires
            self.book.wf(),
            self.book.orders.contains_key(id),
        ensures
            self.leads_to(self.requeue(id)),
            self.same_stops(self.requeue(id)),
    {
        self.book.lemma_requeue(id);
    }

    /// A cancelled maker leads on.
    pub proof fn lemma_cancel_maker(self, maker: u64)
        requires
            self.book.wf(),
            self.book.orders.contains_key(maker),
        ensures
            self.leads_to(self.cancel_maker(maker)),
            self.same_stops(self.cancel_maker(maker)),
            self.cancel_maker(maker).last_trade == self.last_trade,
            self.cancel_maker(maker).book == self.book.take_out(maker),
            self.cancel_maker(maker).book.orders.dom().len() < self.book.orders.dom().len(),
    {
        let order = self.book.orders[maker];
        let a = self.take_out(maker);
        let b = a.cancelled(OrderId(maker), order.unfilled());
        let c = b.book_update(order.side, order.price);
        self.lemma_take_out(maker);
        a.lemma_emit(b.events.last());
        b.lemma_emit(c.events.last());
        self.lemma_leads(a, b);
        self.lemma_leads(b, c);
    }

    /// A decremented maker leads on.
    pub proof fn lemma_decrement_maker(self, maker: u64, overlap: int)
        requires
            self.book.wf(),
            self.book.orders.contains_key(maker),
            0 <= overlap <= self.book.orders[maker].unfilled(),
        ensures
            self.leads_to(self.decrement_maker(maker, overlap)),
            self.same_stops(self.decrement_maker(maker, overlap)),
            self.decrement_maker(maker, overlap).last_trade == self.last_trade,
    {
        let order = self.book.orders[maker];
        let a = if overlap == order.unfilled() {
            self.take_out(maker)
        } else {
            Engine { book: self.book.reduce(maker, overlap), ..self }
        };
        let b = a.book_update(order.side, order.price);
        self.lemma_take_out(maker);
        self.lemma_reduce(maker, overlap);
        a.lemma_emit(b.events.last());
        self.lemma_leads(a, b);
    }

    /// A fill leads on.
    pub proof fn lemma_fill(self, maker: u64, taker: OrderId, qty: int, left: int)
        requires
            self.book.wf(),
            self.book.orders.contains_key(maker),
            0 <= qty <= self.book.orders[maker].unfilled(),
        ensures
            self.leads_to(self.fill(maker, taker, qty, left)),
            self.same_stops(self.fill(maker, taker, qty, left)),
            self.fill(maker, taker, qty, left).last_trade == Some(self.book.orders[maker].price),
    {
        let order = self.book.orders[maker];
        let a = Engine { book: self.book.reduce(maker, qty), ..self };
        self.lemma_reduce(maker, qty);
        let event = MatchEvent::Fill {
            meta: self.next_meta(),
            maker_id: OrderId(maker),
            taker_id: taker,
            price: order.price,
            qty: qty as u64,
            maker_remaining: (order.unfilled() - qty) as u64,
            taker_remaining: left as u64,
        };
        let b = a.emit(event);
        a.lemma_emit(event);
        self.lemma_leads(a, b);
        let c = Engine { last_trade: Some(order.price), ..b };
        assert(b.leads_to(c));
        self.lemma_leads(b, c);
        let d = c.book_update(order.side, order.price);
        c.lemma_emit(d.events.last());
        self.lemma_leads(c, d);
        if qty == order.unfilled() {
            d.lemma_take_out(maker);
            self.lemma_leads(d, d.take_out(maker));
        } else if qty == order.matchable() {
            d.lemma_requeue(maker);
            self.lemma_leads(d, d.requeue(maker));
        }
    }

    /// Matching leads on; the taker's quantity stays in range, and where it stays the
    /// same nothing has traded.
    pub proof fn lemma_match_book(self, taker: Incoming, left: int)
        requires
            self.book.wf(),
            left >= 0,
        ensures
            self.leads_to(self.match_book(taker, left).0),
            self.same_stops(self.match_book(taker, left).0),
            0 <= self.match_book(taker, left).1 <= left,
        decreases left, self.book.orders.dom().len(),
    {
        self.lemma_first_maker(taker.side, taker.reach());
        match self.first_maker(taker.side, taker.reach()) {
            Some(maker) if left > 0 => {
                let order = self.book.orders[maker];
                if order.unfilled() == 0 {
                    self.lemma_take_out(maker);
                    let next = self.take_out(maker);
                    next.lemma_match_book(taker, left);
                    self.lemma_leads(next, next.match_book(taker, left).0);
                } else if same_group(taker.stp_group, order.stp_group) {
                    match self.stp_mode {
                        StpMode::CancelNewest => {},
                        StpMode::CancelOldest => {
                            self.lemma_cancel_maker(maker);
                            let next = self.cancel_maker(maker);
                            next.lemma_match_book(taker, left);
                            self.lemma_leads(next, next.match_book(taker, left).0);
                        },
                        StpMode::CancelBoth => {
                            self.lemma_cancel_maker(maker);
                        },
                        StpMode::DecrementAndCancel => {
                            self.lemma_decrement_maker(maker, lesser(left, order.unfilled()));
                        },
                    }
                } else {
                    let qty = lesser(left, order.matchable());
                    self.lemma_fill(maker, taker.id, qty, left - qty);
                    let next = self.fill(maker, taker.id, qty, left - qty);
                    next.lemma_match_book(taker, left - qty);
                    self.lemma_leads(next, next.match_book(taker, left - qty).0);
                }
            },
            _ => {},
        }
    }

    /// What is left of an order leads on.
    pub proof fn lemma_settle(self, order: Incoming, left: int, cancel: bool)
        requires
            self.book.wf(),
        ensures
            self.leads_to(self.settle(order, left, cancel)),
            self.same_stops(self.settle(order, left, cancel)),
            self.settle(order, left, cancel).last_trade == self.last_trade,
    {
        let after = self.settle(order, left, cancel);
        if !cancel && left == 0 {
        } else if !cancel && order.order_type != OrderType::Market && order.time_in_force
            == TimeInForce::GTC {
            let rested = self.rest(order.id, order.remainder(left as u64));
            self.lemma_rest(order.id, order.remainder(left as u64));
            rested.lemma_emit(after.events.last());
            self.lemma_leads(rested, after);
        } else {
            self.lemma_emit(after.events.last());
        }
    }

    /// An incoming order leads on. Only a stop-limit order changes the stops.
    pub proof fn lemma_new_order(self, order: Incoming)
        requires
            self.book.wf(),
        ensures
            self.leads_to(self.new_order(order)),
            order.order_type != OrderType::StopLimit ==> self.same_stops(self.new_order(order)),
    {
        let after = self.new_order(order);
        match order.order_type {
            OrderType::PostOnly => {
                if self.first_maker(order.side, order.price) is Some {
                    self.lemma_emit(after.events.last());
                } else {
                    let a = self.accepted(order);
                    let b = a.rest(order.id, order.remainder(order.qty));
                    self.lemma_emit(a.events.last());
                    a.lemma_rest(order.id, order.remainder(order.qty));
                    b.lemma_emit(after.events.last());
                    self.lemma_leads(a, b);
                    self.lemma_leads(b, after);
                }
            },
            OrderType::StopLimit => {
                self.lemma_emit(after.events.last());
                if order.qty != 0 && order.stop_price is Some {
                    let a = self.accepted(order);
                    self.lemma_emit(a.events.last());
                    self.lemma_leads(a, after);
                }
            },
            _ => match self.refusal(order) {
                Some(reason) => {
                    self.lemma_emit(after.events.last());
                },
                None => {
                    let a = self.accepted(order);
                    self.lemma_emit(a.events.last());
                    a.lemma_match_book(order, order.qty as int);
                    let (b, left, cancel) = a.match_book(order, order.qty as int);
                    b.lemma_settle(order, left, cancel);
                    self.lemma_leads(a, b);
                    self.lemma_leads(b, after);
                },
            },
        }
    }

    /// A triggered stop leads on, with one stop less.
    pub proof fn lemma_trigger(self, side: Side)
        requires
            self.book.wf(),
            self.stops(side).len() > 0,
        ensures
            self.leads_to(self.trigger(side)),
            self.trigger(side).stops(side) == self.stops(side).drop_first(),
            self.trigger(side).stops(side.other()) == self.stops(side.other()),
    {
        let stop = self.stops(side)[0].1;
        let a = self.pop_stop(side);
        let event = MatchEvent::StopTriggered {
            meta: a.next_meta(),
            stop_id: stop.id,
            new_order_id: stop.id,
        };
        let b = a.emit(event);
        a.lemma_emit(event);
        b.lemma_new_order(stop.order());
        self.lemma_leads(a, b);
        self.lemma_leads(b, b.new_order(stop.order()));
    }

    /// The triggered stops of a side lead on; where none triggers, nothing changes.
    pub proof fn lemma_drain_side(self, side: Side, last: u64)
        requires
            self.book.wf(),
        ensures
            self.leads_to(self.drain_side(side, last)),
            self.drain_side(side, last).stops(side).len() <= self.stops(side).len(),
            self.drain_side(side, last).stops(side.other()) == self.stops(side.other()),
            self.drain_side(side, last).stops(side).len() == self.stops(side).len()
                ==> self.drain_side(side, last) == self,
        decreases self.stops(side).len(),
    {
        if self.stops(side).len() > 0 && triggers(side, self.stops(side)[0].0, last) {
            self.lemma_trigger(side);
            let next = self.trigger(side);
            next.lemma_drain_side(side, last);
            self.lemma_leads(next, next.drain_side(side, last));
        }
    }

    /// The triggered stops lead on.
    pub proof fn lemma_drain(self)
        requires
            self.book.wf(),
        ensures
            self.leads_to(self.drain()),
        decreases self.stop_bids.len() + self.stop_asks.len(),
    {
        match self.last_trade {
            None => {},
            Some(last) => {
                let bids = self.drain_side(Side::Bid, last);
                let both = bids.drain_side(Side::Ask, last);
                self.lemma_drain_side(Side::Bid, last);
                bids.lemma_drain_side(Side::Ask, last);
                self.lemma_leads(bids, both);
                if both.last_trade != Some(last) {
                    both.lemma_drain();
                    self.lemma_leads(both, both.drain());
                }
            },
        }
    }

    /// A cancelled order leads on.
    pub proof fn lemma_cancel(self, id: OrderId)
        requires
            self.book.wf(),
        ensures
            self.leads_to(self.cancel(id)),
            self.same_stops(self.cancel(id)),
            self.cancel(id).last_trade == self.last_trade,
    {
        if self.book.orders.contains_key(id.0) {
            self.lemma_cancel_maker(id.0);
        } else {
            self.lemma_emit(self.cancel(id).events.last());
        }
    }

    /// A modified order leads on.
    pub proof fn lemma_modify(self, id: OrderId, new_price: u64, new_qty: u64)
        requires
            self.book.wf(),
        ensures
            self.leads_to(self.modify(id, new_price, new_qty)),
            self.same_stops(self.modify(id, new_price, new_qty)),
    {
        let after = self.modify(id, new_price, new_qty);
        if self.book.orders.contains_key(id.0) {
            let order = self.book.orders[id.0];
            let a = self.take_out(id.0);
            let event = MatchEvent::OrderModified { meta: a.next_meta(), id, new_price, new_qty };
            let b = a.emit(event);
            let c = b.book_update(order.side, order.price);
            self.lemma_take_out(id.0);
            a.lemma_emit(event);
            b.lemma_emit(c.events.last());
            c.lemma_new_order(Incoming::replacement(id, order, new_price, new_qty));
            self.lemma_leads(a, b);
            self.lemma_leads(b, c);
            self.lemma_leads(c, after);
        } else {
            self.lemma_emit(after.events.last());
        }
    }
}

/// An engine that has seen no command holds no order and no stop, knows no trade, has all
/// its slots free and counts from zero.
pub proof fn law_start_is_empty(base: u64, ticks: u32, capacity: nat, stp_mode: StpMode)
    ensures
        ({
            let start = Engine::start(base, ticks, capacity, stp_mode);
            &&& forall|id: u64| !#[trigger] start.book.orders.contains_key(id)
            &&& forall|side: Side, price: u64| #[trigger]
                start.book.queues[(side, price)].len() == 0
            &&& start.book.best_bid is None
            &&& start.book.best_ask is None
            &&& start.book.base == base
            &&& start.book.ticks == ticks
            &&& start.stop_bids.len() == 0
            &&& start.stop_asks.len() == 0
            &&& start.last_trade is None
            &&& start.free == capacity
            &&& start.sequence == 0
            &&& start.stp_mode == stp_mode
            &&& start.book.wf()
        }),
{
    let book = Engine::start(base, ticks, capacity, stp_mode).book;
    assert(book.orders.dom() =~= Set::empty());
}

} // verus!
