//! The matching engine: price-time priority, all order types, self-trade
//! prevention and cascading stops.
use crate::arena::{Arena, ORDER_BYTES};
use crate::book::{level_of, OrderBook};
use crate::book_model::{
    lemma_slices_reduced, lemma_total_slices, lemma_total_slices_bounds, total_slices,
};
use crate::bytes::{le_bytes, push_u64};
use crate::engine_model::{meta_of, same_group, stop_position, triggers, Engine, Incoming, StopEntry};
use crate::laws_bounds::{
    brings, has_room, horizon, law_room_is_enough, law_stops_keep_their_sides, lemma_stop_qty_skip,
    outstanding, own_sides, slices_asked, stop_qty,
};
use crate::laws_cascade::{carried_out, law_command_is_carried_out};
use crate::laws_matching::{law_no_fill_within_group, no_fill_within_group};
use crate::laws_modify::{law_modify_is_cancel_and_new, modified_as_replaced};
use crate::laws_orders::law_events_are_numbered;
use crate::laws_stops::{drained, law_drained};
use crate::policy::{MatchPolicy, PriceTimeFifo};
use crate::types::{
    lemma_slices, slices_in, ArenaIndex, Command, EventMeta, InstrumentConfig, MatchEvent, OrderId, OrderType, RejectReason,
    Side, StpMode, TimeInForce, STP_NONE,
};
use vstd::arithmetic::div_mod::lemma_div_basics;
use vstd::prelude::*;

verus! {

/// Quantity of waiting stops, where it fits.
fn stops_qty(stops: &Vec<(u64, StopEntry)>) -> (sum: Option<u64>)
    ensures
        match sum {
            Some(qty) => qty == stop_qty(stops@),
            None => stop_qty(stops@) > u64::MAX,
        },
{
    let mut sum: u64 = 0;
    let mut i: usize = stops.len();
    assert(stops@.skip(i as int) =~= Seq::empty());
    while i > 0
        invariant
            i <= stops@.len(),
            sum == stop_qty(stops@.skip(i as int)),
        decreases i,
    {
        proof {
            assert(stops@.skip(i - 1)[0] == stops@[i - 1]);
            assert(stops@.skip(i - 1).drop_first() =~= stops@.skip(i as int));
            lemma_stop_qty_skip(stops@, i - 1);
        }
        i -= 1;
        sum = match sum.checked_add(stops[i].1.qty) {
            Some(more) => more,
            None => {
                return None;
            },
        };
    }
    assert(stops@.skip(0) =~= stops@);
    Some(sum)
}

/// Number of slices that a command brings.
fn slices_of_command(cmd: &Command) -> (n: u128)
    ensures
        n == slices_asked(*cmd),
        n <= 2 * u64::MAX + 1,
{
    match cmd {
        Command::NewOrder { order_type, visible_qty, qty, .. } => match visible_qty {
            Some(peak) => {
                proof {
                    lemma_slices(*order_type, *peak as int, *qty as int, 0);
                    if *peak > 0 {
                        lemma_div_basics(*peak as int);
                    }
                }
                match order_type {
                    OrderType::Iceberg => if *peak > 0 {
                        slices_in(*qty, *peak)
                    } else {
                        1
                    },
                    _ => 1,
                }
            },
            None => 1,
        },
        Command::CancelOrder { .. } => 0,
        Command::ModifyOrder { .. } => 1,
    }
}

/// Matching engine of one instrument.
pub struct MatchingEngine {
    book: OrderBook,
    arena: Arena,
    policy: PriceTimeFifo,
    config: InstrumentConfig,
    sequence: u64,
    timestamp_ns: u64,
    events: Vec<MatchEvent>,
    /// Buy stops by rising stop price.
    stop_bids: Vec<(u64, StopEntry)>,
    /// Sell stops by falling stop price.
    stop_asks: Vec<(u64, StopEntry)>,
    /// Last fill price, the trigger of the stops.
    last_trade_price: Option<u64>,
    /// Number of slices of the resting orders, which bounds the events to come.
    slices: u128,
}

impl MatchingEngine {
    /// The state of the engine.
    pub closed spec fn view(&self) -> Engine {
        Engine {
            book: self.book.model(self.arena),
            free: self.arena.free_slots().len(),
            sequence: self.sequence as nat,
            stop_bids: self.stop_bids@,
            stop_asks: self.stop_asks@,
            last_trade: self.last_trade_price,
            stp_mode: self.config.stp_mode,
            events: self.events@,
            bounded: true,
        }
    }

    /// The book is well formed in the arena, clock and sequence agree, and the slices of
    /// the resting orders are counted.
    spec fn sound(&self) -> bool {
        &&& self.book.wf(self.arena)
        &&& self.timestamp_ns == self.sequence
        &&& self.slices == total_slices(self.book.model(self.arena).orders)
    }

    /// The engine is sound, and its stops wait on their own sides.
    pub closed spec fn wf(&self) -> bool {
        &&& self.sound()
        &&& own_sides(self@)
    }

    /// An engine without orders, with room for `arena_capacity` of them.
    pub fn new(config: InstrumentConfig, arena_capacity: u32) -> (engine: Self)
        requires
            config.max_ticks < usize::MAX / 16,
            arena_capacity * ORDER_BYTES <= isize::MAX,
        ensures
            engine.wf(),
            engine@ == Engine::start(
                config.base_price,
                config.max_ticks,
                arena_capacity as nat,
                config.stp_mode,
            ),
    {
        let engine = MatchingEngine {
            book: OrderBook::new(config),
            arena: Arena::new(arena_capacity),
            policy: PriceTimeFifo,
            config,
            sequence: 0,
            timestamp_ns: 0,
            events: Vec::new(),
            stop_bids: Vec::new(),
            stop_asks: Vec::new(),
            last_trade_price: None,
            slices: 0,
        };
        assert(engine@ =~= Engine::start(
            config.base_price,
            config.max_ticks,
            arena_capacity as nat,
            config.stp_mode,
        ));
        engine
    }

    /// What a well formed engine is made of.
    proof fn lemma_wf(&self)
        requires
            self.sound(),
        ensures
            self@.book.wf(),
            self.book.sound(),
            self.book.readable(),
            self.arena.wf(),
    {
        self.book.lemma_wf(self.arena);
    }

    /// Advances the clock and returns the metadata of the next event.
    #[inline(always)]
    fn tick(&mut self) -> (meta: EventMeta)
        requires
            old(self).sound(),
            old(self)@.sequence < u64::MAX,
        ensures
            final(self).sound(),
            meta == old(self)@.next_meta(),
            final(self)@ == (Engine { sequence: old(self)@.sequence + 1, ..old(self)@ }),
            final(self).book == old(self).book,
            final(self).arena == old(self).arena,
            final(self).config == old(self).config,
    {
        self.sequence = self.sequence + 1;
        self.timestamp_ns = self.timestamp_ns + 1;
        EventMeta { sequence: self.sequence, timestamp_ns: self.timestamp_ns }
    }

    /// Adds an event.
    #[inline(always)]
    fn emit(&mut self, event: MatchEvent)
        requires
            old(self).sound(),
        ensures
            final(self).sound(),
            final(self)@ == (Engine { events: old(self)@.events.push(event), ..old(self)@ }),
            final(self).book == old(self).book,
            final(self).arena == old(self).arena,
            final(self).config == old(self).config,
    {
        self.events.push(event);
        assert(self@ =~= (Engine { events: old(self)@.events.push(event), ..old(self)@ }));
    }

    /// Rejects order `id`.
    fn emit_rejected(&mut self, id: OrderId, reason: RejectReason)
        requires
            old(self).sound(),
            old(self)@.rejected(id, reason).fits(),
        ensures
            final(self).sound(),
            final(self)@ == old(self)@.rejected(id, reason),
    {
        let meta: EventMeta = self.tick();
        self.emit(MatchEvent::OrderRejected { meta, id, reason });
    }

    /// Accepts an incoming order.
    fn emit_accepted(&mut self, order: &Incoming)
        requires
            old(self).sound(),
            old(self)@.accepted(*order).fits(),
        ensures
            final(self).sound(),
            final(self)@ == old(self)@.accepted(*order),
    {
        let meta: EventMeta = self.tick();
        self.emit(
            MatchEvent::OrderAccepted {
                meta,
                id: order.id,
                side: order.side,
                price: order.price,
                qty: order.qty,
                order_type: order.order_type,
            },
        );
    }

    /// Reports that `remaining_qty` of order `id` is cancelled.
    fn emit_cancelled(&mut self, id: OrderId, remaining_qty: u64)
        requires
            old(self).sound(),
            old(self)@.cancelled(id, remaining_qty as int).fits(),
        ensures
            final(self).sound(),
            final(self)@ == old(self)@.cancelled(id, remaining_qty as int),
    {
        let meta: EventMeta = self.tick();
        self.emit(MatchEvent::OrderCancelled { meta, id, remaining_qty });
    }

    /// Publishes the quantity at a level.
    fn emit_book_update(&mut self, side: Side, price: u64)
        requires
            old(self).sound(),
            old(self)@.book_update(side, price).fits(),
        ensures
            final(self).sound(),
            final(self)@ == old(self)@.book_update(side, price),
            final(self).book == old(self).book,
            final(self).arena == old(self).arena,
    {
        proof {
            self.lemma_wf();
        }
        let qty: u64 = self.book.get_level_qty(side, price);
        let meta: EventMeta = self.tick();
        self.emit(MatchEvent::BookUpdate { meta, side, price, qty });
    }

    /// The resting order that an incoming order on `side`, good up to `price`, meets
    /// first.
    fn first_maker(&self, side: Side, price: u64) -> (maker: Option<ArenaIndex>)
        requires
            self.sound(),
        ensures
            maker is Some <==> self@.first_maker(side, price) is Some,
            maker matches Some(idx) ==> {
                let id = self@.first_maker(side, price)->Some_0;
                &&& self.book.owns(idx.0)
                &&& self.book.slots().contains_key(id)
                &&& self.book.slots()[id] == idx.0
                &&& self.arena@.contains_key(idx.0)
                &&& self.arena@[idx.0].id.0 == id
                &&& self.arena@[idx.0].resting() == self@.book.orders[id]
                &&& self@.book.orders.contains_key(id)
            },
    {
        proof {
            self.lemma_wf();
            self.book.lemma_wf(self.arena);
            self@.lemma_first_maker(side, price);
        }
        let best: Option<u64> = match side {
            Side::Bid => self.book.best_ask(),
            Side::Ask => self.book.best_bid(),
        };
        match best {
            None => None,
            Some(resting_price) => {
                if !self.policy.is_price_acceptable(side, price, resting_price) {
                    return None;
                }
                proof {
                    let queue = self@.book.queue(side.other(), resting_price);
                    assert(self.book.level(side.other(), resting_price) == level_of(
                        queue,
                        self.book.slots(),
                        self@.book.level_qty(side.other(), resting_price as int),
                    ));
                    self.book.lemma_entry(self.arena, side.other(), resting_price);
                    assert(self@.book.orders.contains_key(queue[0]));
                    assert(self.book.slots().contains_key(queue[0]));
                }
                match side {
                    Side::Bid => self.book.get_ask_level(resting_price).head,
                    Side::Ask => self.book.get_bid_level(resting_price).head,
                }
            },
        }
    }

    /// The order in a slot that the book owns.
    proof fn lemma_owned(&self, slot: u32)
        requires
            self.sound(),
            self.book.owns(slot),
        ensures
            self.arena@.contains_key(slot),
            self.book.slots().contains_key(self.arena@[slot].id.0),
            self.book.slots()[self.arena@[slot].id.0] == slot,
    {
        self.book.lemma_wf(self.arena);
        let id = choose|id: u64| #[trigger]
            self.book.slots().contains_key(id) && self.book.slots()[id] == slot;
        assert(self.book.slots().contains_key(id));
    }

    /// The slices of a resting order are counted.
    proof fn lemma_slices(&self, id: u64)
        requires
            self.sound(),
            self.book.slots().contains_key(id),
        ensures
            ({
                let order = self@.book.orders[id];
                let held = self.arena@[self.book.slots()[id]];
                &&& order == held.resting()
                &&& held.filled <= held.quantity
                &&& self.slices == order.slices() + total_slices(self@.book.orders.remove(id))
                &&& total_slices(self@.book.orders.remove(id)) >= 0
                &&& order.slices() >= 0
            }),
    {
        self.book.lemma_wf(self.arena);
        let orders = self@.book.orders;
        assert(orders.contains_key(id));
        lemma_total_slices(orders, id);
        assert(orders.remove(id).dom() =~= orders.dom().remove(id));
        assert forall|x: u64| #[trigger] orders.remove(id).contains_key(x) implies orders.remove(
            id,
        )[x].filled <= orders.remove(id)[x].quantity by {
            assert(orders.contains_key(x));
        }
        lemma_total_slices_bounds(orders.remove(id));
        let order = orders[id];
        lemma_slices(
            order.order_type,
            order.visible_quantity as int,
            order.quantity as int,
            order.filled as int,
        );
    }

    /// Takes a resting order out of the book.
    #[inline]
    fn take_out(&mut self, idx: ArenaIndex)
        requires
            old(self).sound(),
            old(self).book.owns(idx.0),
        ensures
            final(self).sound(),
            final(self)@ == old(self)@.take_out(old(self).arena@[idx.0].id.0),
    {
        proof {
            self.lemma_wf();
            self.lemma_owned(idx.0);
            self.lemma_slices(self.arena@[idx.0].id.0);
        }
        let used: u128 = self.arena.get(idx).slices();
        self.book.remove_order(idx, &mut self.arena);
        self.slices = self.slices - used;
        assert(self@ =~= old(self)@.take_out(old(self).arena@[idx.0].id.0));
    }

    /// Fills part of a resting order.
    #[inline]
    fn reduce(&mut self, idx: ArenaIndex, delta: u64)
        requires
            old(self).sound(),
            old(self).book.owns(idx.0),
            delta <= old(self).arena@[idx.0].unfilled(),
        ensures
            final(self).sound(),
            final(self)@ == (Engine {
                book: old(self)@.book.reduce(old(self).arena@[idx.0].id.0, delta as int),
                ..old(self)@
            }),
            final(self).book.slots() == old(self).book.slots(),
    {
        let ghost id = self.arena@[idx.0].id.0;
        let ghost orders = self@.book.orders;
        proof {
            self.lemma_wf();
            self.lemma_owned(idx.0);
            self.lemma_slices(id);
        }
        let before: u128 = self.arena.get(idx).slices();
        self.book.reduce_order_qty(idx, delta, &mut self.arena);
        proof {
            self.book.lemma_wf(self.arena);
            let reduced = orders.insert(id, orders[id].reduced(delta as int));
            assert(self.book.model(self.arena).orders == reduced);
            assert(self.book.slots().contains_key(id));
            assert(reduced.contains_key(id));
            assert(reduced.dom() =~= orders.dom());
            assert(reduced.remove(id) =~= orders.remove(id));
            lemma_total_slices(reduced, id);
            lemma_slices_reduced(orders[id], delta as int);
        }
        let after: u128 = self.arena.get(idx).slices();
        self.slices = self.slices - before + after;
    }

    /// Sends a resting order to the end of its queue.
    #[inline]
    fn requeue(&mut self, idx: ArenaIndex)
        requires
            old(self).sound(),
            old(self).book.owns(idx.0),
        ensures
            final(self).sound(),
            final(self)@ == old(self)@.requeue(old(self).arena@[idx.0].id.0),
    {
        self.book.requeue_order(idx, &mut self.arena);
    }

    /// What is known of a resting order's slot.
    proof fn lemma_slot(&self, slot: u32, id: u64)
        requires
            self.sound(),
            self.book.slots().contains_key(id),
            self.book.slots()[id] == slot,
        ensures
            self.book.owns(slot),
            self.arena@.contains_key(slot),
            self.arena@[slot].id.0 == id,
            self.arena@[slot].resting() == self@.book.orders[id],
            self@.book.orders.contains_key(id),
            self@.book.orders[id].filled <= self@.book.orders[id].quantity,
            self.arena@[slot].unfilled() == self@.book.orders[id].unfilled(),
            self.arena@[slot].matchable() == self@.book.orders[id].matchable(),
    {
        self.book.lemma_wf(self.arena);
    }

    /// Cancels a maker that must not trade with the taker.
    fn cancel_maker(&mut self, idx: ArenaIndex)
        requires
            old(self).sound(),
            old(self).book.slots().contains_key(old(self).arena@[idx.0].id.0),
            old(self).book.slots()[old(self).arena@[idx.0].id.0] == idx.0,
            old(self)@.cancel_maker(old(self).arena@[idx.0].id.0).fits(),
        ensures
            final(self).sound(),
            final(self)@ == old(self)@.cancel_maker(old(self).arena@[idx.0].id.0),
    {
        proof {
            self.lemma_wf();
            self.lemma_slot(idx.0, self.arena@[idx.0].id.0);
        }
        let order = self.arena.get(idx);
        let id: OrderId = order.id;
        let remaining: u64 = order.remaining();
        let side: Side = order.side;
        let price: u64 = order.price;
        self.take_out(idx);
        self.emit_cancelled(id, remaining);
        self.emit_book_update(side, price);
    }

    /// Takes `overlap` from a maker that must not trade with the taker.
    fn decrement_maker(&mut self, idx: ArenaIndex, overlap: u64)
        requires
            old(self).sound(),
            old(self).book.slots().contains_key(old(self).arena@[idx.0].id.0),
            old(self).book.slots()[old(self).arena@[idx.0].id.0] == idx.0,
            overlap <= old(self).arena@[idx.0].unfilled(),
            old(self)@.decrement_maker(old(self).arena@[idx.0].id.0, overlap as int).fits(),
        ensures
            final(self).sound(),
            final(self)@ == old(self)@.decrement_maker(
                old(self).arena@[idx.0].id.0,
                overlap as int,
            ),
    {
        proof {
            self.lemma_wf();
            self.lemma_slot(idx.0, self.arena@[idx.0].id.0);
        }
        let order = self.arena.get(idx);
        let remaining: u64 = order.remaining();
        let side: Side = order.side;
        let price: u64 = order.price;
        if remaining == overlap {
            self.take_out(idx);
        } else {
            self.reduce(idx, overlap);
        }
        self.emit_book_update(side, price);
    }

    /// Trades `qty` between the taker, of which `left` is then left, and a maker. A
    /// maker that showed a slice of its quantity and lost all of it shows the next, at
    /// the end of its queue.
    fn fill(&mut self, idx: ArenaIndex, taker_id: OrderId, qty: u64, left: u64)
        requires
            old(self).sound(),
            old(self).book.slots().contains_key(old(self).arena@[idx.0].id.0),
            old(self).book.slots()[old(self).arena@[idx.0].id.0] == idx.0,
            qty <= old(self).arena@[idx.0].unfilled(),
            old(self)@.fill(old(self).arena@[idx.0].id.0, taker_id, qty as int, left as int).fits(),
        ensures
            final(self).sound(),
            final(self)@ == old(self)@.fill(
                old(self).arena@[idx.0].id.0,
                taker_id,
                qty as int,
                left as int,
            ),
    {
        proof {
            self.lemma_wf();
            self.lemma_slot(idx.0, self.arena@[idx.0].id.0);
        }
        let order = self.arena.get(idx);
        let maker_id: OrderId = order.id;
        let maker_remaining: u64 = order.remaining() - qty;
        let slice: u64 = order.matchable_qty();
        let side: Side = order.side;
        let price: u64 = order.price;
        self.reduce(idx, qty);
        let meta: EventMeta = self.tick();
        self.emit(
            MatchEvent::Fill {
                meta,
                maker_id,
                taker_id,
                price,
                qty,
                maker_remaining,
                taker_remaining: left,
            },
        );
        self.last_trade_price = Some(price);
        self.emit_book_update(side, price);
        if maker_remaining == 0 {
            proof {
                self.lemma_slot(idx.0, maker_id.0);
            }
            self.take_out(idx);
        } else if qty == slice {
            proof {
                self.lemma_slot(idx.0, maker_id.0);
            }
            self.requeue(idx);
        }
    }

    /// Walks the other side of the book, one maker at a time. Makers leave as soon
    /// as they are filled, so that the best price is always current. Returns whether
    /// the taker is to be cancelled.
    fn match_against_book(&mut self, taker: &Incoming, remaining: &mut u64) -> (cancel: bool)
        requires
            old(self).sound(),
            old(self)@.match_book(*taker, *old(remaining) as int).0.fits(),
        ensures
            final(self).sound(),
            (final(self)@, *final(remaining) as int, cancel) == old(self)@.match_book(
                *taker,
                *old(remaining) as int,
            ),
            no_fill_within_group(old(self)@, final(self)@, *taker),
    {
        let price: u64 = taker.effective_price();
        let ghost end = old(self)@.match_book(*taker, *old(remaining) as int);
        proof {
            self.lemma_wf();
            law_no_fill_within_group(self@, *taker, *remaining as int);
        }
        while *remaining > 0
            invariant
                self.sound(),
                self@.book.wf(),
                end == old(self)@.match_book(*taker, *old(remaining) as int),
                no_fill_within_group(old(self)@, end.0, *taker),
                price == taker.reach(),
                end.0.fits(),
                end == self@.match_book(*taker, *remaining as int),
            ensures
                end == (self@, *remaining as int, false),
            decreases *remaining, self@.book.orders.dom().len(),
        {
            proof {
                self.lemma_wf();
                self@.lemma_first_maker(taker.side, price);
            }
            let maker_idx: ArenaIndex = match self.first_maker(taker.side, price) {
                Some(idx) => idx,
                None => {
                    break;
                },
            };
            let ghost id = self.arena@[maker_idx.0].id.0;
            let ghost state = self@;
            proof {
                self.lemma_slot(maker_idx.0, id);
            }
            let maker = self.arena.get(maker_idx);
            let maker_remaining: u64 = maker.remaining();
            let maker_matchable: u64 = maker.matchable_qty();
            let maker_stp: u32 = maker.stp_group;
            if maker_remaining == 0 {
                proof {
                    state.lemma_take_out(id);
                }
                self.take_out(maker_idx);
                proof {
                    self.lemma_wf();
                }
                continue ;
            }
            if maker_stp != STP_NONE && taker.stp_group.is_some() && taker.stp_group.unwrap()
                == maker_stp {
                match self.config.stp_mode {
                    StpMode::CancelNewest => {
                        return true;
                    },
                    StpMode::CancelOldest => {
                        proof {
                            state.lemma_cancel_maker(id);
                            state.cancel_maker(id).lemma_match_book(*taker, *remaining as int);
                        }
                        self.cancel_maker(maker_idx);
                        proof {
                            self.lemma_wf();
                        }
                        continue ;
                    },
                    StpMode::CancelBoth => {
                        self.cancel_maker(maker_idx);
                        return true;
                    },
                    StpMode::DecrementAndCancel => {
                        let overlap: u64 = if *remaining < maker_remaining {
                            *remaining
                        } else {
                            maker_remaining
                        };
                        self.decrement_maker(maker_idx, overlap);
                        *remaining = *remaining - overlap;
                        return true;
                    },
                }
            }
            let fill_qty: u64 = if *remaining < maker_matchable {
                *remaining
            } else {
                maker_matchable
            };
            let left: u64 = *remaining - fill_qty;
            proof {
                state.lemma_fill(id, taker.id, fill_qty as int, left as int);
                state.fill(id, taker.id, fill_qty as int, left as int).lemma_match_book(
                    *taker,
                    left as int,
                );
            }
            self.fill(maker_idx, taker.id, fill_qty, left);
            *remaining = left;
            proof {
                self.lemma_wf();
            }
        }
        false
    }

    /// Rests `qty` of an incoming order, unless an order with this identifier rests
    /// already or the arena is full.
    fn rest(&mut self, order: &Incoming, qty: u64)
        requires
            old(self).sound(),
            old(self)@.rest(order.id, order.remainder(qty)).fits(),
        ensures
            final(self).sound(),
            final(self)@ == old(self)@.rest(order.id, order.remainder(qty)),
    {
        proof {
            self.lemma_wf();
            self.book.lemma_wf(self.arena);
            let id = order.id.0;
            assert(self.book.slots().contains_key(id) <==> self@.book.orders.contains_key(id));
            if !self@.book.orders.contains_key(id) {
                self@.book.lemma_rest(id, order.remainder(qty));
            }
        }
        let ghost orders = self@.book.orders;
        proof {
            self.book.lemma_order_count(self.arena);
            lemma_total_slices_bounds(orders);
        }
        let index: Option<ArenaIndex> = self.book.insert_order(
            order.id,
            order.side,
            order.price,
            qty,
            order.order_type,
            order.visible_qty,
            order.stp_group,
            &mut self.arena,
        );
        match index {
            Some(idx) => {
                proof {
                    let id = order.id.0;
                    let resting = order.remainder(qty);
                    let added = orders.insert(id, resting);
                    self.book.lemma_wf(self.arena);
                    assert(self.book.model(self.arena).orders == added);
                    assert(self.book.slots().contains_key(id));
                    assert(added.dom() =~= orders.dom().insert(id));
                    assert(added.contains_key(id));
                    assert(added.remove(id) =~= orders);
                    lemma_total_slices(added, id);
                    lemma_slices(
                        resting.order_type,
                        resting.visible_quantity as int,
                        resting.quantity as int,
                        resting.filled as int,
                    );
                }
                self.slices = self.slices + self.arena.get(idx).slices();
            },
            None => {},
        }
        assert(self@ =~= old(self)@.rest(order.id, order.remainder(qty)));
    }

    /// Quantity that an incoming order on `taker_side`, good up to `taker_price`,
    /// could trade against.
    fn check_available_liquidity(&self, taker_side: Side, taker_price: u64) -> (qty: u64)
        requires
            self.sound(),
        ensures
            qty == self@.book.depth(taker_side.other(), taker_price),
    {
        proof {
            self.lemma_wf();
        }
        match taker_side {
            Side::Bid => self.book.ask_available_at_or_below(taker_price),
            Side::Ask => self.book.bid_available_at_or_above(taker_price),
        }
    }

    /// Whether the first maker that an incoming order meets is in the
    /// self-trade-prevention group `taker_stp`.
    fn stp_first_maker_matches(&self, taker_side: Side, taker_price: u64, taker_stp: u32) -> (found:
        bool)
        requires
            self.sound(),
        ensures
            found == (self@.first_maker(taker_side, taker_price) matches Some(maker) && same_group(
                Some(taker_stp),
                self@.book.orders[maker].stp_group,
            )),
    {
        match self.first_maker(taker_side, taker_price) {
            None => false,
            Some(head_idx) => {
                proof {
                    self.lemma_wf();
                }
                let maker_stp: u32 = self.arena.get(head_idx).stp_group;
                maker_stp != STP_NONE && maker_stp == taker_stp
            },
        }
    }

    /// Why a limit, market or iceberg order is rejected, if it is.
    fn refusal(&self, order: &Incoming) -> (reason: Option<RejectReason>)
        requires
            self.sound(),
        ensures
            reason == self@.refusal(*order),
    {
        if order.qty == 0 {
            return Some(RejectReason::InvalidQuantity);
        }
        proof {
            self.book.lemma_wf(self.arena);
            assert(self.book.slots().contains_key(order.id.0) <==> self@.book.orders.contains_key(
                order.id.0,
            ));
        }
        if self.book.lookup(order.id).is_some() {
            return Some(RejectReason::DuplicateOrderId);
        }
        let effective_price: u64 = order.effective_price();
        if order.time_in_force == TimeInForce::FOK {
            let available: u64 = self.check_available_liquidity(order.side, effective_price);
            if available < order.qty {
                return Some(RejectReason::InsufficientLiquidity);
            }
        }
        if self.config.stp_mode == StpMode::CancelNewest {
            match order.stp_group {
                Some(taker_stp) => {
                    if self.stp_first_maker_matches(order.side, effective_price, taker_stp) {
                        return Some(RejectReason::SelfTradePreventionTriggered);
                    }
                },
                None => {},
            }
        }
        None
    }

    /// Takes in a post-only order.
    fn process_post_only(&mut self, order: &Incoming)
        requires
            old(self).sound(),
            old(self)@.post_only(*order).fits(),
        ensures
            final(self).sound(),
            final(self)@ == old(self)@.post_only(*order),
    {
        let would_cross: bool = self.first_maker(order.side, order.price).is_some();
        if would_cross {
            self.emit_rejected(order.id, RejectReason::WouldCrossSpread);
            return;
        }
        self.emit_accepted(order);
        self.rest(order, order.qty);
        self.emit_book_update(order.side, order.price);
    }

    /// Position of a stop at `stop_px` among `stops`.
    fn stop_slot(side: Side, stops: &Vec<(u64, StopEntry)>, stop_px: u64) -> (position: usize)
        ensures
            position == stop_position(side, stops@, stop_px),
            position <= stops@.len(),
    {
        let mut pos: usize = 0;
        assert(stops@.skip(0) =~= stops@);
        while pos < stops.len()
            invariant
                pos <= stops@.len(),
                pos + stop_position(side, stops@.skip(pos as int), stop_px) == stop_position(
                    side,
                    stops@,
                    stop_px,
                ),
            ensures
                pos <= stops@.len(),
                pos == stop_position(side, stops@, stop_px),
            decreases stops@.len() - pos,
        {
            let ahead: bool = match side {
                Side::Bid => stops[pos].0 <= stop_px,
                Side::Ask => stops[pos].0 >= stop_px,
            };
            assert(stops@.skip(pos as int)[0] == stops@[pos as int]);
            assert(stops@.skip(pos as int).drop_first() =~= stops@.skip(pos + 1));
            if !ahead {
                break;
            }
            pos += 1;
        }
        pos
    }

    /// Takes in a stop-limit order.
    fn process_stop_limit(&mut self, order: &Incoming)
        requires
            old(self).sound(),
            old(self)@.stop_limit(*order).fits(),
        ensures
            final(self).sound(),
            final(self)@ == old(self)@.stop_limit(*order),
    {
        if order.qty == 0 {
            self.emit_rejected(order.id, RejectReason::InvalidQuantity);
            return;
        }
        let stop_px: u64 = match order.stop_price {
            Some(stop_px) => stop_px,
            None => {
                self.emit_rejected(order.id, RejectReason::InvalidPrice);
                return;
            },
        };
        self.emit_accepted(order);
        let entry = StopEntry {
            id: order.id,
            side: order.side,
            limit_price: order.price,
            qty: order.qty,
            time_in_force: order.time_in_force,
            visible_qty: order.visible_qty,
            stp_group: order.stp_group,
        };
        match order.side {
            Side::Bid => {
                let pos: usize = Self::stop_slot(Side::Bid, &self.stop_bids, stop_px);
                self.stop_bids.insert(pos, (stop_px, entry));
            },
            Side::Ask => {
                let pos: usize = Self::stop_slot(Side::Ask, &self.stop_asks, stop_px);
                self.stop_asks.insert(pos, (stop_px, entry));
            },
        }
        assert(self@ =~= old(self)@.stop_limit(*order));
    }

    /// Takes in an order.
    fn process_new_order(&mut self, order: &Incoming)
        requires
            old(self).sound(),
            old(self)@.new_order(*order).fits(),
        ensures
            final(self).sound(),
            final(self)@ == old(self)@.new_order(*order),
    {
        match order.order_type {
            OrderType::PostOnly => {
                self.process_post_only(order);
                return;
            },
            OrderType::StopLimit => {
                self.process_stop_limit(order);
                return;
            },
            _ => {},
        }
        match self.refusal(order) {
            Some(reason) => {
                self.emit_rejected(order.id, reason);
                return;
            },
            None => {},
        }
        let ghost accepted = self@.accepted(*order);
        let ghost matched = accepted.match_book(*order, order.qty as int);
        proof {
            self.lemma_wf();
            accepted.lemma_match_book(*order, order.qty as int);
            matched.0.lemma_settle(*order, matched.1, matched.2);
        }
        self.emit_accepted(order);
        let mut qty: u64 = order.qty;
        let cancel_incoming: bool = self.match_against_book(order, &mut qty);
        if cancel_incoming {
            self.emit_cancelled(order.id, qty);
            return;
        }
        if qty == 0 {
            return;
        }
        match (order.order_type, order.time_in_force) {
            (OrderType::Market, _) => {
                self.emit_cancelled(order.id, qty);
            },
            (_, TimeInForce::GTC) => {
                self.rest(order, qty);
                self.emit_book_update(order.side, order.price);
            },
            _ => {
                self.emit_cancelled(order.id, qty);
            },
        }
    }

    /// Cancels a resting order.
    fn process_cancel(&mut self, id: OrderId)
        requires
            old(self).sound(),
            old(self)@.cancel(id).fits(),
        ensures
            final(self).sound(),
            final(self)@ == old(self)@.cancel(id),
    {
        proof {
            self.lemma_wf();
            self.book.lemma_wf(self.arena);
            assert(self.book.slots().contains_key(id.0) <==> self@.book.orders.contains_key(id.0));
        }
        match self.book.lookup(id) {
            Some(idx) => {
                self.cancel_maker(idx);
            },
            None => {
                self.emit_rejected(id, RejectReason::OrderNotFound);
            },
        }
    }

    /// Replaces a resting order by a limit order on its side and in its group, which
    /// comes in as a new one.
    fn process_modify(&mut self, id: OrderId, new_price: u64, new_qty: u64)
        requires
            old(self).sound(),
            old(self)@.modify(id, new_price, new_qty).fits(),
        ensures
            final(self).sound(),
            final(self)@ == old(self)@.modify(id, new_price, new_qty),
            modified_as_replaced(old(self)@, final(self)@, id, new_price, new_qty),
    {
        proof {
            self.lemma_wf();
            law_modify_is_cancel_and_new(self@, id, new_price, new_qty);
        }
        proof {
            self.lemma_wf();
            self.book.lemma_wf(self.arena);
            assert(self.book.slots().contains_key(id.0) <==> self@.book.orders.contains_key(id.0));
        }
        match self.book.lookup(id) {
            Some(idx) => {
                let order = self.arena.get(idx);
                let side: Side = order.side;
                let old_price: u64 = order.price;
                let group: u32 = order.stp_group;
                let replacement = Incoming {
                    id,
                    side,
                    price: new_price,
                    qty: new_qty,
                    order_type: OrderType::Limit,
                    time_in_force: TimeInForce::GTC,
                    visible_qty: None,
                    stop_price: None,
                    stp_group: if group == STP_NONE {
                        None
                    } else {
                        Some(group)
                    },
                };
                proof {
                    let a = self@.take_out(id.0);
                    let event = MatchEvent::OrderModified {
                        meta: a.next_meta(),
                        id,
                        new_price,
                        new_qty,
                    };
                    let b = a.emit(event);
                    let c = b.book_update(side, old_price);
                    self@.lemma_take_out(id.0);
                    c.lemma_new_order(replacement);
                }
                self.take_out(idx);
                let meta: EventMeta = self.tick();
                self.emit(MatchEvent::OrderModified { meta, id, new_price, new_qty });
                self.emit_book_update(side, old_price);
                self.process_new_order(&replacement);
            },
            None => {
                self.emit_rejected(id, RejectReason::OrderNotFound);
            },
        }
    }

    /// Takes in the first stop of `side`, which has triggered.
    fn trigger_stop(&mut self, side: Side)
        requires
            old(self).sound(),
            old(self)@.stops(side).len() > 0,
            old(self)@.trigger(side).fits(),
        ensures
            final(self).sound(),
            final(self)@ == old(self)@.trigger(side),
    {
        let ghost out = old(self)@.pop_stop(side);
        proof {
            self.lemma_wf();
            let event = MatchEvent::StopTriggered {
                meta: out.next_meta(),
                stop_id: self@.stops(side)[0].1.id,
                new_order_id: self@.stops(side)[0].1.id,
            };
            out.emit(event).lemma_new_order(self@.stops(side)[0].1.order());
        }
        let (_, entry): (u64, StopEntry) = match side {
            Side::Bid => self.stop_bids.remove(0),
            Side::Ask => self.stop_asks.remove(0),
        };
        proof {
            assert(self@ =~= out);
        }
        let meta: EventMeta = self.tick();
        self.emit(MatchEvent::StopTriggered { meta, stop_id: entry.id, new_order_id: entry.id });
        let order: Incoming = entry.triggered();
        self.process_new_order(&order);
    }

    /// Takes in the stops of `side` that a trade at `last_price` triggers.
    fn drain_side(&mut self, side: Side, last_price: u64)
        requires
            old(self).sound(),
            old(self)@.drain_side(side, last_price).fits(),
        ensures
            final(self).sound(),
            final(self)@ == old(self)@.drain_side(side, last_price),
    {
        let ghost end = old(self)@.drain_side(side, last_price);
        proof {
            self.lemma_wf();
        }
        loop
            invariant
                self.sound(),
                self@.book.wf(),
                end.fits(),
                end == old(self)@.drain_side(side, last_price),
                end == self@.drain_side(side, last_price),
            ensures
                end == self@,
            decreases self@.stops(side).len(),
        {
            let due: bool = match side {
                Side::Bid => self.stop_bids.len() > 0 && self.stop_bids[0].0 <= last_price,
                Side::Ask => self.stop_asks.len() > 0 && self.stop_asks[0].0 >= last_price,
            };
            if !due {
                break;
            }
            proof {
                self@.lemma_trigger(side);
                self@.trigger(side).lemma_drain_side(side, last_price);
            }
            self.trigger_stop(side);
            proof {
                self.lemma_wf();
            }
        }
    }

    /// Takes in all stops that the last trade triggers. Loops until the last trade
    /// price stays the same, so that stops that trigger stops work.
    fn drain_stop_triggers(&mut self)
        requires
            old(self).sound(),
            old(self)@.drain().fits(),
        ensures
            final(self).sound(),
            final(self)@ == old(self)@.drain(),
            drained(old(self)@, final(self)@),
    {
        let ghost end = old(self)@.drain();
        proof {
            self.lemma_wf();
            law_drained(self@);
        }
        loop
            invariant_except_break
                end == self@.drain(),
            invariant
                self.sound(),
                self@.book.wf(),
                end.fits(),
                end == old(self)@.drain(),
                drained(old(self)@, end),
            ensures
                end == self@,
            decreases self@.stop_bids.len() + self@.stop_asks.len(),
        {
            let last_price: u64 = match self.last_trade_price {
                Some(last_price) => last_price,
                None => {
                    break;
                },
            };
            proof {
                let bids = self@.drain_side(Side::Bid, last_price);
                let both = bids.drain_side(Side::Ask, last_price);
                self@.lemma_drain_side(Side::Bid, last_price);
                bids.lemma_drain_side(Side::Ask, last_price);
                both.lemma_drain();
            }
            self.drain_side(Side::Bid, last_price);
            self.drain_side(Side::Ask, last_price);
            proof {
                self.lemma_wf();
            }
            if self.last_trade_price.is_some() && self.last_trade_price.unwrap() == last_price {
                break;
            }
        }
    }

    /// Processes a command.
    fn take_command(&mut self, cmd: Command)
        requires
            old(self).wf(),
            old(self)@.process(cmd).fits(),
        ensures
            final(self).wf(),
            final(self)@ == old(self)@.process(cmd),
    {
        let ghost ready = Engine { events: Seq::empty(), ..self@ };
        proof {
            self.lemma_wf();
            law_stops_keep_their_sides(self@, cmd);
        }
        self.events = Vec::new();
        proof {
            self.lemma_wf();
            assert(self@ =~= ready);
        }
        match cmd {
            Command::NewOrder {
                id,
                side,
                price,
                qty,
                order_type,
                time_in_force,
                visible_qty,
                stop_price,
                stp_group,
                ..
            } => {
                let order = Incoming {
                    id,
                    side,
                    price,
                    qty,
                    order_type,
                    time_in_force,
                    visible_qty,
                    stop_price,
                    stp_group,
                };
                proof {
                    ready.lemma_new_order(order);
                    ready.new_order(order).lemma_drain();
                }
                self.process_new_order(&order);
            },
            Command::CancelOrder { id } => {
                proof {
                    ready.lemma_cancel(id);
                    ready.cancel(id).lemma_drain();
                }
                self.process_cancel(id);
            },
            Command::ModifyOrder { id, new_price, new_qty } => {
                proof {
                    ready.lemma_modify(id, new_price, new_qty);
                    ready.modify(id, new_price, new_qty).lemma_drain();
                }
                self.process_modify(id, new_price, new_qty);
            },
        }
        self.drain_stop_triggers();
    }

    /// Processes a command and returns the events that it caused.
    pub fn process(&mut self, cmd: Command) -> (events: &[MatchEvent])
        requires
            old(self).wf(),
            old(self)@.process(cmd).fits(),
        ensures
            final(self).wf(),
            final(self)@ == old(self)@.process(cmd),
            carried_out(old(self)@, final(self)@, cmd),
            events@ == final(self)@.events,
            events@.len() > 0,
            final(self)@.sequence == old(self)@.sequence + events@.len(),
            forall|k: int|
                0 <= k < events@.len() ==> meta_of(#[trigger] events@[k]) == (EventMeta {
                    sequence: (old(self)@.sequence + k + 1) as u64,
                    timestamp_ns: (old(self)@.sequence + k + 1) as u64,
                }),
    {
        proof {
            self.lemma_wf();
            law_events_are_numbered(self@, cmd);
            law_command_is_carried_out(self@, cmd);
        }
        self.take_command(cmd);
        self.events.as_slice()
    }

    /// The state of a well formed engine: its book is well formed, its stops wait on
    /// their own sides, and its numbers fit.
    pub proof fn lemma_state(&self)
        requires
            self.wf(),
        ensures
            self@.book.wf(),
            own_sides(self@),
            self@.fits(),
            self@.book.orders.dom().len() <= u32::MAX,
    {
        self.lemma_wf();
        self.book.lemma_order_count(self.arena);
    }

    /// The quantity that rests on `side`.
    fn resting_qty(&self, side: Side) -> (qty: u64)
        requires
            self.sound(),
        ensures
            qty == self@.book.side_qty(side),
    {
        proof {
            self.lemma_wf();
        }
        match side {
            Side::Bid => self.book.bid_available_at_or_above(0),
            Side::Ask => self.book.ask_available_at_or_below(u64::MAX),
        }
    }

    /// The quantity that a command asks for on `side`, and what is left of the order
    /// that it replaces there.
    fn asked_and_left(&self, cmd: &Command, side: Side) -> (qty: (u64, u64))
        requires
            self.sound(),
        ensures
            qty.0 - qty.1 == brings(self@, *cmd, side),
            qty.1 <= self@.book.side_qty(side),
    {
        proof {
            self.lemma_wf();
            self.book.lemma_wf(self.arena);
            self.book.lemma_side_qty(self.arena, side);
        }
        match cmd {
            Command::NewOrder { side: on, qty, order_type, time_in_force, .. } => {
                let stays: bool = match order_type {
                    OrderType::PostOnly | OrderType::StopLimit => true,
                    OrderType::Limit | OrderType::Iceberg => *time_in_force == TimeInForce::GTC,
                    OrderType::Market => false,
                };
                if *on == side && stays {
                    (*qty, 0)
                } else {
                    (0, 0)
                }
            },
            Command::CancelOrder { .. } => (0, 0),
            Command::ModifyOrder { id, new_qty, .. } => match self.book.lookup(*id) {
                Some(index) => {
                    proof {
                        self.book.lemma_unfilled(self.arena, id.0);
                    }
                    let order = self.arena.get(index);
                    if order.side == side {
                        (*new_qty, order.remaining())
                    } else {
                        (0, 0)
                    }
                },
                None => (0, 0),
            },
        }
    }

    /// Whether what rests and waits on `side` fits with what a command brings.
    fn side_has_room(&self, cmd: &Command, side: Side, waiting: u64) -> (room: bool)
        requires
            self.sound(),
            waiting == stop_qty(self@.stops(side)),
        ensures
            room == (outstanding(self@, side) + brings(self@, *cmd, side) <= u64::MAX),
    {
        let (asked, left): (u64, u64) = self.asked_and_left(cmd, side);
        let total: u128 = self.resting_qty(side) as u128 - left as u128 + waiting as u128
            + asked as u128;
        total <= u64::MAX as u128
    }

    /// Whether the sequence stays in range whatever events a command causes.
    fn sequence_has_room(&self, cmd: &Command) -> (room: bool)
        requires
            self.sound(),
        ensures
            room == (horizon(self@) + 2 * slices_asked(*cmd) + 8 <= u64::MAX),
    {
        proof {
            self.lemma_wf();
            self.book.lemma_order_count(self.arena);
            lemma_total_slices_bounds(self@.book.orders);
        }
        let stops: u128 = self.stop_bids.len() as u128 + self.stop_asks.len() as u128;
        let last: u128 = self.sequence as u128 + 2 * (self.slices + slices_of_command(cmd)) + 7
            * stops + 8;
        last <= u64::MAX as u128
    }

    /// Whether the sums on both sides and the sequence stay in range.
    fn sums_have_room(&self, cmd: &Command) -> (room: bool)
        requires
            self.wf(),
        ensures
            room == has_room(self@, *cmd),
    {
        proof {
            self.lemma_wf();
            lemma_stop_qty_skip(self.stop_bids@, 0);
            lemma_stop_qty_skip(self.stop_asks@, 0);
            self.lemma_brings(*cmd, Side::Bid);
            self.lemma_brings(*cmd, Side::Ask);
        }
        match (stops_qty(&self.stop_bids), stops_qty(&self.stop_asks)) {
            (Some(stop_bids), Some(stop_asks)) => {
                self.sequence_has_room(cmd) && self.side_has_room(cmd, Side::Bid, stop_bids)
                    && self.side_has_room(cmd, Side::Ask, stop_asks)
            },
            _ => false,
        }
    }

    /// A command takes no more from a side than rests there.
    proof fn lemma_brings(&self, cmd: Command, side: Side)
        requires
            self.sound(),
        ensures
            self@.book.side_qty(side) + brings(self@, cmd, side) >= 0,
    {
        self.book.lemma_side_qty(self.arena, side);
        self.book.lemma_wf(self.arena);
        match cmd {
            Command::ModifyOrder { id, .. } => {
                if self@.book.orders.contains_key(id.0) {
                    assert(self.book.slots().contains_key(id.0));
                    self.book.lemma_unfilled(self.arena, id.0);
                }
            },
            _ => {},
        }
    }

    /// Whether a command can be processed without bringing a number out of range.
    pub fn has_room(&self, cmd: &Command) -> (room: bool)
        requires
            self.wf(),
        ensures
            room == has_room(self@, *cmd),
            room ==> self@.process(*cmd).fits(),
    {
        proof {
            self.lemma_state();
            if has_room(self@, *cmd) {
                law_room_is_enough(self@, *cmd);
            }
        }
        self.sums_have_room(cmd)
    }

    /// The best bid.
    #[inline]
    pub fn best_bid(&self) -> (best: Option<u64>)
        ensures
            best == self@.book.best_bid,
    {
        self.book.best_bid()
    }

    /// The best ask.
    #[inline]
    pub fn best_ask(&self) -> (best: Option<u64>)
        ensures
            best == self@.book.best_ask,
    {
        self.book.best_ask()
    }

    /// A snapshot of sequence, clock and last trade price (zero before the first
    /// trade), eight little-endian bytes each. The full state is rebuilt by replaying
    /// the journal up to this sequence.
    pub fn snapshot(&self) -> (bytes: Vec<u8>)
        requires
            self.wf(),
        ensures
            bytes@ == le_bytes(self@.sequence as int, 8) + le_bytes(self@.sequence as int, 8)
                + le_bytes(self@.last_trade.unwrap_or(0) as int, 8),
    {
        let mut buf: Vec<u8> = Vec::with_capacity(24);
        push_u64(&mut buf, self.sequence);
        push_u64(&mut buf, self.timestamp_ns);
        push_u64(&mut buf, self.last_trade_price.unwrap_or(0));
        assert(buf@ =~= le_bytes(self@.sequence as int, 8) + le_bytes(self@.sequence as int, 8)
            + le_bytes(self@.last_trade.unwrap_or(0) as int, 8));
        buf
    }

    /// Sequence of the last event.
    #[inline]
    pub fn current_sequence(&self) -> (sequence: u64)
        ensures
            sequence == self@.sequence,
    {
        self.sequence
    }
}

} // verus!
