//! Core types: orders, price levels, commands and events.
//!
//! Prices are in ticks and quantities in lots, both fixed-point integers.
use vstd::arithmetic::div_mod::{
    lemma_div_is_ordered, lemma_div_nonincreasing, lemma_div_plus_one, lemma_div_pos_is_pos,
};
use vstd::prelude::*;

verus! {

/// Identifier of an order, unique among the orders resting on a book.
#[derive(Debug, Clone, Copy, PartialEq, Eq, Hash, Structural)]
pub struct OrderId(pub u64);

/// Index of a slot in the order arena. 32 bits keep `Order` within a cache line.
#[derive(Debug, Clone, Copy, PartialEq, Eq, Structural)]
pub struct ArenaIndex(pub u32);

impl ArenaIndex {
    /// The index as a `usize`.
    #[inline]
    pub fn as_usize(self) -> (index: usize)
        ensures
            index == self.0,
    {
        self.0 as usize
    }

    /// The link that the index stands for, none for `ARENA_NULL`.
    #[inline]
    pub fn link(self) -> (link: Option<ArenaIndex>)
        ensures
            link == link_of(self),
    {
        if self.0 == ARENA_NULL {
            None
        } else {
            Some(self)
        }
    }
}

/// Raw value of the `ArenaIndex` that means "no link".
pub const ARENA_NULL: u32 = u32::MAX;

/// Value of `stp_group` that means "no self-trade-prevention group".
pub const STP_NONE: u32 = u32::MAX;

/// The link that a raw arena index stands for: none for `ARENA_NULL`.
pub open spec fn link_of(index: ArenaIndex) -> Option<ArenaIndex> {
    if index.0 == ARENA_NULL {
        None
    } else {
        Some(index)
    }
}

/// Bid or ask.
#[derive(Debug, Clone, Copy, PartialEq, Eq, Structural)]
pub enum Side {
    Bid,
    Ask,
}

impl Side {
    /// The other side, as a specification.
    pub open spec fn other(self) -> Side {
        match self {
            Side::Bid => Side::Ask,
            Side::Ask => Side::Bid,
        }
    }

    /// The other side.
    #[inline]
    pub fn opposite(self) -> (side: Self)
        ensures
            side == self.other(),
    {
        match self {
            Side::Bid => Side::Ask,
            Side::Ask => Side::Bid,
        }
    }
}

/// Order type.
#[derive(Debug, Clone, Copy, PartialEq, Eq, Structural)]
pub enum OrderType {
    Limit,
    Market,
    PostOnly,
    StopLimit,
    Iceberg,
}

/// Time in force.
#[derive(Debug, Clone, Copy, PartialEq, Eq, Structural)]
pub enum TimeInForce {
    /// Good til cancel.
    GTC,
    /// Immediate or cancel.
    IOC,
    /// Fill or kill.
    FOK,
}

/// Self-trade prevention mode.
#[derive(Debug, Clone, Copy, PartialEq, Eq, Structural)]
pub enum StpMode {
    CancelNewest,
    CancelOldest,
    CancelBoth,
    DecrementAndCancel,
}

/// Why an order was rejected.
#[derive(Debug, Clone, Copy, PartialEq, Eq, Structural)]
pub enum RejectReason {
    InvalidPrice,
    InvalidQuantity,
    InstrumentNotFound,
    OrderNotFound,
    /// A post-only order would have crossed the spread.
    WouldCrossSpread,
    /// A fill-or-kill order could not be filled at once.
    InsufficientLiquidity,
    SelfTradePreventionTriggered,
    DuplicateOrderId,
}

/// An order stored in the arena, a node of the doubly linked FIFO queue of its
/// price level.
///
/// Stop prices are not stored here: stop-limit orders wait in the engine's stop
/// queues and enter the arena as limit orders when they trigger.
#[derive(Debug, Clone)]
pub struct Order {
    pub id: OrderId,
    pub price: u64,
    pub quantity: u64,
    pub filled: u64,
    pub timestamp: u64,
    pub visible_quantity: u64,
    /// `STP_NONE` means no self-trade-prevention group.
    pub stp_group: u32,
    /// `ARENA_NULL` means no previous order in the queue.
    pub prev: ArenaIndex,
    /// `ARENA_NULL` means no next order in the queue.
    pub next: ArenaIndex,
    pub side: Side,
    pub order_type: OrderType,
    pub time_in_force: TimeInForce,
    pub _pad: u8,
}

impl Order {
    /// Unfilled quantity: what `quantity` exceeds `filled` by, if it does.
    pub open spec fn unfilled(&self) -> int {
        if self.quantity >= self.filled {
            self.quantity - self.filled
        } else {
            0
        }
    }

    /// Quantity that one match may take from the order.
    pub open spec fn matchable(&self) -> int {
        matchable_of(
            self.order_type,
            self.visible_quantity as int,
            self.filled as int,
            self.unfilled(),
        )
    }

    /// Remaining unfilled quantity, zero for an overfilled order.
    #[inline(always)]
    pub fn remaining(&self) -> (qty: u64)
        ensures
            qty == self.unfilled(),
    {
        self.quantity.saturating_sub(self.filled)
    }

    /// Structural validity check used by pre-trade and replay validation.
    #[inline]
    pub fn is_valid_state(&self) -> (valid: bool)
        ensures
            valid == (self.filled <= self.quantity),
    {
        self.filled <= self.quantity
    }

    /// Whether the order is fully filled.
    #[inline(always)]
    pub fn is_filled(&self) -> (filled: bool)
        ensures
            filled == (self.filled >= self.quantity),
    {
        self.filled >= self.quantity
    }

    /// Quantity available for matching from this resting order.
    ///
    /// For an iceberg order this is what is left of the current visible slice:
    /// slices of `visible_quantity` follow one another, and `filled` modulo the
    /// slice size is the position in the current one. For every other order it is
    /// the remaining quantity.
    #[inline(always)]
    pub fn matchable_qty(&self) -> (qty: u64)
        ensures
            qty == self.matchable(),
    {
        match self.order_type {
            OrderType::Iceberg => {
                let remaining: u64 = self.remaining();
                if self.visible_quantity > 0 {
                    let peak: u64 = self.visible_quantity;
                    let filled_this_slice: u64 = self.filled % peak;
                    let slice: u64 = peak - filled_this_slice;
                    if slice < remaining {
                        slice
                    } else {
                        remaining
                    }
                } else {
                    remaining
                }
            },
            _ => self.remaining(),
        }
    }

    /// Number of matches that use the order up where each takes all that it may.
    #[inline]
    pub fn slices(&self) -> (n: u128)
        requires
            self.filled <= self.quantity,
        ensures
            n == slices_of(
                self.order_type,
                self.visible_quantity as int,
                self.quantity as int,
                self.filled as int,
            ),
    {
        if self.visible_quantity == 0 {
            return 1;
        }
        match self.order_type {
            OrderType::Iceberg => {
                proof {
                    lemma_slices(
                        self.order_type,
                        self.visible_quantity as int,
                        self.quantity as int,
                        self.filled as int,
                    );
                }
                let all: u128 = slices_in(self.quantity, self.visible_quantity);
                let used: u64 = self.filled / self.visible_quantity;
                all - used as u128
            },
            _ => 1,
        }
    }
}

/// Number of slices of size `peak` in `qty`, the last of which may be smaller.
pub fn slices_in(qty: u64, peak: u64) -> (n: u128)
    requires
        peak > 0,
    ensures
        n == (qty + peak - 1) / (peak as int),
{
    (qty as u128 + peak as u128 - 1) / peak as u128
}

/// Number of matches that use an order up where each takes all that it may: one; or,
/// for an order that shows slices of size `peak`, one for each slice of its quantity
/// that is not used up.
pub open spec fn slices_of(order_type: OrderType, peak: int, quantity: int, filled: int) -> int {
    if order_type == OrderType::Iceberg && peak > 0 {
        (quantity + peak - 1) / peak - filled / peak
    } else {
        1
    }
}

/// How many slices there are: none is negative, there is one as long as something is
/// left, and no more than quantity and slice size add up to.
pub proof fn lemma_slices(order_type: OrderType, peak: int, quantity: int, filled: int)
    requires
        0 <= filled <= quantity,
        peak >= 0,
    ensures
        0 <= slices_of(order_type, peak, quantity, filled) <= quantity + peak + 1,
        filled < quantity ==> slices_of(order_type, peak, quantity, filled) >= 1,
{
    if order_type == OrderType::Iceberg && peak > 0 {
        lemma_div_is_ordered(filled, quantity + peak - 1, peak);
        lemma_div_nonincreasing(quantity + peak - 1, peak);
        lemma_div_pos_is_pos(filled, peak);
        if filled < quantity {
            lemma_div_plus_one(quantity - 1, peak);
            lemma_div_is_ordered(filled, quantity - 1, peak);
        }
    }
}

/// Quantity that one match may take from an order of type `order_type` with the
/// visible slice size `peak`, of which `filled` is filled and `unfilled` is left.
pub open spec fn matchable_of(order_type: OrderType, peak: int, filled: int, unfilled: int) -> int {
    if order_type == OrderType::Iceberg && peak > 0 {
        let slice = peak - filled % peak;
        if slice < unfilled {
            slice
        } else {
            unfilled
        }
    } else {
        unfilled
    }
}

/// A price level of the order book.
#[derive(Debug, Clone, Copy, PartialEq, Eq, Structural)]
pub struct PriceLevel {
    pub total_quantity: u64,
    pub order_count: u32,
    pub head: Option<ArenaIndex>,
    pub tail: Option<ArenaIndex>,
}

impl PriceLevel {
    /// The level without orders, as a specification.
    pub open spec fn none() -> PriceLevel {
        PriceLevel { total_quantity: 0, order_count: 0, head: None, tail: None }
    }

    /// The level without orders.
    #[inline]
    pub fn empty() -> (level: Self)
        ensures
            level == PriceLevel::none(),
    {
        PriceLevel { total_quantity: 0, order_count: 0, head: None, tail: None }
    }

    /// Whether no order rests at the level.
    #[inline]
    pub fn is_empty(&self) -> (empty: bool)
        ensures
            empty == (self.order_count == 0),
    {
        self.order_count == 0
    }
}

/// Metadata that every emitted event carries.
#[derive(Debug, Clone, Copy, PartialEq, Eq, Structural)]
pub struct EventMeta {
    /// Output sequence, one more for each event.
    pub sequence: u64,
    /// Logical engine clock, one more for each event; never wall-clock time.
    pub timestamp_ns: u64,
}

/// Events emitted by the matching engine.
#[derive(Debug, Clone, Copy, PartialEq, Eq, Structural)]
pub enum MatchEvent {
    OrderAccepted {
        meta: EventMeta,
        id: OrderId,
        side: Side,
        price: u64,
        qty: u64,
        order_type: OrderType,
    },
    OrderRejected { meta: EventMeta, id: OrderId, reason: RejectReason },
    Fill {
        meta: EventMeta,
        maker_id: OrderId,
        taker_id: OrderId,
        price: u64,
        qty: u64,
        maker_remaining: u64,
        taker_remaining: u64,
    },
    OrderCancelled { meta: EventMeta, id: OrderId, remaining_qty: u64 },
    OrderModified { meta: EventMeta, id: OrderId, new_price: u64, new_qty: u64 },
    BookUpdate {
        meta: EventMeta,
        side: Side,
        price: u64,
        /// New total at this level (0 means that the level was removed).
        qty: u64,
    },
    StopTriggered { meta: EventMeta, stop_id: OrderId, new_order_id: OrderId },
}

/// Commands into the matching engine.
#[derive(Debug, Clone, Copy, PartialEq, Eq, Structural)]
pub enum Command {
    NewOrder {
        id: OrderId,
        instrument_id: u32,
        side: Side,
        price: u64,
        qty: u64,
        order_type: OrderType,
        time_in_force: TimeInForce,
        /// Visible slice of an iceberg order.
        visible_qty: Option<u64>,
        /// Trigger price of a stop-limit order.
        stop_price: Option<u64>,
        stp_group: Option<u32>,
    },
    CancelOrder { id: OrderId },
    ModifyOrder { id: OrderId, new_price: u64, new_qty: u64 },
}

/// Instrument configuration.
#[derive(Debug, Clone, Copy)]
pub struct InstrumentConfig {
    pub id: u32,
    pub tick_size: u64,
    pub lot_size: u64,
    /// Lowest price of the dense window, in ticks.
    pub base_price: u64,
    /// Number of tick slots of the dense window, per side.
    pub max_ticks: u32,
    pub stp_mode: StpMode,
}

} // verus!
