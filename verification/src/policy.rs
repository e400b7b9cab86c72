//! Matching policies: which resting prices an incoming order may trade against,
//! and how one level is walked.
use crate::arena::Arena;
use crate::types::{link_of, ArenaIndex, Order, OrderId, Side};
use vstd::prelude::*;

verus! {

/// A single fill generated during matching.
#[derive(Debug, Clone, Copy, PartialEq, Eq, Structural)]
pub struct Fill {
    pub maker_idx: ArenaIndex,
    pub maker_id: OrderId,
    pub taker_id: OrderId,
    pub price: u64,
    pub qty: u64,
}

/// Sink for the fills that a walk over a level produces.
pub trait FillSink: Sized {
    /// Whether a sink `before` that takes `fill` may become the sink `after`.
    spec fn takes(before: Self, fill: Fill, after: Self) -> bool;

    /// Takes one fill.
    fn on_fill(&mut self, fill: Fill)
        ensures
            Self::takes(*old(self), fill, *final(self)),
    ;
}

/// Whether a sink `before` that takes `fills`, one after the other, may become the
/// sink `after`.
pub open spec fn takes_all<S: FillSink>(before: S, fills: Seq<Fill>, after: S) -> bool
    decreases fills.len(),
{
    if fills.len() == 0 {
        before == after
    } else {
        exists|mid: S|
            takes_all(before, fills.drop_last(), mid) && #[trigger] S::takes(
                mid,
                fills.last(),
                after,
            )
    }
}

/// A vector collects the fills in their order.
impl FillSink for Vec<Fill> {
    open spec fn takes(before: Self, fill: Fill, after: Self) -> bool {
        after@ == before@.push(fill)
    }

    fn on_fill(&mut self, fill: Fill) {
        self.push(fill);
    }
}

/// A vector that takes fills ends with them.
pub proof fn lemma_collected(before: Vec<Fill>, fills: Seq<Fill>, after: Vec<Fill>)
    requires
        takes_all(before, fills, after),
    ensures
        after@ == before@ + fills,
    decreases fills.len(),
{
    if fills.len() == 0 {
        assert(after@ =~= before@ + fills);
    } else {
        let mid = choose|mid: Vec<Fill>|
            takes_all(before, fills.drop_last(), mid) && #[trigger] <Vec<Fill> as FillSink>::takes(
                mid,
                fills.last(),
                after,
            );
        lemma_collected(before, fills.drop_last(), mid);
        assert(after@ =~= before@ + fills);
    }
}

/// Pluggable matching policy.
pub trait MatchPolicy {
    /// Whether the level that starts at `level_head` can be walked.
    spec fn walkable(&self, level_head: Option<ArenaIndex>, arena: Arena) -> bool;

    /// Whether an incoming price can trade against a resting price.
    spec fn accepts(&self, incoming_side: Side, incoming_price: u64, resting_price: u64) -> bool;

    /// Walks one resting level and hands its fills to `sink`.
    fn match_order<S: FillSink>(
        &self,
        taker_id: OrderId,
        remaining: &mut u64,
        resting_price: u64,
        level_head: Option<ArenaIndex>,
        arena: &mut Arena,
        sink: &mut S,
    )
        requires
            self.walkable(level_head, *old(arena)),
    ;

    /// Whether an incoming price can trade against a resting price.
    fn is_price_acceptable(
        &self,
        incoming_side: Side,
        incoming_price: u64,
        resting_price: u64,
    ) -> (acceptable: bool)
        ensures
            acceptable == self.accepts(incoming_side, incoming_price, resting_price),
    ;
}

/// Whether an order on `side` at `incoming` may trade at `resting`: a buyer at that
/// price or lower, a seller at that price or higher.
pub open spec fn acceptable(side: Side, incoming: u64, resting: u64) -> bool {
    match side {
        Side::Bid => incoming >= resting,
        Side::Ask => incoming <= resting,
    }
}

/// Whether `chain` lists the slots that are linked from `head` on.
pub open spec fn is_chain(head: Option<ArenaIndex>, chain: Seq<u32>, arena: Map<u32, Order>) -> bool
    decreases chain.len(),
{
    match head {
        None => chain.len() == 0,
        Some(index) => {
            &&& chain.len() > 0
            &&& chain[0] == index.0
            &&& arena.contains_key(index.0)
            &&& is_chain(link_of(arena[index.0].next), chain.drop_first(), arena)
        },
    }
}

/// The fills of a taker that wants `remaining` and walks `chain` in order: each
/// maker gives what it has left, until the taker has enough.
pub open spec fn fifo_fills(
    chain: Seq<u32>,
    arena: Map<u32, Order>,
    taker_id: OrderId,
    price: u64,
    remaining: int,
) -> Seq<Fill>
    decreases chain.len(),
{
    if chain.len() == 0 || remaining == 0 {
        Seq::empty()
    } else {
        let maker = arena[chain[0]];
        let qty = if remaining < maker.unfilled() {
            remaining
        } else {
            maker.unfilled()
        };
        let fill = Fill {
            maker_idx: ArenaIndex(chain[0]),
            maker_id: maker.id,
            taker_id,
            price,
            qty: qty as u64,
        };
        seq![fill] + fifo_fills(chain.drop_first(), arena, taker_id, price, remaining - qty)
    }
}

/// What such a taker still wants at the end.
pub open spec fn fifo_left(chain: Seq<u32>, arena: Map<u32, Order>, remaining: int) -> int
    decreases chain.len(),
{
    if chain.len() == 0 || remaining == 0 {
        remaining
    } else {
        let unfilled = arena[chain[0]].unfilled();
        let qty = if remaining < unfilled {
            remaining
        } else {
            unfilled
        };
        fifo_left(chain.drop_first(), arena, remaining - qty)
    }
}

/// Quantity of fills.
pub open spec fn filled_by(fills: Seq<Fill>) -> int
    decreases fills.len(),
{
    if fills.len() == 0 {
        0
    } else {
        fills[0].qty + filled_by(fills.drop_first())
    }
}

/// A walk fills the makers in the order of the queue, each with no more than it has
/// left, and what it fills is what the taker no longer wants.
pub proof fn law_walk_conserves(
    chain: Seq<u32>,
    arena: Map<u32, Order>,
    taker_id: OrderId,
    price: u64,
    remaining: int,
)
    requires
        0 <= remaining <= u64::MAX,
    ensures
        ({
            let fills = fifo_fills(chain, arena, taker_id, price, remaining);
            let left = fifo_left(chain, arena, remaining);
            &&& 0 <= left <= remaining
            &&& filled_by(fills) + left == remaining
            &&& fills.len() <= chain.len()
            &&& forall|i: int|
                0 <= i < fills.len() ==> {
                    let fill = #[trigger] fills[i];
                    &&& fill.maker_idx.0 == chain[i]
                    &&& fill.maker_id == arena[chain[i]].id
                    &&& fill.qty <= arena[chain[i]].unfilled()
                }
        }),
    decreases chain.len(),
{
    if chain.len() > 0 && remaining > 0 {
        let maker = arena[chain[0]];
        let qty = if remaining < maker.unfilled() {
            remaining
        } else {
            maker.unfilled()
        };
        let rest = chain.drop_first();
        let later = fifo_fills(rest, arena, taker_id, price, remaining - qty);
        let fills = fifo_fills(chain, arena, taker_id, price, remaining);
        law_walk_conserves(rest, arena, taker_id, price, remaining - qty);
        assert(fills.drop_first() =~= later);
        assert forall|i: int| 0 <= i < fills.len() implies {
            let fill = #[trigger] fills[i];
            &&& fill.maker_idx.0 == chain[i]
            &&& fill.maker_id == arena[chain[i]].id
            &&& fill.qty <= arena[chain[i]].unfilled()
        } by {
            if i > 0 {
                assert(fills[i] == later[i - 1]);
                assert(chain[i] == rest[i - 1]);
            }
        }
    }
}

/// A walk passes nobody over: every maker but the last one reached gives all that it has
/// left, and so does the last one where the taker still wants more; then the whole level
/// was walked. Every fill names the taker and the price.
pub proof fn law_walk_passes_nobody_over(
    chain: Seq<u32>,
    arena: Map<u32, Order>,
    taker_id: OrderId,
    price: u64,
    remaining: int,
)
    requires
        0 <= remaining <= u64::MAX,
    ensures
        ({
            let fills = fifo_fills(chain, arena, taker_id, price, remaining);
            let left = fifo_left(chain, arena, remaining);
            &&& left > 0 ==> fills.len() == chain.len()
            &&& remaining > 0 && chain.len() > 0 ==> fills.len() > 0
            &&& forall|i: int|
                0 <= i < fills.len() ==> {
                    let fill = #[trigger] fills[i];
                    let maker = arena[chain[i]];
                    &&& fill.taker_id == taker_id
                    &&& fill.price == price
                    &&& i < fills.len() - 1 || left > 0 ==> fill.qty == if maker.quantity
                        >= maker.filled {
                        maker.quantity - maker.filled
                    } else {
                        0
                    }
                }
        }),
    decreases chain.len(),
{
    if chain.len() > 0 && remaining > 0 {
        let maker = arena[chain[0]];
        let qty = if remaining < maker.unfilled() {
            remaining
        } else {
            maker.unfilled()
        };
        let rest = chain.drop_first();
        let later = fifo_fills(rest, arena, taker_id, price, remaining - qty);
        let fills = fifo_fills(chain, arena, taker_id, price, remaining);
        let left = fifo_left(chain, arena, remaining);
        law_walk_conserves(chain, arena, taker_id, price, remaining);
        law_walk_passes_nobody_over(rest, arena, taker_id, price, remaining - qty);
        assert forall|i: int| 0 <= i < fills.len() implies {
            let fill = #[trigger] fills[i];
            let maker = arena[chain[i]];
            &&& fill.taker_id == taker_id
            &&& fill.price == price
            &&& i < fills.len() - 1 || left > 0 ==> fill.qty == if maker.quantity >= maker.filled {
                maker.quantity - maker.filled
            } else {
                0
            }
        } by {
            if i > 0 {
                assert(fills[i] == later[i - 1]);
                assert(chain[i] == rest[i - 1]);
            }
        }
    }
}

/// A buyer may pay its price or less, and a seller may get its price or more.
pub proof fn law_prices_in_reach(price: u64, resting: u64)
    ensures
        PriceTimeFifo.accepts(Side::Bid, price, resting) <==> resting <= price,
        PriceTimeFifo.accepts(Side::Ask, price, resting) <==> resting >= price,
{
}

/// A head has one chain at most.
proof fn lemma_chain_unique(
    head: Option<ArenaIndex>,
    a: Seq<u32>,
    b: Seq<u32>,
    arena: Map<u32, Order>,
)
    requires
        is_chain(head, a, arena),
        is_chain(head, b, arena),
    ensures
        a == b,
    decreases a.len(),
{
    match head {
        None => {
            assert(a =~= b);
        },
        Some(index) => {
            lemma_chain_unique(
                link_of(arena[index.0].next),
                a.drop_first(),
                b.drop_first(),
                arena,
            );
            assert(a =~= seq![a[0]] + a.drop_first());
            assert(b =~= seq![b[0]] + b.drop_first());
        },
    }
}

/// A sink that takes one more fill after others takes them all.
proof fn lemma_takes_push<S: FillSink>(before: S, fills: Seq<Fill>, mid: S, fill: Fill, after: S)
    requires
        takes_all(before, fills, mid),
        S::takes(mid, fill, after),
    ensures
        takes_all(before, fills.push(fill), after),
{
    assert(fills.push(fill).drop_last() =~= fills);
    assert(takes_all(before, fills.push(fill).drop_last(), mid) && S::takes(
        mid,
        fills.push(fill).last(),
        after,
    ));
}

/// Price-time priority, first in first out.
#[derive(Debug, Clone, Copy)]
pub struct PriceTimeFifo;

impl MatchPolicy for PriceTimeFifo {
    open spec fn walkable(&self, level_head: Option<ArenaIndex>, arena: Arena) -> bool {
        &&& arena.wf()
        &&& exists|chain: Seq<u32>| is_chain(level_head, chain, arena@)
    }

    open spec fn accepts(&self, incoming_side: Side, incoming_price: u64, resting_price: u64) -> bool {
        acceptable(incoming_side, incoming_price, resting_price)
    }

    fn match_order<S: FillSink>(
        &self,
        taker_id: OrderId,
        remaining: &mut u64,
        resting_price: u64,
        level_head: Option<ArenaIndex>,
        arena: &mut Arena,
        sink: &mut S,
    )
        ensures
            *final(arena) == *old(arena),
            forall|chain: Seq<u32>| #[trigger]
                is_chain(level_head, chain, old(arena)@) ==> {
                    &&& *final(remaining) == fifo_left(chain, old(arena)@, *old(remaining) as int)
                    &&& takes_all(
                        *old(sink),
                        fifo_fills(
                            chain,
                            old(arena)@,
                            taker_id,
                            resting_price,
                            *old(remaining) as int,
                        ),
                        *final(sink),
                    )
                },
    {
        let ghost chain = choose|chain: Seq<u32>| is_chain(level_head, chain, old(arena)@);
        let ghost orders = arena@;
        let ghost all = fifo_fills(chain, orders, taker_id, resting_price, *remaining as int);
        let ghost mut ahead = chain;
        let ghost mut done = Seq::<Fill>::empty();
        let mut cursor: Option<ArenaIndex> = level_head;
        while cursor.is_some() && *remaining > 0
            invariant
                *arena == *old(arena),
                arena.wf(),
                orders == arena@,
                is_chain(cursor, ahead, orders),
                all == done + fifo_fills(
                    ahead,
                    orders,
                    taker_id,
                    resting_price,
                    *remaining as int,
                ),
                fifo_left(ahead, orders, *remaining as int) == fifo_left(
                    chain,
                    orders,
                    *old(remaining) as int,
                ),
                takes_all(*old(sink), done, *sink),
            decreases ahead.len(),
        {
            let maker_idx: ArenaIndex = cursor.unwrap();
            let maker = arena.get(maker_idx);
            let left: u64 = maker.remaining();
            let fill_qty: u64 = if *remaining < left {
                *remaining
            } else {
                left
            };
            let maker_id: OrderId = maker.id;
            cursor = maker.next.link();
            let fill = Fill { maker_idx, maker_id, taker_id, price: resting_price, qty: fill_qty };
            let ghost before = *sink;
            sink.on_fill(fill);
            proof {
                lemma_takes_push(*old(sink), done, before, fill, *sink);
                let rest = fifo_fills(
                    ahead.drop_first(),
                    orders,
                    taker_id,
                    resting_price,
                    *remaining - fill_qty,
                );
                assert(done + (seq![fill] + rest) =~= done.push(fill) + rest);
                done = done.push(fill);
                ahead = ahead.drop_first();
            }
            *remaining = *remaining - fill_qty;
        }
        proof {
            assert(all =~= done);
            assert forall|other: Seq<u32>| #[trigger] is_chain(level_head, other, orders) implies other
                == chain by {
                lemma_chain_unique(level_head, other, chain, orders);
            }
        }
    }

    #[inline]
    fn is_price_acceptable(
        &self,
        incoming_side: Side,
        incoming_price: u64,
        resting_price: u64,
    ) -> (acceptable: bool) {
        match incoming_side {
            Side::Bid => incoming_price >= resting_price,
            Side::Ask => incoming_price <= resting_price,
        }
    }
}

} // verus!
