//! Laws of whole runs: what holds of an engine that takes in one command after the other.
use crate::engine::MatchingEngine;
use crate::engine_model::{law_start_is_empty, Engine};
use crate::laws_best::{
    kept, law_start_is_steady, law_steady_stays_steady, orderly_command, steady, uncrossed,
};
use crate::laws_bounds::may_stay;
use crate::laws_ledger::{law_every_ledger_balances, ledger_of, resting_of, sets_aside};
use crate::laws_orders::lemma_process;
use crate::types::{Command, InstrumentConfig, Side, StpMode};
use vstd::prelude::*;

verus! {

/// Whether `engines` are one engine over time: as `MatchingEngine::new` makes it, and
/// then after each of `commands`.
pub open spec fn run_of(
    engines: Seq<MatchingEngine>,
    config: InstrumentConfig,
    capacity: u32,
    commands: Seq<Command>,
) -> bool {
    &&& engines.len() == commands.len() + 1
    &&& engines[0]@ == Engine::start(
        config.base_price,
        config.max_ticks,
        capacity as nat,
        config.stp_mode,
    )
    &&& forall|k: int|
        0 <= k < commands.len() ==> engines[k + 1]@ == engines[k]@.process(#[trigger] commands[k])
}

/// Two engines of one configuration and capacity that are fed the same commands answer
/// each with the same events, numbers included, and agree in best prices, in sequence
/// and in everything else after each.
pub proof fn law_same_commands_same_answers(
    a: Seq<MatchingEngine>,
    b: Seq<MatchingEngine>,
    config: InstrumentConfig,
    capacity: u32,
    commands: Seq<Command>,
    k: int,
)
    requires
        run_of(a, config, capacity, commands),
        run_of(b, config, capacity, commands),
        0 <= k <= commands.len(),
    ensures
        a[k]@.events == b[k]@.events,
        a[k]@.book.best_bid == b[k]@.book.best_bid,
        a[k]@.book.best_ask == b[k]@.book.best_ask,
        a[k]@.sequence == b[k]@.sequence,
        a[k]@ == b[k]@,
    decreases k,
{
    if k > 0 {
        law_same_commands_same_answers(a, b, config, capacity, commands, k - 1);
        assert(a[k]@ == a[k - 1]@.process(commands[k - 1]));
        assert(b[k]@ == b[k - 1]@.process(commands[k - 1]));
    }
}

/// Whether a command brings an order to rest, if at all, where the orders of its side
/// are to rest: in sight of the window where they are to stay near it, and outside of it
/// where they are not.
pub open spec fn tame(
    config: InstrumentConfig,
    near: spec_fn(Side) -> bool,
    command: Command,
) -> bool {
    match command {
        Command::NewOrder { side, price, order_type, time_in_force, .. } => may_stay(
            order_type,
            time_in_force,
        ) ==> kept(config.base_price, config.max_ticks, side, near(side), price),
        Command::CancelOrder { .. } => true,
        Command::ModifyOrder { new_price, .. } => forall|side: Side|
            kept(config.base_price, config.max_ticks, side, #[trigger] near(side), new_price),
    }
}

/// The best prices of an engine never cross nor meet, from its start on, whatever orders,
/// cancellations and modifications it takes in, with self-trade prevention and stops, as
/// long as each side keeps in sight of the dense window, or outside of it.
pub proof fn law_best_prices_of_a_run_never_cross(
    engines: Seq<MatchingEngine>,
    config: InstrumentConfig,
    capacity: u32,
    commands: Seq<Command>,
    near: spec_fn(Side) -> bool,
    k: int,
)
    requires
        run_of(engines, config, capacity, commands),
        forall|i: int| 0 <= i < commands.len() ==> tame(config, near, #[trigger] commands[i]),
        0 <= k <= commands.len(),
    ensures
        uncrossed(engines[k]@.book),
        steady(engines[k]@, near),
        engines[k]@.book.base == config.base_price,
        engines[k]@.book.ticks == config.max_ticks,
    decreases k,
{
    if k == 0 {
        law_start_is_steady(
            config.base_price,
            config.max_ticks,
            capacity as nat,
            config.stp_mode,
            near,
        );
    } else {
        let before = engines[k - 1]@;
        let command = commands[k - 1];
        law_best_prices_of_a_run_never_cross(engines, config, capacity, commands, near, k - 1);
        assert(tame(config, near, command));
        assert(orderly_command(before, near, command)) by {
            match command {
                Command::ModifyOrder { id, new_price, .. } => {
                    if before.book.orders.contains_key(id.0) {
                        let side = before.book.orders[id.0].side;
                        assert(kept(
                            config.base_price,
                            config.max_ticks,
                            side,
                            near(side),
                            new_price,
                        ));
                    }
                },
                _ => {},
            }
        }
        law_steady_stays_steady(before, near, command);
        lemma_process(before, command);
        assert(engines[k]@ == before.process(command));
    }
}

/// Orders whose prices lie in the dense window never make the best prices cross or meet:
/// a new engine that takes in such orders, of any type, side and time in force, has its
/// best bid below its best ask after each.
pub proof fn law_orders_in_the_window_never_cross(
    engines: Seq<MatchingEngine>,
    config: InstrumentConfig,
    capacity: u32,
    commands: Seq<Command>,
    k: int,
)
    requires
        run_of(engines, config, capacity, commands),
        forall|i: int|
            0 <= i < commands.len() ==> (
            #[trigger] commands[i] matches Command::NewOrder { price, .. } && config.base_price
                <= price < config.base_price + config.max_ticks),
        0 <= k <= commands.len(),
    ensures
        engines[k]@.book.best_bid matches Some(bid) ==> (
        engines[k]@.book.best_ask matches Some(ask) ==> bid < ask),
{
    let near = |side: Side| true;
    law_best_prices_of_a_run_never_cross(engines, config, capacity, commands, near, k);
}

/// The sum of the entries for order `id` over the first `k` commands of a run.
pub open spec fn run_ledger(engines: Seq<MatchingEngine>, id: u64, k: int) -> int
    decreases k,
{
    if k <= 0 {
        0
    } else {
        run_ledger(engines, id, k - 1) + ledger_of(engines[k]@.events, id)
    }
}

/// Over the life of an order, what was accepted of it is what was traded of it, what was
/// cancelled of it and what still rests of it, whatever commands the engine takes in. Said
/// where there is a slot for every order that may come to rest, in modes that take no
/// quantity away without a trade, and of orders that are not replaced.
pub proof fn law_ledger_of_a_run_balances(
    engines: Seq<MatchingEngine>,
    config: InstrumentConfig,
    capacity: u32,
    commands: Seq<Command>,
    id: u64,
    k: int,
)
    requires
        run_of(engines, config, capacity, commands),
        config.stp_mode != StpMode::DecrementAndCancel,
        0 <= k <= commands.len(),
        forall|j: int|
            0 <= j < k ==> !sets_aside((#[trigger] engines[j])@, commands[j], id)
                && engines[j]@.free > engines[j]@.stop_bids.len() + engines[j]@.stop_asks.len(),
    ensures
        resting_of(engines[k]@, id) == run_ledger(engines, id, k),
        engines[k]@.book.wf(),
        engines[k]@.stp_mode == config.stp_mode,
    decreases k,
{
    if k == 0 {
        law_start_is_empty(
            config.base_price,
            config.max_ticks,
            capacity as nat,
            config.stp_mode,
        );
    } else {
        let before = engines[k - 1]@;
        law_ledger_of_a_run_balances(engines, config, capacity, commands, id, k - 1);
        assert(!sets_aside(engines[k - 1]@, commands[k - 1], id));
        law_every_ledger_balances(before, commands[k - 1], id);
        lemma_process(before, commands[k - 1]);
        assert(engines[k]@ == before.process(commands[k - 1]));
    }
}

} // verus!
