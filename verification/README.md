# matchx

A price-time-priority matching engine with a write-ahead journal, verified with
Verus.

- `src/` is the library. Every function in it is verified against its contract.
- `tests/` runs the library on concrete values.
- `app/` puts files, threads and memory mappings around the library. It is ordinary
  Rust and is not verified.

## The library

| Modules | What they hold |
|---|---|
| `types` | orders, price levels, commands, events |
| `arena` | order slots with free-list reuse |
| `fenwick`, `sorted`, `sums`, `sparse_index`, `sparse_levels`, `occupancy`, `levels` | one side of a book: a dense tick window and an ordered map for the other prices, with depth sums and the next best price |
| `order_index` | lookup by identifier, a `hashbrown` map |
| `book_model`, `book` | the order book, as a mathematical object and in code |
| `policy` | price-time matching of one level |
| `engine_model`, `engine` | the matching engine, as a mathematical object and in code: order types, self-trade prevention, cascading stops |
| `bytes`, `codec`, `record` | the binary form of commands and journal records, with a CRC32 |
| `segments`, `writer`, `journal`, `streaming` | segment names, where records go, reading and recovery |
| `async_journal`, `pipeline` | the decisions of the background writer, and engine and journal together |
| `metrics` | latency percentiles |

The contracts of `book` and `engine` say that the code does exactly what `book_model`
and `engine_model` say. The `laws_*` modules state what holds of those models: no order
is passed over, orders of one self-trade-prevention group never trade, quantities are
conserved, no stop that is due keeps waiting, stops at one price trigger first in first
out and each once, only accepted orders are cancelled, to modify an order is to cancel it
and send a new one, what is written to a journal is read back, and a replay gives the
same events. Every level that a command changes is published with its new total. An
iceberg order whose slice is used up shows the next one at the end of its queue; it is
passed over only in that sense. What is said of priority and best prices holds as long as
no side has orders in the dense tick window and also bids above it, or asks below it: the
search for the next best price looks into the window first and can pass such an order
over. As long as that holds, best prices never cross either.

## What is trusted

The proofs rest on the contracts of a few functions that they do not look into: those
of `OrderIndex` on top of `hashbrown::HashMap`, `crc32fast::hash`, and
`slice::sort_unstable`. Each stands in one small function whose doc comment says what is
claimed of it.
