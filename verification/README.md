# prism

A columnar store for telemetry: spans arrive over OTLP, are held in memory by
partition, and are written as sorted parquet files that SQL reads back. Files of
a partition that is no longer written to are merged into fewer, larger ones.

`src/` is the library. Every function in it is verified by Verus against the
contract in its header, and the laws that span functions stand beside them as
public proof functions. What it has from other crates stands behind small
functions marked `external_body`, whose contracts are trusted; the doc comment
of each names the function it calls.

| module | what it decides |
| --- | --- |
| `text`, `civil`, `order` | text, the calendar, the order of keys |
| `types`, `arrays`, `record` | field types, Arrow columns, records as tables |
| `spans`, `otlp`, `receiver` | spans, and how a request becomes them |
| `buffer`, `writer`, `objects` | which rows wait, when they are written, and as what |
| `paths`, `ids`, `merged`, `compact` | what files are named, and which are merged |
| `table`, `catalog`, `api` | which partitions a query can skip, tables, replies |
| `seed` | traces to try the store with |

`app/` is the program around it: sockets, the object store, the query engine.
The engine is datafusion, called from `app/catalog.rs` and `app/compactor.rs`
alone. It is by far the largest crate the program uses, and neither the library nor
its tests need it, so Cargo.toml leaves it out; building the program takes one
line more under `[dependencies]`, `datafusion = "55"`.
`tests/` run the library against the crates it calls.
