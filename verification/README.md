# gstore

An RDF triple store, written in Verus: every function of the library states what it
does, and the proof goes with the code.

## Layout

`src/` is the library.

| module | what it holds |
|---|---|
| `model`, `dict` | terms, triples and ids; the dictionary between strings and ids, its plain form, and front-coded blocks |
| `store`, `order` | the triple indexes in memory, and ascending lists |
| `db` | the database: graphs, transactions, updates, logs and what they give back, result cache, user-defined rules and functions, schema, building and opening |
| `concurrent` | one writer and immutable snapshots |
| `kvstore` | pages, the log that makes commits whole, free pages, overflow chains, B+ trees whose nodes are split and joined, arrays, string indexes, and the store on top of them |
| `backend` | counters and reads of a store in a key-value database |
| `cluster`, `scatter` | shards by subject, and one answer from many replies |
| `analytics` | paths, components, triangles, cores, communities |
| `http_api`, `http_replies`, `http_users`, `http_client`, `json` | decisions and texts of the HTTP endpoint and of its client |
| `cli` | decisions of the command line programs |

Contracts speak of mathematical values: sets of triples, maps of strings to ids,
sequences of pages. What holds across functions stands in proof functions whose names
begin with `law_`.

`app/` is the host: files, sockets, clocks, and scores in floating point. It performs
what the library asks for. Parsers and the query evaluator come in through the `Engine`
trait. `app/rocks.rs` needs the feature `rocksdb`.

`tests/` runs the library on concrete values.
