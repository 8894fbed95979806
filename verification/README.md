# Argus Polymarket DB

An event database for prediction-market tickers. Events are crawled from Gamma,
kept in an append-only log of JSON lines, indexed by ticker in memory, and served
over a Unix domain socket, one JSON request per line. Instances on one tailnet
can take over each other's database instead of crawling.

`src/` is a verified library: its functions carry contracts that Verus proves. What the
calls into `serde_json`, `serde`, `flate2` and `std::str::from_utf8` do is believed, not
proved: each stands in a small function marked `#[verifier::external_body]`, whose comment
says what is claimed of it.

| Module          | What it holds                                                        |
| --------------- | -------------------------------------------------------------------- |
| `text`          | comparing, trimming, splitting, reading and writing text             |
| `lists`         | walking through lists by value, and filtering sequences              |
| `json`          | JSON documents as plain data, and the bridge to `serde_json`         |
| `dates`         | reading dates                                                        |
| `index`         | the ticker-sorted index: sorting, lookup, pagination, prefix search  |
| `database`      | the log, its snapshots, and the laws of both                         |
| `envelope`      | the frame of a request, and what is wrong with it                    |
| `api`           | the request protocol                                                 |
| `server`        | the framing of the local socket                                      |
| `poly_api`      | the crawl of Gamma's event listing                                   |
| `records`       | logs as sequences of records                                         |
| `compaction`    | the compacted log                                                    |
| `refresh`       | merging a crawl with what was there before                           |
| `proxy`         | the pool of proxies                                                  |
| `tailnet_fns`   | the peers on the tailnet                                             |
| `mesh_sync`     | choosing a peer, and reading its answers                             |
| `p2p_db_server` | answering peers, and the course of sending a database                |
| `transfer`      | the compressed log that travels                                      |
| `boot`          | settings, and what to do about the database on disk                  |
| `version`       | the version                                                          |

`app/` is the service around it: settings, files, sockets, threads and the clock.
`tests/` runs the library.
