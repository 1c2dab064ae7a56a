# market_sim

An agent-based market simulation around a price-time priority order book,
written in Verus. The library in `src/` is verified: every function states what
it returns or changes, and the modules whose names end in `_laws` prove what
holds of the library as a whole.

| Part | Modules |
| --- | --- |
| Order book | `order`, `fills`, `ladder`, `ticket_book`, `orderbook`, with `book_model`, `book_lemmas`, `book_laws`, `count_laws`, `ticket_model`, `ticket_lemmas` |
| Exchange | `records`, `event`, `exchange`, with `exchange_model`, `exchange_lemmas`, `exchange_laws` |
| Flow metrics of one agent | `flow`, with `flow_model`, `flow_lemmas`, `flow_laws` |
| Simulation | `queue`, `inbox`, `merge`, `latency`, `agent`, `config`, `kernel`, with `kernel_model`, `kernel_lemmas`, `kernel_laws`, `decisive_laws` |
| Agents | `samplers`, `utils`, `zi_agent`, `trend_following_agent`, `market_maker_agent`, `rng` |
| Output | `output`, `candles`, `calendar` |
| Helpers | `fasthash`, `slot`, `types`, `wide` |

`app/` holds the programs: configuration files, floating-point distributions
and Parquet output. It is ordinary Rust and is not verified.

Prices are integers in ticks, quantities integers in lots and times nanoseconds.
Where a quantity, a notional or a time would not fit its type, a run ends with
an error; the functions whose names begin with `try_` say the same of a single
step.
