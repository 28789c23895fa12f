# pathfinder

Finds swap cycles through Uniswap V2 and V3 style pools and prices them.

- `src/` is the verified library.
  - `types.rs`: addresses and 256-bit words as plain arrays, their numeric
    meaning, and the calls into `ethers` that read and compute on them.
  - `univ2pool.rs`, `univ3pool.rs`, `pool.rs`: the pools, the constant-product
    price of a V2 pair, the pricing calls of the on-chain helpers, and the
    bookkeeping that stores fresh reserves.
  - `maps.rs`: the `ahash` maps that index the graph, seen through what they hold.
  - `poolgraph/`: the indexed token graph, the search for every short route
    between two tokens, and swapping along the routes found.
  - `edgegraph.rs`: the simpler token-keyed graph with its depth-first search.
  - `calculator.rs`: which pricing call answers a quote.
- `app/` is the bot around it: contract bindings, file and chain I/O, the
  update loop, and a benchmark of the two graphs (`bench` argument).
- `tests/` runs the library on concrete pools.
