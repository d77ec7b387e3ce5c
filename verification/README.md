# reth2030

A small Ethereum execution-client scaffold whose core is written in Verus and
proved against its specifications.

## Layout

- `src/` — the verified library:
  - `types` — transactions, receipts, headers, blocks and their structural checks;
  - `keys` — the integer keys under which addresses, storage slots and peer ids are stored;
  - `state` — the account state store, its abstract model and transfer laws;
  - `digest`, `execution` — the gas-metered scaffold execution engine and receipt hashes;
  - `peer`, `sync` — peer sessions and the header/body sync pass;
  - `config`, `rpc` — node defaults and the JSON-RPC / Engine API method rules;
  - `vectors`, `reports`, `baseline` — the conformance fixture harness: field parsing,
    fixture runs, ordered reports and the baseline comparison;
  - `text` — string helpers.
- `tests/` — scenario tests run against the compiled library.
- `app/` — the command-line programs, the HTTP server and the JSON boundary
  (serde, clap, axum, tokio), calling into the library.

## Running

The node scaffold takes `--chain`, `--datadir`, `--maxpeers` and
`--run-mock-sync`; `vectors` as the first argument runs the fixture harness
(`--fixtures-dir`, `--out-dir`, `--baseline-scorecard`, `--baseline-snapshot`,
`--update-baseline`).
