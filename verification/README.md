# hawk_graph

The verified core of `cargo hawk`, a workspace-aware lint for unnecessary Rust visibility.
Given the reference graphs that an instrumented compiler emits for the production targets
and the non-production targets (tests, benches, examples, doctests) of a Cargo workspace, the
library decides which `pub` and restricted-visibility declarations are dead, needed only within
their crate, needed only by non-production code, or visible more widely than their uses
require. Around that analysis it holds the rest of the tool's rules: the configuration and its
overrides and exclusions, lint levels, which packages production builds use, the Cargo
invocations a run makes, the fix plans it applies, the terminal diagnostics, and the records
of the JSON report (which the command only serializes).

The library's own functions in `src/` are verified with Verus against contracts over
mathematical models of their inputs. The calls into outside crates (`cargo-platform` selector
parsing and matching, `rustc-hash` tables, `std` path, sort and hash-set operations) stand
behind a small set of trusted wrappers, marked `#[verifier::external_body]`. Their contracts
are believed, not proved: each states what the outside code documents where a few lines can
say it, and otherwise only names the result as a function of the arguments (for instance
whether a target selector selects a target, or what `Path::join` gives).

## Layout

- `src/`: the library. `analysis` is the entry point of the reachability analysis, built on
  `frames`, `nodes`, `equivalence`, `adjacency`, `reach`, `fixpoint`, `live`, `publicity`,
  `restricted`, `identities` and `findings`. `settings` and `suppression` hold the
  configuration and how it applies to findings; `lints` and `session` the lint levels and the
  decisions of a run; `workspace`, `catalog` and `collection` what Cargo reports and what a run
  makes of it; `invocation`, `locations`, `report`, `records` and `render` the Cargo commands,
  target directories and crate-root paths, report records and terminal diagnostics.
- `tests/`: tests of the library's behavior on concrete inputs.
- `app/`: the `cargo hawk` command: argument parsing, Cargo and compiler I/O, terminal styles,
  and the serialization of the library's report records.
