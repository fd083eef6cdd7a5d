# anyver

Cross-ecosystem parsing and comparison of software version strings (SemVer,
PEP 440, Debian, RPM, Maven, Ruby, Go, NuGet, Composer, CalVer, Alpine,
Docker and a generic reading), verified with Verus.

Layout:

- `src/` — the verified library.
  - `text.rs`, `order.rs` — byte classes, searching and cutting strings,
    decimal numbers, and three-way comparisons.
  - `parser.rs` — the generic tokenizer, tag weights, ecosystem names and
    auto-detection.
  - `strategies/` — one module per comparison scheme (generic, SemVer,
    PEP 440, dpkg `verrevcmp`, `rpmvercmp`, the digit-start checks) and the
    dispatch from ecosystem to strategy.
  - `api.rs` — comparing strings, constraints (`>=1.0,<2.0`, `^1.2`,
    `~1.2`, `1.x`, `||`) and version bumps.
  - `version.rs` — version objects: construction, comparison, sort and hash
    keys, accessors.
  - `lists.rs` — sorting, largest/smallest, stable filtering and bulk
    comparison.
  - `laws.rs` — antisymmetry, reflexivity and transitivity of the orders,
    and other properties of the library as a whole: versions equal by a
    generic reading share hash keys; sort keys order as the generic
    comparison does for versions whose first words stand at one position
    (or that have none), and no key can do so on every pair, since that
    comparison is not transitive.
  - `lib.rs` — a small facade: pick an ecosystem, parse, compare.
- `app/` — the Python extension module (PyO3) around the library.
- `tests/` — behaviour tests.
