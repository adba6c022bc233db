# ti4_engine

A rules engine for Twilight Imperium 4, written in Verus: the rules are executable Rust whose
behaviour is stated in `requires` / `ensures` contracts and proved.

## Layout

- `src/` — the verified library. Each module takes one part of the rules:
  - `state` — the table: seats, the board, the decks.
  - `choice` — choices put to players and the checking of their answers.
  - `rng`, `dice` — the seeded random source, one independent stream per purpose, and dice.
  - `timing`, `emission` — timing abilities, and an event's way through its WHEN window, its
    resolution and its AFTER window.
  - `tokens`, `transit`, `tactical`, `transactions`, `synergy`, `technology`, `tech_windows`,
    `strategy`, `strategy_cards`, `research`, `sucaban`, `secrets`, `status`, `thunders_edge`, `seating`,
    `setup`, `supply`, `space_stations`, `rules`, `text` — the rules themselves.
- `tests/` — tests of the library, run against the compiled crate.
- `app/` — ordinary Rust around the library: the wire format, error types, deal pricing (floating point), and the loop that drives an emission.

Where a rule needs a decision or an outside effect, the library does not call out: it hands
the driver a choice, an action, or a value to supply, and goes on from the answer.
