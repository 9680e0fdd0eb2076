# music_brain

A local music recommender. The verified library (`src/`) holds its decision
logic; `app/` is the command-line program around it (audio decoding, the
SQLite store, the player's remote control, floating-point feature math).

- `src/random.rs`: the linear congruential generator behind the queue noise,
  with the proof that it has full period 2^64.
- `src/ranking.rs`: stable ranking of candidates by an integer key, the
  selection of the best few, and the key of a binary64 distance.
- `src/scoring.rs`: genre penalty, listening-history bonus and rating
  adjustment of a candidate's score, with their laws.
- `src/text.rs`: Unicode whitespace, trimming, lowercasing, and counting the
  non-blank lines of the player's queue listing.
- `src/features.rs`: track selection, spectral windows, zero crossings.
- `src/catalog.rs`: supported file types, feedback ratings, queue sizes.

`app/main.rs` offers the four commands `index`, `interact`, `recommend` and
`update-queue`. Installed (or linked) under the name `interact`, `recommend`
or `update_queue`, the program takes that tool's arguments directly, so the
player key bindings `interact --action like --filepath "{file}"` and the hook
`update_queue <file>` work unchanged.
