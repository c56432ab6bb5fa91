# ai_tracker

A multi-target aircraft tracker (IMM motion models, JPDA data association,
M/N track confirmation) whose discrete bookkeeping and decision logic is
verified with Verus.

- `src/` — the verified library:
  - `motion_model` — the motion models, their indices and the shape of the
    default model transition matrix;
  - `track_status` — a track's age, missed detections, M/N counters and
    confirmation, with the laws of a track's life cycle;
  - `history` — bounded histories that keep the most recent entries;
  - `track_table` — live tracks under fresh, never reused identifiers;
  - `track_update` — what one tracker update does to the table: counters
    updated, deletable tracks removed, new tracks added;
  - `initiation` — which measurements start tracks;
  - `conflict` — measurements claimed by several tracks and the order in
    which such conflicts are resolved;
  - `gating` — the age-dependent size of a track's JPDA validation gate;
  - `playback` — step limit of the interactive simulation.
- `app/` — the program: Kalman filters, IMM, JPDA, simulation and the egui
  visualization, all floating-point code, calling the library for its
  decisions.
- `tests/` — tests of the library.
