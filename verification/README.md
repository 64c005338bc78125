# katmos

Zoned equalization of gas between the turfs of a tile map, verified with Verus.

Turfs that share their air form zones. For each zone in which gas has to move,
the solver books on paper what is to leave every turf in every direction, so
that all turfs come as near to the average as the gas allows; then the gas is
moved as the books say. A zone that is open to space loses its air instead.

- `src/grid.rs`: turfs, directions, neighbours
- `src/amount.rs`, `src/quanta.rs`: what is asked of numbers; whole quanta
- `src/tables.rs`: the tables in use, over `indexmap`, `fxhash` and `ahash`
- `src/info.rs`: the books of a turf
- `src/flood.rs`, `src/seeds.rs`: finding zones
- `src/fast.rs`, `src/settle.rs`, `src/planet.rs`, `src/zone.rs`: the books of a zone
- `src/finalize.rs`: moving the gas, step by step
- `src/depressurize.rs`: zones that are open to space
- `src/balance.rs`, `src/laws/`: what holds of all of this
- `app/`: runs the solver on a game, with moles in floating point
