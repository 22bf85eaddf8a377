# ow_rs

The rules of Orbit Wars, a game of planets, fleets and comets, verified with
Verus.

The library in `src/` decides everything that is not floating-point arithmetic:
how a tick runs, who survives a battle, who wins, how maps and comets are drawn
from a seed, how garrisons are projected, which launches the built-in planner
makes, what players observe, and how recorded games are read. Coordinates and
angles pass through it as the bit patterns of doubles, which it carries, compares
and cuts down to whole numbers, but does not add up.

`app/` is ordinary Rust around it: the geometry, the orbits and the intercept
solver, and the Python bindings for single and vectorized environments.

| module | role |
|---|---|
| `double` | doubles by their bit patterns, points, the board |
| `state` | planets, fleets, comets, the state of the game |
| `pyrandom` | CPython's generator, with its seeding by numbers and texts |
| `mapgen`, `comets` | maps and comets, drawn from a seed |
| `engine`, `motion`, `combat`, `tick`, `game` | one tick of the game |
| `forecast`, `flow`, `garrison` | the projection of garrisons, and what a launch is worth |
| `ranking`, `planner`, `regroup`, `turn`, `survey`, `agents` | the built-in agents |
| `features`, `env`, `vecenv` | what players see, environments |
| `document`, `observation`, `replay` | documents in JSON, observations, recorded games |

The tests in `tests/` play whole games with the floats supplied by the test, next
to tests of each module on small games.
