# traffic_simulator

A tick-based road traffic simulator. Vehicles enter a network of nodes and
one-way roads at scheduled ticks, take the cheapest route to their
destination, queue at nodes, drive in lanes, obey signal plans at traffic
lights, and are got around jams once they have waited too long.

The library under `src/` is written in Verus and every function carries a
contract that Verus proves:

- `model`: nodes, roads, signal plans, vehicles and the network that holds
  them; `idmap` is the ordered map from identifiers that they live in.
- `routing`: Dijkstra's search over a network, proved to return a cheapest
  route, the one its frontier order keeps among equally cheap ones, and to
  fail only where no route is cheap enough.
- `simulation`: the simulation state and its tick (`step`), split into
  spawning, time counting, signals, movement along lanes, node queues and
  route search during the run; `scenario` builds the demonstration network.
- `engine`: the value types of the scenario engine (identifiers, states,
  fixed-timing signals, lanes, metrics, events), the checks that a
  scenario must pass before it runs, and what becomes of a pending spawn
  once its route is known.
- `clock`: a fixed-step clock that turns elapsed time into whole steps.
- `playback`: play, pause, step and reset of a run shown in a front end.
- `console`, `text`: the lines that the console runner prints.

`app/` holds what Verus does not see: the console runner, a real-time
clock, JSON and TOML files, and the scenario engine whose positions, speeds
and progress are floating point.
