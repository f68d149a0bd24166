# Island Time

A fictional island-ferry planner. Six islands are joined by eight directed
ferry services that leave at a first minute and then at a fixed interval.
The planner finds the earliest arrival from an island at a start minute, or
the latest start that still meets a deadline, under avoided islands, closed
hops, a transfer buffer between legs, a leg budget and an optional waypoint.

The library in `src/` is written in Verus. Its contracts state, over a
mathematical description of journeys (`src/journey.rs`), that the planner
answers `None` exactly when no journey exists and otherwise returns the
journey with the earliest arrival, the fewest legs among equally early ones,
and the first in a fixed tie order among those (so the answer is unique);
that the deadline search returns the latest feasible start with the planner's
answer from it; and that the parsers and renderers produce exactly the
specified values and text. `src/laws.rs` proves how answers to related
requests compare (looser requests never arrive later, the leg budget only
cuts by leg count, a waypoint at an endpoint changes nothing, and so on).

The SVG map is built and specified in `src/render.rs` (`svg_map`); the
arrow end points, which need floating point, are computed in `app/`.

`app/main.rs` is the command line: argument handling, printing, the arrow
end points of the map, and writing files.

Tests are in `tests/`.
