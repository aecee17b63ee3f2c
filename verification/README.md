# bottleneck_find

Bottleneck analysis of distributed traces exported by Jaeger: service calls,
span trees, critical paths, a service dependency graph, and a ranking of the
services that slow the traces down, with a live monitor that watches a stream
of traces for shifts of the main bottleneck.

- `src/` is the library, written and proved with Verus. Each public function
  states what it returns in its `ensures`; the properties that relate several
  functions are proof functions whose names begin with `law_`.
- `app/` is the command line program around it: reading and writing files,
  JSON, the figures with decimals (the library lays out the text report
  around them) and the alerts drawn from them, the live
  monitor's event loop and its webhook. What the loop does on each event is
  decided by the library (`stream::monitor_step`).
- `tests/` runs the library on concrete traces.

Scores and averages are kept as the integers they are made of (a score share
is a fraction, an average a total and a count); a ranking score is an integer
whose order is that of the scores.
