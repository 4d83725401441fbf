# stost

A stochastic public transport journey planner. The verified library (`src/`)
holds the timetable model and everything about it that is integer logic:

- `connection`, `timetable`: stations, connections, stop times and the
  consistency of a timetable;
- `topocsa`, `csameat`: the preprocessing that orders connections for a scan
  (a depth first search that breaks cycles, or a sort by departure);
- `gtfs`: reading a loaded GTFS feed into the model, station contraction,
  realtime updates, journey legs;
- `walking`, `relevant_timetable`, `connection_pairs`: footpaths, walking
  connections and the reduced timetable of the relevant connections;
- `wire`: the exchange records and how the model is read from and written to
  them;
- `distribution_store`: the buckets by which delay distributions are keyed;
- `simulation`: the decisions of a simulated traveller (where they stand,
  which alternative they take, how they leave a cancelled trip).

`app/` is the HTTP service around it: protobuf parsing, the floating point
delay distributions, the probabilistic scan and the geodesy of walking.
