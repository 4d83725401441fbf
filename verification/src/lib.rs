//! Verified core of a stochastic public transport journey planner: the
//! timetable model (stations, connections, footpaths), the topological
//! preprocessing of the connection graph, station contraction, walking
//! connection materialisation and the integer bookkeeping of the delay
//! distribution store. Everything that computes with probabilities lives
//! outside this crate, since it works on floating point values.
pub mod types;
pub mod connection;
pub mod sorting;
pub mod cut;
pub mod timetable;
pub mod topocsa;
pub mod csameat;
pub mod gtfs;
pub mod walking;
pub mod relevant_timetable;
pub mod wire;
pub mod distribution_store;
pub mod csa;
pub mod connection_pairs;
pub mod simulation;
