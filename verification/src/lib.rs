//! A verified activity-on-arrow project network with critical-path
//! scheduling: a graph of activities with bidirectional adjacency, a forward
//! pass computing earliest start/finish, a backward pass computing latest
//! start/finish together with total and free float, and the laws the schedule
//! obeys.

pub mod builder;
pub mod edge;
pub mod graph;
pub mod laws;
pub mod model;
