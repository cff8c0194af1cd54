//! The data a run is described by, the settings of a computation and the
//! collection of traces that a computation grows.

pub mod data;
pub mod io;
pub mod options;
