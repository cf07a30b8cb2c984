//! Swap-routing graph engine: tradeable assets as nodes, trading pairs as
//! symmetric edges, and a shortest-path search that keeps every tied route.
use vstd::prelude::*;

pub mod asset;
pub mod entities;
pub mod state;
pub mod scores;
pub mod algo;
pub mod msg;
pub mod utils;
