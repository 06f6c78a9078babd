//! Day Tradr's data layer as a verified library: ticker handling, proxy routing, the
//! persisted watchlist, chart-response processing, dates and the deterministic mock series.
use vstd::prelude::*;

pub mod text;
pub mod symbols;
pub mod proxy;
pub mod dates;
pub mod mock;
pub mod chart;
pub mod watchlist;
pub mod fetching;

verus! {

} // verus!
