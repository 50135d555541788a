//! Collections of futures that are polled as a stream.

pub mod vec_futures_unordered;
