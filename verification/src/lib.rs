//! A verified weather-observation engine: an associative range-query tree, a
//! fixed-width binary wire codec with quantized fixed-point temperatures, a
//! trailing-window aggregator, a multi-tier running aggregator, and a
//! broadcast fan-out hub with per-subscriber key filtering.

pub mod aggregator;
pub mod codec;
pub mod hub;
pub mod segtree;
pub mod window;
