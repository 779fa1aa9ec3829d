//! Exponential histograms with automatic rescaling.
//!
//! Buckets grow exponentially: at scale `s`, bucket `i` covers the values in
//! `(2^(i/2^s), 2^((i+1)/2^s)]`. Histograms live in a fixed pool of 64-bit words, widen their
//! counters as they fill, and lower their scale when the buckets no longer fit.
//!
//! Floating-point values are handled as their bit patterns; sums of values are computed by the
//! caller.

pub mod aggregator;
pub mod aggregator_laws;
pub mod arith;
pub mod boundary;
pub mod bucket_width;
pub mod buckets;
pub mod cells;
pub mod collapse;
pub mod counts;
pub mod downscale;
pub mod dynatrace;
pub mod edges;
pub mod exponent;
pub mod flat;
pub mod flat_laws;
pub mod flat_scale_laws;
pub mod float64;
pub mod histogram;
pub mod histogram_laws;
pub mod lane;
pub mod layout;
pub mod logarithm;
pub mod lookup;
pub mod mapping;
pub mod merge;
pub mod newrelic;
pub mod pn;
pub mod pn_laws;
pub mod precision;
pub mod quantile;
pub mod replay;
pub mod report;
pub mod scale_laws;
pub mod settle;
pub mod sketch;
pub mod sketch_history;
pub mod sketch_laws;
pub mod sketch_pn;
pub mod sketch_ranks;
pub mod sketch_view;
pub mod stats;
pub mod stats_laws;
pub mod swar;
pub mod width;
pub mod window;
pub mod window_ops;
