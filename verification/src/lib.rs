//! Fraud scoring by nearest-neighbour search over an inverted-file index of
//! quantized reference vectors.
pub mod args;
pub mod builder;
pub mod clock;
pub mod decision;
pub mod diagnose;
pub mod heap;
pub mod index_file;
pub mod ivf_index;
pub mod json_array;
pub mod kmeans;
pub mod nearest;
pub mod quantize;
pub mod rounding;
pub mod scan;
pub mod searcher;
pub mod service;
pub mod tally;
pub mod text;
pub mod timing;
pub mod vectorize;
