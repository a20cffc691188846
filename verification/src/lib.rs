pub mod components;
pub mod compressed;
pub mod convert;
pub mod error;
pub mod graph_iterator;
pub mod hilbert_curve;
pub mod label_propagation;
pub mod merge;
pub mod orientation;
pub mod rearrange;
pub mod stats;
pub mod to_vertex;
pub mod twitter_parser;
pub mod two_tier;
pub mod typedrw;
pub mod union_find;
pub mod varint;
