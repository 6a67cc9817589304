//! Index planning, residual packing and candidate search for multi-vector retrieval.

pub mod agreement;
pub mod anchors;
pub mod bits;
pub mod centroids;
pub mod chunks;
pub mod codec;
pub mod config;
pub mod create;
pub mod files;
pub mod independence;
pub mod ivf;
pub mod json;
pub mod merge;
pub mod offsets;
pub mod order;
pub mod packing;
pub mod pipeline;
pub mod sampling;
pub mod score;
pub mod search;
pub mod strided;
pub mod text;
pub mod update;
