//! Dominant-colour extraction: the integer core of a k-means colour quantizer.
//!
//! The library samples an RGBA buffer, resolves and validates the clustering
//! options, counts how many samples each centroid received, orders the
//! resulting shares, and renders colours as hex strings. Colour-space
//! conversion and the floating-point clustering itself are performed by the
//! caller, which hands back plain assignment indices.
pub mod error;
pub mod extract;
pub mod hex;
pub mod options;
pub mod order;
pub mod prepare;
pub mod sampler;

pub use error::KmeansError;
pub use extract::{count_assignments, ClusterShare};
pub use hex::rgb_to_hex;
pub use options::{
    check_cluster_input, parse_color_space, parse_sort, CentroidSort, ColorSpace, GetKmeansOptions,
    KmeansConfig,
};
pub use order::{lightness_key, order_shares, stable_order};
pub use prepare::prepare;
pub use sampler::{sample_rgba, Rgb8};
