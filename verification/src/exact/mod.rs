//! What the kernels compute where nothing is rounded.
//!
//! A kernel and its plain definition add the same products in different orders, so in floating
//! point they agree to within rounding. Read the carrier's values as real numbers, with every
//! operation the number's own, and they are one number: the order is all that separates them.
pub mod numbers;
pub mod model;
pub mod block32;
pub mod superblock;
pub mod minned;
pub mod iq2;
pub mod carrier;
pub mod columns;
pub mod tiles;
pub mod products;
pub mod roundtrip;
pub mod fit;
pub mod mxfp4;
pub mod attention;
pub mod context;
pub mod decode;
pub mod encode;
pub mod nearest;
pub mod terms;
pub mod values;
pub mod matrix;
pub mod rows;
pub mod bytes;
pub mod groups;
pub mod along;
pub mod points;
pub mod plain;
