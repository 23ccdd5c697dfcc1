//! Quantised tensor blocks, the kernels over them, and the operations a transformer runs.
pub mod text;
pub mod error;
pub mod arith;
pub mod sums;
pub mod blocks;
pub mod grid;
pub mod lanes;
pub mod coded;
pub mod scale;
pub mod format;
pub mod repack_q4_0;
pub mod repack_mxfp4;
pub mod repack_q5_0;
pub mod repack_q8_0;
pub mod float;
pub mod tiled;
pub mod superblock;
pub mod kfit;
pub mod koffset;
pub mod kgroup;
pub mod tile4x8;
pub mod repack_q4k;
pub mod repack_mxfp4_x8;
pub mod repack_q8_0_x8;
pub mod repack_q5k;
pub mod repack_q6k;
pub mod matmul;
pub mod layout;
pub mod dispatch;
pub mod repack_q4k_marlin;
pub mod drivers;
pub mod bytes;
pub mod ffn;
pub mod agree;
pub mod gemv_pool;
pub mod prefix;
pub mod tensor;
pub mod ops;
pub mod pth;
pub mod whole;
pub mod exact;
