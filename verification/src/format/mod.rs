//! One file per quantisation format: layout, dequantiser and quantiser together.
pub mod iq2_grid;
pub mod iq2_xxs;
pub mod mxfp4;
pub mod q2_k;
pub mod q3_k;
pub mod q4_0;
pub mod q4_1;
pub mod q4_k;
pub mod q5_0;
pub mod q5_1;
pub mod q5_k;
pub mod q6_k;
pub mod q8_0;
pub mod q8_1;
pub mod q8_k;
