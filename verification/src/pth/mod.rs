//! Reading torch `.pt` and `.pth` checkpoints.
//!
//! A checkpoint is a ZIP archive whose entries are stored uncompressed: a pickle,
//! `<root>/data.pkl`, that describes the tensors, and one raw little-endian storage for each of
//! them at `<root>/data/<key>`.
pub mod fault;
pub mod text;
pub mod zip;
pub mod object;
pub mod pickle;
pub mod tensors;
pub mod saved;
pub mod written;
