//! The compression steps: bit packing, scalar and polar quantizers, and sign
//! vectors with their Hamming distances.
pub mod bitstream;
pub mod centroids;
pub mod hamming;
pub mod lloyd_max;
pub mod polarquant;
pub mod qjl;
pub mod turboquant_mse;
