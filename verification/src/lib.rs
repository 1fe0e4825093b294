//! Persistent homology over Z/2Z: boundary matrices, their column reduction,
//! and the barcodes and Betti numbers read off the reduction.
pub mod column;
pub mod boundary;
pub mod reduction;
pub mod barcode;
pub mod betti;
pub mod diagram;
pub mod chain;
pub mod pairing;
pub mod rank;
pub mod filtration;
