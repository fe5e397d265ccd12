//! Pairwise distances between labelled sequences, kept in a rectangular
//! matrix that can be laid out as aligned text.

pub mod matrix;
pub mod text;
pub mod sequence;
pub mod fasta;
