//! Pairwise SNP (Hamming) distance matrices over aligned DNA sequences.
//!
//! The crate normalizes raw sequence bytes (case folding and an ignored-byte
//! set), plans the pairwise comparisons for one or two alignments, computes
//! the distances, assembles them into a dense matrix, and renders the matrix
//! as a wide or long-form delimited table.

pub mod align;
pub mod distance;
pub mod executor;
pub mod matrix;
pub mod plan;
pub mod sort;
pub mod table;
pub mod transform;

pub use distance::hamming_distance;
pub use table::ToTable;
pub use transform::Transformer;
