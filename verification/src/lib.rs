//! Triacylglycerol composition from positional fatty-acid distributions.
//!
//! For each species the percentage of every fatty acid is known at the two
//! primary positions of the glycerol together, at the secondary position,
//! and over all three positions. Taking the positions to be filled
//! independently, `input` derives the mole percent of every triacylglycerol:
//! one row for each ordered triple of fatty acids. `output` holds such a
//! composition and answers queries over it: a threshold on the quantities, a
//! grouping of each triacylglycerol with its mirror image, a pattern on the
//! fatty acids, and an order of the rows. `reconcile` holds the identities
//! by which two of the three percentages of a fatty acid give the third.
//!
//! Quantities are carried as the bits of binary64 numbers (`value`). The
//! library compares and orders them itself; arithmetic on them it asks of
//! its caller. `laws` states what holds of the derivation and of the queries
//! for every input.

pub mod config;
pub mod cube;
pub mod error;
pub mod file;
pub mod input;
pub mod laws;
pub mod order;
pub mod ordered;
pub mod output;
pub mod position;
pub mod reconcile;
pub mod seqs;
pub mod sorting;
pub mod specie;
pub mod tag;
pub mod taxonomy;
pub mod text;
pub mod triplet;
pub mod value;
