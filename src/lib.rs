//! Stochastic replication of one chromosome, modelled as the coordinate
//! interval `[0, L)`, with every public operation verified against a
//! per-position model of which coordinates are replicated.
//!
//! - `runs`: the positional model, a sequence of runs written out flag by flag.
//! - `chromosome`: a list of maximal runs with per-position replication.
//! - `track`: the fixed-capacity segment track of alternating run lengths.
//! - `growth`: one growth-and-merge pass over the track, and its laws.
//! - `random`: the draws from the seeded pseudorandom stream.
//! - `sampler`: placement of origins at uniformly drawn unreplicated positions.
//! - `cell`: the phase gate and the driver that runs to full replication.

pub mod runs;
pub mod chromosome;
pub mod track;
pub mod growth;
pub mod random;
pub mod sampler;
pub mod cell;

pub use cell::{Cell, CellState};
pub use chromosome::{Chromosome, DomainError};
pub use track::Genome;
