//! Trust propagation and automated-response pipeline.
//!
//! Scores, weights and thresholds are fixed-point integers in millionths
//! (see [`score::SCALE`]): `1_000_000` stands for a trust of 1.0.
pub mod score;
pub mod keyed;
pub mod graph;
pub mod propagation;
pub mod clock;
pub mod analysis;
pub mod composition;
pub mod text;
pub mod assurance;
pub mod settings;
pub mod edge_security;
pub mod domain_security;
pub mod incident;
