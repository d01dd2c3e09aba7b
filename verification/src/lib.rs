//! Reconstruction of historical code-golf leaderboards and head-to-head
//! comparison of two golfers across all holes.
//!
//! The crate turns an append-only log of submissions into a ranked per-hole
//! leaderboard as it stood at a chosen cutoff instant, filters and orders the
//! boards for a two-party comparison, and computes the layout of a textual
//! report (bar chart cells, centering widths, headline). All of it is pure:
//! fetching the logs, command-line handling and ANSI colouring live outside
//! the library.

pub mod aggregate;
pub mod cutoff;
pub mod laws;
pub mod lexord;
pub mod model;
pub mod reconstruct;
pub mod render;
pub mod sorting;
