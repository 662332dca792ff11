//! Verified core of a renderer for a short film about homogeneous coordinates:
//! command-line parsing, the film's frame timing and the frame-export schedule.
mod bytes;

pub mod decimal;
pub mod cli;
pub mod cli_laws;
pub mod film;
pub mod export;

