//! Colours text with a position-dependent gradient while passing terminal
//! control sequences through unchanged.
//!
//! `escape` classifies characters into plain text and control sequences,
//! `position` tracks the cursor, `rainbow` writes the output, and `config`
//! scans the frequency flags of a command line. The gradient colours
//! themselves are computed by the caller, one for each position that
//! `rainbow::color_positions` reports.

pub mod config;
pub mod decimal;
pub mod escape;
pub mod position;
pub mod rainbow;
mod text;
