//! Reconstructs the logical command history of a shell from the bytes of its
//! on-disk history file, most recent entry first.
//!
//! The pipeline has three layers: a reverse line source that yields physical
//! lines from last to first ([`lines::RevLineSource`], built on the
//! block-fed splitter [`blocks::RevLineBuffer`]), a decoder that undoes the
//! single-byte marker escaping ([`decode::decode_meta`]), and a reassembler
//! that stitches continuation lines back into whole commands
//! ([`zsh::ZshHistoryReader`], built on the line-fed [`zsh::ZshReassembler`]).
//! A history layout with one command per line is served by
//! [`bash::BashHistoryReader`], a one-step composition of the line source.

use vstd::prelude::*;

pub mod bash;
pub mod blocks;
pub mod decode;
pub mod laws;
pub mod lines;
pub mod text;
pub mod zsh;

verus! {

/// Signals that the history source is exhausted: a normal end-of-sequence
/// marker, not a fault.
#[derive(Clone, Copy, PartialEq, Eq, Structural, Debug)]
pub enum Error {
    EOF,
}

} // verus!
