//! Tools for a balanced-ternary machine whose words are written in base 27, one
//! letter per sip (`.` for zero, `a`..`m` for 1..13, `n`..`z` for -13..-1):
//!
//! - `helper`: word codes of three sips and balanced ternary for 16-bit numbers;
//! - `machine`: the simulated machine of two-sip words, its memory and instructions;
//! - `state_file`: saving and loading the machine's state as text;
//! - `command`: what the simulator's commands do;
//! - `assembler`: the two-pass assembler and the layout of program images;
//! - `sips` and `text`: the numerals and the text handling that these rest on.
use vstd::prelude::*;

pub mod assembler;
pub mod command;
pub mod helper;
pub mod machine;
pub mod sips;
pub mod state_file;
pub mod text;

verus! {

} // verus!
