//! Daily puzzle solutions: digit extraction from calibration lines,
//! cube-game parsing and bounds checks, a 2-D engine-schematic scan,
//! and scratch-card win counting with cascading copies.
use vstd::prelude::*;

pub mod calibration;
pub mod cube_game;
pub mod grid;
pub mod schematic;
pub mod scratchcards;
pub mod text;

verus! {

/// A character is an ASCII decimal digit.
pub open spec fn is_ascii_digit_char(c: char) -> bool {
    '0' <= c && c <= '9'
}

} // verus!

