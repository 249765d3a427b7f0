use vstd::prelude::*;

pub mod line;
pub mod game_field;
pub mod board_laws;
pub mod leader;
pub mod screens;
pub mod game;

verus! {

} // verus!
