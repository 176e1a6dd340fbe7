//! The rules of a tilting ball maze: its levels, the walls the ball meets,
//! the autopilot's route, the game's phases and the frame downscaler used
//! for recordings.
use vstd::prelude::*;

pub mod text;
pub mod level;
pub mod autopilot;
pub mod downscale;
pub mod mesh;
pub mod game;

verus! {

} // verus!
