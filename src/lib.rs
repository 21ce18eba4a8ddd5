//! A tick-driven arcade match on a ring of LEDs: colored players move around
//! the ring, dodge obstacles, collect bonuses and lose when their lives run out.
//! The library holds the simulation, the match lifecycle and the renderer that
//! turns every tick into a buffer of colors.

pub mod common;
pub mod position;
pub mod player;
pub mod display;
pub mod board;
pub mod platform;
pub mod idle;
