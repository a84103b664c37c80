//! Conway's Game of Life: boards read from and written as seeds, the
//! transition from one generation to the next, and renderings as text and
//! as SVG, with the contracts of each proved.

pub mod db;
pub mod game;
pub mod life;
pub mod render;
pub mod request;
pub mod seed;
pub mod text;
pub mod xml;
