//! Verified solvers for a set of text-puzzle computations: each module takes a
//! raw input string and produces one or two numeric answers, with the parsing
//! and the arithmetic specified and proved.

pub mod almanac;
pub mod calibration;
pub mod camel_cards;
pub mod cube_game;
pub mod extrapolation;
pub mod network;
pub mod numbers;
pub mod pipe_maze;
pub mod races;
pub mod schematic;
pub mod scratchcards;
pub mod text;
