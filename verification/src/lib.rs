//! Stabilisation of the Abelian sandpile on a growing square grid, with the
//! tiled transpose that the separable form of the stencil leans on.

pub mod array_utils;
pub mod common;
pub mod limits;
pub mod model;
pub mod mass;
pub mod bounds;
pub mod recentre;
pub mod engine;
pub mod sweep;
pub mod compute;
pub mod laws;
pub mod render;
pub mod gui;
