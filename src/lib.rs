//! Procedural heightmap generation: a bounds-checked height field, the
//! generation passes that fill it, a staged progress tracker and the
//! triangulation of the finished field.
//!
//! Elevations are fixed-point integers; `HEIGHT_ONE` stands for one unit of
//! height.

pub mod map_data;
pub mod map_mutators;
pub mod randstruct;
pub mod gen_run;
pub mod terrain;
pub mod fractal;
pub mod app_state;
pub mod pipeline;
