//! Exact planar geometry over rational coordinates, together with the number
//! theory, containers and text utilities around it.
//!
//! Every executable function carries a contract that Verus proves. A
//! function whose result must fit the machine asks for that in its
//! `requires`; none wraps around, and none ends the program.
pub mod common;
pub mod geometry;
pub mod io;
pub mod math;
pub mod range;
pub mod string;
