//! The verified core of a recursive ray tracer.
//!
//! Everything here is exact, discrete bookkeeping: how kinds of matrices
//! compose, which roots a primitive reports, which intersection of a ray
//! is the visible one, which media bound it, how a bounce budget is
//! spent, how an image is cut into pixel tasks, and how its pixels become
//! the text of an image file. No arithmetic on real numbers is done here.
//!
//! Where a decision rests on the sign or the order of real numbers, each
//! number is given by its key: an integer that is negative, zero or
//! positive as the number is, and such that a greater number has a greater
//! key. The key of the negative of a number is the negative of its key.
//! What is no number has the greatest key of all, and so has what is
//! beyond all numbers. The module [`key`] makes keys from the bits of
//! numbers in single precision.

use vstd::prelude::*;

pub mod camera;
pub mod canvas;
pub mod intersections;
pub mod key;
pub mod light;
pub mod material;
pub mod matrix;
pub mod net_worker;
pub mod obj_parser;
pub mod objects;
pub mod patterns;
pub mod scene_parser;
pub mod world;

verus! {

/// Returns ten.
pub fn kek() -> (n: u32)
    ensures
        n == 10,
{
    10
}

} // verus!
