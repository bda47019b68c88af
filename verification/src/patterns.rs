//! The part of the pattern engine that works on whole numbers: which of
//! two colours a cell has, and which pixel of a texture is looked up.

use vstd::prelude::*;

verus! {

/// How a point of a surface is mapped to the two coordinates of a
/// texture.
#[derive(Copy, Clone, Debug, PartialEq, Eq, Structural)]
pub enum UVMapping {
    Spherical,
    Planar,
    Cubical,
}

/// The faces of a cube.
#[derive(Copy, Clone, Debug, PartialEq, Eq, Structural)]
pub enum CubeFace {
    Top,
    Bottom,
    Left,
    Right,
    Front,
    Back,
}

/// One of the two colours of an alternating pattern.
#[derive(Copy, Clone, Debug, PartialEq, Eq, Structural)]
pub enum TwoColors {
    ColorA,
    ColorB,
}

/// An image: rows of pixels from the top, each pixel `bytes_per_px` bytes
/// that start with red, green and blue.
#[derive(Debug)]
pub struct Texture {
    pub data: Vec<u8>,
    pub height: u32,
    pub width: u32,
    pub bytes_per_px: usize,
}

/// The colour of the cell with this number: the first colour on even
/// cells, the second on odd ones, on both sides of zero.
pub open spec fn cell_color(cell: int) -> TwoColors {
    if cell % 2 == 0 {
        TwoColors::ColorA
    } else {
        TwoColors::ColorB
    }
}

fn parity(cell: i64) -> (c: TwoColors)
    ensures
        c == cell_color(cell as int),
{
    if cell % 2 == 0 {
        TwoColors::ColorA
    } else {
        TwoColors::ColorB
    }
}

/// Colour of a stripe pattern, from the floor of the x coordinate.
pub fn stripe(x: i64) -> (c: TwoColors)
    ensures
        c == cell_color(x as int),
{
    parity(x)
}

/// Colour of a three-dimensional checker pattern, from the sum of the
/// floors of the three coordinates.
pub fn checker(sum: i64) -> (c: TwoColors)
    ensures
        c == cell_color(sum as int),
{
    parity(sum)
}

/// Colour of a ring pattern, from the floor of the distance to the y
/// axis.
pub fn ring(distance: i64) -> (c: TwoColors)
    ensures
        c == cell_color(distance as int),
{
    parity(distance)
}

/// Colour of a checker pattern on a surface, from the column and the row
/// of the cell.
pub fn uv_checker(u: u32, v: u32) -> (c: TwoColors)
    ensures
        c == cell_color(u + v),
{
    let sum: u64 = u as u64 + v as u64;
    if sum % 2 == 0 {
        TwoColors::ColorA
    } else {
        TwoColors::ColorB
    }
}

/// Neighbouring cells have different colours, and the cell after the
/// next has the same colour again.
pub proof fn lemma_cells_alternate(cell: int)
    ensures
        cell_color(cell + 1) != cell_color(cell),
        cell_color(cell + 2) == cell_color(cell),
{
}

/// The size of the number with key `k`: its key without the sign.
pub open spec fn size(k: i64) -> int {
    if k < 0 {
        -k
    } else {
        k as int
    }
}

/// The face of the cube that a point is on, from the keys of its three
/// coordinates: the face across the axis of the coordinate of greatest
/// size, on the side that the sign of the coordinate names. Of
/// coordinates of equal size the x axis goes before the y axis, and that
/// before the z axis.
pub open spec fn spec_cube_face(x: i64, y: i64, z: i64) -> CubeFace {
    let coord = if size(x) >= size(y) && size(x) >= size(z) {
        size(x)
    } else if size(y) >= size(z) {
        size(y)
    } else {
        size(z)
    };
    if coord == x {
        CubeFace::Right
    } else if coord == -x {
        CubeFace::Left
    } else if coord == y {
        CubeFace::Top
    } else if coord == -y {
        CubeFace::Bottom
    } else if coord == z {
        CubeFace::Front
    } else {
        CubeFace::Back
    }
}

fn magnitude(k: i64) -> (m: i128)
    ensures
        m == size(k),
{
    if k < 0 {
        -(k as i128)
    } else {
        k as i128
    }
}

/// The face of the cube that a point is on, from the keys of its three
/// coordinates.
pub fn cube_face_at_point(x: i64, y: i64, z: i64) -> (f: CubeFace)
    ensures
        f == spec_cube_face(x, y, z),
{
    let (absx, absy, absz) = (magnitude(x), magnitude(y), magnitude(z));
    let coord = if absx >= absy && absx >= absz {
        absx
    } else if absy >= absz {
        absy
    } else {
        absz
    };
    if coord == x as i128 {
        CubeFace::Right
    } else if coord == -(x as i128) {
        CubeFace::Left
    } else if coord == y as i128 {
        CubeFace::Top
    } else if coord == -(y as i128) {
        CubeFace::Bottom
    } else if coord == z as i128 {
        CubeFace::Front
    } else {
        CubeFace::Back
    }
}

/// A point is on a face across the axis of a coordinate of greatest
/// size, and on the side that the sign of that coordinate names.
pub proof fn lemma_cube_face(x: i64, y: i64, z: i64)
    ensures
        match spec_cube_face(x, y, z) {
            CubeFace::Right => x >= 0 && size(x) >= size(y) && size(x) >= size(z),
            CubeFace::Left => x < 0 && size(x) >= size(y) && size(x) >= size(z),
            CubeFace::Top => y >= 0 && size(y) >= size(x) && size(y) >= size(z),
            CubeFace::Bottom => y < 0 && size(y) >= size(x) && size(y) >= size(z),
            CubeFace::Front => z >= 0 && size(z) >= size(x) && size(z) >= size(y),
            CubeFace::Back => z < 0 && size(z) >= size(x) && size(z) >= size(y),
        },
{
}

impl Texture {
    /// Where the pixel in column `x` of row `y` starts in the data.
    pub open spec fn offset(&self, x: u32, y: u32) -> int {
        (x + y * self.width) * self.bytes_per_px
    }

    /// The red, green and blue byte of the pixel in column `x` of row
    /// `y`, or `None` where the data does not reach that far.
    pub open spec fn spec_color_at(&self, x: u32, y: u32) -> Option<(u8, u8, u8)> {
        let at = self.offset(x, y);
        if at + 2 < self.data.len() {
            Some((self.data[at], self.data[at + 1], self.data[at + 2]))
        } else {
            None
        }
    }

    /// The red, green and blue byte of the pixel in column `x` of row
    /// `y`, or `None` where the data does not reach that far.
    pub fn color_at(&self, x: u32, y: u32) -> (c: Option<(u8, u8, u8)>)
        ensures
            c == self.spec_color_at(x, y),
    {
        let len = self.data.len() as u128;
        let bytes = self.bytes_per_px as u128;
        assert(0 <= y * self.width <= 0xffff_ffff * 0xffff_ffff) by (nonlinear_arith)
            requires
                0 <= y <= 0xffff_ffff,
                0 <= self.width <= 0xffff_ffff,
        ;
        let pixel: u128 = x as u128 + (y as u128) * (self.width as u128);
        if bytes != 0 && pixel > len {
            assert(self.offset(x, y) >= len) by (nonlinear_arith)
                requires
                    self.offset(x, y) == pixel * bytes,
                    pixel > len,
                    bytes >= 1,
            ;
            return None;
        }
        assert(pixel * bytes <= 0xffff_ffff_ffff_ffff * 0xffff_ffff_ffff_ffff)
            by (nonlinear_arith)
            requires
                bytes == 0 || 0 <= pixel <= len,
                0 <= pixel,
                len <= 0xffff_ffff_ffff_ffff,
                0 <= bytes <= 0xffff_ffff_ffff_ffff,
        ;
        let at: u128 = pixel * bytes;
        if at + 2 < len {
            let i = at as usize;
            Some((self.data[i], self.data[i + 1], self.data[i + 2]))
        } else {
            None
        }
    }
}

} // verus!
