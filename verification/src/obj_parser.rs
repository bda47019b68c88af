//! The faces of a model: which vertices and normals a face names, and
//! whether the model holds them.

use vstd::prelude::*;

verus! {

/// A face of a model as its line names it: the numbers of three vertices
/// and, for a smooth face, of three normals. Numbers count from one.
#[derive(Copy, Clone, Debug, PartialEq, Eq, Structural)]
pub enum Face {
    Face { x: usize, y: usize, z: usize },
    FaceWithNormal { x: usize, y: usize, z: usize, x_n: usize, y_n: usize, z_n: usize },
}

/// The corners of a triangle as positions in the lists of vertices and
/// normals of a model. Positions count from zero.
#[derive(Copy, Clone, Debug, PartialEq, Eq)]
pub struct Corners {
    pub vertices: (usize, usize, usize),
    pub normals: Option<(usize, usize, usize)>,
}

/// Whether a list of `len` entries has an entry with this number.
pub open spec fn names_entry(number: usize, len: usize) -> bool {
    1 <= number <= len
}

impl Face {
    /// The corners of the triangle of this face in a model of `vertices`
    /// vertices and `normals` normals, or `None` where the face names a
    /// vertex or a normal that the model does not hold.
    pub open spec fn spec_resolve(self, vertices: usize, normals: usize) -> Option<Corners> {
        match self {
            Face::Face { x, y, z } => if names_entry(x, vertices) && names_entry(y, vertices)
                && names_entry(z, vertices) {
                Some(
                    Corners {
                        vertices: ((x - 1) as usize, (y - 1) as usize, (z - 1) as usize),
                        normals: None,
                    },
                )
            } else {
                None
            },
            Face::FaceWithNormal { x, y, z, x_n, y_n, z_n } => if names_entry(x, vertices)
                && names_entry(y, vertices) && names_entry(z, vertices) && names_entry(
                x_n,
                normals,
            ) && names_entry(y_n, normals) && names_entry(z_n, normals) {
                Some(
                    Corners {
                        vertices: ((x - 1) as usize, (y - 1) as usize, (z - 1) as usize),
                        normals: Some(
                            ((x_n - 1) as usize, (y_n - 1) as usize, (z_n - 1) as usize),
                        ),
                    },
                )
            } else {
                None
            },
        }
    }

    /// The corners of the triangle of this face, or `None` where the
    /// face is left out of the model.
    pub fn resolve(&self, vertices: usize, normals: usize) -> (c: Option<Corners>)
        ensures
            c == self.spec_resolve(vertices, normals),
            c matches Some(corners) ==> {
                &&& corners.vertices.0 < vertices
                &&& corners.vertices.1 < vertices
                &&& corners.vertices.2 < vertices
                &&& corners.normals matches Some(n) ==> n.0 < normals && n.1 < normals && n.2
                    < normals
            },
    {
        match *self {
            Face::Face { x, y, z } => {
                if held(x, vertices) && held(y, vertices) && held(z, vertices) {
                    Some(Corners { vertices: (x - 1, y - 1, z - 1), normals: None })
                } else {
                    None
                }
            },
            Face::FaceWithNormal { x, y, z, x_n, y_n, z_n } => {
                if held(x, vertices) && held(y, vertices) && held(z, vertices) && held(x_n, normals)
                    && held(y_n, normals) && held(z_n, normals) {
                    Some(
                        Corners {
                            vertices: (x - 1, y - 1, z - 1),
                            normals: Some((x_n - 1, y_n - 1, z_n - 1)),
                        },
                    )
                } else {
                    None
                }
            },
        }
    }
}

fn held(number: usize, len: usize) -> (b: bool)
    ensures
        b == names_entry(number, len),
{
    1 <= number && number <= len
}

/// The triangles of a model: for each face that the model can hold, its
/// corners, in the order of the faces.
pub open spec fn spec_parse_obj(faces: Seq<Face>, vertices: usize, normals: usize) -> Seq<Corners>
    decreases faces.len(),
{
    if faces.len() == 0 {
        Seq::empty()
    } else {
        let before = spec_parse_obj(faces.drop_last(), vertices, normals);
        match faces.last().spec_resolve(vertices, normals) {
            Some(c) => before.push(c),
            None => before,
        }
    }
}

/// The triangles of a model with `vertices` vertices and `normals`
/// normals. A face that names what the model does not hold is left out.
pub fn parse_obj(faces: &Vec<Face>, vertices: usize, normals: usize) -> (tris: Vec<Corners>)
    ensures
        tris@ == spec_parse_obj(faces@, vertices, normals),
        tris.len() <= faces.len(),
{
    let mut tris: Vec<Corners> = Vec::new();
    let mut i: usize = 0;
    while i < faces.len()
        invariant
            i <= faces.len(),
            tris.len() <= i,
            tris@ == spec_parse_obj(faces@.take(i as int), vertices, normals),
        decreases faces.len() - i,
    {
        assert(faces@.take(i + 1).drop_last() =~= faces@.take(i as int));
        match faces[i].resolve(vertices, normals) {
            Some(c) => {
                tris.push(c);
            },
            None => {},
        }
        i += 1;
    }
    assert(faces@.take(i as int) =~= faces@);
    tris
}

} // verus!
