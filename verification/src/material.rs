//! What a material decides without arithmetic: whether it casts a shadow,
//! and which parts of the light that falls on it are seen.

use vstd::prelude::*;

verus! {

/// What the shading engine reads of a material without arithmetic.
#[derive(Copy, Clone, Debug, PartialEq, Eq, Structural)]
pub struct Material {
    /// Whether the material lets light through: an object of such a
    /// material casts no shadow.
    pub light_through: bool,
}

/// The parts of the light of one lamp that a surface sends to the eye.
/// The ambient part is always among them.
#[derive(Copy, Clone, Debug, PartialEq, Eq, Structural)]
pub struct Terms {
    /// Whether the surface scatters light of the lamp.
    pub diffuse: bool,
    /// Whether the surface mirrors the lamp towards the eye.
    pub specular: bool,
}

impl Material {
    /// The default material: it casts shadows.
    pub fn new() -> (m: Material)
        ensures
            !m.light_through,
    {
        Material { light_through: false }
    }

    /// The parts of the light of one lamp that are seen at a point.
    ///
    /// `light_dot_normal` is the key of the cosine between the direction
    /// to the lamp and the normal, `reflect_dot_eye` that of the cosine
    /// between the mirrored light and the direction to the eye. A lamp
    /// behind the surface gives neither diffuse nor specular light. A
    /// lamp in front of it gives diffuse light, and specular light where
    /// the mirrored light points towards the eye.
    pub fn lighting(light_dot_normal: i64, reflect_dot_eye: i64) -> (t: Terms)
        ensures
            t.diffuse == (light_dot_normal >= 0),
            t.specular == (light_dot_normal >= 0 && reflect_dot_eye > 0),
    {
        if light_dot_normal < 0 {
            Terms { diffuse: false, specular: false }
        } else if reflect_dot_eye <= 0 {
            Terms { diffuse: true, specular: false }
        } else {
            Terms { diffuse: true, specular: true }
        }
    }
}

impl Default for Material {
    fn default() -> (m: Material)
        ensures
            !m.light_through,
    {
        Material::new()
    }
}

} // verus!
