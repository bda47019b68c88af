//! Lights, as far as they decide how often a shadow is sampled.

use vstd::arithmetic::div_mod::lemma_fundamental_div_mod_converse;
use vstd::prelude::*;

verus! {

/// The grid of an area light: `usteps` by `vsteps` cells, each of which
/// is sampled once.
#[derive(Copy, Clone, Debug, PartialEq, Eq, Structural)]
pub struct AreaLight {
    pub usteps: u32,
    pub vsteps: u32,
    /// The number of cells.
    pub samples: u32,
}

/// The kinds of light.
#[derive(Copy, Clone, Debug, PartialEq, Eq, Structural)]
pub enum LightKind {
    /// A light at one point: its shadows have hard edges.
    Point,
    /// A rectangle of light: its shadows are sampled cell by cell.
    Area(AreaLight),
}

impl AreaLight {
    /// Whether the number of samples is the number of cells.
    pub open spec fn wf(&self) -> bool {
        self.samples == self.usteps * self.vsteps
    }

    /// The cells of the grid in the order in which they are sampled:
    /// row by row, and both coordinates counted from one.
    pub open spec fn spec_cells(&self) -> Seq<(u32, u32)> {
        Seq::new((self.usteps * self.vsteps) as nat, |k: int| self.spec_cells_at(k))
    }

    /// The cells of the grid in the order in which they are sampled.
    pub fn cells(&self) -> (cells: Vec<(u32, u32)>)
        ensures
            cells@ == self.spec_cells(),
    {
        let mut cells: Vec<(u32, u32)> = Vec::new();
        let mut v: u32 = 0;
        while v < self.vsteps
            invariant
                v <= self.vsteps,
                cells.len() == v * self.usteps,
                forall|k: int| 0 <= k < cells.len() ==> cells[k] == self.spec_cells_at(k),
            decreases self.vsteps - v,
        {
            let mut u: u32 = 0;
            while u < self.usteps
                invariant
                    v < self.vsteps,
                    u <= self.usteps,
                    cells.len() == v * self.usteps + u,
                    forall|k: int| 0 <= k < cells.len() ==> cells[k] == self.spec_cells_at(k),
                decreases self.usteps - u,
            {
                proof {
                    lemma_fundamental_div_mod_converse(
                        v * self.usteps + u,
                        self.usteps as int,
                        v as int,
                        u as int,
                    );
                }
                cells.push((u + 1, v + 1));
                u += 1;
            }
            assert((v + 1) * self.usteps == v * self.usteps + self.usteps) by (nonlinear_arith);
            v += 1;
        }
        assert(self.vsteps * self.usteps == self.usteps * self.vsteps) by (nonlinear_arith);
        assert(cells@.len() == self.spec_cells().len());
        assert(cells@ =~= self.spec_cells());
        cells
    }

    /// Cell number `k` in the order of sampling.
    pub open spec fn spec_cells_at(&self, k: int) -> (u32, u32) {
        ((k % (self.usteps as int) + 1) as u32, (k / (self.usteps as int) + 1) as u32)
    }
}

impl LightKind {
    /// A point light.
    pub fn new_point() -> (l: LightKind)
        ensures
            l == LightKind::Point,
    {
        LightKind::Point
    }

    /// An area light with a grid of `u_steps` by `v_steps` cells.
    pub fn new_area(u_steps: u32, v_steps: u32) -> (l: LightKind)
        requires
            u_steps * v_steps <= u32::MAX,
        ensures
            l == LightKind::Area(
                AreaLight { usteps: u_steps, vsteps: v_steps, samples: (u_steps * v_steps) as u32 },
            ),
            l->Area_0.wf(),
    {
        LightKind::Area(AreaLight { usteps: u_steps, vsteps: v_steps, samples: v_steps * u_steps })
    }

    /// How often the shadow of the light is sampled at a point: once for
    /// a point light, once a cell for an area light.
    pub fn samples(&self) -> (n: u32)
        ensures
            n == match *self {
                LightKind::Point => 1u32,
                LightKind::Area(a) => a.samples,
            },
    {
        match self {
            LightKind::Point => 1,
            LightKind::Area(a) => a.samples,
        }
    }
}

} // verus!
