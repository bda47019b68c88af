//! Kinds of 4x4 matrices, ordered by how cheaply they can be inverted.
//!
//! A matrix carries a kind that says what is known of it. The kind of a
//! product is the less specialised of the kinds of its factors, and the
//! kind of a matrix decides how it is inverted.

use vstd::prelude::*;
use crate::intersections::NO_HIT;

verus! {

/// What is known about a matrix, used to choose how it is inverted.
///
/// The variants are listed from the least to the most specialised.
#[derive(Copy, Clone, Debug, PartialEq, Eq, Structural)]
pub enum Kind {
    /// Any matrix.
    General,
    /// An affine transform that may scale.
    Transform,
    /// A rigid transform: rotations and translations only.
    TransformNoScale,
    /// The identity.
    Identity,
}

/// A way to invert a matrix.
#[derive(Copy, Clone, Debug, PartialEq, Eq, Structural)]
pub enum Inversion {
    /// The matrix is its own inverse and is handed back as it is.
    Unchanged,
    /// The rotation block is transposed and the translation is turned
    /// back through it.
    NoScale,
    /// Expansion by cofactors, which divides by the determinant.
    General,
}

/// The builders of transformation matrices.
#[derive(Copy, Clone, Debug, PartialEq, Eq, Structural)]
pub enum Builder {
    Translation,
    Scaling,
    RotateX,
    RotateY,
    RotateZ,
    Shearing,
}

impl Kind {
    /// Position of the kind in the order from least to most specialised.
    pub open spec fn rank(self) -> int {
        match self {
            Kind::General => 0,
            Kind::Transform => 1,
            Kind::TransformNoScale => 2,
            Kind::Identity => 3,
        }
    }

    /// The less specialised of two kinds; of two equal kinds, that kind.
    pub open spec fn spec_worst(self, rhs: Kind) -> Kind {
        if self.rank() > rhs.rank() {
            rhs
        } else {
            self
        }
    }

    /// How a matrix of this kind is inverted.
    pub open spec fn spec_inversion(self) -> Inversion {
        match self {
            Kind::Identity => Inversion::Unchanged,
            Kind::TransformNoScale => Inversion::NoScale,
            _ => Inversion::General,
        }
    }

    fn level(&self) -> (n: u8)
        ensures
            n == self.rank(),
    {
        match self {
            Kind::General => 0,
            Kind::Transform => 1,
            Kind::TransformNoScale => 2,
            Kind::Identity => 3,
        }
    }

    /// The less specialised of two kinds: the kind of a product of
    /// matrices of these kinds.
    pub fn worst(&self, rhs: &Kind) -> (k: Kind)
        ensures
            k == self.spec_worst(*rhs),
            k.rank() <= self.rank(),
            k.rank() <= rhs.rank(),
            k == *self || k == *rhs,
    {
        if self.level() > rhs.level() {
            *rhs
        } else {
            *self
        }
    }

    /// How a matrix of this kind is inverted: the identity stays as it
    /// is, a rigid transform is inverted without a division, and every
    /// other matrix by cofactors.
    pub fn inversion(&self) -> (i: Inversion)
        ensures
            i == self.spec_inversion(),
    {
        match self {
            Kind::Identity => Inversion::Unchanged,
            Kind::TransformNoScale => Inversion::NoScale,
            _ => Inversion::General,
        }
    }

    /// Whether a matrix of this kind has an inverse, given the key of its
    /// determinant: see [`Kind::is_inversible`].
    pub open spec fn spec_is_inversible(self, determinant: i64) -> bool {
        self.spec_inversion() != Inversion::General || (determinant != 0 && determinant
            != NO_HIT)
    }

    /// Whether a matrix of this kind has an inverse, given the key of its
    /// determinant. The identity and a rigid transform always have one,
    /// and their determinant is not looked at. Any other matrix has one
    /// where its determinant is a number and not zero.
    pub fn is_inversible(&self, determinant: i64) -> (b: bool)
        ensures
            b == self.spec_is_inversible(determinant),
    {
        match self.inversion() {
            Inversion::General => determinant != 0 && determinant != NO_HIT,
            _ => true,
        }
    }

    /// The kind of the product of a chain of matrices of these kinds,
    /// multiplied from the left onto the identity.
    pub open spec fn spec_of_product(kinds: Seq<Kind>) -> Kind
        decreases kinds.len(),
    {
        if kinds.len() == 0 {
            Kind::Identity
        } else {
            Kind::spec_of_product(kinds.drop_last()).spec_worst(kinds.last())
        }
    }

    /// The kind of the product of a chain of matrices of these kinds: the
    /// least specialised among them, and the identity for an empty chain.
    pub fn of_product(kinds: &Vec<Kind>) -> (k: Kind)
        ensures
            k == Kind::spec_of_product(kinds@),
            forall|i: int| 0 <= i < kinds.len() ==> k.rank() <= (#[trigger] kinds[i]).rank(),
            k == Kind::Identity || kinds@.contains(k),
    {
        let mut k = Kind::Identity;
        let mut i: usize = 0;
        while i < kinds.len()
            invariant
                i <= kinds.len(),
                k == Kind::spec_of_product(kinds@.take(i as int)),
                forall|j: int| 0 <= j < i ==> k.rank() <= (#[trigger] kinds[j]).rank(),
                k == Kind::Identity || kinds@.contains(k),
            decreases kinds.len() - i,
        {
            assert(kinds@.take(i + 1).drop_last() =~= kinds@.take(i as int));
            k = k.worst(&kinds[i]);
            i += 1;
        }
        assert(kinds@.take(i as int) =~= kinds@);
        k
    }
}

impl Builder {
    /// The kind that the builder gives its matrix.
    pub open spec fn spec_kind(self) -> Kind {
        match self {
            Builder::Scaling => Kind::Transform,
            Builder::Shearing => Kind::General,
            _ => Kind::TransformNoScale,
        }
    }

    /// The kind that the builder gives its matrix: translations and
    /// rotations are rigid, a scaling may scale, and of a shearing
    /// nothing is known.
    pub fn kind(&self) -> (k: Kind)
        ensures
            k == self.spec_kind(),
    {
        match self {
            Builder::Scaling => Kind::Transform,
            Builder::Shearing => Kind::General,
            _ => Kind::TransformNoScale,
        }
    }
}

/// The kind of a product does not depend on the order of its factors.
pub proof fn lemma_worst_is_commutative(a: Kind, b: Kind)
    ensures
        a.spec_worst(b) == b.spec_worst(a),
{
}

/// The kind of a product of three matrices does not depend on which two
/// are multiplied first.
pub proof fn lemma_worst_is_associative(a: Kind, b: Kind, c: Kind)
    ensures
        a.spec_worst(b).spec_worst(c) == a.spec_worst(b.spec_worst(c)),
{
}

/// Multiplying by the identity keeps the kind, and a product with a
/// general matrix is general.
pub proof fn lemma_worst_bounds(a: Kind)
    ensures
        a.spec_worst(Kind::Identity) == a,
        Kind::Identity.spec_worst(a) == a,
        a.spec_worst(Kind::General) == Kind::General,
        Kind::General.spec_worst(a) == Kind::General,
        a.spec_worst(a) == a,
{
}

/// A product is inverted without a division only if each factor is, and
/// handed back unchanged only if each factor is the identity.
pub proof fn lemma_inversion_of_product(a: Kind, b: Kind)
    ensures
        a.spec_worst(b).spec_inversion() == Inversion::Unchanged <==> a == Kind::Identity && b
            == Kind::Identity,
        a.spec_worst(b).spec_inversion() != Inversion::General <==> a.spec_inversion()
            != Inversion::General && b.spec_inversion() != Inversion::General,
{
}

} // verus!
