use vstd::prelude::*;

verus! {

/// A real quantity (an angle, a length, a tolerance) as an integer code.
///
/// The coding is chosen by the numeric layer and must keep the order of the
/// quantities, with `0` standing for zero. The library stores and compares
/// codes; it never adds or multiplies them.
pub type Scalar = i64;

/// Three coded coordinates: a direction or a displacement.
#[derive(Clone, Copy, Debug, PartialEq, Eq, Structural)]
pub struct Vector3 {
    pub x: Scalar,
    pub y: Scalar,
    pub z: Scalar,
}

/// The four coded coordinates of a unit quaternion.
#[derive(Clone, Copy, Debug, PartialEq, Eq, Structural)]
pub struct UnitQuaternion {
    pub w: Scalar,
    pub i: Scalar,
    pub j: Scalar,
    pub k: Scalar,
}

/// One elementary rigid motion.
#[derive(Clone, Copy, Debug, PartialEq, Eq, Structural)]
pub enum Motion {
    /// A fixed displacement.
    Translate(Vector3),
    /// A fixed rotation.
    Rotate(UnitQuaternion),
    /// The rotation of a rotational joint about its axis by its angle.
    Revolve { axis: Vector3, angle: Scalar },
    /// The displacement of a linear joint along its axis.
    Slide { axis: Vector3, distance: Scalar },
}

/// A rigid transform, written as the product of its elementary motions.
///
/// The first factor is the outermost (nearest the root). Composition appends;
/// the identity is the empty product.
#[derive(Debug, PartialEq, Eq)]
pub struct Isometry {
    pub(crate) factors: Vec<Motion>,
}

impl View for Isometry {
    type V = Seq<Motion>;

    /// The motions of the product, root first.
    open(crate) spec fn view(&self) -> Seq<Motion> {
        self.factors@
    }
}

impl Clone for Isometry {
    fn clone(&self) -> (r: Self)
        ensures
            r@ == self@,
    {
        let mut factors: Vec<Motion> = Vec::new();
        let mut i: usize = 0;
        while i < self.factors.len()
            invariant
                i <= self.factors@.len(),
                factors@ == self.factors@.take(i as int),
            decreases self.factors@.len() - i,
        {
            factors.push(self.factors[i]);
            i += 1;
        }
        Isometry { factors }
    }
}

impl Isometry {
    /// The transform that moves nothing.
    pub fn identity() -> (r: Self)
        ensures
            r@ == Seq::<Motion>::empty(),
    {
        Isometry { factors: Vec::new() }
    }

    /// The transform made of one motion.
    pub fn from_motion(m: Motion) -> (r: Self)
        ensures
            r@ == seq![m],
    {
        let mut factors: Vec<Motion> = Vec::new();
        factors.push(m);
        Isometry { factors }
    }

    /// `self` followed, on the inside, by `inner`.
    pub fn compose(&self, inner: &Isometry) -> (r: Self)
        ensures
            r@ == self@ + inner@,
    {
        let mut r = self.clone();
        r.append(inner);
        r
    }

    /// Composes `inner` onto `self` in place.
    pub fn append(&mut self, inner: &Isometry)
        ensures
            final(self)@ == old(self)@ + inner@,
    {
        let mut i: usize = 0;
        while i < inner.factors.len()
            invariant
                i <= inner.factors@.len(),
                self.factors@ == old(self).factors@ + inner.factors@.take(i as int),
            decreases inner.factors@.len() - i,
        {
            self.factors.push(inner.factors[i]);
            i += 1;
        }
    }

    /// The number of elementary motions in the product.
    pub fn len(&self) -> (r: usize)
        ensures
            r == self@.len(),
    {
        self.factors.len()
    }

    /// Whether the product is empty.
    pub fn is_identity(&self) -> (r: bool)
        ensures
            r == (self@.len() == 0),
    {
        self.factors.len() == 0
    }

    /// The `i`-th motion, counted from the root.
    pub fn factor(&self, i: usize) -> (r: Motion)
        requires
            i < self@.len(),
        ensures
            r == self@[i as int],
    {
        self.factors[i]
    }

    /// Whether two transforms are the same product.
    pub fn equals(&self, other: &Isometry) -> (r: bool)
        ensures
            r == (self@ == other@),
    {
        if self.factors.len() != other.factors.len() {
            return false;
        }
        let mut i: usize = 0;
        while i < self.factors.len()
            invariant
                i <= self.factors@.len(),
                self.factors@.len() == other.factors@.len(),
                self.factors@.take(i as int) == other.factors@.take(i as int),
            decreases self.factors@.len() - i,
        {
            if self.factors[i] != other.factors[i] {
                assert(self@[i as int] != other@[i as int]);
                return false;
            }
            assert(self.factors@.take(i + 1) == self.factors@.take(i as int).push(self.factors@[i as int]));
            assert(other.factors@.take(i + 1) == other.factors@.take(i as int).push(other.factors@[i as int]));
            i += 1;
        }
        assert(self.factors@.take(i as int) == self.factors@);
        assert(other.factors@.take(i as int) == other.factors@);
        true
    }
}

/// Composition is associative.
pub proof fn lemma_compose_associative(a: Isometry, b: Isometry, c: Isometry)
    ensures
        (a@ + b@) + c@ == a@ + (b@ + c@),
{
    assert((a@ + b@) + c@ =~= a@ + (b@ + c@));
}

/// The identity is neutral on both sides.
pub proof fn lemma_compose_identity(a: Isometry)
    ensures
        Seq::<Motion>::empty() + a@ == a@,
        a@ + Seq::<Motion>::empty() == a@,
{
    assert(Seq::<Motion>::empty() + a@ =~= a@);
    assert(a@ + Seq::<Motion>::empty() =~= a@);
}

} // verus!
