use vstd::prelude::*;

use crate::errors::JointError;
use crate::math::{Isometry, Motion, Scalar, Vector3};

verus! {

/// The inclusive range of values a joint may take.
#[derive(Clone, Copy, Debug, PartialEq, Eq, Structural)]
pub struct Range {
    pub min: Scalar,
    pub max: Scalar,
}

impl Range {
    pub fn new(min: Scalar, max: Scalar) -> (r: Self)
        ensures
            r == (Range { min, max }),
    {
        Range { min, max }
    }

    /// Whether `v` lies in the range, in the order of the coded quantities.
    pub open spec fn contains(&self, v: Scalar) -> bool {
        self.min <= v && v <= self.max
    }

    /// Whether `v` lies in the range.
    pub fn is_valid(&self, v: Scalar) -> (r: bool)
        ensures
            r == self.contains(v),
    {
        self.min <= v && v <= self.max
    }

    /// The value of the range nearest to `v`: `v` itself where it lies inside.
    pub open spec fn clamp_spec(&self, v: Scalar) -> Scalar {
        if v < self.min {
            self.min
        } else if v > self.max {
            self.max
        } else {
            v
        }
    }

    /// Moves `v` to the nearest bound where it lies outside the range.
    pub fn clamp(&self, v: Scalar) -> (r: Scalar)
        ensures
            r == self.clamp_spec(v),
            self.min <= self.max ==> self.contains(r),
            self.contains(v) ==> r == v,
    {
        if v < self.min {
            self.min
        } else if v > self.max {
            self.max
        } else {
            v
        }
    }
}

/// How a joint moves the link it carries.
#[derive(Clone, Copy, Debug, PartialEq, Eq, Structural)]
pub enum JointType {
    /// No motion: the joint holds no value.
    Fixed,
    /// Rotation about `axis` by the joint's angle.
    Rotational { axis: Vector3 },
    /// Displacement along `axis` by the joint's value.
    Linear { axis: Vector3 },
}

/// A connector with one degree of freedom, or none.
#[derive(Clone, Debug, PartialEq, Eq)]
pub struct Joint {
    pub name: String,
    pub joint_type: JointType,
    /// The stored value; it means nothing while the joint is fixed.
    pub angle: Scalar,
    pub limits: Option<Range>,
}

impl Joint {
    /// The stored value: none for a fixed joint.
    pub open spec fn value(&self) -> Option<Scalar> {
        if self.joint_type is Fixed {
            None
        } else {
            Some(self.angle)
        }
    }

    /// Whether the joint has a degree of freedom.
    pub open spec fn is_movable(&self) -> bool {
        !(self.joint_type is Fixed)
    }

    /// Whether the limits, if any are declared, admit `v`.
    pub open spec fn admits(&self, v: Scalar) -> bool {
        match self.limits {
            Some(range) => range.contains(v),
            None => true,
        }
    }

    /// The motion the joint induces at its current value.
    pub open spec fn local_spec(&self) -> Seq<Motion> {
        match self.joint_type {
            JointType::Fixed => Seq::empty(),
            JointType::Rotational { axis } => seq![Motion::Revolve { axis, angle: self.value().unwrap() }],
            JointType::Linear { axis } => seq![Motion::Slide { axis, distance: self.value().unwrap() }],
        }
    }

    /// A joint without limits. A movable joint starts at the value zero.
    pub fn new(name: &str, joint_type: JointType) -> (r: Self)
        ensures
            r.name@ == name@,
            r.joint_type == joint_type,
            r.limits is None,
            r.value() == (if joint_type is Fixed { None } else { Some(0i64) }),
    {
        Joint { name: name.to_owned(), joint_type, angle: 0, limits: None }
    }

    /// Declares, or removes, the limits. The stored value is not checked.
    pub fn set_limits(&mut self, limits: Option<Range>)
        ensures
            final(self).limits == limits,
            final(self).name == old(self).name,
            final(self).joint_type == old(self).joint_type,
            final(self).value() == old(self).value(),
    {
        self.limits = limits;
    }

    pub fn is_fixed(&self) -> (r: bool)
        ensures
            r == !self.is_movable(),
    {
        match self.joint_type {
            JointType::Fixed => true,
            _ => false,
        }
    }

    /// The current value; `None` for a fixed joint.
    pub fn get_value(&self) -> (r: Option<Scalar>)
        ensures
            r == self.value(),
    {
        match self.joint_type {
            JointType::Fixed => None,
            _ => Some(self.angle),
        }
    }

    /// Stores `v`. A fixed joint refuses every value with `Unsupported`; a
    /// movable joint refuses a value outside its limits with `OutOfLimit`. A
    /// refused value changes nothing.
    pub fn set_value(&mut self, v: Scalar) -> (r: Result<(), JointError>)
        ensures
            final(self).name == old(self).name,
            final(self).joint_type == old(self).joint_type,
            final(self).limits == old(self).limits,
            r is Ok ==> final(self).admits(final(self).angle),
            match r {
                Ok(_) => old(self).is_movable() && old(self).admits(v) && final(self).value() == Some(v),
                Err(e) => *final(self) == *old(self) && e == (if old(self).is_movable() {
                    JointError::OutOfLimit
                } else {
                    JointError::Unsupported
                }) && !(old(self).is_movable() && old(self).admits(v)),
            },
    {
        match self.joint_type {
            JointType::Fixed => {
                return Err(JointError::Unsupported);
            },
            _ => {},
        }
        match self.limits {
            Some(range) => {
                if !range.is_valid(v) {
                    return Err(JointError::OutOfLimit);
                }
            },
            None => {},
        }
        self.angle = v;
        Ok(())
    }

    /// The transform induced by the current value: the identity for a fixed
    /// joint, one rotation about the axis for a rotational joint, one
    /// displacement along the axis for a linear joint.
    pub fn local_transform(&self) -> (r: Isometry)
        ensures
            r@ == self.local_spec(),
    {
        match self.joint_type {
            JointType::Fixed => Isometry::identity(),
            JointType::Rotational { axis } => Isometry::from_motion(Motion::Revolve { axis, angle: self.angle }),
            JointType::Linear { axis } => Isometry::from_motion(Motion::Slide { axis, distance: self.angle }),
        }
    }
}

} // verus!
