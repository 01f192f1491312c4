use vstd::prelude::*;

use crate::errors::JointError;
use crate::joints::{Joint, JointType, Range};
use crate::math::{Isometry, Motion, Scalar, UnitQuaternion, Vector3};

verus! {

/// One rigid body of a mechanism, with the joint that carries it.
#[derive(Clone, Debug, PartialEq, Eq)]
pub struct Link {
    pub name: String,
    pub joint: Joint,
    /// The fixed offset from the parent link's frame.
    pub transform: Isometry,
    /// The world transform written by the last pass over the owning tree.
    pub world_transform_cache: Option<Isometry>,
}

/// The fixed offset that a displacement and a rotation make: the displacement
/// first, where it is not zero, then the rotation, where there is one.
pub open spec fn offset_spec(translation: Vector3, rotation: Option<UnitQuaternion>) -> Seq<Motion> {
    let shift = if translation == (Vector3 { x: 0, y: 0, z: 0 }) {
        Seq::<Motion>::empty()
    } else {
        seq![Motion::Translate(translation)]
    };
    match rotation {
        Some(q) => shift.push(Motion::Rotate(q)),
        None => shift,
    }
}

impl Link {
    /// The transform from the parent link's frame to this link's frame: the
    /// fixed offset, then the motion of the joint.
    pub open spec fn local_spec(&self) -> Seq<Motion> {
        self.transform@ + self.joint.local_spec()
    }

    /// What a link keeps when a joint value or the cache is written.
    pub open spec fn same_body(&self, other: &Link) -> bool {
        &&& self.name == other.name
        &&& self.transform == other.transform
        &&& self.joint.name == other.joint.name
        &&& self.joint.joint_type == other.joint.joint_type
        &&& self.joint.limits == other.joint.limits
    }

    /// What a link keeps when the cache is written: all but the cache.
    pub open spec fn same_but_cache(&self, other: &Link) -> bool {
        &&& self.name == other.name
        &&& self.joint == other.joint
        &&& self.transform == other.transform
    }

    /// Whether the cache holds the transform `pose`.
    pub open spec fn has_cached(&self, pose: Seq<Motion>) -> bool {
        match self.world_transform_cache {
            Some(cached) => cached@ == pose,
            None => false,
        }
    }

    /// A link with the given fixed offset and an empty cache.
    pub fn new(name: &str, joint: Joint, transform: Isometry) -> (r: Self)
        ensures
            r.name@ == name@,
            r.joint == joint,
            r.transform == transform,
            r.world_transform_cache is None,
    {
        Link { name: name.to_owned(), joint, transform, world_transform_cache: None }
    }

    pub fn get_joint_name(&self) -> (r: &str)
        ensures
            r@ == self.joint.name@,
    {
        self.joint.name.as_str()
    }

    /// Whether the joint is not fixed.
    pub fn has_joint_angle(&self) -> (r: bool)
        ensures
            r == self.joint.is_movable(),
    {
        !self.joint.is_fixed()
    }

    pub fn get_joint_angle(&self) -> (r: Option<Scalar>)
        ensures
            r == self.joint.value(),
    {
        self.joint.get_value()
    }

    pub fn get_joint_limits(&self) -> (r: Option<Range>)
        ensures
            r == self.joint.limits,
    {
        self.joint.limits
    }

    /// Hands the value to the joint. The cache is left as it is: it is stale
    /// until the owning tree is passed over again.
    pub fn set_joint_angle(&mut self, angle: Scalar) -> (r: Result<(), JointError>)
        ensures
            final(self).same_body(old(self)),
            final(self).world_transform_cache == old(self).world_transform_cache,
            r is Ok ==> final(self).joint.admits(final(self).joint.angle),
            match r {
                Ok(_) => old(self).joint.is_movable() && old(self).joint.admits(angle)
                    && final(self).joint.value() == Some(angle),
                Err(e) => *final(self) == *old(self) && e == (if old(self).joint.is_movable() {
                    JointError::OutOfLimit
                } else {
                    JointError::Unsupported
                }) && !(old(self).joint.is_movable() && old(self).joint.admits(angle)),
            },
    {
        self.joint.set_value(angle)
    }

    /// The world transform that the last pass over the owning tree left, if
    /// there was one. It is stale once a joint value above it has changed.
    pub fn world_transform(&self) -> (r: Option<&Isometry>)
        ensures
            r == (match self.world_transform_cache {
                Some(cached) => Some(&cached),
                None => None,
            }),
    {
        self.world_transform_cache.as_ref()
    }

    /// The transform from the parent link's frame to this link's frame.
    pub fn calc_transform(&self) -> (r: Isometry)
        ensures
            r@ == self.local_spec(),
    {
        let motion = self.joint.local_transform();
        self.transform.compose(&motion)
    }
}

/// Collects the parts of a link. What is not given keeps its default: an
/// empty name, a fixed joint, no offset.
#[derive(Clone, Debug)]
pub struct LinkBuilder {
    pub name: String,
    pub joint: Joint,
    pub translation: Vector3,
    pub rotation: Option<UnitQuaternion>,
}

impl LinkBuilder {
    pub fn new() -> (r: Self)
        ensures
            r.name@ == Seq::<char>::empty(),
            r.joint.name@ == Seq::<char>::empty(),
            r.joint.joint_type == JointType::Fixed,
            r.joint.limits is None,
            r.translation == (Vector3 { x: 0, y: 0, z: 0 }),
            r.rotation is None,
    {
        LinkBuilder {
            name: String::new(),
            joint: Joint { name: String::new(), joint_type: JointType::Fixed, angle: 0, limits: None },
            translation: Vector3 { x: 0, y: 0, z: 0 },
            rotation: None,
        }
    }

    pub fn name(self, name: &str) -> (r: Self)
        ensures
            r.name@ == name@,
            r.joint == self.joint,
            r.translation == self.translation,
            r.rotation == self.rotation,
    {
        LinkBuilder { name: name.to_owned(), joint: self.joint, translation: self.translation, rotation: self.rotation }
    }

    /// Replaces the joint. A movable joint starts at the value zero.
    pub fn joint(self, name: &str, joint_type: JointType, limits: Option<Range>) -> (r: Self)
        ensures
            r.name == self.name,
            r.joint.name@ == name@,
            r.joint.joint_type == joint_type,
            r.joint.limits == limits,
            r.joint.angle == 0,
            r.translation == self.translation,
            r.rotation == self.rotation,
    {
        LinkBuilder {
            name: self.name,
            joint: Joint { name: name.to_owned(), joint_type, angle: 0, limits },
            translation: self.translation,
            rotation: self.rotation,
        }
    }

    pub fn translation(self, translation: Vector3) -> (r: Self)
        ensures
            r.name == self.name,
            r.joint == self.joint,
            r.translation == translation,
            r.rotation == self.rotation,
    {
        LinkBuilder { name: self.name, joint: self.joint, translation, rotation: self.rotation }
    }

    pub fn rotation(self, rotation: UnitQuaternion) -> (r: Self)
        ensures
            r.name == self.name,
            r.joint == self.joint,
            r.translation == self.translation,
            r.rotation == Some(rotation),
    {
        LinkBuilder { name: self.name, joint: self.joint, translation: self.translation, rotation: Some(rotation) }
    }

    /// Builds the link: its offset is the displacement, then the rotation.
    pub fn finalize(self) -> (r: Link)
        ensures
            r.name == self.name,
            r.joint == self.joint,
            r.transform@ == offset_spec(self.translation, self.rotation),
            r.world_transform_cache is None,
    {
        let mut transform = Isometry::identity();
        let t = self.translation;
        if t.x != 0 || t.y != 0 || t.z != 0 {
            transform = Isometry::from_motion(Motion::Translate(t));
        }
        match self.rotation {
            Some(q) => {
                let turn = Isometry::from_motion(Motion::Rotate(q));
                transform.append(&turn);
            },
            None => {},
        }
        assert(transform@ =~= offset_spec(self.translation, self.rotation));
        Link { name: self.name, joint: self.joint, transform, world_transform_cache: None }
    }
}

} // verus!
