use vstd::prelude::*;

verus! {

/// Why a joint value, or a vector of joint values, was refused.
#[derive(Clone, Copy, Debug, PartialEq, Eq, Structural)]
pub enum JointError {
    /// The value lies outside the joint's declared limits.
    OutOfLimit,
    /// The number of values differs from the number of movable joints.
    SizeMisMatch,
    /// The joint is fixed and holds no value.
    Unsupported,
}

/// Why two nodes were not linked.
#[derive(Clone, Copy, Debug, PartialEq, Eq, Structural)]
pub enum AttachError {
    /// One of the two indices names no node.
    NoSuchNode,
    /// The child already has a parent.
    AlreadyAttached,
    /// The child is the parent itself or one of its ancestors.
    Cycle,
}

/// Why an inverse-kinematics solve ended without an answer.
#[derive(Clone, Copy, Debug, PartialEq, Eq, Structural)]
pub enum IKError {
    /// The iteration budget ran out before both tolerances were met.
    NotConverged,
    /// The chain refused a vector of joint values.
    Joint(JointError),
    /// The linear solve of one iteration gave nothing usable.
    SolverError,
}

} // verus!
