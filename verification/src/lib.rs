//! Forward kinematics of articulated rigid-body mechanisms, with the
//! bookkeeping of a Jacobian inverse-kinematics iteration.
//!
//! A mechanism is a tree of links held in an [`Arena`]. Every rigid transform
//! the library produces is an [`Isometry`]: the ordered product of the
//! elementary motions it is made of, root first. Scalars are integer codes
//! that the library stores and compares and never computes with, so that every
//! result is exact; a numeric layer evaluates the products.
pub mod arena;
pub mod chain;
pub mod errors;
pub mod fk;
pub mod fk_proofs;
pub mod ik;
pub mod joints;
pub(crate) mod link_access;
pub mod link_tree;
pub mod links;
pub mod math;
pub mod node_iter;
pub mod shape;

pub use crate::arena::{Arena, Node};
pub use crate::chain::RcKinematicChain;
pub use crate::errors::{AttachError, IKError, JointError};
pub use crate::ik::{JacobianIKSolver, SolverRun, SolverStep};
pub use crate::joints::{Joint, JointType, Range};
pub use crate::link_tree::RcLinkTree;
pub use crate::links::{Link, LinkBuilder};
pub use crate::math::{Isometry, Motion, Scalar, UnitQuaternion, Vector3};
pub use crate::node_iter::{NodeIter, NodeIterMut};
pub use crate::shape::Shape;
