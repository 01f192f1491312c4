use vstd::prelude::*;

use crate::chain::RcKinematicChain;
use crate::errors::{IKError, JointError};
use crate::fk::{assign_outcome, assign_result, first_refused, joint_limits_spec, movable_ids};
use crate::fk_proofs::lemma_movable_ids;
use crate::joints::Range;
use crate::link_tree::RcLinkTree;
use crate::links::Link;
use crate::math::Scalar;

verus! {

/// What an inverse-kinematics iteration does next, once the errors of the
/// current pose are measured.
#[derive(Clone, Copy, Debug, PartialEq, Eq, Structural)]
pub enum SolverStep {
    /// Both errors are within their tolerances: the solve has succeeded.
    Converged,
    /// Update the joint values and measure again.
    Iterate,
    /// The iteration budget is spent: the solve has failed.
    GiveUp,
}

/// The settings of the Jacobian inverse-kinematics iteration, and the
/// decisions of the iteration that do not need arithmetic.
///
/// The numeric layer measures the pose error, builds the Jacobian by
/// perturbing each joint value by `jacobian_move_epsilon`, and solves for an
/// update. This type says when the iteration stops and how an update is
/// stored.
#[derive(Clone, Copy, Debug, PartialEq, Eq, Structural)]
pub struct JacobianIKSolver {
    /// The step by which a joint value is perturbed for the derivative.
    pub jacobian_move_epsilon: Scalar,
    /// The largest position error that counts as reached.
    pub allowable_target_distance: Scalar,
    /// The largest orientation error that counts as reached.
    pub allowable_target_angle: Scalar,
    /// The number of updates after which the solve gives up.
    pub num_max_try: usize,
}

/// How far an inverse-kinematics iteration has come: the number of updates
/// it has made.
#[derive(Clone, Copy, Debug, PartialEq, Eq, Structural)]
pub struct SolverRun {
    pub tries: usize,
}

/// The limits at position `k`; none past the end of `limits`.
pub open spec fn limits_at(limits: Seq<Option<Range>>, k: int) -> Option<Range> {
    if 0 <= k < limits.len() {
        limits[k]
    } else {
        None
    }
}

/// Each value moved into the limits at the same position, where there are
/// limits and the value lies outside.
pub open spec fn clamped(limits: Seq<Option<Range>>, values: Seq<Scalar>) -> Seq<Scalar> {
    Seq::new(
        values.len(),
        |k: int|
            match limits_at(limits, k) {
                Some(range) => range.clamp_spec(values[k]),
                None => values[k],
            },
    )
}

/// No range is empty.
pub open spec fn limits_proper(limits: Seq<Option<Range>>) -> bool {
    forall|k: int|
        0 <= k < limits.len() ==> match #[trigger] limits[k] {
            Some(range) => range.min <= range.max,
            None => true,
        }
}

/// Values that their joints all admit are all stored.
pub proof fn lemma_admitted_values_are_stored(links: Seq<Link>, movable: Seq<usize>, values: Seq<Scalar>, k: int)
    requires
        0 <= k <= movable.len(),
        values.len() == movable.len(),
        forall|j: int| 0 <= j < movable.len() ==> links[(#[trigger] movable[j]) as int].joint.admits(values[j]),
    ensures
        first_refused(links, movable, values, k) == movable.len(),
    decreases movable.len() - k,
{
    if k < movable.len() {
        assert(links[movable[k] as int].joint.admits(values[k]));
        lemma_admitted_values_are_stored(links, movable, values, k + 1);
    }
}

impl JacobianIKSolver {
    pub fn new(
        jacobian_move_epsilon: Scalar,
        allowable_target_distance: Scalar,
        allowable_target_angle: Scalar,
        num_max_try: usize,
    ) -> (r: Self)
        ensures
            r == (JacobianIKSolver {
                jacobian_move_epsilon,
                allowable_target_distance,
                allowable_target_angle,
                num_max_try,
            }),
    {
        JacobianIKSolver { jacobian_move_epsilon, allowable_target_distance, allowable_target_angle, num_max_try }
    }

    /// Whether both errors are within their tolerances.
    pub open spec fn within_tolerance(&self, distance: Scalar, angle: Scalar) -> bool {
        distance <= self.allowable_target_distance && angle <= self.allowable_target_angle
    }

    /// What the iteration does after `tries` updates, with the position
    /// error `distance` and the orientation error `angle`.
    pub open spec fn step_spec(&self, tries: usize, distance: Scalar, angle: Scalar) -> SolverStep {
        if self.within_tolerance(distance, angle) {
            SolverStep::Converged
        } else if tries >= self.num_max_try {
            SolverStep::GiveUp
        } else {
            SolverStep::Iterate
        }
    }

    /// Whether the pose with the position error `distance` and the
    /// orientation error `angle` counts as reached.
    pub fn is_converged(&self, distance: Scalar, angle: Scalar) -> (r: bool)
        ensures
            r == self.within_tolerance(distance, angle),
    {
        distance <= self.allowable_target_distance && angle <= self.allowable_target_angle
    }

    /// Decides the next step of the iteration after `tries` updates.
    pub fn next_step(&self, tries: usize, distance: Scalar, angle: Scalar) -> (r: SolverStep)
        ensures
            r == self.step_spec(tries, distance, angle),
    {
        if self.is_converged(distance, angle) {
            SolverStep::Converged
        } else if tries >= self.num_max_try {
            SolverStep::GiveUp
        } else {
            SolverStep::Iterate
        }
    }

    /// An iteration that has made no update yet.
    pub fn begin(&self) -> (r: SolverRun)
        ensures
            r.tries == 0,
    {
        SolverRun { tries: 0 }
    }

    /// Decides the next step of the iteration `run` from the errors of the
    /// current pose, and counts the update where the step is to make one.
    /// A count that starts at zero never passes `num_max_try`.
    pub fn advance(&self, run: &mut SolverRun, distance: Scalar, angle: Scalar) -> (r: SolverStep)
        ensures
            r == self.step_spec(old(run).tries, distance, angle),
            final(run).tries == (if r == SolverStep::Iterate {
                old(run).tries + 1
            } else {
                old(run).tries as int
            }),
            old(run).tries <= self.num_max_try ==> final(run).tries <= self.num_max_try,
    {
        let step = self.next_step(run.tries, distance, angle);
        match step {
            SolverStep::Iterate => {
                run.tries = run.tries + 1;
            },
            _ => {},
        }
        step
    }

    /// What the solve answers when the iteration ends with `step`; `None`
    /// while it goes on.
    pub fn outcome(step: SolverStep) -> (r: Option<Result<(), IKError>>)
        ensures
            r == (match step {
                SolverStep::Converged => Some(Ok::<(), IKError>(())),
                SolverStep::GiveUp => Some(Err::<(), IKError>(IKError::NotConverged)),
                SolverStep::Iterate => None,
            }),
    {
        match step {
            SolverStep::Converged => Some(Ok(())),
            SolverStep::GiveUp => Some(Err(IKError::NotConverged)),
            SolverStep::Iterate => None,
        }
    }

    /// Moves each value into the limits at the same position.
    pub fn clamp_to_limits(limits: &Vec<Option<Range>>, values: &[Scalar]) -> (r: Vec<Scalar>)
        ensures
            r@ == clamped(limits@, values@),
    {
        let mut out: Vec<Scalar> = Vec::new();
        let mut k: usize = 0;
        while k < values.len()
            invariant
                k <= values@.len(),
                out@ == clamped(limits@, values@).take(k as int),
            decreases values@.len() - k,
        {
            let bound = if k < limits.len() {
                limits[k]
            } else {
                None
            };
            let v = match bound {
                Some(range) => range.clamp(values[k]),
                None => values[k],
            };
            out.push(v);
            assert(out@ =~= clamped(limits@, values@).take(k + 1));
            k += 1;
        }
        assert(out@ =~= clamped(limits@, values@));
        out
    }

    /// Stores an update of the joint values of `chain`: each proposed value
    /// is first moved into the limits of its joint, so that limits do not end
    /// the solve.
    ///
    /// Where the number of values is not the number of movable joints,
    /// nothing is stored and the answer is `SizeMisMatch`. Where no range is
    /// empty, every value is stored.
    pub fn apply_update(chain: &RcKinematicChain, tree: &mut RcLinkTree, proposed: &[Scalar]) -> (r: Result<
        (),
        IKError,
    >)
        requires
            chain.valid_for(old(tree)),
        ensures
            final(tree).shape() == old(tree).shape(),
            final(tree).root() == old(tree).root(),
            final(tree).order() == old(tree).order(),
            final(tree).name_view() == old(tree).name_view(),
            final(tree).links().len() == old(tree).links().len(),
            old(tree).wf() ==> final(tree).wf(),
            chain.valid_for(final(tree)),
            proposed@.len() != chain.dof_spec(old(tree).links()) ==> r == Err::<(), IKError>(
                IKError::Joint(JointError::SizeMisMatch),
            ) && final(tree).links() == old(tree).links(),
            proposed@.len() == chain.dof_spec(old(tree).links()) ==> {
                let stored = clamped(joint_limits_spec(old(tree).links(), chain.links@), proposed@);
                &&& final(tree).links() == assign_result(old(tree).links(), chain.links@, stored)
                &&& r == (match assign_outcome(old(tree).links(), chain.links@, stored) {
                    Ok(_) => Ok::<(), IKError>(()),
                    Err(e) => Err::<(), IKError>(IKError::Joint(e)),
                })
                &&& limits_proper(joint_limits_spec(old(tree).links(), chain.links@)) ==> r is Ok
            },
    {
        let limits = chain.get_joint_limits(tree);
        if limits.len() != proposed.len() {
            return Err(IKError::Joint(JointError::SizeMisMatch));
        }
        let stored = JacobianIKSolver::clamp_to_limits(&limits, proposed);
        proof {
            let links = tree.links();
            let movable = movable_ids(links, chain.links@);
            lemma_movable_ids(links, chain.links@);
            if limits_proper(limits@) {
                assert forall|j: int| 0 <= j < movable.len() implies links[(#[trigger] movable[j]) as int].joint.admits(
                    stored@[j],
                ) by {
                    assert(limits@[j] == links[movable[j] as int].joint.limits);
                }
                lemma_admitted_values_are_stored(links, movable, stored@, 0);
            }
        }
        match chain.set_joint_angles(tree, stored.as_slice()) {
            Ok(_) => Ok(()),
            Err(e) => Err(IKError::Joint(e)),
        }
    }
}

} // verus!
