//! The reward of a solution, counted again from its assignments.

use crate::parse_input::{InputData, ProjectView};
use crate::solution::Solution;
use crate::solvers::consistency::earned;
use crate::solvers::greedy::score_project;
use crate::solvers::plan::Assignment;
use vstd::prelude::*;

verus! {

/// The rewards of more assignments come to no less than those of fewer.
pub proof fn lemma_earned_grows(
    projects: Seq<ProjectView>,
    records: Seq<Assignment>,
    fewer: int,
    more: int,
)
    requires
        0 <= fewer <= more <= records.len(),
    ensures
        0 <= earned(projects, records.take(fewer)) <= earned(projects, records.take(more)),
    decreases more,
{
    if more == 0 {
        assert(records.take(0) =~= Seq::<Assignment>::empty());
    } else {
        assert(records.take(more).drop_last() =~= records.take(more - 1));
        if fewer < more {
            lemma_earned_grows(projects, records, fewer, more - 1);
        } else {
            lemma_earned_grows(projects, records, more - 1, more - 1);
        }
    }
}

/// The reward of `solution` on `input`, counted again: each project started
/// pays what it pays at the instant it started. `None` where the solution
/// names a project or a contributor that `input` does not hold, or where the
/// sum is more than the counter holds.
pub fn checked_score(input: &InputData, solution: &Solution) -> (total: Option<u32>)
    ensures
        total is Some <==> solution.fits(input) && earned(input@.projects, solution.assignments())
            <= u32::MAX,
        total matches Some(sum) ==> sum == earned(input@.projects, solution.assignments()),
{
    if !solution.check_fits(input) {
        return None;
    }
    let ghost projects = input@.projects;
    let ghost records = solution.assignments();
    let mut sum: u32 = 0;
    let mut i: usize = 0;
    proof {
        assert(records.take(0) =~= Seq::<Assignment>::empty());
    }
    while i < solution.executed_projects.len()
        invariant
            i <= solution.executed_projects.len(),
            projects == input@.projects,
            records == solution.assignments(),
            solution.fits(input),
            sum == earned(projects, records.take(i as int)),
        decreases solution.executed_projects.len() - i,
    {
        let executed = &solution.executed_projects[i];
        proof {
            assert(records[i as int] == executed@);
            assert(records.take(i + 1).drop_last() =~= records.take(i as int));
            assert(records.take(i + 1).last() == records[i as int]);
        }
        let reward: u32 = score_project(executed.start, &input.projects[executed.project]);
        if reward > u32::MAX - sum {
            proof {
                lemma_earned_grows(projects, records, i + 1, records.len() as int);
                assert(records.take(records.len() as int) =~= records);
            }
            return None;
        }
        sum = sum + reward;
        i = i + 1;
    }
    proof {
        assert(records.take(i as int) =~= records);
    }
    Some(sum)
}

/// The reward of `solution` on `input`, counted again: each project started
/// pays what it pays at the instant it started.
pub fn score(input: &InputData, solution: &Solution) -> (total: u32)
    requires
        solution.fits(input),
        earned(input@.projects, solution.assignments()) <= u32::MAX,
    ensures
        total == earned(input@.projects, solution.assignments()),
{
    checked_score(input, solution).unwrap()
}

} // verus!
