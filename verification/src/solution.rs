//! What a solve returns: the projects started, each with its crew, and the
//! reward they collect.

use crate::parse_input::{ContributorView, InputData, InputView};
use crate::solvers::plan::Assignment;
use crate::text::{append_decimal, decimal};
use vstd::prelude::*;
use vstd::string::*;

verus! {

/// A started project: its position in the instance, the positions of the
/// contributors who fill its roles, in role order, and the instant it started.
#[derive(Debug)]
pub struct ExecutedProject {
    pub project: usize,
    pub contributors: Vec<usize>,
    pub start: u32,
}

impl View for ExecutedProject {
    type V = Assignment;

    open spec fn view(&self) -> Assignment {
        Assignment { project: self.project, crew: self.contributors@, start: self.start }
    }
}

/// The assignments that a vector of started projects stands for.
pub open spec fn assignments_of(executed: Seq<ExecutedProject>) -> Seq<Assignment> {
    Seq::new(executed.len(), |i: int| executed[i]@)
}

/// Whether every assignment of `records` names a project of the instance
/// and contributors of the instance.
pub open spec fn names_known(
    projects: nat,
    contributors: nat,
    records: Seq<Assignment>,
) -> bool {
    forall|i: int|
        0 <= i < records.len() ==> {
            &&& (#[trigger] records[i]).project < projects
            &&& forall|k: int|
                0 <= k < records[i].crew.len() ==> (#[trigger] records[i].crew[k]) < contributors
        }
}

/// The names of the members of `crew`, in order, with one space between
/// neighbours.
pub open spec fn crew_line(contributors: Seq<ContributorView>, crew: Seq<usize>) -> Seq<char>
    decreases crew.len(),
{
    if crew.len() == 0 {
        Seq::empty()
    } else if crew.len() == 1 {
        contributors[crew[0] as int].name
    } else {
        crew_line(contributors, crew.drop_last()) + seq![' ']
            + contributors[crew.last() as int].name
    }
}

/// Two lines for each assignment: the project's name, then its crew.
pub open spec fn assignment_lines(input: InputView, records: Seq<Assignment>) -> Seq<char>
    decreases records.len(),
{
    if records.len() == 0 {
        Seq::empty()
    } else {
        assignment_lines(input, records.drop_last())
            + input.projects[records.last().project as int].name + seq!['\n'] + crew_line(
            input.contributors,
            records.last().crew,
        ) + seq!['\n']
    }
}

/// The text of a solution: a line with the number of projects started, then
/// two lines for each of them, in the order they were started.
pub open spec fn solution_text(input: InputView, records: Seq<Assignment>) -> Seq<char> {
    decimal(records.len()) + seq!['\n'] + assignment_lines(input, records)
}

/// The outcome of a solve: the projects started, in the order they were
/// started, and the reward counted while starting them.
#[derive(Debug)]
pub struct Solution {
    pub executed_projects: Vec<ExecutedProject>,
    pub estimated_score: u32,
}

/// A solution as the model sees it: the assignments and the reward counted.
pub struct SolutionView {
    pub assignments: Seq<Assignment>,
    pub estimated_score: u32,
}

impl View for Solution {
    type V = SolutionView;

    open spec fn view(&self) -> SolutionView {
        SolutionView {
            assignments: assignments_of(self.executed_projects@),
            estimated_score: self.estimated_score,
        }
    }
}

impl Solution {
    /// The assignments of the solution, in the order they were made.
    pub open spec fn assignments(&self) -> Seq<Assignment> {
        assignments_of(self.executed_projects@)
    }

    /// Whether the solution speaks of projects and contributors of `input`.
    pub open spec fn fits(&self, input: &InputData) -> bool {
        names_known(
            input.projects.len() as nat,
            input.contributors.len() as nat,
            self.assignments(),
        )
    }

    /// Whether the solution speaks of projects and contributors of `input`.
    pub fn check_fits(&self, input: &InputData) -> (ok: bool)
        ensures
            ok == self.fits(input),
    {
        let mut i: usize = 0;
        while i < self.executed_projects.len()
            invariant
                i <= self.executed_projects.len(),
                names_known(
                    input.projects.len() as nat,
                    input.contributors.len() as nat,
                    self.assignments().take(i as int),
                ),
            decreases self.executed_projects.len() - i,
        {
            let executed = &self.executed_projects[i];
            if executed.project >= input.projects.len() {
                assert(self.assignments()[i as int].project >= input.projects.len());
                return false;
            }
            let mut k: usize = 0;
            while k < executed.contributors.len()
                invariant
                    k <= executed.contributors.len(),
                    i < self.executed_projects.len(),
                    executed == &self.executed_projects[i as int],
                    forall|m: int|
                        0 <= m < k ==> (#[trigger] executed.contributors[m])
                            < input.contributors.len(),
                decreases executed.contributors.len() - k,
            {
                if executed.contributors[k] >= input.contributors.len() {
                    assert(self.assignments()[i as int].crew[k as int] >= input.contributors.len());
                    return false;
                }
                k = k + 1;
            }
            proof {
                let next = self.assignments().take(i + 1);
                assert forall|j: int| 0 <= j < next.len() implies {
                    &&& (#[trigger] next[j]).project < input.projects.len()
                    &&& forall|m: int|
                        0 <= m < next[j].crew.len() ==> (#[trigger] next[j].crew[m])
                            < input.contributors.len()
                } by {
                    if j < i {
                        assert(next[j] == self.assignments().take(i as int)[j]);
                    }
                }
            }
            i = i + 1;
        }
        assert(self.assignments().take(i as int) =~= self.assignments());
        true
    }

    /// The solution as text: the number of projects started on a line of its
    /// own, then for each, in the order they were started, a line with the
    /// project's name and a line with the names of its crew, in role order,
    /// one space between them.
    pub fn to_text(&self, input: &InputData) -> (text: String)
        requires
            self.fits(input),
        ensures
            text@ == solution_text(input@, self.assignments()),
    {
        let ghost records = self.assignments();
        let mut text: String = String::new();
        append_decimal(&mut text, self.executed_projects.len());
        text.append("\n");
        proof {
            reveal_strlit("\n");
            reveal_strlit(" ");
            assert("\n"@ =~= seq!['\n']);
            assert(" "@ =~= seq![' ']);
            assert(records.take(0) =~= Seq::<Assignment>::empty());
            assert(text@ =~= decimal(records.len()) + seq!['\n'] + assignment_lines(
                input@,
                records.take(0),
            ));
        }
        let mut i: usize = 0;
        while i < self.executed_projects.len()
            invariant
                i <= self.executed_projects.len(),
                records == self.assignments(),
                self.fits(input),
                "\n"@ == seq!['\n'],
                " "@ == seq![' '],
                text@ == decimal(records.len()) + seq!['\n'] + assignment_lines(
                    input@,
                    records.take(i as int),
                ),
            decreases self.executed_projects.len() - i,
        {
            let executed = &self.executed_projects[i];
            let ghost crew = executed.contributors@;
            let ghost head = text@;
            proof {
                assert(records[i as int] == executed@);
                assert forall|m: int| 0 <= m < crew.len() implies (#[trigger] crew[m])
                    < input.contributors.len() by {
                    assert(records[i as int].crew[m] == crew[m]);
                }
                assert(records.take(i + 1).drop_last() =~= records.take(i as int));
                assert(records.take(i + 1).last() == records[i as int]);
            }
            text.append(input.projects[executed.project].name.as_str());
            text.append("\n");
            let ghost stem = text@;
            let mut k: usize = 0;
            proof {
                assert(crew.take(0) =~= Seq::<usize>::empty());
                assert(text@ =~= stem + crew_line(input@.contributors, crew.take(0)));
            }
            while k < executed.contributors.len()
                invariant
                    k <= executed.contributors.len(),
                    crew == executed.contributors@,
                    forall|m: int|
                        0 <= m < crew.len() ==> (#[trigger] crew[m]) < input.contributors.len(),
                    "\n"@ == seq!['\n'],
                    " "@ == seq![' '],
                    text@ == stem + crew_line(input@.contributors, crew.take(k as int)),
                decreases executed.contributors.len() - k,
            {
                proof {
                    assert(crew.take(k + 1).drop_last() =~= crew.take(k as int));
                    assert(crew.take(k + 1).last() == crew[k as int]);
                    assert(crew.take(k + 1)[0] == crew[0]);
                }
                if k > 0 {
                    text.append(" ");
                }
                text.append(input.contributors[executed.contributors[k]].name.as_str());
                proof {
                    assert(text@ =~= stem + crew_line(input@.contributors, crew.take(k + 1)));
                }
                k = k + 1;
            }
            text.append("\n");
            proof {
                assert(crew.take(k as int) =~= crew);
                assert(text@ =~= decimal(records.len()) + seq!['\n'] + assignment_lines(
                    input@,
                    records.take(i + 1),
                ));
            }
            i = i + 1;
        }
        proof {
            assert(records.take(i as int) =~= records);
        }
        text
    }
}

} // verus!
