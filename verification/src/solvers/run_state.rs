//! The state of a run, and the steps that a round is made of.

use crate::parse_input::{
    contributor_views, levels_of, Contributor, InputData, Levels, Project,
};
use crate::solution::{assignments_of, ExecutedProject};
use crate::solvers::consistency::{
    consistent, lemma_ascending_members, lemma_attempt_all_consistent, lemma_commit_consistent,
    lemma_horizon_bound, lemma_opening_consistent, lemma_prune_consistent,
    lemma_release_consistent, lemma_round_consistent, no_lower,
};
use crate::solvers::greedy::{assign_contributors, score_project, sort_projects};
use crate::solvers::plan::{
    attempt, attempt_all, commit, crew_of, engage, finished, horizon, opening,
    picks_carry_roles, project_reward, prune, release, round, staff, train, train_crew, RunView,
};
use std::collections::HashMap;
use std::collections::HashSet;
use vstd::prelude::*;
use vstd::seq_lib::lemma_seq_contains_after_push;

verus! {

/// The state of a run: the clock, the projects still pending, who is idle
/// and who is at work until when, the contributors at their current levels,
/// what has been started and what it pays.
pub struct RunState {
    pub current_time: u32,
    pub available_projects_ids: HashSet<usize>,
    pub available_contributors_ids: HashSet<usize>,
    pub contributors_ids_to_freeup_time: HashMap<usize, u32>,
    pub current_contributors: Vec<Contributor>,
    pub executed_projects: Vec<ExecutedProject>,
    pub estimated_score: u32,
    pub rounds_without_improvements: u32,
    /// The levels at which the contributors began.
    pub origin: Ghost<Levels>,
}

impl View for RunState {
    type V = RunView;

    open spec fn view(&self) -> RunView {
        RunView {
            time: self.current_time,
            pending: self.available_projects_ids@,
            idle: self.available_contributors_ids@,
            busy: self.contributors_ids_to_freeup_time@,
            levels: levels_of(self.current_contributors@),
            records: assignments_of(self.executed_projects@),
            total: self.estimated_score,
            idle_rounds: self.rounds_without_improvements,
        }
    }
}

/// A set that holds every identifier below `bound`.
pub fn identifiers_below(bound: usize) -> (ids: HashSet<usize>)
    ensures
        ids@ == Set::new(|id: usize| id < bound),
{
    let mut ids: HashSet<usize> = HashSet::new();
    let mut id: usize = 0;
    while id < bound
        invariant
            id <= bound,
            ids@ == Set::new(|other: usize| other < id),
        decreases bound - id,
    {
        ids.insert(id);
        id = id + 1;
    }
    ids
}

/// A copy of the contributors: the same names and the same levels.
pub fn copy_contributors(contributors: &Vec<Contributor>) -> (copy: Vec<Contributor>)
    ensures
        contributor_views(copy@) == contributor_views(contributors@),
{
    let mut copy: Vec<Contributor> = Vec::new();
    let mut a: usize = 0;
    while a < contributors.len()
        invariant
            a <= contributors.len(),
            copy.len() == a,
            forall|b: int|
                0 <= b < a ==> (#[trigger] copy[b]).name@ == contributors[b].name@
                    && copy[b].skills@ == contributors[b].skills@,
        decreases contributors.len() - a,
    {
        copy.push(
            Contributor {
                name: contributors[a].name.clone(),
                skills: contributors[a].skills.clone(),
            },
        );
        a = a + 1;
    }
    proof {
        assert forall|b: int| 0 <= b < copy.len() implies #[trigger] contributor_views(copy@)[b]
            == contributor_views(contributors@)[b] by {
            assert(copy[b].name@ == contributors[b].name@);
        }
    }
    copy
}

/// Two states are the same state where they agree part by part.
pub proof fn lemma_same_view(one: RunView, other: RunView)
    requires
        one.time == other.time,
        one.pending =~= other.pending,
        one.idle =~= other.idle,
        one.busy =~= other.busy,
        one.levels =~= other.levels,
        one.records =~= other.records,
        one.total == other.total,
        one.idle_rounds == other.idle_rounds,
    ensures
        one == other,
{
}

impl RunState {
    /// Whether the state is one that a run on `input` can be in.
    pub open spec fn wf(&self, input: &InputData) -> bool {
        consistent(self@, input@.projects, self.origin@)
    }

    /// The state in which the run on `input` begins.
    pub fn new(input: &InputData) -> (state: Self)
        ensures
            state@ == opening(input@.projects, input@.levels()),
            state.origin@ == input@.levels(),
            state.wf(input),
    {
        let state = RunState {
            current_time: 0,
            available_projects_ids: identifiers_below(input.projects.len()),
            available_contributors_ids: identifiers_below(input.contributors.len()),
            contributors_ids_to_freeup_time: HashMap::new(),
            current_contributors: copy_contributors(&input.contributors),
            executed_projects: Vec::new(),
            estimated_score: 0,
            rounds_without_improvements: 0,
            origin: Ghost(input@.levels()),
        };
        proof {
            assert forall|a: int| 0 <= a < input.contributors.len() implies #[trigger] levels_of(
                state.current_contributors@,
            )[a] == input@.levels()[a] by {
                assert(contributor_views(state.current_contributors@)[a] == contributor_views(
                    input.contributors@,
                )[a]);
            }
            assert(contributor_views(state.current_contributors@).len()
                == input.contributors.len());
            lemma_same_view(state@, opening(input@.projects, input@.levels()));
            lemma_opening_consistent(input@.projects, input@.levels());
        }
        state
    }

    /// Forgets the pending projects that pay nothing when started now; they
    /// never pay again.
    pub fn drop_unrewarding(&mut self, input: &InputData)
        requires
            old(self).wf(input),
        ensures
            final(self)@ == prune(old(self)@, input@.projects),
            final(self).origin == old(self).origin,
            final(self).wf(input),
    {
        let ghost before = self@;
        let ghost projects = input@.projects;
        let mut id: usize = 0;
        while id < input.projects.len()
            invariant
                id <= input.projects.len(),
                projects == input@.projects,
                self.origin == old(self).origin,
                self@ == (RunView { pending: self@.pending, ..before }),
                self@.pending =~= Set::new(
                    |j: usize|
                        before.pending.contains(j) && (j < id ==> project_reward(
                            before.time as int,
                            projects[j as int],
                        ) > 0),
                ),
            decreases input.projects.len() - id,
        {
            if self.available_projects_ids.contains(&id) {
                if score_project(self.current_time, &input.projects[id]) == 0 {
                    self.available_projects_ids.remove(&id);
                }
            }
            id = id + 1;
        }
        proof {
            lemma_same_view(self@, prune(before, projects));
            lemma_prune_consistent(before, projects, self.origin@);
        }
    }

    /// Starts project `project_id` with the crew that `picks` names: each
    /// member is at work until the project ends and gains a level in the
    /// skill of the role filled where the role asks for at least the level
    /// held; the project is recorded, paid at the current instant, and
    /// pending no more. A level and the reward counted stay at the greatest
    /// number they hold where they would pass it.
    pub fn commit(&mut self, input: &InputData, project_id: usize, picks: Vec<(usize, usize, u8)>)
        requires
            old(self).wf(input),
            old(self)@.pending.contains(project_id),
            staff(old(self)@.levels, input@.projects[project_id as int].roles, old(self)@.idle)
                == Some(crew_of(picks@)),
            picks_carry_roles(picks@, input@.projects[project_id as int].roles),
        ensures
            final(self)@ == commit(old(self)@, input@.projects, project_id, crew_of(picks@)),
            final(self).origin == old(self).origin,
            final(self).wf(input),
            no_lower(old(self)@.levels, final(self)@.levels),
    {
        let ghost before = self@;
        let ghost projects = input@.projects;
        let ghost crew = crew_of(picks@);
        let project: &Project = &input.projects[project_id];
        let ghost roles = project@.roles;
        proof {
            lemma_commit_consistent(before, projects, self.origin@, project_id, crew);
        }
        let end: u32 = self.current_time + project.duration as u32;
        let mut members: Vec<usize> = Vec::new();
        let mut k: usize = 0;
        proof {
            assert(crew.take(0) =~= Seq::<usize>::empty());
            assert(before.idle.difference(crew.take(0).to_set()) =~= before.idle);
            assert(engage(before.busy, crew.take(0), end) =~= before.busy);
        }
        while k < picks.len()
            invariant
                k <= picks.len(),
                picks.len() == roles.len(),
                crew == crew_of(picks@),
                picks_carry_roles(picks@, roles),
                forall|i: int| 0 <= i < crew.len() ==> (#[trigger] crew[i]) < before.levels.len(),
                self.origin == old(self).origin,
                self.current_time == before.time,
                self.available_projects_ids@ == before.pending,
                self.estimated_score == before.total,
                self.rounds_without_improvements == before.idle_rounds,
                assignments_of(self.executed_projects@) == before.records,
                self.current_contributors.len() == before.levels.len(),
                self.available_contributors_ids@ =~= before.idle.difference(
                    crew.take(k as int).to_set(),
                ),
                self.contributors_ids_to_freeup_time@ =~= engage(
                    before.busy,
                    crew.take(k as int),
                    end,
                ),
                levels_of(self.current_contributors@) == train_crew(
                    before.levels,
                    roles,
                    crew.take(k as int),
                ),
                members@ == crew.take(k as int),
            decreases picks.len() - k,
        {
            let contributor_id: usize = picks[k].0;
            let skill_id: usize = picks[k].1;
            let required_skill_level: u8 = picks[k].2;
            let ghost levels_before = levels_of(self.current_contributors@);
            proof {
                assert(crew[k as int] == contributor_id);
                assert(crew.take(k + 1) =~= crew.take(k as int).push(contributor_id));
                assert(crew.take(k + 1).drop_last() =~= crew.take(k as int));
                crew.take(k as int).lemma_push_to_set_commute(contributor_id);
                assert forall|x: usize|
                    crew.take(k + 1).contains(x) <==> crew.take(k as int).contains(x) || x
                        == contributor_id by {
                    lemma_seq_contains_after_push(crew.take(k as int), contributor_id, x);
                }
                assert(roles[k as int].skill_id == skill_id);
                assert(roles[k as int].required_skill_level == required_skill_level);
            }
            self.available_contributors_ids.remove(&contributor_id);
            self.contributors_ids_to_freeup_time.insert(contributor_id, end);
            let level: u8 = self.current_contributors[contributor_id].level(skill_id);
            if required_skill_level >= level && level < u8::MAX {
                self.current_contributors[contributor_id].skills.insert(skill_id, level + 1);
            }
            members.push(contributor_id);
            proof {
                assert(levels_of(self.current_contributors@) =~= train(
                    levels_before,
                    contributor_id,
                    roles[k as int],
                ));
            }
            k = k + 1;
        }
        let reward: u32 = score_project(self.current_time, project);
        self.estimated_score = if reward > u32::MAX - self.estimated_score {
            u32::MAX
        } else {
            self.estimated_score + reward
        };
        self.executed_projects.push(
            ExecutedProject {
                project: project_id,
                contributors: members,
                start: self.current_time,
            },
        );
        self.available_projects_ids.remove(&project_id);
        proof {
            assert(crew.take(k as int) =~= crew);
            lemma_same_view(self@, commit(before, projects, project_id, crew));
        }
    }

    /// Tries to start the pending project `project_id` now: staffs it from
    /// the idle contributors and commits it where every role is filled.
    /// Where some role cannot be filled nothing changes. Returns whether the
    /// project was started.
    pub fn try_start(&mut self, input: &InputData, project_id: usize) -> (started: bool)
        requires
            old(self).wf(input),
            old(self)@.pending.contains(project_id),
        ensures
            final(self)@ == attempt(old(self)@, input@.projects, project_id),
            final(self).origin == old(self).origin,
            final(self).wf(input),
            started == (final(self)@.records.len() > old(self)@.records.len()),
            !started ==> final(self)@ == old(self)@,
            no_lower(old(self)@.levels, final(self)@.levels),
    {
        let project: &Project = &input.projects[project_id];
        match assign_contributors(
            self.current_contributors.as_slice(),
            project,
            &self.available_contributors_ids,
        ) {
            Some(picks) => {
                self.commit(input, project_id, picks);
                true
            },
            None => false,
        }
    }

    /// Plays one round: forgets the projects that pay no more, tries the
    /// pending ones in identifier order, and moves the clock on by one
    /// instant, whenever the crews started in this round are free again. The
    /// count of rounds without a start is cleared where something started
    /// and raised by one where nothing did.
    pub fn run_round(&mut self, input: &InputData)
        requires
            old(self).wf(input),
            old(self)@.time < horizon(input@.projects),
        ensures
            final(self)@ == round(old(self)@, input@.projects),
            final(self).origin == old(self).origin,
            final(self).wf(input),
            no_lower(old(self)@.levels, final(self)@.levels),
    {
        let ghost before = self@;
        let ghost projects = input@.projects;
        self.drop_unrewarding(input);
        let ghost pruned = self@;
        let sorted_projects: Vec<usize> = sort_projects(input, &self.available_projects_ids);
        let ghost order = sorted_projects@;
        let mut assigned_projects: usize = 0;
        let mut turn: usize = 0;
        proof {
            lemma_ascending_members(pruned.pending, projects.len());
            assert(order.take(0) =~= Seq::<usize>::empty());
        }
        while turn < sorted_projects.len()
            invariant
                turn <= sorted_projects.len(),
                projects == input@.projects,
                order == sorted_projects@,
                order.no_duplicates(),
                forall|k: int|
                    0 <= k < order.len() ==> pruned.pending.contains(#[trigger] order[k]),
                self.wf(input),
                consistent(pruned, projects, self.origin@),
                self.origin == old(self).origin,
                self@ == attempt_all(pruned, projects, order.take(turn as int)),
                assigned_projects <= turn,
                (assigned_projects > 0) == (self@.records.len() > pruned.records.len()),
            decreases sorted_projects.len() - turn,
        {
            let project_id: usize = sorted_projects[turn];
            proof {
                let done = order.take(turn as int);
                assert(order.take(turn + 1).drop_last() =~= done);
                assert(order.take(turn + 1).last() == project_id);
                assert(done.no_duplicates());
                assert(!done.contains(project_id)) by {
                    if done.contains(project_id) {
                        let i = choose|i: int| 0 <= i < done.len() && done[i] == project_id;
                        assert(order[i] == order[turn as int]);
                    }
                }
                assert forall|k: int| 0 <= k < done.len() implies pruned.pending.contains(
                    #[trigger] done[k],
                ) by {
                    assert(done[k] == order[k]);
                }
                lemma_attempt_all_consistent(pruned, projects, self.origin@, done);
            }
            if self.try_start(input, project_id) {
                assigned_projects = assigned_projects + 1;
            }
            turn = turn + 1;
        }
        proof {
            assert(order.take(turn as int) =~= order);
            lemma_attempt_all_consistent(pruned, projects, self.origin@, order);
            lemma_horizon_bound(projects);
            lemma_round_consistent(before, projects, self.origin@);
        }
        self.current_time = self.current_time + 1;
        if assigned_projects > 0 {
            self.rounds_without_improvements = 0;
        } else {
            self.rounds_without_improvements = self.rounds_without_improvements + 1;
        }
        proof {
            lemma_same_view(self@, round(before, projects));
        }
    }

    /// Lets the contributors go whose project has ended by now: they are
    /// idle again.
    pub fn free_up(&mut self, input: &InputData)
        requires
            old(self).wf(input),
        ensures
            final(self)@ == release(old(self)@),
            final(self).origin == old(self).origin,
            final(self).wf(input),
    {
        let ghost before = self@;
        let mut id: usize = 0;
        while id < self.current_contributors.len()
            invariant
                id <= self.current_contributors.len(),
                self.origin == old(self).origin,
                self@ == (RunView { idle: self@.idle, busy: self@.busy, ..before }),
                self@.idle =~= before.idle.union(
                    Set::new(|a: usize| a < id && finished(before).contains(a)),
                ),
                self@.busy =~= before.busy.remove_keys(
                    Set::new(|a: usize| a < id && finished(before).contains(a)),
                ),
            decreases self.current_contributors.len() - id,
        {
            let due: bool = match self.contributors_ids_to_freeup_time.get(&id) {
                Some(end) => *end <= self.current_time,
                None => false,
            };
            if due {
                self.contributors_ids_to_freeup_time.remove(&id);
                self.available_contributors_ids.insert(id);
            }
            id = id + 1;
        }
        proof {
            lemma_same_view(self@, release(before));
            lemma_release_consistent(before, input@.projects, self.origin@);
        }
    }
}

} // verus!
