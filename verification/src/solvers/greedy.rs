//! The greedy scheduler.

use crate::parse_input::{
    levels_of, Contributor, InputData, Levels, Project, ProjectView, Role,
};
use crate::solution::{Solution, SolutionView};
use crate::solvers::consistency::{crew_qualifies, earned, lemma_staff_from_qualifies};
use crate::solvers::errors::SolveError;
use crate::solvers::laws::{
    crews_complete, every_start_pays, law_every_start_pays, law_names_known,
    law_no_double_booking, law_total_is_earned, never_double_booked, started_at_most_once,
};
use crate::solvers::plan::{
    ascending, best_candidate, candidate_loss, capped, crew_of, horizon, is_best_candidate,
    is_candidate, is_most_desirable, mentor_level, more_desirable, picks_carry_roles, planned,
    project_cost, project_reward, run, staff, staff_from,
};
use crate::solvers::run_state::RunState;
use std::collections::HashSet;
use vstd::prelude::*;

verus! {

/// What `project` pays when it is started at `current_time`.
pub fn score_project(current_time: u32, project: &Project) -> (reward: u32)
    ensures
        reward == project_reward(current_time as int, project@),
        reward <= project.score,
{
    let end: u64 = current_time as u64 + project.duration as u64;
    let best_before: u64 = project.best_before as u64;
    let score: u64 = project.score as u64;
    if end <= best_before {
        project.score as u32
    } else if end - best_before >= score {
        0
    } else {
        (score - (end - best_before)) as u32
    }
}

/// A candidate that nothing betters is the one chosen.
pub proof fn lemma_best_candidate_is_chosen(
    levels: Levels,
    role: Role,
    idle: Set<usize>,
    taken: Set<usize>,
    mentor: u8,
    a: usize,
)
    requires
        is_best_candidate(levels, role, idle, taken, mentor, a),
    ensures
        best_candidate(levels, role, idle, taken, mentor) == Some(a),
{
    let b = choose|b: usize| is_best_candidate(levels, role, idle, taken, mentor, b);
    assert(is_candidate(levels, role, idle, taken, mentor, a));
    assert(is_candidate(levels, role, idle, taken, mentor, b));
}

/// Where nobody is a candidate, nobody is chosen.
pub proof fn lemma_no_candidate_none_chosen(
    levels: Levels,
    role: Role,
    idle: Set<usize>,
    taken: Set<usize>,
    mentor: u8,
)
    requires
        forall|b: usize| !is_candidate(levels, role, idle, taken, mentor, b),
    ensures
        best_candidate(levels, role, idle, taken, mentor) is None,
{
}

/// Chooses who fills `role`: among the idle contributors not on the blacklist
/// who meet the role, or are one level short of it while `mentor_level` meets
/// it, the one with the least surplus of skill, and of several such the one
/// that comes first. Returns the contributor's position with the role's skill
/// and level, or `None` where nobody may fill the role.
pub fn find_best_contributor(
    contributors: &[Contributor],
    role: &Role,
    available_contributors_ids: &HashSet<usize>,
    contributors_ids_blacklist: &HashSet<usize>,
    mentor_level: u8,
) -> (chosen: Option<(usize, usize, u8)>)
    ensures
        match chosen {
            Some((id, skill, level)) => {
                &&& best_candidate(
                    levels_of(contributors@),
                    *role,
                    available_contributors_ids@,
                    contributors_ids_blacklist@,
                    mentor_level,
                ) == Some(id)
                &&& skill == role.skill_id
                &&& level == role.required_skill_level
            },
            None => best_candidate(
                levels_of(contributors@),
                *role,
                available_contributors_ids@,
                contributors_ids_blacklist@,
                mentor_level,
            ) is None,
        },
        chosen is None <==> forall|b: usize|
            !is_candidate(
                levels_of(contributors@),
                *role,
                available_contributors_ids@,
                contributors_ids_blacklist@,
                mentor_level,
                b,
            ),
{
    let ghost levels = levels_of(contributors@);
    let ghost idle = available_contributors_ids@;
    let ghost taken = contributors_ids_blacklist@;
    let required: u8 = role.required_skill_level;
    let mut best: Option<usize> = None;
    let mut best_loss: u16 = 0;
    let mut id: usize = 0;
    let mut matched: bool = false;
    while id < contributors.len() && !matched
        invariant
            id <= contributors.len(),
            levels == levels_of(contributors@),
            idle == available_contributors_ids@,
            taken == contributors_ids_blacklist@,
            required == role.required_skill_level,
            best is None ==> !matched && forall|b: usize|
                b < id ==> !is_candidate(levels, *role, idle, taken, mentor_level, b),
            best matches Some(a) ==> {
                &&& a < id
                &&& is_candidate(levels, *role, idle, taken, mentor_level, a)
                &&& best_loss == candidate_loss(levels, *role, a)
                &&& forall|b: usize|
                    b < id && #[trigger] is_candidate(levels, *role, idle, taken, mentor_level, b)
                        ==> {
                        ||| candidate_loss(levels, *role, a) < candidate_loss(levels, *role, b)
                        ||| (candidate_loss(levels, *role, a) == candidate_loss(levels, *role, b)
                            && a <= b)
                    }
                &&& matched <==> best_loss == 0
            },
        decreases contributors.len() - id,
    {
        if available_contributors_ids.contains(&id) && !contributors_ids_blacklist.contains(&id) {
            let level: u8 = contributors[id].level(role.skill_id);
            let can_be_mentored: bool = mentor_level >= required && level as u16 + 1
                == required as u16;
            if can_be_mentored || level >= required {
                let loss: u16 = level as u16 + 1 - required as u16;
                if best.is_none() || loss < best_loss {
                    best_loss = loss;
                    best = Some(id);
                }
                if loss == 0 {
                    matched = true;
                }
            }
        }
        id = id + 1;
    }
    match best {
        Some(a) => {
            proof {
                assert forall|b: usize| #[trigger]
                    is_candidate(levels, *role, idle, taken, mentor_level, b) implies {
                    ||| candidate_loss(levels, *role, a) < candidate_loss(levels, *role, b)
                    ||| (candidate_loss(levels, *role, a) == candidate_loss(levels, *role, b) && a
                        <= b)
                } by {
                    if matched && b >= id {
                        assert(candidate_loss(levels, *role, b) >= 0);
                    }
                }
                lemma_best_candidate_is_chosen(levels, *role, idle, taken, mentor_level, a);
            }
            Some((a, role.skill_id, role.required_skill_level))
        },
        None => {
            proof {
                lemma_no_candidate_none_chosen(levels, *role, idle, taken, mentor_level);
            }
            None
        },
    }
}

/// The best level in `skill` among the contributors picked so far.
pub fn best_level_among(
    contributors: &[Contributor],
    picks: &Vec<(usize, usize, u8)>,
    skill: usize,
) -> (best: u8)
    requires
        forall|k: int| 0 <= k < picks.len() ==> (#[trigger] picks[k]).0 < contributors.len(),
    ensures
        best == mentor_level(levels_of(contributors@), crew_of(picks@), skill),
{
    let ghost levels = levels_of(contributors@);
    let ghost crew = crew_of(picks@);
    let mut best: u8 = 0;
    let mut k: usize = 0;
    while k < picks.len()
        invariant
            k <= picks.len(),
            levels == levels_of(contributors@),
            crew == crew_of(picks@),
            forall|i: int| 0 <= i < picks.len() ==> (#[trigger] picks[i]).0 < contributors.len(),
            best == mentor_level(levels, crew.take(k as int), skill),
        decreases picks.len() - k,
    {
        let own: u8 = contributors[picks[k].0].level(skill);
        proof {
            assert(crew.take(k + 1).drop_last() =~= crew.take(k as int));
            assert(crew.take(k + 1).last() == picks[k as int].0);
        }
        if own > best {
            best = own;
        }
        k = k + 1;
    }
    proof {
        assert(crew.take(k as int) =~= crew);
    }
    best
}

/// Staffs `project` from the available contributors: the roles are filled in
/// their declared order, each by [`find_best_contributor`] among those not
/// yet picked for this project, with the crew picked so far as mentors.
/// Returns one pick per role, in role order, or `None` as soon as a role
/// cannot be filled. Nobody is marked busy and nobody's level changes.
pub fn assign_contributors(
    contributors: &[Contributor],
    project: &Project,
    available_contributors_ids: &HashSet<usize>,
) -> (assigned: Option<Vec<(usize, usize, u8)>>)
    ensures
        match assigned {
            Some(picks) => {
                &&& staff(levels_of(contributors@), project.roles@, available_contributors_ids@)
                    == Some(crew_of(picks@))
                &&& picks_carry_roles(picks@, project.roles@)
                &&& crew_qualifies(levels_of(contributors@), project.roles@, crew_of(picks@))
                &&& forall|k: int|
                    0 <= k < picks.len() ==> available_contributors_ids@.contains(
                        #[trigger] crew_of(picks@)[k],
                    )
            },
            None => staff(levels_of(contributors@), project.roles@, available_contributors_ids@)
                is None,
        },
{
    let ghost levels = levels_of(contributors@);
    let ghost idle = available_contributors_ids@;
    let ghost roles = project.roles@;
    let mut unavailable_contributors: HashSet<usize> = HashSet::new();
    let mut assigned_contributors: Vec<(usize, usize, u8)> = Vec::new();
    let mut k: usize = 0;
    proof {
        assert(crew_of(assigned_contributors@) =~= Seq::<usize>::empty());
        assert(Seq::<usize>::empty().to_set() =~= Set::<usize>::empty());
    }
    while k < project.roles.len()
        invariant
            k <= project.roles.len(),
            k == assigned_contributors.len(),
            levels == levels_of(contributors@),
            idle == available_contributors_ids@,
            roles == project.roles@,
            unavailable_contributors@ == crew_of(assigned_contributors@).to_set(),
            forall|i: int|
                0 <= i < k ==> {
                    &&& (#[trigger] assigned_contributors[i]).0 < contributors.len()
                    &&& assigned_contributors[i].1 == roles[i].skill_id
                    &&& assigned_contributors[i].2 == roles[i].required_skill_level
                },
            staff(levels, roles, idle) == staff_from(
                levels,
                roles,
                idle,
                crew_of(assigned_contributors@),
            ),
        decreases project.roles.len() - k,
    {
        let role: &Role = &project.roles[k];
        let ghost crew = crew_of(assigned_contributors@);
        let mentor: u8 = best_level_among(contributors, &assigned_contributors, role.skill_id);
        match find_best_contributor(
            contributors,
            role,
            available_contributors_ids,
            &unavailable_contributors,
            mentor,
        ) {
            Some(pick) => {
                unavailable_contributors.insert(pick.0);
                assigned_contributors.push(pick);
                proof {
                    assert(crew_of(assigned_contributors@) =~= crew.push(pick.0));
                    crew.lemma_push_to_set_commute(pick.0);
                    assert(is_candidate(levels, *role, idle, crew.to_set(), mentor, pick.0));
                }
            },
            None => {
                return None;
            },
        }
        k = k + 1;
    }
    proof {
        lemma_staff_from_qualifies(levels, roles, idle, Seq::empty());
    }
    Some(assigned_contributors)
}

/// The pending projects of `input` in the order in which a round tries them:
/// by identifier, least first.
pub fn sort_projects(input: &InputData, project_ids: &HashSet<usize>) -> (sorted: Vec<usize>)
    ensures
        sorted@ == ascending(project_ids@, input.projects.len() as nat),
{
    let mut sorted: Vec<usize> = Vec::new();
    let mut id: usize = 0;
    while id < input.projects.len()
        invariant
            id <= input.projects.len(),
            sorted@ == ascending(project_ids@, id as nat),
        decreases input.projects.len() - id,
    {
        if project_ids.contains(&id) {
            sorted.push(id);
        }
        id = id + 1;
    }
    sorted
}

/// Worth is carried over: what is worth more than `b` is worth more than
/// anything that is not worth more than `b`.
pub proof fn lemma_more_desirable_carries(
    instant: int,
    a: ProjectView,
    b: ProjectView,
    c: ProjectView,
)
    requires
        more_desirable(instant, a, b),
        !more_desirable(instant, c, b),
    ensures
        more_desirable(instant, a, c),
        !more_desirable(instant, b, a),
{
    let ra = project_reward(instant, a);
    let rb = project_reward(instant, b);
    let rc = project_reward(instant, c);
    let ca = project_cost(a);
    let cb = project_cost(b);
    let cc = project_cost(c);
    assert(ca >= 0 && cb >= 0 && cc >= 0) by (nonlinear_arith)
        requires
            ca == a.duration * a.roles.len(),
            cb == b.duration * b.roles.len(),
            cc == c.duration * c.roles.len(),
    ;
    if rb != 0 && rc != 0 {
        assert(ra * cc > rc * ca) by (nonlinear_arith)
            requires
                ra * cb > rb * ca,
                rc * cb <= rb * cc,
                ra > 0,
                rb > 0,
                rc > 0,
                ca >= 0,
                cb >= 0,
                cc >= 0,
        ;
    }
}

/// Whether `a` is worth more than `b` at `current_time`.
pub fn outranks(current_time: u32, a: &Project, b: &Project) -> (more: bool)
    ensures
        more == more_desirable(current_time as int, a@, b@),
{
    let reward_a: u128 = score_project(current_time, a) as u128;
    let reward_b: u128 = score_project(current_time, b) as u128;
    if reward_a == 0 {
        false
    } else if reward_b == 0 {
        true
    } else {
        assert(a.duration * a.roles.len() <= 0xffff * 0xffff_ffff_ffff_ffff) by (nonlinear_arith)
            requires
                a.duration <= 0xffff,
                a.roles.len() <= 0xffff_ffff_ffff_ffff,
        ;
        assert(b.duration * b.roles.len() <= 0xffff * 0xffff_ffff_ffff_ffff) by (nonlinear_arith)
            requires
                b.duration <= 0xffff,
                b.roles.len() <= 0xffff_ffff_ffff_ffff,
        ;
        let cost_a: u128 = a.duration as u128 * a.roles.len() as u128;
        let cost_b: u128 = b.duration as u128 * b.roles.len() as u128;
        assert(reward_a * cost_b <= 0xffff * (0xffff * 0xffff_ffff_ffff_ffff)) by (nonlinear_arith)
            requires
                reward_a <= 0xffff,
                cost_b <= 0xffff * 0xffff_ffff_ffff_ffff,
        ;
        assert(reward_b * cost_a <= 0xffff * (0xffff * 0xffff_ffff_ffff_ffff)) by (nonlinear_arith)
            requires
                reward_b <= 0xffff,
                cost_a <= 0xffff * 0xffff_ffff_ffff_ffff,
        ;
        reward_a * cost_b > reward_b * cost_a
    }
}

/// The pending project to prefer at `current_time` by reward for cost,
/// the earlier of two that are worth the same; `None` where none of the
/// instance's projects is pending.
pub fn find_best_project(
    input: &InputData,
    current_time: u32,
    available_projects_ids: &HashSet<usize>,
) -> (best: Option<usize>)
    ensures
        match best {
            Some(j) => is_most_desirable(
                input@.projects,
                available_projects_ids@,
                current_time as int,
                j,
            ),
            None => forall|k: usize|
                k < input.projects.len() ==> !available_projects_ids@.contains(k),
        },
{
    let ghost projects = input@.projects;
    let ghost pending = available_projects_ids@;
    let ghost now = current_time as int;
    let mut best: Option<usize> = None;
    let mut id: usize = 0;
    while id < input.projects.len()
        invariant
            id <= input.projects.len(),
            projects == input@.projects,
            pending == available_projects_ids@,
            now == current_time as int,
            best is None ==> forall|k: usize| k < id ==> !pending.contains(k),
            best matches Some(j) ==> {
                &&& j < id
                &&& pending.contains(j)
                &&& forall|k: usize|
                    k < id && #[trigger] pending.contains(k) ==> {
                        &&& !more_desirable(now, projects[k as int], projects[j as int])
                        &&& k < j ==> more_desirable(now, projects[j as int], projects[k as int])
                    }
            },
        decreases input.projects.len() - id,
    {
        if available_projects_ids.contains(&id) {
            match best {
                None => {
                    best = Some(id);
                },
                Some(j) => {
                    if outranks(current_time, &input.projects[id], &input.projects[j]) {
                        proof {
                            assert forall|k: usize|
                                k < id && #[trigger] pending.contains(k) implies more_desirable(
                                now,
                                projects[id as int],
                                projects[k as int],
                            ) && !more_desirable(now, projects[k as int], projects[id as int]) by {
                                lemma_more_desirable_carries(
                                    now,
                                    projects[id as int],
                                    projects[j as int],
                                    projects[k as int],
                                );
                                lemma_more_desirable_carries(
                                    now,
                                    projects[id as int],
                                    projects[k as int],
                                    projects[k as int],
                                );
                            }
                        }
                        best = Some(id);
                    }
                },
            }
        }
        id = id + 1;
    }
    best
}

/// The first instant at which no project of `input` pays any more.
pub fn latest_time(input: &InputData) -> (latest: u32)
    ensures
        latest == horizon(input@.projects),
{
    let ghost projects = input@.projects;
    let mut latest: u32 = 0;
    let mut j: usize = 0;
    proof {
        assert(projects.take(0) =~= Seq::<ProjectView>::empty());
    }
    while j < input.projects.len()
        invariant
            j <= input.projects.len(),
            projects == input@.projects,
            latest == horizon(projects.take(j as int)),
        decreases input.projects.len() - j,
    {
        let own: u32 = input.projects[j].best_before as u32 + input.projects[j].score as u32;
        proof {
            assert(projects.take(j + 1).drop_last() =~= projects.take(j as int));
            assert(projects.take(j + 1).last() == projects[j as int]);
        }
        if own > latest {
            latest = own;
        }
        j = j + 1;
    }
    proof {
        assert(projects.take(j as int) =~= projects);
    }
    latest
}

/// Schedules the projects of `input` greedily, round by round, until no
/// project is pending, no project can pay any more, or more than
/// `max_rounds_without_improvements` rounds in a row have started nothing.
/// Returns the projects started, in the order they were started, with the
/// reward counted while starting them. Every instance is solved: where
/// nothing can be staffed the solution is empty.
pub fn solve(input: &InputData, max_rounds_without_improvements: u32) -> (outcome: Result<
    Solution,
    SolveError,
>)
    ensures
        outcome is Ok,
        outcome matches Ok(solution) ==> {
            let end = planned(
                input@.projects,
                input@.levels(),
                max_rounds_without_improvements,
            );
            &&& solution@ == (SolutionView { assignments: end.records, estimated_score: end.total })
            &&& solution.fits(input)
            &&& solution.estimated_score == capped(
                earned(input@.projects, solution.assignments()),
            )
            &&& never_double_booked(input@.projects, solution.assignments())
            &&& crews_complete(input@.projects, solution.assignments())
            &&& started_at_most_once(solution.assignments())
            &&& every_start_pays(input@.projects, solution.assignments())
        },
{
    let ghost projects = input@.projects;
    let ghost levels = input@.levels();
    let latest: u32 = latest_time(input);
    let mut state: RunState = RunState::new(input);
    let mut stalled: bool = false;
    while !stalled && !state.available_projects_ids.is_empty() && state.current_time < latest
        invariant
            projects == input@.projects,
            latest == horizon(projects),
            state.wf(input),
            planned(projects, levels, max_rounds_without_improvements) == if stalled {
                state@
            } else {
                run(state@, projects, max_rounds_without_improvements, latest)
            },
        decreases latest - state.current_time + if stalled { 0int } else { 1int },
    {
        state.run_round(input);
        if state.rounds_without_improvements > max_rounds_without_improvements {
            stalled = true;
        } else {
            state.free_up(input);
        }
    }
    proof {
        assert(projects.len() == input.projects.len());
        law_names_known(projects, levels, max_rounds_without_improvements);
        law_total_is_earned(projects, levels, max_rounds_without_improvements);
        law_no_double_booking(projects, levels, max_rounds_without_improvements);
        law_every_start_pays(projects, levels, max_rounds_without_improvements);
    }
    Ok(
        Solution {
            executed_projects: state.executed_projects,
            estimated_score: state.estimated_score,
        },
    )
}

} // verus!
