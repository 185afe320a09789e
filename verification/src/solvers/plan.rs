//! The mathematical model of a run: what the scheduler computes, stated over
//! sets, maps and sequences.
//!
//! Contributors and projects are known by their position in the problem
//! instance. The levels of all contributors are a sequence of skill maps; the
//! state of a run is a [`RunView`]; a started project is an [`Assignment`].

use crate::parse_input::{level_in, Levels, ProjectView, Role};
use vstd::prelude::*;

verus! {

/// What a project pays when it is started at `instant`: the full `score` while
/// it ends by `best_before`, one less for each instant it ends late, never
/// less than nothing.
pub open spec fn reward_at(instant: int, duration: int, score: int, best_before: int) -> int {
    let overrun = instant + duration - best_before;
    if overrun <= 0 {
        score
    } else if overrun >= score {
        0
    } else {
        score - overrun
    }
}

/// What `project` pays when it is started at `instant`.
pub open spec fn project_reward(instant: int, project: ProjectView) -> int {
    reward_at(instant, project.duration as int, project.score as int, project.best_before as int)
}

/// The first instant at which none of `projects` pays any more, whenever it
/// is started: the greatest `best_before + score`.
pub open spec fn horizon(projects: Seq<ProjectView>) -> int
    decreases projects.len(),
{
    if projects.len() == 0 {
        0
    } else {
        let rest = horizon(projects.drop_last());
        let own = projects.last().best_before + projects.last().score;
        if own > rest {
            own
        } else {
            rest
        }
    }
}

/// Whether a contributor at `level` may fill a role that asks for `required`:
/// by meeting it, or by being one level short beside a crew member who meets
/// it (`mentor` is the best level the crew so far has in the skill).
pub open spec fn can_fill(level: u8, required: u8, mentor: u8) -> bool {
    level >= required || (level + 1 == required && mentor >= required)
}

/// How far beyond need a contributor at `level` is for a role that asks for
/// `required`: zero for one who is mentored, one for an exact match.
pub open spec fn loss_of(level: u8, required: u8) -> int {
    level + 1 - required
}

/// Whether contributor `a` may fill `role`: idle, not yet on the crew, and
/// skilled enough.
pub open spec fn is_candidate(
    levels: Levels,
    role: Role,
    idle: Set<usize>,
    taken: Set<usize>,
    mentor: u8,
    a: usize,
) -> bool {
    &&& a < levels.len()
    &&& idle.contains(a)
    &&& !taken.contains(a)
    &&& can_fill(level_in(levels[a as int], role.skill_id), role.required_skill_level, mentor)
}

/// The loss of contributor `a` on `role`.
pub open spec fn candidate_loss(levels: Levels, role: Role, a: usize) -> int {
    loss_of(level_in(levels[a as int], role.skill_id), role.required_skill_level)
}

/// Whether `a` is the candidate to choose: none has a smaller loss, and none
/// of equal loss comes before it.
pub open spec fn is_best_candidate(
    levels: Levels,
    role: Role,
    idle: Set<usize>,
    taken: Set<usize>,
    mentor: u8,
    a: usize,
) -> bool {
    &&& is_candidate(levels, role, idle, taken, mentor, a)
    &&& forall|b: usize| #[trigger]
        is_candidate(levels, role, idle, taken, mentor, b) ==> {
            ||| candidate_loss(levels, role, a) < candidate_loss(levels, role, b)
            ||| (candidate_loss(levels, role, a) == candidate_loss(levels, role, b) && a <= b)
        }
}

/// The contributor chosen for `role`, if any may fill it.
pub open spec fn best_candidate(
    levels: Levels,
    role: Role,
    idle: Set<usize>,
    taken: Set<usize>,
    mentor: u8,
) -> Option<usize> {
    if exists|a: usize| is_best_candidate(levels, role, idle, taken, mentor, a) {
        Some(choose|a: usize| is_best_candidate(levels, role, idle, taken, mentor, a))
    } else {
        None
    }
}

/// The best level that the members of `crew` have in `skill`; zero for an
/// empty crew.
pub open spec fn mentor_level(levels: Levels, crew: Seq<usize>, skill: usize) -> u8
    decreases crew.len(),
{
    if crew.len() == 0 {
        0
    } else {
        let rest = mentor_level(levels, crew.drop_last(), skill);
        let own = level_in(levels[crew.last() as int], skill);
        if own > rest {
            own
        } else {
            rest
        }
    }
}

/// The crew that staffing completes from `crew`, which fills the first
/// `crew.len()` of `roles`: each further role takes its best candidate among
/// the idle contributors not yet on the crew, and the first role without a
/// candidate fails the whole crew.
pub open spec fn staff_from(
    levels: Levels,
    roles: Seq<Role>,
    idle: Set<usize>,
    crew: Seq<usize>,
) -> Option<Seq<usize>>
    decreases roles.len() - crew.len(),
{
    if crew.len() >= roles.len() {
        Some(crew)
    } else {
        let role = roles[crew.len() as int];
        match best_candidate(
            levels,
            role,
            idle,
            crew.to_set(),
            mentor_level(levels, crew, role.skill_id),
        ) {
            Some(a) => staff_from(levels, roles, idle, crew.push(a)),
            None => None,
        }
    }
}

/// The crew for `roles`, one contributor per role in role order, or `None`
/// where some role cannot be filled.
pub open spec fn staff(levels: Levels, roles: Seq<Role>, idle: Set<usize>) -> Option<
    Seq<usize>,
> {
    staff_from(levels, roles, idle, Seq::empty())
}

/// The contributors named by the picks that staffing returns: each pick is a
/// contributor with the skill and level of the role it fills.
pub open spec fn crew_of(picks: Seq<(usize, usize, u8)>) -> Seq<usize> {
    Seq::new(picks.len(), |k: int| picks[k].0)
}

/// Whether each pick carries the skill and level of the role it fills.
pub open spec fn picks_carry_roles(picks: Seq<(usize, usize, u8)>, roles: Seq<Role>) -> bool {
    &&& picks.len() == roles.len()
    &&& forall|k: int|
        0 <= k < picks.len() ==> (#[trigger] picks[k]).1 == roles[k].skill_id && picks[k].2
            == roles[k].required_skill_level
}

/// The level of a contributor at `level` who has filled a role that asked
/// for `required`: one more where the role asked for at least the level
/// held, the same where it asked for less. The highest level there is stays
/// as it is.
pub open spec fn grown(level: u8, required: u8) -> u8 {
    if required >= level && level < u8::MAX {
        (level + 1) as u8
    } else {
        level
    }
}

/// The levels after contributor `a` has filled `role`: the level in the
/// role's skill has grown, and nothing else has changed.
pub open spec fn train(levels: Levels, a: usize, role: Role) -> Levels {
    let level = level_in(levels[a as int], role.skill_id);
    if grown(level, role.required_skill_level) != level {
        levels.update(
            a as int,
            levels[a as int].insert(role.skill_id, grown(level, role.required_skill_level)),
        )
    } else {
        levels
    }
}

/// The levels after each member of `crew` has filled its role of `roles`.
pub open spec fn train_crew(levels: Levels, roles: Seq<Role>, crew: Seq<usize>) -> Levels
    decreases crew.len(),
{
    if crew.len() == 0 {
        levels
    } else {
        train(
            train_crew(levels, roles, crew.drop_last()),
            crew.last(),
            roles[crew.len() - 1],
        )
    }
}

/// A started project: which one, who fills its roles in role order, and the
/// instant it started.
pub struct Assignment {
    pub project: usize,
    pub crew: Seq<usize>,
    pub start: u32,
}

/// The state of a run.
pub struct RunView {
    /// The current instant.
    pub time: u32,
    /// The projects not yet started and not yet given up.
    pub pending: Set<usize>,
    /// The contributors free to start a project.
    pub idle: Set<usize>,
    /// For each contributor at work, the instant their project ends.
    pub busy: Map<usize, u32>,
    /// The current levels of all contributors.
    pub levels: Levels,
    /// The projects started so far, in the order they were started.
    pub records: Seq<Assignment>,
    /// The reward collected so far.
    pub total: u32,
    /// How many rounds in a row have started nothing.
    pub idle_rounds: u32,
}

/// The pending projects that still pay when started at `instant`.
pub open spec fn live(projects: Seq<ProjectView>, pending: Set<usize>, instant: u32) -> Set<usize> {
    Set::new(
        |j: usize|
            pending.contains(j) && j < projects.len() && project_reward(
                instant as int,
                projects[j as int],
            ) > 0,
    )
}

/// The members of `ids` below `bound`, in increasing order.
pub open spec fn ascending(ids: Set<usize>, bound: nat) -> Seq<usize>
    decreases bound,
{
    if bound == 0 {
        Seq::empty()
    } else {
        let rest = ascending(ids, (bound - 1) as nat);
        if ids.contains((bound - 1) as usize) {
            rest.push((bound - 1) as usize)
        } else {
            rest
        }
    }
}

/// What starting `project` costs: its duration for each of its roles.
pub open spec fn project_cost(project: ProjectView) -> int {
    project.duration * project.roles.len()
}

/// Whether `a` is worth more than `b` at `instant`, by reward for cost: a
/// project that pays nothing is worth nothing, and of two that pay the one
/// with the greater reward divided by cost is worth more (a cost of zero
/// makes a paying project worth more than any that costs).
pub open spec fn more_desirable(instant: int, a: ProjectView, b: ProjectView) -> bool {
    let reward_a = project_reward(instant, a);
    let reward_b = project_reward(instant, b);
    if reward_a == 0 {
        false
    } else if reward_b == 0 {
        true
    } else {
        reward_a * project_cost(b) > reward_b * project_cost(a)
    }
}

/// Whether `j` is the pending project to prefer at `instant`: no pending
/// project is worth more, and each one before it is worth less.
pub open spec fn is_most_desirable(
    projects: Seq<ProjectView>,
    pending: Set<usize>,
    instant: int,
    j: usize,
) -> bool {
    &&& j < projects.len()
    &&& pending.contains(j)
    &&& forall|k: usize|
        k < projects.len() && #[trigger] pending.contains(k) ==> {
            &&& !more_desirable(instant, projects[k as int], projects[j as int])
            &&& k < j ==> more_desirable(instant, projects[j as int], projects[k as int])
        }
}

/// The busy map once the members of `crew` are at work until `end`.
pub open spec fn engage(busy: Map<usize, u32>, crew: Seq<usize>, end: u32) -> Map<usize, u32> {
    Map::new(
        |a: usize| busy.contains_key(a) || crew.contains(a),
        |a: usize|
            if crew.contains(a) {
                end
            } else {
                busy[a]
            },
    )
}

/// A reward total as the counter holds it: the sum itself, or the greatest
/// number the counter holds where the sum is more.
pub open spec fn capped(sum: int) -> u32 {
    if sum > u32::MAX {
        u32::MAX
    } else {
        sum as u32
    }
}

/// The state after project `j` has been started with `crew` at the current
/// instant: the crew is at work until the project ends and has trained, the
/// project is recorded and paid, and is pending no more.
pub open spec fn commit(
    v: RunView,
    projects: Seq<ProjectView>,
    j: usize,
    crew: Seq<usize>,
) -> RunView {
    let project = projects[j as int];
    let end = (v.time + project.duration) as u32;
    RunView {
        time: v.time,
        pending: v.pending.remove(j),
        idle: v.idle.difference(crew.to_set()),
        busy: engage(v.busy, crew, end),
        levels: train_crew(v.levels, project.roles, crew),
        records: v.records.push(Assignment { project: j, crew, start: v.time }),
        total: capped(v.total + project_reward(v.time as int, project)),
        idle_rounds: v.idle_rounds,
    }
}

/// The state after trying to start project `j`: committed where a crew can be
/// staffed from the idle contributors, unchanged where not.
pub open spec fn attempt(v: RunView, projects: Seq<ProjectView>, j: usize) -> RunView {
    match staff(v.levels, projects[j as int].roles, v.idle) {
        Some(crew) => commit(v, projects, j, crew),
        None => v,
    }
}

/// The state after trying to start each project of `order`, in that order.
pub open spec fn attempt_all(v: RunView, projects: Seq<ProjectView>, order: Seq<usize>) -> RunView
    decreases order.len(),
{
    if order.len() == 0 {
        v
    } else {
        attempt(attempt_all(v, projects, order.drop_last()), projects, order.last())
    }
}

/// The state with the projects that pay no more forgotten.
pub open spec fn prune(v: RunView, projects: Seq<ProjectView>) -> RunView {
    RunView { pending: live(projects, v.pending, v.time), ..v }
}

/// The state after one round: the projects that pay no more are forgotten,
/// the others are tried in identifier order, and the clock moves on by one
/// instant. The clock skips no instant: the earliest instant at which a
/// crew started in this round is free again neither brings the next round
/// forward nor puts it off. A round that started something clears the count
/// of idle rounds, any other adds to it.
pub open spec fn round(v: RunView, projects: Seq<ProjectView>) -> RunView {
    let pruned = prune(v, projects);
    let worked = attempt_all(pruned, projects, ascending(pruned.pending, projects.len()));
    RunView {
        time: (v.time + 1) as u32,
        idle_rounds: if worked.records.len() > v.records.len() {
            0
        } else {
            (v.idle_rounds + 1) as u32
        },
        ..worked
    }
}

/// The contributors whose project has ended by the current instant.
pub open spec fn finished(v: RunView) -> Set<usize> {
    Set::new(|a: usize| a < v.levels.len() && v.busy.contains_key(a) && v.busy[a] <= v.time)
}

/// The state with the contributors whose project has ended idle again.
pub open spec fn release(v: RunView) -> RunView {
    RunView { idle: v.idle.union(finished(v)), busy: v.busy.remove_keys(finished(v)), ..v }
}

/// The state in which a run from `v` ends: rounds follow one another while
/// projects are pending and the clock is short of `latest`, and stop once
/// more than `limit` rounds in a row have started nothing.
pub open spec fn run(v: RunView, projects: Seq<ProjectView>, limit: u32, latest: u32) -> RunView
    decreases latest - v.time,
{
    if v.pending.is_empty() || v.time >= latest {
        v
    } else {
        let w = round(v, projects);
        if w.idle_rounds > limit {
            w
        } else {
            run(release(w), projects, limit, latest)
        }
    }
}

/// The state in which every run begins: instant zero, every project pending,
/// every contributor idle, nothing started.
pub open spec fn opening(projects: Seq<ProjectView>, levels: Levels) -> RunView {
    RunView {
        time: 0,
        pending: Set::new(|j: usize| j < projects.len()),
        idle: Set::new(|a: usize| a < levels.len()),
        busy: Map::empty(),
        levels,
        records: Seq::empty(),
        total: 0,
        idle_rounds: 0,
    }
}

/// The state in which the run on `projects` ends, for contributors who begin
/// at `levels`.
pub open spec fn planned(projects: Seq<ProjectView>, levels: Levels, limit: u32) -> RunView {
    run(opening(projects, levels), projects, limit, horizon(projects) as u32)
}

} // verus!
