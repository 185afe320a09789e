//! What stays true of a run's state from round to round, and why.

use crate::parse_input::{level_in, Levels, ProjectView, Role};
use crate::solvers::plan::{
    ascending, attempt, attempt_all, best_candidate, can_fill, capped, commit, horizon,
    is_best_candidate, is_candidate, mentor_level, opening, project_reward, prune, release,
    round, run, staff, staff_from, train, train_crew, Assignment, RunView,
};
use vstd::prelude::*;

verus! {

/// Whether nobody's level in any skill is lower in `later` than in `earlier`.
pub open spec fn no_lower(earlier: Levels, later: Levels) -> bool {
    &&& earlier.len() == later.len()
    &&& forall|a: int, skill: usize|
        0 <= a < earlier.len() ==> level_in(earlier[a], skill) <= #[trigger] level_in(
            later[a],
            skill,
        )
}

/// The instant at which the project of assignment `r` ends.
pub open spec fn end_of(projects: Seq<ProjectView>, r: Assignment) -> int {
    r.start + projects[r.project as int].duration
}

/// The rewards of `records`, each counted at the instant it started, added up.
pub open spec fn earned(projects: Seq<ProjectView>, records: Seq<Assignment>) -> int
    decreases records.len(),
{
    if records.len() == 0 {
        0
    } else {
        earned(projects, records.drop_last()) + project_reward(
            records.last().start as int,
            projects[records.last().project as int],
        )
    }
}

/// The levels of contributors who began at `levels` once the crews of
/// `records` have trained, one assignment after the other.
pub open spec fn levels_after(
    levels: Levels,
    projects: Seq<ProjectView>,
    records: Seq<Assignment>,
) -> Levels
    decreases records.len(),
{
    if records.len() == 0 {
        levels
    } else {
        train_crew(
            levels_after(levels, projects, records.drop_last()),
            projects[records.last().project as int].roles,
            records.last().crew,
        )
    }
}

/// Whether member `k` of `crew` may fill role `k` of `roles` at `levels`, with
/// the members before it as mentors.
pub open spec fn member_qualifies(
    levels: Levels,
    roles: Seq<Role>,
    crew: Seq<usize>,
    k: int,
) -> bool {
    can_fill(
        level_in(levels[crew[k] as int], roles[k].skill_id),
        roles[k].required_skill_level,
        mentor_level(levels, crew.take(k), roles[k].skill_id),
    )
}

/// Whether `crew` may fill the first `crew.len()` of `roles` at `levels`:
/// its members are contributors, no two the same, and each may fill its role.
pub open spec fn crew_qualifies(levels: Levels, roles: Seq<Role>, crew: Seq<usize>) -> bool {
    &&& crew.len() <= roles.len()
    &&& crew.no_duplicates()
    &&& forall|k: int| 0 <= k < crew.len() ==> (#[trigger] crew[k]) < levels.len()
    &&& forall|k: int| 0 <= k < crew.len() ==> #[trigger] member_qualifies(levels, roles, crew, k)
}

/// No sum of rewards is negative.
pub proof fn lemma_earned_not_negative(projects: Seq<ProjectView>, records: Seq<Assignment>)
    ensures
        earned(projects, records) >= 0,
    decreases records.len(),
{
    if records.len() > 0 {
        lemma_earned_not_negative(projects, records.drop_last());
    }
}

/// The chosen candidate is a candidate.
pub proof fn lemma_chosen_is_candidate(
    levels: Levels,
    role: Role,
    idle: Set<usize>,
    taken: Set<usize>,
    mentor: u8,
)
    ensures
        best_candidate(levels, role, idle, taken, mentor) matches Some(a) ==> is_best_candidate(
            levels,
            role,
            idle,
            taken,
            mentor,
            a,
        ) && is_candidate(levels, role, idle, taken, mentor, a),
{
}

/// The crew that staffing completes from a qualified crew of idle
/// contributors is a qualified crew of idle contributors, one per role.
pub proof fn lemma_staff_from_qualifies(
    levels: Levels,
    roles: Seq<Role>,
    idle: Set<usize>,
    begun: Seq<usize>,
)
    requires
        crew_qualifies(levels, roles, begun),
        forall|k: int| 0 <= k < begun.len() ==> idle.contains(#[trigger] begun[k]),
    ensures
        staff_from(levels, roles, idle, begun) matches Some(crew) ==> {
            &&& crew_qualifies(levels, roles, crew)
            &&& crew.len() == roles.len()
            &&& forall|k: int| 0 <= k < crew.len() ==> idle.contains(#[trigger] crew[k])
        },
    decreases roles.len() - begun.len(),
{
    if begun.len() < roles.len() {
        let role = roles[begun.len() as int];
        let mentor = mentor_level(levels, begun, role.skill_id);
        lemma_chosen_is_candidate(levels, role, idle, begun.to_set(), mentor);
        match best_candidate(levels, role, idle, begun.to_set(), mentor) {
            Some(a) => {
                let next = begun.push(a);
                assert(!begun.contains(a));
                assert(next.no_duplicates());
                assert forall|k: int| 0 <= k < next.len() implies #[trigger] member_qualifies(
                    levels,
                    roles,
                    next,
                    k,
                ) by {
                    if k < begun.len() {
                        assert(next.take(k) =~= begun.take(k));
                        assert(member_qualifies(levels, roles, begun, k));
                    } else {
                        assert(next.take(k) =~= begun);
                    }
                }
                lemma_staff_from_qualifies(levels, roles, idle, next);
            },
            None => {},
        }
    }
}

/// Training changes nobody's place and lowers no level.
pub proof fn lemma_train_raises(levels: Levels, a: usize, role: Role)
    requires
        a < levels.len(),
    ensures
        train(levels, a, role).len() == levels.len(),
        forall|b: int, skill: usize|
            0 <= b < levels.len() ==> level_in(levels[b], skill) <= #[trigger] level_in(
                train(levels, a, role)[b],
                skill,
            ),
{
}

/// Training a crew changes nobody's place and lowers no level.
pub proof fn lemma_train_crew_raises(levels: Levels, roles: Seq<Role>, crew: Seq<usize>)
    requires
        crew.len() <= roles.len(),
        forall|k: int| 0 <= k < crew.len() ==> (#[trigger] crew[k]) < levels.len(),
    ensures
        train_crew(levels, roles, crew).len() == levels.len(),
        forall|b: int, skill: usize|
            0 <= b < levels.len() ==> level_in(levels[b], skill) <= #[trigger] level_in(
                train_crew(levels, roles, crew)[b],
                skill,
            ),
    decreases crew.len(),
{
    if crew.len() > 0 {
        let before = train_crew(levels, roles, crew.drop_last());
        lemma_train_crew_raises(levels, roles, crew.drop_last());
        lemma_train_raises(before, crew.last(), roles[crew.len() - 1]);
        assert forall|b: int, skill: usize| 0 <= b < levels.len() implies level_in(
            levels[b],
            skill,
        ) <= #[trigger] level_in(train_crew(levels, roles, crew)[b], skill) by {
            assert(level_in(levels[b], skill) <= level_in(before[b], skill));
            assert(level_in(before[b], skill) <= level_in(
                train(before, crew.last(), roles[crew.len() - 1])[b],
                skill,
            ));
        }
    }
}

/// Whether assignment `i` of `records` names a project of the instance and
/// a crew that may fill its roles at the levels that the assignments before
/// it have left.
pub open spec fn record_sound(
    projects: Seq<ProjectView>,
    levels: Levels,
    records: Seq<Assignment>,
    i: int,
) -> bool {
    let r = records[i];
    &&& r.project < projects.len()
    &&& r.crew.len() == projects[r.project as int].roles.len()
    &&& crew_qualifies(
        levels_after(levels, projects, records.take(i)),
        projects[r.project as int].roles,
        r.crew,
    )
}

/// Whether every assignment of `records` is sound.
pub open spec fn records_sound(
    projects: Seq<ProjectView>,
    levels: Levels,
    records: Seq<Assignment>,
) -> bool {
    forall|i: int| 0 <= i < records.len() ==> #[trigger] record_sound(projects, levels, records, i)
}

/// Whether a contributor's assignments follow one another: of two that
/// share a contributor, the earlier has ended when the later starts.
pub open spec fn in_turn(projects: Seq<ProjectView>, records: Seq<Assignment>) -> bool {
    forall|i: int, j: int, a: usize|
        0 <= i < j < records.len() && #[trigger] records[i].crew.contains(a)
            && #[trigger] records[j].crew.contains(a) ==> end_of(projects, records[i])
            <= records[j].start
}

/// Whether the state knows when contributor `a` is free of assignment `r`:
/// if idle, the project has ended; if not, `a` is at work until it has.
pub open spec fn free_by(v: RunView, projects: Seq<ProjectView>, r: Assignment, a: usize) -> bool {
    if v.idle.contains(a) {
        end_of(projects, r) <= v.time
    } else {
        v.busy.contains_key(a) && end_of(projects, r) <= v.busy[a]
    }
}

/// Whether the state knows when each member of each crew is free.
pub open spec fn booked(v: RunView, projects: Seq<ProjectView>) -> bool {
    forall|i: int, a: usize|
        0 <= i < v.records.len() && #[trigger] v.records[i].crew.contains(a) ==> free_by(
            v,
            projects,
            v.records[i],
            a,
        )
}

/// Whether the started projects are told apart from the pending ones: none
/// is both, none was started twice, none starts in the future.
pub open spec fn started_once(v: RunView) -> bool {
    &&& forall|i: int|
        0 <= i < v.records.len() ==> !v.pending.contains((#[trigger] v.records[i]).project)
            && v.records[i].start <= v.time
    &&& forall|i: int, j: int|
        0 <= i < j < v.records.len() ==> (#[trigger] v.records[i]).project
            != (#[trigger] v.records[j]).project
}

/// What holds of the state of a run on `projects`, for contributors who
/// began at `levels`, at every instant.
pub open spec fn consistent(v: RunView, projects: Seq<ProjectView>, levels: Levels) -> bool {
    &&& v.time <= horizon(projects)
    &&& v.idle_rounds <= v.time
    &&& forall|j: usize| v.pending.contains(j) ==> j < projects.len()
    &&& v.total == capped(earned(projects, v.records))
    &&& started_once(v)
    &&& records_sound(projects, levels, v.records)
    &&& v.levels == levels_after(levels, projects, v.records)
    &&& booked(v, projects)
    &&& in_turn(projects, v.records)
}

/// No clock runs past twice the greatest number a project holds.
pub proof fn lemma_horizon_bound(projects: Seq<ProjectView>)
    ensures
        0 <= horizon(projects) <= 2 * u16::MAX,
    decreases projects.len(),
{
    if projects.len() > 0 {
        lemma_horizon_bound(projects.drop_last());
    }
}

/// From one assignment to a later one no level falls, and nobody changes place.
pub proof fn lemma_levels_after_raises(
    levels: Levels,
    projects: Seq<ProjectView>,
    records: Seq<Assignment>,
    i: int,
    j: int,
)
    requires
        records_sound(projects, levels, records),
        0 <= i <= j <= records.len(),
    ensures
        levels_after(levels, projects, records.take(j)).len() == levels.len(),
        levels_after(levels, projects, records.take(i)).len() == levels.len(),
        forall|b: int, skill: usize|
            0 <= b < levels.len() ==> level_in(
                levels_after(levels, projects, records.take(i))[b],
                skill,
            ) <= #[trigger] level_in(levels_after(levels, projects, records.take(j))[b], skill),
    decreases j,
{
    if j == 0 {
        assert(records.take(0) =~= Seq::<Assignment>::empty());
    } else {
        if i < j {
            lemma_levels_after_raises(levels, projects, records, i, j - 1);
        } else {
            lemma_levels_after_raises(levels, projects, records, j - 1, j - 1);
        }
        let before = levels_after(levels, projects, records.take(j - 1));
        let r = records[j - 1];
        assert(records.take(j).drop_last() =~= records.take(j - 1));
        assert(records.take(j).last() == r);
        assert(record_sound(projects, levels, records, j - 1));
        let roles = projects[r.project as int].roles;
        lemma_train_crew_raises(before, roles, r.crew);
        assert(levels_after(levels, projects, records.take(j)) == train_crew(
            before,
            roles,
            r.crew,
        ));
        if i < j {
            assert forall|b: int, skill: usize| 0 <= b < levels.len() implies level_in(
                levels_after(levels, projects, records.take(i))[b],
                skill,
            ) <= #[trigger] level_in(levels_after(levels, projects, records.take(j))[b], skill) by {
                assert(level_in(levels_after(levels, projects, records.take(i))[b], skill)
                    <= level_in(before[b], skill));
                assert(level_in(before[b], skill) <= level_in(
                    train_crew(before, roles, r.crew)[b],
                    skill,
                ));
            }
        }
    }
}

/// Starting a pending project that the idle contributors can staff keeps the
/// state consistent.
pub proof fn lemma_commit_consistent(
    v: RunView,
    projects: Seq<ProjectView>,
    levels: Levels,
    j: usize,
    crew: Seq<usize>,
)
    requires
        consistent(v, projects, levels),
        v.pending.contains(j),
        staff(v.levels, projects[j as int].roles, v.idle) == Some(crew),
    ensures
        consistent(commit(v, projects, j, crew), projects, levels),
        v.time + projects[j as int].duration <= u32::MAX,
        crew.len() == projects[j as int].roles.len(),
        crew_qualifies(v.levels, projects[j as int].roles, crew),
        forall|k: int| 0 <= k < crew.len() ==> v.idle.contains(#[trigger] crew[k]),
        no_lower(v.levels, commit(v, projects, j, crew).levels),
{
    let w = commit(v, projects, j, crew);
    let project = projects[j as int];
    let roles = project.roles;
    let reward = project_reward(v.time as int, project);
    let r = Assignment { project: j, crew, start: v.time };
    let n = v.records.len() as int;
    lemma_horizon_bound(projects);
    lemma_staff_from_qualifies(v.levels, roles, v.idle, Seq::empty());
    lemma_train_crew_raises(v.levels, roles, crew);
    // the ledger
    lemma_earned_not_negative(projects, v.records);
    assert(w.records.drop_last() =~= v.records);
    assert(w.records.last() == r);
    assert(w.total == capped(earned(projects, w.records)));
    // the records
    assert(w.records.take(n) =~= v.records);
    assert forall|i: int| 0 <= i < w.records.len() implies #[trigger] record_sound(
        projects,
        levels,
        w.records,
        i,
    ) by {
        if i < n {
            assert(w.records.take(i) =~= v.records.take(i));
            assert(record_sound(projects, levels, v.records, i));
        }
    }
    assert(w.levels == levels_after(levels, projects, w.records));
    assert(started_once(w));
    // who is at work until when
    assert forall|i: int, a: usize|
        0 <= i < w.records.len() && #[trigger] w.records[i].crew.contains(a) implies free_by(
        w,
        projects,
        w.records[i],
        a,
    ) by {
        if i < n {
            assert(v.records[i].crew.contains(a));
        }
    }
    assert forall|i: int, k: int, a: usize|
        0 <= i < k < w.records.len() && #[trigger] w.records[i].crew.contains(a)
            && #[trigger] w.records[k].crew.contains(a) implies end_of(projects, w.records[i])
        <= w.records[k].start by {
        if k < n {
            assert(v.records[i].crew.contains(a) && v.records[k].crew.contains(a));
        } else {
            assert(v.records[i].crew.contains(a));
            assert(v.idle.contains(a));
        }
    }
}

/// Trying to start a pending project keeps the state consistent, leaves
/// the clock alone, and takes at most that project from the pending ones.
pub proof fn lemma_attempt_consistent(
    v: RunView,
    projects: Seq<ProjectView>,
    levels: Levels,
    j: usize,
)
    requires
        consistent(v, projects, levels),
        v.pending.contains(j),
    ensures
        consistent(attempt(v, projects, j), projects, levels),
        attempt(v, projects, j).time == v.time,
        attempt(v, projects, j).idle_rounds == v.idle_rounds,
        attempt(v, projects, j).records.len() >= v.records.len(),
        forall|k: usize| attempt(v, projects, j).pending.contains(k) ==> v.pending.contains(k),
        forall|k: usize|
            v.pending.contains(k) && k != j ==> attempt(v, projects, j).pending.contains(k),
        no_lower(v.levels, attempt(v, projects, j).levels),
{
    match staff(v.levels, projects[j as int].roles, v.idle) {
        Some(crew) => {
            lemma_commit_consistent(v, projects, levels, j, crew);
        },
        None => {},
    }
}

/// Trying to start pending projects one after the other keeps the state
/// consistent, leaves the clock alone, and takes none but those projects
/// from the pending ones.
pub proof fn lemma_attempt_all_consistent(
    v: RunView,
    projects: Seq<ProjectView>,
    levels: Levels,
    order: Seq<usize>,
)
    requires
        consistent(v, projects, levels),
        order.no_duplicates(),
        forall|k: int| 0 <= k < order.len() ==> v.pending.contains(#[trigger] order[k]),
    ensures
        consistent(attempt_all(v, projects, order), projects, levels),
        attempt_all(v, projects, order).time == v.time,
        attempt_all(v, projects, order).idle_rounds == v.idle_rounds,
        attempt_all(v, projects, order).records.len() >= v.records.len(),
        forall|k: usize|
            attempt_all(v, projects, order).pending.contains(k) ==> v.pending.contains(k),
        forall|k: usize|
            v.pending.contains(k) && !order.contains(k) ==> attempt_all(
                v,
                projects,
                order,
            ).pending.contains(k),
        no_lower(v.levels, attempt_all(v, projects, order).levels),
    decreases order.len(),
{
    if order.len() > 0 {
        let rest = order.drop_last();
        let last = order.last();
        lemma_attempt_all_consistent(v, projects, levels, rest);
        let u = attempt_all(v, projects, rest);
        assert(!rest.contains(last)) by {
            if rest.contains(last) {
                let i = choose|i: int| 0 <= i < rest.len() && rest[i] == last;
                assert(order[i] == order[order.len() - 1]);
            }
        }
        assert(v.pending.contains(order[order.len() - 1]));
        lemma_attempt_consistent(u, projects, levels, last);
        assert forall|k: usize| v.pending.contains(k) && !order.contains(k) implies attempt(
            u,
            projects,
            last,
        ).pending.contains(k) by {
            assert(order[order.len() - 1] == last);
            if rest.contains(k) {
                let i = choose|i: int| 0 <= i < rest.len() && rest[i] == k;
                assert(order[i] == k);
            }
        }
    }
}

/// The members of a set below a bound, in increasing order, are just those
/// members, each once.
pub proof fn lemma_ascending_members(ids: Set<usize>, bound: nat)
    requires
        bound <= usize::MAX,
    ensures
        forall|k: int|
            0 <= k < ascending(ids, bound).len() ==> ids.contains(
                #[trigger] ascending(ids, bound)[k],
            ) && ascending(ids, bound)[k] < bound,
        forall|i: int, k: int|
            0 <= i < k < ascending(ids, bound).len() ==> ascending(ids, bound)[i] < ascending(
                ids,
                bound,
            )[k],
        forall|x: usize| x < bound && ids.contains(x) ==> ascending(ids, bound).contains(x),
        ascending(ids, bound).no_duplicates(),
    decreases bound,
{
    if bound > 0 {
        let rest = ascending(ids, (bound - 1) as nat);
        lemma_ascending_members(ids, (bound - 1) as nat);
        let all = ascending(ids, bound);
        assert forall|x: usize| x < bound && ids.contains(x) implies all.contains(x) by {
            if x < bound - 1 {
                let i = choose|i: int| 0 <= i < rest.len() && rest[i] == x;
                assert(all[i] == x);
            } else {
                assert(all[all.len() - 1] == x);
            }
        }
    }
}

/// Forgetting the projects that pay no more keeps the state consistent.
pub proof fn lemma_prune_consistent(v: RunView, projects: Seq<ProjectView>, levels: Levels)
    requires
        consistent(v, projects, levels),
    ensures
        consistent(prune(v, projects), projects, levels),
{
}

/// A round short of the horizon keeps the state consistent and moves the
/// clock on by one.
pub proof fn lemma_round_consistent(v: RunView, projects: Seq<ProjectView>, levels: Levels)
    requires
        projects.len() <= usize::MAX,
        consistent(v, projects, levels),
        v.time < horizon(projects),
    ensures
        consistent(round(v, projects), projects, levels),
        round(v, projects).time == v.time + 1,
        no_lower(v.levels, round(v, projects).levels),
{
    let pruned = prune(v, projects);
    let order = ascending(pruned.pending, projects.len());
    let worked = attempt_all(pruned, projects, order);
    let w = round(v, projects);
    lemma_horizon_bound(projects);
    lemma_prune_consistent(v, projects, levels);
    lemma_ascending_members(pruned.pending, projects.len());
    lemma_attempt_all_consistent(pruned, projects, levels, order);
    assert(w.records == worked.records);
    assert(started_once(w));
    assert(booked(w, projects)) by {
        assert forall|i: int, a: usize|
            0 <= i < w.records.len() && #[trigger] w.records[i].crew.contains(a) implies free_by(
            w,
            projects,
            w.records[i],
            a,
        ) by {
            assert(worked.records[i].crew.contains(a));
        }
    }
}

/// Letting the contributors go whose project has ended keeps the state
/// consistent.
pub proof fn lemma_release_consistent(v: RunView, projects: Seq<ProjectView>, levels: Levels)
    requires
        consistent(v, projects, levels),
    ensures
        consistent(release(v), projects, levels),
{
    let w = release(v);
    assert(w.records == v.records);
    assert(started_once(w));
    assert(booked(w, projects)) by {
        assert forall|i: int, a: usize|
            0 <= i < w.records.len() && #[trigger] w.records[i].crew.contains(a) implies free_by(
            w,
            projects,
            w.records[i],
            a,
        ) by {
            assert(v.records[i].crew.contains(a));
        }
    }
}

/// A run from a consistent state ends in a consistent state.
pub proof fn lemma_run_consistent(
    v: RunView,
    projects: Seq<ProjectView>,
    levels: Levels,
    limit: u32,
    latest: u32,
)
    requires
        projects.len() <= usize::MAX,
        consistent(v, projects, levels),
        latest <= horizon(projects),
    ensures
        consistent(run(v, projects, limit, latest), projects, levels),
        no_lower(v.levels, run(v, projects, limit, latest).levels),
    decreases latest - v.time,
{
    if !(v.pending.is_empty() || v.time >= latest) {
        let w = round(v, projects);
        lemma_round_consistent(v, projects, levels);
        if w.idle_rounds <= limit {
            lemma_release_consistent(w, projects, levels);
            lemma_run_consistent(release(w), projects, levels, limit, latest);
        }
    }
}

/// Every run begins in a consistent state.
pub proof fn lemma_opening_consistent(projects: Seq<ProjectView>, levels: Levels)
    ensures
        consistent(opening(projects, levels), projects, levels),
{
    lemma_horizon_bound(projects);
}

} // verus!
