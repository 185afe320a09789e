//! What holds of every run, whatever the instance.
//!
//! Each law is stated of the assignments of a run, first for every
//! consistent state and then for the state in which the run ends.

use crate::parse_input::{level_in, Levels, ProjectView, Role};
use crate::solution::names_known;
use crate::solvers::consistency::{
    consistent, earned, end_of, lemma_ascending_members, lemma_horizon_bound,
    lemma_levels_after_raises, lemma_opening_consistent, lemma_run_consistent,
    lemma_staff_from_qualifies, levels_after, member_qualifies, no_lower, record_sound,
};
use crate::solvers::plan::{
    ascending, attempt, attempt_all, capped, commit, grown, horizon, mentor_level, opening,
    planned, project_reward, prune, release, reward_at, round, run, staff, train, train_crew,
    Assignment, RunView,
};
use vstd::prelude::*;
use vstd::set_lib::lemma_len_subset;

verus! {

/// Whether no contributor is on two projects at once: of any two assignments
/// that share a contributor, one has ended when the other starts.
pub open spec fn never_double_booked(projects: Seq<ProjectView>, records: Seq<Assignment>) -> bool {
    forall|i: int, j: int, a: usize|
        0 <= i < records.len() && 0 <= j < records.len() && i != j
            && #[trigger] records[i].crew.contains(a)
            && #[trigger] records[j].crew.contains(a) ==> {
            ||| end_of(projects, records[i]) <= records[j].start
            ||| end_of(projects, records[j]) <= records[i].start
        }
}

/// Whether every assignment names a project of the instance and gives it one
/// contributor for each of its roles, no contributor twice.
pub open spec fn crews_complete(projects: Seq<ProjectView>, records: Seq<Assignment>) -> bool {
    forall|i: int|
        0 <= i < records.len() ==> {
            &&& (#[trigger] records[i]).project < projects.len()
            &&& records[i].crew.len() == projects[records[i].project as int].roles.len()
            &&& records[i].crew.no_duplicates()
        }
}

/// Whether no project is started twice.
pub open spec fn started_at_most_once(records: Seq<Assignment>) -> bool {
    forall|i: int, j: int|
        0 <= i < j < records.len() ==> (#[trigger] records[i]).project
            != (#[trigger] records[j]).project
}

/// Whether member `k` of assignment `i` met its role when the project was
/// started, or was one level short of it beside an earlier member of the same
/// crew who met it. The levels are those of contributors who began at
/// `levels`, after the assignments before `i`.
pub open spec fn met_or_mentored(
    projects: Seq<ProjectView>,
    levels: Levels,
    records: Seq<Assignment>,
    i: int,
    k: int,
) -> bool {
    let at = levels_after(levels, projects, records.take(i));
    let crew = records[i].crew;
    let role = projects[records[i].project as int].roles[k];
    let own = level_in(at[crew[k] as int], role.skill_id);
    ||| own >= role.required_skill_level
    ||| (own + 1 == role.required_skill_level && exists|m: int|
        0 <= m < k && crew[m] != crew[k] && level_in(#[trigger] at[crew[m] as int], role.skill_id)
            >= role.required_skill_level)
}

/// Whether every member of every crew met its role or was mentored.
pub open spec fn all_met_or_mentored(
    projects: Seq<ProjectView>,
    levels: Levels,
    records: Seq<Assignment>,
) -> bool {
    forall|i: int, k: int|
        0 <= i < records.len() && 0 <= k < records[i].crew.len() ==> #[trigger] met_or_mentored(
            projects,
            levels,
            records,
            i,
            k,
        )
}

/// The level of contributor `a` in `skill` after the first `count` of
/// `records`, for contributors who began at `levels`.
pub open spec fn level_after_first(
    projects: Seq<ProjectView>,
    levels: Levels,
    records: Seq<Assignment>,
    count: int,
    a: int,
    skill: usize,
) -> u8 {
    level_in(levels_after(levels, projects, records.take(count))[a], skill)
}

/// Whether no level of any contributor in any skill ever falls: the level
/// after more assignments is at least the level after fewer.
pub open spec fn levels_never_fall(
    projects: Seq<ProjectView>,
    levels: Levels,
    records: Seq<Assignment>,
) -> bool {
    forall|i: int, j: int, a: int, skill: usize|
        0 <= i <= j <= records.len() && 0 <= a < levels.len() ==> #[trigger] level_after_first(
            projects,
            levels,
            records,
            i,
            a,
            skill,
        ) <= #[trigger] level_after_first(projects, levels, records, j, a, skill)
}

/// Whether every assignment pays at the instant it starts.
pub open spec fn every_start_pays(projects: Seq<ProjectView>, records: Seq<Assignment>) -> bool {
    forall|i: int|
        0 <= i < records.len() ==> project_reward(
            (#[trigger] records[i]).start as int,
            projects[records[i].project as int],
        ) > 0
}

/// The scores of the projects of `records`, added up.
pub open spec fn scores_of(projects: Seq<ProjectView>, records: Seq<Assignment>) -> int
    decreases records.len(),
{
    if records.len() == 0 {
        0
    } else {
        scores_of(projects, records.drop_last()) + projects[records.last().project as int].score
    }
}

/// Assignments that each pay at their start earn at least one each, and
/// never more than the scores of their projects.
pub proof fn law_earned_between_count_and_scores(
    projects: Seq<ProjectView>,
    records: Seq<Assignment>,
)
    requires
        every_start_pays(projects, records),
    ensures
        records.len() <= earned(projects, records) <= scores_of(projects, records),
    decreases records.len(),
{
    if records.len() > 0 {
        let rest = records.drop_last();
        assert forall|i: int| 0 <= i < rest.len() implies project_reward(
            (#[trigger] rest[i]).start as int,
            projects[rest[i].project as int],
        ) > 0 by {
            assert(rest[i] == records[i]);
        }
        law_earned_between_count_and_scores(projects, rest);
        assert(records[records.len() - 1] == records.last());
    }
}

/// A crew whose best level in a skill is above zero has a member at that level.
pub proof fn lemma_mentor_is_a_member(levels: Levels, crew: Seq<usize>, skill: usize)
    requires
        mentor_level(levels, crew, skill) > 0,
    ensures
        exists|m: int|
            0 <= m < crew.len() && level_in(#[trigger] levels[crew[m] as int], skill)
                == mentor_level(levels, crew, skill),
    decreases crew.len(),
{
    if crew.len() > 0 {
        let rest = mentor_level(levels, crew.drop_last(), skill);
        let own = level_in(levels[crew.last() as int], skill);
        if own > rest {
            assert(level_in(levels[crew[crew.len() - 1] as int], skill) == own);
        } else {
            lemma_mentor_is_a_member(levels, crew.drop_last(), skill);
            let m = choose|m: int|
                0 <= m < crew.drop_last().len() && level_in(
                    #[trigger] levels[crew.drop_last()[m] as int],
                    skill,
                ) == rest;
            assert(crew.drop_last()[m] == crew[m]);
            assert(level_in(levels[crew[m] as int], skill) == rest);
        }
    }
}

/// Fewer idle contributors than roles staff no crew.
pub proof fn law_too_few_staff_nothing(levels: Levels, roles: Seq<Role>, idle: Set<usize>)
    requires
        idle.finite(),
        idle.len() < roles.len(),
    ensures
        staff(levels, roles, idle) is None,
{
    lemma_staff_from_qualifies(levels, roles, idle, Seq::empty());
    if let Some(crew) = staff(levels, roles, idle) {
        crew.unique_seq_to_set();
        assert(crew.to_set().subset_of(idle)) by {
            assert forall|a: usize| crew.to_set().contains(a) implies idle.contains(a) by {
                let k = choose|k: int| 0 <= k < crew.len() && crew[k] == a;
                assert(idle.contains(crew[k]));
            }
        }
        lemma_len_subset(crew.to_set(), idle);
    }
}

/// Training a crew changes what the rule of growth says and nothing else:
/// each member's level in the skill of its role has grown, by one where the
/// role asked for at least the level held and the level was not the highest
/// there is; the member's other levels, and everybody who is not on the crew,
/// are as they were.
pub proof fn law_training_rule(levels: Levels, roles: Seq<Role>, crew: Seq<usize>)
    requires
        crew.len() <= roles.len(),
        crew.no_duplicates(),
        forall|k: int| 0 <= k < crew.len() ==> (#[trigger] crew[k]) < levels.len(),
    ensures
        train_crew(levels, roles, crew).len() == levels.len(),
        forall|k: int, skill: usize|
            0 <= k < crew.len() ==> #[trigger] level_in(
                train_crew(levels, roles, crew)[crew[k] as int],
                skill,
            ) == if skill == roles[k].skill_id {
                grown(level_in(levels[crew[k] as int], skill), roles[k].required_skill_level)
            } else {
                level_in(levels[crew[k] as int], skill)
            },
        forall|a: int|
            0 <= a < levels.len() && !crew.contains(a as usize) ==> #[trigger] train_crew(
                levels,
                roles,
                crew,
            )[a] == levels[a],
    decreases crew.len(),
{
    if crew.len() > 0 {
        let rest = crew.drop_last();
        let last = crew.last();
        let role = roles[crew.len() - 1];
        let before = train_crew(levels, roles, rest);
        let after = train_crew(levels, roles, crew);
        law_training_rule(levels, roles, rest);
        assert(after == train(before, last, role));
        assert(!rest.contains(last)) by {
            if rest.contains(last) {
                let i = choose|i: int| 0 <= i < rest.len() && rest[i] == last;
                assert(crew[i] == crew[crew.len() - 1]);
            }
        }
        assert(before[last as int] == levels[last as int]);
        assert forall|k: int, skill: usize| 0 <= k < crew.len() implies #[trigger] level_in(
            after[crew[k] as int],
            skill,
        ) == if skill == roles[k].skill_id {
            grown(level_in(levels[crew[k] as int], skill), roles[k].required_skill_level)
        } else {
            level_in(levels[crew[k] as int], skill)
        } by {
            if k < rest.len() {
                assert(rest[k] == crew[k]);
                assert(crew[k] != last);
                assert(after[crew[k] as int] == before[crew[k] as int]);
                assert(level_in(before[rest[k] as int], skill) == if skill == roles[k].skill_id {
                    grown(level_in(levels[rest[k] as int], skill), roles[k].required_skill_level)
                } else {
                    level_in(levels[rest[k] as int], skill)
                });
            }
        }
        assert forall|a: int| 0 <= a < levels.len() && !crew.contains(a as usize) implies after[a]
            == levels[a] by {
            assert(crew[crew.len() - 1] == last);
            if rest.contains(a as usize) {
                let i = choose|i: int| 0 <= i < rest.len() && rest[i] == a as usize;
                assert(crew[i] == a as usize);
            }
            assert(before[a] == levels[a]);
        }
    }
}

/// In a consistent state no contributor is on two projects at once, every
/// crew is complete, every member met its role or was mentored, no project
/// was started twice, no level has ever fallen, and the reward counted is
/// the reward of the assignments counted again, as far as the counter holds
/// it.
pub proof fn law_consistent_state(v: RunView, projects: Seq<ProjectView>, levels: Levels)
    requires
        consistent(v, projects, levels),
    ensures
        never_double_booked(projects, v.records),
        crews_complete(projects, v.records),
        started_at_most_once(v.records),
        all_met_or_mentored(projects, levels, v.records),
        levels_never_fall(projects, levels, v.records),
        names_known(projects.len(), levels.len(), v.records),
        v.levels == levels_after(levels, projects, v.records),
        v.total == capped(earned(projects, v.records)),
{
    let records = v.records;
    assert forall|i: int, j: int, a: usize|
        0 <= i < records.len() && 0 <= j < records.len() && i != j
            && #[trigger] records[i].crew.contains(a)
            && #[trigger] records[j].crew.contains(a) implies {
        ||| end_of(projects, records[i]) <= records[j].start
        ||| end_of(projects, records[j]) <= records[i].start
    } by {
        if i < j {
            assert(end_of(projects, records[i]) <= records[j].start);
        } else {
            assert(end_of(projects, records[j]) <= records[i].start);
        }
    }
    assert forall|i: int| 0 <= i < records.len() implies {
        &&& (#[trigger] records[i]).project < projects.len()
        &&& records[i].crew.len() == projects[records[i].project as int].roles.len()
        &&& records[i].crew.no_duplicates()
        &&& forall|k: int|
            0 <= k < records[i].crew.len() ==> (#[trigger] records[i].crew[k]) < levels.len()
    } by {
        assert(record_sound(projects, levels, records, i));
        lemma_levels_after_raises(levels, projects, records, i, i);
    }
    assert forall|i: int, k: int|
        0 <= i < records.len() && 0 <= k < records[i].crew.len() implies #[trigger] met_or_mentored(
        projects,
        levels,
        records,
        i,
        k,
    ) by {
        assert(record_sound(projects, levels, records, i));
        let at = levels_after(levels, projects, records.take(i));
        let crew = records[i].crew;
        let roles = projects[records[i].project as int].roles;
        let role = roles[k];
        assert(member_qualifies(at, roles, crew, k));
        let own = level_in(at[crew[k] as int], role.skill_id);
        if own < role.required_skill_level {
            lemma_mentor_is_a_member(at, crew.take(k), role.skill_id);
            let m = choose|m: int|
                0 <= m < crew.take(k).len() && level_in(
                    #[trigger] at[crew.take(k)[m] as int],
                    role.skill_id,
                ) == mentor_level(at, crew.take(k), role.skill_id);
            assert(crew.take(k)[m] == crew[m]);
            assert(crew[m] != crew[k]);
            assert(level_in(at[crew[m] as int], role.skill_id) >= role.required_skill_level);
        }
    }
    assert forall|i: int, j: int, a: int, skill: usize|
        0 <= i <= j <= records.len() && 0 <= a < levels.len() implies #[trigger] level_after_first(
        projects,
        levels,
        records,
        i,
        a,
        skill,
    ) <= #[trigger] level_after_first(projects, levels, records, j, a, skill) by {
        lemma_levels_after_raises(levels, projects, records, i, j);
    }
}

/// The state in which a run ends is consistent, and nobody's level in any
/// skill is lower in it than at the beginning.
pub proof fn lemma_planned_consistent(projects: Seq<ProjectView>, levels: Levels, limit: u32)
    requires
        projects.len() <= usize::MAX,
    ensures
        consistent(planned(projects, levels, limit), projects, levels),
        no_lower(levels, planned(projects, levels, limit).levels),
{
    lemma_horizon_bound(projects);
    lemma_opening_consistent(projects, levels);
    lemma_run_consistent(
        opening(projects, levels),
        projects,
        levels,
        limit,
        horizon(projects) as u32,
    );
}

/// In every run, no contributor is on two projects at once, and every
/// project started has one contributor for each of its roles, no contributor
/// twice.
pub proof fn law_no_double_booking(projects: Seq<ProjectView>, levels: Levels, limit: u32)
    requires
        projects.len() <= usize::MAX,
    ensures
        never_double_booked(projects, planned(projects, levels, limit).records),
        crews_complete(projects, planned(projects, levels, limit).records),
{
    lemma_planned_consistent(projects, levels, limit);
    law_consistent_state(planned(projects, levels, limit), projects, levels);
}

/// In every run, every contributor met the role filled when the project was
/// started, or was one level short of it beside another member of the crew
/// who met it.
pub proof fn law_roles_met_or_mentored(projects: Seq<ProjectView>, levels: Levels, limit: u32)
    requires
        projects.len() <= usize::MAX,
    ensures
        all_met_or_mentored(projects, levels, planned(projects, levels, limit).records),
{
    lemma_planned_consistent(projects, levels, limit);
    law_consistent_state(planned(projects, levels, limit), projects, levels);
}

/// In every run, no level of any contributor in any skill ever falls: the
/// level after more assignments is at least the level after fewer, the run
/// ends at the levels after all of them, and those are no lower than the
/// levels at the beginning.
pub proof fn law_levels_never_fall(projects: Seq<ProjectView>, levels: Levels, limit: u32)
    requires
        projects.len() <= usize::MAX,
    ensures
        levels_never_fall(projects, levels, planned(projects, levels, limit).records),
        planned(projects, levels, limit).levels == levels_after(
            levels,
            projects,
            planned(projects, levels, limit).records,
        ),
        no_lower(levels, planned(projects, levels, limit).levels),
{
    lemma_planned_consistent(projects, levels, limit);
    law_consistent_state(planned(projects, levels, limit), projects, levels);
}

/// In every run, every assignment names a project and contributors of the
/// instance.
pub proof fn law_names_known(projects: Seq<ProjectView>, levels: Levels, limit: u32)
    requires
        projects.len() <= usize::MAX,
    ensures
        names_known(projects.len(), levels.len(), planned(projects, levels, limit).records),
{
    lemma_planned_consistent(projects, levels, limit);
    law_consistent_state(planned(projects, levels, limit), projects, levels);
}

/// In every run, the reward counted while starting projects is the reward
/// of the assignments counted again, as far as the counter holds it, and no
/// project is started twice.
pub proof fn law_total_is_earned(projects: Seq<ProjectView>, levels: Levels, limit: u32)
    requires
        projects.len() <= usize::MAX,
    ensures
        planned(projects, levels, limit).total == capped(
            earned(projects, planned(projects, levels, limit).records),
        ),
        started_at_most_once(planned(projects, levels, limit).records),
{
    lemma_planned_consistent(projects, levels, limit);
    law_consistent_state(planned(projects, levels, limit), projects, levels);
}

/// The reward of a project is its score while it ends in time, nothing once
/// it ends late by its score or more, and the score less the delay between
/// the two; it is never negative, never more than the score, never more
/// than an instant before, and one less than an instant before once the
/// project ends late and until it is nothing.
pub proof fn law_reward_decays(instant: int, duration: int, score: int, best_before: int)
    requires
        score >= 0,
    ensures
        ({
            let overrun = instant + duration - best_before;
            let now = reward_at(instant, duration, score, best_before);
            let next = reward_at(instant + 1, duration, score, best_before);
            &&& overrun <= 0 ==> now == score
            &&& overrun >= score ==> now == 0
            &&& 0 < overrun < score ==> now == score - overrun
            &&& 0 <= now <= score
            &&& next <= now
            &&& overrun >= 0 && now > 0 ==> next == now - 1
        }),
{
}

/// Whether `later` carries on from `earlier`: its assignments begin with
/// those of `earlier`, each further one starts no earlier than the clock of
/// `earlier` showed and pays at its start, and no project is pending that
/// was not pending before.
pub open spec fn carries_on(earlier: RunView, later: RunView, projects: Seq<ProjectView>) -> bool {
    &&& earlier.time <= later.time
    &&& earlier.records.len() <= later.records.len()
    &&& forall|i: int| 0 <= i < earlier.records.len() ==> later.records[i] == earlier.records[i]
    &&& forall|i: int|
        earlier.records.len() <= i < later.records.len() ==> {
            &&& earlier.time <= (#[trigger] later.records[i]).start
            &&& project_reward(
                later.records[i].start as int,
                projects[later.records[i].project as int],
            ) > 0
        }
    &&& forall|j: usize| later.pending.contains(j) ==> earlier.pending.contains(j)
}

/// Trying projects that pay carries on from the state before.
pub proof fn lemma_attempt_all_carries_on(v: RunView, projects: Seq<ProjectView>, order: Seq<usize>)
    requires
        forall|k: int|
            0 <= k < order.len() ==> project_reward(
                v.time as int,
                projects[(#[trigger] order[k]) as int],
            ) > 0,
    ensures
        carries_on(v, attempt_all(v, projects, order), projects),
        attempt_all(v, projects, order).time == v.time,
    decreases order.len(),
{
    if order.len() > 0 {
        let rest = order.drop_last();
        assert forall|k: int| 0 <= k < rest.len() implies project_reward(
            v.time as int,
            projects[(#[trigger] rest[k]) as int],
        ) > 0 by {
            assert(rest[k] == order[k]);
        }
        lemma_attempt_all_carries_on(v, projects, rest);
        let u = attempt_all(v, projects, rest);
        let j = order.last();
        assert(order[order.len() - 1] == j);
        let w = attempt(u, projects, j);
        match staff(u.levels, projects[j as int].roles, u.idle) {
            Some(crew) => {
                assert(w == commit(u, projects, j, crew));
                assert forall|i: int| v.records.len() <= i < w.records.len() implies {
                    &&& v.time <= (#[trigger] w.records[i]).start
                    &&& project_reward(
                        w.records[i].start as int,
                        projects[w.records[i].project as int],
                    ) > 0
                } by {
                    if i < u.records.len() {
                        assert(w.records[i] == u.records[i]);
                    }
                }
            },
            None => {},
        }
    }
}

/// A round carries on from the state before it.
pub proof fn lemma_round_carries_on(v: RunView, projects: Seq<ProjectView>)
    requires
        projects.len() <= usize::MAX,
        v.time < u32::MAX,
    ensures
        carries_on(v, round(v, projects), projects),
{
    let pruned = prune(v, projects);
    let order = ascending(pruned.pending, projects.len());
    lemma_ascending_members(pruned.pending, projects.len());
    lemma_attempt_all_carries_on(pruned, projects, order);
}

/// A run carries on from the state it began in, and ends with no project
/// pending, or with the clock at the last instant, or after more rounds in
/// a row without a start than the limit allows.
pub proof fn law_run_carries_on(v: RunView, projects: Seq<ProjectView>, limit: u32, latest: u32)
    requires
        projects.len() <= usize::MAX,
    ensures
        carries_on(v, run(v, projects, limit, latest), projects),
        ({
            let end = run(v, projects, limit, latest);
            end.pending.is_empty() || end.time >= latest || end.idle_rounds > limit
        }),
    decreases latest - v.time,
{
    if !(v.pending.is_empty() || v.time >= latest) {
        let w = round(v, projects);
        lemma_round_carries_on(v, projects);
        if w.idle_rounds <= limit {
            let x = release(w);
            law_run_carries_on(x, projects, limit, latest);
            let end = run(x, projects, limit, latest);
            assert forall|i: int| v.records.len() <= i < end.records.len() implies {
                &&& v.time <= (#[trigger] end.records[i]).start
                &&& project_reward(
                    end.records[i].start as int,
                    projects[end.records[i].project as int],
                ) > 0
            } by {
                if i < x.records.len() {
                    assert(end.records[i] == x.records[i]);
                    assert(x.records[i] == w.records[i]);
                }
            }
        }
    }
}

/// A project that pays nothing when started now is never started from now
/// on: whatever the run from `v` adds to the assignments of `v`, it is not
/// project `j`.
pub proof fn law_unrewarding_project_never_starts(
    v: RunView,
    projects: Seq<ProjectView>,
    limit: u32,
    latest: u32,
    j: usize,
)
    requires
        projects.len() <= usize::MAX,
        j < projects.len(),
        project_reward(v.time as int, projects[j as int]) == 0,
    ensures
        ({
            let end = run(v, projects, limit, latest);
            forall|i: int|
                v.records.len() <= i < end.records.len() ==> (#[trigger] end.records[i]).project
                    != j
        }),
{
    law_run_carries_on(v, projects, limit, latest);
}

/// In every run, every project is started at an instant at which it pays.
pub proof fn law_every_start_pays(projects: Seq<ProjectView>, levels: Levels, limit: u32)
    requires
        projects.len() <= usize::MAX,
    ensures
        every_start_pays(projects, planned(projects, levels, limit).records),
{
    lemma_horizon_bound(projects);
    law_run_carries_on(opening(projects, levels), projects, limit, horizon(projects) as u32);
}

/// Every run ends with no project pending, or with the clock at the
/// horizon, or after more rounds in a row without a start than the limit
/// allows.
pub proof fn law_run_ends(projects: Seq<ProjectView>, levels: Levels, limit: u32)
    requires
        projects.len() <= usize::MAX,
    ensures
        ({
            let end = planned(projects, levels, limit);
            end.pending.is_empty() || end.time >= horizon(projects) || end.idle_rounds > limit
        }),
{
    lemma_horizon_bound(projects);
    law_run_carries_on(opening(projects, levels), projects, limit, horizon(projects) as u32);
}

} // verus!
