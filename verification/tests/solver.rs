use mentorship::parse_input::{Contributor, InputData, Project, Role};
use mentorship::score::{checked_score, score};
use mentorship::solution::{ExecutedProject, Solution};
use mentorship::solvers::greedy::{
    assign_contributors, find_best_contributor, find_best_project, latest_time, score_project,
    solve, sort_projects,
};
use mentorship::solvers::run_state::RunState;
use std::collections::{HashMap, HashSet};

fn contributor(name: &str, skills: &[(usize, u8)]) -> Contributor {
    Contributor { name: name.to_string(), skills: skills.iter().cloned().collect::<HashMap<usize, u8>>() }
}

fn project(name: &str, duration: u16, score: u16, best_before: u16, roles: &[(usize, u8)]) -> Project {
    Project {
        name: name.to_string(),
        duration,
        score,
        best_before,
        roles: roles
            .iter()
            .map(|r| Role { skill_id: r.0, required_skill_level: r.1 })
            .collect(),
    }
}

fn ids(members: &[usize]) -> HashSet<usize> {
    members.iter().cloned().collect()
}

#[test]
fn reward_is_full_while_in_time() {
    let p = project("p", 1, 10, 5, &[]);
    assert_eq!(score_project(0, &p), 10);
    assert_eq!(score_project(4, &p), 10);
}

#[test]
fn reward_falls_by_one_per_instant_of_delay() {
    let p = project("p", 1, 10, 5, &[]);
    assert_eq!(score_project(5, &p), 9);
    assert_eq!(score_project(6, &p), 8);
    assert_eq!(score_project(13, &p), 1);
}

#[test]
fn reward_is_nothing_once_delay_reaches_score() {
    let p = project("p", 1, 10, 5, &[]);
    assert_eq!(score_project(14, &p), 0);
    assert_eq!(score_project(15, &p), 0);
    assert_eq!(score_project(u32::MAX, &p), 0);
}

#[test]
fn reward_is_the_same_when_asked_twice() {
    let p = project("p", 3, 7, 2, &[]);
    for t in 0..20u32 {
        assert_eq!(score_project(t, &p), score_project(t, &p));
    }
}

#[test]
fn one_contributor_one_project_in_time() {
    let input = InputData {
        contributors: vec![contributor("ann", &[(0, 3)])],
        projects: vec![project("site", 1, 10, 5, &[(0, 3)])],
    };
    let solution = solve(&input, 20).unwrap();
    assert_eq!(solution.executed_projects.len(), 1);
    assert_eq!(solution.executed_projects[0].project, 0);
    assert_eq!(solution.executed_projects[0].contributors, vec![0]);
    assert_eq!(solution.executed_projects[0].start, 0);
    assert_eq!(solution.estimated_score, 10);
}

#[test]
fn deadline_zero_costs_one() {
    let input = InputData {
        contributors: vec![contributor("ann", &[(0, 3)])],
        projects: vec![project("site", 1, 10, 0, &[(0, 3)])],
    };
    let solution = solve(&input, 20).unwrap();
    assert_eq!(solution.executed_projects.len(), 1);
    assert_eq!(solution.executed_projects[0].start, 0);
    assert_eq!(solution.estimated_score, 9);
}

#[test]
fn second_role_is_filled_by_mentored_junior() {
    let contributors = vec![contributor("senior", &[(0, 2)]), contributor("junior", &[(0, 1)])];
    let p = project("pair", 2, 10, 9, &[(0, 2), (0, 2)]);
    let picks = assign_contributors(&contributors, &p, &ids(&[0, 1])).unwrap();
    assert_eq!(picks, vec![(0, 0, 2), (1, 0, 2)]);
    // the junior alone has no mentor
    assert!(assign_contributors(&contributors, &p, &ids(&[1])).is_none());
    // nor does it matter in which order they are listed
    let swapped = vec![contributor("junior", &[(0, 1)]), contributor("senior", &[(0, 2)])];
    let picks = assign_contributors(&swapped, &p, &ids(&[0, 1])).unwrap();
    assert_eq!(picks, vec![(1, 0, 2), (0, 0, 2)]);
}

#[test]
fn mentored_project_is_retried_when_senior_returns() {
    // The senior is first taken by project 0; project 1 needs both and waits.
    let input = InputData {
        contributors: vec![contributor("senior", &[(0, 2)]), contributor("junior", &[(0, 1)])],
        projects: vec![
            project("solo", 3, 5, 10, &[(0, 2)]),
            project("pair", 2, 10, 20, &[(0, 2), (0, 2)]),
        ],
    };
    let solution = solve(&input, 20).unwrap();
    assert_eq!(solution.executed_projects.len(), 2);
    assert_eq!(solution.executed_projects[0].project, 0);
    assert_eq!(solution.executed_projects[0].contributors, vec![0]);
    assert_eq!(solution.executed_projects[0].start, 0);
    assert_eq!(solution.executed_projects[1].project, 1);
    assert_eq!(solution.executed_projects[1].contributors, vec![0, 1]);
    assert_eq!(solution.executed_projects[1].start, 3);
    assert_eq!(solution.estimated_score, 15);
}

#[test]
fn expired_project_is_never_started() {
    let input = InputData {
        contributors: vec![contributor("ann", &[(0, 3)])],
        projects: vec![
            project("late", 5, 3, 0, &[(0, 1)]),
            project("fine", 1, 4, 10, &[(0, 1)]),
        ],
    };
    let solution = solve(&input, 20).unwrap();
    assert_eq!(solution.executed_projects.len(), 1);
    assert_eq!(solution.executed_projects[0].project, 1);
    assert_eq!(solution.estimated_score, 4);

    let mut state = RunState::new(&input);
    state.drop_unrewarding(&input);
    assert!(!state.available_projects_ids.contains(&0));
    assert!(state.available_projects_ids.contains(&1));
}

#[test]
fn least_overqualified_candidate_is_chosen() {
    let contributors = vec![
        contributor("a", &[(0, 9)]),
        contributor("b", &[(0, 4)]),
        contributor("c", &[(0, 5)]),
        contributor("d", &[(0, 4)]),
    ];
    let role = Role { skill_id: 0, required_skill_level: 4 };
    let none = HashSet::new();
    assert_eq!(
        find_best_contributor(&contributors, &role, &ids(&[0, 1, 2, 3]), &none, 0),
        Some((1, 0, 4))
    );
    assert_eq!(
        find_best_contributor(&contributors, &role, &ids(&[0, 2, 3]), &none, 0),
        Some((3, 0, 4))
    );
    assert_eq!(
        find_best_contributor(&contributors, &role, &ids(&[0, 1, 2, 3]), &ids(&[1, 3]), 0),
        Some((2, 0, 4))
    );
    assert_eq!(find_best_contributor(&contributors, &role, &ids(&[]), &none, 0), None);
}

#[test]
fn mentored_candidate_is_preferred_to_exact_match() {
    let contributors = vec![contributor("exact", &[(0, 4)]), contributor("short", &[(0, 3)])];
    let role = Role { skill_id: 0, required_skill_level: 4 };
    let none = HashSet::new();
    assert_eq!(
        find_best_contributor(&contributors, &role, &ids(&[0, 1]), &none, 4),
        Some((1, 0, 4))
    );
    assert_eq!(
        find_best_contributor(&contributors, &role, &ids(&[0, 1]), &none, 3),
        Some((0, 0, 4))
    );
}

#[test]
fn unskilled_contributor_fills_level_one_beside_mentor() {
    let contributors = vec![contributor("new", &[])];
    let role = Role { skill_id: 7, required_skill_level: 1 };
    let none = HashSet::new();
    assert_eq!(find_best_contributor(&contributors, &role, &ids(&[0]), &none, 1), Some((0, 7, 1)));
    assert_eq!(find_best_contributor(&contributors, &role, &ids(&[0]), &none, 0), None);
}

#[test]
fn levels_grow_only_when_role_asks_for_at_least_the_level() {
    let input = InputData {
        contributors: vec![contributor("a", &[(0, 2)]), contributor("b", &[(1, 5)])],
        projects: vec![project("p", 1, 10, 9, &[(0, 2), (1, 3)])],
    };
    let mut state = RunState::new(&input);
    assert!(state.try_start(&input, 0));
    assert_eq!(state.current_contributors[0].level(0), 3);
    assert_eq!(state.current_contributors[1].level(1), 5);
    assert!(!state.available_contributors_ids.contains(&0));
    assert!(!state.available_contributors_ids.contains(&1));
    assert_eq!(state.contributors_ids_to_freeup_time.get(&0), Some(&1));
    assert_eq!(state.estimated_score, 10);
    assert!(!state.available_projects_ids.contains(&0));
}

#[test]
fn failed_staffing_changes_nothing() {
    let input = InputData {
        contributors: vec![contributor("a", &[(0, 2)])],
        projects: vec![project("p", 1, 10, 9, &[(0, 2), (0, 5)])],
    };
    let mut state = RunState::new(&input);
    assert!(!state.try_start(&input, 0));
    assert!(state.available_contributors_ids.contains(&0));
    assert!(state.contributors_ids_to_freeup_time.is_empty());
    assert_eq!(state.current_contributors[0].level(0), 2);
    assert!(state.executed_projects.is_empty());
    assert!(state.available_projects_ids.contains(&0));
}

#[test]
fn contributors_return_when_their_project_ends() {
    let input = InputData {
        contributors: vec![contributor("a", &[(0, 2)])],
        projects: vec![project("p", 2, 10, 9, &[(0, 1)]), project("q", 1, 10, 9, &[(0, 1)])],
    };
    let mut state = RunState::new(&input);
    state.run_round(&input);
    assert_eq!(state.current_time, 1);
    assert_eq!(state.rounds_without_improvements, 0);
    state.free_up(&input);
    assert!(!state.available_contributors_ids.contains(&0));
    state.run_round(&input);
    assert_eq!(state.current_time, 2);
    assert_eq!(state.rounds_without_improvements, 1);
    state.free_up(&input);
    assert!(state.available_contributors_ids.contains(&0));
    assert!(state.contributors_ids_to_freeup_time.is_empty());
    state.run_round(&input);
    assert_eq!(state.executed_projects.len(), 2);
    assert_eq!(state.executed_projects[1].start, 2);
}

#[test]
fn no_contributor_is_on_two_projects_at_once() {
    let input = InputData {
        contributors: vec![
            contributor("a", &[(0, 3), (1, 1)]),
            contributor("b", &[(0, 1), (1, 4)]),
            contributor("c", &[(1, 2)]),
        ],
        projects: vec![
            project("alpha", 3, 20, 5, &[(0, 2), (1, 2)]),
            project("beta", 2, 15, 6, &[(1, 2)]),
            project("gamma", 4, 30, 10, &[(0, 3), (1, 3), (1, 1)]),
            project("delta", 1, 5, 3, &[(0, 1)]),
            project("epsilon", 2, 12, 12, &[(1, 5)]),
        ],
    };
    let solution = solve(&input, 20).unwrap();
    let runs = &solution.executed_projects;
    assert!(!runs.is_empty());
    for i in 0..runs.len() {
        for j in 0..runs.len() {
            if i == j {
                continue;
            }
            for a in runs[i].contributors.iter() {
                if runs[j].contributors.contains(a) {
                    let end_i = runs[i].start + input.projects[runs[i].project].duration as u32;
                    let end_j = runs[j].start + input.projects[runs[j].project].duration as u32;
                    assert!(end_i <= runs[j].start || end_j <= runs[i].start);
                }
            }
        }
    }
    assert_eq!(score(&input, &solution), solution.estimated_score);
    assert_eq!(checked_score(&input, &solution), Some(solution.estimated_score));
}

#[test]
fn stagnation_limit_ends_the_run() {
    // One contributor, a long first project, a second that waits for it.
    let input = InputData {
        contributors: vec![contributor("a", &[(0, 1)])],
        projects: vec![
            project("long", 10, 10, 100, &[(0, 1)]),
            project("next", 1, 10, 100, &[(0, 1)]),
        ],
    };
    let patient = solve(&input, 20).unwrap();
    assert_eq!(patient.executed_projects.len(), 2);
    assert_eq!(patient.executed_projects[1].start, 10);
    assert_eq!(patient.estimated_score, 20);
    let hasty = solve(&input, 3).unwrap();
    assert_eq!(hasty.executed_projects.len(), 1);
    assert_eq!(hasty.estimated_score, 10);
}

#[test]
fn role_at_the_highest_level_that_nobody_meets_is_left_unfilled() {
    let input = InputData {
        contributors: vec![contributor("a", &[(0, 1)])],
        projects: vec![project("top", 1, 1, 1, &[(0, 255)])],
    };
    let solution = solve(&input, 20).unwrap();
    assert!(solution.executed_projects.is_empty());
    assert_eq!(solution.estimated_score, 0);
}

#[test]
fn highest_level_stays_as_it_is() {
    let input = InputData {
        contributors: vec![contributor("a", &[(0, 255), (1, 254)])],
        projects: vec![
            project("top", 1, 10, 5, &[(0, 255)]),
            project("next", 1, 10, 5, &[(1, 254)]),
            project("last", 1, 10, 5, &[(1, 255)]),
        ],
    };
    let solution = solve(&input, 20).unwrap();
    assert_eq!(solution.executed_projects.len(), 3);
    assert_eq!(solution.estimated_score, 30);
    let mut state = RunState::new(&input);
    assert!(state.try_start(&input, 0));
    assert_eq!(state.current_contributors[0].level(0), 255);
    assert_eq!(state.current_contributors[0].level(1), 254);
    state.run_round(&input);
    state.free_up(&input);
    assert_eq!(state.current_contributors[0].level(1), 254);
    state.run_round(&input);
    state.free_up(&input);
    assert_eq!(state.current_contributors[0].level(1), 255);
    state.run_round(&input);
    assert_eq!(state.current_contributors[0].level(0), 255);
    assert_eq!(state.current_contributors[0].level(1), 255);
    assert_eq!(state.executed_projects.len(), 3);
}

#[test]
fn empty_instance_gives_empty_solution() {
    let input = InputData { contributors: vec![], projects: vec![] };
    assert_eq!(latest_time(&input), 0);
    let solution = solve(&input, 20).unwrap();
    assert!(solution.executed_projects.is_empty());
    assert_eq!(solution.estimated_score, 0);
}

#[test]
fn unstaffable_instance_gives_empty_solution() {
    let input = InputData {
        contributors: vec![contributor("a", &[(0, 1)])],
        projects: vec![project("hard", 1, 10, 5, &[(0, 9)])],
    };
    let solution = solve(&input, 20).unwrap();
    assert!(solution.executed_projects.is_empty());
    assert_eq!(solution.estimated_score, 0);
}

#[test]
fn projects_are_tried_in_identifier_order() {
    let input = InputData {
        contributors: vec![],
        projects: vec![
            project("alpha", 1, 1, 1, &[]),
            project("beta", 1, 1, 1, &[]),
            project("gamma", 1, 1, 1, &[]),
            project("delta", 1, 1, 1, &[]),
        ],
    };
    assert_eq!(sort_projects(&input, &ids(&[3, 0, 2])), vec![0, 2, 3]);
    assert_eq!(sort_projects(&input, &ids(&[])), Vec::<usize>::new());
    assert_eq!(sort_projects(&input, &ids(&[1, 9])), vec![1]);
}

#[test]
fn best_project_is_by_reward_for_cost() {
    let input = InputData {
        contributors: vec![],
        projects: vec![
            project("alpha", 2, 10, 50, &[(0, 1)]),
            project("beta", 1, 10, 50, &[(0, 1), (0, 1)]),
            project("gamma", 1, 9, 50, &[(0, 1)]),
            project("delta", 1, 0, 50, &[(0, 1)]),
        ],
    };
    // 10/2 = 5, 10/2 = 5, 9/1 = 9, 0
    assert_eq!(find_best_project(&input, 0, &ids(&[0, 1, 2, 3])), Some(2));
    assert_eq!(find_best_project(&input, 0, &ids(&[0, 1, 3])), Some(0));
    assert_eq!(find_best_project(&input, 0, &ids(&[1, 3])), Some(1));
    assert_eq!(find_best_project(&input, 0, &ids(&[3])), Some(3));
    assert_eq!(find_best_project(&input, 0, &ids(&[])), None);
    // at instant 55 the third pays 9 - 6 = 3, the first 10 - 7 = 3 and the second 10 - 6 = 4
    assert_eq!(find_best_project(&input, 55, &ids(&[0, 1, 2])), Some(2));
}

#[test]
fn latest_time_is_greatest_deadline_plus_score() {
    let input = InputData {
        contributors: vec![],
        projects: vec![project("alpha", 2, 10, 50, &[]), project("beta", 1, 100, 7, &[])],
    };
    assert_eq!(latest_time(&input), 107);
}

#[test]
fn score_of_a_foreign_solution_is_refused() {
    let input = InputData {
        contributors: vec![contributor("a", &[(0, 1)])],
        projects: vec![project("p", 2, 10, 1, &[(0, 1)])],
    };
    let good = Solution {
        executed_projects: vec![ExecutedProject { project: 0, contributors: vec![0], start: 3 }],
        estimated_score: 0,
    };
    assert!(good.check_fits(&input));
    assert_eq!(checked_score(&input, &good), Some(6));
    assert_eq!(score(&input, &good), 6);
    let wrong_project = Solution {
        executed_projects: vec![ExecutedProject { project: 1, contributors: vec![0], start: 0 }],
        estimated_score: 0,
    };
    assert!(!wrong_project.check_fits(&input));
    assert_eq!(checked_score(&input, &wrong_project), None);
    let wrong_member = Solution {
        executed_projects: vec![ExecutedProject { project: 0, contributors: vec![0, 1], start: 0 }],
        estimated_score: 0,
    };
    assert!(!wrong_member.check_fits(&input));
    assert_eq!(checked_score(&input, &wrong_member), None);
}

#[test]
fn score_beyond_the_counter_is_refused() {
    let input = InputData {
        contributors: vec![],
        projects: vec![project("p", 0, 65535, 0, &[])],
    };
    let mut executed = Vec::new();
    for _ in 0..65538 {
        executed.push(ExecutedProject { project: 0, contributors: vec![], start: 0 });
    }
    let solution = Solution { executed_projects: executed, estimated_score: 0 };
    assert_eq!(checked_score(&input, &solution), None);
    let mut executed = Vec::new();
    for _ in 0..65537 {
        executed.push(ExecutedProject { project: 0, contributors: vec![], start: 0 });
    }
    let solution = Solution { executed_projects: executed, estimated_score: 0 };
    assert_eq!(checked_score(&input, &solution), Some(65535 * 65537));
}

#[test]
fn reward_counter_stays_at_its_greatest_number() {
    let mut projects = Vec::new();
    for _ in 0..65538 {
        projects.push(project("p", 1, 65535, 1, &[]));
    }
    let input = InputData { contributors: vec![], projects };
    let solution = solve(&input, 1).unwrap();
    assert_eq!(solution.executed_projects.len(), 65538);
    assert_eq!(solution.estimated_score, u32::MAX);
    assert_eq!(checked_score(&input, &solution), None);
    // one project fewer and the counter holds the sum
    let mut projects = Vec::new();
    for _ in 0..65537 {
        projects.push(project("p", 1, 65535, 1, &[]));
    }
    let input = InputData { contributors: vec![], projects };
    let solution = solve(&input, 1).unwrap();
    assert_eq!(solution.estimated_score, u32::MAX);
    assert_eq!(checked_score(&input, &solution), Some(u32::MAX));
    assert_eq!(score(&input, &solution), u32::MAX);
}

#[test]
fn many_unstaffable_projects_give_an_empty_solution() {
    let mut projects = Vec::new();
    for _ in 0..70000 {
        projects.push(project("p", 1, 65535, 1, &[(0, 1)]));
    }
    let input = InputData { contributors: vec![], projects };
    let solution = solve(&input, 1).unwrap();
    assert!(solution.executed_projects.is_empty());
    assert_eq!(solution.estimated_score, 0);
}

#[test]
fn levels_never_fall_during_a_run() {
    let input = InputData {
        contributors: vec![
            contributor("a", &[(0, 3), (1, 1)]),
            contributor("b", &[(0, 1), (1, 4)]),
            contributor("c", &[(1, 2)]),
        ],
        projects: vec![
            project("alpha", 3, 20, 5, &[(0, 2), (1, 2)]),
            project("beta", 2, 15, 6, &[(1, 2)]),
            project("gamma", 4, 30, 10, &[(0, 3), (1, 3), (1, 1)]),
            project("delta", 1, 5, 3, &[(0, 1)]),
        ],
    };
    let mut state = RunState::new(&input);
    let mut before: Vec<Vec<u8>> = Vec::new();
    for c in state.current_contributors.iter() {
        before.push(vec![c.level(0), c.level(1)]);
    }
    for _ in 0..12 {
        state.run_round(&input);
        state.free_up(&input);
        for (a, c) in state.current_contributors.iter().enumerate() {
            assert!(c.level(0) >= before[a][0]);
            assert!(c.level(1) >= before[a][1]);
            before[a] = vec![c.level(0), c.level(1)];
        }
    }
    assert!(!state.executed_projects.is_empty());
}

#[test]
fn every_role_is_met_or_mentored_when_staffed() {
    let contributors = vec![
        contributor("a", &[(0, 3), (1, 1)]),
        contributor("b", &[(0, 2), (1, 4)]),
        contributor("c", &[(1, 3)]),
    ];
    let p = project("p", 1, 1, 1, &[(0, 3), (0, 3), (1, 4)]);
    let picks = assign_contributors(&contributors, &p, &ids(&[0, 1, 2])).unwrap();
    assert_eq!(picks.len(), 3);
    for (k, pick) in picks.iter().enumerate() {
        let level = contributors[pick.0].level(pick.1);
        let met = level >= pick.2;
        let mentored = level + 1 == pick.2
            && picks[..k].iter().any(|m| contributors[m.0].level(pick.1) >= pick.2);
        assert!(met || mentored);
        assert_eq!(pick.1, p.roles[k].skill_id);
        assert_eq!(pick.2, p.roles[k].required_skill_level);
    }
}

/// A small generator of numbers, the same on every run.
fn next(seed: &mut u64, below: u64) -> u64 {
    *seed = seed.wrapping_mul(6364136223846793005).wrapping_add(1442695040888963407);
    (*seed >> 33) % below
}

fn generated(seed: &mut u64) -> InputData {
    let skills = 1 + next(seed, 4) as usize;
    let mut contributors = Vec::new();
    for a in 0..(1 + next(seed, 6)) {
        let mut held = Vec::new();
        for s in 0..skills {
            if next(seed, 3) != 0 {
                held.push((s, 1 + next(seed, 5) as u8));
            }
        }
        contributors.push(contributor(&format!("c{}", a), &held));
    }
    let mut projects = Vec::new();
    for j in 0..(1 + next(seed, 8)) {
        let mut roles = Vec::new();
        for _ in 0..(1 + next(seed, 3)) {
            roles.push((next(seed, skills as u64) as usize, next(seed, 7) as u8));
        }
        projects.push(project(
            &format!("j{}", j),
            next(seed, 6) as u16,
            next(seed, 30) as u16,
            next(seed, 25) as u16,
            &roles,
        ));
    }
    InputData { contributors, projects }
}

#[test]
fn generated_instances_keep_the_laws() {
    let mut seed = 20220224u64;
    let mut started = 0;
    for _ in 0..300 {
        let input = generated(&mut seed);
        let limit = next(&mut seed, 12) as u32;
        let solution = solve(&input, limit).unwrap();
        let runs = &solution.executed_projects;
        started += runs.len();
        assert!(solution.check_fits(&input));
        assert_eq!(checked_score(&input, &solution), Some(solution.estimated_score));
        // levels as they were when each project started
        let mut levels: Vec<HashMap<usize, u8>> =
            input.contributors.iter().map(|c| c.skills.clone()).collect();
        for (i, run) in runs.iter().enumerate() {
            let p = &input.projects[run.project];
            assert_eq!(run.contributors.len(), p.roles.len());
            assert!(score_project(run.start, p) > 0);
            let end = run.start + p.duration as u32;
            for (k, a) in run.contributors.iter().enumerate() {
                assert!(!run.contributors[..k].contains(a));
                let role = &p.roles[k];
                let own = *levels[*a].get(&role.skill_id).unwrap_or(&0);
                let met = own >= role.required_skill_level;
                let mentored = own + 1 == role.required_skill_level
                    && run.contributors[..k].iter().any(|m| {
                        *levels[*m].get(&role.skill_id).unwrap_or(&0) >= role.required_skill_level
                    });
                assert!(met || mentored);
                for other in runs[i + 1..].iter() {
                    if other.contributors.contains(a) {
                        assert!(end <= other.start);
                    }
                }
            }
            for other in runs[i + 1..].iter() {
                assert_ne!(other.project, run.project);
            }
            for (k, a) in run.contributors.iter().enumerate() {
                let role = &p.roles[k];
                let own = *levels[*a].get(&role.skill_id).unwrap_or(&0);
                if role.required_skill_level >= own {
                    levels[*a].insert(role.skill_id, own + 1);
                }
            }
        }
    }
    assert!(started > 100);
}
