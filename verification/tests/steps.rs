use mentorship::parse_input::{
    contributors_from, field_of, number_of, projects_from, roles_from, rows_of, skills_from,
    Contributor, InputData, ParseError, Problem, Project, Role,
};
use mentorship::solvers::errors::SolveError;
use mentorship::solvers::greedy::{assign_contributors, best_level_among, outranks};
use mentorship::solvers::run_state::{copy_contributors, identifiers_below, RunState};
use std::collections::HashMap;

fn contributor(name: &str, skills: &[(usize, u8)]) -> Contributor {
    Contributor {
        name: name.to_string(),
        skills: skills.iter().cloned().collect::<HashMap<usize, u8>>(),
    }
}

fn project(name: &str, duration: u16, score: u16, best_before: u16, roles: &[(usize, u8)]) -> Project {
    Project {
        name: name.to_string(),
        duration,
        score,
        best_before,
        roles: roles
            .iter()
            .map(|r| Role { skill_id: r.0, required_skill_level: r.1 })
            .collect(),
    }
}

fn chars(text: &str) -> Vec<char> {
    text.chars().collect()
}

#[test]
fn identifiers_below_a_bound_are_all_there() {
    let ids = identifiers_below(4);
    assert_eq!(ids.len(), 4);
    for id in 0..4 {
        assert!(ids.contains(&id));
    }
    assert!(!ids.contains(&4));
    assert!(identifiers_below(0).is_empty());
}

#[test]
fn copied_contributors_keep_names_and_levels() {
    let team = vec![contributor("a", &[(0, 2), (5, 9)]), contributor("b", &[])];
    let copy = copy_contributors(&team);
    assert_eq!(copy.len(), 2);
    assert_eq!(copy[0].name, "a");
    assert_eq!(copy[0].skills, team[0].skills);
    assert_eq!(copy[1].name, "b");
    assert!(copy[1].skills.is_empty());
}

#[test]
fn level_of_a_skill_not_held_is_zero() {
    let c = contributor("a", &[(0, 2)]);
    assert_eq!(c.level(0), 2);
    assert_eq!(c.level(1), 0);
}

#[test]
fn run_begins_with_everything_pending_and_everybody_idle() {
    let input = InputData {
        contributors: vec![contributor("a", &[(0, 2)]), contributor("b", &[(1, 1)])],
        projects: vec![project("x", 1, 2, 3, &[(0, 1)])],
    };
    let state = RunState::new(&input);
    assert_eq!(state.current_time, 0);
    assert_eq!(state.estimated_score, 0);
    assert_eq!(state.rounds_without_improvements, 0);
    assert!(state.executed_projects.is_empty());
    assert!(state.contributors_ids_to_freeup_time.is_empty());
    assert_eq!(state.available_projects_ids.len(), 1);
    assert!(state.available_projects_ids.contains(&0));
    assert_eq!(state.available_contributors_ids.len(), 2);
    assert_eq!(state.current_contributors[0].level(0), 2);
    assert_eq!(state.current_contributors[1].level(1), 1);
}

#[test]
fn commit_books_trains_records_and_pays() {
    let input = InputData {
        contributors: vec![
            contributor("senior", &[(0, 4)]),
            contributor("junior", &[(0, 3)]),
            contributor("other", &[(0, 9)]),
        ],
        projects: vec![project("x", 5, 10, 3, &[(0, 4), (0, 4)])],
    };
    let mut state = RunState::new(&input);
    let picks =
        assign_contributors(&state.current_contributors, &input.projects[0], &state.available_contributors_ids)
            .unwrap();
    assert_eq!(picks, vec![(0, 0, 4), (1, 0, 4)]);
    state.commit(&input, 0, picks);
    assert_eq!(state.current_contributors[0].level(0), 5);
    assert_eq!(state.current_contributors[1].level(0), 4);
    assert_eq!(state.current_contributors[2].level(0), 9);
    assert_eq!(state.contributors_ids_to_freeup_time.get(&0), Some(&5));
    assert_eq!(state.contributors_ids_to_freeup_time.get(&1), Some(&5));
    assert_eq!(state.contributors_ids_to_freeup_time.get(&2), None);
    assert!(!state.available_contributors_ids.contains(&0));
    assert!(!state.available_contributors_ids.contains(&1));
    assert!(state.available_contributors_ids.contains(&2));
    assert!(state.available_projects_ids.is_empty());
    assert_eq!(state.executed_projects.len(), 1);
    assert_eq!(state.executed_projects[0].project, 0);
    assert_eq!(state.executed_projects[0].contributors, vec![0, 1]);
    assert_eq!(state.executed_projects[0].start, 0);
    // ends at 5, two instants late
    assert_eq!(state.estimated_score, 8);
    assert_eq!(state.current_time, 0);
}

#[test]
fn clock_moves_one_instant_per_round() {
    let input = InputData {
        contributors: vec![contributor("a", &[(0, 1)])],
        projects: vec![project("x", 7, 10, 30, &[(0, 1)]), project("y", 1, 10, 30, &[(0, 1)])],
    };
    let mut state = RunState::new(&input);
    for round in 1..=7u32 {
        state.run_round(&input);
        assert_eq!(state.current_time, round);
        state.free_up(&input);
    }
    assert!(state.available_contributors_ids.contains(&0));
    assert_eq!(state.rounds_without_improvements, 6);
    state.run_round(&input);
    assert_eq!(state.rounds_without_improvements, 0);
    assert_eq!(state.executed_projects[1].start, 7);
}

#[test]
fn best_level_among_picks_is_the_greatest() {
    let team = vec![
        contributor("a", &[(0, 2), (1, 7)]),
        contributor("b", &[(0, 5)]),
        contributor("c", &[(1, 3)]),
    ];
    assert_eq!(best_level_among(&team, &vec![], 0), 0);
    assert_eq!(best_level_among(&team, &vec![(0, 0, 1)], 0), 2);
    assert_eq!(best_level_among(&team, &vec![(0, 0, 1), (1, 0, 1)], 0), 5);
    assert_eq!(best_level_among(&team, &vec![(1, 0, 1), (2, 1, 1)], 1), 3);
    assert_eq!(best_level_among(&team, &vec![(1, 0, 1)], 1), 0);
}

#[test]
fn worth_is_reward_for_cost() {
    let cheap = project("cheap", 1, 10, 50, &[(0, 1)]);
    let dear = project("dear", 5, 10, 50, &[(0, 1), (0, 1)]);
    let free = project("free", 0, 1, 50, &[(0, 1)]);
    let vain = project("vain", 1, 0, 50, &[(0, 1)]);
    assert!(outranks(0, &cheap, &dear));
    assert!(!outranks(0, &dear, &cheap));
    assert!(!outranks(0, &cheap, &cheap));
    assert!(outranks(0, &free, &cheap));
    assert!(!outranks(0, &cheap, &free));
    assert!(outranks(0, &dear, &vain));
    assert!(!outranks(0, &vain, &dear));
    assert!(!outranks(0, &vain, &vain));
}

#[test]
fn solve_error_keeps_its_reason() {
    let e = SolveError::new("too much".to_string());
    assert_eq!(e.message(), "too much");
    assert_eq!(e.describe(), "Error while solving: too much");
}

#[test]
fn fields_and_numbers_are_found_by_place() {
    let table = rows_of("ab 12\n\nx");
    assert_eq!(field_of(&table, 0, 0), Ok(&chars("ab")));
    assert_eq!(field_of(&table, 0, 1), Ok(&chars("12")));
    assert_eq!(
        field_of(&table, 0, 2),
        Err(ParseError { line: 0, field: 2, problem: Problem::MissingField })
    );
    assert_eq!(field_of(&table, 1, 0), Ok(&chars("")));
    assert_eq!(
        field_of(&table, 3, 4),
        Err(ParseError { line: 3, field: 0, problem: Problem::MissingLine })
    );
    assert_eq!(number_of(&table, 0, 1, 255), Ok(12));
    assert_eq!(
        number_of(&table, 0, 1, 11),
        Err(ParseError { line: 0, field: 1, problem: Problem::InvalidNumber })
    );
    assert_eq!(
        number_of(&table, 0, 0, 255),
        Err(ParseError { line: 0, field: 0, problem: Problem::InvalidNumber })
    );
    assert_eq!(
        number_of(&table, 2, 1, 255),
        Err(ParseError { line: 2, field: 1, problem: Problem::MissingField })
    );
}

#[test]
fn skills_are_numbered_in_order_of_first_mention() {
    let table = rows_of("Go 3\nC 4\nGo 5\nAda 1");
    let mut known = vec![chars("C")];
    let mut line = 0;
    let skills = skills_from(&table, &mut line, 4, &mut known).unwrap();
    assert_eq!(line, 4);
    assert_eq!(known, vec![chars("C"), chars("Go"), chars("Ada")]);
    assert_eq!(skills.len(), 3);
    assert_eq!(skills.get(&0), Some(&4));
    assert_eq!(skills.get(&1), Some(&5));
    assert_eq!(skills.get(&2), Some(&1));
}

#[test]
fn roles_name_known_skills_only() {
    let table = rows_of("first\nGo 3\nC 4\nAda 1");
    let known = vec![chars("C"), chars("Go")];
    let mut line = 1;
    let roles = roles_from(&table, &mut line, 2, &known).unwrap();
    assert_eq!(line, 3);
    assert_eq!(roles.len(), 2);
    assert_eq!((roles[0].skill_id, roles[0].required_skill_level), (1, 3));
    assert_eq!((roles[1].skill_id, roles[1].required_skill_level), (0, 4));
    let mut line = 1;
    assert_eq!(
        roles_from(&table, &mut line, 3, &known).unwrap_err(),
        ParseError { line: 3, field: 0, problem: Problem::UnknownSkill }
    );
    let mut line = 3;
    assert!(roles_from(&table, &mut line, 0, &known).unwrap().is_empty());
    assert_eq!(line, 3);
}

#[test]
fn contributors_and_projects_are_read_from_any_line() {
    let table = rows_of("skip\nAnn 1\nGo 2\nBen 0\nSite 3 9 4 1\nGo 2");
    let mut known = Vec::new();
    let mut line = 1;
    let team = contributors_from(&table, &mut line, 2, &mut known).unwrap();
    assert_eq!(line, 4);
    assert_eq!(team.len(), 2);
    assert_eq!(team[0].name, "Ann");
    assert_eq!(team[0].level(0), 2);
    assert_eq!(team[1].name, "Ben");
    assert!(team[1].skills.is_empty());
    assert_eq!(known, vec![chars("Go")]);
    let projects = projects_from(&table, &mut line, 1, &known).unwrap();
    assert_eq!(projects.len(), 1);
    assert_eq!(projects[0].name, "Site");
    assert_eq!(
        (projects[0].duration, projects[0].score, projects[0].best_before),
        (3, 9, 4)
    );
    assert_eq!(projects[0].roles.len(), 1);
    let mut line = 4;
    assert_eq!(
        projects_from(&table, &mut line, 2, &known).unwrap_err(),
        ParseError { line: 6, field: 0, problem: Problem::MissingLine }
    );
}
