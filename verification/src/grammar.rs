//! The text form of a problem instance, stated over sequences of characters.
//!
//! The text is a sequence of lines, each a sequence of fields with one space
//! between neighbours. The first line holds the number of contributors and
//! the number of projects. Each contributor is a line with a name and a
//! number of skills, then one line for each skill with its name and level.
//! Each project is a line with a name, a duration, a score, the instant it is
//! best finished before, and a number of roles, then one line for each role
//! with the name of its skill and the level it asks for. A skill is known by
//! the order in which the contributors' lines first name it. What follows
//! the last project, and the fields of a line beyond those read, are ignored.
//!
//! The laws at the end say what reading does to the skills: each name has one
//! identifier, which it keeps, and an instance names no skill but known ones.

use crate::parse_input::{ContributorView, InputView, ParseError, Problem, ProjectView, Role};
use crate::text::{number, split};
use vstd::prelude::*;

verus! {

/// The lines of `text`, each split into its fields.
pub open spec fn rows(text: Seq<char>) -> Seq<Seq<Seq<char>>> {
    Seq::new(split(text, '\n').len(), |i: int| split(split(text, '\n')[i], ' '))
}

/// The failure to report at a place.
pub open spec fn fault(line: int, field: int, problem: Problem) -> ParseError {
    ParseError { line: line as usize, field: field as usize, problem }
}

/// Field `field` of line `line`.
pub open spec fn field_at(table: Seq<Seq<Seq<char>>>, line: int, field: int) -> Result<
    Seq<char>,
    ParseError,
> {
    if line >= table.len() {
        Err(fault(line, 0, Problem::MissingLine))
    } else if field >= table[line].len() {
        Err(fault(line, field, Problem::MissingField))
    } else {
        Ok(table[line][field])
    }
}

/// The number up to `max` that field `field` of line `line` stands for.
pub open spec fn number_at(table: Seq<Seq<Seq<char>>>, line: int, field: int, max: nat) -> Result<
    nat,
    ParseError,
> {
    match field_at(table, line, field) {
        Err(e) => Err(e),
        Ok(text) => match number(text, max) {
            Some(n) => Ok(n),
            None => Err(fault(line, field, Problem::InvalidNumber)),
        },
    }
}

/// The first place at which `known` holds `name`.
pub open spec fn position(known: Seq<Seq<char>>, name: Seq<char>) -> Option<int>
    decreases known.len(),
{
    if known.len() == 0 {
        None
    } else {
        match position(known.drop_last(), name) {
            Some(id) => Some(id),
            None => if known.last() == name {
                Some(known.len() - 1)
            } else {
                None
            },
        }
    }
}

/// Reads `count` skill lines from line `line` on, into `skills`; a skill not
/// yet among `known` joins them at the end. Returns the skill map and the
/// known skills.
pub open spec fn read_skills(
    table: Seq<Seq<Seq<char>>>,
    line: int,
    count: nat,
    known: Seq<Seq<char>>,
    skills: Map<usize, u8>,
) -> Result<(Map<usize, u8>, Seq<Seq<char>>), ParseError>
    decreases count,
{
    if count == 0 {
        Ok((skills, known))
    } else {
        match field_at(table, line, 0) {
            Err(e) => Err(e),
            Ok(name) => match number_at(table, line, 1, u8::MAX as nat) {
                Err(e) => Err(e),
                Ok(level) => match position(known, name) {
                    Some(id) => read_skills(
                        table,
                        line + 1,
                        (count - 1) as nat,
                        known,
                        skills.insert(id as usize, level as u8),
                    ),
                    None => read_skills(
                        table,
                        line + 1,
                        (count - 1) as nat,
                        known.push(name),
                        skills.insert(known.len() as usize, level as u8),
                    ),
                },
            },
        }
    }
}

/// Reads `count` contributors from line `line` on, after `done`. Returns the
/// contributors, the known skills and the line that follows.
pub open spec fn read_contributors(
    table: Seq<Seq<Seq<char>>>,
    line: int,
    count: nat,
    known: Seq<Seq<char>>,
    done: Seq<ContributorView>,
) -> Result<(Seq<ContributorView>, Seq<Seq<char>>, int), ParseError>
    decreases count,
{
    if count == 0 {
        Ok((done, known, line))
    } else {
        match field_at(table, line, 0) {
            Err(e) => Err(e),
            Ok(name) => match number_at(table, line, 1, usize::MAX as nat) {
                Err(e) => Err(e),
                Ok(skill_count) => match read_skills(
                    table,
                    line + 1,
                    skill_count,
                    known,
                    Map::empty(),
                ) {
                    Err(e) => Err(e),
                    Ok((skills, known_then)) => read_contributors(
                        table,
                        line + 1 + skill_count,
                        (count - 1) as nat,
                        known_then,
                        done.push(ContributorView { name, skills }),
                    ),
                },
            },
        }
    }
}

/// Reads `count` role lines from line `line` on, after `done`.
pub open spec fn read_roles(
    table: Seq<Seq<Seq<char>>>,
    line: int,
    count: nat,
    known: Seq<Seq<char>>,
    done: Seq<Role>,
) -> Result<Seq<Role>, ParseError>
    decreases count,
{
    if count == 0 {
        Ok(done)
    } else {
        match field_at(table, line, 0) {
            Err(e) => Err(e),
            Ok(name) => match number_at(table, line, 1, u8::MAX as nat) {
                Err(e) => Err(e),
                Ok(level) => match position(known, name) {
                    None => Err(fault(line, 0, Problem::UnknownSkill)),
                    Some(id) => read_roles(
                        table,
                        line + 1,
                        (count - 1) as nat,
                        known,
                        done.push(
                            Role { skill_id: id as usize, required_skill_level: level as u8 },
                        ),
                    ),
                },
            },
        }
    }
}

/// Reads `count` projects from line `line` on, after `done`.
pub open spec fn read_projects(
    table: Seq<Seq<Seq<char>>>,
    line: int,
    count: nat,
    known: Seq<Seq<char>>,
    done: Seq<ProjectView>,
) -> Result<Seq<ProjectView>, ParseError>
    decreases count,
{
    if count == 0 {
        Ok(done)
    } else {
        match field_at(table, line, 0) {
            Err(e) => Err(e),
            Ok(name) => match number_at(table, line, 1, u16::MAX as nat) {
                Err(e) => Err(e),
                Ok(duration) => match number_at(table, line, 2, u16::MAX as nat) {
                    Err(e) => Err(e),
                    Ok(score) => match number_at(table, line, 3, u16::MAX as nat) {
                        Err(e) => Err(e),
                        Ok(best_before) => match number_at(table, line, 4, u8::MAX as nat) {
                            Err(e) => Err(e),
                            Ok(role_count) => match read_roles(
                                table,
                                line + 1,
                                role_count,
                                known,
                                Seq::empty(),
                            ) {
                                Err(e) => Err(e),
                                Ok(roles) => read_projects(
                                    table,
                                    line + 1 + role_count,
                                    (count - 1) as nat,
                                    known,
                                    done.push(
                                        ProjectView {
                                            name,
                                            duration: duration as u16,
                                            score: score as u16,
                                            best_before: best_before as u16,
                                            roles,
                                        },
                                    ),
                                ),
                            },
                        },
                    },
                },
            },
        }
    }
}

/// The problem instance that the lines of `table` spell, or the first place
/// where they fail to.
pub open spec fn read_instance(table: Seq<Seq<Seq<char>>>) -> Result<InputView, ParseError> {
    match number_at(table, 0, 0, usize::MAX as nat) {
        Err(e) => Err(e),
        Ok(contributor_count) => match number_at(table, 0, 1, usize::MAX as nat) {
            Err(e) => Err(e),
            Ok(project_count) => match read_contributors(
                table,
                1,
                contributor_count,
                Seq::empty(),
                Seq::empty(),
            ) {
                Err(e) => Err(e),
                Ok((contributors, known, line)) => match read_projects(
                    table,
                    line,
                    project_count,
                    known,
                    Seq::empty(),
                ) {
                    Err(e) => Err(e),
                    Ok(projects) => Ok(InputView { contributors, projects }),
                },
            },
        },
    }
}

/// The problem instance that `text` spells, or the first place where it
/// fails to.
pub open spec fn parsed(text: Seq<char>) -> Result<InputView, ParseError> {
    read_instance(rows(text))
}

/// A skill is found at the first place that holds its name, and not found
/// only where no place holds it.
pub proof fn law_position_is_first(known: Seq<Seq<char>>, name: Seq<char>)
    ensures
        match position(known, name) {
            Some(id) => {
                &&& 0 <= id < known.len()
                &&& known[id] == name
                &&& forall|i: int| 0 <= i < id ==> known[i] != name
            },
            None => forall|i: int| 0 <= i < known.len() ==> known[i] != name,
        },
    decreases known.len(),
{
    if known.len() > 0 {
        let rest = known.drop_last();
        law_position_is_first(rest, name);
        match position(rest, name) {
            Some(id) => {
                assert(rest[id] == known[id]);
                assert forall|i: int| 0 <= i < id implies known[i] != name by {
                    assert(rest[i] == known[i]);
                }
            },
            None => {
                assert forall|i: int| 0 <= i < known.len() - 1 implies known[i] != name by {
                    assert(rest[i] == known[i]);
                }
            },
        }
    }
}

/// Whether `later` holds the skills of `known` at their places, and maybe
/// more after them.
pub open spec fn keeps_identifiers(known: Seq<Seq<char>>, later: Seq<Seq<char>>) -> bool {
    &&& known.len() <= later.len()
    &&& forall|i: int| 0 <= i < known.len() ==> later[i] == known[i]
}

/// Reading skills keeps the identifiers of the skills known before, gives no
/// name two identifiers, and gives the contributor no skill but known ones.
pub proof fn law_skills_are_interned(
    table: Seq<Seq<Seq<char>>>,
    line: int,
    count: nat,
    known: Seq<Seq<char>>,
    skills: Map<usize, u8>,
)
    requires
        0 <= line <= table.len(),
        known.len() + (table.len() - line) <= usize::MAX,
        known.no_duplicates(),
        forall|s: usize| skills.contains_key(s) ==> s < known.len(),
    ensures
        read_skills(table, line, count, known, skills) matches Ok((held, later)) ==> {
            &&& keeps_identifiers(known, later)
            &&& later.no_duplicates()
            &&& later.len() + (table.len() - (line + count)) <= usize::MAX
            &&& line + count <= table.len()
            &&& forall|s: usize| held.contains_key(s) ==> s < later.len()
        },
    decreases count,
{
    if count > 0 {
        if let Ok(name) = field_at(table, line, 0) {
            if let Ok(level) = number_at(table, line, 1, u8::MAX as nat) {
                law_position_is_first(known, name);
                match position(known, name) {
                    Some(id) => {
                        law_skills_are_interned(
                            table,
                            line + 1,
                            (count - 1) as nat,
                            known,
                            skills.insert(id as usize, level as u8),
                        );
                    },
                    None => {
                        let more = known.push(name);
                        assert(more.no_duplicates());
                        law_skills_are_interned(
                            table,
                            line + 1,
                            (count - 1) as nat,
                            more,
                            skills.insert(known.len() as usize, level as u8),
                        );
                        if let Ok((held, later)) = read_skills(
                            table,
                            line + 1,
                            (count - 1) as nat,
                            more,
                            skills.insert(known.len() as usize, level as u8),
                        ) {
                            assert forall|i: int| 0 <= i < known.len() implies later[i]
                                == known[i] by {
                                assert(more[i] == known[i]);
                            }
                        }
                    },
                }
            }
        }
    }
}

/// Whether every skill that a contributor of `contributors` holds is one
/// of the first `count` skills.
pub open spec fn skills_below(contributors: Seq<ContributorView>, count: nat) -> bool {
    forall|a: int, s: usize|
        0 <= a < contributors.len() && #[trigger] contributors[a].skills.contains_key(s) ==> s
            < count
}

/// Whether every role of `roles` names one of the first `count` skills.
pub open spec fn roles_below(roles: Seq<Role>, count: nat) -> bool {
    forall|k: int| 0 <= k < roles.len() ==> (#[trigger] roles[k]).skill_id < count
}

/// Whether every role of every project names one of the first `count` skills.
pub open spec fn projects_below(projects: Seq<ProjectView>, count: nat) -> bool {
    forall|j: int| 0 <= j < projects.len() ==> roles_below((#[trigger] projects[j]).roles, count)
}

/// Reading contributors keeps the identifiers of the skills known before,
/// gives no name two identifiers, and gives the contributors no skill but
/// known ones.
pub proof fn law_contributors_are_interned(
    table: Seq<Seq<Seq<char>>>,
    line: int,
    count: nat,
    known: Seq<Seq<char>>,
    done: Seq<ContributorView>,
)
    requires
        0 <= line <= table.len(),
        known.len() + (table.len() - line) <= usize::MAX,
        known.no_duplicates(),
        skills_below(done, known.len()),
    ensures
        read_contributors(table, line, count, known, done) matches Ok((all, later, next)) ==> {
            &&& keeps_identifiers(known, later)
            &&& later.no_duplicates()
            &&& line <= next <= table.len()
            &&& later.len() + (table.len() - next) <= usize::MAX
            &&& skills_below(all, later.len())
        },
    decreases count,
{
    if count > 0 {
        if let Ok(name) = field_at(table, line, 0) {
            if let Ok(skill_count) = number_at(table, line, 1, usize::MAX as nat) {
                law_skills_are_interned(table, line + 1, skill_count, known, Map::empty());
                if let Ok((skills, known_then)) = read_skills(
                    table,
                    line + 1,
                    skill_count,
                    known,
                    Map::empty(),
                ) {
                    let more = done.push(ContributorView { name, skills });
                    assert forall|a: int, s: usize|
                        0 <= a < more.len() && #[trigger] more[a].skills.contains_key(
                            s,
                        ) implies s < known_then.len() by {
                        if a < done.len() {
                            assert(done[a].skills.contains_key(s));
                        }
                    }
                    law_contributors_are_interned(
                        table,
                        line + 1 + skill_count,
                        (count - 1) as nat,
                        known_then,
                        more,
                    );
                }
            }
        }
    }
}

/// Reading roles gives each the identifier of a known skill.
pub proof fn law_roles_name_known_skills(
    table: Seq<Seq<Seq<char>>>,
    line: int,
    count: nat,
    known: Seq<Seq<char>>,
    done: Seq<Role>,
)
    requires
        known.len() <= usize::MAX,
        roles_below(done, known.len()),
    ensures
        read_roles(table, line, count, known, done) matches Ok(roles) ==> roles_below(
            roles,
            known.len(),
        ),
    decreases count,
{
    if count > 0 {
        if let Ok(name) = field_at(table, line, 0) {
            if let Ok(level) = number_at(table, line, 1, u8::MAX as nat) {
                law_position_is_first(known, name);
                if let Some(id) = position(known, name) {
                    let role = Role { skill_id: id as usize, required_skill_level: level as u8 };
                    let more = done.push(role);
                    assert forall|k: int| 0 <= k < more.len() implies (#[trigger] more[k]).skill_id
                        < known.len() by {
                        if k < done.len() {
                            assert(more[k] == done[k]);
                        }
                    }
                    law_roles_name_known_skills(table, line + 1, (count - 1) as nat, known, more);
                }
            }
        }
    }
}

/// Reading projects gives each role the identifier of a known skill.
pub proof fn law_projects_name_known_skills(
    table: Seq<Seq<Seq<char>>>,
    line: int,
    count: nat,
    known: Seq<Seq<char>>,
    done: Seq<ProjectView>,
)
    requires
        known.len() <= usize::MAX,
        projects_below(done, known.len()),
    ensures
        read_projects(table, line, count, known, done) matches Ok(projects) ==> projects_below(
            projects,
            known.len(),
        ),
    decreases count,
{
    if count > 0 {
        if let Ok(name) = field_at(table, line, 0) {
            if let Ok(duration) = number_at(table, line, 1, u16::MAX as nat) {
                if let Ok(score) = number_at(table, line, 2, u16::MAX as nat) {
                    if let Ok(best_before) = number_at(table, line, 3, u16::MAX as nat) {
                        if let Ok(role_count) = number_at(table, line, 4, u8::MAX as nat) {
                            law_roles_name_known_skills(
                                table,
                                line + 1,
                                role_count,
                                known,
                                Seq::empty(),
                            );
                            if let Ok(roles) = read_roles(
                                table,
                                line + 1,
                                role_count,
                                known,
                                Seq::empty(),
                            ) {
                                let project = ProjectView {
                                    name,
                                    duration: duration as u16,
                                    score: score as u16,
                                    best_before: best_before as u16,
                                    roles,
                                };
                                let more = done.push(project);
                                assert forall|j: int| 0 <= j < more.len() implies roles_below(
                                    (#[trigger] more[j]).roles,
                                    known.len(),
                                ) by {
                                    if j < done.len() {
                                        assert(more[j] == done[j]);
                                    }
                                }
                                law_projects_name_known_skills(
                                    table,
                                    line + 1 + role_count,
                                    (count - 1) as nat,
                                    known,
                                    more,
                                );
                            }
                        }
                    }
                }
            }
        }
    }
}

/// The names of the skills of `text`, each at the place that is its
/// identifier: the order in which the contributors' lines first name them.
pub open spec fn skill_names(text: Seq<char>) -> Seq<Seq<char>> {
    match number_at(rows(text), 0, 0, usize::MAX as nat) {
        Ok(contributor_count) => match read_contributors(
            rows(text),
            1,
            contributor_count,
            Seq::empty(),
            Seq::empty(),
        ) {
            Ok((_, known, _)) => known,
            Err(_) => Seq::empty(),
        },
        Err(_) => Seq::empty(),
    }
}

/// In an instance read from a text skills are interned: the identifiers are
/// the places of the skill names, no name has two, and every skill that a
/// contributor holds or a role asks for is one of them.
pub proof fn law_parsed_skills_are_interned(text: Seq<char>)
    requires
        rows(text).len() <= usize::MAX,
    ensures
        parsed(text) matches Ok(input) ==> {
            &&& skill_names(text).no_duplicates()
            &&& skills_below(input.contributors, skill_names(text).len())
            &&& projects_below(input.projects, skill_names(text).len())
        },
{
    let table = rows(text);
    if let Ok(contributor_count) = number_at(table, 0, 0, usize::MAX as nat) {
        if let Ok(project_count) = number_at(table, 0, 1, usize::MAX as nat) {
            law_contributors_are_interned(table, 1, contributor_count, Seq::empty(), Seq::empty());
            if let Ok((contributors, known, line)) = read_contributors(
                table,
                1,
                contributor_count,
                Seq::empty(),
                Seq::empty(),
            ) {
                law_projects_name_known_skills(table, line, project_count, known, Seq::empty());
            }
        }
    }
}

} // verus!
