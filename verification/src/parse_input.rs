//! The problem model: contributors with their skills, projects with their
//! roles, and the reader of its text form.

use crate::grammar::{
    fault, field_at, law_parsed_skills_are_interned, number_at, parsed, position,
    projects_below, read_contributors, read_projects, read_roles, read_skills, rows,
    skill_names, skills_below,
};
use crate::text::{
    append_decimal, chars_of, decimal, parse_number, pieces_of, split, split_chars, string_of,
};
use std::collections::HashMap;
use vstd::prelude::*;
use vstd::string::*;

verus! {

/// One role of a project: a skill and the least level that fills it.
#[derive(Debug, Clone, Copy)]
pub struct Role {
    pub skill_id: usize,
    pub required_skill_level: u8,
}

/// A project: how long it takes, what it pays when it ends by `best_before`,
/// and the roles to fill, in order.
#[derive(Debug)]
pub struct Project {
    pub name: String,
    pub duration: u16,
    pub score: u16,
    pub best_before: u16,
    pub roles: Vec<Role>,
}

/// A contributor: a name and a level for each skill held.
#[derive(Debug)]
pub struct Contributor {
    pub name: String,
    pub skills: HashMap<usize, u8>,
}

/// A problem instance. Contributors and projects are known by their position.
#[derive(Debug)]
pub struct InputData {
    pub contributors: Vec<Contributor>,
    pub projects: Vec<Project>,
}

/// A project as the model sees one: plain numbers and sequences.
pub struct ProjectView {
    pub name: Seq<char>,
    pub duration: u16,
    pub score: u16,
    pub best_before: u16,
    pub roles: Seq<Role>,
}

/// A contributor as the model sees one: the name and the skill map.
pub struct ContributorView {
    pub name: Seq<char>,
    pub skills: Map<usize, u8>,
}

/// A problem instance as the model sees it.
pub struct InputView {
    pub contributors: Seq<ContributorView>,
    pub projects: Seq<ProjectView>,
}

impl View for Project {
    type V = ProjectView;

    open spec fn view(&self) -> ProjectView {
        ProjectView {
            name: self.name@,
            duration: self.duration,
            score: self.score,
            best_before: self.best_before,
            roles: self.roles@,
        }
    }
}

impl View for Contributor {
    type V = ContributorView;

    open spec fn view(&self) -> ContributorView {
        ContributorView { name: self.name@, skills: self.skills@ }
    }
}

/// The contributors as the model sees them, position by position.
pub open spec fn contributor_views(contributors: Seq<Contributor>) -> Seq<ContributorView> {
    Seq::new(contributors.len(), |a: int| contributors[a]@)
}

/// The projects as the model sees them, position by position.
pub open spec fn project_views(projects: Seq<Project>) -> Seq<ProjectView> {
    Seq::new(projects.len(), |j: int| projects[j]@)
}

impl View for InputData {
    type V = InputView;

    open spec fn view(&self) -> InputView {
        InputView {
            contributors: contributor_views(self.contributors@),
            projects: project_views(self.projects@),
        }
    }
}

impl InputView {
    /// The skill maps of the contributors, position by position.
    pub open spec fn levels(self) -> Levels {
        Seq::new(self.contributors.len(), |a: int| self.contributors[a].skills)
    }
}

/// The levels of all contributors: a skill map for each, position by position.
pub type Levels = Seq<Map<usize, u8>>;

/// The level a skill map gives a skill: the entry, or zero where there is none.
pub open spec fn level_in(skills: Map<usize, u8>, skill: usize) -> u8 {
    if skills.contains_key(skill) {
        skills[skill]
    } else {
        0
    }
}

/// The skill maps of a sequence of contributors, position by position.
pub open spec fn levels_of(contributors: Seq<Contributor>) -> Levels {
    Seq::new(contributors.len(), |i: int| contributors[i].skills@)
}

impl Contributor {
    /// The contributor's level in `skill`.
    pub open spec fn spec_level(&self, skill: usize) -> u8 {
        level_in(self.skills@, skill)
    }

    /// The contributor's level in `skill`, zero where the skill is not held.
    #[verifier::when_used_as_spec(spec_level)]
    pub fn level(&self, skill: usize) -> (l: u8)
        ensures
            l == self.spec_level(skill),
    {
        match self.skills.get(&skill) {
            Some(l) => *l,
            None => 0,
        }
    }
}

/// What is wrong with a text.
#[derive(Debug, Clone, Copy, PartialEq, Eq, Structural)]
pub enum Problem {
    /// The text ends before the line.
    MissingLine,
    /// The line ends before the field.
    MissingField,
    /// The field is no numeral, or stands for more than fits its place.
    InvalidNumber,
    /// The role names a skill that no contributor's line has named.
    UnknownSkill,
}

/// A text that is no problem instance: the first place where it fails, by
/// line and field, both counted from zero, and what is wrong there.
#[derive(Debug, Clone, Copy, PartialEq, Eq, Structural)]
pub struct ParseError {
    pub line: usize,
    pub field: usize,
    pub problem: Problem,
}

/// What is wrong, in words.
pub open spec fn problem_text(problem: Problem) -> Seq<char> {
    match problem {
        Problem::MissingLine => "missing line"@,
        Problem::MissingField => "missing field"@,
        Problem::InvalidNumber => "invalid number"@,
        Problem::UnknownSkill => "unknown skill"@,
    }
}

/// The text to show for a failure: a fixed heading, what is wrong, and the
/// line and field, both counted from zero.
pub open spec fn error_text(e: ParseError) -> Seq<char> {
    "Error in parsing input: "@ + problem_text(e.problem) + " at line "@ + decimal(e.line as nat)
        + ", field "@ + decimal(e.field as nat)
}

impl ParseError {
    /// The text to show for the failure.
    pub fn describe(&self) -> (text: String)
        ensures
            text@ == error_text(*self),
    {
        let mut text: String = String::from_str("Error in parsing input: ");
        match self.problem {
            Problem::MissingLine => text.append("missing line"),
            Problem::MissingField => text.append("missing field"),
            Problem::InvalidNumber => text.append("invalid number"),
            Problem::UnknownSkill => text.append("unknown skill"),
        }
        text.append(" at line ");
        append_decimal(&mut text, self.line);
        text.append(", field ");
        append_decimal(&mut text, self.field);
        text
    }

    /// The failure at a place.
    pub fn at(line: usize, field: usize, problem: Problem) -> (e: Self)
        ensures
            e == fault(line as int, field as int, problem),
    {
        ParseError { line, field, problem }
    }
}

/// What a vector of lines, each a vector of fields, holds, as sequences.
pub open spec fn table_of(lines: Seq<Vec<Vec<char>>>) -> Seq<Seq<Seq<char>>> {
    Seq::new(lines.len(), |i: int| pieces_of(lines[i]@))
}

/// The lines of `text`, each split into its fields.
pub fn rows_of(text: &str) -> (table: Vec<Vec<Vec<char>>>)
    ensures
        table_of(table@) == rows(text@),
{
    let chars: Vec<char> = chars_of(text);
    let lines: Vec<Vec<char>> = split_chars(chars.as_slice(), '\n');
    let mut table: Vec<Vec<Vec<char>>> = Vec::new();
    let mut i: usize = 0;
    while i < lines.len()
        invariant
            i <= lines.len(),
            table.len() == i,
            pieces_of(lines@) == split(text@, '\n'),
            forall|k: int| 0 <= k < i ==> pieces_of(#[trigger] table[k]@) == split(lines[k]@, ' '),
        decreases lines.len() - i,
    {
        table.push(split_chars(lines[i].as_slice(), ' '));
        i = i + 1;
    }
    proof {
        assert forall|k: int| 0 <= k < table.len() implies #[trigger] table_of(table@)[k] == rows(
            text@,
        )[k] by {
            assert(pieces_of(lines@)[k] == lines[k]@);
        }
        assert(table_of(table@) =~= rows(text@));
    }
    table
}

/// Whether two vectors hold the same characters.
pub fn same_chars(one: &[char], other: &[char]) -> (same: bool)
    ensures
        same == (one@ == other@),
{
    if one.len() != other.len() {
        return false;
    }
    let mut i: usize = 0;
    while i < one.len()
        invariant
            i <= one.len(),
            one.len() == other.len(),
            forall|k: int| 0 <= k < i ==> one[k] == other[k],
        decreases one.len() - i,
    {
        if one[i] != other[i] {
            return false;
        }
        i = i + 1;
    }
    assert(one@ =~= other@);
    true
}

/// A name found in a longer list at the place where a shorter one holds it
/// first.
pub proof fn lemma_position_stays(known: Seq<Seq<char>>, name: Seq<char>, shorter: int)
    requires
        0 <= shorter <= known.len(),
        position(known.take(shorter), name) is Some,
    ensures
        position(known, name) == position(known.take(shorter), name),
    decreases known.len(),
{
    if shorter < known.len() {
        assert(known.drop_last().take(shorter) =~= known.take(shorter));
        lemma_position_stays(known.drop_last(), name, shorter);
    } else {
        assert(known.take(shorter) =~= known);
    }
}

/// The identifier of the skill called `name`: the first place at which
/// `known` holds it.
pub fn find_skill(known: &Vec<Vec<char>>, name: &[char]) -> (found: Option<usize>)
    ensures
        match found {
            Some(id) => position(pieces_of(known@), name@) == Some(id as int),
            None => position(pieces_of(known@), name@) is None,
        },
{
    let ghost names = pieces_of(known@);
    let mut id: usize = 0;
    proof {
        assert(names.take(0) =~= Seq::<Seq<char>>::empty());
    }
    while id < known.len()
        invariant
            id <= known.len(),
            names == pieces_of(known@),
            position(names.take(id as int), name@) is None,
        decreases known.len() - id,
    {
        proof {
            assert(names.take(id + 1).drop_last() =~= names.take(id as int));
            assert(names.take(id + 1).last() == known[id as int]@);
        }
        if same_chars(known[id].as_slice(), name) {
            proof {
                lemma_position_stays(names, name@, id + 1);
            }
            return Some(id);
        }
        id = id + 1;
    }
    proof {
        assert(names.take(id as int) =~= names);
    }
    None
}

/// Field `field` of line `line`.
pub fn field_of(table: &Vec<Vec<Vec<char>>>, line: usize, field: usize) -> (found: Result<
    &Vec<char>,
    ParseError,
>)
    ensures
        match found {
            Ok(text) => field_at(table_of(table@), line as int, field as int) == Ok::<
                Seq<char>,
                ParseError,
            >(text@) && line < table.len(),
            Err(e) => field_at(table_of(table@), line as int, field as int) == Err::<
                Seq<char>,
                ParseError,
            >(e),
        },
{
    if line >= table.len() {
        Err(ParseError::at(line, 0, Problem::MissingLine))
    } else if field >= table[line].len() {
        Err(ParseError::at(line, field, Problem::MissingField))
    } else {
        Ok(&table[line][field])
    }
}

/// The number up to `max` that field `field` of line `line` stands for.
pub fn number_of(table: &Vec<Vec<Vec<char>>>, line: usize, field: usize, max: u64) -> (found:
    Result<u64, ParseError>)
    ensures
        match found {
            Ok(n) => number_at(table_of(table@), line as int, field as int, max as nat) == Ok::<
                nat,
                ParseError,
            >(n as nat) && n <= max && line < table.len(),
            Err(e) => number_at(table_of(table@), line as int, field as int, max as nat) == Err::<
                nat,
                ParseError,
            >(e),
        },
{
    match field_of(table, line, field) {
        Err(e) => Err(e),
        Ok(text) => match parse_number(text.as_slice(), max) {
            Some(n) => Ok(n),
            None => Err(ParseError::at(line, field, Problem::InvalidNumber)),
        },
    }
}

/// Reads `count` skill lines from `line` on. A skill not yet among `known`
/// joins them at the end. Leaves `line` at the line that follows.
pub fn skills_from(
    table: &Vec<Vec<Vec<char>>>,
    line: &mut usize,
    count: usize,
    known: &mut Vec<Vec<char>>,
) -> (found: Result<HashMap<usize, u8>, ParseError>)
    requires
        *old(line) <= table.len(),
    ensures
        match found {
            Ok(skills) => {
                &&& read_skills(
                    table_of(table@),
                    *old(line) as int,
                    count as nat,
                    pieces_of(old(known)@),
                    Map::empty(),
                ) == Ok::<(Map<usize, u8>, Seq<Seq<char>>), ParseError>(
                    (skills@, pieces_of(final(known)@)),
                )
                &&& *final(line) == *old(line) + count
                &&& *final(line) <= table.len()
            },
            Err(e) => read_skills(
                table_of(table@),
                *old(line) as int,
                count as nat,
                pieces_of(old(known)@),
                Map::empty(),
            ) == Err::<(Map<usize, u8>, Seq<Seq<char>>), ParseError>(e),
        },
{
    let ghost rows = table_of(table@);
    let ghost whole = read_skills(
        rows,
        *line as int,
        count as nat,
        pieces_of(known@),
        Map::empty(),
    );
    let mut skills: HashMap<usize, u8> = HashMap::new();
    let mut k: usize = 0;
    while k < count
        invariant
            k <= count,
            rows == table_of(table@),
            *line == *old(line) + k,
            *line <= table.len(),
            whole == read_skills(
                rows,
                *old(line) as int,
                count as nat,
                pieces_of(old(known)@),
                Map::empty(),
            ),
            whole == read_skills(
                rows,
                *line as int,
                (count - k) as nat,
                pieces_of(known@),
                skills@,
            ),
        decreases count - k,
    {
        let name: &Vec<char> = match field_of(table, *line, 0) {
            Ok(name) => name,
            Err(e) => {
                return Err(e);
            },
        };
        let level: u8 = match number_of(table, *line, 1, 255) {
            Ok(level) => level as u8,
            Err(e) => {
                return Err(e);
            },
        };
        let ghost names = pieces_of(known@);
        match find_skill(known, name.as_slice()) {
            Some(id) => {
                skills.insert(id, level);
            },
            None => {
                skills.insert(known.len(), level);
                known.push(name.clone());
                proof {
                    assert(pieces_of(known@) =~= names.push(name@));
                }
            },
        }
        *line = *line + 1;
        k = k + 1;
    }
    Ok(skills)
}

/// Reads `count` role lines from `line` on. Leaves `line` at the line that
/// follows.
pub fn roles_from(
    table: &Vec<Vec<Vec<char>>>,
    line: &mut usize,
    count: usize,
    known: &Vec<Vec<char>>,
) -> (found: Result<Vec<Role>, ParseError>)
    requires
        *old(line) <= table.len(),
    ensures
        match found {
            Ok(roles) => {
                &&& read_roles(
                    table_of(table@),
                    *old(line) as int,
                    count as nat,
                    pieces_of(known@),
                    Seq::empty(),
                ) == Ok::<Seq<Role>, ParseError>(roles@)
                &&& *final(line) == *old(line) + count
                &&& *final(line) <= table.len()
            },
            Err(e) => read_roles(
                table_of(table@),
                *old(line) as int,
                count as nat,
                pieces_of(known@),
                Seq::empty(),
            ) == Err::<Seq<Role>, ParseError>(e),
        },
{
    let ghost rows = table_of(table@);
    let ghost whole = read_roles(rows, *line as int, count as nat, pieces_of(known@), Seq::empty());
    let mut roles: Vec<Role> = Vec::new();
    let mut k: usize = 0;
    while k < count
        invariant
            k <= count,
            rows == table_of(table@),
            *line == *old(line) + k,
            *line <= table.len(),
            whole == read_roles(
                rows,
                *old(line) as int,
                count as nat,
                pieces_of(known@),
                Seq::empty(),
            ),
            whole == read_roles(rows, *line as int, (count - k) as nat, pieces_of(known@), roles@),
        decreases count - k,
    {
        let name: &Vec<char> = match field_of(table, *line, 0) {
            Ok(name) => name,
            Err(e) => {
                return Err(e);
            },
        };
        let level: u8 = match number_of(table, *line, 1, 255) {
            Ok(level) => level as u8,
            Err(e) => {
                return Err(e);
            },
        };
        match find_skill(known, name.as_slice()) {
            Some(id) => {
                roles.push(Role { skill_id: id, required_skill_level: level });
            },
            None => {
                return Err(ParseError::at(*line, 0, Problem::UnknownSkill));
            },
        }
        *line = *line + 1;
        k = k + 1;
    }
    Ok(roles)
}

/// Reads `count` contributors from `line` on. Leaves `line` at the line
/// that follows and `known` with the skills they name.
pub fn contributors_from(
    table: &Vec<Vec<Vec<char>>>,
    line: &mut usize,
    count: usize,
    known: &mut Vec<Vec<char>>,
) -> (found: Result<Vec<Contributor>, ParseError>)
    requires
        *old(line) <= table.len(),
    ensures
        match found {
            Ok(contributors) => {
                &&& read_contributors(
                    table_of(table@),
                    *old(line) as int,
                    count as nat,
                    pieces_of(old(known)@),
                    Seq::empty(),
                ) == Ok::<(Seq<ContributorView>, Seq<Seq<char>>, int), ParseError>(
                    (
                        contributor_views(contributors@),
                        pieces_of(final(known)@),
                        *final(line) as int,
                    ),
                )
                &&& *final(line) <= table.len()
            },
            Err(e) => read_contributors(
                table_of(table@),
                *old(line) as int,
                count as nat,
                pieces_of(old(known)@),
                Seq::empty(),
            ) == Err::<(Seq<ContributorView>, Seq<Seq<char>>, int), ParseError>(e),
        },
{
    let ghost rows = table_of(table@);
    let ghost whole = read_contributors(
        rows,
        *line as int,
        count as nat,
        pieces_of(known@),
        Seq::empty(),
    );
    let mut contributors: Vec<Contributor> = Vec::new();
    let mut k: usize = 0;
    proof {
        assert(contributor_views(contributors@) =~= Seq::<ContributorView>::empty());
    }
    while k < count
        invariant
            k <= count,
            rows == table_of(table@),
            *line <= table.len(),
            whole == read_contributors(
                rows,
                *old(line) as int,
                count as nat,
                pieces_of(old(known)@),
                Seq::empty(),
            ),
            whole == read_contributors(
                rows,
                *line as int,
                (count - k) as nat,
                pieces_of(known@),
                contributor_views(contributors@),
            ),
        decreases count - k,
    {
        let name: &Vec<char> = match field_of(table, *line, 0) {
            Ok(name) => name,
            Err(e) => {
                return Err(e);
            },
        };
        let skill_count: usize = match number_of(table, *line, 1, usize::MAX as u64) {
            Ok(n) => n as usize,
            Err(e) => {
                return Err(e);
            },
        };
        *line = *line + 1;
        let skills: HashMap<usize, u8> = match skills_from(table, line, skill_count, known) {
            Ok(skills) => skills,
            Err(e) => {
                return Err(e);
            },
        };
        let ghost before = contributor_views(contributors@);
        let contributor = Contributor { name: string_of(name.as_slice()), skills };
        let ghost view = contributor@;
        contributors.push(contributor);
        proof {
            assert(contributor_views(contributors@) =~= before.push(view));
        }
        k = k + 1;
    }
    Ok(contributors)
}

/// Reads `count` projects from `line` on.
pub fn projects_from(
    table: &Vec<Vec<Vec<char>>>,
    line: &mut usize,
    count: usize,
    known: &Vec<Vec<char>>,
) -> (found: Result<Vec<Project>, ParseError>)
    requires
        *old(line) <= table.len(),
    ensures
        match found {
            Ok(projects) => read_projects(
                table_of(table@),
                *old(line) as int,
                count as nat,
                pieces_of(known@),
                Seq::empty(),
            ) == Ok::<Seq<ProjectView>, ParseError>(project_views(projects@)),
            Err(e) => read_projects(
                table_of(table@),
                *old(line) as int,
                count as nat,
                pieces_of(known@),
                Seq::empty(),
            ) == Err::<Seq<ProjectView>, ParseError>(e),
        },
{
    let ghost rows = table_of(table@);
    let ghost whole = read_projects(
        rows,
        *line as int,
        count as nat,
        pieces_of(known@),
        Seq::empty(),
    );
    let mut projects: Vec<Project> = Vec::new();
    let mut k: usize = 0;
    proof {
        assert(project_views(projects@) =~= Seq::<ProjectView>::empty());
    }
    while k < count
        invariant
            k <= count,
            rows == table_of(table@),
            *line <= table.len(),
            whole == read_projects(
                rows,
                *old(line) as int,
                count as nat,
                pieces_of(known@),
                Seq::empty(),
            ),
            whole == read_projects(
                rows,
                *line as int,
                (count - k) as nat,
                pieces_of(known@),
                project_views(projects@),
            ),
        decreases count - k,
    {
        let name: &Vec<char> = match field_of(table, *line, 0) {
            Ok(name) => name,
            Err(e) => {
                return Err(e);
            },
        };
        let duration: u16 = match number_of(table, *line, 1, 65535) {
            Ok(n) => n as u16,
            Err(e) => {
                return Err(e);
            },
        };
        let score: u16 = match number_of(table, *line, 2, 65535) {
            Ok(n) => n as u16,
            Err(e) => {
                return Err(e);
            },
        };
        let best_before: u16 = match number_of(table, *line, 3, 65535) {
            Ok(n) => n as u16,
            Err(e) => {
                return Err(e);
            },
        };
        let role_count: usize = match number_of(table, *line, 4, 255) {
            Ok(n) => n as usize,
            Err(e) => {
                return Err(e);
            },
        };
        *line = *line + 1;
        let roles: Vec<Role> = match roles_from(table, line, role_count, known) {
            Ok(roles) => roles,
            Err(e) => {
                return Err(e);
            },
        };
        let ghost before = project_views(projects@);
        let project = Project {
            name: string_of(name.as_slice()),
            duration,
            score,
            best_before,
            roles,
        };
        let ghost view = project@;
        projects.push(project);
        proof {
            assert(project_views(projects@) =~= before.push(view));
        }
        k = k + 1;
    }
    Ok(projects)
}

/// Reads a problem instance from its text form. Returns the instance that
/// the text spells, or the first place where the text fails to spell one.
/// In the instance every skill is known by the place at which the
/// contributors' lines first name it.
pub fn parse_input(text: &str) -> (read: Result<InputData, ParseError>)
    ensures
        match read {
            Ok(input) => parsed(text@) == Ok::<InputView, ParseError>(input@),
            Err(e) => parsed(text@) == Err::<InputView, ParseError>(e),
        },
        read matches Ok(input) ==> {
            &&& skill_names(text@).no_duplicates()
            &&& skills_below(input@.contributors, skill_names(text@).len())
            &&& projects_below(input@.projects, skill_names(text@).len())
        },
{
    let table: Vec<Vec<Vec<char>>> = rows_of(text);
    proof {
        assert(rows(text@).len() == table.len());
        law_parsed_skills_are_interned(text@);
    }
    let contributor_count: usize = match number_of(&table, 0, 0, usize::MAX as u64) {
        Ok(n) => n as usize,
        Err(e) => {
            return Err(e);
        },
    };
    let project_count: usize = match number_of(&table, 0, 1, usize::MAX as u64) {
        Ok(n) => n as usize,
        Err(e) => {
            return Err(e);
        },
    };
    let mut line: usize = 1;
    let mut known: Vec<Vec<char>> = Vec::new();
    proof {
        assert(pieces_of(known@) =~= Seq::<Seq<char>>::empty());
    }
    let contributors: Vec<Contributor> = match contributors_from(
        &table,
        &mut line,
        contributor_count,
        &mut known,
    ) {
        Ok(contributors) => contributors,
        Err(e) => {
            return Err(e);
        },
    };
    let projects: Vec<Project> = match projects_from(&table, &mut line, project_count, &known) {
        Ok(projects) => projects,
        Err(e) => {
            return Err(e);
        },
    };
    Ok(InputData { contributors, projects })
}

} // verus!
