//! Greedy crew scheduling: a fixed pool of skilled contributors is assigned to
//! time-bounded projects, one contributor per role, so as to collect a reward
//! that decays once a project finishes after its deadline.
//!
//! The scheduler advances a clock one instant at a time. At each instant it
//! forgets the projects that can no longer pay, walks the pending ones in
//! identifier order, staffs each from the idle contributors and commits the
//! ones it can staff. A contributor who fills a role at or above their level
//! gains a level; a contributor one level short may fill a role beside a
//! crew member who meets it.
//!
//! `parse_input` holds the problem model and the reader of its text form,
//! whose grammar is in `grammar`; `solvers` holds the scheduler, its
//! mathematical model and the laws proved of every run; `solution` holds what
//! a run returns and its text form; `score` counts the reward of a solution
//! again.

pub mod grammar;
pub mod parse_input;
pub mod score;
pub mod solution;
pub mod solvers;
pub mod text;
