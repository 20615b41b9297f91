//! Script-alias extraction: a single-pass scanner that pulls name/command
//! pairs out of the `tasks`/`scripts` block of a task configuration file and
//! collects them into a database of scripts keyed by name.

pub mod database;
pub mod laws;
pub mod scan;
pub mod text;
