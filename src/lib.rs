//! Finds filesystem entries whose path matches a regular expression, either in
//! one pass over a directory tree or by repeated queries against a snapshot
//! of one walk. The library holds the decisions; reading directories and
//! files is left to the caller, which hands the results back in.

pub mod envs;
pub mod find_mode;
pub mod regex_helper;
pub mod temp_file;
pub mod text;
pub mod walker;
