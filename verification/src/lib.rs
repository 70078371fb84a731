//! A verified core for a terminal knowledge log: record files of commands,
//! tracks and writeups are read, searched, laid out and edited here; the
//! program around it does the terminal and file work.
pub mod cli;
pub mod context;
pub mod error;
pub mod feature;
pub mod ors_type;
pub mod paths;
pub mod text;
