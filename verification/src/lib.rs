//! An incremental build tool in the tradition of DJB's redo.

pub mod asking;
pub mod building;
pub mod check;
pub mod cli;
pub mod config;
pub mod context;
pub mod db;
pub mod dofile;
pub mod follow;
pub mod fsguard;
pub mod jobserver;
pub mod lock;
pub mod logs;
pub mod notes;
pub mod num;
pub mod order;
pub mod outdated;
pub mod overwrite;
pub mod parallel;
pub mod paths;
pub mod reach;
pub mod requests;
pub mod root;
pub mod seqs;
pub mod stamp;
pub mod steps;
pub mod text;
pub mod tokens;
pub mod tree;
pub mod waits;
pub mod work;

pub use crate::cli::{extract_jobs, run};
