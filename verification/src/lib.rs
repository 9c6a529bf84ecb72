//! Topdown performance analysis for Arm CPUs.
pub mod cli;
pub mod cpu;
pub mod database;
pub mod formula;
pub mod name_map;
pub mod number;
pub mod order;
pub mod output;
pub mod perf;
pub mod results;
pub mod scheduler;
pub mod spec;
pub mod table;
pub mod text;
pub mod workload;
