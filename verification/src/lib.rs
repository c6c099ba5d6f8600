pub mod text;
pub mod job;
pub mod engine;
pub mod cli;
pub mod report;
