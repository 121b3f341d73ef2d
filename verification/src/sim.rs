pub mod builder;
pub mod censor;
pub mod output;
pub mod policy;
pub mod runner;
