//! Evaluation of a corpus: settings, what they ask for, and what comes out.
pub mod calendar;
pub mod plan_laws;
pub mod report_laws;
pub mod results;
pub mod run_plan;
pub mod setting_laws;
pub mod settings;
pub mod strategies;
pub mod strategy_laws;
pub mod tally;
