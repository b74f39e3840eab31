//! Crash reporting for the services of an espresso machine: the values that
//! leave the machine are reduced to approved, bounded technical strings and
//! numbers before they are sent.
pub mod command;
pub mod order;
pub mod report;
pub mod system_metrics;
pub mod text;
