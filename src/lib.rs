//! Time ledger: a list of days with time-stamped, tagged tasks, checked for
//! days out of order and overlapping tasks, and summed per day, week and tag.
pub mod clock;
pub mod document;
pub mod hours;
pub mod output;
pub mod reports;
pub mod model;
pub mod validate;
pub mod timeledger;
