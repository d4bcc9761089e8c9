//! Daybook's vault logic: the markdown a capture is filed into, the item
//! index kept beside it, and the date handling both depend on.
pub mod actions;
pub mod assistant;
pub mod attachments;
pub mod backfill;
pub mod calendar;
pub mod config;
pub mod datetime;
pub mod drain;
pub mod daynote;
pub mod entity;
pub mod entries;
pub mod filing;
pub mod names;
pub mod order;
pub mod history;
pub mod ideas;
pub mod overview;
pub mod paths;
pub mod personal;
pub mod projects;
pub mod search;
pub mod tasks;
pub mod text;
pub mod trash;
pub mod triage;
pub mod writes;
