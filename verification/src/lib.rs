//! A terminal-calendar core: event templates with recurrence rules,
//! occurrence expansion up to a horizon, view filtering and sorting,
//! selection-to-template mutation, a color-filter cycle, form validation,
//! and a text persistence format that round-trips the collection.

pub mod codec;
pub mod colors;
pub mod date;
pub mod event;
pub mod form;
pub mod project;
pub mod store;
pub mod text;
pub mod ui;
