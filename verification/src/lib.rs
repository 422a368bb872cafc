//! An exact scheduler for MIT courses: the catalog, the sections that a student adds, the search
//! for the best timetable, the calendar export, and the terminal interface around them. Reading,
//! writing and drawing are left to the program that uses the library.
pub mod adapter;
pub mod app;
pub mod cache;
pub mod calendar;
pub mod cli;
pub mod color;
pub mod date;
pub mod determinism;
pub mod error;
pub mod json;
pub mod laws;
pub mod model;
pub mod optimizer;
pub mod order;
pub mod picks;
pub mod session;
pub mod storage;
pub mod text;
pub mod tui;
pub mod week_bits;
