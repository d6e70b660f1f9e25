//! The logic of a terminal task manager: its tables, sorting, selection, key and mouse
//! handling, number formatting and command line, each function with a verified contract.
use vstd::prelude::*;

pub mod app;
pub mod cli;
pub mod column_laws;
pub mod format;
pub mod grouped;
pub mod groups;
pub mod history;
pub mod html;
pub mod html_laws;
pub mod keys;
pub mod laws;
pub mod model;
pub mod order;
pub mod prompt_laws;
pub mod row_laws;
pub mod screen;
pub mod tabs;
pub mod text;
pub mod views;
