//! unlog: browse, filter and prune shell history entries.
//!
//! The library holds everything the terminal front end decides: how history
//! bytes split into entries and what each entry displays, how commands wrap
//! into rows, and the filter, selection and scrolling state of the browser.

pub mod strings;
pub mod text;
pub mod history;
pub mod app;
pub mod input;
pub mod keys;
pub mod layout;
pub mod bar;
pub mod locate;
