//! Verified core of a small desk organiser: the task list, the labels it
//! shows, and the page-count field of the reading list.

pub mod text;
pub mod books;
pub mod tasks;
