//! The project's todo list.

use vstd::prelude::*;

verus! {

/// A task of the todo list, as listed.
#[derive(Debug)]
pub struct TodoItem {
    pub id: i64,
    pub title: String,
    pub status: String,
    pub assigned_to: String,
    pub due_date: String,
}

} // verus!
