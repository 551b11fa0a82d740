//! The proxy's user records.
use vstd::prelude::*;

verus! {

#[derive(Debug, Default)]
pub struct User {
    pub name: String,
    pub group: Option<Group>,
    pub id: u32,
}

#[derive(Debug)]
pub struct Group {
    pub group_name: String,
    pub allowed_verbs: Vec<String>,
}

} // verus!
