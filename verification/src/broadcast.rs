//! The emblem chosen to be shown in place of the players' own.
use vstd::prelude::*;
use crate::text::same_chars;

verus! {

/// Which emblem is selected: a group and a slot in it.
#[derive(Debug, Clone)]
pub struct Selection {
    /// The group directory.
    pub group: String,
    /// The slot number.
    pub slot: u32,
}

/// The selection names slot `slot` of `group`; deleting that emblem clears
/// the selection.
pub fn selection_matches(sel: &Selection, group: &str, slot: u32) -> (r: bool)
    ensures
        r == (sel.group@ == group@ && sel.slot == slot),
{
    same_chars(sel.group.as_str(), group) && sel.slot == slot
}

} // verus!
