//! Fixed settings: timing of the placeholder animation, the dataset
//! versions on offer, and the hints that the animation types.

use vstd::prelude::*;

verus! {

/// Milliseconds between two steps of the placeholder animation.
pub const TYPING_SPEED_MS: u32 = 25;

/// Milliseconds for which a fully typed hint stays before it is deleted.
pub const PAUSE_MS: u32 = 2000;

/// Milliseconds between two steps of a slower typing animation.
pub const ANIMATION_TYPING_SPEED_MS: u64 = 50;

/// Milliseconds for which the slower typing animation holds a full text.
pub const ANIMATION_PAUSE_MS: u64 = 3000;

/// Milliseconds for which the hidden message stays visible.
pub const EASTER_EGG_DURATION_MS: u64 = 3000;

/// The dataset version that is shown where none is asked for.
pub const DEFAULT_SEMESTER: &'static str = "S26";

/// The dataset versions on offer, newest first, each with the key of its
/// data file.
pub fn available_semesters() -> (r: Vec<(&'static str, &'static str)>)
    ensures
        r.len() == 4,
        r[0].0@ == "S26"@ && r[0].1@ == "data_s26"@,
        r[1].0@ == "M25"@ && r[1].1@ == "data_m25"@,
        r[2].0@ == "S25"@ && r[2].1@ == "data_s25"@,
        r[3].0@ == "M24"@ && r[3].1@ == "data_m24"@,
{
    vec![("S26", "data_s26"), ("M25", "data_m25"), ("S25", "data_s25"), ("M24", "data_m24")]
}

/// The hints that the search field types while it is idle, in order.
pub fn get_facts() -> (facts: Vec<&'static str>)
    ensures
        facts.len() == 3,
        facts[0]@ == "TRY PRESSING ANY KEY!!"@,
        facts[1]@ == "DID YOU KNOW? EVERY RECTANGLE IS CLICKABLE!!"@,
        facts[2]@ == "TRY TO CLICK ON RANDOM OBJECTS, YOU NEVER KNOW!!"@,
{
    vec![
        "TRY PRESSING ANY KEY!!",
        "DID YOU KNOW? EVERY RECTANGLE IS CLICKABLE!!",
        "TRY TO CLICK ON RANDOM OBJECTS, YOU NEVER KNOW!!",
    ]
}

} // verus!
