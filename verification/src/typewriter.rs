//! The placeholder of the idle search field: hints typed out character by
//! character, held for a while, and deleted again.

use vstd::prelude::*;
use crate::config::{PAUSE_MS, TYPING_SPEED_MS};
use crate::text::{chars_of, string_of};

verus! {

/// The placeholder of a search field that is in use.
pub const IDLE_PLACEHOLDER: &'static str = "SEARCH COURSES...";

/// Where the animation stands.
#[derive(Clone, Copy, Debug, PartialEq, Eq, Structural)]
pub struct Typewriter {
    /// The position of the hint being shown.
    pub hint: usize,
    /// How many characters of it are shown.
    pub shown: usize,
    /// Whether characters are being deleted.
    pub deleting: bool,
    /// For how many steps the full hint has been held.
    pub waited: u32,
}

/// The number of steps for which a full hint is held.
pub open spec fn hold_steps() -> nat {
    (PAUSE_MS / TYPING_SPEED_MS) as nat
}

/// The animation one step on, for hints of the given lengths. It stands
/// still while the field is in use, and where it points at no hint.
pub open spec fn stepped(state: Typewriter, lengths: Seq<nat>, busy: bool) -> Typewriter {
    if busy || state.hint >= lengths.len() {
        state
    } else if state.deleting {
        if state.shown > 0 {
            Typewriter { shown: (state.shown - 1) as usize, ..state }
        } else {
            Typewriter {
                deleting: false,
                hint: ((state.hint + 1) % (lengths.len() as int)) as usize,
                ..state
            }
        }
    } else if state.shown < lengths[state.hint as int] {
        Typewriter { shown: (state.shown + 1) as usize, ..state }
    } else if state.waited < hold_steps() {
        Typewriter { waited: (state.waited + 1) as u32, ..state }
    } else {
        Typewriter { deleting: true, waited: 0, ..state }
    }
}

/// The placeholder that a step sets, if it sets one: the idle placeholder
/// while the field is in use, else the shown part of the hint where that
/// part has changed.
pub open spec fn placeholder_after(state: Typewriter, hints: Seq<Seq<char>>, busy: bool) -> Option<
    Seq<char>,
> {
    if busy {
        Some(IDLE_PLACEHOLDER@)
    } else if state.hint >= hints.len() {
        None
    } else if state.deleting {
        if state.shown > 0 {
            Some(shown_part(hints[state.hint as int], (state.shown - 1) as nat))
        } else {
            None
        }
    } else if state.shown < hints[state.hint as int].len() {
        Some(shown_part(hints[state.hint as int], (state.shown + 1) as nat))
    } else {
        None
    }
}

/// The first `n` characters of `hint`, or all of it where it has fewer.
pub open spec fn shown_part(hint: Seq<char>, n: nat) -> Seq<char> {
    if n <= hint.len() {
        hint.take(n as int)
    } else {
        hint
    }
}

/// The lengths of the hints.
pub open spec fn hint_lengths(hints: Seq<&'static str>) -> Seq<nat> {
    hints.map_values(|h: &'static str| h@.len())
}

/// The characters of the hints.
pub open spec fn hint_texts(hints: Seq<&'static str>) -> Seq<Seq<char>> {
    hints.map_values(|h: &'static str| h@)
}

impl Typewriter {
    /// The animation before its first step.
    pub fn new() -> (r: Typewriter)
        ensures
            r == (Typewriter { hint: 0, shown: 0, deleting: false, waited: 0 }),
    {
        Typewriter { hint: 0, shown: 0, deleting: false, waited: 0 }
    }

    /// Moves the animation one step on and tells the placeholder to set, if
    /// any. `busy` says that the field has the focus or holds a query.
    pub fn tick(&mut self, hints: &Vec<&'static str>, busy: bool) -> (text: Option<String>)
        ensures
            *final(self) == stepped(*old(self), hint_lengths(hints@), busy),
            text matches Some(t) ==> placeholder_after(*old(self), hint_texts(hints@), busy)
                == Some(t@),
            text is None ==> placeholder_after(*old(self), hint_texts(hints@), busy) is None,
    {
        if busy {
            return Some(IDLE_PLACEHOLDER.to_owned());
        }
        if self.hint >= hints.len() {
            return None;
        }
        let hint = chars_of(hints[self.hint]);
        assert(hint_lengths(hints@)[self.hint as int] == hint@.len());
        assert(hint_texts(hints@)[self.hint as int] == hint@);
        if self.deleting {
            if self.shown > 0 {
                self.shown = self.shown - 1;
                Some(first_chars(&hint, self.shown))
            } else {
                self.deleting = false;
                self.hint = (self.hint + 1) % hints.len();
                None
            }
        } else if self.shown < hint.len() {
            self.shown = self.shown + 1;
            Some(first_chars(&hint, self.shown))
        } else if self.waited < PAUSE_MS / TYPING_SPEED_MS {
            self.waited = self.waited + 1;
            None
        } else {
            self.deleting = true;
            self.waited = 0;
            None
        }
    }
}

/// The first `n` characters of `hint` as text, or all of it where it has
/// fewer.
fn first_chars(hint: &Vec<char>, n: usize) -> (r: String)
    ensures
        r@ == shown_part(hint@, n as nat),
{
    let end: usize = if n <= hint.len() {
        n
    } else {
        hint.len()
    };
    let mut part: Vec<char> = Vec::new();
    let mut i: usize = 0;
    assert(part@ =~= hint@.take(0));
    while i < end
        invariant
            i <= end <= hint.len(),
            part@ == hint@.take(i as int),
        decreases end - i,
    {
        part.push(hint[i]);
        assert(part@ =~= hint@.take(i + 1));
        i += 1;
    }
    assert(hint@.take(hint.len() as int) =~= hint@);
    string_of(&part)
}

} // verus!
