//! A trivially scripted player: an opaque strategy stub that always checks.

use vstd::prelude::*;
use crate::game::Action;

verus! {

#[derive(Clone, Copy, Debug)]
pub struct Player {}

impl Player {
    pub fn new() -> (r: Player) {
        Player {  }
    }

    /// The stub strategy: check whenever asked.
    pub fn choose_action(&mut self) -> (r: Action)
        ensures
            r == Action::Check,
    {
        Action::Check
    }
}

} // verus!
