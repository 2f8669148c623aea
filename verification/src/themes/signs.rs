//! A simple colorless theme using signs.

use vstd::prelude::*;

use crate::draw_diff::theme_pins_output;
use crate::themes::theme::Theme;

verus! {

/// A simple colorless using signs theme
#[derive(Default, Copy, Clone, Debug)]
pub struct SignsTheme {}

impl Theme for SignsTheme {
    open spec fn equal_prefix_ok(&self, r: Seq<char>) -> bool {
        r == " "@
    }

    open spec fn delete_prefix_ok(&self, r: Seq<char>) -> bool {
        r == "-"@
    }

    open spec fn insert_prefix_ok(&self, r: Seq<char>) -> bool {
        r == "+"@
    }

    open spec fn header_ok(&self, r: Seq<char>) -> bool {
        r == "--- remove | insert +++\n"@
    }

    fn equal_prefix(&self) -> (r: String) {
        String::from_str(" ")
    }

    fn delete_prefix(&self) -> (r: String) {
        String::from_str("-")
    }

    fn insert_prefix(&self) -> (r: String) {
        String::from_str("+")
    }

    fn header(&self) -> (r: String) {
        String::from_str("--- remove | insert +++\n")
    }
}


/// The signs theme's hooks each pin a single result, so rendering under
/// it is a function of the two texts and the algorithm.
pub proof fn lemma_signs_theme_pins_output(t: &SignsTheme)
    ensures
        theme_pins_output(t),
{
}

} // verus!
