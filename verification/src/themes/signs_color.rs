//! A colorful theme using signs.

use vstd::prelude::*;

use crate::themes::style::{
    green_styled, red_styled, style_green, style_red, style_underlined, underline_styled,
};
use crate::themes::theme::Theme;

verus! {

/// A simple colorful theme using signs
#[derive(Default, Clone, Copy, Debug)]
pub struct SignsColorTheme {}

impl Theme for SignsColorTheme {
    open spec fn highlight_insert_ok(&self, input: Seq<char>, r: Seq<char>) -> bool {
        exists|h: Seq<char>| underline_styled(input, h) && green_styled(h, r)
    }

    open spec fn highlight_delete_ok(&self, input: Seq<char>, r: Seq<char>) -> bool {
        exists|h: Seq<char>| underline_styled(input, h) && red_styled(h, r)
    }

    open spec fn delete_content_ok(&self, input: Seq<char>, r: Seq<char>) -> bool {
        red_styled(input, r)
    }

    open spec fn insert_line_ok(&self, input: Seq<char>, r: Seq<char>) -> bool {
        green_styled(input, r)
    }

    open spec fn equal_prefix_ok(&self, r: Seq<char>) -> bool {
        r == " "@
    }

    open spec fn delete_prefix_ok(&self, r: Seq<char>) -> bool {
        red_styled("-"@, r)
    }

    open spec fn insert_prefix_ok(&self, r: Seq<char>) -> bool {
        green_styled("+"@, r)
    }

    open spec fn header_ok(&self, r: Seq<char>) -> bool {
        exists|x: Seq<char>, y: Seq<char>|
            red_styled("--- remove"@, x) && green_styled("insert +++"@, y) && r == x.add(
                " | "@,
            ).add(y).add("\n"@)
    }

    fn highlight_insert(&self, input: &str) -> (r: String) {
        let h = style_underlined(input);
        let r = style_green(h.as_str());
        proof {
            assert(underline_styled(input@, h@) && green_styled(h@, r@));
        }
        r
    }

    fn highlight_delete(&self, input: &str) -> (r: String) {
        let h = style_underlined(input);
        let r = style_red(h.as_str());
        proof {
            assert(underline_styled(input@, h@) && red_styled(h@, r@));
        }
        r
    }

    fn equal_content(&self, input: &str) -> (r: String) {
        input.to_owned()
    }

    fn delete_content(&self, input: &str) -> (r: String) {
        style_red(input)
    }

    fn insert_line(&self, input: &str) -> (r: String) {
        style_green(input)
    }

    fn equal_prefix(&self) -> (r: String) {
        String::from_str(" ")
    }

    fn delete_prefix(&self) -> (r: String) {
        style_red("-")
    }

    fn insert_prefix(&self) -> (r: String) {
        style_green("+")
    }

    fn line_end(&self) -> (r: String) {
        String::from_str("\n")
    }

    fn header(&self) -> (r: String) {
        let mut h = style_red("--- remove");
        let ghost x = h@;
        h.append(" | ");
        let g = style_green("insert +++");
        let ghost y = g@;
        h.append(g.as_str());
        h.append("\n");
        proof {
            assert(h@ == x.add(" | "@).add(y).add("\n"@));
        }
        h
    }
}

} // verus!
