//! A colorful theme using arrows.

use vstd::prelude::*;

use crate::themes::style::{
    green_styled, red_styled, style_green, style_red, style_underlined, underline_styled,
};
use crate::themes::theme::Theme;

verus! {

/// A simple colorful theme using arrows
#[derive(Default, Debug, Clone, Copy)]
pub struct ArrowsColorTheme {}

impl Theme for ArrowsColorTheme {
    open spec fn highlight_insert_ok(&self, input: Seq<char>, r: Seq<char>) -> bool {
        underline_styled(input, r)
    }

    open spec fn highlight_delete_ok(&self, input: Seq<char>, r: Seq<char>) -> bool {
        underline_styled(input, r)
    }

    open spec fn delete_content_ok(&self, input: Seq<char>, r: Seq<char>) -> bool {
        red_styled(input, r)
    }

    open spec fn insert_line_ok(&self, input: Seq<char>, r: Seq<char>) -> bool {
        green_styled(input, r)
    }

    open spec fn equal_prefix_ok(&self, r: Seq<char>) -> bool {
        r == " "@
    }

    open spec fn delete_prefix_ok(&self, r: Seq<char>) -> bool {
        red_styled("<"@, r)
    }

    open spec fn insert_prefix_ok(&self, r: Seq<char>) -> bool {
        green_styled(">"@, r)
    }

    open spec fn header_ok(&self, r: Seq<char>) -> bool {
        exists|x: Seq<char>, y: Seq<char>|
            red_styled("< left"@, x) && green_styled("> right"@, y) && r == x.add(" / "@).add(
                y,
            ).add("\n"@)
    }

    fn highlight_insert(&self, input: &str) -> (r: String) {
        style_underlined(input)
    }

    fn highlight_delete(&self, input: &str) -> (r: String) {
        style_underlined(input)
    }

    fn delete_content(&self, input: &str) -> (r: String) {
        style_red(input)
    }

    fn insert_line(&self, input: &str) -> (r: String) {
        style_green(input)
    }

    fn equal_prefix(&self) -> (r: String) {
        String::from_str(" ")
    }

    fn delete_prefix(&self) -> (r: String) {
        style_red("<")
    }

    fn insert_prefix(&self) -> (r: String) {
        style_green(">")
    }

    fn header(&self) -> (r: String) {
        let mut h = style_red("< left");
        let ghost x = h@;
        h.append(" / ");
        let g = style_green("> right");
        let ghost y = g@;
        h.append(g.as_str());
        h.append("\n");
        proof {
            assert(h@ == x.add(" / "@).add(y).add("\n"@));
        }
        h
    }
}

} // verus!
