//! Terminal styling, delegated to the crossterm crate.
//!
//! Crossterm decides at each escape sequence it writes whether ANSI colors
//! are disabled (an environment setting it also exposes at run time), and
//! on a console without ANSI support it routes around the formatter and
//! writes nothing at all.  The color contracts therefore promise an
//! opening code, the content, and a closing code — each code either the
//! color's own or the bare control sequence written when colors are off —
//! or the empty string.  Attribute codes are not subject to the color
//! switch, so only the no-ANSI console path can empty an underline.

use vstd::prelude::*;

use crossterm::style::Stylize;

verus! {

/// The codes crossterm writes around underlined content.
pub open spec fn underline_wrap(s: Seq<char>) -> Seq<char> {
    "\u{1b}[4m"@.add(s).add("\u{1b}[0m"@)
}

/// An opening foreground code: the color's own sequence, or the bare
/// sequence written when crossterm finds ANSI colors disabled.
pub open spec fn fg_open_ok(code: Seq<char>, o: Seq<char>) -> bool {
    o == code || o == "\u{1b}[m"@
}

/// A closing foreground code: the reset sequence, or the bare sequence
/// written when crossterm finds ANSI colors disabled.
pub open spec fn fg_close_ok(c: Seq<char>) -> bool {
    c == "\u{1b}[39m"@ || c == "\u{1b}[m"@
}

/// Content framed by an opening and a closing foreground code, or nothing
/// at all on a console without ANSI support.
pub open spec fn fg_styled(code: Seq<char>, s: Seq<char>, r: Seq<char>) -> bool {
    (exists|o: Seq<char>, c: Seq<char>|
        r == o.add(s).add(c) && fg_open_ok(code, o) && fg_close_ok(c)) || r == Seq::<
        char,
    >::empty()
}

/// Content with a red foreground, as far as crossterm styles it.
pub open spec fn red_styled(s: Seq<char>, r: Seq<char>) -> bool {
    fg_styled("\u{1b}[38;5;9m"@, s, r)
}

/// Content with a green foreground, as far as crossterm styles it.
pub open spec fn green_styled(s: Seq<char>, r: Seq<char>) -> bool {
    fg_styled("\u{1b}[38;5;10m"@, s, r)
}

/// Underlined content, or nothing at all on a console without ANSI
/// support.
pub open spec fn underline_styled(s: Seq<char>, r: Seq<char>) -> bool {
    r == underline_wrap(s) || r == Seq::<char>::empty()
}

/// Relies on crossterm's `Stylize::red` and the `Display` of its styled
/// content: the input framed by the set/reset foreground codes, with the
/// bare sequences in place of either code when crossterm has ANSI colors
/// disabled, or empty on a console without ANSI support.
#[verifier::external_body]
pub(crate) fn style_red(s: &str) -> (r: String)
    ensures
        red_styled(s@, r@),
{
    s.red().to_string()
}

/// Relies on crossterm's `Stylize::green` and the `Display` of its styled
/// content: the input framed by the set/reset foreground codes, with the
/// bare sequences in place of either code when crossterm has ANSI colors
/// disabled, or empty on a console without ANSI support.
#[verifier::external_body]
pub(crate) fn style_green(s: &str) -> (r: String)
    ensures
        green_styled(s@, r@),
{
    s.green().to_string()
}

/// Relies on crossterm's `Stylize::underlined` and the `Display` of its
/// styled content: the input framed by the underline attribute code and
/// the attribute reset code, or empty on a console without ANSI support.
#[verifier::external_body]
pub(crate) fn style_underlined(s: &str) -> (r: String)
    ensures
        underline_styled(s@, r@),
{
    s.underlined().to_string()
}

} // verus!
