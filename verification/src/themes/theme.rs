//! The theme capability the rendering engine consumes.

use vstd::prelude::*;

verus! {

/// A theme controls how a rendered diff looks: the prefixes put before
/// unchanged, removed and added lines, the header above the diff, and how
/// content and intra-line highlights are formatted.
///
/// Each formatting hook comes with a specification predicate that pins
/// down what the hook may return.  Hooks with a default body default to
/// returning their input unchanged (or the usual line ending and
/// trailing-newline marker), and a caller of a hook knows that the result
/// either satisfies the implementation's predicate or is that default.
pub trait Theme {
    /// What may come back from `highlight_insert`.
    open spec fn highlight_insert_ok(&self, input: Seq<char>, r: Seq<char>) -> bool {
        r == input
    }

    /// What may come back from `highlight_delete`.
    open spec fn highlight_delete_ok(&self, input: Seq<char>, r: Seq<char>) -> bool {
        r == input
    }

    /// What may come back from `equal_content`.
    open spec fn equal_content_ok(&self, input: Seq<char>, r: Seq<char>) -> bool {
        r == input
    }

    /// What may come back from `delete_content`.
    open spec fn delete_content_ok(&self, input: Seq<char>, r: Seq<char>) -> bool {
        r == input
    }

    /// What may come back from `insert_line`.
    open spec fn insert_line_ok(&self, input: Seq<char>, r: Seq<char>) -> bool {
        r == input
    }

    /// What may come back from `equal_prefix`.  Implementations narrow
    /// this down to their own prefix.
    open spec fn equal_prefix_ok(&self, r: Seq<char>) -> bool {
        true
    }

    /// What may come back from `delete_prefix`.  Implementations narrow
    /// this down to their own prefix.
    open spec fn delete_prefix_ok(&self, r: Seq<char>) -> bool {
        true
    }

    /// What may come back from `insert_prefix`.  Implementations narrow
    /// this down to their own prefix.
    open spec fn insert_prefix_ok(&self, r: Seq<char>) -> bool {
        true
    }

    /// What may come back from `line_end`.
    open spec fn line_end_ok(&self, r: Seq<char>) -> bool {
        r == "\n"@
    }

    /// What may come back from `trailing_lf_marker`.
    open spec fn trailing_lf_marker_ok(&self, r: Seq<char>) -> bool {
        r == "\u{240a}"@
    }

    /// What may come back from `header`.  Implementations narrow this
    /// down to their own header.
    open spec fn header_ok(&self, r: Seq<char>) -> bool {
        true
    }

    /// How to format the text when highlighting it for inserts
    fn highlight_insert(&self, input: &str) -> (r: String)
        ensures
            self.highlight_insert_ok(input@, r@) || r@ == input@,
    {
        input.to_owned()
    }

    /// How to format the text when highlighting it for deletes
    fn highlight_delete(&self, input: &str) -> (r: String)
        ensures
            self.highlight_delete_ok(input@, r@) || r@ == input@,
    {
        input.to_owned()
    }

    /// How to format unchanged content
    fn equal_content(&self, input: &str) -> (r: String)
        ensures
            self.equal_content_ok(input@, r@) || r@ == input@,
    {
        input.to_owned()
    }

    /// How to format bits of text that are being removed
    fn delete_content(&self, input: &str) -> (r: String)
        ensures
            self.delete_content_ok(input@, r@) || r@ == input@,
    {
        input.to_owned()
    }

    /// How to format bits of text that are being added
    fn insert_line(&self, input: &str) -> (r: String)
        ensures
            self.insert_line_ok(input@, r@) || r@ == input@,
    {
        input.to_owned()
    }

    /// The prefix to give lines that are equal
    fn equal_prefix(&self) -> (r: String)
        ensures
            self.equal_prefix_ok(r@),
    ;

    /// The prefix to give lines that are being removed
    fn delete_prefix(&self) -> (r: String)
        ensures
            self.delete_prefix_ok(r@),
    ;

    /// The prefix to give lines that are being added
    fn insert_prefix(&self) -> (r: String)
        ensures
            self.insert_prefix_ok(r@),
    ;

    /// If a diff line doesn't end with a newline, what should we insert
    fn line_end(&self) -> (r: String)
        ensures
            self.line_end_ok(r@) || r@ == "\n"@,
    {
        String::from_str("\n")
    }

    /// If one of the two strings ends with a newline, and the other does
    /// not, insert this marker before the newline, and then re-add the
    /// newline
    fn trailing_lf_marker(&self) -> (r: String)
        ensures
            self.trailing_lf_marker_ok(r@) || r@ == "\u{240a}"@,
    {
        String::from_str("\u{240a}")
    }

    /// A header to put above the diff
    fn header(&self) -> (r: String)
        ensures
            self.header_ok(r@),
    ;
}

} // verus!
