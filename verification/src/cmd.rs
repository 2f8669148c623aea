//! The public entry points: render a diff and stream it to a caller-
//! supplied sink, propagating the sink's failures.

use vstd::prelude::*;

use crate::diff_algorithm::common::Algorithm;
use crate::draw_diff::DrawDiff;
use crate::themes::theme::Theme;

verus! {

#[verifier::external_type_specification]
#[verifier::external_body]
pub struct ExIoError(std::io::Error);

/// Relies on std's `Write::write_all`: hands the whole string to the
/// sink, or reports the sink's error.  Nothing is promised of the sink's
/// behaviour.
#[verifier::external_body]
fn write_str<W: std::io::Write>(w: &mut W, s: &str) -> (r: Result<(), std::io::Error>) {
    w.write_all(s.as_bytes())
}

/// The message emitted when no diff engine is available.
fn no_algorithms_message() -> (r: String)
    ensures
        r@
            == "Error: No diff algorithms are available. Enable either 'myers' or 'similar' feature."@,
{
    String::from_str(
        "Error: No diff algorithms are available. Enable either 'myers' or 'similar' feature.",
    )
}

/// Whether the requested algorithm is among the available ones.
fn algorithms_contain(v: &Vec<Algorithm>, x: Algorithm) -> (r: bool)
    ensures
        r == v@.contains(x),
{
    let mut k: usize = 0;
    while k < v.len()
        invariant
            k <= v@.len(),
            forall|j: int| 0 <= j < k ==> v@[j] != x,
        decreases v@.len() - k,
    {
        if v[k] == x {
            return true;
        }
        k = k + 1;
    }
    false
}

/// Print a diff to a writer
///
/// Renders the two texts with the default algorithm and the given theme
/// and writes the result to `w`; the only failure is the writer's own.
///
/// # Errors
///
/// Errors on failing to write to the writer.
pub fn diff<T: Theme, W: std::io::Write>(w: &mut W, old: &str, new: &str, theme: &T) -> (r: Result<
    (),
    std::io::Error,
>)
    requires
        old@.len() < usize::MAX,
        new@.len() < usize::MAX,
{
    if !Algorithm::has_available_algorithms() {
        let msg = no_algorithms_message();
        return write_str(w, msg.as_str());
    }
    let output = DrawDiff::new(old, new, theme).render();
    write_str(w, output.as_str())
}

/// Print a diff to a writer using a specific algorithm
///
/// An unavailable algorithm degrades to the first available one; only
/// when no algorithm exists at all is an explanatory message written
/// instead of a diff.
///
/// # Errors
///
/// Errors on failing to write to the writer.
pub fn diff_with_algorithm<T: Theme, W: std::io::Write>(
    w: &mut W,
    old: &str,
    new: &str,
    theme: &T,
    algorithm: Algorithm,
) -> (r: Result<(), std::io::Error>)
    requires
        old@.len() < usize::MAX,
        new@.len() < usize::MAX,
{
    if !Algorithm::has_available_algorithms() {
        let msg = no_algorithms_message();
        return write_str(w, msg.as_str());
    }
    let available_algorithms = Algorithm::available_algorithms();
    if !algorithms_contain(&available_algorithms, algorithm) {
        if let Some(available_algo) = Algorithm::first_available() {
            let output = DrawDiff::with_algorithm(old, new, theme, available_algo).render();
            return write_str(w, output.as_str());
        }
        let msg = no_algorithms_message();
        return write_str(w, msg.as_str());
    }
    let output = DrawDiff::with_algorithm(old, new, theme, algorithm).render();
    write_str(w, output.as_str())
}

} // verus!
