use std::io::Cursor;

use termdiff::{diff_with_algorithm, Algorithm, ArrowsTheme};

/// Test the Myers algorithm with a simple insertion case
#[test]
fn test_myers_insertion() {
    // Test case where an insertion occurs in the middle
    let old = "abc";
    let new = "abxc";
    let theme = ArrowsTheme::default();

    // Get output from Myers algorithm
    let mut buffer = Cursor::new(Vec::new());
    diff_with_algorithm(&mut buffer, old, new, &theme, Algorithm::Myers).unwrap();
    let output = String::from_utf8(buffer.into_inner()).expect("Not valid UTF-8");

    // The output should show the specific insertion point
    let expected = "\
< left / > right
<abc
>abxc
";
    assert_eq!(output, expected);
}

/// Test the Myers algorithm with a deletion case
#[test]
fn test_myers_deletion() {
    // Test case where a deletion occurs in the middle
    let old = "abxc";
    let new = "abc";
    let theme = ArrowsTheme::default();

    // Get output from Myers algorithm
    let mut buffer = Cursor::new(Vec::new());
    diff_with_algorithm(&mut buffer, old, new, &theme, Algorithm::Myers).unwrap();
    let output = String::from_utf8(buffer.into_inner()).expect("Not valid UTF-8");

    // The output should show the specific deletion
    let expected = "\
< left / > right
<abxc
>abc
";
    assert_eq!(output, expected);
}

/// Test the Myers algorithm with a complex case involving multiple operations
#[test]
fn test_myers_complex() {
    // Test case where multiple operations occur
    let old = "abcd";
    let new = "acbd";
    let theme = ArrowsTheme::default();

    // Get output from Myers algorithm
    let mut buffer = Cursor::new(Vec::new());
    diff_with_algorithm(&mut buffer, old, new, &theme, Algorithm::Myers).unwrap();
    let output = String::from_utf8(buffer.into_inner()).expect("Not valid UTF-8");

    // The output should show the specific changes
    let expected = "\
< left / > right
<abcd
>acbd
";
    assert_eq!(output, expected);
}

/// Test the Myers algorithm with empty inputs
#[test]
fn test_myers_empty_inputs() {
    let theme = ArrowsTheme::default();

    // Both inputs empty
    let mut buffer = Cursor::new(Vec::new());
    diff_with_algorithm(&mut buffer, "", "", &theme, Algorithm::Myers).unwrap();
    let output = String::from_utf8(buffer.into_inner()).expect("Not valid UTF-8");

    // Should only contain the header
    assert_eq!(output, "< left / > right\n");

    // Old input empty
    let mut buffer = Cursor::new(Vec::new());
    diff_with_algorithm(&mut buffer, "", "abc", &theme, Algorithm::Myers).unwrap();
    let output = String::from_utf8(buffer.into_inner()).expect("Not valid UTF-8");

    // Should show insertion
    assert!(output.contains(">abc"));

    // New input empty
    let mut buffer = Cursor::new(Vec::new());
    diff_with_algorithm(&mut buffer, "abc", "", &theme, Algorithm::Myers).unwrap();
    let output = String::from_utf8(buffer.into_inner()).expect("Not valid UTF-8");

    // Should show deletion
    assert!(output.contains("<abc"));
}

/// Test the Myers algorithm with identical inputs
#[test]
fn test_myers_identical_inputs() {
    let old = "abc";
    let new = "abc";
    let theme = ArrowsTheme::default();

    // Get output from Myers algorithm
    let mut buffer = Cursor::new(Vec::new());
    diff_with_algorithm(&mut buffer, old, new, &theme, Algorithm::Myers).unwrap();
    let output = String::from_utf8(buffer.into_inner()).expect("Not valid UTF-8");

    // The output should show no changes
    assert!(output.contains(" abc"));
    assert!(!output.contains("<abc"));
    assert!(!output.contains(">abc"));
}

/// Test the Myers algorithm with trailing newline differences
#[test]
fn test_myers_trailing_newline() {
    let old = "line\n";
    let new = "line";
    let theme = ArrowsTheme::default();

    // Get output from Myers algorithm
    let mut buffer = Cursor::new(Vec::new());
    diff_with_algorithm(&mut buffer, old, new, &theme, Algorithm::Myers).unwrap();
    let output = String::from_utf8(buffer.into_inner()).expect("Not valid UTF-8");

    // The output should show the newline difference
    assert!(output.contains("\u{240a}"));
}

/// Test the `DrawDiff` struct with the Myers algorithm
#[test]
fn test_draw_diff_myers() {
    let old = "The quick brown fox";
    let new = "The quick red fox";
    let theme = ArrowsTheme::default();

    // Get output through the buffer writer
    let mut buffer = Cursor::new(Vec::new());
    diff_with_algorithm(&mut buffer, old, new, &theme, Algorithm::Myers).unwrap();
    let output = String::from_utf8(buffer.into_inner()).expect("Not valid UTF-8");

    // Verify formatted output
    assert!(output.contains("<The quick brown fox"));
    assert!(output.contains(">The quick red fox"));
    assert_eq!(output.lines().count(), 3); // Header + 2 lines
}
