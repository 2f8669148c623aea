use std::io::Cursor;

use termdiff::{diff, ArrowsTheme, DrawDiff, SignsTheme, Theme};

/// Test that the diff function produces the expected output with `SignsTheme`
#[test]
fn lib_test_diff_with_signs_theme() {
    let old = "The quick brown fox";
    let new = "The quick red fox";
    let mut buffer = Cursor::new(Vec::new());
    let theme = SignsTheme::default();

    diff(&mut buffer, old, new, &theme).unwrap();

    let output = String::from_utf8(buffer.into_inner()).expect("Not valid UTF-8");
    assert!(output.contains("-The quick brown fox"));
    assert!(output.contains("+The quick red fox"));
    assert!(output.contains("--- remove | insert +++"));
}

/// Test that `DrawDiff` produces the expected output with `SignsTheme`
#[test]
fn test_draw_diff_with_signs_theme() {
    let old = "The quick brown fox";
    let new = "The quick red fox";
    let theme = SignsTheme::default();

    let output = DrawDiff::new(old, new, &theme).render();

    assert!(output.contains("-The quick brown fox"));
    assert!(output.contains("+The quick red fox"));
    assert!(output.contains("--- remove | insert +++"));
}

/// Test handling of empty strings
#[test]
fn test_empty_strings() {
    let old = "";
    let new = "";
    let theme = ArrowsTheme::default();

    let output = DrawDiff::new(old, new, &theme).render();

    // Should just contain the header
    assert_eq!(output, "< left / > right\n");
}

/// Test handling of strings with only newline differences
#[test]
fn test_newline_differences() {
    let old = "line\n";
    let new = "line";
    let theme = ArrowsTheme::default();

    let output = DrawDiff::new(old, new, &theme).render();

    // Should show the newline difference
    assert!(output.contains("line\u{240a}"));
}

/// Test with a custom theme implementation
#[test]
fn test_custom_theme() {
    #[derive(Debug)]
    struct CustomTheme;

    impl Theme for CustomTheme {
        fn equal_prefix(&self) -> String {
            "=".to_string()
        }

        fn delete_prefix(&self) -> String {
            "DEL>".to_string()
        }

        fn insert_prefix(&self) -> String {
            "INS>".to_string()
        }

        fn header(&self) -> String {
            "CUSTOM DIFF\n".to_string()
        }
    }

    let old = "The quick brown fox";
    let new = "The quick red fox";
    let theme = CustomTheme;

    let output = DrawDiff::new(old, new, &theme).render();

    assert!(output.contains("DEL>The quick brown fox"));
    assert!(output.contains("INS>The quick red fox"));
    assert!(output.contains("CUSTOM DIFF"));
}

/// Test with multiline input containing both changes and unchanged lines
#[test]
fn test_multiline_with_unchanged_lines() {
    let old = "Line 1\nLine 2\nLine 3\nLine 4";
    let new = "Line 1\nModified Line 2\nLine 3\nModified Line 4";
    let theme = SignsTheme::default();

    let output = DrawDiff::new(old, new, &theme).render();

    // Check that unchanged lines are preserved
    assert!(output.contains(" Line 1"));
    assert!(output.contains(" Line 3"));

    // Check that changed lines are marked
    assert!(output.contains("-Line 2"));
    assert!(output.contains("+Modified Line 2"));
    assert!(output.contains("-Line 4"));
    assert!(output.contains("+Modified Line 4"));
}
