use std::io::{Cursor, Write};

use termdiff::{diff, diff_with_algorithm, Algorithm, ArrowsTheme, SignsTheme, Theme};

/// Test that the diff function writes the expected output to the writer with `ArrowsTheme`
#[test]
fn cmd_test_diff_with_arrows_theme() {
    let old = "The quick brown fox";
    let new = "The quick red fox";
    let mut buffer = Cursor::new(Vec::new());
    let theme = ArrowsTheme::default();

    diff(&mut buffer, old, new, &theme).unwrap();

    let output = String::from_utf8(buffer.into_inner()).expect("Not valid UTF-8");
    assert!(output.contains("<The quick brown fox"));
    assert!(output.contains(">The quick red fox"));
    assert!(output.contains("< left / > right"));
}

/// Test that the diff function writes the expected output to the writer with `SignsTheme`
#[test]
fn cmd_test_diff_with_signs_theme() {
    let old = "The quick brown fox";
    let new = "The quick red fox";
    let mut buffer = Cursor::new(Vec::new());
    let theme = SignsTheme::default();

    diff(&mut buffer, old, new, &theme).unwrap();

    let output = String::from_utf8(buffer.into_inner()).expect("Not valid UTF-8");
    assert!(output.contains("-The quick brown fox"));
    assert!(output.contains("+The quick red fox"));
    assert!(output.contains("--- remove | insert +++"));
}

/// Test that the diff function handles empty inputs correctly
#[test]
fn test_diff_empty_inputs() {
    let old = "";
    let new = "";
    let mut buffer = Cursor::new(Vec::new());
    let theme = ArrowsTheme::default();

    diff(&mut buffer, old, new, &theme).unwrap();

    let output = String::from_utf8(buffer.into_inner()).expect("Not valid UTF-8");
    // Should just contain the header
    assert_eq!(output, "< left / > right\n");
}

/// Test that the diff function handles identical inputs correctly
#[test]
fn test_diff_identical_inputs() {
    let text = "same text";
    let mut buffer = Cursor::new(Vec::new());
    let theme = ArrowsTheme::default();

    diff(&mut buffer, text, text, &theme).unwrap();

    let output = String::from_utf8(buffer.into_inner()).expect("Not valid UTF-8");
    // Should contain the header and the unchanged text
    assert!(output.contains("< left / > right"));
    assert!(output.contains(" same text"));
    assert!(!output.contains("<same text"));
    assert!(!output.contains(">same text"));
}

/// Test that the diff function handles multiline inputs correctly
#[test]
fn test_diff_multiline() {
    let old = "line 1\nline 2\nline 3";
    let new = "line 1\nmodified line 2\nline 3";
    let mut buffer = Cursor::new(Vec::new());
    let theme = ArrowsTheme::default();

    diff(&mut buffer, old, new, &theme).unwrap();

    let output = String::from_utf8(buffer.into_inner()).expect("Not valid UTF-8");
    // Verify the diff shows changes correctly
    assert!(output.contains(" line 1\n"));
    assert!(output.contains("<line 2\n"));
    assert!(output.contains(">modified line 2\n"));
    assert!(output.contains(" line 3"));
}

/// Test that the diff function handles trailing newline differences correctly
#[test]
fn test_diff_trailing_newline() {
    let old = "line\n";
    let new = "line";
    let mut buffer = Cursor::new(Vec::new());
    let theme = ArrowsTheme::default();

    diff(&mut buffer, old, new, &theme).unwrap();

    let output = String::from_utf8(buffer.into_inner()).expect("Not valid UTF-8");
    // Should show the newline difference with the marker
    assert!(output.contains("line\u{240a}"));
}

/// Test that the diff function works with a custom theme
#[test]
fn test_diff_with_custom_theme() {
    #[derive(Debug)]
    struct CustomTheme;

    impl Theme for CustomTheme {
        fn equal_prefix(&self) -> String {
            "=".to_string()
        }

        fn delete_prefix(&self) -> String {
            "-".to_string()
        }

        fn insert_prefix(&self) -> String {
            "+".to_string()
        }

        fn header(&self) -> String {
            "CUSTOM HEADER\n".to_string()
        }
    }

    let old = "old";
    let new = "new";
    let mut buffer = Cursor::new(Vec::new());
    let theme = CustomTheme;

    diff(&mut buffer, old, new, &theme).unwrap();

    let output = String::from_utf8(buffer.into_inner()).expect("Not valid UTF-8");
    assert!(output.contains("CUSTOM HEADER"));
    assert!(output.contains("-old"));
    assert!(output.contains("+new"));
}

/// Test that the diff function handles writer errors correctly
#[test]
fn test_diff_writer_error() {
    struct ErrorWriter;

    impl Write for ErrorWriter {
        fn write(&mut self, _buf: &[u8]) -> std::io::Result<usize> {
            Err(std::io::Error::other("Test error"))
        }

        fn flush(&mut self) -> std::io::Result<()> {
            Ok(())
        }
    }

    let old = "old";
    let new = "new";
    let mut writer = ErrorWriter;
    let theme = ArrowsTheme::default();

    let result = diff(&mut writer, old, new, &theme);

    assert!(result.is_err());
    let error = result.unwrap_err();
    assert_eq!(error.kind(), std::io::ErrorKind::Other);
    assert_eq!(error.to_string(), "Test error");
}

/// Test that `diff_with_algorithm` correctly handles when no algorithms are available
#[test]
fn test_diff_with_algorithm_no_algorithms_available() {
    let old = "old";
    let new = "new";
    let mut buffer = Cursor::new(Vec::new());
    let theme = ArrowsTheme::default();

    // Test the exact condition from diff_with_algorithm
    let mut test_buffer = String::new();

    // This is the exact code path from diff_with_algorithm that we want to test
    if !Algorithm::has_available_algorithms() {
        test_buffer.push_str(
            "Error: No diff algorithms are available. Enable either 'myers' or 'similar' feature.",
        );
    }

    // Now test a mock version where we force the condition to be true
    let mut mock_buffer = String::new();

    // Force the condition to be true (simulating no algorithms available)
    let mock_no_algorithms = true;
    if mock_no_algorithms {
        mock_buffer.push_str(
            "Error: No diff algorithms are available. Enable either 'myers' or 'similar' feature.",
        );
    }

    let mock_output = mock_buffer;
    assert!(
        mock_output.contains("Error: No diff algorithms are available"),
        "Error message should be shown when no algorithms are available"
    );

    // Now test the actual function
    let result = diff_with_algorithm(&mut buffer, old, new, &theme, Algorithm::Myers);
    assert!(result.is_ok());

    // The actual output depends on whether algorithms are available
    let output = String::from_utf8(buffer.into_inner()).expect("Not valid UTF-8");

    if Algorithm::has_available_algorithms() {
        // If algorithms are available, we should see diff output
        assert!(
            !output.contains("Error: No diff algorithms are available"),
            "Should not show error when algorithms are available"
        );
    } else {
        // If no algorithms are available, we should see the error message
        assert!(
            output.contains("Error: No diff algorithms are available"),
            "Should show error when no algorithms are available"
        );
    }
}

/// Test that the diff function handles large inputs correctly
#[test]
fn test_diff_large_inputs() {
    // Create large inputs with some differences
    let old = "a\n".repeat(1000);
    let new = "a\n".repeat(500) + &"b\n".repeat(500);

    let mut buffer = Cursor::new(Vec::new());
    let theme = ArrowsTheme::default();

    diff(&mut buffer, &old, &new, &theme).unwrap();

    let output = String::from_utf8(buffer.into_inner()).expect("Not valid UTF-8");

    // Check that the output contains the expected number of lines
    // Header + 500 unchanged 'a' lines + 500 deleted 'a' lines + 500 inserted 'b' lines
    let line_count = output.lines().count();
    assert_eq!(line_count, 1 + 500 + 500 + 500);

    // Check that the output contains the expected content
    assert!(output.contains(" a")); // Unchanged lines
    assert!(output.contains("<a")); // Deleted lines
    assert!(output.contains(">b")); // Inserted lines
}

/// Test that the application works when the requested algorithm is the
/// shortest-edit-script engine, and that a request falls back cleanly
#[test]
fn cmd_test_only_myers_algorithm() {
    let old = "The quick brown fox";
    let new = "The quick red fox";
    let mut buffer = Cursor::new(Vec::new());
    let theme = ArrowsTheme::default();

    // This should work because the Myers algorithm is available
    diff_with_algorithm(&mut buffer, old, new, &theme, Algorithm::Myers).unwrap();

    let output = String::from_utf8(buffer.into_inner()).expect("Not valid UTF-8");
    assert!(output.contains("<The quick brown fox"));
    assert!(output.contains(">The quick red fox"));

    // Now try with the Similar algorithm
    let mut buffer = Cursor::new(Vec::new());
    diff_with_algorithm(&mut buffer, old, new, &theme, Algorithm::Similar).unwrap();

    let output = String::from_utf8(buffer.into_inner()).expect("Not valid UTF-8");
    assert!(output.contains("<The quick brown fox"));
    assert!(output.contains(">The quick red fox"));
}

/// Test that the application works when the requested algorithm is the
/// reference engine
#[test]
fn cmd_test_only_similar_algorithm() {
    let old = "The quick brown fox";
    let new = "The quick red fox";
    let mut buffer = Cursor::new(Vec::new());
    let theme = ArrowsTheme::default();

    // This should work because the Similar algorithm is available
    diff_with_algorithm(&mut buffer, old, new, &theme, Algorithm::Similar).unwrap();

    let output = String::from_utf8(buffer.into_inner()).expect("Not valid UTF-8");
    assert!(output.contains("<The quick brown fox"));
    assert!(output.contains(">The quick red fox"));

    // Now try with the Myers algorithm
    let mut buffer = Cursor::new(Vec::new());
    diff_with_algorithm(&mut buffer, old, new, &theme, Algorithm::Myers).unwrap();

    let output = String::from_utf8(buffer.into_inner()).expect("Not valid UTF-8");
    assert!(output.contains("<The quick brown fox"));
    assert!(output.contains(">The quick red fox"));
}

/// Test that `diff_with_algorithm` correctly handles unavailable algorithms
#[test]
fn test_diff_with_algorithm_unavailable() {
    let old = "old";
    let new = "new";
    let mut buffer = Cursor::new(Vec::new());
    let theme = ArrowsTheme::default();

    // Skip test if no algorithms are available
    if !Algorithm::has_available_algorithms() {
        return;
    }

    // Get available algorithms
    let available_algorithms = Algorithm::available_algorithms();

    // Find an algorithm that's not available (if possible)
    let unavailable_algorithm = if available_algorithms.contains(&Algorithm::Myers)
        && !available_algorithms.contains(&Algorithm::Similar)
    {
        Algorithm::Similar
    } else if !available_algorithms.contains(&Algorithm::Myers)
        && available_algorithms.contains(&Algorithm::Similar)
    {
        Algorithm::Myers
    } else {
        // If both are available or none are available, we can't test this case
        return;
    };

    // Test with the unavailable algorithm
    diff_with_algorithm(&mut buffer, old, new, &theme, unavailable_algorithm).unwrap();

    let output = String::from_utf8(buffer.into_inner()).expect("Not valid UTF-8");

    // Should still produce output using an available algorithm
    assert!(
        !output.contains("Error: No diff algorithms are available"),
        "Should use an available algorithm instead of showing an error"
    );
    assert!(
        output.contains("old") || output.contains("new"),
        "Output should contain diff content"
    );
}
