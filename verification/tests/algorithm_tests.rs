use std::io::Cursor;

use termdiff::{diff_with_algorithm, Algorithm, ArrowsTheme, DrawDiff, SignsTheme};

/// Test the `Algorithm::has_available_algorithms` function
#[test]
fn mod_test_has_available_algorithms() {
    // This should always be true in a test environment since at least one algorithm should be enabled
    assert!(Algorithm::has_available_algorithms());

    // Get the available algorithms to verify
    let available = Algorithm::available_algorithms();
    assert!(!available.is_empty());

    // Verify that has_available_algorithms matches the emptiness of available_algorithms
    assert_eq!(Algorithm::has_available_algorithms(), !available.is_empty());
}

/// Test the `Algorithm::first_available` function
#[test]
fn mod_test_first_available() {
    // This should always return Some in a test environment
    let first = Algorithm::first_available();
    assert!(first.is_some());

    // Verify that the first available algorithm is in the list of available algorithms
    let available = Algorithm::available_algorithms();
    assert!(available.contains(&first.unwrap()));
}

/// Test that `diff_with_algorithm` correctly handles the case where the requested algorithm is not available
/// This test specifically targets the condition in the function that checks if the algorithm is available
#[test]
fn test_diff_with_algorithm_unavailable_check() {
    let old = "The quick brown fox";
    let new = "The quick red fox";
    let theme = ArrowsTheme::default();

    // Get the available algorithms
    let available = Algorithm::available_algorithms();

    // Only run this test if at least one algorithm is available
    if !available.is_empty() {
        // Choose an algorithm that is not available
        let unavailable_algorithm = if available.contains(&Algorithm::Similar) {
            Algorithm::Myers
        } else {
            Algorithm::Similar
        };

        // If both algorithms are available, we can't test this directly
        if !(available.contains(&Algorithm::Myers) && available.contains(&Algorithm::Similar)) {
            // Get the expected output using the first available algorithm
            let mut expected_buffer = Cursor::new(Vec::new());
            let available_algorithm = Algorithm::first_available().unwrap();
            diff_with_algorithm(&mut expected_buffer, old, new, &theme, available_algorithm)
                .unwrap();
            let expected_output =
                String::from_utf8(expected_buffer.into_inner()).expect("Not valid UTF-8");

            // Now try with the unavailable algorithm
            let mut actual_buffer = Cursor::new(Vec::new());
            diff_with_algorithm(&mut actual_buffer, old, new, &theme, unavailable_algorithm)
                .unwrap();
            let actual_output =
                String::from_utf8(actual_buffer.into_inner()).expect("Not valid UTF-8");

            // The function should fall back to using the available algorithm
            // So the outputs should be the same
            assert_eq!(actual_output, expected_output);

            // Also verify that the output contains the expected diff information
            assert!(actual_output.contains("The quick brown fox"));
            assert!(actual_output.contains("The quick red fox"));
        }
    }
}

/// Test that `diff_with_algorithm` correctly uses the requested algorithm when available
#[test]
fn test_diff_with_algorithm_uses_requested() {
    let old = "The quick brown fox";
    let new = "The quick red fox";
    let theme = ArrowsTheme::default();

    // Get the available algorithms
    let available = Algorithm::available_algorithms();

    // Only run this test if at least one algorithm is available
    if !available.is_empty() {
        let algorithm = available[0]; // Use the first available algorithm

        let mut buffer = Cursor::new(Vec::new());
        diff_with_algorithm(&mut buffer, old, new, &theme, algorithm).unwrap();

        let output = String::from_utf8(buffer.into_inner()).expect("Not valid UTF-8");

        // The output should contain the diff information
        assert!(output.contains("The quick brown fox"));
        assert!(output.contains("The quick red fox"));
    }
}

/// Test that the Myers algorithm produces the same output as the Similar algorithm
/// for a simple case
#[test]
fn test_myers_vs_similar_simple() {
    let old = "The quick brown fox";
    let new = "The quick red fox";
    let theme = ArrowsTheme::default();

    // Get output from Similar algorithm
    let similar_output = DrawDiff::with_algorithm(old, new, &theme, Algorithm::Similar).render();

    // Get output from Myers algorithm
    let myers_output = DrawDiff::with_algorithm(old, new, &theme, Algorithm::Myers).render();

    // They should be the same
    assert_eq!(similar_output, myers_output);
}

/// Test that the Myers algorithm produces the same output as the Similar algorithm
/// for a multiline case
#[test]
fn test_myers_vs_similar_multiline() {
    let old = "Line 1\nLine 2\nLine 3\nLine 4";
    let new = "Line 1\nModified Line 2\nLine 3\nModified Line 4";
    let theme = SignsTheme::default();

    let similar_output = DrawDiff::with_algorithm(old, new, &theme, Algorithm::Similar).render();
    let myers_output = DrawDiff::with_algorithm(old, new, &theme, Algorithm::Myers).render();

    assert_eq!(similar_output, myers_output);
}

/// Test that the Myers algorithm produces the same output as the Similar algorithm
/// for a case with added lines
#[test]
fn test_myers_vs_similar_added_lines() {
    let old = "Line 1\nLine 3";
    let new = "Line 1\nLine 2\nLine 3";
    let theme = ArrowsTheme::default();

    let similar_output = DrawDiff::with_algorithm(old, new, &theme, Algorithm::Similar).render();
    let myers_output = DrawDiff::with_algorithm(old, new, &theme, Algorithm::Myers).render();

    assert_eq!(similar_output, myers_output);
}

/// Test that the Myers algorithm produces the same output as the Similar algorithm
/// for a case with removed lines
#[test]
fn test_myers_vs_similar_removed_lines() {
    let old = "Line 1\nLine 2\nLine 3";
    let new = "Line 1\nLine 3";
    let theme = ArrowsTheme::default();

    let similar_output = DrawDiff::with_algorithm(old, new, &theme, Algorithm::Similar).render();
    let myers_output = DrawDiff::with_algorithm(old, new, &theme, Algorithm::Myers).render();

    assert_eq!(similar_output, myers_output);
}

/// Test that the Myers algorithm produces the same output as the Similar algorithm
/// for a case with trailing newline differences
#[test]
fn test_myers_vs_similar_trailing_newline() {
    let old = "Line 1\nLine 2\n";
    let new = "Line 1\nLine 2";
    let theme = ArrowsTheme::default();

    let similar_output = DrawDiff::with_algorithm(old, new, &theme, Algorithm::Similar).render();
    let myers_output = DrawDiff::with_algorithm(old, new, &theme, Algorithm::Myers).render();

    assert_eq!(similar_output, myers_output);
}

/// Test that the Myers algorithm produces the same output as the Similar algorithm
/// for a case with empty inputs
#[test]
fn test_myers_vs_similar_empty() {
    let old = "";
    let new = "";
    let theme = ArrowsTheme::default();

    let similar_output = DrawDiff::with_algorithm(old, new, &theme, Algorithm::Similar).render();
    let myers_output = DrawDiff::with_algorithm(old, new, &theme, Algorithm::Myers).render();

    // They should be the same
    assert_eq!(similar_output, myers_output);
}

/// Test that the Myers algorithm produces the same output as the Similar algorithm
/// for a case with completely different inputs
#[test]
fn test_myers_vs_similar_completely_different() {
    let old = "This is completely different";
    let new = "From this text";
    let theme = ArrowsTheme::default();

    let similar_output = DrawDiff::with_algorithm(old, new, &theme, Algorithm::Similar).render();
    let myers_output = DrawDiff::with_algorithm(old, new, &theme, Algorithm::Myers).render();

    // They should be the same
    assert_eq!(similar_output, myers_output);
}

/// Test that the `diff_with_algorithm` function works with the Myers algorithm
#[test]
fn test_diff_with_algorithm_myers() {
    let old = "The quick brown fox";
    let new = "The quick red fox";
    let mut buffer = Cursor::new(Vec::new());
    let theme = ArrowsTheme::default();

    diff_with_algorithm(&mut buffer, old, new, &theme, Algorithm::Myers).unwrap();

    let output = String::from_utf8(buffer.into_inner()).expect("Not valid UTF-8");
    // Verify the theme's arrow prefixes are present
    assert!(output.contains("<The quick brown fox"));
    assert!(output.contains(">The quick red fox"));
}

/// Test that the `diff_with_algorithm` function works with the Similar algorithm
#[test]
fn test_diff_with_algorithm_similar() {
    let old = "The quick brown fox";
    let new = "The quick red fox";
    let mut buffer = Cursor::new(Vec::new());
    let theme = ArrowsTheme::default();

    diff_with_algorithm(&mut buffer, old, new, &theme, Algorithm::Similar).unwrap();

    let output = String::from_utf8(buffer.into_inner()).expect("Not valid UTF-8");
    // Verify the theme's arrow prefixes are present
    assert!(output.contains("<The quick brown fox"));
    assert!(output.contains(">The quick red fox"));
}

/// Test that the shortest-edit-script engine answers a direct request
#[test]
fn mod_test_only_myers_algorithm() {
    let old = "The quick brown fox";
    let new = "The quick red fox";
    let mut buffer = Cursor::new(Vec::new());
    let theme = ArrowsTheme::default();

    diff_with_algorithm(&mut buffer, old, new, &theme, Algorithm::Myers).unwrap();

    let output = String::from_utf8(buffer.into_inner()).expect("Not valid UTF-8");
    assert!(output.contains("<The quick brown fox"));
    assert!(output.contains(">The quick red fox"));

    let mut buffer = Cursor::new(Vec::new());
    diff_with_algorithm(&mut buffer, old, new, &theme, Algorithm::Similar).unwrap();

    let output = String::from_utf8(buffer.into_inner()).expect("Not valid UTF-8");
    assert!(output.contains("<The quick brown fox"));
    assert!(output.contains(">The quick red fox"));
}

/// Test that the reference engine answers a direct request
#[test]
fn mod_test_only_similar_algorithm() {
    let old = "The quick brown fox";
    let new = "The quick red fox";
    let mut buffer = Cursor::new(Vec::new());
    let theme = ArrowsTheme::default();

    diff_with_algorithm(&mut buffer, old, new, &theme, Algorithm::Similar).unwrap();

    let output = String::from_utf8(buffer.into_inner()).expect("Not valid UTF-8");
    assert!(output.contains("<The quick brown fox"));
    assert!(output.contains(">The quick red fox"));

    let mut buffer = Cursor::new(Vec::new());
    diff_with_algorithm(&mut buffer, old, new, &theme, Algorithm::Myers).unwrap();

    let output = String::from_utf8(buffer.into_inner()).expect("Not valid UTF-8");
    assert!(output.contains("<The quick brown fox"));
    assert!(output.contains(">The quick red fox"));
}
