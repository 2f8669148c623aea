use termdiff::Algorithm;

#[test]
fn common_test_has_available_algorithms() {
    // This test ensures that has_available_algorithms works correctly
    let has_algorithms = Algorithm::has_available_algorithms();

    assert!(
        has_algorithms,
        "Should have available algorithms when features are enabled"
    );
}

#[test]
fn test_has_available_algorithms_implementation() {
    // Test the implementation logic directly
    let algorithms = Algorithm::available_algorithms();
    let expected_result = !algorithms.is_empty();
    let actual_result = Algorithm::has_available_algorithms();

    // Verify that the function returns the expected result
    assert_eq!(
        actual_result, expected_result,
        "has_available_algorithms() should return !algorithms.is_empty()"
    );
}

#[test]
fn test_has_available_algorithms_behavior_with_empty_vec() {
    // Test with a mock implementation that returns an empty vector
    let mock_empty_vec = || Vec::<Algorithm>::new();

    // This is the exact implementation from has_available_algorithms
    let result = !mock_empty_vec().is_empty();

    // When the vector is empty, the result should be false
    assert!(
        !result,
        "Should return false when algorithms vector is empty"
    );

    // Now test with a non-empty vector
    let mock_non_empty_vec = || vec![Algorithm::Myers];
    let result = !mock_non_empty_vec().is_empty();

    // When the vector is not empty, the result should be true
    assert!(
        result,
        "Should return true when algorithms vector is not empty"
    );

    // Verify that the actual implementation matches our expectations
    assert!(
        Algorithm::has_available_algorithms(),
        "Should return true when algorithms are available"
    );
}

#[test]
fn common_test_first_available() {
    // This test ensures that first_available works correctly
    let first = Algorithm::first_available();

    assert!(
        first.is_some(),
        "Should have a first algorithm when features are enabled"
    );
}
