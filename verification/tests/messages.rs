use stitcher::StitchError;

#[test]
fn every_failure_has_its_text() {
    let cases = [
        (
            StitchError::InvalidPattern { pattern: "[invalid".to_string() },
            "Invalid input glob pattern: [invalid",
        ),
        (StitchError::NotFound { path: "a/b".to_string() }, "Path does not exist: a/b"),
        (StitchError::NotAFile { path: "a/b".to_string() }, "Path is not a file: a/b"),
        (
            StitchError::UnknownContent { path: "a/b".to_string() },
            "Could not determine MIME type for: a/b",
        ),
        (
            StitchError::UnsupportedFormat { signature: "image/gif".to_string() },
            "Unsupported MIME type: image/gif",
        ),
        (StitchError::MissingInput { path: "a/b".to_string() }, "Input file does not exist: a/b"),
        (StitchError::EncodeFailed { cause: "exit status: 1".to_string() }, "exit status: 1"),
        (StitchError::EmptySourceSet, "No input sources provided"),
    ];
    for (error, text) in cases {
        assert_eq!(error.message(), text);
    }
}

#[test]
fn no_match_lists_the_patterns() {
    let error = StitchError::NoMatchingInputs {
        patterns: vec!["a/*.jpg".to_string(), "b/*.png".to_string(), "c".to_string()],
    };
    assert_eq!(
        error.message(),
        "No inputs found matching glob pattern(s): a/*.jpg, b/*.png, c"
    );
}

#[test]
fn no_match_of_one_or_no_pattern() {
    let one = StitchError::NoMatchingInputs { patterns: vec!["a/*.jpg".to_string()] };
    assert_eq!(one.message(), "No inputs found matching glob pattern(s): a/*.jpg");
    let none = StitchError::NoMatchingInputs { patterns: Vec::new() };
    assert_eq!(none.message(), "No inputs found matching glob pattern(s): ");
}

#[test]
fn an_empty_pattern_is_listed_too() {
    let error = StitchError::NoMatchingInputs { patterns: vec!["".to_string(), "x".to_string()] };
    assert_eq!(error.message(), "No inputs found matching glob pattern(s): , x");
}
