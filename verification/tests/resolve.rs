use stitcher::arrange::insert_by_path;
use stitcher::{Candidate, Expansion, Format, Input, Probe, Stitch, StitchError};

fn jpeg() -> Vec<u8> {
    vec![0xFF, 0xD8, 0xFF, 0xE0, 0x00, 0x10, b'J', b'F', b'I', b'F', 0x00, 0x01]
}

fn png() -> Vec<u8> {
    vec![0x89, 0x50, 0x4E, 0x47, 0x0D, 0x0A, 0x1A, 0x0A, 0x00, 0x00, 0x00, 0x0D]
}

fn tiff() -> Vec<u8> {
    vec![0x4D, 0x4D, 0x00, 0x2A, 0x00, 0x00, 0x00, 0x08, 0x00, 0x00, 0x00, 0x00]
}

fn gif() -> Vec<u8> {
    vec![b'G', b'I', b'F', b'8', b'9', b'a', 0x01, 0x00, 0x01, 0x00, 0x00, 0x00]
}

fn file(path: &str, bytes: Vec<u8>) -> Candidate {
    Candidate { path: path.to_string(), probe: Probe::File(bytes) }
}

fn directory(path: &str) -> Candidate {
    Candidate { path: path.to_string(), probe: Probe::NotAFile }
}

fn source(path: &str, extension: &str, format: Format) -> Input {
    Input { path: path.to_string(), extension: extension.to_string(), format }
}

fn patterns(texts: &[&str]) -> Vec<String> {
    texts.iter().map(|text| text.to_string()).collect()
}

fn paths(stitch: &Stitch) -> Vec<String> {
    stitch.inputs.iter().map(|input| input.path.clone()).collect()
}

/// The directory that the resolution tests pretend to have walked:
/// `test1.jpg`, `test2.png` and `subdir/nested.tiff`.
const TEMP: &str = "/tmp/stitch";

/// What expanding `pattern` in that directory gives.
fn expand(pattern: &str) -> Expansion {
    let found = if pattern == format!("{}/*.jpg", TEMP) || pattern == format!("{}/test1.jpg", TEMP)
    {
        vec![file(&format!("{}/test1.jpg", TEMP), jpeg())]
    } else if pattern == format!("{}/*.png", TEMP) {
        vec![file(&format!("{}/test2.png", TEMP), png())]
    } else if pattern == format!("{}/**/*.tiff", TEMP) {
        vec![file(&format!("{}/subdir/nested.tiff", TEMP), tiff())]
    } else {
        Vec::new()
    };
    Expansion::Paths(found)
}

fn expand_all(patterns: &[String]) -> Vec<Expansion> {
    patterns.iter().map(|pattern| expand(pattern)).collect()
}

#[test]
fn test_stitch_new_success() {
    let patterns = vec![format!("{}/*.jpg", TEMP), format!("{}/*.png", TEMP)];
    let result = Stitch::new(&patterns, &expand_all(&patterns));

    assert!(result.is_ok());
    let stitch = result.unwrap();
    assert_eq!(stitch.inputs.len(), 2); // test1.jpg, test2.png

    for source in &stitch.inputs {
        match std::path::Path::new(&source.path).extension().unwrap().to_str().unwrap() {
            "jpg" => {
                assert_eq!(source.extension, "jpg");
                assert_eq!(source.format, Format::Jpeg);
                assert_eq!(source.format.as_str(), "image/jpeg");
            }
            "png" => {
                assert_eq!(source.extension, "png");
                assert_eq!(source.format, Format::Png);
                assert_eq!(source.format.as_str(), "image/png");
            }
            _ => panic!("Unexpected file extension"),
        }
    }
}

#[test]
fn test_stitch_new_invalid_pattern() {
    let patterns = vec!["[invalid".to_string()];
    let result = Stitch::new(&patterns, &expand_all(&patterns));

    assert!(result.is_err());
    let error_msg = result.unwrap_err().message();
    assert!(error_msg.starts_with("Invalid input glob pattern: "));
    assert!(error_msg.contains("[invalid"));
}

#[test]
fn test_stitch_new_no_matching_files() {
    let patterns = vec![format!("{}/*.nonexistent", TEMP)];
    let result = Stitch::new(&patterns, &expand_all(&patterns));

    assert!(result.is_err());
    let error_msg = result.unwrap_err().message();
    assert!(error_msg.starts_with("No inputs found matching glob pattern(s): "));
    assert!(error_msg.contains("*.nonexistent"));
}

#[test]
fn test_stitch_new_multiple_patterns_with_overlap() {
    let patterns = vec![format!("{}/test1.jpg", TEMP), format!("{}/*.jpg", TEMP)];
    let result = Stitch::new(&patterns, &expand_all(&patterns));

    assert!(result.is_ok());
    let stitch = result.unwrap();
    // Should have duplicates: test1.jpg appears twice (once from each pattern)
    assert_eq!(stitch.inputs.len(), 2); // test1.jpg, test1.jpg
    assert_eq!(paths(&stitch), ["/tmp/stitch/test1.jpg", "/tmp/stitch/test1.jpg"]);
}

#[test]
fn test_stitch_new_with_nested_files() {
    let patterns = vec![format!("{}/**/*.tiff", TEMP)];
    let result = Stitch::new(&patterns, &expand_all(&patterns));

    assert!(result.is_ok());
    let stitch = result.unwrap();
    assert_eq!(stitch.inputs.len(), 1); // nested.tiff

    // Should be a TIFF image
    for source in &stitch.inputs {
        assert_eq!(source.extension, "tif");
        assert_eq!(source.format, Format::Tiff);
        assert_eq!(source.format.as_str(), "image/tiff");
    }
}

#[test]
fn two_patterns_resolve_to_two_ordered_sources() {
    let patterns = patterns(&["dir/*.jpg", "dir/*.png"]);
    let expansions = [
        Expansion::Paths(vec![file("dir/a.jpg", jpeg())]),
        Expansion::Paths(vec![file("dir/b.png", png())]),
    ];
    let stitch = Stitch::new(&patterns, &expansions).unwrap();
    assert_eq!(
        stitch.inputs,
        [source("dir/a.jpg", "jpg", Format::Jpeg), source("dir/b.png", "png", Format::Png)]
    );
}

#[test]
fn the_order_of_the_patterns_decides_nothing() {
    let first = Stitch::new(
        &patterns(&["dir/*.jpg", "dir/*.png"]),
        &[
            Expansion::Paths(vec![file("dir/a.jpg", jpeg()), file("dir/c.jpg", jpeg())]),
            Expansion::Paths(vec![file("dir/b.png", png())]),
        ],
    )
    .unwrap();
    let second = Stitch::new(
        &patterns(&["dir/*.png", "dir/*.jpg"]),
        &[
            Expansion::Paths(vec![file("dir/b.png", png())]),
            Expansion::Paths(vec![file("dir/a.jpg", jpeg()), file("dir/c.jpg", jpeg())]),
        ],
    )
    .unwrap();
    assert_eq!(paths(&first), ["dir/a.jpg", "dir/b.png", "dir/c.jpg"]);
    assert_eq!(first, second);
}

#[test]
fn the_sources_of_all_patterns_are_sorted_together() {
    let stitch = Stitch::new(
        &patterns(&["z/*", "a.b/*", "a/*"]),
        &[
            Expansion::Paths(vec![file("z/2.png", png()), file("z/1.png", png())]),
            Expansion::Paths(vec![file("a.b/1.jpg", jpeg())]),
            Expansion::Paths(vec![file("a/9.jpg", jpeg()), file("a/10.jpg", jpeg())]),
        ],
    )
    .unwrap();
    assert_eq!(paths(&stitch), ["a/10.jpg", "a/9.jpg", "a.b/1.jpg", "z/1.png", "z/2.png"]);
}

#[test]
fn what_is_no_regular_file_is_passed_over() {
    let stitch = Stitch::new(
        &patterns(&["dir/*"]),
        &[Expansion::Paths(vec![
            directory("dir/sub"),
            file("dir/a.jpg", jpeg()),
            Candidate { path: "dir/gone".to_string(), probe: Probe::Missing },
        ])],
    )
    .unwrap();
    assert_eq!(stitch.inputs, [source("dir/a.jpg", "jpg", Format::Jpeg)]);
}

#[test]
fn only_directories_are_no_match() {
    let names = patterns(&["dir/*", "other/*"]);
    let expansions = [Expansion::Paths(vec![directory("dir/sub")]), Expansion::Paths(vec![])];
    let result = Stitch::new(&names, &expansions);
    assert_eq!(result, Err(StitchError::NoMatchingInputs { patterns: names }));
}

#[test]
fn no_match_names_the_pattern() {
    let result = Stitch::new(&patterns(&["dir/*.nope"]), &[Expansion::Paths(Vec::new())]);
    let error = result.unwrap_err();
    assert_eq!(error, StitchError::NoMatchingInputs { patterns: patterns(&["dir/*.nope"]) });
    assert!(error.message().contains("dir/*.nope"));
}

#[test]
fn a_pattern_without_an_expansion_matched_nothing() {
    let names = patterns(&["dir/*.jpg", "dir/*.png"]);
    let stitch = Stitch::new(&names, &[Expansion::Paths(vec![file("dir/a.jpg", jpeg())])]).unwrap();
    assert_eq!(paths(&stitch), ["dir/a.jpg"]);
    assert_eq!(Stitch::new(&names, &[]), Err(StitchError::NoMatchingInputs { patterns: names }));
}

#[test]
fn no_pattern_at_all_is_no_match() {
    assert_eq!(Stitch::new(&[], &[]), Err(StitchError::NoMatchingInputs { patterns: vec![] }));
}

#[test]
fn a_malformed_pattern_ends_the_resolution() {
    let result = Stitch::new(
        &patterns(&["dir/*.jpg", "dir/a**", "dir/*.png"]),
        &[
            Expansion::Paths(vec![file("dir/a.jpg", jpeg())]),
            Expansion::Paths(vec![]),
            Expansion::Paths(vec![file("dir/b.gif", gif())]),
        ],
    );
    assert_eq!(result, Err(StitchError::InvalidPattern { pattern: "dir/a**".to_string() }));
}

#[test]
fn the_glob_syntax_decides_what_is_malformed() {
    for text in ["[invalid", "a***", "**a", "a**/b", "[!"] {
        assert_eq!(
            Stitch::new(&patterns(&[text]), &[Expansion::Paths(vec![file("a.jpg", jpeg())])]),
            Err(StitchError::InvalidPattern { pattern: text.to_string() })
        );
    }
    for text in ["*.jpg", "dir/**/*.tiff", "a?c", "[abc]", "[!a-z]x", "plain", "[]]", ""] {
        let stitch =
            Stitch::new(&patterns(&[text]), &[Expansion::Paths(vec![file("a.jpg", jpeg())])]);
        assert_eq!(stitch.map(|stitch| stitch.inputs.len()), Ok(1));
    }
}

#[test]
fn a_refused_expansion_is_a_malformed_pattern() {
    assert_eq!(
        Stitch::new(&patterns(&["[a/b]"]), &[Expansion::Rejected]),
        Err(StitchError::InvalidPattern { pattern: "[a/b]".to_string() })
    );
}

#[test]
fn a_malformed_pattern_counts_before_any_file() {
    let expansions = [
        Expansion::Paths(vec![
            file("dir/a.jpg", jpeg()),
            file("dir/notes.txt", b"hello".to_vec()),
            file("dir/c.gif", gif()),
        ]),
        Expansion::Paths(vec![]),
    ];
    let malformed = Err(StitchError::InvalidPattern { pattern: "[invalid".to_string() });
    assert_eq!(Stitch::new(&patterns(&["dir/*", "[invalid"]), &expansions), malformed);
    let refused = [
        Expansion::Paths(vec![file("dir/notes.txt", b"hello".to_vec())]),
        Expansion::Rejected,
    ];
    assert_eq!(
        Stitch::new(&patterns(&["dir/*", "[a/b]"]), &refused),
        Err(StitchError::InvalidPattern { pattern: "[a/b]".to_string() })
    );
    // Without the malformed pattern the file's own failure is the result.
    assert_eq!(
        Stitch::new(&patterns(&["dir/*", "other/*"]), &expansions),
        Err(StitchError::UnknownContent { path: "dir/notes.txt".to_string() })
    );
}

#[test]
fn the_first_of_two_malformed_patterns_is_named() {
    let result = Stitch::new(&patterns(&["ok/*", "a**", "[invalid"]), &[]);
    assert_eq!(result, Err(StitchError::InvalidPattern { pattern: "a**".to_string() }));
    let refused = [Expansion::Rejected, Expansion::Paths(vec![])];
    let result = Stitch::new(&patterns(&["[a/b]", "[invalid"]), &refused);
    assert_eq!(result, Err(StitchError::InvalidPattern { pattern: "[a/b]".to_string() }));
}

#[test]
fn the_first_failure_ends_the_resolution() {
    let result = Stitch::new(
        &patterns(&["dir/*", "other/*"]),
        &[
            Expansion::Paths(vec![
                file("dir/a.jpg", jpeg()),
                file("dir/b.txt", b"plain words".to_vec()),
                file("dir/c.gif", gif()),
            ]),
            Expansion::Paths(vec![file("other/d.gif", gif())]),
        ],
    );
    assert_eq!(result, Err(StitchError::UnknownContent { path: "dir/b.txt".to_string() }));
}

#[test]
fn an_unsupported_file_ends_the_resolution() {
    let result = Stitch::new(
        &patterns(&["dir/*"]),
        &[Expansion::Paths(vec![file("dir/c.gif", gif()), file("dir/a.jpg", jpeg())])],
    );
    assert_eq!(result, Err(StitchError::UnsupportedFormat { signature: "image/gif".to_string() }));
}

#[test]
fn an_empty_file_is_unknown_content() {
    let result =
        Stitch::new(&patterns(&["dir/*"]), &[Expansion::Paths(vec![file("dir/a.jpg", vec![])])]);
    assert_eq!(result, Err(StitchError::UnknownContent { path: "dir/a.jpg".to_string() }));
}

#[test]
fn a_broken_walk_is_a_failure_of_its_pattern() {
    let broken = [
        Expansion::Paths(vec![file("a/1.jpg", jpeg())]),
        Expansion::Interrupted(vec![file("b/1.png", png())]),
        Expansion::Paths(vec![file("c/1.gif", gif())]),
    ];
    assert_eq!(
        Stitch::new(&patterns(&["a/*", "b/*", "c/*"]), &broken),
        Err(StitchError::InvalidPattern { pattern: "b/*".to_string() })
    );
    let failed_before =
        [Expansion::Interrupted(vec![file("b/1.gif", gif()), file("b/2.png", png())])];
    assert_eq!(
        Stitch::new(&patterns(&["b/*"]), &failed_before),
        Err(StitchError::UnsupportedFormat { signature: "image/gif".to_string() })
    );
}

#[test]
fn check_patterns_names_the_first_malformed_pattern() {
    let names = patterns(&["*.jpg", "[invalid", "a***"]);
    assert_eq!(
        Stitch::check_patterns(&names, &[]),
        Err(StitchError::InvalidPattern { pattern: "[invalid".to_string() })
    );
    assert_eq!(
        Stitch::check_patterns(&names, &[true, false, false]),
        Err(StitchError::InvalidPattern { pattern: "*.jpg".to_string() })
    );
    assert_eq!(Stitch::check_patterns(&patterns(&["*.jpg", "**/*.png"]), &[false]), Ok(()));
    assert_eq!(
        Stitch::check_patterns(&patterns(&["*.jpg", "**/*.png"]), &[false, true, true]),
        Err(StitchError::InvalidPattern { pattern: "**/*.png".to_string() })
    );
    assert_eq!(Stitch::check_patterns(&[], &[true]), Ok(()));
}

#[test]
fn refused_pattern_finds_the_least_position() {
    assert_eq!(Stitch::refused_pattern(&[true, true, true], &[false, false, false]), None);
    assert_eq!(Stitch::refused_pattern(&[true, false, false], &[]), Some(1));
    assert_eq!(Stitch::refused_pattern(&[true, true, false], &[false, true]), Some(1));
    assert_eq!(Stitch::refused_pattern(&[true, true], &[false, false, true]), None);
    assert_eq!(Stitch::refused_pattern(&[false], &[true]), Some(0));
    assert_eq!(Stitch::refused_pattern(&[], &[true]), None);
}

#[test]
fn take_classifies_one_candidate() {
    let mut sources = vec![source("z.png", "png", Format::Png)];
    assert_eq!(Stitch::take(&mut sources, &file("a.jpg", jpeg())), Ok(()));
    assert_eq!(Stitch::take(&mut sources, &directory("d")), Ok(()));
    assert_eq!(
        sources,
        [source("z.png", "png", Format::Png), source("a.jpg", "jpg", Format::Jpeg)]
    );
    assert_eq!(
        Stitch::take(&mut sources, &file("b.gif", gif())),
        Err(StitchError::UnsupportedFormat { signature: "image/gif".to_string() })
    );
    assert_eq!(sources.len(), 2);
}

#[test]
fn interrupted_names_the_pattern() {
    assert_eq!(
        Stitch::interrupted("dir/**/*.png"),
        StitchError::InvalidPattern { pattern: "dir/**/*.png".to_string() }
    );
}

#[test]
fn find_matching_inputs_classifies_the_regular_files() {
    let expansion =
        Expansion::Paths(vec![file("b.png", png()), directory("d"), file("a.jpg", jpeg())]);
    let mut sources = vec![source("z.png", "png", Format::Png)];
    assert_eq!(Stitch::find_matching_inputs(&mut sources, "*", &expansion), Ok(()));
    assert_eq!(
        sources,
        [
            source("z.png", "png", Format::Png),
            source("b.png", "png", Format::Png),
            source("a.jpg", "jpg", Format::Jpeg),
        ]
    );
}

#[test]
fn find_matching_inputs_finds_nothing_among_directories() {
    let expansion = Expansion::Paths(vec![directory("d"), directory("e")]);
    let mut sources = Vec::new();
    assert_eq!(Stitch::find_matching_inputs(&mut sources, "*", &expansion), Ok(()));
    assert_eq!(Stitch::find_matching_inputs(&mut sources, "*", &Expansion::Paths(vec![])), Ok(()));
    assert!(sources.is_empty());
}

#[test]
fn find_matching_inputs_stops_at_the_first_failure() {
    let expansion = Expansion::Paths(vec![
        file("b.png", png()),
        file("a.gif", gif()),
        file("c.txt", b"plain words".to_vec()),
    ]);
    let mut sources = Vec::new();
    assert_eq!(
        Stitch::find_matching_inputs(&mut sources, "*", &expansion),
        Err(StitchError::UnsupportedFormat { signature: "image/gif".to_string() })
    );
}

#[test]
fn find_matching_inputs_fails_a_refused_or_broken_pattern() {
    let refused = Err(StitchError::InvalidPattern { pattern: "[x".to_string() });
    let mut sources = Vec::new();
    assert_eq!(Stitch::find_matching_inputs(&mut sources, "[x", &Expansion::Rejected), refused);
    let broken = Expansion::Interrupted(vec![file("b.png", png())]);
    assert_eq!(Stitch::find_matching_inputs(&mut sources, "[x", &broken), refused);
    let empty = Expansion::Interrupted(vec![]);
    assert_eq!(Stitch::find_matching_inputs(&mut sources, "[x", &empty), refused);
}

#[test]
fn from_sources_sorts_the_sources() {
    let sources = vec![
        source("b", "png", Format::Png),
        source("c", "jpg", Format::Jpeg),
        source("a", "tif", Format::Tiff),
    ];
    let stitch = Stitch::from_sources(&patterns(&["*"]), sources).unwrap();
    assert_eq!(
        stitch.inputs,
        [
            source("a", "tif", Format::Tiff),
            source("b", "png", Format::Png),
            source("c", "jpg", Format::Jpeg),
        ]
    );
}

#[test]
fn from_sources_keeps_sources_of_one_path_in_their_order() {
    let sources = vec![
        source("b", "png", Format::Png),
        source("a", "jpg", Format::Jpeg),
        source("b", "jpg", Format::Jpeg),
        source("a", "tif", Format::Tiff),
        source("b", "tif", Format::Tiff),
    ];
    let stitch = Stitch::from_sources(&patterns(&["*"]), sources).unwrap();
    assert_eq!(
        stitch.inputs,
        [
            source("a", "jpg", Format::Jpeg),
            source("a", "tif", Format::Tiff),
            source("b", "png", Format::Png),
            source("b", "jpg", Format::Jpeg),
            source("b", "tif", Format::Tiff),
        ]
    );
}

#[test]
fn from_sources_refuses_no_source_at_all() {
    assert_eq!(
        Stitch::from_sources(&patterns(&["a", "b"]), Vec::new()),
        Err(StitchError::NoMatchingInputs { patterns: patterns(&["a", "b"]) })
    );
}

#[test]
fn insert_by_path_puts_a_source_behind_its_equals() {
    let mut sorted = vec![
        source("a", "jpg", Format::Jpeg),
        source("c", "jpg", Format::Jpeg),
        source("c", "png", Format::Png),
        source("e", "jpg", Format::Jpeg),
    ];
    insert_by_path(&mut sorted, source("c", "tif", Format::Tiff));
    insert_by_path(&mut sorted, source("", "jpg", Format::Jpeg));
    insert_by_path(&mut sorted, source("f", "jpg", Format::Jpeg));
    insert_by_path(&mut sorted, source("b", "jpg", Format::Jpeg));
    let found: Vec<(String, String)> =
        sorted.iter().map(|input| (input.path.clone(), input.extension.clone())).collect();
    let expected = [
        ("", "jpg"),
        ("a", "jpg"),
        ("b", "jpg"),
        ("c", "jpg"),
        ("c", "png"),
        ("c", "tif"),
        ("e", "jpg"),
        ("f", "jpg"),
    ];
    assert_eq!(found.len(), expected.len());
    for (got, want) in found.iter().zip(expected.iter()) {
        assert_eq!((got.0.as_str(), got.1.as_str()), *want);
    }
}
