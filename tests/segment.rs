use weaveconfig::template_file::segment::{parse_segment, ParseSegmentError};

fn skip_whitespace(input: &str) -> &str {
    input.trim_start()
}

#[test]
fn test_alphanumeric() {
    let (segment, remaining) = parse_segment("helloWorld123!@#").unwrap();
    assert_eq!(segment, "helloWorld123");
    assert_eq!(remaining, "!@#");
}

#[test]
fn test_alphanumeric_with_underscores_and_hyphens() {
    let (segment, remaining) = parse_segment("hello_world-123!@#").unwrap();
    assert_eq!(segment, "hello_world-123");
    assert_eq!(remaining, "!@#");
}

#[test]
fn test_double_quoted() {
    let (segment, remaining) = parse_segment("\"Hello, \\\"World\\\"!\" remaining").unwrap();
    assert_eq!(segment, "Hello, \"World\"!");
    assert_eq!(remaining, " remaining");
}

#[test]
fn test_single_quoted() {
    let (segment, remaining) = parse_segment("'It\\'s a test' and more").unwrap();
    assert_eq!(segment, "It's a test");
    assert_eq!(remaining, " and more");
}

#[test]
fn test_unclosed_quote() {
    assert_eq!(parse_segment("\"Unclosed string"), Err(ParseSegmentError::UnclosedQuote));
}

#[test]
fn segment_test_empty_input() {
    let (segment, remaining) = parse_segment("").unwrap();
    assert_eq!(segment, "");
    assert_eq!(remaining, "");
}

#[test]
fn test_non_alphanumeric_start() {
    assert_eq!(parse_segment("!invalid"), Err(ParseSegmentError::NoSegment));
}

#[test]
fn test_escape_sequences() {
    let (segment, remaining) = parse_segment("\"Line1\\nLine2\\tTabbed\" end").unwrap();
    assert_eq!(segment, "Line1\nLine2\tTabbed");
    assert_eq!(remaining, " end");
}

#[test]
fn test_mixed_input() {
    let input = "start-1 \"quoted \\\"string\\\"\" middle-2 'another \\'test\\'' end-3";

    let (segment, remaining) = parse_segment(input).unwrap();
    assert_eq!(segment, "start-1");
    let remaining = skip_whitespace(remaining);
    assert_eq!(remaining, "\"quoted \\\"string\\\"\" middle-2 'another \\'test\\'' end-3");

    let (segment, remaining) = parse_segment(remaining).unwrap();
    assert_eq!(segment, "quoted \"string\"");
    let remaining = skip_whitespace(remaining);
    assert_eq!(remaining, "middle-2 'another \\'test\\'' end-3");

    let (segment, remaining) = parse_segment(remaining).unwrap();
    assert_eq!(segment, "middle-2");
    let remaining = skip_whitespace(remaining);
    assert_eq!(remaining, "'another \\'test\\'' end-3");

    let (segment, remaining) = parse_segment(remaining).unwrap();
    assert_eq!(segment, "another 'test'");
    let remaining = skip_whitespace(remaining);
    assert_eq!(remaining, "end-3");

    let (segment, remaining) = parse_segment(remaining).unwrap();
    assert_eq!(segment, "end-3");
    assert_eq!(remaining, "");
}

#[test]
fn test_zero_characters_parsed_error() {
    for input in vec![" ", "!", "@#"] {
        assert_eq!(parse_segment(input), Err(ParseSegmentError::NoSegment));
    }
}

#[test]
fn test_valid_segment_starts() {
    for input in vec!["_valid_start", "-valid-start", "valid-middle-1"] {
        let (segment, remaining) = parse_segment(input).unwrap();
        assert_eq!(segment, input);
        assert_eq!(remaining, "");
    }
}

#[test]
fn unknown_escape_keeps_backslash_and_unicode_words() {
    let (segment, remaining) = parse_segment("'a\\qb\\\"' x").unwrap();
    assert_eq!(segment, "a\\qb\\\"");
    assert_eq!(remaining, " x");
    let (segment, remaining) = parse_segment("café.x").unwrap();
    assert_eq!(segment, "café");
    assert_eq!(remaining, ".x");
    assert_eq!(parse_segment("'ends with backslash\\"), Err(ParseSegmentError::UnclosedQuote));
}
