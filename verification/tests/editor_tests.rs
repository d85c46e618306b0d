use vidirr::editor::{parse_line, write_with_ids, ParseError, ParsedLine};

#[test]
fn test_write_with_ids() {
    let files = vec![
        "./src/testdata/file2".to_string(),
        "./src/testdata/file1".to_string(),
        "xyz".to_string(),
    ];

    let (text, items) = write_with_ids(&files);

    assert_eq!(items.len(), 3);
    assert_eq!(items.get(1), Some(&"./src/testdata/file2".to_string()));
    assert_eq!(items.get(2), Some(&"./src/testdata/file1".to_string()));
    assert_eq!(items.get(3), Some(&"xyz".to_string()));
    assert_eq!(
        text,
        "1 ./src/testdata/file2\n2 ./src/testdata/file1\n3 xyz\n"
    );
}

#[test]
fn test_write_with_ids_padding() {
    // Eleven entries need two columns for the ids; short ids are padded.
    let files: Vec<String> = (0..11).map(|i| format!("f{}", i)).collect();

    let (text, items) = write_with_ids(&files);

    assert_eq!(items.len(), 11);
    let first_line = text.lines().next().unwrap();
    assert_eq!(first_line, "1  f0");
    let last_line = text.lines().last().unwrap();
    assert_eq!(last_line, "11 f10");
}

#[test]
fn test_parse_line_empty() {
    let input = "";
    let parsed = parse_line(input);
    assert!(parsed.unwrap().is_none())
}

#[test]
fn test_parse_line_skip() {
    let input = "   \t  \n  ";
    let parsed = parse_line(input);
    assert!(parsed.unwrap().is_none())
}

#[test]
fn test_parse_line_123() {
    let input = "123";
    let parsed = parse_line(input);
    assert_eq!(
        parsed.unwrap().unwrap(),
        ParsedLine {
            num: 123,
            filename: "".to_string(),
        }
    );
}

#[test]
fn test_parse_line_123_space() {
    let input = "123 ";
    let parsed = parse_line(input);
    assert_eq!(
        parsed.unwrap().unwrap(),
        ParsedLine {
            num: 123,
            filename: "".to_string(),
        }
    );
}

#[test]
fn test_parse_line_no_number() {
    let input = "     file with space 123 ";
    let parsed = parse_line(input);
    assert_eq!(parsed.unwrap_err(), ParseError::NoNumber);
}

#[test]
fn test_parse_line() {
    let input = "  345   file with space 123 ";
    let parsed = parse_line(input);
    assert_eq!(
        parsed.unwrap().unwrap(),
        ParsedLine {
            num: 345,
            filename: "  file with space 123 ".to_string(),
        }
    );
}

#[test]
fn test_parse_line_number_too_large() {
    let input = "99999999999999999999999999 x";
    let parsed = parse_line(input);
    assert_eq!(parsed.unwrap_err(), ParseError::NumberTooLarge);
}

#[test]
fn test_parse_line_no_separator() {
    // The character after the digits is not a space, so the path begins
    // right there.
    let input = "7:colon";
    let parsed = parse_line(input);
    assert_eq!(
        parsed.unwrap().unwrap(),
        ParsedLine {
            num: 7,
            filename: ":colon".to_string(),
        }
    );
}

#[test]
fn test_round_trip_unpadded_listing() {
    // An unpadded rendered listing parses back to the exact mapping.
    let files = vec![
        "a name with  spaces".to_string(),
        " leading".to_string(),
        "x".to_string(),
    ];

    let (text, items) = write_with_ids(&files);

    let mut n = 0usize;
    for line in text.lines() {
        let parsed = parse_line(line).unwrap().unwrap();
        n += 1;
        assert_eq!(parsed.num, n);
        assert_eq!(Some(&parsed.filename), items.get(n));
        assert_eq!(&parsed.filename, &files[n - 1]);
    }
    assert_eq!(n, 3);
}
