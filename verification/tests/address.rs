use lit::address::{parse_address, AddressOutcome};
use lit::document::Lit;
use lit::errors::TangleError;
use lit::position::{Position, PositionError};

#[test]
fn test_block_from_node_without_at() {
    let markdown = r#"```tangle://path/to/file.txt
test content
```"#;

    let outcome = parse_address("tangle://path/to/file.txt");
    match outcome {
        AddressOutcome::Tangle(path, position) => {
            assert_eq!(path, "path/to/file.txt");
            assert!(position.is_none());
        }
        other => panic!("expected a tangle address, got {:?}", other),
    }

    let blocks = Lit::parse_markdown(markdown).unwrap();
    assert_eq!(blocks.get("path/to/file.txt").unwrap().unpositioned[0], "test content");
}

#[test]
fn test_block_from_node_with_at() {
    let markdown = r#"```tangle://path/to/file.txt?at=xyz
test content
```"#;

    let outcome = parse_address("tangle://path/to/file.txt?at=xyz");
    match outcome {
        AddressOutcome::Tangle(path, position) => {
            assert_eq!(path, "path/to/file.txt");
            assert_eq!(position.as_ref().map(|p| p.as_str()), Some("xyz"));
        }
        other => panic!("expected a tangle address, got {:?}", other),
    }

    let blocks = Lit::parse_markdown(markdown).unwrap();
    let file_blocks = blocks.get("path/to/file.txt").unwrap();
    assert_eq!(file_blocks.positioned[0].0.as_str(), "xyz");
    assert_eq!(file_blocks.positioned[0].1, "test content");
}

#[test]
fn test_block_from_node_with_query_but_no_at() {
    let outcome = parse_address("tangle://path/to/file.txt?other=value");
    match outcome {
        AddressOutcome::Tangle(path, position) => {
            assert_eq!(path, "path/to/file.txt");
            assert!(position.is_none());
        }
        other => panic!("expected a tangle address, got {:?}", other),
    }
}

#[test]
fn test_block_from_node_non_tangle() {
    let outcome = parse_address("rust");
    assert!(matches!(outcome, AddressOutcome::NotTangle));
}

#[test]
fn test_scheme_is_case_insensitive() {
    let outcome = parse_address("TANGLE://file.rs");
    match outcome {
        AddressOutcome::Tangle(path, position) => {
            assert_eq!(path, "file.rs");
            assert!(position.is_none());
        }
        other => panic!("expected a tangle address, got {:?}", other),
    }
}

#[test]
fn test_other_scheme_is_skipped() {
    assert!(matches!(parse_address("https://example.net/x"), AddressOutcome::NotTangle));
    assert!(matches!(parse_address(""), AddressOutcome::NotTangle));
    assert!(matches!(parse_address("python"), AddressOutcome::NotTangle));
}

#[test]
fn test_address_with_authority_rejected() {
    let outcome = parse_address("tangle://user@host/file.rs");
    match outcome {
        AddressOutcome::Bad(e) => {
            assert!(e.message().contains("must not contain an authority"));
        }
        other => panic!("expected an authority error, got {:?}", other),
    }
    let with_port = parse_address("tangle://host:8080/file.rs");
    assert!(matches!(with_port, AddressOutcome::Bad(TangleError::Authority(_))));
}

#[test]
fn test_authority_fails_whole_run() {
    let markdown = r#"```tangle://user@host/file.rs
content
```"#;

    let result = Lit::parse_markdown(markdown);
    assert!(result.is_err());
    assert!(result
        .unwrap_err()
        .message()
        .contains("must not contain an authority"));
}

#[test]
fn test_missing_path_rejected() {
    assert!(matches!(parse_address("tangle://"), AddressOutcome::Bad(TangleError::Path(_))));
    assert!(matches!(parse_address("tangle:file.rs"), AddressOutcome::Bad(TangleError::Path(_))));
    assert!(matches!(
        parse_address("tangle://?at=a"),
        AddressOutcome::Bad(TangleError::Path(_))
    ));
}

#[test]
fn test_absolute_or_doubled_path_rejected() {
    assert!(matches!(
        parse_address("tangle:///file.rs"),
        AddressOutcome::Bad(TangleError::Path(_))
    ));
    assert!(matches!(
        parse_address("tangle://dir//file.rs"),
        AddressOutcome::Bad(TangleError::Path(_))
    ));
    assert!(matches!(parse_address("tangle://dir/"), AddressOutcome::Bad(TangleError::Path(_))));
    let message = match parse_address("tangle:///file.rs") {
        AddressOutcome::Bad(e) => e.message(),
        other => panic!("expected a path error, got {:?}", other),
    };
    assert!(message.contains("does not name a valid relative path"));
}

#[test]
fn test_first_at_parameter_wins() {
    let outcome = parse_address("tangle://f.rs?x=1&at=abc&at=zzz");
    match outcome {
        AddressOutcome::Tangle(path, position) => {
            assert_eq!(path, "f.rs");
            assert_eq!(position.as_ref().map(|p| p.as_str()), Some("abc"));
        }
        other => panic!("expected a tangle address, got {:?}", other),
    }
}

#[test]
fn test_position_constructor_validates() {
    let ok = Position::new("abc".to_string()).unwrap();
    assert_eq!(ok.as_str(), "abc");
    assert!(matches!(Position::new(String::new()), Err(PositionError::Empty)));
    assert!(matches!(
        Position::new("a9".to_string()),
        Err(PositionError::InvalidCharacters(_))
    ));
    assert!(matches!(
        Position::new("mqz".to_string()),
        Err(PositionError::ReservedPrefix(_))
    ));
    let message = Position::new("a9".to_string()).unwrap_err().message();
    assert_eq!(message, "Position key 'a9' must contain only lowercase letters");
}
