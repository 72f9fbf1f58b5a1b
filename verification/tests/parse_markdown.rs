use lit::document::Lit;

#[test]
fn test_parse_single_tangle_block() {
    let markdown = r#"# Test

```tangle://src/main.rs
fn main() {
    println!("Hello");
}
```
"#;

    let blocks = Lit::parse_markdown(markdown).unwrap();
    assert_eq!(blocks.len(), 1);
    let file_blocks = blocks.get("src/main.rs").unwrap();
    assert_eq!(file_blocks.unpositioned.len(), 1);
    assert_eq!(
        file_blocks.unpositioned[0],
        "fn main() {\n    println!(\"Hello\");\n}"
    );
}

#[test]
fn test_parse_multiple_tangle_blocks() {
    let markdown = r#"# Multiple Blocks

```tangle://file1.rs
code 1
```

Some text here.

```tangle://file2.rs
code 2
```
"#;

    let blocks = Lit::parse_markdown(markdown).unwrap();
    assert_eq!(blocks.len(), 2);
    assert!(blocks.contains_key("file1.rs"));
    assert!(blocks.contains_key("file2.rs"));
    assert_eq!(blocks.get("file1.rs").unwrap().unpositioned[0], "code 1");
    assert_eq!(blocks.get("file2.rs").unwrap().unpositioned[0], "code 2");
}

#[test]
fn test_parse_ignore_regular_code_blocks() {
    let markdown = r#"# Test

```rust
// This is regular code
let x = 42;
```

```tangle://output.rs
// This should be extracted
let y = 10;
```
"#;

    let blocks = Lit::parse_markdown(markdown).unwrap();
    assert_eq!(blocks.len(), 1);
    assert_eq!(
        blocks.get("output.rs").unwrap().unpositioned[0],
        "// This should be extracted\nlet y = 10;"
    );
}

#[test]
fn test_parse_ignore_nested_in_blockquote() {
    let markdown = r#"# Test

```tangle://top-level.txt
Top level content
```

> Blockquote here
>
> ```tangle://nested.txt
> This should NOT be extracted
> ```
"#;

    let blocks = Lit::parse_markdown(markdown).unwrap();
    assert_eq!(blocks.len(), 1);
    assert_eq!(
        blocks.get("top-level.txt").unwrap().unpositioned[0],
        "Top level content"
    );
}

#[test]
fn test_parse_ignore_nested_in_list() {
    let markdown = r#"# Test

```tangle://top-level.txt
Top level content
```

- Item 1
- Item 2

  ```tangle://nested.txt
  This should NOT be extracted
  ```
"#;

    let blocks = Lit::parse_markdown(markdown).unwrap();
    assert_eq!(blocks.len(), 1);
    assert_eq!(
        blocks.get("top-level.txt").unwrap().unpositioned[0],
        "Top level content"
    );
}

#[test]
fn test_parse_empty_markdown() {
    let markdown = "";
    let blocks = Lit::parse_markdown(markdown).unwrap();
    assert_eq!(blocks.len(), 0);
}

#[test]
fn test_parse_no_tangle_blocks() {
    let markdown = r#"# Just a regular document

Some text here.

```rust
Regular code block
```

More text.
"#;

    let blocks = Lit::parse_markdown(markdown).unwrap();
    assert_eq!(blocks.len(), 0);
}

#[test]
fn test_parse_subdirectory_path() {
    let markdown = r#"```tangle://src/modules/utils.rs
pub fn helper() {}
```"#;

    let blocks = Lit::parse_markdown(markdown).unwrap();
    assert_eq!(blocks.len(), 1);
    assert_eq!(
        blocks.get("src/modules/utils.rs").unwrap().unpositioned[0],
        "pub fn helper() {}"
    );
}

#[test]
fn test_parse_empty_tangle_block() {
    let markdown = r#"```tangle://empty.txt
```"#;

    let blocks = Lit::parse_markdown(markdown).unwrap();
    assert_eq!(blocks.len(), 1);
    assert_eq!(blocks.get("empty.txt").unwrap().unpositioned[0], "");
}

#[test]
fn test_duplicate_position_key_returns_error() {
    let markdown = r#"```tangle://output.txt?at=a
First
```

```tangle://output.txt?at=a
Duplicate
```"#;

    let result = Lit::parse_markdown(markdown);
    assert!(result.is_err());
    assert!(result
        .unwrap_err()
        .message()
        .contains("Duplicate position key"));
}

#[test]
fn test_numeric_position_keys_rejected() {
    let markdown = r#"```tangle://output.txt?at=10
Ten
```"#;

    let result = Lit::parse_markdown(markdown);
    assert!(result.is_err());
    assert!(result
        .unwrap_err()
        .message()
        .contains("must contain only lowercase letters"));
}

#[test]
fn test_position_key_with_numbers_rejected() {
    let markdown = r#"```tangle://output.txt?at=a1
Mixed
```"#;

    let result = Lit::parse_markdown(markdown);
    assert!(result.is_err());
    assert!(result
        .unwrap_err()
        .message()
        .contains("must contain only lowercase letters"));
}

#[test]
fn test_position_key_with_special_chars_rejected() {
    let markdown = r#"```tangle://output.txt?at=a-b
Special
```"#;

    let result = Lit::parse_markdown(markdown);
    assert!(result.is_err());
    assert!(result
        .unwrap_err()
        .message()
        .contains("must contain only lowercase letters"));
}

#[test]
fn test_empty_position_key_rejected() {
    let markdown = r#"```tangle://output.txt?at=
Empty
```"#;

    let result = Lit::parse_markdown(markdown);
    assert!(result.is_err());
    assert!(result.unwrap_err().message().contains("must not be empty"));
}

#[test]
fn test_position_key_starting_with_m_rejected() {
    let markdown = r#"```tangle://output.txt?at=main
Content
```"#;

    let result = Lit::parse_markdown(markdown);
    assert!(result.is_err());
    assert!(result
        .unwrap_err()
        .message()
        .contains("must not start with 'm'"));
}

#[test]
fn test_position_key_starting_with_capital_m_rejected() {
    let markdown = r#"```tangle://output.txt?at=Main
Content
```"#;

    let result = Lit::parse_markdown(markdown);
    assert!(result.is_err());
    assert!(result
        .unwrap_err()
        .message()
        .contains("must contain only lowercase letters"));
}

#[test]
fn test_position_key_just_m_rejected() {
    let markdown = r#"```tangle://output.txt?at=m
Content
```"#;

    let result = Lit::parse_markdown(markdown);
    assert!(result.is_err());
    assert!(result
        .unwrap_err()
        .message()
        .contains("must not start with 'm'"));
}

#[test]
fn test_uppercase_position_key_rejected() {
    let markdown = r#"```tangle://output.txt?at=ABC
Content
```"#;

    let result = Lit::parse_markdown(markdown);
    assert!(result.is_err());
    assert!(result
        .unwrap_err()
        .message()
        .contains("must contain only lowercase letters"));
}

#[test]
fn test_mixed_case_position_key_rejected() {
    let markdown = r#"```tangle://output.txt?at=aBc
Content
```"#;

    let result = Lit::parse_markdown(markdown);
    assert!(result.is_err());
    assert!(result
        .unwrap_err()
        .message()
        .contains("must contain only lowercase letters"));
}
