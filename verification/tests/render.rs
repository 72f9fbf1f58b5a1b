use lit::aggregate::TangleMap;
use lit::document::{add_document, Lit};

#[test]
fn test_parse_block_with_at() {
    let markdown = r#"```tangle://output.txt?at=a
First block
```"#;

    let blocks = Lit::parse_markdown(markdown).unwrap();
    assert_eq!(blocks.len(), 1);
    let file_blocks = blocks.get("output.txt").unwrap();
    assert_eq!(file_blocks.positioned.len(), 1);
    assert_eq!(file_blocks.positioned[0].0.as_str(), "a");
    assert_eq!(file_blocks.positioned[0].1, "First block");
}

#[test]
fn test_parse_multiple_blocks_with_different_positions() {
    let markdown = r#"```tangle://output.txt?at=c
Third block
```

```tangle://output.txt?at=a
First block
```

```tangle://output.txt?at=b
Second block
```"#;

    let blocks = Lit::parse_markdown(markdown).unwrap();
    assert_eq!(blocks.len(), 1);
    let file_blocks = blocks.get("output.txt").unwrap();
    assert_eq!(file_blocks.positioned.len(), 3);
}

#[test]
fn test_positioned_blocks_sorted_lexicographically() {
    let markdown = r#"```tangle://output.txt?at=c
Third
```

```tangle://output.txt?at=a
First
```

```tangle://output.txt?at=b
Second
```"#;

    let blocks = Lit::parse_markdown(markdown).unwrap();
    let file_blocks = blocks.get("output.txt").unwrap();
    let content = file_blocks.to_content();
    assert_eq!(content, "First\n\nSecond\n\nThird\n");
}

#[test]
fn test_positioned_blocks_around_implicit_m() {
    let markdown = r#"```tangle://output.txt
Unpositioned 1
```

```tangle://output.txt?at=a
Before m
```

```tangle://output.txt?at=z
After m
```

```tangle://output.txt
Unpositioned 2
```"#;

    let blocks = Lit::parse_markdown(markdown).unwrap();
    let file_blocks = blocks.get("output.txt").unwrap();
    let content = file_blocks.to_content();
    // "a" < "m" (implicit for unpositioned) < "z"
    assert_eq!(
        content,
        "Before m\n\nUnpositioned 1\n\nUnpositioned 2\n\nAfter m\n"
    );
}

#[test]
fn test_lowercase_position_keys_allowed() {
    let markdown = r#"```tangle://output.txt?at=abc
First
```

```tangle://output.txt?at=xyz
Second
```

```tangle://output.txt?at=def
Third
```"#;

    let blocks = Lit::parse_markdown(markdown).unwrap();
    let file_blocks = blocks.get("output.txt").unwrap();
    assert_eq!(file_blocks.positioned.len(), 3);
    let content = file_blocks.to_content();
    // Lexicographic: "abc" < "def" < "xyz"
    assert_eq!(content, "First\n\nThird\n\nSecond\n");
}

#[test]
fn test_unpositioned_blocks_keep_discovery_order() {
    let markdown = r#"```tangle://out.txt
one
```

```tangle://out.txt
two
```

```tangle://out.txt
three
```"#;

    let blocks = Lit::parse_markdown(markdown).unwrap();
    let content = blocks.get("out.txt").unwrap().to_content();
    assert_eq!(content, "one\n\ntwo\n\nthree\n");
}

#[test]
fn test_three_fragments_render_in_key_order() {
    let markdown = r#"```tangle://lib.rs
B
```

```tangle://lib.rs?at=a
A
```

```tangle://lib.rs?at=z
C
```"#;

    let blocks = Lit::parse_markdown(markdown).unwrap();
    let content = blocks.get("lib.rs").unwrap().to_content();
    assert_eq!(content, "A\n\nB\n\nC\n");
}

#[test]
fn test_whitespace_only_content_preserved() {
    let markdown = "```tangle://blank.txt\n   \n```";

    let blocks = Lit::parse_markdown(markdown).unwrap();
    let content = blocks.get("blank.txt").unwrap().to_content();
    assert_eq!(content, "   \n");
}

#[test]
fn test_equal_keys_in_different_destinations_succeed() {
    let markdown = r#"```tangle://one.txt?at=a
first file
```

```tangle://two.txt?at=a
second file
```"#;

    let blocks = Lit::parse_markdown(markdown).unwrap();
    assert_eq!(blocks.len(), 2);
    assert_eq!(blocks.get("one.txt").unwrap().to_content(), "first file\n");
    assert_eq!(blocks.get("two.txt").unwrap().to_content(), "second file\n");
}

#[test]
fn test_blocks_aggregate_across_documents() {
    let first = r#"```tangle://lib.rs?at=z
tail
```"#;
    let second = r#"```tangle://lib.rs?at=a
head
```

```tangle://extra.txt
more
```"#;

    let map = TangleMap::new();
    let map = add_document(map, first).unwrap();
    let map = add_document(map, second).unwrap();
    assert_eq!(map.len(), 2);
    let files = map.render_all();
    assert_eq!(files.len(), 2);
    assert_eq!(files[0].path, "lib.rs");
    assert_eq!(files[0].content, "head\n\ntail\n");
    assert_eq!(files[1].path, "extra.txt");
    assert_eq!(files[1].content, "more\n");
}

#[test]
fn test_duplicate_key_across_documents_fails() {
    let first = r#"```tangle://lib.rs?at=a
one
```"#;
    let second = r#"```tangle://lib.rs?at=a
two
```"#;

    let map = TangleMap::new();
    let map = add_document(map, first).unwrap();
    let result = add_document(map, second);
    assert!(result.is_err());
    assert!(result
        .unwrap_err()
        .message()
        .contains("Duplicate position key"));
}

#[test]
fn test_rendering_already_rendered_content_adds_only_newline() {
    let markdown = r#"```tangle://out.txt?at=a
alpha
```

```tangle://out.txt
beta
```"#;

    let blocks = Lit::parse_markdown(markdown).unwrap();
    let rendered = blocks.get("out.txt").unwrap().to_content();
    assert_eq!(rendered, "alpha\n\nbeta\n");

    let mut single = lit::blocks::FileBlocks::new();
    single.add(None, rendered.clone()).unwrap();
    assert_eq!(single.to_content(), format!("{rendered}\n"));
}
