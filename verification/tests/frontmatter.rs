use context::document::Document;
use context::error::ContextError;
use context::frontmatter::{document_from_node, extract_frontmatter, parse, serialize};
use context::text_map::TextMap;
use context::yaml::Node;

fn text(s: &str) -> Node {
    Node::Text(s.to_string())
}

#[test]
fn test_extract_frontmatter() {
    let content = "---\nslug: test\n---\n\nBody content";
    let (fm, body) = extract_frontmatter(content).unwrap();
    assert_eq!(fm, "slug: test");
    assert_eq!(body, "Body content");
}

#[test]
fn test_parse_document() {
    let content = r"---
slug: auth
description: Authentication system
references:
  src/auth/mod.rs: 8a3b2c1
  src/auth/jwt.rs: f4e5d6a
updated: 2025-01-21
---

# Authentication

This is the body.
";
    let doc = parse("test.md".to_string(), content).unwrap();
    assert_eq!(doc.slug, "auth");
    assert_eq!(doc.description, "Authentication system");
    assert_eq!(doc.references.get("src/auth/mod.rs"), Some(&"8a3b2c1".to_string()));
    assert!(doc.body.contains("# Authentication"));
}

#[test]
fn test_parse_without_frontmatter() {
    let content = "# Just a document\n\nNo frontmatter here.";
    let doc = parse("guides/example.md".to_string(), content).unwrap();
    assert_eq!(doc.slug, "example");
    assert_eq!(doc.description, "");
    assert!(doc.references.is_empty());
    assert_eq!(doc.updated, "");
    assert_eq!(doc.body, content);
}

#[test]
fn parse_keeps_every_field() {
    let content = "---\nslug: auth\ndescription: About\nreferences:\n  src/a.rs: a234567\n  src/b.rs: abcdef0\nupdated: \"2025-01-21\"\n---\n\n  \n# Body\n";
    let doc = parse("/p/.context/a.md".to_string(), content).unwrap();
    assert_eq!(doc.path, "/p/.context/a.md");
    assert_eq!(doc.slug, "auth");
    assert_eq!(doc.description, "About");
    assert_eq!(doc.references.len(), 2);
    assert_eq!(doc.references.get("src/a.rs"), Some(&"a234567".to_string()));
    assert_eq!(doc.references.get("src/b.rs"), Some(&"abcdef0".to_string()));
    assert_eq!(doc.references.get("src/c.rs"), None);
    assert_eq!(doc.updated, "2025-01-21");
    assert_eq!(doc.body, "# Body\n");
}

#[test]
fn extract_needs_opening_and_closing_line() {
    assert_eq!(extract_frontmatter("no block"), None);
    assert_eq!(extract_frontmatter("---\nslug: x\nno end"), None);
    assert_eq!(extract_frontmatter("--- \nslug: x\n---\n"), None);
    assert_eq!(extract_frontmatter(""), None);
    assert_eq!(
        extract_frontmatter("---\na: b\n---\n"),
        Some(("a: b".to_string(), String::new()))
    );
    assert_eq!(
        extract_frontmatter("---\na\n---\nb\n---\nc"),
        Some(("a".to_string(), "b\n---\nc".to_string()))
    );
}

#[test]
fn parse_reports_bad_yaml() {
    let result = parse("a.md".to_string(), "---\nslug: [unclosed\n---\n\nbody");
    match result {
        Err(ContextError::YamlError(message)) => assert!(!message.is_empty()),
        other => panic!("expected a YAML error, got {:?}", other.map(|d| d.slug)),
    }
}

#[test]
fn parse_needs_a_mapping() {
    let result = parse("a.md".to_string(), "---\n- one\n- two\n---\n\nbody");
    assert_eq!(
        result.err(),
        Some(ContextError::InvalidDocument("Invalid frontmatter format".to_string()))
    );
}

#[test]
fn parse_needs_a_slug() {
    let result = parse("a.md".to_string(), "---\ndescription: none\n---\n\nbody");
    assert_eq!(
        result.err(),
        Some(ContextError::InvalidDocument("Missing or invalid 'slug' field".to_string()))
    );
    let result = parse("a.md".to_string(), "---\nslug: 12\n---\n\nbody");
    assert_eq!(
        result.err(),
        Some(ContextError::InvalidDocument("Missing or invalid 'slug' field".to_string()))
    );
}

#[test]
fn parse_skips_references_that_are_no_strings() {
    let content = "---\nslug: s\nreferences:\n  src/a.rs: a234567\n  src/b.rs: 7\n  3: abc\nupdated: 5\n---\n";
    let doc = parse("a.md".to_string(), content).unwrap();
    assert_eq!(doc.references.len(), 1);
    assert!(doc.references.contains_key("src/a.rs"));
    assert_eq!(doc.updated, "");
    assert_eq!(doc.description, "");
}

#[test]
fn document_from_hand_built_node() {
    let block = Node::Table(vec![
        (text("slug"), text("guide")),
        (text("updated"), Node::Null),
        (
            text("references"),
            Node::Table(vec![
                (text("a/b.rs"), text("0000000")),
                (Node::Bool(true), text("1111111")),
                (text("a/b.rs"), text("2222222")),
                (text("c/d.rs"), Node::List(vec![])),
            ]),
        ),
    ]);
    let doc = document_from_node("x.md".to_string(), &block, "body".to_string()).unwrap();
    assert_eq!(doc.slug, "guide");
    assert_eq!(doc.description, "");
    assert_eq!(doc.updated, "");
    assert_eq!(doc.references.len(), 1);
    assert_eq!(doc.references.get("a/b.rs"), Some(&"2222222".to_string()));
    assert_eq!(doc.body, "body");
}

#[test]
fn document_from_node_that_is_no_mapping() {
    let result = document_from_node("x.md".to_string(), &text("slug"), String::new());
    assert_eq!(
        result.err(),
        Some(ContextError::InvalidDocument("Invalid frontmatter format".to_string()))
    );
}

#[test]
fn default_slug_comes_from_file_name() {
    assert_eq!(parse("a/b/notes.txt.md".to_string(), "x").unwrap().slug, "notes.txt");
    assert_eq!(parse("plain".to_string(), "x").unwrap().slug, "plain");
    assert_eq!(parse("a/.hidden".to_string(), "x").unwrap().slug, ".hidden");
    assert_eq!(parse("a/..".to_string(), "x").unwrap().slug, "unknown");
    assert_eq!(parse("".to_string(), "x").unwrap().slug, "unknown");
}

#[test]
fn serialize_writes_block_and_body() {
    let mut references = TextMap::new();
    references.insert("src/main.rs".to_string(), "abc1234".to_string());
    let doc = Document::new(
        "/p/.context/main.md".to_string(),
        "main".to_string(),
        "The entry".to_string(),
        references,
        "2025-01-21".to_string(),
        "# Main\n".to_string(),
    );
    let written = serialize(&doc).unwrap();
    assert!(written.starts_with("---\nslug: main\n"));
    assert!(written.contains("description: The entry\n"));
    assert!(written.contains("references:\n  src/main.rs: abc1234\n"));
    assert!(written.ends_with("---\n\n# Main\n"));
}

#[test]
fn parse_gives_back_what_serialize_wrote() {
    let mut references = TextMap::new();
    references.insert("src/main.rs".to_string(), "abc1234".to_string());
    references.insert("src/lib.rs".to_string(), "0123456".to_string());
    let doc = Document::new(
        "/p/.context/guides/main.md".to_string(),
        "main".to_string(),
        "Entry: the \"main\" module".to_string(),
        references,
        "2025-01-21".to_string(),
        "# Main\n\nSee `src/main.rs`.\n".to_string(),
    );
    let written = doc.encode().unwrap();
    let read = Document::load(doc.path.clone(), &written).unwrap();
    assert_eq!(read.path, doc.path);
    assert_eq!(read.slug, doc.slug);
    assert_eq!(read.description, doc.description);
    assert_eq!(read.updated, doc.updated);
    assert_eq!(read.body, doc.body);
    assert_eq!(read.references.len(), 2);
    assert_eq!(read.references.get("src/main.rs"), Some(&"abc1234".to_string()));
    assert_eq!(read.references.get("src/lib.rs"), Some(&"0123456".to_string()));
    assert_eq!(read.encode().unwrap(), written);
}

#[test]
fn serialize_round_trips_empty_references() {
    let doc = Document::new(
        "a.md".to_string(),
        "a".to_string(),
        String::new(),
        TextMap::new(),
        String::new(),
        "text".to_string(),
    );
    let written = serialize(&doc).unwrap();
    let read = parse("a.md".to_string(), &written).unwrap();
    assert!(read.references.is_empty());
    assert_eq!(read.slug, "a");
    assert_eq!(read.body, "text");
}

fn split_by_std(content: &str) -> Option<(String, String)> {
    if !content.starts_with("---\n") {
        return None;
    }
    let rest = &content[4..];
    let at = rest.find("\n---\n")?;
    let start = at + 5;
    let body = if start < rest.len() { &rest[start..] } else { "" };
    Some((rest[..at].to_string(), body.trim_start().to_string()))
}

#[test]
fn extract_agrees_with_std_search_on_all_short_texts() {
    let alphabet = ['-', '\n', ' ', 'a'];
    let mut tail = String::new();
    for length in 0..=8usize {
        for number in 0..alphabet.len().pow(length as u32) {
            tail.clear();
            let mut rest = number;
            for _ in 0..length {
                tail.push(alphabet[rest % alphabet.len()]);
                rest /= alphabet.len();
            }
            let framed = format!("---\n{}", tail);
            assert_eq!(extract_frontmatter(&framed), split_by_std(&framed), "for {:?}", framed);
            assert_eq!(extract_frontmatter(&tail), split_by_std(&tail), "for {:?}", tail);
        }
    }
}
