use context::paths::extract_paths;

#[test]
fn test_extract_simple_path() {
    let content = "text with `src/foo.rs`";
    assert_eq!(extract_paths(content), vec!["src/foo.rs"]);
}

#[test]
fn test_extract_dot_slash_path() {
    let content = "with `./src/bar.rs`";
    assert_eq!(extract_paths(content), vec!["src/bar.rs"]);
}

#[test]
fn test_skip_code_blocks() {
    let content = "```rust\n`ignored.rs`\n```";
    assert!(extract_paths(content).is_empty());
}

#[test]
fn test_skip_non_paths() {
    let content = "`grep` and `--help`";
    assert!(extract_paths(content).is_empty());
}

#[test]
fn test_multiple_paths() {
    let content = "multiple `a/b.rs` and `c/d.rs`";
    let paths = extract_paths(content);
    assert_eq!(paths, vec!["a/b.rs", "c/d.rs"]);
}

#[test]
fn test_deduplicate_paths() {
    let content = "`a/b.rs` and `a/b.rs`";
    assert_eq!(extract_paths(content), vec!["a/b.rs"]);
}

#[test]
fn test_mixed_content() {
    let content = r"
# Document

Use `src/main.rs` for the entry point.

```rust
// This `src/lib.rs` should be ignored
fn main() {}
```

Also see `src/config.rs` and `grep` command.
";
    let paths = extract_paths(content);
    assert_eq!(paths, vec!["src/config.rs", "src/main.rs"]);
}

#[test]
fn test_double_backticks_ignored() {
    let content = "use ``src/path.rs`` for something";
    assert!(extract_paths(content).is_empty());
}

#[test]
fn test_path_with_extension() {
    let content = "See `docs/guide.md` and `src/lib.rs`";
    let paths = extract_paths(content);
    assert_eq!(paths, vec!["docs/guide.md", "src/lib.rs"]);
}

#[test]
fn scan_of_empty_body_is_empty() {
    assert!(extract_paths("").is_empty());
    assert!(extract_paths("\n\n").is_empty());
}

#[test]
fn scan_merges_plain_and_dotted_mention() {
    let content = "`src/a.rs` and `./src/a.rs`";
    assert_eq!(extract_paths(content), vec!["src/a.rs"]);
}

#[test]
fn scan_is_sorted_whatever_the_order_of_mentions() {
    let content = "`z/last.rs`\n`a/first.rs`\n`m/mid.rs` `a/first.rs`";
    assert_eq!(extract_paths(content), vec!["a/first.rs", "m/mid.rs", "z/last.rs"]);
}

#[test]
fn scan_twice_gives_the_same() {
    let content = "one `b/c.rs`, two `a/b.rs`\n```\n`x/y.rs`\n```\n`./d/e.rs`";
    assert_eq!(extract_paths(content), extract_paths(content));
}

#[test]
fn scan_of_listed_scan_is_the_scan() {
    let content = "`src/main.rs` then `docs/guide.md` and `src/main.rs`";
    let first = extract_paths(content);
    let mut listing = String::new();
    for path in &first {
        listing.push('`');
        listing.push_str(path);
        listing.push_str("`\n");
    }
    assert_eq!(extract_paths(&listing), first);
}

#[test]
fn scan_skips_unterminated_span() {
    assert!(extract_paths("open `src/never.rs and no end").is_empty());
    assert_eq!(extract_paths("`a/b.rs` then `c/d.rs"), vec!["a/b.rs"]);
}

#[test]
fn scan_does_not_join_lines() {
    assert!(extract_paths("`src/\nmain.rs`").is_empty());
}

#[test]
fn scan_skips_fenced_region_with_many_backticks() {
    let content = "```\n`a/b.rs` ``c/d.rs`` `e/f.rs`\nsee ````x/y.rs````\n```\n`seen/it.rs`";
    assert_eq!(extract_paths(content), vec!["seen/it.rs"]);
}

#[test]
fn line_that_starts_with_four_backticks_is_a_fence() {
    let content = "```\n````x/y.rs````\n`after/close.rs`\n```\n`hidden/again.rs`";
    assert_eq!(extract_paths(content), vec!["after/close.rs"]);
}

#[test]
fn scan_sees_indented_fence() {
    let content = "   ```sh\n`hidden/one.rs`\n\t```\n`shown/two.rs`";
    assert_eq!(extract_paths(content), vec!["shown/two.rs"]);
}

#[test]
fn scan_keeps_region_open_to_the_end() {
    let content = "`before/it.rs`\n```\n`inside/it.rs`\n";
    assert_eq!(extract_paths(content), vec!["before/it.rs"]);
}

#[test]
fn scan_skips_double_backtick_span_with_single_inside() {
    let content = "``code with `a/b.rs` inside`` and `c/d.rs`";
    assert_eq!(extract_paths(content), vec!["c/d.rs"]);
}

#[test]
fn scan_takes_span_after_longer_closing_run() {
    let content = "``a```b/c`";
    assert_eq!(extract_paths(content), vec!["b/c"]);
}

#[test]
fn scan_with_carriage_returns() {
    let content = "`a/b.rs`\r\n```\r\n`c/d.rs`\r\n```\r\n`e/f.rs`\r\n";
    assert_eq!(extract_paths(content), vec!["a/b.rs", "e/f.rs"]);
}

#[test]
fn scan_strips_one_leading_dot_slash_only() {
    assert_eq!(extract_paths("`././a`"), vec!["./a"]);
    assert_eq!(extract_paths("`./README.md`"), vec!["README.md"]);
}

#[test]
fn scan_handles_text_beyond_ascii() {
    let content = "caf\u{e9} `src/\u{e9}t\u{e9}.rs` \u{2603}";
    assert_eq!(extract_paths(content), vec!["src/\u{e9}t\u{e9}.rs"]);
}

#[test]
fn normalize_strips_leading_dot_slash() {
    assert_eq!(context::paths::normalize_path("./src/a.rs"), "src/a.rs");
    assert_eq!(context::paths::normalize_path("src/a.rs"), "src/a.rs");
    assert_eq!(context::paths::normalize_path("./"), "");
    assert_eq!(context::paths::normalize_path("."), ".");
}

fn spans_of_line(line: &str, found: &mut std::collections::BTreeSet<String>) {
    let mut chars = line.char_indices().peekable();
    while let Some((start, ch)) = chars.next() {
        if ch != '`' {
            continue;
        }
        if chars.peek().is_some_and(|(_, c)| *c == '`') {
            let mut opening = 1;
            while chars.peek().is_some_and(|(_, c)| *c == '`') {
                chars.next();
                opening += 1;
            }
            let mut closing = 0;
            for (_, c) in chars.by_ref() {
                if c == '`' {
                    closing += 1;
                    if closing == opening {
                        break;
                    }
                } else {
                    closing = 0;
                }
            }
            continue;
        }
        let mut end = None;
        for (at, c) in chars.by_ref() {
            if c == '`' {
                end = Some(at);
                break;
            }
        }
        if let Some(end) = end {
            let content = &line[start + 1..end];
            if content.contains('/') || content.starts_with("./") {
                found.insert(content.strip_prefix("./").unwrap_or(content).to_string());
            }
        }
    }
}

fn scan_with_std_lines(content: &str) -> Vec<String> {
    let mut found = std::collections::BTreeSet::new();
    let mut inside = false;
    for line in content.lines() {
        if line.trim_start().starts_with("```") {
            inside = !inside;
            continue;
        }
        if !inside {
            spans_of_line(line, &mut found);
        }
    }
    found.into_iter().collect()
}

#[test]
fn scan_agrees_with_line_by_line_scan_on_all_short_texts() {
    let alphabet = ['`', '/', '.', 'a', ' ', '\n', '\r'];
    let mut text = String::new();
    let mut count = 0usize;
    for length in 0..=6usize {
        let total = alphabet.len().pow(length as u32);
        for number in 0..total {
            text.clear();
            let mut rest = number;
            for _ in 0..length {
                text.push(alphabet[rest % alphabet.len()]);
                rest /= alphabet.len();
            }
            assert_eq!(extract_paths(&text), scan_with_std_lines(&text), "for {:?}", text);
            count += 1;
        }
    }
    assert_eq!(count, 137257);
}

#[test]
fn scan_agrees_with_line_by_line_scan_on_longer_texts() {
    let pieces = ["`", "``", "```", "a/b", "./", "x", " ", "\t", "\n", "\r\n", "\u{a0}", "\u{e9}/"];
    let mut seed = 0x2545f491u32;
    for _ in 0..3000 {
        let mut text = String::new();
        for _ in 0..24 {
            seed ^= seed << 13;
            seed ^= seed >> 17;
            seed ^= seed << 5;
            text.push_str(pieces[(seed % pieces.len() as u32) as usize]);
        }
        assert_eq!(extract_paths(&text), scan_with_std_lines(&text), "for {:?}", text);
    }
}
