//! The text of a document: a metadata block between two lines of three
//! dashes, a blank line, and the body.

use vstd::prelude::*;
use vstd::string::StringExecFns;
use crate::document::{lemma_bind_views, reference_pairs, Document, DocumentView};
use crate::error::ContextError;
use crate::location::{file_name, find_last_slash, lemma_last_slash_bounds};
use crate::text::{
    contains_text, find_text, is_space, is_whitespace, lemma_find_text_is, lemma_skip_whitespace_bounds,
    lemma_skip_whitespace_is,
    occurs_at, skip_whitespace, starts_with, to_chars, trim_start,
};
use crate::text_map::{bind, distinct_keys, lemma_position_is, TextMap};
use crate::yaml::{
    as_text, distinct_text_keys, entry_trees, error_text, field, field_of, lemma_field_position_is,
    lemma_table_view, node_of,
    plain_table, read_value, text_of, untag, untagged, value_of, write_value, yaml_text, yaml_value,
    Node, Tree,
};

verus! {

/// The line that opens the metadata block.
pub open spec fn opening() -> Seq<char> {
    seq!['-', '-', '-', '\n']
}

/// The line that closes the metadata block, with the line feed before it.
pub open spec fn closing() -> Seq<char> {
    seq!['\n', '-', '-', '-', '\n']
}

/// The metadata block and the body of `content`: the text between the
/// opening line and the first closing line, and what follows that line
/// without its leading white space. `None` where the content does not start
/// with the opening line or holds no closing line.
pub open spec fn split_front_matter(content: Seq<char>) -> Option<(Seq<char>, Seq<char>)> {
    if !starts_with(content, opening()) {
        None
    } else {
        let rest = content.skip(4);
        let at = find_text(rest, 0, closing());
        if at >= rest.len() {
            None
        } else {
            Some((rest.take(at), trim_start(rest.skip(at + 5))))
        }
    }
}

/// The text that holds the metadata `block` and the body `body`.
pub open spec fn framed(block: Seq<char>, body: Seq<char>) -> Seq<char> {
    seq!['-', '-', '-', '\n'] + block + seq!['-', '-', '-', '\n', '\n'] + body
}

/// The index of the last `.` of `s` before index `end`; -1 where there is
/// none.
pub open spec fn last_dot(s: Seq<char>, end: int) -> int
    decreases end,
{
    if end <= 0 || end > s.len() {
        -1
    } else if s[end - 1] == '.' {
        end - 1
    } else {
        last_dot(s, end - 1)
    }
}

/// The short name that a document at `location` has by default: its file
/// name up to the last dot, or the whole name where the only dot comes
/// first; `unknown` where the location has no file name.
pub open spec fn default_slug(location: Seq<char>) -> Seq<char> {
    let name = file_name(location);
    let dot = last_dot(name, name.len() as int);
    if name.len() == 0 || name == seq!['.', '.'] {
        "unknown"@
    } else if dot <= 0 {
        name
    } else {
        name.take(dot)
    }
}

/// The document that a text without metadata block is: the whole text is
/// its body.
pub open spec fn plain_document(path: Seq<char>, content: Seq<char>) -> DocumentView {
    DocumentView {
        path,
        slug: default_slug(path),
        description: Seq::empty(),
        references: Seq::empty(),
        updated: Seq::empty(),
        body: content,
    }
}

/// The text of the field `key`, where the field is there and is a string.
pub open spec fn text_field(entries: Seq<(Tree, Tree)>, key: Seq<char>) -> Option<Seq<char>> {
    match field_of(entries, key) {
        Some(value) => text_of(value),
        None => None,
    }
}

/// The text of the field `key`, or the empty text.
pub open spec fn text_field_or_empty(entries: Seq<(Tree, Tree)>, key: Seq<char>) -> Seq<char> {
    match text_field(entries, key) {
        Some(text) => text,
        None => Seq::empty(),
    }
}

/// The references that the entries of a mapping give: each entry whose key
/// and value are strings binds the key to the value, a later entry in place
/// of an earlier one with the same key.
pub open spec fn stored_references(entries: Seq<(Tree, Tree)>) -> Seq<(Seq<char>, Seq<char>)>
    decreases entries.len(),
{
    if entries.len() == 0 {
        Seq::empty()
    } else {
        let before = stored_references(entries.drop_last());
        match (text_of(entries.last().0), text_of(entries.last().1)) {
            (Some(key), Some(value)) => bind(before, key, value),
            _ => before,
        }
    }
}

/// The references of a metadata block: those of its field `references`,
/// where that is a mapping.
pub open spec fn references_of(entries: Seq<(Tree, Tree)>) -> Seq<(Seq<char>, Seq<char>)> {
    match field_of(entries, "references"@) {
        Some(Tree::Table(stored)) => stored_references(stored),
        _ => Seq::empty(),
    }
}

/// The document at `path` with the metadata `block` and the body `body`, or
/// why the block is not that of a document: it must be a mapping, and its
/// field `slug` a string.
pub open spec fn document_of(path: Seq<char>, block: Tree, body: Seq<char>) -> Result<DocumentView, Seq<char>> {
    match untagged(block) {
        Tree::Table(entries) => match text_field(entries, "slug"@) {
            Some(slug) => Ok(
                DocumentView {
                    path,
                    slug,
                    description: text_field_or_empty(entries, "description"@),
                    references: references_of(entries),
                    updated: text_field_or_empty(entries, "updated"@),
                    body,
                },
            ),
            None => Err("Missing or invalid 'slug' field"@),
        },
        _ => Err("Invalid frontmatter format"@),
    }
}

/// `result` is what parsing makes of a metadata block that was read as
/// `block`.
pub open spec fn built_from(
    result: Result<Document, ContextError>,
    path: Seq<char>,
    block: Tree,
    body: Seq<char>,
) -> bool {
    match document_of(path, block, body) {
        Ok(view) => result matches Ok(document) && document@ == view,
        Err(why) => result matches Err(ContextError::InvalidDocument(m)) && m@ == why,
    }
}

/// `result` is what parsing makes of `content`, where `decoded` is what the
/// YAML reader made of the metadata block: the plain document where there is
/// no block, a `YamlError` where the block is no YAML, else the document
/// that the block describes.
pub open spec fn parsed_as(
    result: Result<Document, ContextError>,
    path: Seq<char>,
    content: Seq<char>,
    decoded: Option<Tree>,
) -> bool {
    match split_front_matter(content) {
        None => result matches Ok(document) && document@ == plain_document(path, content),
        Some((_, body)) => match decoded {
            None => result matches Err(ContextError::YamlError(_)),
            Some(block) => built_from(result, path, block, body),
        },
    }
}

/// What the YAML reader makes of the metadata block of `content`.
pub open spec fn decoded_block(content: Seq<char>) -> Option<Tree> {
    match split_front_matter(content) {
        None => None,
        Some((block, _)) => yaml_value(block),
    }
}

/// The pairs as entries of a mapping from text to text.
pub open spec fn text_entries(pairs: Seq<(Seq<char>, Seq<char>)>) -> Seq<(Tree, Tree)> {
    Seq::new(pairs.len(), |i: int| (Tree::Text(pairs[i].0), Tree::Text(pairs[i].1)))
}

/// The metadata block of a document.
pub open spec fn block_of(document: DocumentView) -> Tree {
    Tree::Table(
        seq![
            (Tree::Text("slug"@), Tree::Text(document.slug)),
            (Tree::Text("description"@), Tree::Text(document.description)),
            (Tree::Text("references"@), Tree::Table(text_entries(document.references))),
            (Tree::Text("updated"@), Tree::Text(document.updated)),
        ],
    )
}

/// The metadata block and the body of `content`, where it has a block.
pub fn extract_frontmatter(content: &str) -> (parts: Option<(String, String)>)
    ensures
        match parts {
            Some((block, body)) => split_front_matter(content@) == Some((block@, body@)),
            None => split_front_matter(content@) is None,
        },
{
    let text = to_chars(content);
    let n = text.len();
    if !(n >= 4 && text[0] == '-' && text[1] == '-' && text[2] == '-' && text[3] == '\n') {
        proof {
            if starts_with(text@, opening()) {
                let head = text@.subrange(0, 4);
                assert(head[0] == '-' && head[1] == '-' && head[2] == '-' && head[3] == '\n');
            }
        }
        return None;
    }
    assert(text@.subrange(0, 4) =~= opening());
    let ghost rest = text@.skip(4);
    let mut at: usize = 4;
    while n - at >= 5 && !(text[at] == '\n' && text[at + 1] == '-' && text[at + 2] == '-' && text[at + 3]
        == '-' && text[at + 4] == '\n')
        invariant
            4 <= at <= n,
            n == text.len(),
            rest == text@.skip(4),
            forall|j: int| 0 <= j < at - 4 ==> !occurs_at(rest, j, closing()),
        decreases n - at,
    {
        proof {
            let j = at - 4;
            if occurs_at(rest, j, closing()) {
                let piece = rest.subrange(j, j + 5);
                assert(piece[0] == '\n' && piece[1] == '-' && piece[2] == '-' && piece[3] == '-' && piece[4]
                    == '\n');
            }
        }
        at += 1;
    }
    if n - at < 5 {
        proof {
            assert forall|j: int| 0 <= j < rest.len() implies !occurs_at(rest, j, closing()) by {}
            lemma_find_text_is(rest, 0, closing(), rest.len() as int);
        }
        return None;
    }
    proof {
        assert(rest.subrange(at - 4, at - 4 + 5) =~= closing());
        lemma_find_text_is(rest, 0, closing(), at - 4);
    }
    let after: usize = at + 5;
    let mut start: usize = after;
    let ghost tail = rest.skip(at - 4 + 5);
    while start < n && is_space(text[start])
        invariant
            after <= start <= n,
            n == text.len(),
            tail == text@.skip(after as int),
            forall|j: int| 0 <= j < start - after ==> is_whitespace(tail[j]),
        decreases n - start,
    {
        start += 1;
    }
    proof {
        assert(tail =~= text@.skip(after as int));
        lemma_skip_whitespace_is(tail, 0, start - after);
        assert(trim_start(tail) =~= text@.subrange(start as int, n as int));
        assert(rest.take(at - 4) =~= text@.subrange(4, at as int));
    }
    let block = content.substring_char(4, at).to_owned();
    let body = content.substring_char(start, n).to_owned();
    Some((block, body))
}

/// The short name that a document at `location` has by default.
pub fn slug_from_location(location: &str) -> (slug: String)
    ensures
        slug@ == default_slug(location@),
{
    let text = to_chars(location);
    let n = text.len();
    let start: usize = match find_last_slash(&text, n) {
        Some(slash) => slash + 1,
        None => 0,
    };
    proof {
        lemma_last_slash_bounds(text@, n as int);
    }
    let ghost name = file_name(text@);
    assert(name =~= text@.subrange(start as int, n as int));
    if n == start {
        return "unknown".to_owned();
    }
    if n - start == 2 && text[start] == '.' && text[start + 1] == '.' {
        assert(name =~= seq!['.', '.']);
        return "unknown".to_owned();
    }
    proof {
        if name == seq!['.', '.'] {
            assert(name[0] == '.' && name[1] == '.');
        }
    }
    let mut dot: usize = n;
    while dot > start && text[dot - 1] != '.'
        invariant
            start <= dot <= n,
            n == text.len(),
            name == text@.subrange(start as int, n as int),
            forall|j: int| dot - start <= j < name.len() ==> name[j] != '.',
        decreases dot,
    {
        dot -= 1;
    }
    proof {
        lemma_last_dot_is(name, name.len() as int, dot - start - 1);
    }
    if dot <= start + 1 {
        content_of(location, start, n)
    } else {
        assert(name.take(dot - 1 - start) =~= text@.subrange(start as int, dot - 1));
        content_of(location, start, dot - 1)
    }
}

/// The characters of `text` in `from..to`, as a string.
fn content_of(text: &str, from: usize, to: usize) -> (piece: String)
    requires
        from <= to <= text@.len(),
    ensures
        piece@ == text@.subrange(from as int, to as int),
{
    text.substring_char(from, to).to_owned()
}

/// The last dot before `end` is the one after which no dot comes.
pub proof fn lemma_last_dot_is(s: Seq<char>, end: int, at: int)
    requires
        -1 <= at < end <= s.len(),
        at >= 0 ==> s[at] == '.',
        forall|j: int| at < j < end ==> s[j] != '.',
    ensures
        last_dot(s, end) == at,
    decreases end,
{
    if end - 1 > at {
        lemma_last_dot_is(s, end - 1, at);
    }
}

/// The document that a text without metadata block is.
pub fn parse_without_frontmatter(path: String, content: &str) -> (document: Document)
    ensures
        document@ == plain_document(path@, content@),
{
    let slug = slug_from_location(path.as_str());
    let references: TextMap<String> = TextMap::new();
    assert(reference_pairs(references) =~= Seq::<(Seq<char>, Seq<char>)>::empty());
    Document::new(path, slug, String::new(), references, String::new(), content.to_owned())
}

/// The text of the field `key`, where the field is there and is a string.
fn text_field_of<'a>(entries: &'a Vec<(Node, Node)>, key: &str) -> (text: Option<&'a String>)
    ensures
        match text {
            Some(s) => text_field(entry_trees(entries@), key@) == Some(s@),
            None => text_field(entry_trees(entries@), key@) is None,
        },
{
    match field(entries, key) {
        Some(value) => as_text(value),
        None => None,
    }
}

/// The references that the entries of a mapping give.
fn references_from(entries: &Vec<(Node, Node)>) -> (references: TextMap<String>)
    ensures
        reference_pairs(references) == stored_references(entry_trees(entries@)),
{
    let ghost trees = entry_trees(entries@);
    let mut references: TextMap<String> = TextMap::new();
    let mut i: usize = 0;
    assert(reference_pairs(references) =~= stored_references(trees.take(0)));
    while i < entries.len()
        invariant
            i <= entries.len(),
            trees == entry_trees(entries@),
            reference_pairs(references) == stored_references(trees.take(i as int)),
        decreases entries.len() - i,
    {
        proof {
            assert(trees.take(i + 1).drop_last() =~= trees.take(i as int));
            assert(trees.take(i + 1).last() == (entries@[i as int].0@, entries@[i as int].1@));
        }
        match (as_text(&entries[i].0), as_text(&entries[i].1)) {
            (Some(key), Some(value)) => {
                let ghost earlier = references;
                references.insert(key.clone(), value.clone());
                proof {
                    lemma_bind_views(earlier, references, key@, *value);
                }
            },
            _ => {},
        }
        i += 1;
    }
    assert(trees.take(i as int) =~= trees);
    references
}

/// The document at `path` with the metadata `block` and the body `body`.
/// The block must be a mapping with a string for its field `slug`; the
/// fields `description` and `updated` count as empty where they are no
/// strings, and `references` as empty where it is no mapping.
pub fn document_from_node(path: String, block: &Node, body: String) -> (result: Result<Document, ContextError>)
    ensures
        built_from(result, path@, block@, body@),
{
    let entries = match untag(block) {
        Node::Table(entries) => entries,
        _ => {
            return Err(ContextError::InvalidDocument("Invalid frontmatter format".to_owned()));
        },
    };
    proof {
        lemma_table_view(*entries);
    }
    let ghost trees = entry_trees(entries@);
    let slug = match text_field_of(entries, "slug") {
        Some(slug) => slug.clone(),
        None => {
            return Err(ContextError::InvalidDocument("Missing or invalid 'slug' field".to_owned()));
        },
    };
    let description = match text_field_of(entries, "description") {
        Some(text) => text.clone(),
        None => String::new(),
    };
    let references = match field(entries, "references") {
        Some(Node::Table(stored)) => {
            proof {
                lemma_table_view(*stored);
            }
            references_from(stored)
        },
        _ => {
            let empty: TextMap<String> = TextMap::new();
            assert(reference_pairs(empty) =~= Seq::<(Seq<char>, Seq<char>)>::empty());
            empty
        },
    };
    let updated = match text_field_of(entries, "updated") {
        Some(text) => text.clone(),
        None => String::new(),
    };
    Ok(Document::new(path, slug, description, references, updated, body))
}

/// The document at `path` with the metadata block `frontmatter_str`, read
/// as YAML, and the body `body`.
pub fn parse_with_frontmatter(path: String, frontmatter_str: &str, body: String) -> (result: Result<
    Document,
    ContextError,
>)
    ensures
        match yaml_value(frontmatter_str@) {
            None => result matches Err(ContextError::YamlError(_)),
            Some(block) => built_from(result, path@, block, body@),
        },
{
    match read_value(frontmatter_str) {
        Err(error) => Err(ContextError::YamlError(error_text(&error))),
        Ok(value) => {
            let block = node_of(&value);
            document_from_node(path, &block, body)
        },
    }
}

/// The document at `path` whose text is `content`. Where the content starts
/// with a metadata block, the block is read as YAML; else the document gets
/// its short name from its location, and the whole content is its body.
pub fn parse(path: String, content: &str) -> (result: Result<Document, ContextError>)
    ensures
        parsed_as(result, path@, content@, decoded_block(content@)),
{
    match extract_frontmatter(content) {
        Some((block, body)) => parse_with_frontmatter(path, block.as_str(), body),
        None => Ok(parse_without_frontmatter(path, content)),
    }
}

/// The entries of a mapping that holds the references of `document`.
fn reference_entries(document: &Document) -> (stored: Vec<(Node, Node)>)
    ensures
        entry_trees(stored@) == text_entries(reference_pairs(document.references)),
        forall|a: int, b: int|
            0 <= a < b < stored@.len() ==> (#[trigger] entry_trees(stored@)[a]).0 != (#[trigger] entry_trees(
                stored@,
            )[b]).0,
{
    let ghost pairs = reference_pairs(document.references);
    let n = document.references.len();
    let mut stored: Vec<(Node, Node)> = Vec::new();
    let mut i: usize = 0;
    while i < n
        invariant
            i <= n,
            n == document.references@.len(),
            pairs == reference_pairs(document.references),
            stored@.len() == i,
            entry_trees(stored@) =~= text_entries(pairs.take(i as int)),
        decreases n - i,
    {
        let key = document.references.key_at(i);
        let value = document.references.value_at(i);
        let ghost earlier = stored@;
        stored.push((Node::Text(key.clone()), Node::Text(value.clone())));
        proof {
            let now = entry_trees(stored@);
            let want = text_entries(pairs.take(i + 1));
            assert forall|j: int| 0 <= j < now.len() implies now[j] == want[j] by {
                if j < i {
                    assert(now[j] == entry_trees(earlier)[j]);
                    assert(text_entries(pairs.take(i as int))[j] == want[j]);
                }
            }
        }
        i += 1;
    }
    proof {
        assert(pairs.take(i as int) =~= pairs);
        let trees = entry_trees(stored@);
        assert forall|a: int, b: int| 0 <= a < b < trees.len() implies (#[trigger] trees[a]).0 != (
        #[trigger] trees[b]).0 by {
            assert(document.references@[a].0 != document.references@[b].0);
        }
    }
    stored
}

/// The text of `document`: its metadata as a YAML block between two lines
/// of three dashes, a blank line, and its body.
pub fn serialize(document: &Document) -> (result: Result<String, ContextError>)
    ensures
        match yaml_text(block_of(document@)) {
            Some(block) => result matches Ok(text) && text@ == framed(block, document.body@),
            None => result matches Err(ContextError::YamlError(_)),
        },
{
    let stored = reference_entries(document);
    let ghost inner = entry_trees(stored@);
    proof {
        lemma_table_view(stored);
        assert forall|j: int| 0 <= j < inner.len() implies (#[trigger] inner[j]).1 is Text by {
            assert(inner[j] == text_entries(reference_pairs(document.references))[j]);
        }
        assert forall|j: int| 0 <= j < inner.len() implies (#[trigger] inner[j]).0 is Text by {
            assert(inner[j] == text_entries(reference_pairs(document.references))[j]);
        }
        reveal_strlit("slug");
        reveal_strlit("description");
        reveal_strlit("references");
        reveal_strlit("updated");
    }
    let mut entries: Vec<(Node, Node)> = Vec::new();
    entries.push((Node::Text("slug".to_owned()), Node::Text(document.slug.clone())));
    entries.push((Node::Text("description".to_owned()), Node::Text(document.description.clone())));
    entries.push((Node::Text("references".to_owned()), Node::Table(stored)));
    entries.push((Node::Text("updated".to_owned()), Node::Text(document.updated.clone())));
    let ghost trees = entry_trees(entries@);
    let block = Node::Table(entries);
    proof {
        lemma_table_view(entries);
        assert(trees =~= block_of(document@)->Table_0);
        assert(block@ == block_of(document@));
        assert(trees[0].0 == Tree::Text("slug"@));
        assert(trees[1].0 == Tree::Text("description"@));
        assert(trees[2].0 == Tree::Text("references"@));
        assert(trees[3].0 == Tree::Text("updated"@));
        assert(trees[0].1 is Text);
        assert(trees[1].1 is Text);
        assert(trees[2].1 == Tree::Table(inner));
        assert(trees[3].1 is Text);
        assert(trees.len() == 4);
        assert("slug"@.len() == 4);
        assert("description"@.len() == 11);
        assert("references"@.len() == 10);
        assert("updated"@.len() == 7);
        assert(distinct_text_keys(trees));
        assert(plain_table(block@));
    }
    let value = value_of(&block);
    match write_value(&value) {
        Err(error) => Err(ContextError::YamlError(error_text(&error))),
        Ok(written) => {
            proof {
                reveal_strlit("---\n");
                reveal_strlit("---\n\n");
            }
            let mut text = "---\n".to_owned();
            text.append(written.as_str());
            text.append("---\n\n");
            text.append(document.body.as_str());
            assert(text@ =~= framed(written@, document.body@));
            Ok(text)
        },
    }
}

/// The references written as a mapping are read back as they were.
pub proof fn lemma_stored_references_round_trip(references: Seq<(Seq<char>, Seq<char>)>)
    requires
        distinct_keys(references),
    ensures
        stored_references(text_entries(references)) == references,
    decreases references.len(),
{
    let entries = text_entries(references);
    if references.len() == 0 {
        assert(stored_references(entries) =~= references);
    } else {
        let shorter = references.drop_last();
        assert(entries.drop_last() =~= text_entries(shorter));
        assert(distinct_keys(shorter)) by {
            assert forall|i: int, j: int| 0 <= i < j < shorter.len() implies (#[trigger] shorter[i]).0 != (
            #[trigger] shorter[j]).0 by {
                assert(references[i].0 != references[j].0);
            }
        }
        lemma_stored_references_round_trip(shorter);
        let last = references.last();
        assert(entries.last() == (Tree::Text(last.0), Tree::Text(last.1)));
        assert forall|j: int| 0 <= j < shorter.len() implies (#[trigger] shorter[j]).0 != last.0 by {
            assert(references[j].0 != references[references.len() - 1].0);
        }
        lemma_position_is(shorter, last.0, 0, shorter.len() as int);
        assert(bind(shorter, last.0, last.1) =~= references);
    }
}

/// The metadata block of a document describes that document.
pub proof fn lemma_block_describes(document: DocumentView)
    requires
        distinct_keys(document.references),
    ensures
        document_of(document.path, block_of(document), document.body) == Ok::<DocumentView, Seq<char>>(
            document,
        ),
{
    reveal_strlit("slug");
    reveal_strlit("description");
    reveal_strlit("references");
    reveal_strlit("updated");
    let entries = block_of(document)->Table_0;
    assert("slug"@.len() == 4);
    assert("description"@.len() == 11);
    assert("references"@.len() == 10);
    assert("updated"@.len() == 7);
    lemma_field_position_is(entries, "slug"@, 0, 0);
    lemma_field_position_is(entries, "description"@, 0, 1);
    lemma_field_position_is(entries, "references"@, 0, 2);
    lemma_field_position_is(entries, "updated"@, 0, 3);
    lemma_stored_references_round_trip(document.references);
}

/// The text that frames a block and a body splits into that block, without
/// its last line feed, and that body: where the block ends with a line feed
/// and holds no closing line, and the body starts with no white space.
pub proof fn lemma_split_of_framed(block: Seq<char>, body: Seq<char>)
    requires
        block.len() > 0,
        block.last() == '\n',
        !contains_text(block, closing()),
        trim_start(body) == body,
    ensures
        split_front_matter(framed(block, body)) == Some((block.drop_last(), body)),
{
    let content = framed(block, body);
    let n = block.len() as int;
    assert(content.subrange(0, 4) =~= opening());
    let rest = content.skip(4);
    assert(rest =~= block + seq!['-', '-', '-', '\n', '\n'] + body);
    assert(rest.subrange(n - 1, n - 1 + 5) =~= closing());
    assert forall|j: int| 0 <= j < n - 1 implies !occurs_at(rest, j, closing()) by {
        if occurs_at(rest, j, closing()) {
            let piece = rest.subrange(j, j + 5);
            if j + 5 <= n {
                assert(block.subrange(j, j + 5) =~= piece);
                assert(occurs_at(block, j, closing()));
            } else {
                assert(piece[n - 1 - j] == rest[n - 1]);
                assert(closing()[n - 1 - j] == '-');
            }
        }
    }
    lemma_find_text_is(rest, 0, closing(), n - 1);
    assert(rest.take(n - 1) =~= block.drop_last());
    let tail = rest.skip(n - 1 + 5);
    assert(tail =~= seq!['\n'] + body);
    lemma_skip_whitespace_bounds(body, 0);
    if body.len() > 0 {
        let first = skip_whitespace(body, 0);
        assert(trim_start(body).len() == body.len() - first);
        assert(first == 0);
        lemma_skip_whitespace_bounds(body, 1);
        assert(!is_whitespace(body[0]));
        assert(tail[1] == body[0]);
    }
    assert(is_whitespace(tail[0]));
    lemma_skip_whitespace_is(tail, 0, 1);
    assert(trim_start(tail) =~= body);
}

/// Reading what was written gives the document back. Where the YAML reader
/// returns the block that was written, parsing the text of a document gives
/// that document: for a block text that ends with a line feed and holds no
/// closing line, and a body that starts with no white space.
pub proof fn lemma_parse_of_serialized(
    document: DocumentView,
    block: Seq<char>,
    result: Result<Document, ContextError>,
)
    requires
        distinct_keys(document.references),
        block.len() > 0,
        block.last() == '\n',
        !contains_text(block, closing()),
        trim_start(document.body) == document.body,
        parsed_as(result, document.path, framed(block, document.body), Some(block_of(document))),
    ensures
        result matches Ok(parsed) && parsed@ == document,
{
    lemma_split_of_framed(block, document.body);
    lemma_block_describes(document);
}

} // verus!
