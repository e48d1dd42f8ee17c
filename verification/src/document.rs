//! One document of the cache: its metadata, its body, and how it stands to
//! the files that its body mentions.

use vstd::prelude::*;
use crate::clock::today;
use crate::error::{ContextError, InvalidReference};
use crate::frontmatter::{block_of, decoded_block, framed, parse, parsed_as, serialize};
use crate::fingerprint::{fingerprint_of, hash};
use crate::location::{join, joined, project_root_of, project_root_of_location};
use crate::models::{Status, Validation};
use crate::paths::{
    extract_paths, has_parent_segment, normalize_path, normalized, scan_of, validate_path, validated,
    PathError,
};
use crate::text::{contains_text, lemma_views_push, starts_with, to_chars, views};
use crate::text_map::{bind, lemma_position_bounds, lemma_position_is, position, TextMap};
use crate::tree::{entry_at, Entry, FileTree};
use crate::yaml::yaml_text;

verus! {

/// A document of the cache.
#[derive(Debug, Clone, PartialEq, Eq)]
pub struct Document {
    /// Where the document lies.
    pub path: String,
    /// The document's short name.
    pub slug: String,
    /// What the document is about.
    pub description: String,
    /// The fingerprint stored for each source file, by its path below the
    /// project root.
    pub references: TextMap<String>,
    /// The day of the last synchronization, or nothing.
    pub updated: String,
    /// The text after the metadata block.
    pub body: String,
}

/// A document as mathematical values.
pub struct DocumentView {
    /// Where the document lies.
    pub path: Seq<char>,
    /// The document's short name.
    pub slug: Seq<char>,
    /// What the document is about.
    pub description: Seq<char>,
    /// The stored fingerprints, by path, in order.
    pub references: Seq<(Seq<char>, Seq<char>)>,
    /// The day of the last synchronization, or nothing.
    pub updated: Seq<char>,
    /// The text after the metadata block.
    pub body: Seq<char>,
}

impl View for Document {
    type V = DocumentView;

    open spec fn view(&self) -> DocumentView {
        DocumentView {
            path: self.path@,
            slug: self.slug@,
            description: self.description@,
            references: reference_pairs(self.references),
            updated: self.updated@,
            body: self.body@,
        }
    }
}

/// The pairs of a map of references, each fingerprint taken by its view.
pub open spec fn reference_pairs(references: TextMap<String>) -> Seq<(Seq<char>, Seq<char>)> {
    Seq::new(references@.len(), |i: int| (references@[i].0, references@[i].1@))
}

/// The refusals with each path taken by its view.
pub open spec fn refusals(items: Seq<InvalidReference>) -> Seq<(Seq<char>, PathError)> {
    Seq::new(items.len(), |i: int| (items[i].path@, items[i].reason))
}

/// The paths of `paths` that are refused in the project at `root`, each with
/// the reason, in order.
pub open spec fn rejections(paths: Seq<Seq<char>>, root: Seq<char>, tree: Seq<(Seq<char>, Entry)>) -> Seq<
    (Seq<char>, PathError),
>
    decreases paths.len(),
{
    if paths.len() == 0 {
        Seq::empty()
    } else {
        let before = rejections(paths.drop_last(), root, tree);
        match validated(paths.last(), root, tree) {
            Err(reason) => before.push((paths.last(), reason)),
            Ok(_) => before,
        }
    }
}

/// What the first phase of a synchronization finds for a document at
/// `location` with the body `body`: one refusal of `<unknown>` where the
/// document has no project root, else the refusals of the paths it mentions.
pub open spec fn prepared(location: Seq<char>, body: Seq<char>, tree: Seq<(Seq<char>, Entry)>) -> Seq<
    (Seq<char>, PathError),
> {
    match project_root_of(location) {
        None => seq![("<unknown>"@, PathError::NotFound)],
        Some(root) => rejections(scan_of(body), root, tree),
    }
}

/// The references that a synchronization gives a document whose accepted
/// paths are those of `paths`: each normalized path with the fingerprint of
/// the file that lies there.
pub open spec fn fresh_references(paths: Seq<Seq<char>>, root: Seq<char>, tree: Seq<(Seq<char>, Entry)>) -> Seq<
    (Seq<char>, Seq<char>),
>
    decreases paths.len(),
{
    if paths.len() == 0 {
        Seq::empty()
    } else {
        let before = fresh_references(paths.drop_last(), root, tree);
        match validated(paths.last(), root, tree) {
            Ok(key) => match entry_at(tree, joined(root, key)) {
                Some(Entry::File(bytes)) => bind(before, key, fingerprint_of(bytes@)),
                _ => before,
            },
            Err(_) => before,
        }
    }
}

/// Why the first accepted path of `paths` whose file cannot be read cannot
/// be read; `None` where all can.
pub open spec fn first_unreadable(paths: Seq<Seq<char>>, root: Seq<char>, tree: Seq<(Seq<char>, Entry)>) -> Option<
    Seq<char>,
>
    decreases paths.len(),
{
    if paths.len() == 0 {
        None
    } else {
        let before = first_unreadable(paths.drop_last(), root, tree);
        if before is Some {
            before
        } else {
            match validated(paths.last(), root, tree) {
                Ok(key) => match entry_at(tree, joined(root, key)) {
                    Some(Entry::Unreadable(reason)) => Some(reason@),
                    _ => None,
                },
                Err(_) => None,
            }
        }
    }
}

/// What a synchronization on the day `day` makes of the document `before`:
/// the result and the document afterwards.
///
/// Without a project root it fails with a `SyncError`. Where a mentioned
/// path is refused it fails with all the refusals, before any file is read.
/// Where a file cannot be read it fails with an `IoError`. A failure leaves
/// the document as it was. Else the references are replaced by those of the
/// body and `updated` becomes `day`.
pub open spec fn sync_post(
    before: Document,
    after: Document,
    result: Result<(), ContextError>,
    tree: Seq<(Seq<char>, Entry)>,
    day: Seq<char>,
) -> bool {
    match project_root_of(before.path@) {
        None => {
            &&& result matches Err(ContextError::SyncError(m))
            &&& m@ == "Could not determine project root"@
            &&& after == before
        },
        Some(root) => {
            let scan = scan_of(before.body@);
            if rejections(scan, root, tree).len() > 0 {
                &&& result matches Err(ContextError::InvalidReferences { count, documents })
                &&& count == 1
                &&& documents@.len() == 1
                &&& documents@[0].0@ == before.path@
                &&& refusals(documents@[0].1@) == rejections(scan, root, tree)
                &&& after == before
            } else {
                match first_unreadable(scan, root, tree) {
                    Some(reason) => {
                        &&& result matches Err(ContextError::IoError(m))
                        &&& m@ == reason
                        &&& after == before
                    },
                    None => {
                        &&& result is Ok
                        &&& reference_pairs(after.references) == fresh_references(scan, root, tree)
                        &&& after.updated@ == day
                        &&& after.path == before.path
                        &&& after.slug == before.slug
                        &&& after.description == before.description
                        &&& after.body == before.body
                    },
                }
            }
        },
    }
}

/// What is found at the reference `key` of a document with the project root
/// `root`; nothing where the document has no project root.
pub open spec fn referred(root: Option<Seq<char>>, key: Seq<char>, tree: Seq<(Seq<char>, Entry)>) -> Option<
    Entry,
> {
    match root {
        None => None,
        Some(r) => entry_at(tree, joined(r, key)),
    }
}

/// The references of `pairs` whose file is there with another fingerprint
/// than the stored one, in order.
pub open spec fn changed_references(
    pairs: Seq<(Seq<char>, Seq<char>)>,
    root: Option<Seq<char>>,
    tree: Seq<(Seq<char>, Entry)>,
) -> Seq<Seq<char>>
    decreases pairs.len(),
{
    if pairs.len() == 0 {
        Seq::empty()
    } else {
        let before = changed_references(pairs.drop_last(), root, tree);
        match referred(root, pairs.last().0, tree) {
            Some(Entry::File(bytes)) => if fingerprint_of(bytes@) != pairs.last().1 {
                before.push(pairs.last().0)
            } else {
                before
            },
            _ => before,
        }
    }
}

/// The references of `pairs` at which nothing lies, in order.
pub open spec fn missing_references(
    pairs: Seq<(Seq<char>, Seq<char>)>,
    root: Option<Seq<char>>,
    tree: Seq<(Seq<char>, Entry)>,
) -> Seq<Seq<char>>
    decreases pairs.len(),
{
    if pairs.len() == 0 {
        Seq::empty()
    } else {
        let before = missing_references(pairs.drop_last(), root, tree);
        match referred(root, pairs.last().0, tree) {
            None => before.push(pairs.last().0),
            _ => before,
        }
    }
}

/// Why the first reference of `pairs` that is there but cannot be read
/// cannot be read: the recorded reason, or that it is a directory.
pub open spec fn read_failure(
    pairs: Seq<(Seq<char>, Seq<char>)>,
    root: Option<Seq<char>>,
    tree: Seq<(Seq<char>, Entry)>,
) -> Option<Seq<char>>
    decreases pairs.len(),
{
    if pairs.len() == 0 {
        None
    } else {
        let before = read_failure(pairs.drop_last(), root, tree);
        if before is Some {
            before
        } else {
            match referred(root, pairs.last().0, tree) {
                Some(Entry::Unreadable(reason)) => Some(reason@),
                Some(Entry::Directory) => Some("Is a directory"@),
                _ => None,
            }
        }
    }
}

/// The status that follows from the changed and the missing references:
/// orphaned where one is missing, else stale where one has changed.
pub open spec fn status_of(changed: Seq<Seq<char>>, missing: Seq<Seq<char>>) -> Status {
    if missing.len() > 0 {
        Status::Orphaned
    } else if changed.len() > 0 {
        Status::Stale
    } else {
        Status::Valid
    }
}

/// `result` is the validation of `document`, given what `tree` holds: an
/// `IoError` where a reference is there but cannot be read, else the
/// references that have changed and those that are missing, with the status
/// that follows from them.
pub open spec fn validation_matches(
    result: Result<Validation, ContextError>,
    document: DocumentView,
    tree: Seq<(Seq<char>, Entry)>,
) -> bool {
    let root = project_root_of(document.path);
    match read_failure(document.references, root, tree) {
        Some(reason) => result matches Err(ContextError::IoError(m)) && m@ == reason,
        None => {
            &&& result matches Ok(validation)
            &&& validation.path@ == document.path
            &&& views(validation.changed@) == changed_references(document.references, root, tree)
            &&& views(validation.missing@) == missing_references(document.references, root, tree)
            &&& validation.status == status_of(views(validation.changed@), views(validation.missing@))
        },
    }
}

/// The mention `path` may be looked up: it neither starts with `/` nor
/// holds `..`.
pub open spec fn safe_mention(path: Seq<char>) -> bool {
    !starts_with(path, seq!['/']) && !contains_text(path, seq!['.', '.'])
}

/// The locations at which the safe mentions of `paths` lie in the project
/// at `root`, in order.
pub open spec fn mention_locations_of(paths: Seq<Seq<char>>, root: Seq<char>) -> Seq<Seq<char>>
    decreases paths.len(),
{
    if paths.len() == 0 {
        Seq::empty()
    } else {
        let before = mention_locations_of(paths.drop_last(), root);
        if safe_mention(paths.last()) {
            before.push(joined(root, normalized(paths.last())))
        } else {
            before
        }
    }
}

/// The locations of the references of `pairs` in the project at `root`, in
/// order.
pub open spec fn reference_locations_of(pairs: Seq<(Seq<char>, Seq<char>)>, root: Seq<char>) -> Seq<Seq<char>> {
    Seq::new(pairs.len(), |i: int| joined(root, pairs[i].0))
}

/// The locations whose state a validation or a synchronization of
/// `document` reads: those of its references, then those of the safe
/// mentions of its body. A document without a project root reads none.
pub open spec fn read_locations(document: DocumentView) -> Seq<Seq<char>> {
    match project_root_of(document.path) {
        None => Seq::empty(),
        Some(root) => reference_locations_of(document.references, root) + mention_locations_of(
            scan_of(document.body),
            root,
        ),
    }
}

impl Document {
    /// A document with the given fields.
    pub fn new(
        path: String,
        slug: String,
        description: String,
        references: TextMap<String>,
        updated: String,
        body: String,
    ) -> (document: Self)
        ensures
            document.path == path,
            document.slug == slug,
            document.description == description,
            document.references == references,
            document.updated == updated,
            document.body == body,
    {
        Document { path, slug, description, references, updated, body }
    }

    /// The project root: the parent of the nearest directory above the
    /// document that is named like the cache's marker.
    pub fn project_root(&self) -> (root: Option<String>)
        ensures
            match root {
                Some(r) => project_root_of(self.path@) == Some(r@),
                None => project_root_of(self.path@) is None,
            },
    {
        project_root_of_location(self.path.as_str())
    }

    /// The location of the reference `ref_path`: the path below the project
    /// root; `None` where the document has no project root.
    pub fn resolve_ref_path(&self, ref_path: &str) -> (full: Option<String>)
        ensures
            match full {
                Some(f) => project_root_of(self.path@) is Some && f@ == joined(
                    project_root_of(self.path@).unwrap(),
                    ref_path@,
                ),
                None => project_root_of(self.path@) is None,
            },
    {
        match self.project_root() {
            Some(root) => Some(join(root.as_str(), ref_path)),
            None => None,
        }
    }

    /// The locations whose state a validation or a synchronization of the
    /// document reads. A mention that starts with `/` or holds `..` is not
    /// among them: it is refused before anything is looked at.
    pub fn locations_read(&self) -> (locations: Vec<String>)
        ensures
            views(locations@) == read_locations(self@),
    {
        let mut locations: Vec<String> = Vec::new();
        let root = match self.project_root() {
            Some(r) => r,
            None => {
                assert(views(locations@) =~= Seq::<Seq<char>>::empty());
                return locations;
            },
        };
        let ghost pairs = reference_pairs(self.references);
        let n = self.references.len();
        let mut i: usize = 0;
        while i < n
            invariant
                i <= n,
                n == self.references@.len(),
                pairs == reference_pairs(self.references),
                views(locations@) =~= reference_locations_of(pairs, root@).take(i as int),
            decreases n - i,
        {
            let ghost earlier = locations@;
            let full = join(root.as_str(), self.references.key_at(i).as_str());
            locations.push(full);
            proof {
                lemma_views_push(earlier, full);
                let all = reference_locations_of(pairs, root@);
                assert(all.take(i as int).push(all[i as int]) =~= all.take(i + 1));
            }
            i += 1;
        }
        let ghost first = reference_locations_of(pairs, root@);
        assert(first.take(n as int) =~= first);
        let paths = extract_paths(self.body.as_str());
        let mut k: usize = 0;
        assert(views(locations@) =~= first + mention_locations_of(views(paths@).take(0), root@));
        while k < paths.len()
            invariant
                k <= paths.len(),
                views(locations@) =~= first + mention_locations_of(views(paths@).take(k as int), root@),
            decreases paths.len() - k,
        {
            proof {
                assert(views(paths@).take(k + 1).drop_last() =~= views(paths@).take(k as int));
                assert(views(paths@).take(k + 1).last() == paths@[k as int]@);
            }
            let text = to_chars(paths[k].as_str());
            let absolute = text.len() > 0 && text[0] == '/';
            proof {
                if absolute {
                    assert(text@.subrange(0, 1) =~= seq!['/']);
                } else if starts_with(text@, seq!['/']) {
                    assert(text@.subrange(0, 1)[0] == '/');
                }
            }
            if !absolute && !has_parent_segment(&text) {
                let ghost earlier = locations@;
                let normal = normalize_path(paths[k].as_str());
                let full = join(root.as_str(), normal.as_str());
                locations.push(full);
                proof {
                    lemma_views_push(earlier, full);
                    let before = mention_locations_of(views(paths@).take(k as int), root@);
                    assert((first + before).push(full@) =~= first + before.push(full@));
                }
            }
            k += 1;
        }
        assert(views(paths@).take(k as int) =~= views(paths@));
        locations
    }

    /// The document at `path` whose backing file holds `content`.
    pub fn load(path: String, content: &str) -> (result: Result<Document, ContextError>)
        ensures
            parsed_as(result, path@, content@, decoded_block(content@)),
    {
        parse(path, content)
    }

    /// The text to write to the document's backing file.
    pub fn encode(&self) -> (result: Result<String, ContextError>)
        ensures
            match yaml_text(block_of(self@)) {
                Some(block) => result matches Ok(text) && text@ == framed(block, self.body@),
                None => result matches Err(ContextError::YamlError(_)),
            },
    {
        serialize(self)
    }

    /// The first phase of a synchronization: the mentions of the body that
    /// are refused, given what `tree` holds. Nothing is changed.
    pub fn prepare_sync(&self, tree: &FileTree) -> (invalid: Vec<InvalidReference>)
        ensures
            refusals(invalid@) == prepared(self.path@, self.body@, tree@),
    {
        let root = match self.project_root() {
            Some(r) => r,
            None => {
                let invalid = vec![InvalidReference::new("<unknown>".to_owned(), PathError::NotFound)];
                assert(refusals(invalid@) =~= seq![("<unknown>"@, PathError::NotFound)]);
                return invalid;
            },
        };
        let paths = extract_paths(self.body.as_str());
        let mut invalid: Vec<InvalidReference> = Vec::new();
        let mut i: usize = 0;
        assert(refusals(invalid@) =~= rejections(views(paths@).take(0), root@, tree@));
        while i < paths.len()
            invariant
                i <= paths.len(),
                refusals(invalid@) == rejections(views(paths@).take(i as int), root@, tree@),
            decreases paths.len() - i,
        {
            let ghost done = views(paths@).take(i as int);
            let ghost next = views(paths@).take(i + 1);
            proof {
                assert(next.drop_last() =~= done);
                assert(next.last() == paths@[i as int]@);
            }
            let ghost earlier = invalid@;
            match validate_path(paths[i].as_str(), root.as_str(), tree) {
                Err(reason) => {
                    invalid.push(InvalidReference::new(paths[i].clone(), reason));
                    assert(refusals(invalid@) =~= refusals(earlier).push((paths@[i as int]@, reason)));
                },
                Ok(_) => {},
            }
            i += 1;
        }
        assert(views(paths@).take(i as int) =~= views(paths@));
        invalid
    }

    /// The second phase of a synchronization, for a document whose mentions
    /// are all accepted: the references that the body gives, or why a file
    /// could not be read.
    fn collect_references(&self, root: &String, paths: &Vec<String>, tree: &FileTree) -> (r: Result<
        TextMap<String>,
        ContextError,
    >)
        requires
            rejections(views(paths@), root@, tree@).len() == 0,
        ensures
            match first_unreadable(views(paths@), root@, tree@) {
                Some(reason) => r matches Err(ContextError::IoError(m)) && m@ == reason,
                None => r matches Ok(references) && reference_pairs(references) == fresh_references(
                    views(paths@),
                    root@,
                    tree@,
                ),
            },
    {
        let mut references: TextMap<String> = TextMap::new();
        let mut i: usize = 0;
        assert(reference_pairs(references) =~= fresh_references(views(paths@).take(0), root@, tree@));
        while i < paths.len()
            invariant
                i <= paths.len(),
                first_unreadable(views(paths@).take(i as int), root@, tree@) is None,
                reference_pairs(references) == fresh_references(views(paths@).take(i as int), root@, tree@),
            decreases paths.len() - i,
        {
            let ghost done = views(paths@).take(i as int);
            let ghost next = views(paths@).take(i + 1);
            proof {
                assert(next.drop_last() =~= done);
                assert(next.last() == paths@[i as int]@);
            }
            match validate_path(paths[i].as_str(), root.as_str(), tree) {
                Ok(key) => {
                    let full = join(root.as_str(), key.as_str());
                    match tree.lookup(full.as_str()) {
                        Some(Entry::File(bytes)) => {
                            let fingerprint = hash(bytes.as_slice());
                            let ghost earlier = references;
                            references.insert(key, fingerprint);
                            proof {
                                lemma_bind_views(earlier, references, key@, fingerprint);
                            }
                        },
                        Some(Entry::Unreadable(reason)) => {
                            proof {
                                lemma_first_unreadable_stays(views(paths@), i + 1, root@, tree@);
                            }
                            return Err(ContextError::IoError(reason.clone()));
                        },
                        _ => {},
                    }
                },
                Err(_) => {},
            }
            i += 1;
        }
        assert(views(paths@).take(i as int) =~= views(paths@));
        Ok(references)
    }

    /// The second phase of a synchronization, for a document of which the
    /// first phase refuses nothing: gives it the references of its body,
    /// each with the fingerprint of the file in `tree`, and sets `updated`
    /// to `day`. Where a file cannot be read the document stays as it was.
    pub(crate) fn commit(&mut self, tree: &FileTree, day: &str) -> (result: Result<(), ContextError>)
        requires
            prepared(old(self).path@, old(self).body@, tree@).len() == 0,
        ensures
            sync_post(*old(self), *final(self), result, tree@, day@),
    {
        let root = match self.project_root() {
            Some(r) => r,
            None => {
                return Err(ContextError::SyncError("Could not determine project root".to_owned()));
            },
        };
        let paths = extract_paths(self.body.as_str());
        match self.collect_references(&root, &paths, tree) {
            Err(error) => Err(error),
            Ok(references) => {
                self.references = references;
                self.updated = day.to_owned();
                Ok(())
            },
        }
    }

    /// Synchronizes the document on the day `day`: gives it the references
    /// of its body, each with the fingerprint of the file in `tree`, and
    /// sets `updated`. Where a mention is refused, or a file cannot be read,
    /// the document stays as it was. Storing the document is left to the
    /// caller.
    pub fn sync_on(&mut self, tree: &FileTree, day: &str) -> (result: Result<(), ContextError>)
        ensures
            sync_post(*old(self), *final(self), result, tree@, day@),
    {
        if self.project_root().is_none() {
            return Err(ContextError::SyncError("Could not determine project root".to_owned()));
        }
        let invalid = self.prepare_sync(tree);
        if invalid.len() > 0 {
            let documents = vec![(self.path.clone(), invalid)];
            return Err(ContextError::InvalidReferences { count: 1, documents });
        }
        self.commit(tree, day)
    }

    /// Synchronizes the document today. It reads the clock and does what
    /// `sync_on` does for the day that the clock gave.
    pub fn sync(&mut self, tree: &FileTree) -> (result: Result<(), ContextError>)
        ensures
            exists|day: Seq<char>| sync_post(*old(self), *final(self), result, tree@, day),
    {
        let day = today();
        let result = self.sync_on(tree, day.as_str());
        assert(sync_post(*old(self), *self, result, tree@, day@));
        result
    }

    /// How the document stands to the files it refers to, given what `tree`
    /// holds. A reference at which nothing lies is missing, and so is every
    /// reference of a document without a project root; a file with another
    /// fingerprint than the stored one has changed. A reference that is
    /// there but cannot be read ends the validation with an `IoError`.
    pub fn validate(&self, tree: &FileTree) -> (result: Result<Validation, ContextError>)
        ensures
            validation_matches(result, self@, tree@),
    {
        let root = self.project_root();
        let ghost root_view = project_root_of(self.path@);
        let ghost pairs = reference_pairs(self.references);
        let mut validation = Validation::new(self.path.clone(), Status::Valid);
        let n = self.references.len();
        let mut i: usize = 0;
        proof {
            assert(views(validation.changed@) =~= changed_references(pairs.take(0), root_view, tree@));
            assert(views(validation.missing@) =~= missing_references(pairs.take(0), root_view, tree@));
        }
        while i < n
            invariant
                i <= n,
                n == self.references@.len(),
                pairs == reference_pairs(self.references),
                root_view == project_root_of(self.path@),
                match root {
                    Some(r) => root_view == Some(r@),
                    None => root_view is None,
                },
                validation.path@ == self.path@,
                read_failure(pairs.take(i as int), root_view, tree@) is None,
                views(validation.changed@) == changed_references(pairs.take(i as int), root_view, tree@),
                views(validation.missing@) == missing_references(pairs.take(i as int), root_view, tree@),
                validation.status == status_of(views(validation.changed@), views(validation.missing@)),
            decreases n - i,
        {
            let key = self.references.key_at(i);
            let stored = self.references.value_at(i);
            let ghost changed_before = validation.changed@;
            let ghost missing_before = validation.missing@;
            proof {
                assert(pairs.take(i + 1).drop_last() =~= pairs.take(i as int));
                assert(pairs.take(i + 1).last() == (key@, stored@));
            }
            let found: Option<&Entry> = match &root {
                Some(r) => {
                    let full = join(r.as_str(), key.as_str());
                    tree.lookup(full.as_str())
                },
                None => None,
            };
            match found {
                None => {
                    validation.add_missing(key.clone());
                    validation.status = validation.status.merge(Status::Orphaned);
                    assert(views(validation.missing@) =~= views(missing_before).push(key@));
                },
                Some(Entry::File(bytes)) => {
                    let current = hash(bytes.as_slice());
                    if current != *stored {
                        validation.add_changed(key.clone());
                        validation.status = validation.status.merge(Status::Stale);
                        assert(views(validation.changed@) =~= views(changed_before).push(key@));
                    }
                },
                Some(Entry::Directory) => {
                    proof {
                        lemma_read_failure_stays(pairs, i + 1, root_view, tree@);
                    }
                    return Err(ContextError::IoError("Is a directory".to_owned()));
                },
                Some(Entry::Unreadable(reason)) => {
                    proof {
                        lemma_read_failure_stays(pairs, i + 1, root_view, tree@);
                    }
                    return Err(ContextError::IoError(reason.clone()));
                },
            }
            i += 1;
        }
        assert(pairs.take(i as int) =~= pairs);
        Ok(validation)
    }
}

/// Binding a key in a map of references binds it in the pairs of the map.
pub proof fn lemma_bind_views(before: TextMap<String>, after: TextMap<String>, key: Seq<char>, value: String)
    requires
        after@ == bind(before@, key, value),
    ensures
        reference_pairs(after) == bind(reference_pairs(before), key, value@),
{
    let was = reference_pairs(before);
    let at = position(before@, key, 0);
    lemma_position_bounds(before@, key, 0);
    assert forall|j: int| 0 <= j < at implies (#[trigger] was[j]).0 != key by {
        assert(was[j].0 == before@[j].0);
    }
    if at < before@.len() {
        assert(was[at].0 == before@[at].0);
    }
    lemma_position_is(was, key, 0, at);
    assert(reference_pairs(after) =~= bind(was, key, value@));
}

/// A failure among the first `n` references is the failure of all of them.
pub proof fn lemma_read_failure_stays(
    pairs: Seq<(Seq<char>, Seq<char>)>,
    n: int,
    root: Option<Seq<char>>,
    tree: Seq<(Seq<char>, Entry)>,
)
    requires
        0 <= n <= pairs.len(),
        read_failure(pairs.take(n), root, tree) is Some,
    ensures
        read_failure(pairs, root, tree) == read_failure(pairs.take(n), root, tree),
    decreases pairs.len() - n,
{
    if n < pairs.len() {
        assert(pairs.take(n + 1).drop_last() =~= pairs.take(n));
        lemma_read_failure_stays(pairs, n + 1, root, tree);
    } else {
        assert(pairs.take(n) =~= pairs);
    }
}

/// An unreadable file among the first `n` paths is the first of all of them.
pub proof fn lemma_first_unreadable_stays(
    paths: Seq<Seq<char>>,
    n: int,
    root: Seq<char>,
    tree: Seq<(Seq<char>, Entry)>,
)
    requires
        0 <= n <= paths.len(),
        first_unreadable(paths.take(n), root, tree) is Some,
    ensures
        first_unreadable(paths, root, tree) == first_unreadable(paths.take(n), root, tree),
    decreases paths.len() - n,
{
    if n < paths.len() {
        assert(paths.take(n + 1).drop_last() =~= paths.take(n));
        lemma_first_unreadable_stays(paths, n + 1, root, tree);
    } else {
        assert(paths.take(n) =~= paths);
    }
}

/// Each of `pairs` binds a path to the fingerprint of the file that lies
/// there in the project at `root`.
pub open spec fn up_to_date(pairs: Seq<(Seq<char>, Seq<char>)>, root: Seq<char>, tree: Seq<(Seq<char>, Entry)>) -> bool {
    forall|i: int|
        0 <= i < pairs.len() ==> (entry_at(tree, joined(root, (#[trigger] pairs[i]).0)) matches Some(
            Entry::File(bytes),
        ) && pairs[i].1 == fingerprint_of(bytes@))
}

/// The references that a synchronization gives are up to date.
pub proof fn lemma_fresh_references_up_to_date(
    paths: Seq<Seq<char>>,
    root: Seq<char>,
    tree: Seq<(Seq<char>, Entry)>,
)
    ensures
        up_to_date(fresh_references(paths, root, tree), root, tree),
    decreases paths.len(),
{
    if paths.len() > 0 {
        lemma_fresh_references_up_to_date(paths.drop_last(), root, tree);
        let before = fresh_references(paths.drop_last(), root, tree);
        let after = fresh_references(paths, root, tree);
        match validated(paths.last(), root, tree) {
            Ok(key) => match entry_at(tree, joined(root, key)) {
                Some(Entry::File(bytes)) => {
                    lemma_position_bounds(before, key, 0);
                    let at = position(before, key, 0);
                    assert forall|i: int| 0 <= i < after.len() implies (entry_at(
                        tree,
                        joined(root, (#[trigger] after[i]).0),
                    ) matches Some(Entry::File(found)) && after[i].1 == fingerprint_of(found@)) by {
                        if i != at {
                            assert(after[i] == before[i]);
                        }
                    }
                },
                _ => {},
            },
            Err(_) => {},
        }
    }
}

/// References that are up to date have not changed, are not missing, and
/// can be read.
pub proof fn lemma_up_to_date_is_valid(
    pairs: Seq<(Seq<char>, Seq<char>)>,
    root: Seq<char>,
    tree: Seq<(Seq<char>, Entry)>,
)
    requires
        up_to_date(pairs, root, tree),
    ensures
        read_failure(pairs, Some(root), tree) is None,
        changed_references(pairs, Some(root), tree).len() == 0,
        missing_references(pairs, Some(root), tree).len() == 0,
    decreases pairs.len(),
{
    if pairs.len() > 0 {
        let shorter = pairs.drop_last();
        assert forall|i: int| 0 <= i < shorter.len() implies (entry_at(
            tree,
            joined(root, (#[trigger] shorter[i]).0),
        ) matches Some(Entry::File(bytes)) && shorter[i].1 == fingerprint_of(bytes@)) by {
            assert(shorter[i] == pairs[i]);
        }
        lemma_up_to_date_is_valid(shorter, root, tree);
        assert(pairs.last() == pairs[pairs.len() - 1]);
    }
}

/// A document that was just synchronized is valid: its validation in the
/// same tree succeeds with the status `Valid` and names no reference.
pub proof fn lemma_synchronized_is_valid(
    before: Document,
    after: Document,
    tree: Seq<(Seq<char>, Entry)>,
    day: Seq<char>,
    result: Result<Validation, ContextError>,
)
    requires
        sync_post(before, after, Ok(()), tree, day),
        validation_matches(result, after@, tree),
    ensures
        result matches Ok(validation) && validation.status == Status::Valid && validation.changed@.len() == 0
            && validation.missing@.len() == 0,
{
    let root = project_root_of(before.path@).unwrap();
    lemma_fresh_references_up_to_date(scan_of(before.body@), root, tree);
    lemma_up_to_date_is_valid(after@.references, root, tree);
    let validation = result.unwrap();
    assert(views(validation.changed@).len() == validation.changed@.len());
    assert(views(validation.missing@).len() == validation.missing@.len());
}

/// Synchronizing once more changes nothing more: after a synchronization
/// that succeeded, another one in the same tree on the same day succeeds and
/// leaves every field as it is.
pub proof fn lemma_sync_twice(
    before: Document,
    once: Document,
    twice: Document,
    tree: Seq<(Seq<char>, Entry)>,
    day: Seq<char>,
    result: Result<(), ContextError>,
)
    requires
        sync_post(before, once, Ok(()), tree, day),
        sync_post(once, twice, result, tree, day),
    ensures
        result is Ok,
        twice@ == once@,
{
}

} // verus!
