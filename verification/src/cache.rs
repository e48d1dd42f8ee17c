//! The cache: all documents below one root, validated and synchronized
//! together.

use vstd::prelude::*;
use vstd::string::StringExecFns;
use crate::clock::today;
use crate::document::{
    first_unreadable, prepared, read_failure, read_locations, refusals, sync_post, validation_matches,
    Document,
};
use crate::error::{ContextError, InvalidReference};
use crate::frontmatter::{decoded_block, document_of, parse, parsed_as, split_front_matter};
use crate::location::{has_document_suffix, is_document_name, join, joined, project_root_of};
use crate::models::{FindResult, SearchResult, SyncResult, Validation};
use crate::paths::{scan_of, PathError};
use crate::text::{concat, lemma_views_push, views};
use crate::tree::{Entry, FileTree};

verus! {

/// The text of a fresh index file: an empty metadata block and no body.
pub const INDEX_TEMPLATE: &'static str = "---\nslug: index\ndescription: \"\"\nreferences: {}\nupdated: \"\"\n---\n\n";

/// What the initialization of a cache creates: directories, then files
/// with their text.
#[derive(Debug, Clone, PartialEq, Eq)]
pub struct Layout {
    /// The directories, each after those it lies in.
    pub directories: Vec<String>,
    /// The files, each with its text.
    pub files: Vec<(String, String)>,
}

/// The documents of one root.
#[derive(Debug, Clone)]
pub struct Cache {
    root: String,
    index: Option<usize>,
    guides: Option<usize>,
    references: Option<usize>,
    documents: Vec<Document>,
}

/// The files with each location and text taken by its view.
pub open spec fn file_views(files: Seq<(String, String)>) -> Seq<(Seq<char>, Seq<char>)> {
    Seq::new(files.len(), |i: int| (files[i].0@, files[i].1@))
}

/// The files of `files` that are named like documents, in order.
pub open spec fn document_files(files: Seq<(Seq<char>, Seq<char>)>) -> Seq<(Seq<char>, Seq<char>)>
    decreases files.len(),
{
    if files.len() == 0 {
        Seq::empty()
    } else {
        let before = document_files(files.drop_last());
        if is_document_name(files.last().0) {
            before.push(files.last())
        } else {
            before
        }
    }
}

/// The text of the file at `path` can be read as a document: it has no
/// metadata block, or one that is YAML and describes a document.
pub open spec fn readable(path: Seq<char>, content: Seq<char>) -> bool {
    match split_front_matter(content) {
        None => true,
        Some((_, body)) => match decoded_block(content) {
            None => false,
            Some(block) => document_of(path, block, body) is Ok,
        },
    }
}

/// The first index at or after `from` whose file cannot be read as a
/// document; the number of files where all can.
pub open spec fn first_unreadable_file(files: Seq<(Seq<char>, Seq<char>)>, from: int) -> int
    decreases files.len() - from,
{
    if from < 0 || from >= files.len() {
        files.len() as int
    } else if !readable(files[from].0, files[from].1) {
        from
    } else {
        first_unreadable_file(files, from + 1)
    }
}

/// The index of the last of `documents` that lies at `location`, if one
/// does.
pub open spec fn last_at(documents: Seq<Document>, location: Seq<char>) -> Option<usize>
    decreases documents.len(),
{
    if documents.len() == 0 {
        None
    } else if documents.last().path@ == location {
        Some((documents.len() - 1) as usize)
    } else {
        last_at(documents.drop_last(), location)
    }
}

/// The batch that `doc_path` names.
pub open spec fn scope_of(doc_path: Option<&str>) -> Option<Seq<char>> {
    match doc_path {
        Some(location) => Some(location@),
        None => None,
    }
}

/// The document belongs to the batch: every document does where `scope` is
/// `None`, else those at the location `scope`.
pub open spec fn in_scope(document: Document, scope: Option<Seq<char>>) -> bool {
    match scope {
        None => true,
        Some(location) => document.path@ == location,
    }
}

/// The documents of the batch in which the first phase finds refused
/// mentions, each with its location and its refusals, in order.
pub open spec fn batch_rejections(
    documents: Seq<Document>,
    scope: Option<Seq<char>>,
    tree: Seq<(Seq<char>, Entry)>,
) -> Seq<(Seq<char>, Seq<(Seq<char>, PathError)>)>
    decreases documents.len(),
{
    if documents.len() == 0 {
        Seq::empty()
    } else {
        let before = batch_rejections(documents.drop_last(), scope, tree);
        let last = documents.last();
        let found = prepared(last.path@, last.body@, tree);
        if in_scope(last, scope) && found.len() > 0 {
            before.push((last.path@, found))
        } else {
            before
        }
    }
}

/// Why the second phase fails for `document`, whose mentions are all
/// accepted: the reason for which the first unreadable file cannot be read.
pub open spec fn commit_failure(document: Document, tree: Seq<(Seq<char>, Entry)>) -> Option<Seq<char>> {
    match project_root_of(document.path@) {
        None => None,
        Some(root) => first_unreadable(scan_of(document.body@), root, tree),
    }
}

/// The locations of the documents of the batch that the second phase
/// synchronizes, in order.
pub open spec fn updated_paths(
    documents: Seq<Document>,
    scope: Option<Seq<char>>,
    tree: Seq<(Seq<char>, Entry)>,
) -> Seq<Seq<char>>
    decreases documents.len(),
{
    if documents.len() == 0 {
        Seq::empty()
    } else {
        let before = updated_paths(documents.drop_last(), scope, tree);
        let last = documents.last();
        if in_scope(last, scope) && commit_failure(last, tree) is None {
            before.push(last.path@)
        } else {
            before
        }
    }
}

/// The line that reports that the document at `location` failed for
/// `reason`.
pub open spec fn failure_line(location: Seq<char>, reason: Seq<char>) -> Seq<char> {
    location + ": "@ + ("I/O error: "@ + reason)
}

/// One line for each document of the batch for which the second phase
/// fails, in order.
pub open spec fn failure_lines(
    documents: Seq<Document>,
    scope: Option<Seq<char>>,
    tree: Seq<(Seq<char>, Entry)>,
) -> Seq<Seq<char>>
    decreases documents.len(),
{
    if documents.len() == 0 {
        Seq::empty()
    } else {
        let before = failure_lines(documents.drop_last(), scope, tree);
        let last = documents.last();
        if in_scope(last, scope) && commit_failure(last, tree) is Some {
            before.push(failure_line(last.path@, commit_failure(last, tree).unwrap()))
        } else {
            before
        }
    }
}

/// What the second phase makes of one document: a document of the batch
/// whose files can all be read is synchronized on `day`, any other stays as
/// it was.
pub open spec fn committed(
    before: Document,
    after: Document,
    scope: Option<Seq<char>>,
    tree: Seq<(Seq<char>, Entry)>,
    day: Seq<char>,
) -> bool {
    if in_scope(before, scope) && commit_failure(before, tree) is None {
        sync_post(before, after, Ok(()), tree, day)
    } else {
        after == before
    }
}

/// The rejections with each text taken by its view.
pub open spec fn rejection_views(documents: Seq<(String, Vec<InvalidReference>)>) -> Seq<
    (Seq<char>, Seq<(Seq<char>, PathError)>),
> {
    Seq::new(documents.len(), |i: int| (documents[i].0@, refusals(documents[i].1@)))
}

/// What a synchronization of the batch `scope` on the day `day` makes of
/// the documents `before`.
///
/// Where the first phase refuses a mention of any document of the batch,
/// the synchronization fails with all the refusals and every document stays
/// as it was. Else each document of the batch is synchronized in turn; one
/// whose file cannot be read stays as it was and is reported as failed,
/// while the others are synchronized all the same.
pub open spec fn batch_post(
    before: Seq<Document>,
    after: Seq<Document>,
    result: Result<SyncResult, ContextError>,
    scope: Option<Seq<char>>,
    tree: Seq<(Seq<char>, Entry)>,
    day: Seq<char>,
) -> bool {
    let rejected = batch_rejections(before, scope, tree);
    if rejected.len() > 0 {
        &&& result matches Err(ContextError::InvalidReferences { count, documents })
        &&& count == rejected.len()
        &&& rejection_views(documents@) == rejected
        &&& after == before
    } else {
        &&& result matches Ok(outcome)
        &&& outcome.count == outcome.updated@.len()
        &&& views(outcome.updated@) == updated_paths(before, scope, tree)
        &&& views(outcome.failed@) == failure_lines(before, scope, tree)
        &&& after.len() == before.len()
        &&& forall|k: int| 0 <= k < before.len() ==> committed(before[k], #[trigger] after[k], scope, tree, day)
    }
}

/// The first index at or after `from` whose document has a reference that
/// is there but cannot be read; the number of documents where none has.
pub open spec fn first_failing(documents: Seq<Document>, tree: Seq<(Seq<char>, Entry)>, from: int) -> int
    decreases documents.len() - from,
{
    if from < 0 || from >= documents.len() {
        documents.len() as int
    } else if read_failure(
        documents[from]@.references,
        project_root_of(documents[from]@.path),
        tree,
    ) is Some {
        from
    } else {
        first_failing(documents, tree, from + 1)
    }
}

/// `result` holds the validations of `documents`, in order, or the error of
/// the first document whose validation fails.
pub open spec fn validations_match(
    result: Result<Vec<Validation>, ContextError>,
    documents: Seq<Document>,
    tree: Seq<(Seq<char>, Entry)>,
) -> bool {
    let failing = first_failing(documents, tree, 0);
    if failing < documents.len() {
        result matches Err(error) && validation_matches(
            Err::<Validation, ContextError>(error),
            documents[failing]@,
            tree,
        )
    } else {
        &&& result matches Ok(validations)
        &&& validations@.len() == documents.len()
        &&& forall|k: int|
            0 <= k < documents.len() ==> validation_matches(
                Ok::<Validation, ContextError>(#[trigger] validations@[k]),
                documents[k]@,
                tree,
            )
    }
}

/// The first index at or after `from` whose document lies at `location`;
/// the number of documents where none does.
pub open spec fn first_at(documents: Seq<Document>, location: Seq<char>, from: int) -> int
    decreases documents.len() - from,
{
    if from < 0 || from >= documents.len() {
        documents.len() as int
    } else if documents[from].path@ == location {
        from
    } else {
        first_at(documents, location, from + 1)
    }
}

/// The first index at or after `from` whose document lies at `given` or at
/// `given` below `root`; the number of documents where none does.
pub open spec fn first_named(documents: Seq<Document>, root: Seq<char>, given: Seq<char>, from: int) -> int
    decreases documents.len() - from,
{
    if from < 0 || from >= documents.len() {
        documents.len() as int
    } else if documents[from].path@ == given || documents[from].path@ == joined(root, given) {
        from
    } else {
        first_named(documents, root, given, from + 1)
    }
}

/// The locations that the validations and synchronizations of `documents`
/// read, document by document.
pub open spec fn all_read_locations(documents: Seq<Document>) -> Seq<Seq<char>>
    decreases documents.len(),
{
    if documents.len() == 0 {
        Seq::empty()
    } else {
        all_read_locations(documents.drop_last()) + read_locations(documents.last()@)
    }
}

/// The first document at `location` is the one before which none lies
/// there.
pub proof fn lemma_first_at_is(documents: Seq<Document>, location: Seq<char>, from: int, at: int)
    requires
        0 <= from <= at <= documents.len(),
        forall|j: int| from <= j < at ==> (#[trigger] documents[j]).path@ != location,
        at < documents.len() ==> documents[at].path@ == location,
    ensures
        first_at(documents, location, from) == at,
    decreases at - from,
{
    if from < at {
        lemma_first_at_is(documents, location, from + 1, at);
    }
}

/// The first document that `given` names is the one before which it names
/// none.
pub proof fn lemma_first_named_is(documents: Seq<Document>, root: Seq<char>, given: Seq<char>, from: int, at: int)
    requires
        0 <= from <= at <= documents.len(),
        forall|j: int|
            from <= j < at ==> (#[trigger] documents[j]).path@ != given && documents[j].path@ != joined(
                root,
                given,
            ),
        at < documents.len() ==> documents[at].path@ == given || documents[at].path@ == joined(root, given),
    ensures
        first_named(documents, root, given, from) == at,
    decreases at - from,
{
    if from < at {
        lemma_first_named_is(documents, root, given, from + 1, at);
    }
}

/// The first document whose validation fails is the one before which none
/// fails.
pub proof fn lemma_first_failing_is(documents: Seq<Document>, tree: Seq<(Seq<char>, Entry)>, from: int, at: int)
    requires
        0 <= from <= at <= documents.len(),
        forall|j: int|
            from <= j < at ==> read_failure(
                (#[trigger] documents[j])@.references,
                project_root_of(documents[j]@.path),
                tree,
            ) is None,
        at < documents.len() ==> read_failure(
            documents[at]@.references,
            project_root_of(documents[at]@.path),
            tree,
        ) is Some,
    ensures
        first_failing(documents, tree, from) == at,
    decreases at - from,
{
    if from < at {
        lemma_first_failing_is(documents, tree, from + 1, at);
    }
}

/// The first file that cannot be read as a document is the one before
/// which all can.
pub proof fn lemma_first_unreadable_file_is(files: Seq<(Seq<char>, Seq<char>)>, from: int, at: int)
    requires
        0 <= from <= at <= files.len(),
        forall|j: int| from <= j < at ==> readable((#[trigger] files[j]).0, files[j].1),
        at < files.len() ==> !readable(files[at].0, files[at].1),
    ensures
        first_unreadable_file(files, from) == at,
    decreases at - from,
{
    if from < at {
        lemma_first_unreadable_file_is(files, from + 1, at);
    }
}

/// Where the first phase refuses nothing, it refuses nothing of any
/// document of the batch.
pub proof fn lemma_no_rejections(
    documents: Seq<Document>,
    scope: Option<Seq<char>>,
    tree: Seq<(Seq<char>, Entry)>,
    k: int,
)
    requires
        batch_rejections(documents, scope, tree).len() == 0,
        0 <= k < documents.len(),
        in_scope(documents[k], scope),
    ensures
        prepared(documents[k].path@, documents[k].body@, tree).len() == 0,
    decreases documents.len(),
{
    if k < documents.len() - 1 {
        lemma_no_rejections(documents.drop_last(), scope, tree, k);
    }
}

impl Cache {
    /// The root of the cache.
    pub closed spec fn root_view(&self) -> Seq<char> {
        self.root@
    }

    /// The documents of the cache, in the order in which they were loaded.
    pub closed spec fn documents_view(&self) -> Seq<Document> {
        self.documents@
    }

    /// Where the root's index file stands among the documents.
    pub closed spec fn index_position(&self) -> Option<usize> {
        self.index
    }

    /// Where the index file of the guides stands among the documents.
    pub closed spec fn guides_position(&self) -> Option<usize> {
        self.guides
    }

    /// Where the index file of the references stands among the documents.
    pub closed spec fn references_position(&self) -> Option<usize> {
        self.references
    }

    /// An empty cache for the directory `root`.
    pub fn create(root: String) -> (result: Result<Self, ContextError>)
        ensures
            result matches Ok(cache) && cache.root_view() == root@ && cache.documents_view().len() == 0
                && cache.index_position() is None && cache.guides_position() is None
                && cache.references_position() is None,
    {
        Ok(Cache { root, index: None, guides: None, references: None, documents: Vec::new() })
    }

    /// An empty cache for the directory `root`, with what is to be created
    /// on disk for it: the root and its directories `guides` and
    /// `references`, and an index file with the template's text in each of
    /// the three.
    pub fn init(root: String) -> (made: (Self, Layout))
        ensures
            made.0.root_view() == root@,
            made.0.documents_view().len() == 0,
            made.0.index_position() is None,
            made.0.guides_position() is None,
            made.0.references_position() is None,
            views(made.1.directories@) == seq![root@, joined(root@, "guides"@), joined(root@, "references"@)],
            file_views(made.1.files@) == seq![
                (joined(root@, "index.md"@), INDEX_TEMPLATE@),
                (joined(root@, "guides/index.md"@), INDEX_TEMPLATE@),
                (joined(root@, "references/index.md"@), INDEX_TEMPLATE@),
            ],
    {
        let mut directories: Vec<String> = Vec::new();
        directories.push(root.clone());
        directories.push(join(root.as_str(), "guides"));
        directories.push(join(root.as_str(), "references"));
        let mut files: Vec<(String, String)> = Vec::new();
        files.push((join(root.as_str(), "index.md"), INDEX_TEMPLATE.to_owned()));
        files.push((join(root.as_str(), "guides/index.md"), INDEX_TEMPLATE.to_owned()));
        files.push((join(root.as_str(), "references/index.md"), INDEX_TEMPLATE.to_owned()));
        proof {
            assert(views(directories@) =~= seq![root@, joined(root@, "guides"@), joined(root@, "references"@)]);
            assert(file_views(files@) =~= seq![
                (joined(root@, "index.md"@), INDEX_TEMPLATE@),
                (joined(root@, "guides/index.md"@), INDEX_TEMPLATE@),
                (joined(root@, "references/index.md"@), INDEX_TEMPLATE@),
            ]);
        }
        let cache = Cache { root, index: None, guides: None, references: None, documents: Vec::new() };
        (cache, Layout { directories, files })
    }

    /// The root of the cache.
    pub fn root(&self) -> (root: &String)
        ensures
            root@ == self.root_view(),
    {
        &self.root
    }

    /// The documents of the cache.
    pub fn documents(&self) -> (documents: &Vec<Document>)
        ensures
            documents@ == self.documents_view(),
    {
        &self.documents
    }

    /// The document at `position`, where there is one.
    fn document_at(&self, position: Option<usize>) -> (document: Option<&Document>)
        ensures
            match document {
                Some(found) => position is Some && position.unwrap() < self.documents_view().len() && *found
                    == self.documents_view()[position.unwrap() as int],
                None => position is None || position.unwrap() >= self.documents_view().len(),
            },
    {
        match position {
            Some(at) => if at < self.documents.len() {
                Some(&self.documents[at])
            } else {
                None
            },
            None => None,
        }
    }

    /// The root's index file, where it was loaded.
    pub fn index(&self) -> (document: Option<&Document>)
        ensures
            match document {
                Some(found) => self.index_position() is Some && self.index_position().unwrap()
                    < self.documents_view().len() && *found == self.documents_view()[self.index_position().unwrap() as int],
                None => self.index_position() is None || self.index_position().unwrap()
                    >= self.documents_view().len(),
            },
    {
        self.document_at(self.index)
    }

    /// The index file of the guides, where it was loaded.
    pub fn guides(&self) -> (document: Option<&Document>)
        ensures
            match document {
                Some(found) => self.guides_position() is Some && self.guides_position().unwrap()
                    < self.documents_view().len() && *found == self.documents_view()[self.guides_position().unwrap() as int],
                None => self.guides_position() is None || self.guides_position().unwrap()
                    >= self.documents_view().len(),
            },
    {
        self.document_at(self.guides)
    }

    /// The index file of the references, where it was loaded.
    pub fn references(&self) -> (document: Option<&Document>)
        ensures
            match document {
                Some(found) => self.references_position() is Some && self.references_position().unwrap()
                    < self.documents_view().len() && *found
                    == self.documents_view()[self.references_position().unwrap() as int],
                None => self.references_position() is None || self.references_position().unwrap()
                    >= self.documents_view().len(),
            },
    {
        self.document_at(self.references)
    }

    /// Replaces the documents of the cache by those of `files`: the files
    /// found below the root, each with its location and its text, in the
    /// order in which they were found. Only the files named like documents
    /// count. Where one of them cannot be read as a document, the load fails
    /// with its error and the cache is left empty.
    pub fn load(&mut self, files: Vec<(String, String)>) -> (result: Result<(), ContextError>)
        ensures
            final(self).root_view() == old(self).root_view(),
            ({
                let sources = document_files(file_views(files@));
                let failing = first_unreadable_file(sources, 0);
                let loaded = final(self).documents_view();
                if failing < sources.len() {
                    &&& result matches Err(error)
                    &&& parsed_as(
                        Err::<Document, ContextError>(error),
                        sources[failing].0,
                        sources[failing].1,
                        decoded_block(sources[failing].1),
                    )
                    &&& loaded.len() == 0
                    &&& final(self).index_position() is None
                    &&& final(self).guides_position() is None
                    &&& final(self).references_position() is None
                } else {
                    &&& result is Ok
                    &&& loaded.len() == sources.len()
                    &&& forall|k: int|
                        0 <= k < sources.len() ==> parsed_as(
                            Ok::<Document, ContextError>(#[trigger] loaded[k]),
                            sources[k].0,
                            sources[k].1,
                            decoded_block(sources[k].1),
                        )
                    &&& final(self).index_position() == last_at(loaded, joined(final(self).root_view(), "index.md"@))
                    &&& final(self).guides_position() == last_at(
                        loaded,
                        joined(final(self).root_view(), "guides/index.md"@),
                    )
                    &&& final(self).references_position() == last_at(
                        loaded,
                        joined(final(self).root_view(), "references/index.md"@),
                    )
                }
            }),
    {
        self.documents = Vec::new();
        self.index = None;
        self.guides = None;
        self.references = None;
        let index_path = join(self.root.as_str(), "index.md");
        let guides_path = join(self.root.as_str(), "guides/index.md");
        let references_path = join(self.root.as_str(), "references/index.md");
        let ghost all = file_views(files@);
        let mut documents: Vec<Document> = Vec::new();
        let mut index: Option<usize> = None;
        let mut guides: Option<usize> = None;
        let mut references: Option<usize> = None;
        let mut i: usize = 0;
        assert(all.take(0) =~= Seq::<(Seq<char>, Seq<char>)>::empty());
        while i < files.len()
            invariant
                i <= files.len(),
                all == file_views(files@),
                self.root_view() == old(self).root_view(),
                self.documents_view().len() == 0,
                self.index_position() is None,
                self.guides_position() is None,
                self.references_position() is None,
                index_path@ == joined(self.root_view(), "index.md"@),
                guides_path@ == joined(self.root_view(), "guides/index.md"@),
                references_path@ == joined(self.root_view(), "references/index.md"@),
                documents@.len() == document_files(all.take(i as int)).len(),
                forall|j: int|
                    0 <= j < documents@.len() ==> readable(
                        (#[trigger] document_files(all.take(i as int))[j]).0,
                        document_files(all.take(i as int))[j].1,
                    ),
                forall|k: int|
                    0 <= k < documents@.len() ==> parsed_as(
                        Ok::<Document, ContextError>(#[trigger] documents@[k]),
                        document_files(all.take(i as int))[k].0,
                        document_files(all.take(i as int))[k].1,
                        decoded_block(document_files(all.take(i as int))[k].1),
                    ),
                index == last_at(documents@, index_path@),
                guides == last_at(documents@, guides_path@),
                references == last_at(documents@, references_path@),
            decreases files.len() - i,
        {
            let ghost before = document_files(all.take(i as int));
            proof {
                assert(all.take(i + 1).drop_last() =~= all.take(i as int));
                assert(all.take(i + 1).last() == (files@[i as int].0@, files@[i as int].1@));
            }
            if has_document_suffix(files[i].0.as_str()) {
                let ghost now = document_files(all.take(i + 1));
                assert(now == before.push((files@[i as int].0@, files@[i as int].1@)));
                match parse(files[i].0.clone(), files[i].1.as_str()) {
                    Err(error) => {
                        proof {
                            let sources = document_files(all);
                            lemma_document_files_prefix(all, i + 1);
                            assert forall|j: int| 0 <= j < before.len() implies readable(
                                (#[trigger] sources[j]).0,
                                sources[j].1,
                            ) by {
                                assert(sources[j] == now[j]);
                                assert(now[j] == before[j]);
                            }
                            assert(sources[before.len() as int] == now[before.len() as int]);
                            lemma_first_unreadable_file_is(sources, 0, before.len() as int);
                        }
                        return Err(error);
                    },
                    Ok(document) => {
                        let ghost earlier = documents@;
                        let at = documents.len();
                        if document.path == index_path {
                            index = Some(at);
                        } else if document.path == guides_path {
                            guides = Some(at);
                        } else if document.path == references_path {
                            references = Some(at);
                        }
                        proof {
                            reveal_strlit("index.md");
                            reveal_strlit("guides/index.md");
                            reveal_strlit("references/index.md");
                            lemma_joined_differ(self.root_view(), "index.md"@, "guides/index.md"@);
                            lemma_joined_differ(self.root_view(), "index.md"@, "references/index.md"@);
                            lemma_joined_differ(self.root_view(), "guides/index.md"@, "references/index.md"@);
                        }
                        documents.push(document);
                        proof {
                            assert(documents@.drop_last() =~= earlier);
                            assert forall|k: int| 0 <= k < documents@.len() implies parsed_as(
                                Ok::<Document, ContextError>(#[trigger] documents@[k]),
                                now[k].0,
                                now[k].1,
                                decoded_block(now[k].1),
                            ) by {
                                if k < earlier.len() {
                                    assert(documents@[k] == earlier[k]);
                                    assert(now[k] == before[k]);
                                }
                            }
                            assert forall|j: int| 0 <= j < documents@.len() implies readable(
                                (#[trigger] now[j]).0,
                                now[j].1,
                            ) by {
                                if j < earlier.len() {
                                    assert(now[j] == before[j]);
                                }
                            }
                        }
                    },
                }
            }
            i += 1;
        }
        proof {
            assert(all.take(i as int) =~= all);
            lemma_first_unreadable_file_is(document_files(all), 0, document_files(all).len() as int);
        }
        self.documents = documents;
        self.index = index;
        self.guides = guides;
        self.references = references;
        Ok(())
    }

    /// The validation of every document, in order, given what `tree` holds;
    /// or the error of the first document whose validation fails.
    pub fn status(&self, tree: &FileTree) -> (result: Result<Vec<Validation>, ContextError>)
        ensures
            validations_match(result, self.documents_view(), tree@),
    {
        let mut validations: Vec<Validation> = Vec::new();
        let mut k: usize = 0;
        while k < self.documents.len()
            invariant
                k <= self.documents.len(),
                validations@.len() == k,
                forall|j: int|
                    0 <= j < k ==> read_failure(
                        (#[trigger] self.documents@[j])@.references,
                        project_root_of(self.documents@[j]@.path),
                        tree@,
                    ) is None,
                forall|j: int|
                    0 <= j < k ==> validation_matches(
                        Ok::<Validation, ContextError>(#[trigger] validations@[j]),
                        self.documents@[j]@,
                        tree@,
                    ),
            decreases self.documents.len() - k,
        {
            match self.documents[k].validate(tree) {
                Err(error) => {
                    proof {
                        lemma_first_failing_is(self.documents@, tree@, 0, k as int);
                    }
                    return Err(error);
                },
                Ok(validation) => {
                    let ghost earlier = validations@;
                    validations.push(validation);
                    proof {
                        assert forall|j: int| 0 <= j < k + 1 implies validation_matches(
                            Ok::<Validation, ContextError>(#[trigger] validations@[j]),
                            self.documents@[j]@,
                            tree@,
                        ) by {
                            if j < k {
                                assert(validations@[j] == earlier[j]);
                            }
                        }
                    }
                },
            }
            k += 1;
        }
        proof {
            lemma_first_failing_is(self.documents@, tree@, 0, k as int);
        }
        Ok(validations)
    }

    /// The documents that match `query`. The cache does not search yet: the
    /// answer is empty.
    pub fn search(&self, _query: &str) -> (result: Result<Vec<SearchResult>, ContextError>)
        ensures
            result matches Ok(found) && found@.len() == 0,
    {
        Ok(Vec::new())
    }

    /// The documents that refer to the given source files. The cache does
    /// not find them yet: the answer is empty.
    pub fn find(&self, _references: &[&str]) -> (result: Result<Vec<FindResult>, ContextError>)
        ensures
            result matches Ok(found) && found@.len() == 0,
    {
        Ok(Vec::new())
    }

    /// The index of the first document at `location`, or the number of
    /// documents.
    fn position_of(&self, location: &String) -> (at: usize)
        ensures
            at == first_at(self.documents_view(), location@, 0),
            at <= self.documents_view().len(),
    {
        let mut at: usize = 0;
        while at < self.documents.len() && !(self.documents[at].path == *location)
            invariant
                at <= self.documents.len(),
                forall|j: int| 0 <= j < at ==> (#[trigger] self.documents@[j]).path@ != location@,
            decreases self.documents.len() - at,
        {
            at += 1;
        }
        proof {
            lemma_first_at_is(self.documents@, location@, 0, at as int);
        }
        at
    }

    /// The validation of the document at `path`, or of every document where
    /// `path` is `None`. Where no document lies at `path`, the error says so.
    pub fn validate(&self, path: Option<&str>, tree: &FileTree) -> (result: Result<Vec<Validation>, ContextError>)
        ensures
            match path {
                None => validations_match(result, self.documents_view(), tree@),
                Some(location) => {
                    let at = first_at(self.documents_view(), location@, 0);
                    if at < self.documents_view().len() {
                        match result {
                            Ok(validations) => validations@.len() == 1 && validation_matches(
                                Ok::<Validation, ContextError>(validations@[0]),
                                self.documents_view()[at]@,
                                tree@,
                            ),
                            Err(error) => validation_matches(
                                Err::<Validation, ContextError>(error),
                                self.documents_view()[at]@,
                                tree@,
                            ),
                        }
                    } else {
                        result matches Err(ContextError::DocumentNotFound(m)) && m@ == location@
                    }
                },
            },
    {
        match path {
            Some(location) => {
                let wanted = location.to_owned();
                let at = self.position_of(&wanted);
                if at < self.documents.len() {
                    match self.documents[at].validate(tree) {
                        Ok(validation) => Ok(vec![validation]),
                        Err(error) => Err(error),
                    }
                } else {
                    Err(ContextError::DocumentNotFound(wanted))
                }
            },
            None => self.status(tree),
        }
    }

    /// The location of the loaded document that `path` names: as it is
    /// written or below the root of the cache.
    pub fn resolve_doc_path(&self, path: &str) -> (result: Result<String, ContextError>)
        ensures
            ({
                let at = first_named(self.documents_view(), self.root_view(), path@, 0);
                if at < self.documents_view().len() {
                    result matches Ok(location) && location@ == self.documents_view()[at].path@
                } else {
                    result matches Err(ContextError::DocumentNotFound(m)) && m@ == path@
                }
            }),
    {
        let given = path.to_owned();
        let below = join(self.root.as_str(), path);
        let mut at: usize = 0;
        while at < self.documents.len() && !(self.documents[at].path == given || self.documents[at].path
            == below)
            invariant
                at <= self.documents.len(),
                given@ == path@,
                below@ == joined(self.root@, path@),
                forall|j: int|
                    0 <= j < at ==> (#[trigger] self.documents@[j]).path@ != path@ && self.documents@[j].path@
                        != joined(self.root@, path@),
            decreases self.documents.len() - at,
        {
            at += 1;
        }
        proof {
            lemma_first_named_is(self.documents@, self.root@, path@, 0, at as int);
        }
        if at < self.documents.len() {
            Ok(self.documents[at].path.clone())
        } else {
            Err(ContextError::DocumentNotFound(given))
        }
    }

    /// The locations whose state the validations and synchronizations of the
    /// documents read, document by document.
    pub fn locations_read(&self) -> (locations: Vec<String>)
        ensures
            views(locations@) == all_read_locations(self.documents_view()),
    {
        let mut locations: Vec<String> = Vec::new();
        let mut k: usize = 0;
        assert(views(locations@) =~= all_read_locations(self.documents@.take(0)));
        while k < self.documents.len()
            invariant
                k <= self.documents.len(),
                views(locations@) == all_read_locations(self.documents@.take(k as int)),
            decreases self.documents.len() - k,
        {
            proof {
                assert(self.documents@.take(k + 1).drop_last() =~= self.documents@.take(k as int));
                assert(self.documents@.take(k + 1).last() == self.documents@[k as int]);
            }
            let ghost start = views(locations@);
            let more = self.documents[k].locations_read();
            let mut j: usize = 0;
            while j < more.len()
                invariant
                    j <= more.len(),
                    views(locations@) =~= start + views(more@).take(j as int),
                decreases more.len() - j,
            {
                let ghost earlier = locations@;
                locations.push(more[j].clone());
                proof {
                    lemma_views_push(earlier, more@[j as int]);
                    assert((start + views(more@).take(j as int)).push(more@[j as int]@) =~= start + views(
                        more@,
                    ).take(j + 1));
                }
                j += 1;
            }
            assert(views(more@).take(j as int) =~= views(more@));
            k += 1;
        }
        assert(self.documents@.take(k as int) =~= self.documents@);
        locations
    }

    /// Synchronizes, on the day `day`, the document at `doc_path`, or every
    /// document where `doc_path` is `None`, given what `tree` holds. The
    /// batch is refused as a whole where a mention of one of its documents is
    /// refused: then no document changes.
    pub fn sync_on(&mut self, doc_path: Option<&str>, tree: &FileTree, day: &str) -> (result: Result<
        SyncResult,
        ContextError,
    >)
        ensures
            final(self).root_view() == old(self).root_view(),
            final(self).index_position() == old(self).index_position(),
            final(self).guides_position() == old(self).guides_position(),
            final(self).references_position() == old(self).references_position(),
            batch_post(
                old(self).documents_view(),
                final(self).documents_view(),
                result,
                scope_of(doc_path),
                tree@,
                day@,
            ),
    {
        let scope: Option<String> = match doc_path {
            Some(location) => Some(location.to_owned()),
            None => None,
        };
        let ghost wanted: Option<Seq<char>> = scope_of(doc_path);
        let ghost before = self.documents@;
        let n = self.documents.len();
        let mut rejected: Vec<(String, Vec<InvalidReference>)> = Vec::new();
        let mut k: usize = 0;
        assert(rejection_views(rejected@) =~= batch_rejections(before.take(0), wanted, tree@));
        while k < n
            invariant
                k <= n,
                n == self.documents.len(),
                self.documents@ == before,
                match scope {
                    Some(location) => wanted == Some(location@),
                    None => wanted is None,
                },
                rejection_views(rejected@) == batch_rejections(before.take(k as int), wanted, tree@),
            decreases n - k,
        {
            proof {
                assert(before.take(k + 1).drop_last() =~= before.take(k as int));
                assert(before.take(k + 1).last() == before[k as int]);
            }
            let belongs = match &scope {
                Some(location) => self.documents[k].path == *location,
                None => true,
            };
            if belongs {
                let invalid = self.documents[k].prepare_sync(tree);
                if invalid.len() > 0 {
                    let ghost earlier = rejected@;
                    let location = self.documents[k].path.clone();
                    rejected.push((location, invalid));
                    assert(rejection_views(rejected@) =~= rejection_views(earlier).push(
                        (before[k as int].path@, refusals(invalid@)),
                    ));
                }
            }
            k += 1;
        }
        assert(before.take(k as int) =~= before);
        if rejected.len() > 0 {
            return Err(ContextError::InvalidReferences { count: rejected.len(), documents: rejected });
        }
        let mut outcome = SyncResult::new();
        let mut k: usize = 0;
        proof {
            assert(views(outcome.updated@) =~= updated_paths(before.take(0), wanted, tree@));
            assert(views(outcome.failed@) =~= failure_lines(before.take(0), wanted, tree@));
        }
        while k < n
            invariant
                k <= n,
                n == self.documents.len(),
                n == before.len(),
                self.root_view() == old(self).root_view(),
                self.index_position() == old(self).index_position(),
                self.guides_position() == old(self).guides_position(),
                self.references_position() == old(self).references_position(),
                before == old(self).documents_view(),
                batch_rejections(before, wanted, tree@).len() == 0,
                match scope {
                    Some(location) => wanted == Some(location@),
                    None => wanted is None,
                },
                outcome.count == outcome.updated@.len(),
                outcome.updated@.len() <= k,
                views(outcome.updated@) == updated_paths(before.take(k as int), wanted, tree@),
                views(outcome.failed@) == failure_lines(before.take(k as int), wanted, tree@),
                forall|j: int| k <= j < n ==> self.documents@[j] == before[j],
                forall|j: int|
                    0 <= j < k ==> committed(before[j], #[trigger] self.documents@[j], wanted, tree@, day@),
            decreases n - k,
        {
            proof {
                assert(before.take(k + 1).drop_last() =~= before.take(k as int));
                assert(before.take(k + 1).last() == before[k as int]);
            }
            let belongs = match &scope {
                Some(location) => self.documents[k].path == *location,
                None => true,
            };
            if belongs {
                proof {
                    lemma_no_rejections(before, wanted, tree@, k as int);
                }
                let done = self.documents[k].commit(tree, day);
                let location = self.documents[k].path.clone();
                match done {
                    Ok(()) => {
                        let ghost earlier = outcome.updated@;
                        outcome.count = outcome.count + 1;
                        outcome.updated.push(location);
                        proof {
                            lemma_views_push(earlier, location);
                        }
                    },
                    Err(error) => {
                        let ghost earlier = outcome.failed@;
                        let mut line = concat(location.as_str(), ": ");
                        line.append(error.message().as_str());
                        outcome.failed.push(line);
                        proof {
                            lemma_views_push(earlier, line);
                            assert(line@ =~= failure_line(
                                before[k as int].path@,
                                commit_failure(before[k as int], tree@).unwrap(),
                            ));
                        }
                    },
                }
            }
            k += 1;
        }
        assert(before.take(k as int) =~= before);
        Ok(outcome)
    }

    /// Synchronizes today the document at `doc_path`, or every document
    /// where `doc_path` is `None`. It reads the clock and does what `sync_on`
    /// does for the day that the clock gave.
    pub fn sync(&mut self, doc_path: Option<&str>, tree: &FileTree) -> (result: Result<SyncResult, ContextError>)
        ensures
            final(self).root_view() == old(self).root_view(),
            final(self).index_position() == old(self).index_position(),
            final(self).guides_position() == old(self).guides_position(),
            final(self).references_position() == old(self).references_position(),
            exists|day: Seq<char>|
                #[trigger] batch_post(
                    old(self).documents_view(),
                    final(self).documents_view(),
                    result,
                    scope_of(doc_path),
                    tree@,
                    day,
                ),
    {
        let day = today();
        let result = self.sync_on(doc_path, tree, day.as_str());
        assert(batch_post(
            old(self).documents_view(),
            self.documents_view(),
            result,
            scope_of(doc_path),
            tree@,
            day@,
        ));
        result
    }
}

/// The documents among the first `n` files are the first documents among
/// all files.
pub proof fn lemma_document_files_prefix(files: Seq<(Seq<char>, Seq<char>)>, n: int)
    requires
        0 <= n <= files.len(),
    ensures
        document_files(files.take(n)).len() <= document_files(files).len(),
        forall|j: int|
            0 <= j < document_files(files.take(n)).len() ==> document_files(files)[j] == document_files(
                files.take(n),
            )[j],
    decreases files.len() - n,
{
    if n < files.len() {
        assert(files.take(n + 1).drop_last() =~= files.take(n));
        lemma_document_files_prefix(files, n + 1);
    } else {
        assert(files.take(n) =~= files);
    }
}

/// Two different names below one root are two different locations.
pub proof fn lemma_joined_differ(root: Seq<char>, first: Seq<char>, second: Seq<char>)
    requires
        first != second,
        first.len() > 0 && first[0] != '/',
        second.len() > 0 && second[0] != '/',
    ensures
        joined(root, first) != joined(root, second),
{
    let a = joined(root, first);
    let b = joined(root, second);
    if a == b {
        let prefix = if root.len() == 0 || root.last() == '/' {
            root
        } else {
            root + seq!['/']
        };
        assert(a =~= prefix + first);
        assert(b =~= prefix + second);
        assert(first =~= a.skip(prefix.len() as int));
        assert(second =~= b.skip(prefix.len() as int));
    }
}

} // verus!
