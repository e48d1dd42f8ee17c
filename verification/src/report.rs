//! The answers of the cache as plain text, line by line, as the program
//! shows them.

use vstd::prelude::*;
use vstd::string::StringExecFns;
use crate::error::InvalidReference;
use crate::models::{FindResult, SearchResult, Status, SyncResult, Validation};
use crate::text::{concat, decimal, decimal_text, views};

verus! {

/// The items in a row, with `separator` between each two.
pub open spec fn separated(items: Seq<Seq<char>>, separator: Seq<char>) -> Seq<char>
    decreases items.len(),
{
    if items.len() == 0 {
        Seq::empty()
    } else if items.len() == 1 {
        items[0]
    } else {
        separated(items.drop_last(), separator) + separator + items.last()
    }
}

/// One line for each item: `prefix`, the item, and a line feed.
pub open spec fn listed(items: Seq<Seq<char>>, prefix: Seq<char>) -> Seq<char>
    decreases items.len(),
{
    if items.len() == 0 {
        Seq::empty()
    } else {
        listed(items.drop_last(), prefix) + (prefix + items.last() + "\n"@)
    }
}

/// `heading` on a line of its own followed by one line for each item; nothing
/// where there is no item.
pub open spec fn section(heading: Seq<char>, items: Seq<Seq<char>>, prefix: Seq<char>) -> Seq<char> {
    if items.len() == 0 {
        Seq::empty()
    } else {
        heading + "\n"@ + listed(items, prefix)
    }
}

/// `label`, the items in a row between commas, and a line feed; nothing where
/// there is no item.
pub open spec fn row(label: Seq<char>, items: Seq<Seq<char>>) -> Seq<char> {
    if items.len() == 0 {
        Seq::empty()
    } else {
        label + separated(items, ", "@) + "\n"@
    }
}

/// The lines that show the status of one document: its status and location,
/// then the changed and the missing references, each kind in a row.
pub open spec fn status_entry(validation: Validation) -> Seq<char> {
    validation.status.label_spec() + " "@ + validation.path@ + "\n"@ + row(
        "               changed: "@,
        views(validation.changed@),
    ) + row("               missing: "@, views(validation.missing@))
}

/// The status in capitals behind its sign.
pub open spec fn verdict(status: Status) -> Seq<char> {
    match status {
        Status::Valid => "✓ VALID"@,
        Status::Stale => "⚠ STALE"@,
        Status::Orphaned => "✗ ORPHANED"@,
    }
}

/// The lines that show the validation of one document: its verdict and
/// location, then the changed and the missing files, one on each line.
pub open spec fn validation_entry(validation: Validation) -> Seq<char> {
    verdict(validation.status) + " "@ + validation.path@ + "\n"@ + section(
        "  Changed files:"@,
        views(validation.changed@),
        "    - "@,
    ) + section("  Missing files:"@, views(validation.missing@), "    - "@)
}

/// The lines that show one search result.
pub open spec fn search_entry(result: SearchResult) -> Seq<char> {
    result.path@ + "\n"@ + ("  "@ + result.description@ + "\n"@) + match result.snippet {
        Some(snippet) => "  "@ + snippet@ + "\n"@,
        None => Seq::empty(),
    }
}

/// The lines that show one find result.
pub open spec fn find_entry(result: FindResult) -> Seq<char> {
    result.path@ + "\n"@ + ("  "@ + result.description@ + "\n"@) + ("  references: "@ + separated(
        views(result.references@),
        ", "@,
    ) + "\n"@)
}

/// The lines that show the outcome of a synchronization.
pub open spec fn sync_lines(outcome: SyncResult) -> Seq<char> {
    "Synced "@ + decimal_text(outcome.count as nat) + " documents\n"@ + section(
        "Updated:"@,
        views(outcome.updated@),
        "  "@,
    ) + section("Failed:"@, views(outcome.failed@), "  "@)
}

/// The line that shows one refused mention.
pub open spec fn refusal_line(invalid: InvalidReference) -> Seq<char> {
    "    - `"@ + invalid.path@ + "`: "@ + invalid.reason.message_spec() + "\n"@
}

/// One line for each refused mention.
pub open spec fn refusal_lines(invalid: Seq<InvalidReference>) -> Seq<char>
    decreases invalid.len(),
{
    if invalid.len() == 0 {
        Seq::empty()
    } else {
        refusal_lines(invalid.drop_last()) + refusal_line(invalid.last())
    }
}

/// The lines that show one document with its refused mentions.
pub open spec fn rejection_entry(document: (String, Vec<InvalidReference>)) -> Seq<char> {
    "  "@ + document.0@ + "\n"@ + refusal_lines(document.1@)
}

/// The entries of all items, one after the other.
pub open spec fn entries<T>(items: Seq<T>, entry: spec_fn(T) -> Seq<char>) -> Seq<char>
    decreases items.len(),
{
    if items.len() == 0 {
        Seq::empty()
    } else {
        entries(items.drop_last(), entry) + entry(items.last())
    }
}

/// The lines that show the statuses of documents.
pub open spec fn status_lines(validations: Seq<Validation>) -> Seq<char> {
    entries(validations, |v: Validation| status_entry(v))
}

/// The lines that show the validations of documents.
pub open spec fn validation_lines(validations: Seq<Validation>) -> Seq<char> {
    entries(validations, |v: Validation| validation_entry(v))
}

/// The lines that show search results.
pub open spec fn search_lines(results: Seq<SearchResult>) -> Seq<char> {
    entries(results, |r: SearchResult| search_entry(r))
}

/// The lines that show find results.
pub open spec fn find_lines(results: Seq<FindResult>) -> Seq<char> {
    entries(results, |r: FindResult| find_entry(r))
}

/// The lines that show the refused mentions of a batch: how many documents
/// have some, a blank line, and each document with its refusals.
pub open spec fn rejection_lines(documents: Seq<(String, Vec<InvalidReference>)>) -> Seq<char> {
    "Error: Invalid references in "@ + decimal_text(documents.len()) + " document(s)\n\n"@ + entries(
        documents,
        |d: (String, Vec<InvalidReference>)| rejection_entry(d),
    )
}

/// The items in a row, with `separator` between each two.
pub fn join_with(items: &Vec<String>, separator: &str) -> (text: String)
    ensures
        text@ == separated(views(items@), separator@),
{
    let ghost all = views(items@);
    let mut text = String::new();
    let mut i: usize = 0;
    assert(all.take(0) =~= Seq::<Seq<char>>::empty());
    while i < items.len()
        invariant
            i <= items.len(),
            all == views(items@),
            text@ == separated(all.take(i as int), separator@),
        decreases items.len() - i,
    {
        proof {
            assert(all.take(i + 1).drop_last() =~= all.take(i as int));
            assert(all.take(i + 1).last() == items@[i as int]@);
        }
        if i > 0 {
            text.append(separator);
        }
        text.append(items[i].as_str());
        proof {
            if i == 0 {
                assert(text@ =~= items@[0]@);
            }
        }
        i += 1;
    }
    assert(all.take(i as int) =~= all);
    text
}

/// One line for each item: `prefix`, the item, and a line feed.
pub fn list_lines(items: &Vec<String>, prefix: &str) -> (text: String)
    ensures
        text@ == listed(views(items@), prefix@),
{
    let ghost all = views(items@);
    let mut text = String::new();
    let mut i: usize = 0;
    assert(all.take(0) =~= Seq::<Seq<char>>::empty());
    while i < items.len()
        invariant
            i <= items.len(),
            all == views(items@),
            text@ == listed(all.take(i as int), prefix@),
        decreases items.len() - i,
    {
        proof {
            assert(all.take(i + 1).drop_last() =~= all.take(i as int));
            assert(all.take(i + 1).last() == items@[i as int]@);
        }
        let mut line = concat(prefix, items[i].as_str());
        line.append("\n");
        text.append(line.as_str());
        i += 1;
    }
    assert(all.take(i as int) =~= all);
    text
}

/// `heading` on a line of its own followed by one line for each item;
/// nothing where there is no item.
fn section_text(heading: &str, items: &Vec<String>, prefix: &str) -> (text: String)
    ensures
        text@ == section(heading@, views(items@), prefix@),
{
    if items.len() == 0 {
        return String::new();
    }
    let mut text = concat(heading, "\n");
    text.append(list_lines(items, prefix).as_str());
    text
}

/// `label`, the items in a row between commas, and a line feed; nothing
/// where there is no item.
fn row_text(label: &str, items: &Vec<String>) -> (text: String)
    ensures
        text@ == row(label@, views(items@)),
{
    if items.len() == 0 {
        return String::new();
    }
    let mut text = concat(label, join_with(items, ", ").as_str());
    text.append("\n");
    text
}

/// The lines that show the status of one document.
fn status_entry_text(validation: &Validation) -> (text: String)
    ensures
        text@ == status_entry(*validation),
{
    let mut text = validation.status.label();
    text.append(" ");
    text.append(validation.path.as_str());
    text.append("\n");
    text.append(row_text("               changed: ", &validation.changed).as_str());
    text.append(row_text("               missing: ", &validation.missing).as_str());
    text
}

/// The lines that show the validation of one document.
fn validation_entry_text(validation: &Validation) -> (text: String)
    ensures
        text@ == validation_entry(*validation),
{
    let mut text = match validation.status {
        Status::Valid => "✓ VALID".to_owned(),
        Status::Stale => "⚠ STALE".to_owned(),
        Status::Orphaned => "✗ ORPHANED".to_owned(),
    };
    text.append(" ");
    text.append(validation.path.as_str());
    text.append("\n");
    text.append(section_text("  Changed files:", &validation.changed, "    - ").as_str());
    text.append(section_text("  Missing files:", &validation.missing, "    - ").as_str());
    text
}

/// The lines that show one search result.
fn search_entry_text(result: &SearchResult) -> (text: String)
    ensures
        text@ == search_entry(*result),
{
    let mut text = concat(result.path.as_str(), "\n");
    let mut second = concat("  ", result.description.as_str());
    second.append("\n");
    text.append(second.as_str());
    match &result.snippet {
        Some(snippet) => {
            let mut third = concat("  ", snippet.as_str());
            third.append("\n");
            text.append(third.as_str());
        },
        None => {
            assert(text@ + Seq::<char>::empty() =~= text@);
        },
    }
    text
}

/// The lines that show one find result.
fn find_entry_text(result: &FindResult) -> (text: String)
    ensures
        text@ == find_entry(*result),
{
    let mut text = concat(result.path.as_str(), "\n");
    let mut second = concat("  ", result.description.as_str());
    second.append("\n");
    text.append(second.as_str());
    let mut third = concat("  references: ", join_with(&result.references, ", ").as_str());
    third.append("\n");
    text.append(third.as_str());
    text
}

/// The lines that show the statuses of documents: for each its status and
/// location, then its changed and its missing references.
pub fn status_text(validations: &Vec<Validation>) -> (text: String)
    ensures
        text@ == status_lines(validations@),
{
    let ghost entry = |v: Validation| status_entry(v);
    let mut text = String::new();
    let mut i: usize = 0;
    assert(validations@.take(0) =~= Seq::<Validation>::empty());
    while i < validations.len()
        invariant
            i <= validations.len(),
            entry == |v: Validation| status_entry(v),
            text@ == entries(validations@.take(i as int), entry),
        decreases validations.len() - i,
    {
        proof {
            assert(validations@.take(i + 1).drop_last() =~= validations@.take(i as int));
            assert(validations@.take(i + 1).last() == validations@[i as int]);
        }
        text.append(status_entry_text(&validations[i]).as_str());
        i += 1;
    }
    assert(validations@.take(i as int) =~= validations@);
    text
}

/// The lines that show the validations of documents: for each its verdict
/// and location, then its changed and its missing files.
pub fn validation_text(validations: &Vec<Validation>) -> (text: String)
    ensures
        text@ == validation_lines(validations@),
{
    let ghost entry = |v: Validation| validation_entry(v);
    let mut text = String::new();
    let mut i: usize = 0;
    assert(validations@.take(0) =~= Seq::<Validation>::empty());
    while i < validations.len()
        invariant
            i <= validations.len(),
            entry == |v: Validation| validation_entry(v),
            text@ == entries(validations@.take(i as int), entry),
        decreases validations.len() - i,
    {
        proof {
            assert(validations@.take(i + 1).drop_last() =~= validations@.take(i as int));
            assert(validations@.take(i + 1).last() == validations@[i as int]);
        }
        text.append(validation_entry_text(&validations[i]).as_str());
        i += 1;
    }
    assert(validations@.take(i as int) =~= validations@);
    text
}

/// The lines that show search results: for each its location, its
/// description and, where there is one, its snippet.
pub fn search_text(results: &Vec<SearchResult>) -> (text: String)
    ensures
        text@ == search_lines(results@),
{
    let ghost entry = |r: SearchResult| search_entry(r);
    let mut text = String::new();
    let mut i: usize = 0;
    assert(results@.take(0) =~= Seq::<SearchResult>::empty());
    while i < results.len()
        invariant
            i <= results.len(),
            entry == |r: SearchResult| search_entry(r),
            text@ == entries(results@.take(i as int), entry),
        decreases results.len() - i,
    {
        proof {
            assert(results@.take(i + 1).drop_last() =~= results@.take(i as int));
            assert(results@.take(i + 1).last() == results@[i as int]);
        }
        text.append(search_entry_text(&results[i]).as_str());
        i += 1;
    }
    assert(results@.take(i as int) =~= results@);
    text
}

/// The lines that show find results: for each its location, its
/// description and its references in a row.
pub fn find_text(results: &Vec<FindResult>) -> (text: String)
    ensures
        text@ == find_lines(results@),
{
    let ghost entry = |r: FindResult| find_entry(r);
    let mut text = String::new();
    let mut i: usize = 0;
    assert(results@.take(0) =~= Seq::<FindResult>::empty());
    while i < results.len()
        invariant
            i <= results.len(),
            entry == |r: FindResult| find_entry(r),
            text@ == entries(results@.take(i as int), entry),
        decreases results.len() - i,
    {
        proof {
            assert(results@.take(i + 1).drop_last() =~= results@.take(i as int));
            assert(results@.take(i + 1).last() == results@[i as int]);
        }
        text.append(find_entry_text(&results[i]).as_str());
        i += 1;
    }
    assert(results@.take(i as int) =~= results@);
    text
}

/// The lines that show the outcome of a synchronization: how many documents
/// were synchronized, then those that were, then those that failed.
pub fn sync_text(outcome: &SyncResult) -> (text: String)
    ensures
        text@ == sync_lines(*outcome),
{
    let mut text = concat("Synced ", decimal(outcome.count).as_str());
    text.append(" documents\n");
    text.append(section_text("Updated:", &outcome.updated, "  ").as_str());
    text.append(section_text("Failed:", &outcome.failed, "  ").as_str());
    text
}

/// One line for each refused mention.
fn refusal_text(invalid: &Vec<InvalidReference>) -> (text: String)
    ensures
        text@ == refusal_lines(invalid@),
{
    let mut text = String::new();
    let mut i: usize = 0;
    assert(invalid@.take(0) =~= Seq::<InvalidReference>::empty());
    while i < invalid.len()
        invariant
            i <= invalid.len(),
            text@ == refusal_lines(invalid@.take(i as int)),
        decreases invalid.len() - i,
    {
        proof {
            assert(invalid@.take(i + 1).drop_last() =~= invalid@.take(i as int));
            assert(invalid@.take(i + 1).last() == invalid@[i as int]);
        }
        let mut line = concat("    - `", invalid[i].path.as_str());
        line.append("`: ");
        line.append(invalid[i].reason.message().as_str());
        line.append("\n");
        text.append(line.as_str());
        i += 1;
    }
    assert(invalid@.take(i as int) =~= invalid@);
    text
}

/// The lines that show the refused mentions of a batch.
pub fn invalid_references_text(documents: &Vec<(String, Vec<InvalidReference>)>) -> (text: String)
    ensures
        text@ == rejection_lines(documents@),
{
    let ghost entry = |d: (String, Vec<InvalidReference>)| rejection_entry(d);
    let mut head = concat("Error: Invalid references in ", decimal(documents.len()).as_str());
    head.append(" document(s)\n\n");
    let mut body = String::new();
    let mut i: usize = 0;
    assert(documents@.take(0) =~= Seq::<(String, Vec<InvalidReference>)>::empty());
    while i < documents.len()
        invariant
            i <= documents.len(),
            entry == |d: (String, Vec<InvalidReference>)| rejection_entry(d),
            body@ == entries(documents@.take(i as int), entry),
        decreases documents.len() - i,
    {
        proof {
            assert(documents@.take(i + 1).drop_last() =~= documents@.take(i as int));
            assert(documents@.take(i + 1).last() == documents@[i as int]);
        }
        let mut piece = concat("  ", documents[i].0.as_str());
        piece.append("\n");
        piece.append(refusal_text(&documents[i].1).as_str());
        body.append(piece.as_str());
        i += 1;
    }
    assert(documents@.take(i as int) =~= documents@);
    head.append(body.as_str());
    head
}

/// The line that shows an error.
pub fn error_line(error: &str) -> (text: String)
    ensures
        text@ == "Error: "@ + error@,
{
    concat("Error: ", error)
}

} // verus!
