//! Document patches: what a model replies to a request to edit a document.
//!
//! A chat edit rarely touches more than a page or two, so the reply holds
//! only what changed: an optional title, an optional theme, and page
//! operations keyed by the page index in the document before the edit.

use vstd::prelude::*;

use crate::model::{duplicate_list, Duplicate, Document, Page, Theme};
use crate::patch;
use crate::patch::{apply_operations, describe, UnitPatch, Wording};

verus! {

/// One page operation in a patch.
#[derive(Debug)]
pub struct PagePatch {
    /// Zero-based index into the document before the edit. For an insert,
    /// the new page goes before this index; an index equal to the page
    /// count appends.
    pub index: usize,
    /// True to insert a new page at `index` instead of replacing.
    pub insert: bool,
    /// The page. `None` without `insert` deletes the page.
    pub page: Option<Page>,
}

/// What the model sends back for a document edit.
#[derive(Debug)]
pub struct DocumentPatch {
    /// The new document title, when it changes.
    pub title: Option<String>,
    /// The new theme, when it changes.
    pub theme: Option<Theme>,
    /// The page operations, by their index before the edit.
    pub pages: Vec<PagePatch>,
}

/// The document patch format, stated for the model.
pub const PATCH_FORMAT: &'static str = "\
Reply with only a JSON patch, not the whole document:\n\
{\"title\":\"only if it changes\",\"theme\":{only if it changes},\
\"pages\":[{\"index\":2,\"page\":{the full replacement page}},\
{\"index\":4,\"page\":null},\
{\"index\":5,\"insert\":true,\"page\":{a new page}}]}\n\
Every index is zero-based and refers to the document as it is now, before your changes. \
A replacement carries the complete page: html, css, and notes, changed or not. \
\"page\": null deletes that page. \"insert\": true puts the new page before that index; \
an index equal to the page count appends. Omit title, theme, and untouched pages.";

/// A page operation, for any kind of unit.
pub open spec fn operation_of(operation: PagePatch) -> UnitPatch<Page> {
    UnitPatch { index: operation.index, insert: operation.insert, unit: operation.page }
}

/// The page operations of a patch.
pub open spec fn operations_of(operations: Seq<PagePatch>) -> Seq<UnitPatch<Page>> {
    operations.map_values(|operation: PagePatch| operation_of(operation))
}

/// How a patch speaks of a document.
pub open spec fn wording() -> Wording<'static> {
    Wording { artifact: "document", unit: "page", plural: "pages" }
}

fn to_operations(operations: Vec<PagePatch>) -> (r: Vec<UnitPatch<Page>>)
    ensures
        r@ == operations_of(operations@),
{
    let ghost all = operations@;
    let mut rest = operations;
    let mut reversed: Vec<UnitPatch<Page>> = Vec::new();
    let mut r: Vec<UnitPatch<Page>> = Vec::new();
    while rest.len() > 0
        invariant
            rest@ == all.take(rest@.len() as int),
            rest@.len() + reversed@.len() == all.len(),
            forall|k: int|
                0 <= k < reversed@.len() ==> #[trigger] reversed@[k] == operation_of(
                    all[all.len() - 1 - k],
                ),
        decreases rest@.len(),
    {
        if let Some(operation) = rest.pop() {
            reversed.push(
                UnitPatch {
                    index: operation.index,
                    insert: operation.insert,
                    unit: operation.page,
                },
            );
        }
    }
    while reversed.len() > 0
        invariant
            reversed@.len() + r@.len() == all.len(),
            forall|k: int|
                0 <= k < reversed@.len() ==> #[trigger] reversed@[k] == operation_of(
                    all[all.len() - 1 - k],
                ),
            forall|k: int| 0 <= k < r@.len() ==> #[trigger] r@[k] == operation_of(all[k]),
        decreases reversed@.len(),
    {
        if let Some(operation) = reversed.pop() {
            r.push(operation);
        }
    }
    assert(r@ =~= operations_of(all));
    r
}

/// Applies `patch` to a copy of `document`. Fails when an index is out of
/// range, so the model gets a clear message instead of a silent drop.
pub fn apply_patch(document: &Document, patch: DocumentPatch) -> (r: Result<Document, String>)
    ensures
        match r {
            Ok(result) => {
                &&& patch::first_error(
                    operations_of(patch.pages@),
                    document.pages@.len() as int,
                    0,
                ) is None
                &&& result.title == (match patch.title {
                    Some(title) => title,
                    None => document.title,
                })
                &&& result.theme == (match patch.theme {
                    Some(theme) => theme,
                    None => document.theme,
                })
                &&& result.paper == document.paper
                &&& result.outline@ == document.outline@
                &&& result.pages@ == patch::patched(document.pages@, operations_of(patch.pages@))
            },
            Err(text) => match patch::first_error(
                operations_of(patch.pages@),
                document.pages@.len() as int,
                0,
            ) {
                Some(error) => text@ == patch::message(
                    error,
                    wording(),
                    document.pages@.len(),
                ),
                None => false,
            },
        },
{
    let operations = to_operations(patch.pages);
    match apply_operations(&document.pages, &operations) {
        Ok(pages) => Ok(
            Document {
                title: match patch.title {
                    Some(title) => title,
                    None => document.title.clone(),
                },
                theme: match patch.theme {
                    Some(theme) => theme,
                    None => document.theme.duplicate(),
                },
                paper: document.paper,
                pages,
                outline: duplicate_list(&document.outline),
            },
        ),
        Err(error) => {
            let words = Wording { artifact: "document", unit: "page", plural: "pages" };
            Err(describe(error, &words, document.pages.len()))
        },
    }
}

/// A patch that names nothing keeps the document.
pub proof fn law_an_empty_patch_keeps_the_document(document: Document)
    ensures
        patch::first_error(
            operations_of(Seq::<PagePatch>::empty()),
            document.pages@.len() as int,
            0,
        ) is None,
        patch::patched(document.pages@, operations_of(Seq::<PagePatch>::empty()))
            == document.pages@,
{
    assert(operations_of(Seq::<PagePatch>::empty()) =~= Seq::<UnitPatch<Page>>::empty());
    patch::law_no_operations_keep_the_units(document.pages@);
}

/// One page operation does to the pages what it says: it replaces, deletes, or
/// inserts one page, and every other page stays.
pub proof fn law_one_operation_changes_one_page(pages: Seq<Page>, index: usize, page: Page)
    ensures
        index < pages.len() ==> patch::patched(
            pages,
            operations_of(seq![PagePatch { index, insert: false, page: Some(page) }]),
        ) == pages.update(index as int, page),
        index < pages.len() ==> patch::patched(
            pages,
            operations_of(seq![PagePatch { index, insert: false, page: None }]),
        ) == pages.remove(index as int),
        index <= pages.len() ==> patch::patched(
            pages,
            operations_of(seq![PagePatch { index, insert: true, page: Some(page) }]),
        ) == pages.insert(index as int, page),
{
    let replaced = PagePatch { index, insert: false, page: Some(page) };
    let deleted = PagePatch { index, insert: false, page: None };
    let inserted = PagePatch { index, insert: true, page: Some(page) };
    assert(operations_of(seq![replaced]) =~= seq![
        UnitPatch { index, insert: false, unit: Some(page) },
    ]);
    assert(operations_of(seq![deleted]) =~= seq![
        UnitPatch { index, insert: false, unit: None::<Page> },
    ]);
    assert(operations_of(seq![inserted]) =~= seq![
        UnitPatch { index, insert: true, unit: Some(page) },
    ]);
    if index < pages.len() {
        patch::law_a_replacement_changes_one_unit(pages, index, page);
        patch::law_a_deletion_removes_one_unit(pages, index);
    }
    if index <= pages.len() {
        patch::law_an_insert_adds_one_unit(pages, index, page);
    }
}

} // verus!
