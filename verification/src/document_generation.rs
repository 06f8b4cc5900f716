//! Writing documents: the steps from a reply of the model to a document.

use vstd::prelude::*;

use crate::continuation;
use crate::continuation::{
    append_units, continuation_items, continued_units, end_of_continuation, shown_units,
    written_units, ContinueChunk, ContinueEnd,
};
use crate::edit_focus;
use crate::edit_focus::fresh_unit;
use crate::json::{Json, JsonModel};
use crate::model;
use crate::model::{duplicate_list, Duplicate, Document, Page};
use crate::stream;
use crate::stream::{partial_json, partial_units_json};
use crate::text;
use crate::text::owned;

verus! {

/// What a run reports without a place to keep documents.
pub const NO_STORE: &'static str = "\
this engine has no document store: document sessions cannot run";

/// What a turn reports when it continued nothing.
pub const NONE_CONTINUED: &'static str = "no document was continued";

/// What a turn reports when it wrote no candidate.
pub const NONE_STORED: &'static str = "no document candidate reached the store";

/// The JSON of the document a streaming reply has written so far:
/// everything before the pages plus every complete page. `None` until the
/// first page is complete.
pub fn partial_document(reply: &str) -> (r: Option<String>)
    ensures
        model::optional(r) == stream::partial_artifact(reply@, "pages"@),
{
    partial_json(reply, "pages")
}

/// The new pages in a continuation reply, in order.
pub fn continuation_pages(written: usize, content: &str) -> (r: Result<Vec<Json>, String>)
    ensures
        match r {
            Ok(values) => continuation::units_in_reply(
                content@,
                written as nat,
                "pages"@,
                "page"@,
            ) == Ok::<Seq<JsonModel>, Seq<char>>(continuation::values_of(values@)),
            Err(message) => continuation::units_in_reply(
                content@,
                written as nat,
                "pages"@,
                "page"@,
            ) == Err::<Seq<JsonModel>, Seq<char>>(message@),
        },
{
    continuation_items(written, content, "pages", "page")
}

/// The new pages of a reply that may not be complete, none when it cannot
/// be read.
pub open spec fn streamed_pages(reply: Seq<char>, written: nat) -> Seq<JsonModel> {
    match stream::partial_units(reply, "pages"@) {
        Some(units) => match continuation::units_in_reply(
            units,
            written,
            "pages"@,
            "page"@,
        ) {
            Ok(values) => values,
            Err(_) => Seq::empty(),
        },
        None => Seq::empty(),
    }
}

/// The new pages a streaming continuation reply has completed so far.
pub fn partial_continuation_pages(written: usize, reply: &str) -> (r: Vec<Json>)
    ensures
        continuation::values_of(r@) == streamed_pages(reply@, written as nat),
{
    if let Some(units) = partial_units_json(reply, "pages") {
        if let Ok(values) = continuation_pages(written, units.as_str()) {
            return values;
        }
    }
    let none: Vec<Json> = Vec::new();
    assert(continuation::values_of(none@) =~= Seq::<JsonModel>::empty());
    none
}

fn with_pages(document: &Document, pages: Vec<Page>, keeps_outline: bool) -> (r: Document)
    ensures
        r.title == document.title,
        r.theme == document.theme,
        r.paper == document.paper,
        r.pages == pages,
        r.outline@ == if keeps_outline {
            document.outline@
        } else {
            Seq::empty()
        },
{
    Document {
        title: document.title.clone(),
        theme: document.theme.duplicate(),
        paper: document.paper,
        pages,
        outline: if keeps_outline {
            duplicate_list(&document.outline)
        } else {
            Vec::new()
        },
    }
}

/// The document without the placeholders that a stopped run left behind.
pub fn written_document(document: &Document, class: &str) -> (r: Document)
    ensures
        r.title == document.title,
        r.theme == document.theme,
        r.paper == document.paper,
        r.outline@ == document.outline@,
        r.pages@ == continuation::without_pending(document.pages@, class@),
{
    let pages = written_units(&document.pages, class);
    with_pages(document, pages, true)
}

/// The document to show while the chunks run: the preview, then every chunk
/// up to the last one that has pages, with placeholders for the pages an
/// earlier chunk still owes.
pub fn shown_document(
    preview: &Document,
    chunks: &[ContinueChunk],
    board: &[Vec<Page>],
    class: &str,
) -> (r: Document)
    ensures
        r.title == preview.title,
        r.theme == preview.theme,
        r.paper == preview.paper,
        r.outline@ == preview.outline@,
        model::units_of(r.pages@) == continuation::shown::<Page>(
            model::units_of(preview.pages@),
            text::strings(preview.outline@),
            chunks@,
            continuation::board_of(board@),
            class@,
        ),
{
    let pages = shown_units(&preview.pages, &preview.outline, chunks, board, class);
    with_pages(preview, pages, true)
}

/// Appends the reply's new pages to the document in progress. The outline
/// stays until every title has a page, so a short reply leaves the
/// document continuable.
pub fn apply_document_continuation(original: &Document, new_pages: &[Page]) -> (r: Result<
    Document,
    String,
>)
    ensures
        match r {
            Ok(continued) => {
                &&& new_pages@.len() > 0
                &&& continued.title == original.title
                &&& continued.theme == original.theme
                &&& continued.paper == original.paper
                &&& model::units_of(continued.pages@) == model::units_of(original.pages@)
                    + model::units_of(new_pages@)
                &&& continued.outline@ == if original.pages@.len() + new_pages@.len()
                    >= original.outline@.len() {
                    Seq::empty()
                } else {
                    original.outline@
                }
            },
            Err(message) => new_pages@.len() == 0 && message@ == continuation::nothing_added(
                "pages"@,
                "page"@,
            ),
        },
{
    match append_units(&original.pages, new_pages, "pages", "page") {
        Ok(pages) => {
            let is_complete = pages.len() >= original.outline.len();
            Ok(with_pages(original, pages, !is_complete))
        },
        Err(message) => Err(message),
    }
}

/// The document that the chunks leave behind, and what it came to. A failed
/// chunk leaves the document continuable: the outline stays until every
/// title has a page.
pub fn continued_document(preview: &Document, board: &[Vec<Page>]) -> (r: (
    Document,
    ContinueEnd,
))
    ensures
        ({
            let added = continuation::gathered(
                continuation::board_of(board@),
                board@.len() as int,
            );
            let total = preview.pages@.len() + added.len();
            &&& r.0.title == preview.title
            &&& r.0.theme == preview.theme
            &&& r.0.paper == preview.paper
            &&& model::units_of(r.0.pages@) == model::units_of(preview.pages@) + added
            &&& r.0.outline@ == if r.1 is Finished {
                Seq::empty()
            } else {
                preview.outline@
            }
            &&& r.1 is Restored <==> added.len() == 0
            &&& r.1 is Finished <==> added.len() > 0 && total >= preview.outline@.len()
            &&& r.1 matches ContinueEnd::Grown(count) ==> count == added.len()
            &&& r.1 matches ContinueEnd::Finished(count) ==> count == added.len()
        }),
{
    let pages = continued_units(&preview.pages, board);
    assert(model::units_of(pages@).len() == pages@.len());
    assert(model::units_of(preview.pages@).len() == preview.pages@.len());
    let end = end_of_continuation(preview.pages.len(), pages.len(), preview.outline.len());
    let keeps_outline = match end {
        ContinueEnd::Finished(_) => false,
        _ => true,
    };
    (with_pages(preview, pages, keeps_outline), end)
}

/// What a continue reports when no chunk added a page.
pub fn nothing_continued(label: &str) -> (r: String)
    ensures
        r@ == label@ + ": no chunk added a page"@,
{
    let mut r = owned(label);
    r.append(": no chunk added a page");
    r
}

/// The page as a regenerate shows it: its notes, without its markup, so the
/// model writes it anew instead of tweaking it.
pub fn fresh_page(page: &Page) -> (r: Page)
    ensures
        r@ == edit_focus::fresh(page@),
{
    fresh_unit(page)
}

} // verus!
