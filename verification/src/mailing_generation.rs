//! Writing mailings: the steps from a reply of the model to a mailing.

use vstd::prelude::*;

use crate::continuation;
use crate::continuation::{
    append_units, continuation_items, continued_units, end_of_continuation, shown_units,
    written_units, ContinueChunk, ContinueEnd,
};
use crate::edit_focus;
use crate::edit_focus::fresh_unit;
use crate::json::{Json, JsonModel};
use crate::model;
use crate::model::{duplicate_list, Duplicate, Mailing, Email};
use crate::stream;
use crate::stream::{partial_json, partial_units_json};
use crate::text;
use crate::text::owned;

verus! {

/// What a run reports without a place to keep mailings.
pub const NO_STORE: &'static str = "\
this engine has no mailing store: mailing sessions cannot run";

/// What a turn reports when it continued nothing.
pub const NONE_CONTINUED: &'static str = "no mailing was continued";

/// What a turn reports when it wrote no candidate.
pub const NONE_STORED: &'static str = "no mailing candidate reached the store";

/// The JSON of the mailing a streaming reply has written so far:
/// everything before the emails plus every complete email. `None` until the
/// first email is complete.
pub fn partial_mailing(reply: &str) -> (r: Option<String>)
    ensures
        model::optional(r) == stream::partial_artifact(reply@, "emails"@),
{
    partial_json(reply, "emails")
}

/// The new emails in a continuation reply, in order.
pub fn continuation_emails(written: usize, content: &str) -> (r: Result<Vec<Json>, String>)
    ensures
        match r {
            Ok(values) => continuation::units_in_reply(
                content@,
                written as nat,
                "emails"@,
                "email"@,
            ) == Ok::<Seq<JsonModel>, Seq<char>>(continuation::values_of(values@)),
            Err(message) => continuation::units_in_reply(
                content@,
                written as nat,
                "emails"@,
                "email"@,
            ) == Err::<Seq<JsonModel>, Seq<char>>(message@),
        },
{
    continuation_items(written, content, "emails", "email")
}

/// The new emails of a reply that may not be complete, none when it cannot
/// be read.
pub open spec fn streamed_emails(reply: Seq<char>, written: nat) -> Seq<JsonModel> {
    match stream::partial_units(reply, "emails"@) {
        Some(units) => match continuation::units_in_reply(
            units,
            written,
            "emails"@,
            "email"@,
        ) {
            Ok(values) => values,
            Err(_) => Seq::empty(),
        },
        None => Seq::empty(),
    }
}

/// The new emails a streaming continuation reply has completed so far.
pub fn partial_continuation_emails(written: usize, reply: &str) -> (r: Vec<Json>)
    ensures
        continuation::values_of(r@) == streamed_emails(reply@, written as nat),
{
    if let Some(units) = partial_units_json(reply, "emails") {
        if let Ok(values) = continuation_emails(written, units.as_str()) {
            return values;
        }
    }
    let none: Vec<Json> = Vec::new();
    assert(continuation::values_of(none@) =~= Seq::<JsonModel>::empty());
    none
}

fn with_emails(mailing: &Mailing, emails: Vec<Email>, keeps_outline: bool) -> (r: Mailing)
    ensures
        r.title == mailing.title,
        r.theme == mailing.theme,
        r.format == mailing.format,
        r.emails == emails,
        r.outline@ == if keeps_outline {
            mailing.outline@
        } else {
            Seq::empty()
        },
{
    Mailing {
        title: mailing.title.clone(),
        theme: mailing.theme.duplicate(),
        format: mailing.format,
        emails,
        outline: if keeps_outline {
            duplicate_list(&mailing.outline)
        } else {
            Vec::new()
        },
    }
}

/// The mailing without the placeholders that a stopped run left behind.
pub fn written_mailing(mailing: &Mailing, class: &str) -> (r: Mailing)
    ensures
        r.title == mailing.title,
        r.theme == mailing.theme,
        r.format == mailing.format,
        r.outline@ == mailing.outline@,
        r.emails@ == continuation::without_pending(mailing.emails@, class@),
{
    let emails = written_units(&mailing.emails, class);
    with_emails(mailing, emails, true)
}

/// The mailing to show while the chunks run: the preview, then every chunk
/// up to the last one that has emails, with placeholders for the emails an
/// earlier chunk still owes.
pub fn shown_mailing(
    preview: &Mailing,
    chunks: &[ContinueChunk],
    board: &[Vec<Email>],
    class: &str,
) -> (r: Mailing)
    ensures
        r.title == preview.title,
        r.theme == preview.theme,
        r.format == preview.format,
        r.outline@ == preview.outline@,
        model::units_of(r.emails@) == continuation::shown::<Email>(
            model::units_of(preview.emails@),
            text::strings(preview.outline@),
            chunks@,
            continuation::board_of(board@),
            class@,
        ),
{
    let emails = shown_units(&preview.emails, &preview.outline, chunks, board, class);
    with_emails(preview, emails, true)
}

/// Appends the reply's new emails to the mailing in progress. The outline
/// stays until every title has an email, so a short reply leaves the
/// mailing continuable.
pub fn apply_mailing_continuation(original: &Mailing, new_emails: &[Email]) -> (r: Result<
    Mailing,
    String,
>)
    ensures
        match r {
            Ok(continued) => {
                &&& new_emails@.len() > 0
                &&& continued.title == original.title
                &&& continued.theme == original.theme
                &&& continued.format == original.format
                &&& model::units_of(continued.emails@) == model::units_of(original.emails@)
                    + model::units_of(new_emails@)
                &&& continued.outline@ == if original.emails@.len() + new_emails@.len()
                    >= original.outline@.len() {
                    Seq::empty()
                } else {
                    original.outline@
                }
            },
            Err(message) => new_emails@.len() == 0 && message@ == continuation::nothing_added(
                "emails"@,
                "email"@,
            ),
        },
{
    match append_units(&original.emails, new_emails, "emails", "email") {
        Ok(emails) => {
            let is_complete = emails.len() >= original.outline.len();
            Ok(with_emails(original, emails, !is_complete))
        },
        Err(message) => Err(message),
    }
}

/// The mailing that the chunks leave behind, and what it came to. A failed
/// chunk leaves the mailing continuable: the outline stays until every
/// title has an email.
pub fn continued_mailing(preview: &Mailing, board: &[Vec<Email>]) -> (r: (
    Mailing,
    ContinueEnd,
))
    ensures
        ({
            let added = continuation::gathered(
                continuation::board_of(board@),
                board@.len() as int,
            );
            let total = preview.emails@.len() + added.len();
            &&& r.0.title == preview.title
            &&& r.0.theme == preview.theme
            &&& r.0.format == preview.format
            &&& model::units_of(r.0.emails@) == model::units_of(preview.emails@) + added
            &&& r.0.outline@ == if r.1 is Finished {
                Seq::empty()
            } else {
                preview.outline@
            }
            &&& r.1 is Restored <==> added.len() == 0
            &&& r.1 is Finished <==> added.len() > 0 && total >= preview.outline@.len()
            &&& r.1 matches ContinueEnd::Grown(count) ==> count == added.len()
            &&& r.1 matches ContinueEnd::Finished(count) ==> count == added.len()
        }),
{
    let emails = continued_units(&preview.emails, board);
    assert(model::units_of(emails@).len() == emails@.len());
    assert(model::units_of(preview.emails@).len() == preview.emails@.len());
    let end = end_of_continuation(preview.emails.len(), emails.len(), preview.outline.len());
    let keeps_outline = match end {
        ContinueEnd::Finished(_) => false,
        _ => true,
    };
    (with_emails(preview, emails, keeps_outline), end)
}

/// What a continue reports when no chunk added an email.
pub fn nothing_continued(label: &str) -> (r: String)
    ensures
        r@ == label@ + ": no chunk added an email"@,
{
    let mut r = owned(label);
    r.append(": no chunk added an email");
    r
}

/// The email as a regenerate shows it: its notes, without its markup, so the
/// model writes it anew instead of tweaking it.
pub fn fresh_email(email: &Email) -> (r: Email)
    ensures
        r@ == edit_focus::fresh(email@),
{
    fresh_unit(email)
}

} // verus!
