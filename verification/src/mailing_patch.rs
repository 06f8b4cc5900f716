//! Mailing patches: what a model replies to a request to edit a mailing.
//!
//! A chat edit rarely touches more than an email or two, so the reply holds
//! only what changed: an optional title, an optional theme, and email
//! operations keyed by the email index in the mailing before the edit.

use vstd::prelude::*;

use crate::model::{duplicate_list, Duplicate, Mailing, Email, Theme};
use crate::patch;
use crate::patch::{apply_operations, describe, UnitPatch, Wording};

verus! {

/// One email operation in a patch.
#[derive(Debug)]
pub struct EmailPatch {
    /// Zero-based index into the mailing before the edit. For an insert,
    /// the new email goes before this index; an index equal to the email
    /// count appends.
    pub index: usize,
    /// True to insert a new email at `index` instead of replacing.
    pub insert: bool,
    /// The email. `None` without `insert` deletes the email.
    pub email: Option<Email>,
}

/// What the model sends back for a mailing edit.
#[derive(Debug)]
pub struct MailingPatch {
    /// The new mailing title, when it changes.
    pub title: Option<String>,
    /// The new theme, when it changes.
    pub theme: Option<Theme>,
    /// The email operations, by their index before the edit.
    pub emails: Vec<EmailPatch>,
}

/// The mailing patch format, stated for the model.
pub const PATCH_FORMAT: &'static str = "\
Reply with only a JSON patch, not the whole mailing:\n\
{\"title\":\"only if it changes\",\"theme\":{only if it changes},\
\"emails\":[{\"index\":2,\"email\":{the full replacement email}},\
{\"index\":4,\"email\":null},\
{\"index\":5,\"insert\":true,\"email\":{a new email}}]}\n\
Every index is zero-based and refers to the mailing as it is now, before your changes. \
A replacement carries the complete email: html, css, and notes, changed or not. \
\"email\": null deletes that email. \"insert\": true puts the new email before that index; \
an index equal to the email count appends. Omit title, theme, and untouched emails.";

/// An email operation, for any kind of unit.
pub open spec fn operation_of(operation: EmailPatch) -> UnitPatch<Email> {
    UnitPatch { index: operation.index, insert: operation.insert, unit: operation.email }
}

/// The email operations of a patch.
pub open spec fn operations_of(operations: Seq<EmailPatch>) -> Seq<UnitPatch<Email>> {
    operations.map_values(|operation: EmailPatch| operation_of(operation))
}

/// How a patch speaks of a mailing.
pub open spec fn wording() -> Wording<'static> {
    Wording { artifact: "mailing", unit: "email", plural: "emails" }
}

fn to_operations(operations: Vec<EmailPatch>) -> (r: Vec<UnitPatch<Email>>)
    ensures
        r@ == operations_of(operations@),
{
    let ghost all = operations@;
    let mut rest = operations;
    let mut reversed: Vec<UnitPatch<Email>> = Vec::new();
    let mut r: Vec<UnitPatch<Email>> = Vec::new();
    while rest.len() > 0
        invariant
            rest@ == all.take(rest@.len() as int),
            rest@.len() + reversed@.len() == all.len(),
            forall|k: int|
                0 <= k < reversed@.len() ==> #[trigger] reversed@[k] == operation_of(
                    all[all.len() - 1 - k],
                ),
        decreases rest@.len(),
    {
        if let Some(operation) = rest.pop() {
            reversed.push(
                UnitPatch {
                    index: operation.index,
                    insert: operation.insert,
                    unit: operation.email,
                },
            );
        }
    }
    while reversed.len() > 0
        invariant
            reversed@.len() + r@.len() == all.len(),
            forall|k: int|
                0 <= k < reversed@.len() ==> #[trigger] reversed@[k] == operation_of(
                    all[all.len() - 1 - k],
                ),
            forall|k: int| 0 <= k < r@.len() ==> #[trigger] r@[k] == operation_of(all[k]),
        decreases reversed@.len(),
    {
        if let Some(operation) = reversed.pop() {
            r.push(operation);
        }
    }
    assert(r@ =~= operations_of(all));
    r
}

/// Applies `patch` to a copy of `mailing`. Fails when an index is out of
/// range, so the model gets a clear message instead of a silent drop.
pub fn apply_patch(mailing: &Mailing, patch: MailingPatch) -> (r: Result<Mailing, String>)
    ensures
        match r {
            Ok(result) => {
                &&& patch::first_error(
                    operations_of(patch.emails@),
                    mailing.emails@.len() as int,
                    0,
                ) is None
                &&& result.title == (match patch.title {
                    Some(title) => title,
                    None => mailing.title,
                })
                &&& result.theme == (match patch.theme {
                    Some(theme) => theme,
                    None => mailing.theme,
                })
                &&& result.format == mailing.format
                &&& result.outline@ == mailing.outline@
                &&& result.emails@ == patch::patched(mailing.emails@, operations_of(patch.emails@))
            },
            Err(text) => match patch::first_error(
                operations_of(patch.emails@),
                mailing.emails@.len() as int,
                0,
            ) {
                Some(error) => text@ == patch::message(
                    error,
                    wording(),
                    mailing.emails@.len(),
                ),
                None => false,
            },
        },
{
    let operations = to_operations(patch.emails);
    match apply_operations(&mailing.emails, &operations) {
        Ok(emails) => Ok(
            Mailing {
                title: match patch.title {
                    Some(title) => title,
                    None => mailing.title.clone(),
                },
                theme: match patch.theme {
                    Some(theme) => theme,
                    None => mailing.theme.duplicate(),
                },
                format: mailing.format,
                emails,
                outline: duplicate_list(&mailing.outline),
            },
        ),
        Err(error) => {
            let words = Wording { artifact: "mailing", unit: "email", plural: "emails" };
            Err(describe(error, &words, mailing.emails.len()))
        },
    }
}

/// A patch that names nothing keeps the mailing.
pub proof fn law_an_empty_patch_keeps_the_mailing(mailing: Mailing)
    ensures
        patch::first_error(
            operations_of(Seq::<EmailPatch>::empty()),
            mailing.emails@.len() as int,
            0,
        ) is None,
        patch::patched(mailing.emails@, operations_of(Seq::<EmailPatch>::empty()))
            == mailing.emails@,
{
    assert(operations_of(Seq::<EmailPatch>::empty()) =~= Seq::<UnitPatch<Email>>::empty());
    patch::law_no_operations_keep_the_units(mailing.emails@);
}

/// One email operation does to the emails what it says: it replaces, deletes, or
/// inserts one email, and every other email stays.
pub proof fn law_one_operation_changes_one_email(emails: Seq<Email>, index: usize, email: Email)
    ensures
        index < emails.len() ==> patch::patched(
            emails,
            operations_of(seq![EmailPatch { index, insert: false, email: Some(email) }]),
        ) == emails.update(index as int, email),
        index < emails.len() ==> patch::patched(
            emails,
            operations_of(seq![EmailPatch { index, insert: false, email: None }]),
        ) == emails.remove(index as int),
        index <= emails.len() ==> patch::patched(
            emails,
            operations_of(seq![EmailPatch { index, insert: true, email: Some(email) }]),
        ) == emails.insert(index as int, email),
{
    let replaced = EmailPatch { index, insert: false, email: Some(email) };
    let deleted = EmailPatch { index, insert: false, email: None };
    let inserted = EmailPatch { index, insert: true, email: Some(email) };
    assert(operations_of(seq![replaced]) =~= seq![
        UnitPatch { index, insert: false, unit: Some(email) },
    ]);
    assert(operations_of(seq![deleted]) =~= seq![
        UnitPatch { index, insert: false, unit: None::<Email> },
    ]);
    assert(operations_of(seq![inserted]) =~= seq![
        UnitPatch { index, insert: true, unit: Some(email) },
    ]);
    if index < emails.len() {
        patch::law_a_replacement_changes_one_unit(emails, index, email);
        patch::law_a_deletion_removes_one_unit(emails, index);
    }
    if index <= emails.len() {
        patch::law_an_insert_adds_one_unit(emails, index, email);
    }
}

} // verus!
