//! Patches of documents and mailings, and the focus of an edit.

use swift_design::document_patch;
use swift_design::document_patch::{DocumentPatch, PagePatch};
use swift_design::edit_focus::{
    bullets_of, edit_view, findings_for, findings_note, fix_instruction, focus_note,
    focused_units, fresh_unit, named_units, referenced_indexes, touched_indexes, EditView,
};
use swift_design::mailing_patch;
use swift_design::mailing_patch::{EmailPatch, MailingPatch};
use swift_design::model::{
    Colors, Document, Duplicate, Email, EmailFormat, Fonts, Mailing, Page, Paper, Theme,
};
use swift_design::patch::{
    apply_operations, describe, invalid_patch, json_object, PatchError, UnitPatch, Wording,
    NO_OBJECT,
};

fn theme() -> Theme {
    Theme {
        name: "plain".to_owned(),
        colors: Colors {
            background: "#ffffff".to_owned(),
            text: "#1a1d21".to_owned(),
            accent: "#2f6fdd".to_owned(),
            muted: "#6b7480".to_owned(),
        },
        fonts: Fonts {
            heading: "Inter".to_owned(),
            body: "Inter".to_owned(),
            mono: "JetBrains Mono".to_owned(),
        },
    }
}

fn document() -> Document {
    let page = |html: &str, notes: &str| Page {
        html: html.to_owned(),
        css: Some("h1{margin:0}".to_owned()),
        notes: Some(notes.to_owned()),
    };
    Document {
        title: "Swift Design Quarterly Report".to_owned(),
        theme: theme(),
        paper: Paper::A4,
        pages: vec![
            page("<h1>Swift Design</h1>", "The cover."),
            page("<h2>Summary</h2>", "The summary."),
            page("<h2>Numbers</h2>", "The numbers."),
        ],
        outline: Vec::new(),
    }
}

fn mailing() -> Mailing {
    let email = |html: &str, notes: &str| Email {
        html: html.to_owned(),
        css: None,
        notes: Some(notes.to_owned()),
    };
    Mailing {
        title: "Swift Design launch email".to_owned(),
        theme: theme(),
        format: EmailFormat::Standard,
        emails: vec![
            email("<h1>One</h1>", "Subject: One."),
            email("<h1>Two</h1>", "Subject: Two."),
        ],
        outline: Vec::new(),
    }
}

fn note_of(notes: &Option<String>) -> &str {
    notes.as_deref().unwrap_or("")
}

fn no_document_patch() -> DocumentPatch {
    DocumentPatch {
        title: None,
        theme: None,
        pages: Vec::new(),
    }
}

fn no_mailing_patch() -> MailingPatch {
    MailingPatch {
        title: None,
        theme: None,
        emails: Vec::new(),
    }
}

fn texts(list: &[&str]) -> Vec<String> {
    list.iter().map(|text| text.to_string()).collect()
}

#[test]
fn document_patch_replace_delete_and_insert_use_original_indexes() {
    let original = document();
    let mut replacement = original.pages[0].duplicate();
    replacement.notes = Some("replaced".to_owned());
    let mut inserted = original.pages[1].duplicate();
    inserted.notes = Some("inserted".to_owned());
    let patch = DocumentPatch {
        title: Some("New".to_owned()),
        theme: None,
        pages: vec![
            PagePatch {
                index: 0,
                insert: false,
                page: Some(replacement),
            },
            PagePatch {
                index: 1,
                insert: false,
                page: None,
            },
            PagePatch {
                index: 3,
                insert: true,
                page: Some(inserted),
            },
        ],
    };
    let patched = document_patch::apply_patch(&original, patch).unwrap();
    assert_eq!(patched.title, "New");
    assert_eq!(patched.pages.len(), 3);
    assert_eq!(note_of(&patched.pages[0].notes), "replaced");
    assert_eq!(
        note_of(&patched.pages[1].notes),
        note_of(&original.pages[2].notes)
    );
    assert_eq!(note_of(&patched.pages[2].notes), "inserted");
}

#[test]
fn document_patch_out_of_range_indexes_are_errors() {
    let original = document();
    let mut patch = no_document_patch();
    patch.pages.push(PagePatch {
        index: 7,
        insert: false,
        page: None,
    });
    let error = document_patch::apply_patch(&original, patch).unwrap_err();
    assert!(error.contains("does not exist"));
    assert_eq!(
        error,
        "pages[7] does not exist: the document has 3 pages, use 0 to 2"
    );
    let mut patch = no_document_patch();
    patch.pages.push(PagePatch {
        index: 9,
        insert: true,
        page: None,
    });
    assert!(document_patch::apply_patch(&original, patch).is_err());
}

#[test]
fn an_empty_patch_keeps_the_document() {
    let original = document();
    assert_eq!(json_object("Sure: {}"), Ok("{}".to_owned()));
    let patched = document_patch::apply_patch(&original, no_document_patch()).unwrap();
    assert_eq!(patched, original);
    assert!(json_object("no json").is_err());
}

#[test]
fn the_format_speaks_of_pages() {
    assert!(document_patch::PATCH_FORMAT.contains("\"pages\""));
    assert!(!document_patch::PATCH_FORMAT.contains("screen"));
    assert!(!document_patch::PATCH_FORMAT.contains("slide"));
}

#[test]
fn mailing_patch_replace_delete_and_insert_use_original_indexes() {
    let original = mailing();
    let mut replacement = original.emails[0].duplicate();
    replacement.notes = Some("replaced".to_owned());
    let mut inserted = original.emails[1].duplicate();
    inserted.notes = Some("inserted".to_owned());
    let patch = MailingPatch {
        title: Some("New".to_owned()),
        theme: None,
        emails: vec![
            EmailPatch {
                index: 0,
                insert: false,
                email: Some(replacement),
            },
            EmailPatch {
                index: 1,
                insert: false,
                email: None,
            },
            EmailPatch {
                index: 2,
                insert: true,
                email: Some(inserted),
            },
        ],
    };
    let patched = mailing_patch::apply_patch(&original, patch).unwrap();
    assert_eq!(patched.title, "New");
    assert_eq!(patched.emails.len(), 2);
    assert_eq!(note_of(&patched.emails[0].notes), "replaced");
    assert_eq!(note_of(&patched.emails[1].notes), "inserted");
}

#[test]
fn mailing_patch_out_of_range_indexes_are_errors() {
    let original = mailing();
    let mut patch = no_mailing_patch();
    patch.emails.push(EmailPatch {
        index: 7,
        insert: false,
        email: None,
    });
    let error = mailing_patch::apply_patch(&original, patch).unwrap_err();
    assert!(error.contains("does not exist"));
    assert_eq!(
        error,
        "emails[7] does not exist: the mailing has 2 emails, use 0 to 1"
    );
    let mut patch = no_mailing_patch();
    patch.emails.push(EmailPatch {
        index: 9,
        insert: true,
        email: None,
    });
    assert!(mailing_patch::apply_patch(&original, patch).is_err());
}

#[test]
fn an_empty_patch_keeps_the_mailing() {
    let original = mailing();
    assert_eq!(json_object("Sure: {}"), Ok("{}".to_owned()));
    let patched = mailing_patch::apply_patch(&original, no_mailing_patch()).unwrap();
    assert_eq!(patched, original);
    assert!(json_object("no json").is_err());
}

#[test]
fn the_format_speaks_of_emails() {
    assert!(mailing_patch::PATCH_FORMAT.contains("\"emails\""));
    assert!(!mailing_patch::PATCH_FORMAT.contains("screen"));
    assert!(!mailing_patch::PATCH_FORMAT.contains("slide"));
}

#[test]
fn references_name_the_units_zero_based_without_repeats() {
    let instruction =
        "[slide 4, node 0/4/3 <span>: x] [slide 2, node 1 <h2>] [slide 4, node 1 <p>] fix";
    assert_eq!(referenced_indexes(instruction, "slide"), vec![1, 3]);
    assert!(referenced_indexes(instruction, "screen").is_empty());
    assert!(referenced_indexes("make every title bigger", "slide").is_empty());
}

#[test]
fn a_focused_change_sees_only_its_units_findings() {
    let findings = vec![
        "slides[1] h2 (0/1): too tall: cut".to_owned(),
        "slides[3] p (0/2): overflow: shorten".to_owned(),
        "slides[10] p (0/2): overflow: shorten".to_owned(),
    ];
    assert_eq!(
        findings_for(&findings, "slides", &[1]),
        vec![findings[0].clone()]
    );
    assert_eq!(findings_for(&findings, "slides", &[]), findings);
}

#[test]
fn the_touched_units_are_the_named_and_the_changed_ones() {
    let before = vec!["a", "b", "c"];
    let after = vec!["a", "B", "c", "d"];
    assert_eq!(touched_indexes(&before, &after, &[2, 9]), vec![1, 2, 3]);
    assert!(touched_indexes(&before, &before, &[]).is_empty());
    assert!(fix_instruction("slides").contains("in the slides shown"));
}

#[test]
fn the_notes_name_the_units_and_the_findings() {
    let note = focus_note("slide", "slides", &[1, 3], 12);
    assert!(note.contains("slide 2, 4 of 12"));
    assert!(note.contains("Do not replace, delete, or insert any other slide."));
    assert_eq!(findings_note(&[]), "");
    assert!(
        findings_note(&["slides[1] p: overflow".to_owned()]).contains("- slides[1] p: overflow")
    );
}

#[test]
fn a_title_and_a_theme_replace_the_old_ones() {
    let mut other = theme();
    other.name = "dark".to_owned();
    let patch = DocumentPatch {
        title: None,
        theme: Some(other),
        pages: Vec::new(),
    };
    let patched = document_patch::apply_patch(&document(), patch).unwrap();
    assert_eq!(patched.theme.name, "dark");
    assert_eq!(patched.title, document().title);
    assert_eq!(patched.pages, document().pages);
}

#[test]
fn operations_give_each_error() {
    let units = texts(&["a", "b"]);
    let operation = |index: usize, insert: bool, unit: Option<&str>| UnitPatch {
        index,
        insert,
        unit: unit.map(str::to_owned),
    };
    assert_eq!(
        apply_operations(&units, &[operation(0, true, None)]).unwrap_err(),
        PatchError::NoUnit(0)
    );
    assert_eq!(
        apply_operations(&units, &[operation(3, true, Some("x"))]).unwrap_err(),
        PatchError::PastEnd(3)
    );
    assert_eq!(
        apply_operations(&units, &[operation(2, false, Some("x"))]).unwrap_err(),
        PatchError::NoSuchUnit(2)
    );
    let wording = Wording {
        artifact: "document",
        unit: "page",
        plural: "pages",
    };
    assert!(describe(PatchError::NoUnit(0), &wording, 2).contains("pages[0]"));
    assert!(describe(PatchError::PastEnd(3), &wording, 2).contains("pages[3]"));
    assert_eq!(
        describe(PatchError::NoSuchUnit(2), &wording, 2),
        "pages[2] does not exist: the document has 2 pages, use 0 to 1"
    );
}

#[test]
fn each_operation_does_one_thing() {
    let units = texts(&["a", "b", "c"]);
    let operation = |index: usize, insert: bool, unit: Option<&str>| UnitPatch {
        index,
        insert,
        unit: unit.map(str::to_owned),
    };
    assert_eq!(apply_operations(&units, &[]).unwrap(), units);
    assert_eq!(
        apply_operations(&units, &[operation(1, false, Some("x"))]).unwrap(),
        ["a", "x", "c"]
    );
    assert_eq!(
        apply_operations(&units, &[operation(1, false, None)]).unwrap(),
        ["a", "c"]
    );
    assert_eq!(
        apply_operations(&units, &[operation(1, true, Some("x"))]).unwrap(),
        ["a", "x", "b", "c"]
    );
    assert_eq!(
        apply_operations(
            &units,
            &[
                operation(3, true, Some("y")),
                operation(3, true, Some("z")),
                operation(0, false, None),
                operation(0, false, Some("A")),
            ]
        )
        .unwrap(),
        ["A", "b", "c", "y", "z"]
    );
}

#[test]
fn the_object_of_a_reply_runs_from_the_first_to_the_last_brace() {
    assert_eq!(json_object("a {x} b {y} c"), Ok("{x} b {y}".to_owned()));
    assert_eq!(json_object("} {"), Err(NO_OBJECT.to_owned()));
    assert_eq!(json_object("{ open"), Err(NO_OBJECT.to_owned()));
    assert!(invalid_patch("bad token").contains("bad token"));
}

#[test]
fn an_edit_is_focused_when_it_names_units() {
    assert_eq!(named_units("[page 2] [page 9] fix", "page", 3), [1]);
    assert_eq!(edit_view(&[], false), EditView::Whole);
    assert_eq!(edit_view(&[1], false), EditView::Focused);
    assert_eq!(edit_view(&[1], true), EditView::Fresh);
}

#[test]
fn a_focused_view_shows_only_the_named_units() {
    let pages = document().pages;
    let shown = focused_units(&pages, &[2, 7, 0], false);
    assert_eq!(shown.len(), 2);
    assert_eq!(shown[0].index, 2);
    assert_eq!(shown[0].unit, pages[2]);
    assert_eq!(shown[1].index, 0);
    let fresh = focused_units(&pages, &[1], true);
    assert_eq!(fresh[0].unit.html, "");
    assert_eq!(fresh[0].unit.css, None);
    assert_eq!(fresh[0].unit.notes, pages[1].notes);
    assert_eq!(fresh_unit(&pages[1]), fresh[0].unit);
}

#[test]
fn bullets_start_with_a_dash() {
    assert_eq!(bullets_of(&texts(&["a", "b"])), ["- a", "- b"]);
}

#[test]
fn the_same_units_in_any_order_are_one_list() {
    assert_eq!(
        referenced_indexes("[page 3] [page 1] [page 3]", "page"),
        referenced_indexes("[page 1] [page 3]", "page")
    );
    assert!(referenced_indexes("[page 0]", "page").is_empty());
}
