//! Prompts, instructions, replies in progress, and previews.

use swift_design::continuation::{
    append_units, continue_chunks, continued_units, end_of_continuation, new_items,
    placeholder_email, placeholder_page, placeholder_screen, read_units, shown_units,
    take_streamed, units_written, written_units, ContinueChunk, ContinueEnd, LiveSaver,
};
use swift_design::design_generation;
use swift_design::document_generation;
use swift_design::document_generation::{
    apply_document_continuation, continuation_pages, continued_document, partial_document,
    shown_document,
};
use swift_design::document_patch;
use swift_design::edit_focus::{focused_units, FocusedUnit};
use swift_design::focus_view::{focused_json, FocusView};
use swift_design::instructions::{
    instructions, joined_rules, route, steps, Examples, CHART_EXAMPLE, CHART_RULES, DECK_RULES,
    DEMO_RULES, DOCUMENT_RULES, MAILING_RULES, PRINT_RULES, ROUTES, SOCIAL_RULES,
};
use swift_design::json::{parse_json, Field, Json, Number};
use swift_design::mailing_generation;
use swift_design::mailing_generation::{
    apply_mailing_continuation, continuation_emails, partial_mailing, shown_mailing,
};
use swift_design::mailing_patch;
use swift_design::model::{
    Colors, Design, Document, Duplicate, Email, EmailFormat, Fonts, Mailing, Page, Paper, Screen,
    Theme, Transition, TransitionAxis, TransitionEffect, Viewport,
};
use swift_design::patch::json_object;
use swift_design::prompts::{
    candidate_prompt, continue_prompt, edit_prompt, email_count_note, format_note,
    page_count_note, paper_note, preview_note, system_prompt, template_note, CandidateInput,
    ContinueInput, EditInput, Kind, SystemInput, TemplateInput,
};
use swift_design::stream::{complete_array_items, partial_json, partial_units_json};

const PENDING: &str = "swift-design-pending";

fn theme() -> Theme {
    Theme {
        name: "report".to_owned(),
        colors: Colors {
            background: "#ffffff".to_owned(),
            text: "#1a1d21".to_owned(),
            accent: "#2f6fdd".to_owned(),
            muted: "#6b7480".to_owned(),
        },
        fonts: Fonts {
            heading: "Inter".to_owned(),
            body: "Inter".to_owned(),
            mono: "JetBrains Mono".to_owned(),
        },
    }
}

fn page(html: &str, css: &str, notes: &str) -> Page {
    Page {
        html: html.to_owned(),
        css: Some(css.to_owned()),
        notes: Some(notes.to_owned()),
    }
}

fn sample_document() -> Document {
    Document {
        title: "Swift Design Quarterly Report".to_owned(),
        theme: theme(),
        paper: Paper::A4,
        pages: vec![
            page(
                "<div class='p1-cover'><p>Quarterly report</p><h1>Swift Design</h1></div>",
                ".p1-cover{padding:80px}",
                "The cover.",
            ),
            page(
                "<h2>Summary</h2><p>The harness asks a few questions, then writes.</p>\
                 <h3>What changed</h3><ul><li>Link capture reads a website into the run.</li>\
                 <li>Documents export as Word files.</li><li>Edits run per page.</li></ul>\
                 <h3>What is next</h3><p>More kinds.</p>",
                "h2{margin:0}",
                "The summary.",
            ),
            page(
                "<h2>Numbers</h2><table><tr><th>Month</th><th>Runs</th><th>Edits</th></tr>\
                 <tr><td>January</td><td>40</td><td>90</td></tr>\
                 <tr><td>February</td><td>55</td><td>120</td></tr>\
                 <tr><td>March</td><td>70</td><td>180</td></tr>\
                 <tr><td>April</td><td>90</td><td>240</td></tr></table>\
                 <p>Edits count every saved change.</p>",
                "h2{margin:0}",
                "The numbers.",
            ),
        ],
        outline: Vec::new(),
    }
}

fn sample_mailing() -> Mailing {
    Mailing {
        title: "Swift Design launch email".to_owned(),
        theme: theme(),
        format: EmailFormat::Standard,
        emails: vec![email("<h1>One</h1>"), email("<h1>Two</h1>")],
        outline: Vec::new(),
    }
}

fn email(html: &str) -> Email {
    Email {
        html: html.to_owned(),
        css: None,
        notes: Some("Subject: S.".to_owned()),
    }
}

fn sample_design() -> Design {
    Design {
        title: "Swift Design Overview".to_owned(),
        theme: theme(),
        viewport: Viewport {
            width: 1440,
            height: 900,
        },
        transition: None,
        screens: vec![screen("Home")],
        outline: Vec::new(),
    }
}

fn screen(name: &str) -> Screen {
    Screen {
        name: name.to_owned(),
        html: format!("<h1>{name}</h1>"),
        css: None,
        notes: None,
    }
}

fn texts(list: &[&str]) -> Vec<String> {
    list.iter().map(|text| text.to_string()).collect()
}

fn text(value: &str) -> Json {
    Json::Text(value.to_owned())
}

/// The texts of a value, joined.
fn gathered(value: &Json) -> String {
    match value {
        Json::Text(text) => text.clone(),
        Json::List(items) => items.iter().map(gathered).collect::<Vec<String>>().join("\n"),
        Json::Record(fields) => fields
            .iter()
            .map(|field| format!("{}\n{}", field.name, gathered(&field.value)))
            .collect::<Vec<String>>()
            .join("\n"),
        _ => String::new(),
    }
}

fn at<'a>(value: &'a Json, path: &[&str]) -> &'a Json {
    let mut found = value;
    for name in path {
        found = found.field(name).unwrap();
    }
    found
}

fn said(value: &Json, path: &[&str]) -> String {
    match at(value, path) {
        Json::Text(text) => text.clone(),
        other => panic!("expected a text, got {other:?}"),
    }
}

fn payload() -> Json {
    let example = |title: &str| {
        Json::Record(vec![Field {
            name: "title".to_owned(),
            value: text(title),
        }])
    };
    instructions(
        3,
        6,
        Examples {
            design: example("Swift Design Overview"),
            deck: example("Swift Design Deck Overview"),
            document: example("Swift Design Quarterly Report"),
            social: example("Social"),
            print: example("Print"),
            mailing: example("Swift Design launch email"),
        },
    )
}

/// The units of a continuation reply, read as pages.
fn pages_in(items: &[Json]) -> Vec<Page> {
    items
        .iter()
        .map(|item| Page {
            html: said(item, &["html"]),
            css: None,
            notes: None,
        })
        .collect()
}

#[test]
fn a_focused_document_edit_shows_only_the_named_pages_and_their_findings() {
    let document = sample_document();
    let units = focused_units(&document.pages, &[1], false)
        .into_iter()
        .map(|shown| FocusedUnit {
            index: shown.index,
            unit: text(&shown.unit.html),
        })
        .collect();
    let value = focused_json(
        Kind::Document,
        FocusView {
            title: document.title.clone(),
            theme: text("theme"),
            canvas: text(document.paper.as_str()),
            count: document.pages.len(),
            units,
        },
    );
    assert_eq!(
        at(&value, &["page_count"]).whole(),
        Some(document.pages.len() as u64)
    );
    assert_eq!(said(&value, &["paper"]), "a4");
    let pages = at(&value, &["pages"]).items().unwrap();
    assert_eq!(pages.len(), 1);
    assert_eq!(at(&pages[0], &["index"]).whole(), Some(1));
    let findings = vec!["pages[1] p (0/2): overflow: shorten".to_owned()];
    let input = EditInput {
        instruction: "[page 2, node 0/2 <p>: x] Fix the overflow.",
        artifact_json: &gathered(&value),
        note: "Only page 2 is shown.\n",
        findings: &findings,
        request: "A report.",
        format: document_patch::PATCH_FORMAT,
    };
    let prompt = edit_prompt(Kind::Document, &input);
    assert!(prompt.contains("Only page 2 is shown."));
    assert!(prompt.contains("Chrome measured these layout problems"));
    assert!(prompt.contains("- pages[1] p (0/2): overflow: shorten"));
    assert!(prompt.contains("Apply this change: [page 2, node 0/2 <p>: x] Fix the overflow."));
    assert!(!prompt.contains("slide"));
}

#[test]
fn the_page_count_and_the_paper_hold_the_document_to_the_asked_shape() {
    assert_eq!(paper_note(None), "");
    assert_eq!(paper_note(Some("tabloid")), "");
    assert_eq!(
        paper_note(Some("letter")),
        "Lay the pages out on Letter paper: 816 by 1056 px. Set `paper` to `letter`.\n"
    );
    assert_eq!(page_count_note(None, None), "");
    assert_eq!(page_count_note(None, Some(3)), "");
    assert_eq!(
        page_count_note(Some(12), None),
        "The user asked for 12 pages. Write exactly 12 pages.\n"
    );
    // A preview writes three pages, so the length goes to the outline.
    assert_eq!(
        page_count_note(Some(12), Some(3)),
        "The user asked for 12 pages. Put exactly 12 titles in `outline`.\n"
    );
}

#[test]
fn document_system_prompt_carries_document_rules_the_schema_and_the_example() {
    let rules = joined_rules(&DOCUMENT_RULES);
    let prompt = system_prompt(
        Kind::Document,
        &SystemInput {
            rules: &rules,
            schema: "{\"properties\":{\"pages\":{},\"paper\":{}}}",
            example: "{\"title\":\"Swift Design Quarterly Report\"}",
            limit: 3,
        },
    );
    assert!(prompt.contains("paged documents"));
    assert!(prompt.contains("794 by 1123 px"));
    assert!(prompt.contains("\"pages\""));
    assert!(prompt.contains("\"paper\""));
    assert!(prompt.contains("Swift Design Quarterly Report"));
    assert!(prompt.contains("needs_clarification"));
    assert!(!prompt.contains("\"viewport\""));
    assert!(!prompt.contains("\"slides\""));
}

#[test]
fn partial_document_returns_complete_pages_only() {
    let reply = r##"{"title":"T","theme":{"name":"m","colors":{"background":"#ffffff","text":"#1a1d21","accent":"#2f6fdd","muted":"#6b7480"},"fonts":{"heading":"Inter","body":"Inter","mono":"Inter"}},"paper":"letter","pages":[{"html":"<h1>One</h1>"},{"html":"<h1>Tw"##;
    let document = parse_json(&partial_document(reply).unwrap()).unwrap();
    assert_eq!(at(&document, &["pages"]).items().unwrap().len(), 1);
    assert_eq!(
        Paper::from_name(&said(&document, &["paper"])),
        Some(Paper::Letter)
    );
    assert!(partial_document("{\"title\":\"T\"").is_none());
}

#[test]
fn continuation_pages_reject_a_short_reply() {
    let mut preview = sample_document();
    preview.outline = texts(&["A", "B", "C", "D"]);
    assert!(continuation_pages(3, "{\"pages\":[]}")
        .and_then(|items| apply_document_continuation(&preview, &pages_in(&items)))
        .is_err());
    let patch = r#"{"pages":[{"index":3,"insert":true,"page":{"html":"<h2>D</h2>"}}]}"#;
    let items = continuation_pages(3, patch).unwrap();
    assert_eq!(items.len(), 1);
    let continued = apply_document_continuation(&preview, &pages_in(&items)).unwrap();
    assert_eq!(continued.pages.len(), 4);
    assert_eq!(continued.pages[3].html, "<h2>D</h2>");
    assert!(continued.outline.is_empty());
    assert!(continuation_pages(3, "{\"slides\":[]}").is_err());
    assert!(json_object("no json").is_err());
}

#[test]
fn shown_documents_pad_earlier_chunks_with_placeholders() {
    let mut preview = sample_document();
    preview.outline = (1..=7).map(|number| format!("Page {number}")).collect();
    let chunks = [
        ContinueChunk { first: 3, count: 2 },
        ContinueChunk { first: 5, count: 2 },
    ];
    let board = vec![
        Vec::new(),
        vec![
            placeholder_page("x", PENDING),
            placeholder_page("y", PENDING),
        ],
    ];
    let shown = shown_document(&preview, &chunks, &board, PENDING);
    assert_eq!(shown.pages.len(), 7);
    assert!(shown.pages[3].html.contains("Page 4"));
}

#[test]
fn a_focused_mailing_edit_shows_only_the_named_emails_and_their_findings() {
    let mailing = sample_mailing();
    let units = focused_units(&mailing.emails, &[1], false)
        .into_iter()
        .map(|shown| FocusedUnit {
            index: shown.index,
            unit: text(&shown.unit.html),
        })
        .collect();
    let value = focused_json(
        Kind::Mailing,
        FocusView {
            title: mailing.title.clone(),
            theme: text("theme"),
            canvas: text(mailing.format.as_str()),
            count: mailing.emails.len(),
            units,
        },
    );
    assert_eq!(
        at(&value, &["email_count"]).whole(),
        Some(mailing.emails.len() as u64)
    );
    assert_eq!(said(&value, &["format"]), "standard");
    let emails = at(&value, &["emails"]).items().unwrap();
    assert_eq!(emails.len(), 1);
    assert_eq!(at(&emails[0], &["index"]).whole(), Some(1));
    let findings = vec!["emails[1] p (0/2): overflow: shorten".to_owned()];
    let input = EditInput {
        instruction: "[email 2, node 0/2 <p>: x] Fix the overflow.",
        artifact_json: &gathered(&value),
        note: "Only email 2 is shown.\n",
        findings: &findings,
        request: "A launch email.",
        format: mailing_patch::PATCH_FORMAT,
    };
    let prompt = edit_prompt(Kind::Mailing, &input);
    assert!(prompt.contains("Only email 2 is shown."));
    assert!(prompt.contains("Chrome measured these layout problems"));
    assert!(prompt.contains("- emails[1] p (0/2): overflow: shorten"));
    assert!(prompt.contains("Apply this change: [email 2, node 0/2 <p>: x] Fix the overflow."));
    assert!(!prompt.contains("slide"));
}

#[test]
fn the_email_count_and_the_format_hold_the_mailing_to_the_asked_shape() {
    assert_eq!(format_note(None), "");
    assert_eq!(format_note(Some("tall")), "");
    assert_eq!(
        format_note(Some("long")),
        "Lay the emails out on the long format: 600 by 1800 px. Set `format` to `long`.\n"
    );
    assert_eq!(
        format_note(Some("short")),
        "Lay the emails out on the short format: 600 by 800 px. Set `format` to `short`.\n"
    );
    assert_eq!(email_count_note(None, None), "");
    assert_eq!(email_count_note(None, Some(1)), "");
    assert_eq!(
        email_count_note(Some(2), None),
        "The user asked for 2 emails. Write exactly 2 emails.\n"
    );
    // A preview writes one email, so the length goes to the outline.
    assert_eq!(
        email_count_note(Some(2), Some(1)),
        "The user asked for 2 emails. Put exactly 2 titles in `outline`.\n"
    );
}

#[test]
fn mailing_system_prompt_carries_mailing_rules_the_schema_and_the_example() {
    let rules = joined_rules(&MAILING_RULES);
    let prompt = system_prompt(
        Kind::Mailing,
        &SystemInput {
            rules: &rules,
            schema: "{\"properties\":{\"emails\":{},\"format\":{}}}",
            example: "{\"title\":\"Swift Design launch email\"}",
            limit: 3,
        },
    );
    assert!(prompt.contains("email sequences read in an inbox"));
    assert!(prompt.contains("600 by 1200 px for standard"));
    assert!(prompt.contains("\"emails\""));
    assert!(prompt.contains("\"format\""));
    assert!(prompt.contains("Swift Design launch email"));
    assert!(prompt.contains("needs_clarification"));
    assert!(!prompt.contains("\"viewport\""));
    assert!(!prompt.contains("\"slides\""));
}

#[test]
fn partial_mailing_returns_complete_emails_only() {
    let reply = r##"{"title":"T","theme":{"name":"m","colors":{"background":"#ffffff","text":"#1a1d21","accent":"#2f6fdd","muted":"#6b7480"},"fonts":{"heading":"Inter","body":"Inter","mono":"Inter"}},"format":"long","emails":[{"html":"<h1>One</h1>"},{"html":"<h1>Tw"##;
    let mailing = parse_json(&partial_mailing(reply).unwrap()).unwrap();
    assert_eq!(at(&mailing, &["emails"]).items().unwrap().len(), 1);
    assert_eq!(
        EmailFormat::from_name(&said(&mailing, &["format"])),
        Some(EmailFormat::Long)
    );
    assert!(partial_mailing("{\"title\":\"T\"").is_none());
}

#[test]
fn continuation_emails_reject_a_short_reply() {
    let mut preview = sample_mailing();
    preview.outline = texts(&["A", "B", "C"]);
    assert!(continuation_emails(2, "{\"emails\":[]}")
        .and_then(|_| apply_mailing_continuation(&preview, &[]))
        .is_err());
    let patch = r#"{"emails":[{"index":2,"insert":true,"email":{"html":"<h2>C</h2>"}}]}"#;
    let items = continuation_emails(2, patch).unwrap();
    assert_eq!(items.len(), 1);
    let continued =
        apply_mailing_continuation(&preview, &[email(&said(&items[0], &["html"]))]).unwrap();
    assert_eq!(continued.emails.len(), 3);
    assert!(continued.outline.is_empty());
    assert!(continuation_emails(2, "{\"slides\":[]}").is_err());
    assert!(json_object("no json").is_err());
}

#[test]
fn shown_mailings_pad_earlier_chunks_with_placeholders() {
    let mut preview = sample_mailing();
    preview.outline = (1..=4).map(|number| format!("Email {number}")).collect();
    let chunks = [
        ContinueChunk { first: 2, count: 1 },
        ContinueChunk { first: 3, count: 1 },
    ];
    let board = vec![Vec::new(), vec![placeholder_email("x", PENDING)]];
    let shown = shown_mailing(&preview, &chunks, &board, PENDING);
    assert_eq!(shown.emails.len(), 4);
    assert!(shown.emails[2].html.contains("Email 3"));
}

#[test]
fn system_prompt_names_the_clarification_protocol() {
    let rules = joined_rules(&DEMO_RULES);
    let prompt = system_prompt(
        Kind::Design,
        &SystemInput {
            rules: &rules,
            schema: "{\"properties\":{\"viewport\":{}}}",
            example: "{}",
            limit: 3,
        },
    );
    assert!(prompt.contains("The request and the answers are authoritative"));
    assert!(prompt.contains("needs_clarification"));
    assert!(prompt.contains("\"viewport\""));
}

#[test]
fn a_focused_design_edit_shows_only_the_named_screens_and_their_findings() {
    let mut design = sample_design();
    design.screens.push(design.screens[0].duplicate());
    let units = focused_units(&design.screens, &[1], false)
        .into_iter()
        .map(|shown| FocusedUnit {
            index: shown.index,
            unit: text(&shown.unit.html),
        })
        .collect();
    let value = focused_json(
        Kind::Design,
        FocusView {
            title: design.title.clone(),
            theme: text("theme"),
            canvas: text("viewport"),
            count: design.screens.len(),
            units,
        },
    );
    assert_eq!(
        at(&value, &["screen_count"]).whole(),
        Some(design.screens.len() as u64)
    );
    let screens = at(&value, &["screens"]).items().unwrap();
    assert_eq!(screens.len(), 1);
    assert_eq!(at(&screens[0], &["index"]).whole(), Some(1));
    let findings = vec!["screens[1] h1 (0/1): overflow: shorten".to_owned()];
    let input = EditInput {
        instruction: "[screen 2, node 0/1 <h1>: x] Fix it.",
        artifact_json: &gathered(&value),
        note: "Only screen 2 is shown.\n",
        findings: &findings,
        request: "A landing page.",
        format: "",
    };
    let prompt = edit_prompt(Kind::Design, &input);
    assert!(prompt.contains("Only screen 2 is shown."));
    assert!(prompt.contains("- screens[1] h1 (0/1): overflow: shorten"));
}

#[test]
fn instructions_carry_social_rules_routes_and_the_example() {
    let payload = payload();
    assert_eq!(
        at(&payload, &["social_rules"]).items().unwrap().len(),
        SOCIAL_RULES.len()
    );
    let social = gathered(at(&payload, &["social_rules"]));
    assert!(social.contains("1080 by 1350 px"));
    assert!(social.contains("`format`"));
    assert!(social.contains("titles 72 to 120px"));
    assert!(social.contains("The first frame is the hook"));
    assert!(social.contains("Do not write links between frames"));
    assert!(!social.contains("#screen-"));
    assert!(!social.contains("/decks/"));
    let routes = at(&payload, &["routes"]);
    assert_eq!(said(routes, &["schema_social"]), "GET /schemas/social");
    assert_eq!(said(routes, &["save_social"]), "PUT /socials/{id}");
    assert_eq!(
        said(routes, &["frame_image"]),
        "GET /socials/{id}/frames/{n}.png"
    );
    assert_eq!(
        said(routes, &["export_social_zip"]),
        "GET /socials/{id}/export.zip"
    );
    assert_eq!(said(routes, &["fork_social"]), "POST /socials/{id}/fork");
    assert!(said(&payload, &["kinds", "social"]).contains("`frames`"));
    let all = gathered(&payload);
    assert!(all.contains("PUT it to /socials/{id}-candidate-1"));
    assert!(all.contains("demo, deck, document, social, print, or mailing"));
    assert!(all.contains("`[frame 2]`"));
    assert!(at(&payload, &["example_social"]).field("viewport").is_none());
}

#[test]
fn instructions_carry_print_rules_routes_and_the_example() {
    let payload = payload();
    assert_eq!(
        at(&payload, &["print_rules"]).items().unwrap().len(),
        PRINT_RULES.len()
    );
    let print = gathered(at(&payload, &["print_rules"]));
    assert!(print.contains("794 by 1123 px"));
    assert!(print.contains("`size`"));
    assert!(print.contains("swaps the width and the height"));
    assert!(print.contains("safe margin"));
    assert!(print.contains("The first sheet is the face of the piece"));
    assert!(print.contains("Do not write links between sheets"));
    assert!(!print.contains("#screen-"));
    assert!(!print.contains("/decks/"));
    let routes = at(&payload, &["routes"]);
    assert_eq!(said(routes, &["schema_print"]), "GET /schemas/print");
    assert_eq!(said(routes, &["save_print"]), "PUT /prints/{id}");
    assert_eq!(
        said(routes, &["sheet_image"]),
        "GET /prints/{id}/sheets/{n}.png"
    );
    assert_eq!(
        said(routes, &["export_print_zip"]),
        "GET /prints/{id}/export.zip"
    );
    assert_eq!(said(routes, &["fork_print"]), "POST /prints/{id}/fork");
    assert!(said(&payload, &["kinds", "print"]).contains("`sheets`"));
    let all = gathered(&payload);
    assert!(all.contains("PUT it to /prints/{id}-candidate-1"));
    assert!(all.contains("demo, deck, document, social, print, or mailing"));
    assert!(all.contains("`[sheet 2]`"));
    assert!(at(&payload, &["example_print"]).field("viewport").is_none());
}

#[test]
fn instructions_carry_mailing_rules_routes_and_the_example() {
    let payload = payload();
    assert_eq!(
        at(&payload, &["mailing_rules"]).items().unwrap().len(),
        MAILING_RULES.len()
    );
    let mailing = gathered(at(&payload, &["mailing_rules"]));
    assert!(mailing.contains("600 by 1200 px"));
    assert!(mailing.contains("`format`"));
    assert!(mailing.contains("one column"));
    assert!(mailing.contains("Do not use flex"));
    assert!(mailing.contains("inline-block"));
    assert!(mailing.contains("Subject:"));
    assert!(mailing.contains("unsubscribe"));
    assert!(mailing.contains("Do not write links between emails"));
    assert!(!mailing.contains("#screen-"));
    assert!(!mailing.contains("/decks/"));
    let routes = at(&payload, &["routes"]);
    assert_eq!(said(routes, &["schema_mailing"]), "GET /schemas/mailing");
    assert_eq!(said(routes, &["save_mailing"]), "PUT /mailings/{id}");
    assert_eq!(
        said(routes, &["email_image"]),
        "GET /mailings/{id}/emails/{n}.png"
    );
    assert_eq!(
        said(routes, &["export_mailing_zip"]),
        "GET /mailings/{id}/export.zip"
    );
    assert_eq!(
        said(routes, &["export_mailing_email_zip"]),
        "GET /mailings/{id}/export.email.zip"
    );
    assert_eq!(
        said(routes, &["email_client_html"]),
        "GET /mailings/{id}/emails/{n}.html"
    );
    assert_eq!(said(routes, &["fork_mailing"]), "POST /mailings/{id}/fork");
    assert!(said(&payload, &["kinds", "mailing"]).contains("`emails`"));
    let all = gathered(&payload);
    assert!(all.contains("PUT it to /mailings/{id}-candidate-1"));
    assert!(all.contains("demo, deck, document, social, print, or mailing"));
    assert!(all.contains("`[email 2]`"));
    assert!(at(&payload, &["example_mailing"]).field("viewport").is_none());
}

#[test]
fn instructions_carry_document_rules_routes_and_the_example() {
    let payload = payload();
    assert_eq!(
        at(&payload, &["document_rules"]).items().unwrap().len(),
        DOCUMENT_RULES.len()
    );
    let document = gathered(at(&payload, &["document_rules"]));
    assert!(document.contains("794 by 1123 px"));
    assert!(document.contains("`paper`"));
    assert!(document.contains("titles 28 to 40px"));
    assert!(document.contains("A document is read, not clicked."));
    assert!(!document.contains("#screen-"));
    assert!(!document.contains("/decks/"));
    let routes = at(&payload, &["routes"]);
    assert_eq!(said(routes, &["schema_document"]), "GET /schemas/document");
    assert_eq!(said(routes, &["save_document"]), "PUT /documents/{id}");
    assert_eq!(
        said(routes, &["page_image"]),
        "GET /documents/{id}/pages/{n}.png"
    );
    assert_eq!(
        said(routes, &["export_docx"]),
        "GET /documents/{id}/export.docx"
    );
    assert_eq!(
        said(routes, &["fork_document"]),
        "POST /documents/{id}/fork"
    );
    assert!(said(&payload, &["kinds", "document"]).contains("`pages`"));
    let all = gathered(&payload);
    assert!(all.contains("PUT it to /documents/{id}-candidate-1"));
    assert!(all.contains("demo, deck, document, social, print, or mailing"));
    assert!(all.contains("`[page 2]`"));
    assert!(at(&payload, &["example_document"])
        .field("viewport")
        .is_none());
}

#[test]
fn instructions_cover_steps_rules_routes_and_an_example() {
    let payload = payload();
    assert!(!at(&payload, &["steps"]).items().unwrap().is_empty());
    assert!(!at(&payload, &["demo_rules"]).items().unwrap().is_empty());
    assert_eq!(
        said(&payload, &["routes", "schema_design"]),
        "GET /schemas/design"
    );
    assert_eq!(said(&payload, &["routes", "session"]), "GET /sessions/{id}");
    assert_eq!(
        said(&payload, &["example_design", "title"]),
        "Swift Design Overview"
    );
}

#[test]
fn instructions_name_the_modes_and_the_gating() {
    let all = gathered(&payload());
    assert!(all.contains("Plan the turn"));
    assert!(all.contains("There is no brief"));
    assert!(all.contains("at most 3 questions"));
    assert!(all.contains("When you know enough, write."));
    assert!(!all.contains("briefing mode"));
}

#[test]
fn instructions_serve_every_schema() {
    let payload = payload();
    let routes = at(&payload, &["routes"]);
    assert_eq!(said(routes, &["schema_deck"]), "GET /schemas/deck");
    assert_eq!(
        said(routes, &["schema_question_set"]),
        "GET /schemas/question-set"
    );
    assert_eq!(said(routes, &["templates"]), "GET /templates");
    assert_eq!(said(routes, &["fork_design"]), "POST /designs/{id}/fork");
    assert_eq!(said(routes, &["fork_deck"]), "POST /decks/{id}/fork");
    let all = gathered(at(&payload, &["steps"]));
    assert!(all.contains("is a merge: write one new candidate under the next free number"));
    assert!(all.contains("is_regenerate true"));
    assert!(all.contains("Number a later run after the candidates the session has"));
}

#[test]
fn instructions_carry_rules_for_both_kinds() {
    let payload = payload();
    assert_eq!(
        at(&payload, &["demo_rules"]).items().unwrap().len(),
        DEMO_RULES.len()
    );
    assert_eq!(
        at(&payload, &["deck_rules"]).items().unwrap().len(),
        DECK_RULES.len()
    );
    let demo = gathered(at(&payload, &["demo_rules"]));
    let deck = gathered(at(&payload, &["deck_rules"]));
    assert!(demo.contains("`viewport`"));
    assert!(demo.contains("On a 390 px phone canvas"));
    assert!(!demo.contains("titles 80 to 120px"));
    assert!(deck.contains("1920 by 1080 px"));
    assert!(deck.contains("titles 80 to 120px"));
    assert!(deck.contains("/decks/{id}/present"));
    assert!(!deck.contains("`viewport`."));
    assert!(said(&payload, &["kinds", "deck"]).contains("`slides`"));
}

#[test]
fn instructions_embed_the_deck_example() {
    let payload = payload();
    assert_eq!(
        said(&payload, &["example_deck", "title"]),
        "Swift Design Deck Overview"
    );
    assert!(at(&payload, &["example_deck"]).field("viewport").is_none());
}

#[test]
fn instructions_name_the_deck_routes() {
    let payload = payload();
    let routes = at(&payload, &["routes"]);
    assert_eq!(said(routes, &["save_deck"]), "PUT /decks/{id}");
    assert_eq!(said(routes, &["check_deck"]), "POST /decks/render");
    assert_eq!(said(routes, &["present"]), "GET /decks/{id}/present");
    assert_eq!(
        said(routes, &["render_audience"]),
        "GET /decks/{id}/render?audience=true"
    );
    assert_eq!(
        said(routes, &["slide_image"]),
        "GET /decks/{id}/slides/{n}.png"
    );
    let all = gathered(&payload);
    assert!(all.contains("PUT it to /decks/{id}-candidate-1"));
    assert!(all.contains("SWIFT_DESIGN_ARTIFACT_KIND"));
}

#[test]
fn the_demo_rules_explain_screen_links_and_css_widgets() {
    let demo = DEMO_RULES.join("\n");
    assert!(demo.contains("`<a href='#screen-3'>`"));
    assert!(demo.contains("`<details>` with a `<summary>`"));
    assert!(demo.contains("`<input type='checkbox'>`"));
    assert!(demo.contains("Do not write `<button>`."));
    assert!(demo.contains("Every control acts."));
    assert!(demo.contains("`static_control`"));
    let deck = DECK_RULES.join("\n");
    assert!(!deck.contains("#screen-"));
    assert!(deck.contains("`<input>` with type `checkbox` or `radio`"));
}

#[test]
fn instructions_describe_charts() {
    let payload = payload();
    let all = gathered(&payload);
    assert!(all.contains("Draw a chart as inline SVG in the screen, slide, page, or frame html."));
    assert!(all.contains("Do not load a chart library."));
    assert!(all.contains("Do not write a `<script>` element."));
    assert!(all.contains("Give the SVG a `viewBox` attribute."));
    assert!(all.contains("Take every chart color from the theme palette"));
    assert!(all.contains("Label each axis."));
    assert!(all.contains("Do not compute a value at run time."));
    assert!(all.contains("`role='img'` attribute and a `<title>` element"));
    assert_eq!(
        at(&payload, &["charts", "rules"]).items().unwrap().len(),
        8
    );
    assert_eq!(CHART_RULES.len(), 8);
    assert_eq!(said(&payload, &["charts", "example"]), CHART_EXAMPLE);
}

#[test]
fn the_chart_example_is_short_and_validates_inside_a_design() {
    assert!(CHART_EXAMPLE.lines().count() < 20);
    assert!(CHART_EXAMPLE.contains("viewBox='0 0 800 500'"));
    assert!(CHART_EXAMPLE.contains("<title>"));
    assert!(CHART_EXAMPLE.contains("var(--accent)"));
    assert!(!CHART_EXAMPLE.contains("width='800'"));
}

#[test]
fn instructions_name_every_export() {
    let payload = payload();
    let routes = at(&payload, &["routes"]);
    assert_eq!(said(routes, &["export_html"]), "GET /designs/{id}/export");
    assert!(routes.field("export_pdf").is_none());
    let all = gathered(&payload);
    assert!(all.contains("A design has no PDF export."));
    assert_eq!(
        said(routes, &["export_pptx"]),
        "GET /decks/{id}/export.pptx"
    );
    assert!(all.contains("one page per slide"));
    assert!(all.contains("PowerPoint"));
}

#[test]
fn instructions_describe_upload_rows_and_references() {
    let payload = payload();
    assert_eq!(said(&payload, &["routes", "upload"]), "GET /uploads/{name}");
    assert_eq!(
        said(&payload, &["conventions", "upload_reference"]),
        "[upload name]"
    );
    let all = gathered(&payload);
    assert!(all.contains("is_image"));
    assert!(all.contains("<img src='/uploads/"));
}

#[test]
fn every_route_has_one_name() {
    assert_eq!(route("session"), Some("GET /sessions/{id}"));
    assert_eq!(route("absent"), None);
    for (name, path) in ROUTES {
        assert_eq!(route(name), Some(path));
    }
    assert_eq!(steps(3, 6).len(), 21);
}

#[test]
fn a_preview_note_names_the_count() {
    assert!(preview_note(Kind::Design, 3).contains('3'));
    assert!(preview_note(Kind::Document, 3).contains("pages"));
    assert!(preview_note(Kind::Mailing, 1).contains("email"));
}

#[test]
fn a_continue_prompt_asks_for_the_units_of_its_chunk() {
    let outline = texts(&["A", "B", "C", "D", "E"]);
    let prompt = continue_prompt(
        Kind::Document,
        &ContinueInput {
            written: 3,
            outline: &outline,
            artifact_json: "{}",
            request: "A report.",
            chunk: ContinueChunk { first: 3, count: 2 },
        },
    );
    assert!(prompt.contains("A report."));
    assert!(prompt.contains('D'));
    assert!(prompt.contains('E'));
}

#[test]
fn a_candidate_prompt_tells_the_candidate_its_number() {
    let plain = CandidateInput {
        request: "A landing page.",
        template: None,
        preview: None,
        notes: "",
        merge: None,
        candidate_number: 2,
        count: 3,
        concept: "",
        effort: "medium",
        viewport: None,
    };
    let prompt = candidate_prompt(Kind::Document, &plain);
    assert!(prompt.contains("A landing page."));
    assert!(prompt.contains("This is candidate 2 of 3"));
}

#[test]
fn a_template_note_numbers_its_screens() {
    let screens = [Some("{\"a\":1}".to_owned()), None, Some("{}".to_owned())];
    let note = template_note(&TemplateInput {
        name: "Brand",
        theme_json: "{}",
        note: Some("Use serif."),
        screens: &screens,
    });
    assert!(note.contains("Brand"));
    assert!(note.contains("Use serif.\n"));
    assert!(note.contains("Template screen 1: {\"a\":1}\n"));
    assert!(!note.contains("Template screen 2"));
    assert!(note.contains("Template screen 3: {}\n"));
}

#[test]
fn chunks_cover_the_outline() {
    assert_eq!(
        continue_chunks(3, 10),
        [
            ContinueChunk { first: 3, count: 3 },
            ContinueChunk { first: 6, count: 3 },
            ContinueChunk { first: 9, count: 1 },
        ]
    );
    assert!(continue_chunks(5, 5).is_empty());
    assert!(continue_chunks(6, 5).is_empty());
}

#[test]
fn placeholders_are_not_written_units() {
    let units = vec![screen("Home"), placeholder_screen("Later <b>", PENDING)];
    assert!(!units[1].html.contains("<b>"));
    assert!(units[1].html.contains(PENDING));
    let written = written_units(&units, PENDING);
    assert_eq!(written.len(), 1);
    assert_eq!(written[0].name, "Home");
}

#[test]
fn a_continuation_keeps_the_units_it_started_from() {
    let units = vec![screen("A"), screen("B")];
    let board = vec![vec![screen("C")], Vec::new(), vec![screen("D")]];
    let continued = continued_units(&units, &board);
    let names: Vec<&str> = continued.iter().map(|unit| unit.name.as_str()).collect();
    assert_eq!(names, ["A", "B", "C", "D"]);
    assert_eq!(units_written(&board), 2);
    assert!(append_units(&units, &[], "screens", "screen").is_err());
    assert_eq!(
        append_units(&units, &[screen("C")], "screens", "screen")
            .unwrap()
            .len(),
        3
    );
}

#[test]
fn shown_units_stand_in_their_places() {
    let units = vec![screen("A")];
    let outline = texts(&["A", "B", "C", "D"]);
    let chunks = [
        ContinueChunk { first: 1, count: 2 },
        ContinueChunk { first: 3, count: 1 },
    ];
    let board = vec![vec![screen("B")], vec![screen("D")]];
    let shown = shown_units(&units, &outline, &chunks, &board, PENDING);
    assert_eq!(shown.len(), 4);
    assert_eq!(shown[1].name, "B");
    assert!(shown[2].html.contains(PENDING));
    assert_eq!(shown[3].name, "D");
    let unfinished = shown_units(&units, &outline, &chunks, &[vec![screen("B")], Vec::new()], PENDING);
    assert_eq!(unfinished.len(), 2);
}

#[test]
fn a_continuation_ends_in_one_of_three_ways() {
    assert_eq!(end_of_continuation(3, 3, 7), ContinueEnd::Restored);
    assert_eq!(end_of_continuation(3, 5, 7), ContinueEnd::Grown(2));
    assert_eq!(end_of_continuation(3, 7, 7), ContinueEnd::Finished(4));
    let mut preview = sample_document();
    preview.outline = texts(&["1", "2", "3", "4"]);
    let (finished, end) = continued_document(
        &preview,
        &[vec![page("<h2>4</h2>", "", "")]],
    );
    assert_eq!(end, ContinueEnd::Finished(1));
    assert_eq!(finished.pages.len(), 4);
    assert!(finished.outline.is_empty());
    let (restored, end) = continued_document(&preview, &[Vec::new()]);
    assert_eq!(end, ContinueEnd::Restored);
    assert_eq!(restored, preview);
}

#[test]
fn streamed_units_only_grow_a_row() {
    let mut row = vec![1, 2];
    assert!(!take_streamed(&mut row, vec![7]));
    assert_eq!(row, [1, 2]);
    assert!(take_streamed(&mut row, vec![7, 8, 9]));
    assert_eq!(row, [7, 8, 9]);
}

#[test]
fn a_live_save_never_goes_back() {
    let mut saver = LiveSaver::new();
    assert!(saver.may_write_partial());
    assert!(!saver.offer(false, 1));
    assert!(saver.offer(true, 1));
    assert!(!saver.offer(true, 1));
    assert!(saver.offer(true, 2));
    saver.finish();
    assert!(!saver.may_write_partial());
}

#[test]
fn read_units_stop_at_the_first_error() {
    let good = || Ok::<Page, String>(page("<p>x</p>", "", ""));
    assert_eq!(read_units(&[good(), good()], "page").unwrap().len(), 2);
    let message = read_units(&[good(), Err("missing field `html`".to_owned())], "page")
        .unwrap_err();
    assert!(message.contains("missing field `html`"));
}

#[test]
fn inserts_before_the_end_are_no_new_items() {
    let item = |index: u64| {
        Json::Record(vec![
            Field {
                name: "index".to_owned(),
                value: Json::Number(Number {
                    text: index.to_string(),
                    whole: Some(index),
                }),
            },
            Field {
                name: "insert".to_owned(),
                value: Json::Flag(true),
            },
            Field {
                name: "page".to_owned(),
                value: Json::Record(Vec::new()),
            },
        ])
    };
    let found = new_items(&vec![item(3), item(1)], 3, "page");
    assert_eq!(found.len(), 1);
}

#[test]
fn items_of_a_reply_in_progress_are_whole_objects() {
    let reply: Vec<char> = "{\"pages\":[{\"a\":\"}\"},{\"b\":{}},{\"c\":".chars().collect();
    let (_, items) = complete_array_items(&reply, "pages").unwrap();
    let items: Vec<String> = items
        .into_iter()
        .map(|item| item.into_iter().collect())
        .collect();
    assert_eq!(items, ["{\"a\":\"}\"}", "{\"b\":{}}"]);
    assert!(complete_array_items(&reply, "screens").is_none());
    let closed = partial_json("x {\"t\":1,\"pages\":[{\"a\":1},{\"b\"", "pages").unwrap();
    assert_eq!(parse_json(&closed).unwrap().field("t").unwrap().whole(), Some(1));
    let units = partial_units_json("{\"pages\":[{\"a\":1},{", "pages").unwrap();
    assert_eq!(
        at(&parse_json(&units).unwrap(), &["pages"])
            .items()
            .unwrap()
            .len(),
        1
    );
}

#[test]
fn json_reads_every_kind_of_value() {
    let value = parse_json("{\"a\":[null,true,1.5,-2,7,\"x\"],\"b\":{}}").unwrap();
    let items = at(&value, &["a"]).items().unwrap();
    assert!(matches!(items[0], Json::Null));
    assert!(matches!(items[1], Json::Flag(true)));
    assert!(matches!(&items[2], Json::Number(n) if n.text == "1.5" && n.whole.is_none()));
    assert!(matches!(&items[3], Json::Number(n) if n.text == "-2" && n.whole.is_none()));
    assert_eq!(items[4].whole(), Some(7));
    assert!(matches!(&items[5], Json::Text(x) if x == "x"));
    assert!(at(&value, &["b"]).is_record());
    assert!(matches!(value.copy(), Json::Record(fields) if fields.len() == 2));
    assert!(!parse_json("{").unwrap_err().is_empty());
}

#[test]
fn the_three_kinds_continue_the_same_way() {
    assert_eq!(
        design_generation::continuation_screens(
            1,
            "{\"screens\":[{\"index\":1,\"insert\":true,\"screen\":{\"name\":\"B\"}}]}"
        )
        .unwrap()
        .len(),
        1
    );
    let design = sample_design();
    let (grown, end) = design_generation::continued_design(&design, &[vec![screen("B")]]);
    assert_eq!(grown.screens.len(), 2);
    assert_eq!(end, ContinueEnd::Finished(1));
    assert_eq!(
        design_generation::apply_continuation(&design, &[screen("B")])
            .unwrap()
            .screens
            .len(),
        2
    );
    assert!(design_generation::apply_continuation(&design, &[]).is_err());
    let (mailing, _) = mailing_generation::continued_mailing(&sample_mailing(), &[Vec::new()]);
    assert_eq!(mailing, sample_mailing());
    assert_eq!(document_generation::fresh_page(&sample_document().pages[0]).html, "");
    assert_eq!(mailing_generation::fresh_email(&email("<p>x</p>")).html, "");
    assert_eq!(design_generation::fresh_screen(&screen("A")).name, "A");
    assert!(design_generation::partial_design("{\"screens\":[{\"name\":\"A\"},{").is_some());
    assert!(document_generation::nothing_continued("x").contains('x'));
    assert!(mailing_generation::nothing_continued("x").contains('x'));
    assert_eq!(
        document_generation::partial_continuation_pages(
            3,
            "{\"pages\":[{\"index\":3,\"insert\":true,\"page\":{\"html\":\"x\"}},{"
        )
        .len(),
        1
    );
    assert!(mailing_generation::partial_continuation_emails(3, "{").is_empty());
    assert!(design_generation::partial_continuation_screens(3, "{").is_empty());
    assert_eq!(
        document_generation::written_document(&sample_document(), PENDING),
        sample_document()
    );
    assert_eq!(
        mailing_generation::written_mailing(&sample_mailing(), PENDING),
        sample_mailing()
    );
    assert_eq!(design_generation::written_design(&design, PENDING), design);
    let shown = design_generation::shown_design(&design, &[], &[], PENDING);
    assert_eq!(shown, design);
}

#[test]
fn a_reply_that_adds_nothing_is_told_so() {
    assert_eq!(
        continuation_pages(3, "none").unwrap_err(),
        "no JSON object in reply"
    );
    assert!(continuation_pages(3, "{oops}")
        .unwrap_err()
        .starts_with("invalid JSON: "));
    assert_eq!(
        continuation_pages(3, "{}").unwrap_err(),
        "the reply has no pages array"
    );
    assert_eq!(
        continuation_emails(3, "{\"emails\":1}").unwrap_err(),
        "the reply has no emails array"
    );
    assert_eq!(
        design_generation::continuation_screens(3, "{}").unwrap_err(),
        "the reply has no screens array"
    );
    assert_eq!(
        apply_document_continuation(&sample_document(), &[]).unwrap_err(),
        "the reply adds no pages: reply with a patch of inserts, one per new page"
    );
    assert_eq!(
        read_units::<Page>(&[Err("bad".to_owned())], "page").unwrap_err(),
        "new page 1 is invalid: bad: give it html, css, and notes"
    );
}

#[test]
fn a_whole_artifact_gives_its_units_past_the_written_ones() {
    let items = continuation_pages(
        1,
        "{\"pages\":[{\"html\":\"a\"},{\"html\":\"b\"},{\"html\":\"c\"}]}",
    )
    .unwrap();
    assert_eq!(pages_in(&items).len(), 2);
    assert_eq!(pages_in(&items)[0].html, "b");
    assert!(continuation_pages(5, "{\"pages\":[{\"html\":\"a\"}]}")
        .unwrap()
        .is_empty());
}

#[test]
fn a_placeholder_tells_what_is_being_written() {
    let page = placeholder_page("A & B", "waiting");
    assert_eq!(
        page.html,
        "<div class=\"waiting pending\"><p class=\"pending-label\">Writing</p><h2 class=\"pending-title\">A &amp; B</h2></div>"
    );
    assert!(page.css.is_some());
    assert_eq!(placeholder_email("A & B", "waiting").html, page.html);
    assert_eq!(placeholder_screen("A & B", "waiting").html, page.html);
}

#[test]
fn a_page_transition_stays_with_the_design() {
    let transition = Some(Transition {
        effect: TransitionEffect::Push,
        axis: Some(TransitionAxis::Horizontal),
        duration_ms: Some(400),
    });
    let mut design = sample_design();
    design.transition = transition;
    design.outline = texts(&["Home", "B"]);
    let chunks = continue_chunks(1, 2);
    let board = [vec![screen("B")]];
    assert_eq!(design.duplicate().transition, transition);
    assert_eq!(
        design_generation::written_design(&design, "pending").transition,
        transition
    );
    assert_eq!(
        design_generation::shown_design(&design, &chunks, &board, "pending").transition,
        transition
    );
    assert_eq!(
        design_generation::apply_continuation(&design, &[screen("B")])
            .unwrap()
            .transition,
        transition
    );
    assert_eq!(
        design_generation::continued_design(&design, &board).0.transition,
        transition
    );
}

#[test]
fn a_value_that_spells_the_key_is_no_key() {
    let chars: Vec<char> = "{\"title\":\"screens\",\"screens\" : [{\"name\":\"A\"},{\"na"
        .chars()
        .collect();
    let (start, items) = complete_array_items(&chars, "screens").unwrap();
    assert_eq!(chars[start], '[');
    let texts: Vec<String> = items.iter().map(|item| item.iter().collect()).collect();
    assert_eq!(texts, ["{\"name\":\"A\"}"]);
    let early: Vec<char> = "{\"title\":\"screens\",\"outline\":[".chars().collect();
    assert!(complete_array_items(&early, "screens").is_none());
}
