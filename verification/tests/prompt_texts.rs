//! The prompts, word for word.

use swift_design::continuation::ContinueChunk;
use swift_design::edit_focus::findings_note;
use swift_design::model::Viewport;
use swift_design::prompts::{
    candidate_prompt, continue_prompt, edit_prompt, preview_note, system_prompt, template_note,
    CandidateInput, ContinueInput, EditInput, Kind, SystemInput, TemplateInput,
};

fn titles() -> Vec<String> {
    ["A", "B", "C", "D", "E", "F", "G"].map(str::to_owned).to_vec()
}

fn plain_candidate() -> CandidateInput<'static> {
    CandidateInput {
        request: "THE REQUEST",
        template: None,
        preview: None,
        notes: "",
        merge: None,
        candidate_number: 1,
        count: 1,
        concept: "",
        effort: "medium",
        viewport: None,
    }
}

#[test]
fn the_system_prompt_of_a_design() {
    let rules = "RULES";
    let schema = "SCHEMA";
    let example = "EXAMPLE";
    let limit = 3;
    let prompt = system_prompt(
        Kind::Design,
        &SystemInput {
            rules,
            schema,
            example,
            limit,
        },
    );
    let expected = format!(
        "You build screen designs as JSON documents. Each screen is one HTML fragment plus its own CSS, \
         for the px canvas the design's `viewport` names.\n\
         Follow these rules:\n{rules}\n\
         The design must conform to this JSON Schema:\n{schema}\n\
         Example design:\n{example}\n\
         The request and the answers are authoritative. Do not override an answer. Decide the rest yourself.\n\
         If they lack a detail you cannot design without, do not guess. Reply with only this JSON instead:\n\
         {{\"needs_clarification\":{{\"title\":\"...\",\"message\":\"...\",\"questions\":[{{\"id\":\"...\",\"label\":\"...\",\"kind\":\"single_select\",\"required\":true,\"options\":[{{\"value\":\"...\",\"label\":\"...\"}}]}}],\"can_proceed_with_assumptions\":true}}}}\n\
         Ask at most {limit} questions. Otherwise reply with only one design JSON document. No prose, no code fences."
    );
    assert_eq!(prompt, expected);
}

#[test]
fn the_preview_note_of_a_design() {
    let count = 3;
    let expected = format!(
        "Write a preview: only the first {count} screens of the design, in order, starting with the \
         title screen. Put the screen titles of the complete design in `outline`, in order, \
         every screen title of the complete design. The app asks you for the remaining screens \
         later. Make these {count} screens show the theme, the layout language, and the text \
         density of the whole design.\n"
    );
    assert_eq!(preview_note(Kind::Design, count), expected);
}

#[test]
fn the_edit_prompt_of_a_design() {
    let list = ["screens[1] p: overflow".to_owned()];
    let prompt = edit_prompt(
        Kind::Design,
        &EditInput {
            instruction: "  Fix the title. ",
            artifact_json: "{JSON}",
            note: "Only screen 2 is shown.\n",
            findings: &list,
            request: "THE REQUEST",
            format: "THE FORMAT",
        },
    );
    let expected = format!(
        "Here is the design to change:\n{design_json}\n{note}\
         The design is for this request:\n{request}\n\
         Apply this change: {critique}\n{findings}\
         A reference like [screen 3, node 0/1 <h2.title>: What Swift Design does] names a screen \
         (1-based) and one element in that screen's html by its index path from the screen root \
         (zero-based child indexes, element children only), its tag and first class, and the \
         start of its text. A reference like [screen 3, nodes 0/1 <h2>; 0/2 <p>] names several \
         elements of one screen the same way, without their text. A reference like [screen 3] \
         names the screen alone: the change is about that screen. Change only what the critique asks for. Keep every other screen and \
         value as it is. Return every changed screen complete: html, css, and notes.\n{format}",
        design_json = "{JSON}",
        note = "Only screen 2 is shown.\n",
        request = "THE REQUEST",
        critique = "Fix the title.",
        findings = findings_note(&list),
        format = "THE FORMAT"
    );
    assert_eq!(prompt, expected);
}

#[test]
fn the_continue_prompt_of_a_design() {
    let outline = titles();
    let written = 3;
    let planned = 7;
    let last = 6;
    let design_json = "{JSON}";
    let prompt = continue_prompt(
        Kind::Design,
        &ContinueInput {
            written,
            outline: &outline,
            artifact_json: design_json,
            request: "THE REQUEST",
            chunk: ContinueChunk { first: 3, count: 3 },
        },
    );
    let mut expected = format!(
        "Here is a design in progress: its theme, its first {written} screens, and `outline`, the \
         screen titles of the complete design:\n{design_json}\n\
         The design is for this request:\n{}\n",
        "THE REQUEST"
    );
    expected.push_str(&format!(
        "Write {} screens: outline titles {} to {last} of {planned}, in order, one screen per \
         title:\n{}\n\
         Keep the theme. Match the existing screens in CSS style, font sizes, spacing, colors, \
         and visual language, so the design reads as one design. Do not change or repeat the \
         existing screens.\n",
        3, 4, "4. D\n5. E\n6. F"
    ));
    expected.push_str(
        "Other requests write the other outline titles at the same time. Write only these.\n",
    );
    expected.push_str(&format!(
        "Reply with only a JSON patch that appends the new screens, not the whole design:\n\
         {{\"screens\":[{{\"index\":{written},\"insert\":true,\"screen\":{{\"html\":\"...\",\"css\":\"...\",\"notes\":\"...\"}}}}]}}\n\
         Give every new screen index {written} and insert true, in presentation order. Each screen \
         carries html, css, and notes. Omit title, theme, outline, and the existing screens."
    ));
    assert_eq!(prompt, expected);
    // The only chunk that is left names no other requests.
    let whole = continue_prompt(
        Kind::Design,
        &ContinueInput {
            written,
            outline: &outline[..5],
            artifact_json: design_json,
            request: "THE REQUEST",
            chunk: ContinueChunk { first: 2, count: 3 },
        },
    );
    assert!(!whole.contains("Other requests"));
    assert!(whole.contains("4. D\n5. E\nKeep the theme."));
}

#[test]
fn the_candidate_prompt_of_a_design() {
    let candidate_number = 2;
    let count = 3;
    let prompt = candidate_prompt(
        Kind::Design,
        &CandidateInput {
            template: Some("THE TEMPLATE\n"),
            preview: Some(3),
            notes: "THE NOTES\n",
            candidate_number,
            count,
            concept: "THE CONCEPT\n",
            effort: "low",
            viewport: Some(Viewport {
            width: 390,
            height: 844,
        }),
            ..plain_candidate()
        },
    );
    let mut expected = format!(
        "Build a design for this request. The request and the answers are authoritative; do not \
         override an answer.\n{}\n",
        "THE REQUEST"
    );
    expected.push_str("THE TEMPLATE\n");
    expected.push_str(&preview_note(Kind::Design, 3));
    expected.push_str("THE NOTES\n");
    expected.push_str(&format!(
        "This is candidate {candidate_number} of {count}. Make it distinct from the other \
         candidates in theme, structure, and angle.\n"
    ));
    expected.push_str("THE CONCEPT\n");
    expected.push_str("Keep the design concise: fewer screens, short text.\n");
    expected.push_str(&format!(
        "Set `viewport` to {} by {} px. Design every screen for that canvas.\n",
        390, 844
    ));
    expected.push_str("Reply with only the design JSON.");
    assert_eq!(prompt, expected);
    let merged = candidate_prompt(
        Kind::Design,
        &CandidateInput {
            merge: Some("THE MERGE\n"),
            count: 3,
            effort: "high",
            ..plain_candidate()
        },
    );
    let mut expected = format!(
        "Build a design for this request. The request and the answers are authoritative; do not \
         override an answer.\n{}\n",
        "THE REQUEST"
    );
    expected.push_str("THE MERGE\n");
    expected.push_str("Work carefully: complete content, strong structure, clear notes.\n");
    expected.push_str("Reply with only the design JSON.");
    assert_eq!(merged, expected);
}

#[test]
fn the_system_prompt_of_a_document() {
    let rules = "RULES";
    let schema = "SCHEMA";
    let example = "EXAMPLE";
    let limit = 3;
    let prompt = system_prompt(
        Kind::Document,
        &SystemInput {
            rules,
            schema,
            example,
            limit,
        },
    );
    let expected = format!(
        "You build paged documents as JSON documents: reports, memos, proposals, letters, and guides. \
         Each page is one HTML fragment plus its own CSS, for the px canvas of the document's paper: \
         794 by 1123 px for A4, 816 by 1056 px for Letter.\n\
         Follow these rules:\n{rules}\n\
         The document must conform to this JSON Schema:\n{schema}\n\
         Example document:\n{example}\n\
         The request and the answers are authoritative. Do not override an answer. Decide the rest yourself.\n\
         If they lack a detail you cannot design without, do not guess. Reply with only this JSON instead:\n\
         {{\"needs_clarification\":{{\"title\":\"...\",\"message\":\"...\",\"questions\":[{{\"id\":\"...\",\"label\":\"...\",\"kind\":\"single_select\",\"required\":true,\"options\":[{{\"value\":\"...\",\"label\":\"...\"}}]}}],\"can_proceed_with_assumptions\":true}}}}\n\
         Ask at most {limit} questions. Otherwise reply with only one document JSON. No prose, no code fences."
    );
    assert_eq!(prompt, expected);
}

#[test]
fn the_preview_note_of_a_document() {
    let count = 3;
    let expected = format!(
        "Write a preview: only the first {count} pages of the document, in order, starting with \
         the first page. Put the page titles of the complete document in `outline`, in order, \
         every page title of the complete document. The app asks you for the remaining pages \
         later. Make these {count} pages show the theme, the layout language, and the text \
         density of the whole document.\n"
    );
    assert_eq!(preview_note(Kind::Document, count), expected);
}

#[test]
fn the_edit_prompt_of_a_document() {
    let list = ["pages[1] p: overflow".to_owned()];
    let prompt = edit_prompt(
        Kind::Document,
        &EditInput {
            instruction: "  Fix the title. ",
            artifact_json: "{JSON}",
            note: "Only page 2 is shown.\n",
            findings: &list,
            request: "THE REQUEST",
            format: "THE FORMAT",
        },
    );
    let expected = format!(
        "Here is the document to change:\n{document_json}\n{note}\
         The document is for this request:\n{request}\n\
         Apply this change: {critique}\n{findings}\
         A reference like [page 3, node 0/1 <h2.title>: What changed] names a page \
         (1-based) and one element in that page's html by its index path from the page root \
         (zero-based child indexes, element children only), its tag and first class, and the \
         start of its text. A reference like [page 3, nodes 0/1 <h2>; 0/2 <p>] names several \
         elements of one page the same way, without their text. A reference like [page 3] \
         names the page alone: the change is about that page. Change only what the critique asks for. Keep every other page and \
         value as it is. Return every changed page complete: html, css, and notes.\n{format}",
        document_json = "{JSON}",
        note = "Only page 2 is shown.\n",
        request = "THE REQUEST",
        critique = "Fix the title.",
        findings = findings_note(&list),
        format = "THE FORMAT"
    );
    assert_eq!(prompt, expected);
}

#[test]
fn the_continue_prompt_of_a_document() {
    let outline = titles();
    let written = 3;
    let planned = 7;
    let last = 6;
    let document_json = "{JSON}";
    let prompt = continue_prompt(
        Kind::Document,
        &ContinueInput {
            written,
            outline: &outline,
            artifact_json: document_json,
            request: "THE REQUEST",
            chunk: ContinueChunk { first: 3, count: 3 },
        },
    );
    let mut expected = format!(
        "Here is a document in progress: its theme, its paper, its first {written} pages, and \
         `outline`, the page titles of the complete document:\n{document_json}\n\
         The document is for this request:\n{}\n",
        "THE REQUEST"
    );
    expected.push_str(&format!(
        "Write {} pages: outline titles {} to {last} of {planned}, in order, one page per \
         title:\n{}\n\
         Keep the theme. Match the existing pages in CSS style, font sizes, spacing, colors, \
         and visual language, so the document reads as one document. Do not change or repeat \
         the existing pages.\n",
        3, 4, "4. D\n5. E\n6. F"
    ));
    expected.push_str(
        "Other requests write the other outline titles at the same time. Write only these.\n",
    );
    expected.push_str(&format!(
        "Reply with only a JSON patch that appends the new pages, not the whole document:\n\
         {{\"pages\":[{{\"index\":{written},\"insert\":true,\"page\":{{\"html\":\"...\",\"css\":\"...\",\"notes\":\"...\"}}}}]}}\n\
         Give every new page index {written} and insert true, in reading order. Each page \
         carries html, css, and notes. Omit title, theme, paper, outline, and the existing pages."
    ));
    assert_eq!(prompt, expected);
    // The only chunk that is left names no other requests.
    let whole = continue_prompt(
        Kind::Document,
        &ContinueInput {
            written,
            outline: &outline[..5],
            artifact_json: document_json,
            request: "THE REQUEST",
            chunk: ContinueChunk { first: 2, count: 3 },
        },
    );
    assert!(!whole.contains("Other requests"));
    assert!(whole.contains("4. D\n5. E\nKeep the theme."));
}

#[test]
fn the_candidate_prompt_of_a_document() {
    let candidate_number = 2;
    let count = 3;
    let prompt = candidate_prompt(
        Kind::Document,
        &CandidateInput {
            template: Some("THE TEMPLATE\n"),
            preview: Some(3),
            notes: "THE NOTES\n",
            candidate_number,
            count,
            concept: "THE CONCEPT\n",
            effort: "low",
            viewport: None,
            ..plain_candidate()
        },
    );
    let mut expected = format!(
        "Build a document for this request. The request and the answers are authoritative; do \
         not override an answer.\n{}\n",
        "THE REQUEST"
    );
    expected.push_str("THE TEMPLATE\n");
    expected.push_str(
        "The template screens are pages or slides of another artifact. Use them for the \
         look only.\n",
    );
    expected.push_str(&preview_note(Kind::Document, 3));
    expected.push_str("THE NOTES\n");
    expected.push_str(&format!(
        "This is candidate {candidate_number} of {count}. Make it distinct from the other \
         candidates in theme, structure, and angle.\n"
    ));
    expected.push_str("THE CONCEPT\n");
    expected.push_str("Keep the document concise: fewer pages, short text.\n");
    expected.push_str("Reply with only the document JSON.");
    assert_eq!(prompt, expected);
    let merged = candidate_prompt(
        Kind::Document,
        &CandidateInput {
            merge: Some("THE MERGE\n"),
            count: 3,
            effort: "high",
            ..plain_candidate()
        },
    );
    let mut expected = format!(
        "Build a document for this request. The request and the answers are authoritative; do \
         not override an answer.\n{}\n",
        "THE REQUEST"
    );
    expected.push_str("THE MERGE\n");
    expected.push_str("Work carefully: complete content, strong structure, clear notes.\n");
    expected.push_str("Reply with only the document JSON.");
    assert_eq!(merged, expected);
}

#[test]
fn the_system_prompt_of_a_mailing() {
    let rules = "RULES";
    let schema = "SCHEMA";
    let example = "EXAMPLE";
    let limit = 3;
    let prompt = system_prompt(
        Kind::Mailing,
        &SystemInput {
            rules,
            schema,
            example,
            limit,
        },
    );
    let expected = format!(
        "You build mailings as JSON mailings: emails, newsletters, and email sequences read in an inbox. \
         Each email is one HTML fragment plus its own CSS, for the px canvas of the mailing's format, \
         600 px wide: 600 by 800 px for short, 600 by 1200 px for standard, \
         600 by 1800 px for long. \
         One email is a single send. Two or more emails are a sequence, in send order.\n\
         Follow these rules:\n{rules}\n\
         The mailing must conform to this JSON Schema:\n{schema}\n\
         Example mailing:\n{example}\n\
         The request and the answers are authoritative. Do not override an answer. Decide the rest yourself.\n\
         If they lack a detail you cannot design without, do not guess. Reply with only this JSON instead:\n\
         {{\"needs_clarification\":{{\"title\":\"...\",\"message\":\"...\",\"questions\":[{{\"id\":\"...\",\"label\":\"...\",\"kind\":\"single_select\",\"required\":true,\"options\":[{{\"value\":\"...\",\"label\":\"...\"}}]}}],\"can_proceed_with_assumptions\":true}}}}\n\
         Ask at most {limit} questions. Otherwise reply with only one mailing JSON. No prose, no code fences."
    );
    assert_eq!(prompt, expected);
}

#[test]
fn the_preview_note_of_a_mailing() {
    let count = 3;
    let expected = format!(
        "Write a preview: only the first {count} emails of the mailing, in order, starting with \
         the first email. Put the email titles of the complete mailing in `outline`, in order, \
         every email title of the complete mailing. The app asks you for the remaining emails \
         later. Make these {count} emails show the theme, the layout language, and the text \
         density of the whole mailing.\n"
    );
    assert_eq!(preview_note(Kind::Mailing, count), expected);
}

#[test]
fn the_edit_prompt_of_a_mailing() {
    let list = ["emails[1] p: overflow".to_owned()];
    let prompt = edit_prompt(
        Kind::Mailing,
        &EditInput {
            instruction: "  Fix the title. ",
            artifact_json: "{JSON}",
            note: "Only email 2 is shown.\n",
            findings: &list,
            request: "THE REQUEST",
            format: "THE FORMAT",
        },
    );
    let expected = format!(
        "Here is the mailing to change:\n{mailing_json}\n{note}\
         The mailing is for this request:\n{request}\n\
         Apply this change: {critique}\n{findings}\
         A reference like [email 3, node 0/1 <h2.title>: What changed] names an email \
         (1-based) and one element in that email's html by its index path from the email root \
         (zero-based child indexes, element children only), its tag and first class, and the \
         start of its text. A reference like [email 3, nodes 0/1 <h2>; 0/2 <p>] names several \
         elements of one email the same way, without their text. A reference like [email 3] \
         names the email alone: the change is about that email. Change only what the critique asks for. Keep every other email and \
         value as it is. Return every changed email complete: html, css, and notes.\n{format}",
        mailing_json = "{JSON}",
        note = "Only email 2 is shown.\n",
        request = "THE REQUEST",
        critique = "Fix the title.",
        findings = findings_note(&list),
        format = "THE FORMAT"
    );
    assert_eq!(prompt, expected);
}

#[test]
fn the_continue_prompt_of_a_mailing() {
    let outline = titles();
    let written = 3;
    let planned = 7;
    let last = 6;
    let mailing_json = "{JSON}";
    let prompt = continue_prompt(
        Kind::Mailing,
        &ContinueInput {
            written,
            outline: &outline,
            artifact_json: mailing_json,
            request: "THE REQUEST",
            chunk: ContinueChunk { first: 3, count: 3 },
        },
    );
    let mut expected = format!(
        "Here is a mailing in progress: its theme, its format, its first {written} \
         emails, and `outline`, the email titles of the complete mailing:\n{mailing_json}\n\
         The mailing is for this request:\n{}\n",
        "THE REQUEST"
    );
    expected.push_str(&format!(
        "Write {} emails: outline titles {} to {last} of {planned}, in order, one email per \
         title:\n{}\n\
         Keep the theme. Match the existing emails in CSS style, font sizes, spacing, colors, \
         and visual language, so the mailing reads as one piece. Do not change or repeat \
         the existing emails.\n",
        3, 4, "4. D\n5. E\n6. F"
    ));
    expected.push_str(
        "Other requests write the other outline titles at the same time. Write only these.\n",
    );
    expected.push_str(&format!(
        "Reply with only a JSON patch that appends the new emails, not the whole mailing:\n\
         {{\"emails\":[{{\"index\":{written},\"insert\":true,\"email\":{{\"html\":\"...\",\"css\":\"...\",\"notes\":\"...\"}}}}]}}\n\
         Give every new email index {written} and insert true, in send order. Each email \
         carries html, css, and notes. Omit title, theme, format, outline, and the existing emails."
    ));
    assert_eq!(prompt, expected);
    // The only chunk that is left names no other requests.
    let whole = continue_prompt(
        Kind::Mailing,
        &ContinueInput {
            written,
            outline: &outline[..5],
            artifact_json: mailing_json,
            request: "THE REQUEST",
            chunk: ContinueChunk { first: 2, count: 3 },
        },
    );
    assert!(!whole.contains("Other requests"));
    assert!(whole.contains("4. D\n5. E\nKeep the theme."));
}

#[test]
fn the_candidate_prompt_of_a_mailing() {
    let candidate_number = 2;
    let count = 3;
    let prompt = candidate_prompt(
        Kind::Mailing,
        &CandidateInput {
            template: Some("THE TEMPLATE\n"),
            preview: Some(3),
            notes: "THE NOTES\n",
            candidate_number,
            count,
            concept: "THE CONCEPT\n",
            effort: "low",
            viewport: None,
            ..plain_candidate()
        },
    );
    let mut expected = format!(
        "Build a mailing for this request. The request and the answers are \
         authoritative; do not override an answer.\n{}\n",
        "THE REQUEST"
    );
    expected.push_str("THE TEMPLATE\n");
    expected.push_str(
        "The template screens are screens, slides, or pages of another artifact. Use them \
         for the look only.\n",
    );
    expected.push_str(&preview_note(Kind::Mailing, 3));
    expected.push_str("THE NOTES\n");
    expected.push_str(&format!(
        "This is candidate {candidate_number} of {count}. Make it distinct from the other \
         candidates in theme, structure, and angle.\n"
    ));
    expected.push_str("THE CONCEPT\n");
    expected.push_str("Keep the mailing concise: fewer emails, short text.\n");
    expected.push_str("Reply with only the mailing JSON.");
    assert_eq!(prompt, expected);
    let merged = candidate_prompt(
        Kind::Mailing,
        &CandidateInput {
            merge: Some("THE MERGE\n"),
            count: 3,
            effort: "high",
            ..plain_candidate()
        },
    );
    let mut expected = format!(
        "Build a mailing for this request. The request and the answers are \
         authoritative; do not override an answer.\n{}\n",
        "THE REQUEST"
    );
    expected.push_str("THE MERGE\n");
    expected.push_str("Work carefully: complete content, strong structure, clear notes.\n");
    expected.push_str("Reply with only the mailing JSON.");
    assert_eq!(merged, expected);
}

#[test]
fn the_template_note_word_for_word() {
    let screens = [Some("{S1}".to_owned()), Some("{S2}".to_owned())];
    let style_note = "Use serif.";
    let note = template_note(&TemplateInput {
        name: "Brand",
        theme_json: "{THEME}",
        note: Some(style_note),
        screens: &screens,
    });
    let mut expected = format!(
        "Use the saved template `{name}` for the look of this design.\n\
         Copy this theme into the design exactly. Use it instead of any palette or fonts \
         named elsewhere in this prompt:\n{theme}\n",
        name = "Brand",
        theme = "{THEME}",
    );
    expected.push_str(&format!(
        "The template's style note, from its brand material. Follow it:\n{style_note}\n"
    ));
    expected.push_str(
        "These screens show the template style. Match their CSS: the same font sizes, \
         spacing, alignment, colors, and layout language. Write new content for the \
         request. Do not copy their text.\n",
    );
    expected.push_str("Template screen 1: {S1}\nTemplate screen 2: {S2}\n");
    assert_eq!(note, expected);
    let bare = template_note(&TemplateInput {
        name: "Brand",
        theme_json: "{THEME}",
        note: Some("  "),
        screens: &[],
    });
    assert!(!bare.contains("style note"));
    assert!(!bare.contains("These screens"));
}
