//! The prompts of a generation turn, one wording per kind of artifact.

use vstd::prelude::*;

use crate::continuation::ContinueChunk;
use crate::edit_focus;
use crate::edit_focus::findings_note;
use crate::model::{EmailFormat, Paper, Viewport};
use crate::text;
use crate::text::{chars_of, decimal_of, joined_strings, owned, trimmed};

verus! {

/// The kinds of artifact with prompts here.
#[derive(Clone, Copy, Debug, PartialEq, Eq, Structural)]
pub enum Kind {
    Design,
    Document,
    Mailing,
}

/// How the prompts speak of a kind of artifact.
pub struct Words {
    pub artifact: &'static str,
    pub unit: &'static str,
    pub plural: &'static str,
    /// The unit with its article.
    pub a_unit: &'static str,
    /// The unit that a preview starts with.
    pub opening: &'static str,
    /// The text of an element, as an example.
    pub example: &'static str,
    /// What a continuation shows beside the theme.
    pub traits: &'static str,
    /// What the units read as together.
    pub whole: &'static str,
    /// The order of the units.
    pub order: &'static str,
    /// What a continuation leaves out beside the theme.
    pub omitted: &'static str,
}

/// How the prompts speak of a kind of artifact.
pub open spec fn words(kind: Kind) -> Words {
    match kind {
        Kind::Design => Words {
            artifact: "design",
            unit: "screen",
            plural: "screens",
            a_unit: "a screen",
            opening: "the title screen",
            example: "What Swift Design does",
            traits: "",
            whole: "design",
            order: "presentation",
            omitted: "",
        },
        Kind::Document => Words {
            artifact: "document",
            unit: "page",
            plural: "pages",
            a_unit: "a page",
            opening: "the first page",
            example: "What changed",
            traits: "its paper, ",
            whole: "document",
            order: "reading",
            omitted: "paper, ",
        },
        Kind::Mailing => Words {
            artifact: "mailing",
            unit: "email",
            plural: "emails",
            a_unit: "an email",
            opening: "the first email",
            example: "What changed",
            traits: "its format, ",
            whole: "piece",
            order: "send",
            omitted: "format, ",
        },
    }
}

fn words_for(kind: Kind) -> (r: Words)
    ensures
        r == words(kind),
{
    match kind {
        Kind::Design => Words {
            artifact: "design",
            unit: "screen",
            plural: "screens",
            a_unit: "a screen",
            opening: "the title screen",
            example: "What Swift Design does",
            traits: "",
            whole: "design",
            order: "presentation",
            omitted: "",
        },
        Kind::Document => Words {
            artifact: "document",
            unit: "page",
            plural: "pages",
            a_unit: "a page",
            opening: "the first page",
            example: "What changed",
            traits: "its paper, ",
            whole: "document",
            order: "reading",
            omitted: "paper, ",
        },
        Kind::Mailing => Words {
            artifact: "mailing",
            unit: "email",
            plural: "emails",
            a_unit: "an email",
            opening: "the first email",
            example: "What changed",
            traits: "its format, ",
            whole: "piece",
            order: "send",
            omitted: "format, ",
        },
    }
}

// -- Candidates -------------------------------------------------------------

/// The prompt lines for a preview candidate: write `count` units and the full
/// outline.
pub open spec fn preview_text(kind: Kind, count: nat) -> Seq<char> {
    "Write a preview: only the first "@
        + text::decimal(count)
        + " "@
        + words(kind).plural@
        + " of the "@
        + words(kind).artifact@
        + ", in order, starting with "@
        + words(kind).opening@
        + ". Put the "@
        + words(kind).unit@
        + " titles of the complete "@
        + words(kind).artifact@
        + " in `outline`, in order, every "@
        + words(kind).unit@
        + " title of the complete "@
        + words(kind).artifact@
        + ". The app asks you for the remaining "@
        + words(kind).plural@
        + " later. Make these "@
        + text::decimal(count)
        + " "@
        + words(kind).plural@
        + " show the theme, the layout language, and the text density of the whole "@
        + words(kind).artifact@
        + ".\n"@
}

/// The prompt lines for a preview candidate: write `count` units and the full
/// outline.
pub fn preview_note(kind: Kind, count: usize) -> (r: String)
    ensures
        r@ == preview_text(kind, count as nat),
{
    let w = words_for(kind);
    let mut r = owned("Write a preview: only the first ");
    r.append(decimal_of(count as u128).as_str());
    r.append(" ");
    r.append(w.plural);
    r.append(" of the ");
    r.append(w.artifact);
    r.append(", in order, starting with ");
    r.append(w.opening);
    r.append(". Put the ");
    r.append(w.unit);
    r.append(" titles of the complete ");
    r.append(w.artifact);
    r.append(" in `outline`, in order, every ");
    r.append(w.unit);
    r.append(" title of the complete ");
    r.append(w.artifact);
    r.append(". The app asks you for the remaining ");
    r.append(w.plural);
    r.append(" later. Make these ");
    r.append(decimal_of(count as u128).as_str());
    r.append(" ");
    r.append(w.plural);
    r.append(" show the theme, the layout language, and the text density of the whole ");
    r.append(w.artifact);
    r.append(".\n");
    r
}

/// What a reference in a change means.
pub open spec fn reference_text(kind: Kind) -> Seq<char> {
    "A reference like ["@
        + words(kind).unit@
        + " 3, node 0/1 <h2.title>: "@
        + words(kind).example@
        + "] names "@
        + words(kind).a_unit@
        + " (1-based) and one element in that "@
        + words(kind).unit@
        + "'s html by its index path from the "@
        + words(kind).unit@
        + " root (zero-based child indexes, element children only), its tag and first class, and the \
start of its text. A reference like ["@
        + words(kind).unit@
        + " 3, nodes 0/1 <h2>; 0/2 <p>] names several elements of one "@
        + words(kind).unit@
        + " the same way, without their text. A reference like ["@
        + words(kind).unit@
        + " 3] names the "@
        + words(kind).unit@
        + " alone: the change is about that "@
        + words(kind).unit@
        + ". Change only what the critique asks for. Keep every other "@
        + words(kind).unit@
        + " and value as it is. Return every changed "@
        + words(kind).unit@
        + " complete: html, css, and notes.\n"@
}

/// What a reference in a change means.
fn reference_note(kind: Kind) -> (r: String)
    ensures
        r@ == reference_text(kind),
{
    let w = words_for(kind);
    let mut r = owned("A reference like [");
    r.append(w.unit);
    r.append(" 3, node 0/1 <h2.title>: ");
    r.append(w.example);
    r.append("] names ");
    r.append(w.a_unit);
    r.append(" (1-based) and one element in that ");
    r.append(w.unit);
    r.append("'s html by its index path from the ");
    r.append(w.unit);
    r.append(
        " root (zero-based child indexes, element children only), its tag and first class, and the \
start of its text. A reference like [",
    );
    r.append(w.unit);
    r.append(" 3, nodes 0/1 <h2>; 0/2 <p>] names several elements of one ");
    r.append(w.unit);
    r.append(" the same way, without their text. A reference like [");
    r.append(w.unit);
    r.append(" 3] names the ");
    r.append(w.unit);
    r.append(" alone: the change is about that ");
    r.append(w.unit);
    r.append(". Change only what the critique asks for. Keep every other ");
    r.append(w.unit);
    r.append(" and value as it is. Return every changed ");
    r.append(w.unit);
    r.append(" complete: html, css, and notes.\n");
    r
}

// -- Edits ------------------------------------------------------------------

/// What one edit prompt is built from.
pub struct EditInput<'a> {
    /// The user's change, with its references.
    pub instruction: &'a str,
    /// The artifact JSON: whole, or the focused view.
    pub artifact_json: &'a str,
    /// The focus note, or empty for a systemic change.
    pub note: &'a str,
    /// The measured findings for the units shown.
    pub findings: &'a [String],
    /// The session's request and answers.
    pub request: &'a str,
    /// The patch format of the artifact.
    pub format: &'a str,
}

/// The user prompt for an edit: the artifact as it is, the request, and the
/// change the user asked for.
pub open spec fn edit_text(kind: Kind, input: EditInput) -> Seq<char> {
    "Here is the "@
        + words(kind).artifact@
        + " to change:\n"@
        + input.artifact_json@
        + "\n"@
        + input.note@
        + "The "@
        + words(kind).artifact@
        + " is for this request:\n"@
        + input.request@
        + "\nApply this change: "@
        + text::trim(input.instruction@)
        + "\n"@
        + edit_focus::findings_text(text::strings(input.findings@))
        + reference_text(kind)
        + input.format@
}

/// The user prompt for an edit: the artifact as it is, the request, and the
/// change the user asked for.
pub fn edit_prompt(kind: Kind, input: &EditInput) -> (r: String)
    ensures
        r@ == edit_text(kind, *input),
{
    let w = words_for(kind);
    let critique = trimmed(&chars_of(input.instruction));
    let mut r = owned("Here is the ");
    r.append(w.artifact);
    r.append(" to change:\n");
    r.append(input.artifact_json);
    r.append("\n");
    r.append(input.note);
    r.append("The ");
    r.append(w.artifact);
    r.append(" is for this request:\n");
    r.append(input.request);
    r.append("\nApply this change: ");
    r.append(text::text_of(&critique).as_str());
    r.append("\n");
    r.append(findings_note(input.findings).as_str());
    r.append(reference_note(kind).as_str());
    r.append(input.format);
    r
}

// -- Continuations ----------------------------------------------------------

/// The first outline title that a chunk writes.
pub open spec fn first_title(written: int, chunk: ContinueChunk) -> int {
    if chunk.first < written {
        written
    } else {
        chunk.first as int
    }
}

/// The end of the outline titles that a chunk writes.
pub open spec fn end_title(written: int, planned: int, chunk: ContinueChunk) -> int {
    if first_title(written, chunk) + chunk.count < planned {
        first_title(written, chunk) + chunk.count
    } else {
        planned
    }
}

/// An outline title behind its number, from one.
pub open spec fn numbered(outline: Seq<Seq<char>>, index: int) -> Seq<char> {
    text::decimal((index + 1) as nat) + ". "@ + outline[index]
}

/// The titles from `first` to `end`, each behind its number.
pub open spec fn numbered_titles(outline: Seq<Seq<char>>, first: int, end: int) -> Seq<Seq<char>> {
    Seq::new(
        if first < end {
            (end - first) as nat
        } else {
            0
        },
        |i: int| numbered(outline, first + i),
    )
}

fn number_titles(outline: &[String], first: usize, end: usize) -> (r: Vec<String>)
    requires
        end <= outline@.len(),
    ensures
        text::strings(r@) == numbered_titles(text::strings(outline@), first as int, end as int),
{
    let ghost titles = text::strings(outline@);
    let ghost all = numbered_titles(titles, first as int, end as int);
    let mut r: Vec<String> = Vec::new();
    let mut index: usize = first;
    assert(text::strings(r@) =~= Seq::<Seq<char>>::empty());
    while index < end
        invariant
            first <= index,
            first <= end ==> index <= end,
            first > end ==> index == first,
            end <= outline@.len(),
            titles == text::strings(outline@),
            all == numbered_titles(titles, first as int, end as int),
            text::strings(r@) == all.take(index - first),
        decreases end - index,
    {
        let ghost before = text::strings(r@);
        let mut line = decimal_of(index as u128 + 1);
        line.append(". ");
        line.append(outline[index].as_str());
        let ghost new = line@;
        r.push(line);
        assert(text::strings(r@) =~= before.push(new));
        assert(all.take(index - first + 1) =~= all.take(index - first).push(new));
        index += 1;
    }
    assert(text::strings(r@) =~= all);
    r
}

/// What a continuation prompt is built from.
pub struct ContinueInput<'a> {
    /// How many units are written.
    pub written: usize,
    /// The titles of the complete artifact.
    pub outline: &'a [String],
    /// The preview as JSON.
    pub artifact_json: &'a str,
    /// The session's request and answers.
    pub request: &'a str,
    /// The titles to write.
    pub chunk: ContinueChunk,
}

/// What a continuation prompt shows.
pub open spec fn continue_start(kind: Kind, input: ContinueInput) -> Seq<char> {
    "Here is a "@
        + words(kind).artifact@
        + " in progress: its theme, "@
        + words(kind).traits@
        + "its first "@
        + text::decimal(input.written as nat)
        + " "@
        + words(kind).plural@
        + ", and `outline`, the "@
        + words(kind).unit@
        + " titles of the complete "@
        + words(kind).artifact@
        + ":\n"@
        + input.artifact_json@
        + "\nThe "@
        + words(kind).artifact@
        + " is for this request:\n"@
        + input.request@
        + "\n"@
}

/// What a continuation prompt shows.
fn start_of_continue(kind: Kind, input: &ContinueInput) -> (r: String)
    ensures
        r@ == continue_start(kind, *input),
{
    let w = words_for(kind);
    let mut r = owned("Here is a ");
    r.append(w.artifact);
    r.append(" in progress: its theme, ");
    r.append(w.traits);
    r.append("its first ");
    r.append(decimal_of(input.written as u128).as_str());
    r.append(" ");
    r.append(w.plural);
    r.append(", and `outline`, the ");
    r.append(w.unit);
    r.append(" titles of the complete ");
    r.append(w.artifact);
    r.append(":\n");
    r.append(input.artifact_json);
    r.append("\nThe ");
    r.append(w.artifact);
    r.append(" is for this request:\n");
    r.append(input.request);
    r.append("\n");
    r
}

/// What a continuation prompt asks for.
pub open spec fn continue_order(kind: Kind, titles: Seq<Seq<char>>, first: nat, last: nat, planned: nat) -> Seq<char> {
    "Write "@
        + text::decimal(titles.len())
        + " "@
        + words(kind).plural@
        + ": outline titles "@
        + text::decimal(first + 1)
        + " to "@
        + text::decimal(last)
        + " of "@
        + text::decimal(planned)
        + ", in order, one "@
        + words(kind).unit@
        + " per title:\n"@
        + text::join(titles, "\n"@)
        + "\nKeep the theme. Match the existing "@
        + words(kind).plural@
        + " in CSS style, font sizes, spacing, colors, and visual language, so the "@
        + words(kind).artifact@
        + " reads as one "@
        + words(kind).whole@
        + ". Do not change or repeat the existing "@
        + words(kind).plural@
        + ".\n"@
}

/// What a continuation prompt asks for.
fn order_of_continue(kind: Kind, titles: &[String], first: usize, last: usize, planned: usize) -> (r: String)
    ensures
        r@ == continue_order(kind, text::strings(titles@), first as nat, last as nat, planned as nat),
{
    let w = words_for(kind);
    assert(text::strings(titles@).len() == titles@.len());
    let mut r = owned("Write ");
    r.append(decimal_of(titles.len() as u128).as_str());
    r.append(" ");
    r.append(w.plural);
    r.append(": outline titles ");
    r.append(decimal_of(first as u128 + 1).as_str());
    r.append(" to ");
    r.append(decimal_of(last as u128).as_str());
    r.append(" of ");
    r.append(decimal_of(planned as u128).as_str());
    r.append(", in order, one ");
    r.append(w.unit);
    r.append(" per title:\n");
    r.append(joined_strings(titles, "\n").as_str());
    r.append("\nKeep the theme. Match the existing ");
    r.append(w.plural);
    r.append(" in CSS style, font sizes, spacing, colors, and visual language, so the ");
    r.append(w.artifact);
    r.append(" reads as one ");
    r.append(w.whole);
    r.append(". Do not change or repeat the existing ");
    r.append(w.plural);
    r.append(".\n");
    r
}

/// How the reply to a continuation prompt looks.
pub open spec fn continue_format(kind: Kind, written: nat) -> Seq<char> {
    "Reply with only a JSON patch that appends the new "@
        + words(kind).plural@
        + ", not the whole "@
        + words(kind).artifact@
        + ":\n{\""@
        + words(kind).plural@
        + "\":[{\"index\":"@
        + text::decimal(written)
        + ",\"insert\":true,\""@
        + words(kind).unit@
        + "\":{\"html\":\"...\",\"css\":\"...\",\"notes\":\"...\"}}]}\nGive every new "@
        + words(kind).unit@
        + " index "@
        + text::decimal(written)
        + " and insert true, in "@
        + words(kind).order@
        + " order. Each "@
        + words(kind).unit@
        + " carries html, css, and notes. Omit title, theme, "@
        + words(kind).omitted@
        + "outline, and the existing "@
        + words(kind).plural@
        + "."@
}

/// How the reply to a continuation prompt looks.
fn format_of_continue(kind: Kind, written: usize) -> (r: String)
    ensures
        r@ == continue_format(kind, written as nat),
{
    let w = words_for(kind);
    let mut r = owned("Reply with only a JSON patch that appends the new ");
    r.append(w.plural);
    r.append(", not the whole ");
    r.append(w.artifact);
    r.append(":\n{\"");
    r.append(w.plural);
    r.append("\":[{\"index\":");
    r.append(decimal_of(written as u128).as_str());
    r.append(",\"insert\":true,\"");
    r.append(w.unit);
    r.append(
        "\
\":{\"html\":\"...\",\"css\":\"...\",\"notes\":\"...\"}}]}\nGive every new ",
    );
    r.append(w.unit);
    r.append(" index ");
    r.append(decimal_of(written as u128).as_str());
    r.append(" and insert true, in ");
    r.append(w.order);
    r.append(" order. Each ");
    r.append(w.unit);
    r.append(" carries html, css, and notes. Omit title, theme, ");
    r.append(w.omitted);
    r.append("outline, and the existing ");
    r.append(w.plural);
    r.append(".");
    r
}

/// What a chunk reads when others write beside it.
pub const OTHER_CHUNKS: &'static str = "\
Other requests write the other outline titles at the same time. Write only these.\n";

/// The user prompt for one continuation chunk: the preview and the chunk's
/// units to add, as a patch of inserts.
pub open spec fn continue_text(kind: Kind, input: ContinueInput) -> Seq<char> {
    let outline = text::strings(input.outline@);
    let written = input.written as int;
    let planned = outline.len() as int;
    let first = first_title(written, input.chunk);
    let last = end_title(written, planned, input.chunk);
    continue_start(kind, input) + continue_order(
        kind,
        numbered_titles(outline, first, last),
        first as nat,
        last as nat,
        planned as nat,
    ) + (if first > written || last < planned {
        OTHER_CHUNKS@
    } else {
        Seq::empty()
    }) + continue_format(kind, input.written as nat)
}

/// The user prompt for one continuation chunk: the preview and the chunk's
/// units to add, as a patch of inserts.
pub fn continue_prompt(kind: Kind, input: &ContinueInput) -> (r: String)
    ensures
        r@ == continue_text(kind, *input),
{
    let written: usize = input.written;
    let planned: usize = input.outline.len();
    let first: usize = if input.chunk.first < written {
        written
    } else {
        input.chunk.first
    };
    let last: usize = if first < planned && input.chunk.count < planned - first {
        first + input.chunk.count
    } else {
        planned
    };
    let titles = number_titles(input.outline, first, last);
    let mut r = start_of_continue(kind, input);
    r.append(order_of_continue(kind, &titles, first, last, planned).as_str());
    if first > written || last < planned {
        r.append(OTHER_CHUNKS);
    } else {
        proof {
            text::lemma_append_nothing(r@);
        }
    }
    r.append(format_of_continue(kind, written).as_str());
    r
}

// -- Notes ------------------------------------------------------------------

/// The prompt line for the app's paper choice.
pub open spec fn paper_text(paper: Paper) -> Seq<char> {
    "Lay the pages out on "@ + paper.title() + " paper: "@ + text::decimal(
        paper.canvas().width as nat,
    ) + " by "@ + text::decimal(paper.canvas().height as nat) + " px. Set `paper` to `"@
        + paper.name() + "`.\n"@
}

/// The prompt line for the app's paper choice. Empty when the agent decides,
/// or when the user typed a paper the JSON does not carry.
pub fn paper_note(paper: Option<&str>) -> (r: String)
    ensures
        match paper {
            Some(name) => if name@ == Paper::A4.name() {
                r@ == paper_text(Paper::A4)
            } else if name@ == Paper::Letter.name() {
                r@ == paper_text(Paper::Letter)
            } else {
                r@.len() == 0
            },
            None => r@.len() == 0,
        },
{
    let name: &str = match paper {
        Some(name) => name,
        None => {
            return String::new();
        },
    };
    proof {
        reveal_strlit("a4");
        reveal_strlit("letter");
    }
    match Paper::from_name(name) {
        Some(paper) => {
            let viewport = paper.viewport();
            let mut r = owned("Lay the pages out on ");
            r.append(paper.label());
            r.append(" paper: ");
            r.append(decimal_of(viewport.width as u128).as_str());
            r.append(" by ");
            r.append(decimal_of(viewport.height as u128).as_str());
            r.append(" px. Set `paper` to `");
            r.append(paper.as_str());
            r.append("`.\n");
            r
        },
        None => String::new(),
    }
}

/// The prompt line for the app's format choice.
pub open spec fn format_text(format: EmailFormat) -> Seq<char> {
    "Lay the emails out on the "@ + format.name() + " format: "@ + text::decimal(
        format.canvas().width as nat,
    ) + " by "@ + text::decimal(format.canvas().height as nat) + " px. Set `format` to `"@
        + format.name() + "`.\n"@
}

/// The prompt line for the app's format choice. Empty when the agent decides
/// it, or when the user typed a value the JSON does not carry.
pub fn format_note(format: Option<&str>) -> (r: String)
    ensures
        match format {
            Some(name) => if name@ == EmailFormat::Short.name() {
                r@ == format_text(EmailFormat::Short)
            } else if name@ == EmailFormat::Standard.name() {
                r@ == format_text(EmailFormat::Standard)
            } else if name@ == EmailFormat::Long.name() {
                r@ == format_text(EmailFormat::Long)
            } else {
                r@.len() == 0
            },
            None => r@.len() == 0,
        },
{
    let name: &str = match format {
        Some(name) => name,
        None => {
            return String::new();
        },
    };
    proof {
        reveal_strlit("short");
        reveal_strlit("standard");
        reveal_strlit("long");
    }
    match EmailFormat::from_name(name) {
        Some(format) => {
            let viewport = format.viewport();
            let mut r = owned("Lay the emails out on the ");
            r.append(format.as_str());
            r.append(" format: ");
            r.append(decimal_of(viewport.width as u128).as_str());
            r.append(" by ");
            r.append(decimal_of(viewport.height as u128).as_str());
            r.append(" px. Set `format` to `");
            r.append(format.as_str());
            r.append("`.\n");
            r
        },
        None => String::new(),
    }
}

/// The prompt line that holds an artifact to the length the user asked for.
pub open spec fn count_text(count: Option<u32>, is_preview: bool, plural: Seq<char>) -> Seq<char> {
    match count {
        Some(number) => {
            let n = text::decimal(number as nat);
            if is_preview {
                "The user asked for "@ + n + " "@ + plural + ". Put exactly "@ + n
                    + " titles in `outline`.\n"@
            } else {
                "The user asked for "@ + n + " "@ + plural + ". Write exactly "@ + n + " "@ + plural
                    + ".\n"@
            }
        },
        None => Seq::empty(),
    }
}

fn count_note(count: Option<u32>, is_preview: bool, plural: &str) -> (r: String)
    ensures
        r@ == count_text(count, is_preview, plural@),
{
    let number: u32 = match count {
        Some(number) => number,
        None => {
            return String::new();
        },
    };
    let n = decimal_of(number as u128);
    let mut r = owned("The user asked for ");
    r.append(n.as_str());
    r.append(" ");
    r.append(plural);
    if is_preview {
        r.append(". Put exactly ");
        r.append(n.as_str());
        r.append(" titles in `outline`.\n");
    } else {
        r.append(". Write exactly ");
        r.append(n.as_str());
        r.append(" ");
        r.append(plural);
        r.append(".\n");
    }
    r
}

/// The prompt line that holds a document to the length the user asked for.
/// Empty when the user set no length. A preview writes fewer pages than the
/// length, so the count goes to the outline instead.
pub fn page_count_note(page_count: Option<u32>, preview_pages: Option<usize>) -> (r: String)
    ensures
        r@ == count_text(page_count, preview_pages is Some, "pages"@),
{
    count_note(page_count, preview_pages.is_some(), "pages")
}

/// The prompt line that holds a mailing to the length the user asked for.
/// Empty when the user set no length. A preview writes fewer emails than the
/// length, so the count goes to the outline instead.
pub fn email_count_note(email_count: Option<u32>, preview_emails: Option<usize>) -> (r: String)
    ensures
        r@ == count_text(email_count, preview_emails is Some, "emails"@),
{
    count_note(email_count, preview_emails.is_some(), "emails")
}

// -- Candidate prompts ------------------------------------------------------

/// What a candidate prompt is built from.
pub struct CandidateInput<'a> {
    /// The session's request and answers.
    pub request: &'a str,
    /// The note of the template the candidate takes its look from.
    pub template: Option<&'a str>,
    /// `Some(n)`: write only the first `n` units plus the outline.
    pub preview: Option<usize>,
    /// The notes on the length and the canvas the user chose.
    pub notes: &'a str,
    /// The note of the candidates to combine, when this one is a merge.
    pub merge: Option<&'a str>,
    pub candidate_number: usize,
    /// How many candidates the run writes.
    pub count: usize,
    /// The note on the concept of this candidate.
    pub concept: &'a str,
    pub effort: &'a str,
    /// The canvas of a design.
    pub viewport: Option<Viewport>,
}

/// What a prompt says of a template's screens.
pub open spec fn template_use(kind: Kind) -> Seq<char> {
    match kind {
        Kind::Design => Seq::empty(),
        Kind::Document => DOCUMENT_TEMPLATE_USE@,
        Kind::Mailing => MAILING_TEMPLATE_USE@,
    }
}

/// What a document prompt says of a template's screens.
pub const DOCUMENT_TEMPLATE_USE: &'static str = "\
The template screens are pages or slides of another artifact. Use them for the look only.\n";

/// What a mailing prompt says of a template's screens.
pub const MAILING_TEMPLATE_USE: &'static str = "\
The template screens are screens, slides, or pages of another artifact. Use them for the look \
only.\n";

/// The template of a candidate.
pub open spec fn template_part(kind: Kind, template: Option<&str>) -> Seq<char> {
    match template {
        Some(note) => note@ + template_use(kind),
        None => Seq::empty(),
    }
}

fn template_of(kind: Kind, template: Option<&str>) -> (r: String)
    ensures
        r@ == template_part(kind, template),
{
    match template {
        Some(note) => {
            let mut r = owned(note);
            match kind {
                Kind::Design => {
                    proof {
                        text::lemma_append_nothing(r@);
                    }
                },
                Kind::Document => {
                    r.append(DOCUMENT_TEMPLATE_USE);
                },
                Kind::Mailing => {
                    r.append(MAILING_TEMPLATE_USE);
                },
            }
            r
        },
        None => String::new(),
    }
}

/// The length of a preview.
pub open spec fn preview_part(kind: Kind, preview: Option<usize>) -> Seq<char> {
    match preview {
        Some(count) => preview_text(kind, count as nat),
        None => Seq::empty(),
    }
}

fn preview_of(kind: Kind, preview: Option<usize>) -> (r: String)
    ensures
        r@ == preview_part(kind, preview),
{
    match preview {
        Some(count) => preview_note(kind, count),
        None => String::new(),
    }
}

/// The place of a candidate among the others. A merge is one candidate on its
/// own, not one of the run's set.
pub open spec fn place_part(input: CandidateInput) -> Seq<char> {
    if input.count > 1 && input.merge is None {
        "This is candidate "@ + text::decimal(input.candidate_number as nat) + " of "@
            + text::decimal(input.count as nat)
            + ". Make it distinct from the other candidates in theme, structure, and angle.\n"@
            + input.concept@
    } else {
        Seq::empty()
    }
}

fn place_of(input: &CandidateInput) -> (r: String)
    ensures
        r@ == place_part(*input),
{
    if input.count > 1 && input.merge.is_none() {
        let mut r = owned("This is candidate ");
        r.append(decimal_of(input.candidate_number as u128).as_str());
        r.append(" of ");
        r.append(decimal_of(input.count as u128).as_str());
        r.append(
            ". Make it distinct from the other candidates in theme, structure, and angle.\n",
        );
        r.append(input.concept);
        r
    } else {
        String::new()
    }
}

/// What the effort asks of a candidate.
pub open spec fn effort_part(kind: Kind, effort: Seq<char>) -> Seq<char> {
    if effort == "low"@ {
        "Keep the "@ + words(kind).artifact@ + " concise: fewer "@ + words(kind).plural@
            + ", short text.\n"@
    } else if effort == "high"@ {
        "Work carefully: complete content, strong structure, clear notes.\n"@
    } else {
        Seq::empty()
    }
}

fn effort_of(kind: Kind, effort: &str) -> (r: String)
    ensures
        r@ == effort_part(kind, effort@),
{
    if *effort == *"low" {
        let w = words_for(kind);
        let mut r = owned("Keep the ");
        r.append(w.artifact);
        r.append(" concise: fewer ");
        r.append(w.plural);
        r.append(", short text.\n");
        r
    } else if *effort == *"high" {
        owned("Work carefully: complete content, strong structure, clear notes.\n")
    } else {
        String::new()
    }
}

/// The canvas of a design.
pub open spec fn viewport_part(viewport: Option<Viewport>) -> Seq<char> {
    match viewport {
        Some(canvas) => "Set `viewport` to "@ + text::decimal(canvas.width as nat) + " by "@
            + text::decimal(canvas.height as nat)
            + " px. Design every screen for that canvas.\n"@,
        None => Seq::empty(),
    }
}

fn viewport_of(viewport: Option<Viewport>) -> (r: String)
    ensures
        r@ == viewport_part(viewport),
{
    match viewport {
        Some(canvas) => {
            let mut r = owned("Set `viewport` to ");
            r.append(decimal_of(canvas.width as u128).as_str());
            r.append(" by ");
            r.append(decimal_of(canvas.height as u128).as_str());
            r.append(" px. Design every screen for that canvas.\n");
            r
        },
        None => String::new(),
    }
}

/// A text that may be missing.
pub open spec fn optional_part(part: Option<&str>) -> Seq<char> {
    match part {
        Some(text) => text@,
        None => Seq::empty(),
    }
}

fn optional_of(part: Option<&str>) -> (r: String)
    ensures
        r@ == optional_part(part),
{
    match part {
        Some(text) => owned(text),
        None => String::new(),
    }
}

/// The user prompt for one candidate: the request and the answers are
/// authoritative, plus the template, preview, concept, and effort notes.
pub open spec fn candidate_text(kind: Kind, input: CandidateInput) -> Seq<char> {
    "Build a "@ + words(kind).artifact@ + BUILD_ORDER@ + input.request@ + "\n"@ + template_part(
        kind,
        input.template,
    ) + preview_part(kind, input.preview) + input.notes@ + optional_part(input.merge) + place_part(
        input,
    ) + effort_part(kind, input.effort@) + viewport_part(input.viewport)
        + "Reply with only the "@ + words(kind).artifact@ + " JSON."@
}

/// What a candidate prompt says of the request.
pub const BUILD_ORDER: &'static str = " for this request. The request and the answers are \
authoritative; do not override an answer.\n";

/// The user prompt for one candidate: the request and the answers are
/// authoritative, plus the template, preview, concept, and effort notes.
pub fn candidate_prompt(kind: Kind, input: &CandidateInput) -> (r: String)
    ensures
        r@ == candidate_text(kind, *input),
{
    let w = words_for(kind);
    let mut r = owned("Build a ");
    r.append(w.artifact);
    r.append(BUILD_ORDER);
    r.append(input.request);
    r.append("\n");
    r.append(template_of(kind, input.template).as_str());
    r.append(preview_of(kind, input.preview).as_str());
    r.append(input.notes);
    r.append(optional_of(input.merge).as_str());
    r.append(place_of(input).as_str());
    r.append(effort_of(kind, input.effort).as_str());
    r.append(viewport_of(input.viewport).as_str());
    r.append("Reply with only the ");
    r.append(w.artifact);
    r.append(" JSON.");
    r
}

// -- Templates --------------------------------------------------------------

/// What a template note is built from.
pub struct TemplateInput<'a> {
    pub name: &'a str,
    /// The theme as JSON.
    pub theme_json: &'a str,
    /// The style note, from the brand material.
    pub note: Option<&'a str>,
    /// Each screen as JSON, where it has one.
    pub screens: &'a [Option<String>],
}

/// How a template note starts.
pub open spec fn template_start(input: TemplateInput) -> Seq<char> {
    "Use the saved template `"@ + input.name@ + TEMPLATE_ORDER@ + input.theme_json@ + "\n"@
}

/// What a template note says of the theme.
pub const TEMPLATE_ORDER: &'static str = "` for the look of this design.\n\
Copy this theme into the design exactly. Use it instead of any palette or fonts \
named elsewhere in this prompt:\n";

/// What a template note says of the screens.
pub const TEMPLATE_SCREENS: &'static str = "\
These screens show the template style. Match their CSS: the same font sizes, \
spacing, alignment, colors, and layout language. Write new content for the \
request. Do not copy their text.\n";

/// The style note of a template, unless it is blank.
pub open spec fn style_part(note: Option<&str>) -> Seq<char> {
    match note {
        Some(style) => if text::trim(style@).len() > 0 {
            "The template's style note, from its brand material. Follow it:\n"@ + style@ + "\n"@
        } else {
            Seq::empty()
        },
        None => Seq::empty(),
    }
}

fn style_of(note: Option<&str>) -> (r: String)
    ensures
        r@ == style_part(note),
{
    match note {
        Some(style) => {
            if trimmed(&chars_of(style)).len() > 0 {
                let mut r = owned(
                    "The template's style note, from its brand material. Follow it:\n",
                );
                r.append(style);
                r.append("\n");
                r
            } else {
                String::new()
            }
        },
        None => String::new(),
    }
}

/// The first `n` screens of a template, each behind its number.
pub open spec fn screens_part(screens: Seq<Option<String>>, n: int) -> Seq<char>
    decreases n,
{
    if n <= 0 {
        Seq::empty()
    } else {
        match screens[n - 1] {
            Some(json) => screens_part(screens, n - 1) + "Template screen "@ + text::decimal(
                n as nat,
            ) + ": "@ + json@ + "\n"@,
            None => screens_part(screens, n - 1),
        }
    }
}

fn screens_of(screens: &[Option<String>]) -> (r: String)
    ensures
        r@ == screens_part(screens@, screens@.len() as int),
{
    let mut r = String::new();
    let mut n: usize = 0;
    while n < screens.len()
        invariant
            n <= screens@.len(),
            r@ == screens_part(screens@, n as int),
        decreases screens@.len() - n,
    {
        if let Some(json) = &screens[n] {
            r.append("Template screen ");
            r.append(decimal_of(n as u128 + 1).as_str());
            r.append(": ");
            r.append(json.as_str());
            r.append("\n");
        }
        n += 1;
    }
    r
}

/// The prompt lines for a template: the theme to copy and the screens to
/// match. The template gives the look. The brief gives the content.
pub open spec fn template_text(input: TemplateInput) -> Seq<char> {
    template_start(input) + style_part(input.note) + (if input.screens@.len() > 0 {
        TEMPLATE_SCREENS@
    } else {
        Seq::empty()
    }) + screens_part(input.screens@, input.screens@.len() as int)
}

/// The prompt lines for a template: the theme to copy and the screens to
/// match. The template gives the look. The brief gives the content.
pub fn template_note(input: &TemplateInput) -> (r: String)
    ensures
        r@ == template_text(*input),
{
    let mut r = owned("Use the saved template `");
    r.append(input.name);
    r.append(TEMPLATE_ORDER);
    r.append(input.theme_json);
    r.append("\n");
    r.append(style_of(input.note).as_str());
    if input.screens.len() > 0 {
        r.append(TEMPLATE_SCREENS);
    } else {
        proof {
            text::lemma_append_nothing(r@);
        }
    }
    r.append(screens_of(input.screens).as_str());
    r
}

// -- System prompts ---------------------------------------------------------

/// The role of a model that writes designs.
pub const DESIGN_ROLE: &'static str = "\
You build screen designs as JSON documents. Each screen is one HTML fragment plus its own \
CSS, for the px canvas the design's `viewport` names.\nFollow these rules:\n";

/// The role of a model that writes documents.
pub const DOCUMENT_ROLE: &'static str = "\
You build paged documents as JSON documents: reports, memos, proposals, letters, and \
guides. Each page is one HTML fragment plus its own CSS, for the px canvas of the \
document's paper: 794 by 1123 px for A4, 816 by 1056 px for Letter.\nFollow these rules:\n";

/// The role of a model that writes mailings.
pub const MAILING_ROLE: &'static str = "\
You build mailings as JSON mailings: emails, newsletters, and email sequences read in an \
inbox. Each email is one HTML fragment plus its own CSS, for the px canvas of the \
mailing's format, 600 px wide: 600 by 800 px for short, 600 by 1200 px for standard, 600 \
by 1800 px for long. One email is a single send. Two or more emails are a sequence, in \
send order.\nFollow these rules:\n";

/// When the model asks instead of writing, and how.
pub const CLARIFICATION_PROTOCOL: &'static str = "\
\nThe request and the answers are authoritative. Do not override an answer. Decide the \
rest yourself.\nIf they lack a detail you cannot design without, do not guess. Reply with \
only this JSON \
instead:\n{\"needs_clarification\":{\"title\":\"...\",\"message\":\"...\",\"questions\":[{\"id\":\"...\",\"label\":\"...\",\"kind\":\"single_select\",\"required\":true,\"options\":[{\"value\":\"...\",\"label\":\"...\"}]}],\"can_proceed_with_assumptions\":true}}\nAsk \
at most ";

/// The role and the reply of a kind of artifact.
pub open spec fn role_and_reply(kind: Kind) -> (Seq<char>, Seq<char>) {
    match kind {
        Kind::Design => (DESIGN_ROLE@, "design JSON document"@),
        Kind::Document => (DOCUMENT_ROLE@, "document JSON"@),
        Kind::Mailing => (MAILING_ROLE@, "mailing JSON"@),
    }
}

fn role_of(kind: Kind) -> (r: (&'static str, &'static str))
    ensures
        (r.0@, r.1@) == role_and_reply(kind),
{
    match kind {
        Kind::Design => (DESIGN_ROLE, "design JSON document"),
        Kind::Document => (DOCUMENT_ROLE, "document JSON"),
        Kind::Mailing => (MAILING_ROLE, "mailing JSON"),
    }
}

/// What a system prompt is built from.
pub struct SystemInput<'a> {
    /// The content rules, as lines.
    pub rules: &'a str,
    /// The JSON Schema of the artifact.
    pub schema: &'a str,
    /// One example artifact as JSON.
    pub example: &'a str,
    /// How many questions the model may ask.
    pub limit: usize,
}

/// The system prompt: role, rules, schema, one example, and the clarification
/// protocol.
pub open spec fn system_text(kind: Kind, input: SystemInput) -> Seq<char> {
    role_and_reply(kind).0 + input.rules@ + "\nThe "@ + words(kind).artifact@
        + " must conform to this JSON Schema:\n"@ + input.schema@ + "\nExample "@
        + words(kind).artifact@ + ":\n"@ + input.example@ + CLARIFICATION_PROTOCOL@
        + text::decimal(input.limit as nat) + " questions. Otherwise reply with only one "@
        + role_and_reply(kind).1 + ". No prose, no code fences."@
}

/// The system prompt: role, rules, schema, one example, and the clarification
/// protocol.
pub fn system_prompt(kind: Kind, input: &SystemInput) -> (r: String)
    ensures
        r@ == system_text(kind, *input),
{
    let w = words_for(kind);
    let (role, reply) = role_of(kind);
    let mut r = owned(role);
    r.append(input.rules);
    r.append("\nThe ");
    r.append(w.artifact);
    r.append(" must conform to this JSON Schema:\n");
    r.append(input.schema);
    r.append("\nExample ");
    r.append(w.artifact);
    r.append(":\n");
    r.append(input.example);
    r.append(CLARIFICATION_PROTOCOL);
    r.append(decimal_of(input.limit as u128).as_str());
    r.append(" questions. Otherwise reply with only one ");
    r.append(reply);
    r.append(". No prose, no code fences.");
    r
}

// -- What the prompts say ---------------------------------------------------

proof fn lemma_order_holds_titles(
    kind: Kind,
    titles: Seq<Seq<char>>,
    first: nat,
    last: nat,
    planned: nat,
)
    ensures
        text::holds(
            continue_order(kind, titles, first, last, planned),
            text::join(titles, "\n"@),
        ),
{
    let a = "Write "@;
    let b = text::decimal(titles.len());
    let c = " "@;
    let d = words(kind).plural@;
    let e = ": outline titles "@;
    let f = text::decimal(first + 1);
    let g = " to "@;
    let h = text::decimal(last);
    let i = " of "@;
    let j = text::decimal(planned);
    let k = ", in order, one "@;
    let l = words(kind).unit@;
    let m = " per title:\n"@;
    let n = text::join(titles, "\n"@);
    let o = "\nKeep the theme. Match the existing "@;
    let q = " in CSS style, font sizes, spacing, colors, and visual language, so the "@;
    let r = words(kind).artifact@;
    let s = " reads as one "@;
    let t = words(kind).whole@;
    let u = ". Do not change or repeat the existing "@;
    let v = ".\n"@;
    text::lemma_holds_appended(a, b);
    text::lemma_holds_appended(a + b, c);
    text::lemma_holds_appended(a + b + c, d);
    text::lemma_holds_appended(a + b + c + d, e);
    text::lemma_holds_appended(a + b + c + d + e, f);
    text::lemma_holds_appended(a + b + c + d + e + f, g);
    text::lemma_holds_appended(a + b + c + d + e + f + g, h);
    text::lemma_holds_appended(a + b + c + d + e + f + g + h, i);
    text::lemma_holds_appended(a + b + c + d + e + f + g + h + i, j);
    text::lemma_holds_appended(a + b + c + d + e + f + g + h + i + j, k);
    text::lemma_holds_appended(a + b + c + d + e + f + g + h + i + j + k, l);
    text::lemma_holds_appended(a + b + c + d + e + f + g + h + i + j + k + l, m);
    text::lemma_holds_appended(a + b + c + d + e + f + g + h + i + j + k + l + m, n);
    text::lemma_holds_appended(a + b + c + d + e + f + g + h + i + j + k + l + m + n, o);
    text::lemma_holds_appended(a + b + c + d + e + f + g + h + i + j + k + l + m + n + o, d);
    text::lemma_holds_appended(a + b + c + d + e + f + g + h + i + j + k + l + m + n + o + d, q);
    text::lemma_holds_appended(a + b + c + d + e + f + g + h + i + j + k + l + m + n + o + d + q, r);
    text::lemma_holds_appended(a + b + c + d + e + f + g + h + i + j + k + l + m + n + o + d + q + r, s);
    text::lemma_holds_appended(a + b + c + d + e + f + g + h + i + j + k + l + m + n + o + d + q + r + s, t);
    text::lemma_holds_appended(a + b + c + d + e + f + g + h + i + j + k + l + m + n + o + d + q + r + s + t, u);
    text::lemma_holds_appended(a + b + c + d + e + f + g + h + i + j + k + l + m + n + o + d + q + r + s + t + u, d);
    text::lemma_holds_appended(a + b + c + d + e + f + g + h + i + j + k + l + m + n + o + d + q + r + s + t + u + d, v);
}

proof fn lemma_continue_holds_order(kind: Kind, input: ContinueInput, part: Seq<char>)
    requires
        ({
            let outline = text::strings(input.outline@);
            let written = input.written as int;
            let planned = outline.len() as int;
            let first = first_title(written, input.chunk);
            let last = end_title(written, planned, input.chunk);
            text::holds(
                continue_order(
                    kind,
                    numbered_titles(outline, first, last),
                    first as nat,
                    last as nat,
                    planned as nat,
                ),
                part,
            )
        }),
    ensures
        text::holds(continue_text(kind, input), part),
{
    let outline = text::strings(input.outline@);
    let written = input.written as int;
    let planned = outline.len() as int;
    let first = first_title(written, input.chunk);
    let last = end_title(written, planned, input.chunk);
    let start = continue_start(kind, input);
    let order = continue_order(
        kind,
        numbered_titles(outline, first, last),
        first as nat,
        last as nat,
        planned as nat,
    );
    let others = if first > written || last < planned {
        OTHER_CHUNKS@
    } else {
        Seq::empty()
    };
    text::lemma_holds_appended(start, order);
    text::lemma_holds_inside(start + order, order, part);
    text::lemma_holds_appended(start + order, others);
    assert(text::holds(start + order + others, part));
    text::lemma_holds_appended(
        start + order + others,
        continue_format(kind, input.written as nat),
    );
}

proof fn lemma_continue_holds(kind: Kind, input: ContinueInput, part: Seq<char>)
    requires
        text::holds(continue_start(kind, input), part),
    ensures
        text::holds(continue_text(kind, input), part),
{
    let outline = text::strings(input.outline@);
    let written = input.written as int;
    let planned = outline.len() as int;
    let first = first_title(written, input.chunk);
    let last = end_title(written, planned, input.chunk);
    let start = continue_start(kind, input);
    let order = continue_order(
        kind,
        numbered_titles(outline, first, last),
        first as nat,
        last as nat,
        planned as nat,
    );
    let others = if first > written || last < planned {
        OTHER_CHUNKS@
    } else {
        Seq::empty()
    };
    text::lemma_holds_appended(start, order);
    assert(text::holds(start + order, part));
    text::lemma_holds_appended(start + order, others);
    assert(text::holds(start + order + others, part));
    text::lemma_holds_appended(
        start + order + others,
        continue_format(kind, input.written as nat),
    );
}

/// An edit prompt shows the artifact as it is, then the request, then the
/// change, then what was measured, and how to reply.
pub proof fn law_an_edit_prompt_says_what_to_change(kind: Kind, input: EditInput)
    ensures
        text::holds(edit_text(kind, input), " to change:\n"@ + input.artifact_json@ + "\n"@ + input.note@),
        text::holds(edit_text(kind, input), " is for this request:\n"@ + input.request@ + "\nApply this change: "@ + text::trim(input.instruction@) + "\n"@),
        text::holds(edit_text(kind, input), reference_text(kind) + input.format@),
        forall|k: int|
            0 <= k < input.findings@.len() ==> text::holds(
                edit_text(kind, input),
                "- "@ + (#[trigger] input.findings@[k])@,
            ),
{
    let a = "Here is the "@;
    let b = words(kind).artifact@;
    let c = " to change:\n"@;
    let d = input.artifact_json@;
    let e = "\n"@;
    let f = input.note@;
    let g = "The "@;
    let h = " is for this request:\n"@;
    let i = input.request@;
    let j = "\nApply this change: "@;
    let k = text::trim(input.instruction@);
    let l = edit_focus::findings_text(text::strings(input.findings@));
    let m = reference_text(kind);
    let n = input.format@;
    text::lemma_holds_appended(a, b);
    text::lemma_append(a + b, c, d);
    text::lemma_append(a + b, c + d, e);
    text::lemma_append(a + b, c + d + e, f);
    text::lemma_holds_appended(a + b, c + d + e + f);
    text::lemma_holds_appended(a + b + c + d + e + f, g);
    text::lemma_holds_appended(a + b + c + d + e + f + g, b);
    text::lemma_append(a + b + c + d + e + f + g + b, h, i);
    text::lemma_append(a + b + c + d + e + f + g + b, h + i, j);
    text::lemma_append(a + b + c + d + e + f + g + b, h + i + j, k);
    text::lemma_append(a + b + c + d + e + f + g + b, h + i + j + k, e);
    text::lemma_holds_appended(a + b + c + d + e + f + g + b, h + i + j + k + e);
    text::lemma_holds_appended(a + b + c + d + e + f + g + b + h + i + j + k + e, l);
    text::lemma_append(a + b + c + d + e + f + g + b + h + i + j + k + e + l, m, n);
    text::lemma_holds_appended(a + b + c + d + e + f + g + b + h + i + j + k + e + l, m + n);
    let all = edit_text(kind, input);
    assert(text::holds(all, l));
    let findings = text::strings(input.findings@);
    assert forall|x: int| 0 <= x < input.findings@.len() implies text::holds(
        all,
        "- "@ + (#[trigger] input.findings@[x])@,
    ) by {
        edit_focus::law_every_finding_is_told(findings, x);
        assert(findings[x] == input.findings@[x]@);
        text::lemma_holds_inside(all, l, "- "@ + findings[x]);
    }
}

/// A continuation prompt shows the artifact in progress, then the request.
pub proof fn law_a_continuation_shows_its_artifact(kind: Kind, input: ContinueInput)
    ensures
        text::holds(continue_text(kind, input), ":\n"@ + input.artifact_json@ + "\nThe "@ + words(kind).artifact@ + " is for this request:\n"@ + input.request@ + "\n"@),
{
    let a = "Here is a "@;
    let b = words(kind).artifact@;
    let c = " in progress: its theme, "@;
    let d = words(kind).traits@;
    let e = "its first "@;
    let f = text::decimal(input.written as nat);
    let g = " "@;
    let h = words(kind).plural@;
    let i = ", and `outline`, the "@;
    let j = words(kind).unit@;
    let k = " titles of the complete "@;
    let l = ":\n"@;
    let m = input.artifact_json@;
    let n = "\nThe "@;
    let o = " is for this request:\n"@;
    let q = input.request@;
    let r = "\n"@;
    text::lemma_holds_appended(a, b);
    text::lemma_holds_appended(a + b, c);
    text::lemma_holds_appended(a + b + c, d);
    text::lemma_holds_appended(a + b + c + d, e);
    text::lemma_holds_appended(a + b + c + d + e, f);
    text::lemma_holds_appended(a + b + c + d + e + f, g);
    text::lemma_holds_appended(a + b + c + d + e + f + g, h);
    text::lemma_holds_appended(a + b + c + d + e + f + g + h, i);
    text::lemma_holds_appended(a + b + c + d + e + f + g + h + i, j);
    text::lemma_holds_appended(a + b + c + d + e + f + g + h + i + j, k);
    text::lemma_holds_appended(a + b + c + d + e + f + g + h + i + j + k, b);
    text::lemma_append(a + b + c + d + e + f + g + h + i + j + k + b, l, m);
    text::lemma_append(a + b + c + d + e + f + g + h + i + j + k + b, l + m, n);
    text::lemma_append(a + b + c + d + e + f + g + h + i + j + k + b, l + m + n, b);
    text::lemma_append(a + b + c + d + e + f + g + h + i + j + k + b, l + m + n + b, o);
    text::lemma_append(a + b + c + d + e + f + g + h + i + j + k + b, l + m + n + b + o, q);
    text::lemma_append(a + b + c + d + e + f + g + h + i + j + k + b, l + m + n + b + o + q, r);
    text::lemma_holds_appended(a + b + c + d + e + f + g + h + i + j + k + b, l + m + n + b + o + q + r);
    let part = l + m + n + b + o + q + r;
    assert(text::holds(continue_start(kind, input), part));
    lemma_continue_holds(kind, input, part);
}

/// A continuation prompt asks for each of its titles, behind its number.
pub proof fn law_a_continuation_asks_for_its_titles(kind: Kind, input: ContinueInput, title: int)
    requires
        0 <= first_title(input.written as int, input.chunk) <= title < end_title(
            input.written as int,
            input.outline@.len() as int,
            input.chunk,
        ),
    ensures
        text::holds(
            continue_text(kind, input),
            text::decimal((title + 1) as nat) + ". "@ + input.outline@[title]@,
        ),
{
    let outline = text::strings(input.outline@);
    let written = input.written as int;
    let planned = outline.len() as int;
    let first = first_title(written, input.chunk);
    let last = end_title(written, planned, input.chunk);
    let titles = numbered_titles(outline, first, last);
    let list = text::join(titles, "\n"@);
    let order = continue_order(kind, titles, first as nat, last as nat, planned as nat);
    assert(outline[title] == input.outline@[title]@);
    assert(titles[title - first] == numbered(outline, title));
    text::lemma_join_holds(titles, "\n"@, title - first);
    lemma_order_holds_titles(kind, titles, first as nat, last as nat, planned as nat);
    text::lemma_holds_inside(order, list, numbered(outline, title));
    lemma_continue_holds_order(kind, input, numbered(outline, title));
}

/// A candidate prompt shows the request, and each note that the candidate has:
/// its template, its length, its notes, what it merges, its place and concept
/// among the others, and its canvas.
pub proof fn law_a_candidate_prompt_has_its_notes(kind: Kind, input: CandidateInput)
    ensures
        text::holds(candidate_text(kind, input), BUILD_ORDER@ + input.request@ + "\n"@),
        input.template matches Some(note) ==> text::holds(candidate_text(kind, input), note@),
        input.preview matches Some(count) ==> text::holds(candidate_text(kind, input), preview_text(kind, count as nat)),
        text::holds(candidate_text(kind, input), input.notes@),
        input.merge matches Some(note) ==> text::holds(candidate_text(kind, input), note@),
        input.count > 1 && input.merge is None ==> text::holds(candidate_text(kind, input), input.concept@),
        input.viewport matches Some(canvas) ==> text::holds(candidate_text(kind, input), text::decimal(canvas.width as nat) + " by "@ + text::decimal(canvas.height as nat)),
{
    let a = "Build a "@;
    let b = words(kind).artifact@;
    let c = BUILD_ORDER@;
    let d = input.request@;
    let e = "\n"@;
    let f = template_part(kind, input.template);
    let g = preview_part(kind, input.preview);
    let h = input.notes@;
    let i = optional_part(input.merge);
    let j = place_part(input);
    let k = effort_part(kind, input.effort@);
    let l = viewport_part(input.viewport);
    let m = "Reply with only the "@;
    let n = " JSON."@;
    text::lemma_holds_appended(a, b);
    text::lemma_append(a + b, c, d);
    text::lemma_append(a + b, c + d, e);
    text::lemma_holds_appended(a + b, c + d + e);
    text::lemma_holds_appended(a + b + c + d + e, f);
    text::lemma_holds_appended(a + b + c + d + e + f, g);
    text::lemma_holds_appended(a + b + c + d + e + f + g, h);
    text::lemma_holds_appended(a + b + c + d + e + f + g + h, i);
    text::lemma_holds_appended(a + b + c + d + e + f + g + h + i, j);
    text::lemma_holds_appended(a + b + c + d + e + f + g + h + i + j, k);
    text::lemma_holds_appended(a + b + c + d + e + f + g + h + i + j + k, l);
    text::lemma_holds_appended(a + b + c + d + e + f + g + h + i + j + k + l, m);
    text::lemma_holds_appended(a + b + c + d + e + f + g + h + i + j + k + l + m, b);
    text::lemma_holds_appended(a + b + c + d + e + f + g + h + i + j + k + l + m + b, n);
    let all = candidate_text(kind, input);
    if let Some(note) = input.template {
        text::lemma_holds_appended(note@, template_use(kind));
        text::lemma_holds_inside(all, f, note@);
    }
    if input.count > 1 && input.merge is None {
        let before = "This is candidate "@ + text::decimal(input.candidate_number as nat) + " of "@
            + text::decimal(input.count as nat)
            + ". Make it distinct from the other candidates in theme, structure, and angle.\n"@;
        text::lemma_holds_appended(before, input.concept@);
        text::lemma_holds_inside(all, j, input.concept@);
    }
    if let Some(canvas) = input.viewport {
        let w = text::decimal(canvas.width as nat);
        let x = " by "@;
        let y = text::decimal(canvas.height as nat);
        let z = " px. Design every screen for that canvas.\n"@;
        let start = "Set `viewport` to "@;
        text::lemma_append(start, w, x);
        text::lemma_append(start, w + x, y);
        text::lemma_holds_appended(start, w + x + y);
        text::lemma_holds_appended(start + w + x + y, z);
        text::lemma_holds_inside(all, l, w + x + y);
    }
}

/// A system prompt has the role of its kind, the rules, the schema, the
/// example, and how many questions may be asked.
pub proof fn law_a_system_prompt_has_its_rules(kind: Kind, input: SystemInput)
    ensures
        text::holds(system_text(kind, input), role_and_reply(kind).0 + input.rules@),
        text::holds(system_text(kind, input), " must conform to this JSON Schema:\n"@ + input.schema@ + "\nExample "@),
        text::holds(system_text(kind, input), ":\n"@ + input.example@ + CLARIFICATION_PROTOCOL@ + text::decimal(input.limit as nat)),
{
    let a = role_and_reply(kind).0;
    let b = input.rules@;
    let c = "\nThe "@;
    let d = words(kind).artifact@;
    let e = " must conform to this JSON Schema:\n"@;
    let f = input.schema@;
    let g = "\nExample "@;
    let h = ":\n"@;
    let i = input.example@;
    let j = CLARIFICATION_PROTOCOL@;
    let k = text::decimal(input.limit as nat);
    let l = " questions. Otherwise reply with only one "@;
    let m = role_and_reply(kind).1;
    let n = ". No prose, no code fences."@;
    text::lemma_holds_appended(a, b);
    text::lemma_holds_appended(a + b, c);
    text::lemma_holds_appended(a + b + c, d);
    text::lemma_append(a + b + c + d, e, f);
    text::lemma_append(a + b + c + d, e + f, g);
    text::lemma_holds_appended(a + b + c + d, e + f + g);
    text::lemma_holds_appended(a + b + c + d + e + f + g, d);
    text::lemma_append(a + b + c + d + e + f + g + d, h, i);
    text::lemma_append(a + b + c + d + e + f + g + d, h + i, j);
    text::lemma_append(a + b + c + d + e + f + g + d, h + i + j, k);
    text::lemma_holds_appended(a + b + c + d + e + f + g + d, h + i + j + k);
    text::lemma_holds_appended(a + b + c + d + e + f + g + d + h + i + j + k, l);
    text::lemma_holds_appended(a + b + c + d + e + f + g + d + h + i + j + k + l, m);
    text::lemma_holds_appended(a + b + c + d + e + f + g + d + h + i + j + k + l + m, n);
}

proof fn lemma_screen_is_held(screens: Seq<Option<String>>, k: int, n: int)
    requires
        0 <= k < n <= screens.len(),
        screens[k] is Some,
    ensures
        text::holds(
            screens_part(screens, n),
            "Template screen "@ + text::decimal((k + 1) as nat) + ": "@ + screens[k]->0@ + "\n"@,
        ),
    decreases n,
{
    let before = screens_part(screens, n - 1);
    if k == n - 1 {
        let a = "Template screen "@;
        let b = text::decimal(n as nat);
        let c = ": "@;
        let d = screens[k]->0@;
        let e = "\n"@;
        text::lemma_append(before, a, b);
        text::lemma_append(before, a + b, c);
        text::lemma_append(before, a + b + c, d);
        text::lemma_append(before, a + b + c + d, e);
        text::lemma_holds_appended(before, a + b + c + d + e);
    } else {
        lemma_screen_is_held(screens, k, n - 1);
        if let Some(json) = screens[n - 1] {
            let a = "Template screen "@;
            let b = text::decimal(n as nat);
            let c = ": "@;
            let d = json@;
            let e = "\n"@;
            let part = "Template screen "@ + text::decimal((k + 1) as nat) + ": "@ + screens[k]->0@
                + "\n"@;
            text::lemma_holds_before(before, a, part);
            text::lemma_holds_before(before + a, b, part);
            text::lemma_holds_before(before + a + b, c, part);
            text::lemma_holds_before(before + a + b + c, d, part);
            text::lemma_holds_before(before + a + b + c + d, e, part);
        }
    }
}

proof fn lemma_template_start(input: TemplateInput)
    ensures
        text::holds(
            template_start(input),
            "`"@ + input.name@ + TEMPLATE_ORDER@ + input.theme_json@,
        ),
{
    let tick = "`"@;
    let label = "Use the saved template `"@;
    let first = label.take(23);
    assert(label == first + tick) by {
        reveal_strlit("Use the saved template `");
        reveal_strlit("`");
        assert(label =~= first + tick);
    }
    let a = input.name@;
    let b = TEMPLATE_ORDER@;
    let c = input.theme_json@;
    let d = "\n"@;
    text::lemma_append(first, tick, a);
    text::lemma_append(first, tick + a, b);
    text::lemma_append(first, tick + a + b, c);
    text::lemma_holds_itself(first, tick + a + b + c, d);
}

/// A template note names the template, has its theme, its style note, and
/// each screen it could read, behind the number of the screen.
pub proof fn law_a_template_note_has_its_screens(input: TemplateInput)
    ensures
        text::holds(template_text(input), "`"@ + input.name@ + TEMPLATE_ORDER@ + input.theme_json@),
        input.note matches Some(style) ==> text::trim(style@).len() > 0 ==> text::holds(
            template_text(input),
            style@,
        ),
        forall|k: int|
            0 <= k < input.screens@.len() && (#[trigger] input.screens@[k]) is Some ==> text::holds(
                template_text(input),
                "Template screen "@ + text::decimal((k + 1) as nat) + ": "@
                    + input.screens@[k]->0@ + "\n"@,
            ),
{
    let all = template_text(input);
    let n = input.screens@.len() as int;
    let start = template_start(input);
    let style = style_part(input.note);
    let order = if n > 0 {
        TEMPLATE_SCREENS@
    } else {
        Seq::empty()
    };
    let screens = screens_part(input.screens@, n);
    let head = "`"@ + input.name@ + TEMPLATE_ORDER@ + input.theme_json@;
    lemma_template_start(input);
    text::lemma_holds_appended(start, style);
    text::lemma_holds_appended(start + style, order);
    text::lemma_holds_appended(start + style + order, screens);
    text::lemma_holds_before(start, style, head);
    text::lemma_holds_before(start + style, order, head);
    text::lemma_holds_before(start + style + order, screens, head);
    text::lemma_holds_before(start + style, order, style);
    text::lemma_holds_before(start + style + order, screens, style);
    assert(text::holds(all, screens));
    if let Some(note) = input.note {
        if text::trim(note@).len() > 0 {
            let label = "The template's style note, from its brand material. Follow it:\n"@;
            text::lemma_holds_itself(label, note@, "\n"@);
            text::lemma_holds_inside(all, style, note@);
        }
    }
    assert forall|k: int| 0 <= k < n && (#[trigger] input.screens@[k]) is Some implies text::holds(
        all,
        "Template screen "@ + text::decimal((k + 1) as nat) + ": "@ + input.screens@[k]->0@
            + "\n"@,
    ) by {
        lemma_screen_is_held(input.screens@, k, n);
        text::lemma_holds_inside(
            all,
            screens,
            "Template screen "@ + text::decimal((k + 1) as nat) + ": "@ + input.screens@[k]->0@
                + "\n"@,
        );
    }
}

} // verus!
