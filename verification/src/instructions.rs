//! The agent contract: the rules, the steps, and the routes that an agent
//! reads.
//!
//! There are six artifact kinds, each with its own rule list. The texts follow
//! Simplified Technical English.

use vstd::prelude::*;

use crate::json;
use crate::json::{Field, Json, JsonModel};
use crate::model;
use crate::text;
use crate::text::{decimal_of, joined_strings, owned};

verus! {

// -- Rules every unit follows -----------------------------------------------

/// How a unit's CSS is scoped.
pub const SCOPED_CSS: &'static str = "\
The server scopes your CSS to the screen, slide, or page. Write plain selectors such as \
`.title` or `h1`. Do not write `html`, `body`, or `:root` selectors. Do not use \
`@import`. `@media`, `@keyframes`, and `@font-face` are allowed.";

/// How a unit uses the theme.
pub const THEME_VARIABLES: &'static str = "\
Use the theme through CSS variables: `--background`, `--text`, `--accent`, `--muted`, \
`--heading-font`, `--body-font`, `--mono-font`. Write other colors as #rrggbb.";

/// The fonts and the base styles.
pub const THEME_FONTS: &'static str = "\
The server loads the theme fonts from Google Fonts. Base styles: text is 32px in the \
body font and text color, headings use the heading font with margin 0, paragraphs and \
lists have margin 0, images are block and max-width 100%.";

/// The HTML a unit may hold.
pub const ALLOWED_HTML: &'static str = "\
Allowed HTML: headings, text, lists, tables, `<img>`, inline `<svg>`, `<pre><code>`, \
`<blockquote>`, `<a>`, `<details>` with `<summary>`, `<label>`, and `<input>` with type \
`checkbox` or `radio`. Close every tag. Do not write `<script>`, `<style>`, `<iframe>`, \
`<object>`, `<embed>`, `<link>`, `<meta>`, `<form>`, `<button>`, `<select>`, \
`<textarea>`, other input types, media, comments, on* attributes, javascript: URLs, or \
data: URLs.";

/// The images a unit may show.
pub const IMAGE_SOURCES: &'static str = "\
Images: `<img src='/uploads/{name}'>` for files in GET /uploads?session={id}. Use no \
other image source. Draw charts, icons, and shapes as inline SVG or CSS.";

/// How long a unit may be.
pub const SIZE_LIMITS: &'static str = "\
Keep html under 20,000 characters and css under 10,000 characters. Use single quotes \
for HTML attribute values inside the JSON string.";

// -- Rules per kind ---------------------------------------------------------

/// Design content rules, shared by the agent instructions and the built-in
/// generation engine.
pub const DEMO_RULES: [&'static str; 15] = [
    "A screen is one HTML fragment in `html` and one CSS block in `css`.",
    "\
Design each screen for the px canvas in the design's `viewport`. The default is 1440 by \
900 px (desktop web). Use 390 by 844 for a phone and 1024 by 768 for a tablet. Use px \
units. Do not use vw, vh, vmin, vmax, or container units.",
    "\
Lay out with flex, grid, or absolute positioning. The screen root is position: \
relative, the viewport size, overflow: hidden. Do not add an outer box of your own with \
a fixed height and overflow: hidden. Such a box hides overflow from the fit.",
    SCOPED_CSS,
    THEME_VARIABLES,
    THEME_FONTS,
    ALLOWED_HTML,
    IMAGE_SOURCES,
    "Give every id and @keyframes name a prefix unique to the screen, such as `s3-`.",
    "\
Size text for the viewport. On a 1440 px desktop canvas: titles 48 to 72px, body 18 to \
24px, captions 14 to 16px, margins of at least 64px. On a 390 px phone canvas: titles \
28 to 36px, body 16 to 18px, captions 12 to 14px, margins of at least 20px. Give boxes \
enough height for every line.",
    SIZE_LIMITS,
    "\
Put one idea on each screen. Put intent, states, and handoff remarks in notes. The \
renderer does not show notes on the screen.",
    "\
Every control acts. A button or a link opens a screen: write `<a href='#screen-3'>` \
with the screen number, counted from 1. Write the screen the link opens. Give each step \
of a flow its own screen.",
    "\
A menu or a dropdown is `<details>` with a `<summary>`. A toggle, a tab set, or a modal \
is `<input type='checkbox'>` or `<input type='radio'>` with a `<label for>`, styled \
through `:checked`. Give the input an id with the screen prefix. Do not write \
`<button>`. Style the `<a>` or the `<label>` as the button. Do not write a control that \
does nothing: the audit reports it as `static_control`.",
    "\
`transition` is optional. Leave it out and the design scrolls. Set it to give the \
design a page transition: `effect` is `none`, `fade`, `push`, `cover`, or `zoom`; \
`axis` is `vertical` or `horizontal`; `duration_ms` is 0 to 3000. `axis` moves `push` \
and `cover` only. Set it only when the user asks for one.",
];

/// Deck content rules.
pub const DECK_RULES: [&'static str; 13] = [
    "A slide is one HTML fragment in `html` and one CSS block in `css`.",
    "\
Design each slide for a canvas of 1920 by 1080 px. A deck has no `viewport` field. Use \
px units. Do not use vw, vh, vmin, vmax, or container units.",
    "\
Lay out with flex, grid, or absolute positioning. The slide root is position: relative, \
1920 by 1080 px, overflow: hidden. Do not add an outer box of your own with a fixed \
height and overflow: hidden. Such a box hides overflow from the fit.",
    SCOPED_CSS,
    THEME_VARIABLES,
    THEME_FONTS,
    ALLOWED_HTML,
    IMAGE_SOURCES,
    "Give every id and @keyframes name a prefix unique to the slide, such as `s3-`.",
    "\
Font sizes: titles 80 to 120px, body 32 to 44px, captions 24 to 30px. Keep all text \
inside the slide with margins of at least 80px. Give boxes enough height for every line.",
    SIZE_LIMITS,
    "\
Put one idea on each slide. Put speaker text in notes. The renderer does not show notes \
on the slide. The presenter view at GET /decks/{id}/present shows the notes to the \
speaker.",
    "\
`transition` is optional. Leave it out and the deck scrolls. Set it to give the deck a \
page transition: `effect` is `none`, `fade`, `push`, `cover`, or `zoom`; `axis` is \
`vertical` or `horizontal`; `duration_ms` is 0 to 3000. `axis` moves `push` and `cover` \
only. Set it only when the user asks for one.",
];

/// Document content rules.
pub const DOCUMENT_RULES: [&'static str; 14] = [
    "A page is one HTML fragment in `html` and one CSS block in `css`.",
    "\
Design each page for the px canvas of the document's `paper`: 794 by 1123 px for `a4` \
(the default), 816 by 1056 px for `letter`. A document has no `viewport` field. Use px \
units. Do not use vw, vh, vmin, vmax, or container units.",
    "\
Lay out with flex, grid, or absolute positioning. The page root is position: relative, \
the paper size, overflow: hidden. Do not add an outer box of your own with a fixed \
height and overflow: hidden. Such a box hides overflow from the fit.",
    SCOPED_CSS,
    THEME_VARIABLES,
    THEME_FONTS,
    ALLOWED_HTML,
    IMAGE_SOURCES,
    "Give every id and @keyframes name a prefix unique to the page, such as `p3-`.",
    "\
Font sizes for print: titles 28 to 40px, headings 18 to 24px, body 14 to 17px, captions \
11 to 13px. Keep all text inside the page with margins of at least 64px. Give boxes \
enough height for every line. Fill the page: a page that ends half empty reads as \
unfinished, so move content between pages until each page is full.",
    SIZE_LIMITS,
    "\
Write the document as a reader reads it: a title on the first page, then sections in \
order, with headings, paragraphs, lists, and tables. Put sources, intent, and handoff \
remarks in notes. The renderer does not show notes on the page.",
    "\
A document is read, not clicked. Do not write links between pages, `<details>`, \
`<input>`, or any control.",
    "A document has no `transition` field.",
];

/// Social content rules.
pub const SOCIAL_RULES: [&'static str; 15] = [
    "\
A frame is one HTML fragment in `html` and one CSS block in `css`. One frame is a \
single post. Two or more frames are a carousel, in swipe order.",
    "\
Design each frame for the px canvas of the social's `format`: 1080 by 1080 px for \
`square`, 1080 by 1350 px for `portrait` (the default), 1080 by 1920 px for `story`, \
1200 by 630 px for `landscape`. A social has no `viewport` field. Use px units. Do not \
use vw, vh, vmin, vmax, or container units.",
    "\
Lay out with flex, grid, or absolute positioning. The frame root is position: relative, \
the format size, overflow: hidden. Do not add an outer box of your own with a fixed \
height and overflow: hidden. Such a box hides overflow from the fit.",
    SCOPED_CSS,
    THEME_VARIABLES,
    THEME_FONTS,
    ALLOWED_HTML,
    IMAGE_SOURCES,
    "Give every id and @keyframes name a prefix unique to the frame, such as `f3-`.",
    "\
Font sizes for a phone screen: titles 72 to 120px, body 36 to 48px, captions 28 to \
32px. Keep all text inside the frame with margins of at least 96px. Give boxes enough \
height for every line. Put at most 25 words on one frame. A frame is read on a phone in \
two seconds.",
    SIZE_LIMITS,
    "\
The first frame is the hook: one claim in large type that stops the scroll. The last \
frame of a carousel is the call to action. Put the caption to post with the frame, \
hashtags included, in `notes`. The renderer does not show notes on the frame.",
    "\
Keep the branding the same on every frame: the same fonts, the same palette, the same \
corner mark or logo position, so the carousel reads as one post.",
    "\
A frame is a picture in a feed, not a page that is clicked. Do not write links between \
frames, `<details>`, `<input>`, or any control. Write a web address as plain text.",
    "A social has no `transition` field.",
];

/// Print content rules.
pub const PRINT_RULES: [&'static str; 16] = [
    "\
A sheet is one HTML fragment in `html` and one CSS block in `css`. One sheet is a \
poster. Two sheets are the front and the back of a flyer, in reading order.",
    "\
Design each sheet for the px canvas of the print's `size`: 559 by 794 px for `a5`, 794 \
by 1123 px for `a4` (the default), 1123 by 1587 px for `a3`, 816 by 1056 px for \
`letter`, 1056 by 1632 px for `tabloid`. `orientation: 'landscape'` swaps the width and \
the height. A print has no `viewport` field. Use px units. Do not use vw, vh, vmin, \
vmax, or container units.",
    "\
Lay out with flex, grid, or absolute positioning. The sheet root is position: relative, \
the canvas size, overflow: hidden. Do not add an outer box of your own with a fixed \
height and overflow: hidden. Such a box hides overflow from the fit.",
    SCOPED_CSS,
    THEME_VARIABLES,
    THEME_FONTS,
    ALLOWED_HTML,
    IMAGE_SOURCES,
    "Give every id and @keyframes name a prefix unique to the sheet, such as `s3-`.",
    "\
Size type for the print kind. A poster is read at a distance: titles 90 to 160px, body \
30 to 44px, and at most 40 words on the sheet. A flyer, a menu, a program, or a \
certificate is read in the hand: titles 40 to 64px, headings 24 to 32px, body 16 to \
20px, captions 12 to 14px. Give boxes enough height for every line.",
    "\
Keep text and logos inside a safe margin of at least 5 percent of the short edge on \
every side: a print shop trims to the edge. Backgrounds and full-bleed imagery may run \
to the edge.",
    SIZE_LIMITS,
    "\
The first sheet is the face of the piece and must work alone. On a two-sheet flyer, the \
front carries the hook and the back carries the detail. Put print instructions, such as \
the paper stock or the bleed, in `notes`. The renderer does not show notes on the sheet.",
    "\
Pick colors that survive white paper in daylight. Do not rely on glow effects or a \
screen-dark background unless the user asks for one.",
    "\
A print is ink on paper, not a page that is clicked. Do not write links between sheets, \
`<details>`, `<input>`, or any control. Write a web address as plain text.",
    "A print has no `transition` field.",
];

/// Mailing content rules.
pub const MAILING_RULES: [&'static str; 19] = [
    "\
An email is one HTML fragment in `html` and one CSS block in `css`. One email is a \
single send. Two or more emails are a sequence, in send order.",
    "\
Design each email for the px canvas of the mailing's `format`: 600 by 800 px for \
`short`, 600 by 1200 px for `standard` (the default), 600 by 1800 px for `long`. A \
mailing has no `viewport` field. Use px units. Do not use vw, vh, vmin, vmax, or \
container units.",
    "\
Lay out in one column by default. An email client is 600 px wide on a desktop and \
narrower on a phone. Stack the blocks and space them with padding and margin. Do not \
use flex, grid, gap, float, or position: absolute: email clients ignore them. \
border-radius and box-shadow are safe: a client that ignores them shows a plain box. \
The email root is position: relative, height: 100%, overflow: hidden. Do not set a px \
height on the root and do not add an outer box of your own with a fixed height and \
overflow: hidden. Such a box hides overflow from the fit, and the email export lets the \
email flow taller than the canvas.",
    "\
To place blocks side by side, write this exact pattern: a `<div class='columns'>` \
parent with two or three `<div class='column'>` children, no whitespace between the \
tags. Give `.columns` an explicit px width. Give each `.column` display: inline-block, \
vertical-align: top, and an explicit px width; the column widths sum to the `.columns` \
width. The email export compiles this pattern to table cells for Outlook and stacks the \
columns on a phone. Do not nest one `columns` div inside another.",
    "\
Write simple selectors: `tag`, `.class`, `tag.class`, descendant, and child. The email \
export inlines them into style attributes. A `:hover` rule, a pseudo-element rule, or a \
`@media` rule stays in a style block and reaches only some clients.",
    SCOPED_CSS,
    THEME_VARIABLES,
    "\
The server loads the theme fonts from Google Fonts. Base styles: headings use the \
heading font with margin 0, paragraphs and lists have margin 0, images are block and \
max-width 100%. The studio default text size is 32px and the email export default is \
16px: set an explicit px font-size on every element that shows text.",
    ALLOWED_HTML,
    IMAGE_SOURCES,
    "\
Give every id a prefix unique to the email, such as `e3-`. Do not write `@keyframes`, \
`animation`, or `transition` rules: an email client does not run them and the email \
export drops them.",
    "\
Size type for the inbox: titles 28 to 40px, headings 22 to 26px, body 16 to 18px, \
captions 12 to 14px. Set the size in px on the element's own rule, not only on a \
parent. Give boxes enough height for every line.",
    "\
Write a call to action as a styled `<a>` link: a solid accent background, padding of at \
least 14px by 28px, and rounded corners.",
    SIZE_LIMITS,
    "\
The first email is the one the reader opens first. Lead with the hook: one claim and \
one call to action near the top. Put the subject line and the preheader text in \
`notes`, as a `Subject:` line and a `Preheader:` line. The renderer does not show notes \
on the email.",
    "\
Keep the branding the same on every email: the same fonts, the same palette, the same \
header, and the same footer, so the sequence reads as one campaign.",
    "\
End every email with a footer in muted small type: the sender name, a postal address \
line, and an unsubscribe line as a plain `<a>` link.",
    "\
An email is read in an inbox, not clicked between. Do not write links between emails, \
`<details>`, `<input>`, or any control. Write a web address that is not a call to \
action as plain text.",
    "A mailing has no `transition` field.",
];

/// Chart rules for data screens, slides, pages, frames, sheets, and emails.
pub const CHART_RULES: [&'static str; 8] = [
    "Draw a chart as inline SVG in the screen, slide, page, or frame html.",
    "Do not load a chart library.",
    "Do not write a `<script>` element.",
    "Give the SVG a `viewBox` attribute. Do not set a fixed pixel width on the SVG.",
    "\
Take every chart color from the theme palette: `var(--accent)`, `var(--text)`, \
`var(--muted)`, and `var(--background)`.",
    "Label each axis.",
    "Write each value in the SVG as text. Do not compute a value at run time.",
    "\
Give the SVG a `role='img'` attribute and a `<title>` element. The `<title>` states \
what the chart shows.",
];

/// One bar chart that follows the chart rules: a `viewBox`, theme colors,
/// axis labels, written values, and a `<title>` element.
pub const CHART_EXAMPLE: &'static str = "<svg class='s4-chart' viewBox='0 0 800 500' role='img'>\n\
<title>Revenue by quarter, in millions</title>\n\
<line x1='80' y1='420' x2='760' y2='420' stroke='var(--muted)' stroke-width='2'/>\n\
<line x1='80' y1='40' x2='80' y2='420' stroke='var(--muted)' stroke-width='2'/>\n\
<rect x='140' y='300' width='100' height='120' fill='var(--accent)'/>\n\
<rect x='300' y='220' width='100' height='200' fill='var(--accent)'/>\n\
<rect x='460' y='140' width='100' height='280' fill='var(--accent)'/>\n\
<text x='190' y='290' text-anchor='middle' fill='var(--text)' font-size='24'>12</text>\n\
<text x='350' y='210' text-anchor='middle' fill='var(--text)' font-size='24'>20</text>\n\
<text x='510' y='130' text-anchor='middle' fill='var(--text)' font-size='24'>28</text>\n\
<text x='190' y='460' text-anchor='middle' fill='var(--muted)' font-size='24'>Q1</text>\n\
<text x='350' y='460' text-anchor='middle' fill='var(--muted)' font-size='24'>Q2</text>\n\
<text x='510' y='460' text-anchor='middle' fill='var(--muted)' font-size='24'>Q3</text>\n\
<text x='420' y='495' text-anchor='middle' fill='var(--text)' font-size='24'>Quarter</text>\n\
<text x='30' y='230' text-anchor='middle' fill='var(--text)' font-size='24' transform='rotate(-90 30 230)'>Millions</text>\n\
</svg>";

// -- Steps ------------------------------------------------------------------

/// The build steps before the questions.
pub const FIRST_STEPS: [&'static str; 2] = [
    "\
GET /schemas/design, GET /schemas/deck, GET /schemas/document, GET /schemas/social, GET \
/schemas/print, GET /schemas/mailing, and GET /schemas/question-set. Read the JSON \
Schemas.",
    "\
GET /sessions/{id}. Read the request, the artifact_kind, the options, the state, the \
messages, the question sets, and the answers. The artifact_kind is `demo`, `deck`, \
`document`, `social`, `print`, or `mailing`. A demo session writes designs. A deck \
session writes decks. A document session writes documents. A social session writes \
socials. A print session writes prints. A mailing session writes mailings. There is no \
brief: the request and the answers are the input.",
];

/// The build steps behind the questions.
pub const LATER_STEPS: [&'static str; 18] = [
    "\
The app asks the user for these, not you: the artifact kind, how the colors read, the \
number of variations; for a demo how much to build, what kind of product it is, what \
state the screens show, and the canvases; for a deck the audience, the tone, the \
scenario, the number of slides, how much goes on a slide, how much it leans on data, \
and how different the candidates are; for a document the audience, the tone, how much \
it leans on data, what kind of document it is, the paper, how much goes on a page, the \
number of pages, and how different the candidates are; for a social the audience, the \
tone, how much it leans on data, the platform, the format, what the post is for, the \
number of frames, and how different the candidates are; for a print the audience, the \
tone, how much it leans on data, what kind of print piece it is, the paper size, the \
orientation, the number of sheets, and how different the candidates are; for a mailing \
the audience, the tone, how much it leans on data, what kind of email it is, the email \
format, the number of emails, and how different the candidates are. Never ask about \
them, and never ask about them in other words. Ask only what this request raises and \
that list does not cover, such as the features to show or the data on a screen. Ask \
nothing when the request and the source files already say enough. Read them from the \
session options and follow them. A demo with several platforms wants one design per \
canvas: write one file per canvas, each with that canvas in `viewport`.",
    "\
When you know enough, write. First POST /sessions/{id}/generate: the session moves to \
generating and accepts artifact writes; in any other state the server answers 409. Demo \
session: write the design as JSON that conforms to GET /schemas/design. PUT it to \
/designs/{id}-candidate-1. Use the session id as the base. Number a later run after the \
candidates the session has: with candidates 1 to 3 present, write candidate 4. The \
browser shows the candidates.",
    "\
Deck session: write the deck as JSON that conforms to GET /schemas/deck. The deck has \
`slides`, not `screens`, and no `viewport`. PUT it to /decks/{id}-candidate-1. Use the \
session id as the base. The browser shows the candidates.",
    "\
Document session: write the document as JSON that conforms to GET /schemas/document. \
The document has `pages` and `paper`, and no `viewport`. Set `paper` to the paper in \
the session options: `a4` or `letter`. PUT it to /documents/{id}-candidate-1. Use the \
session id as the base. The browser shows the candidates.",
    "\
Social session: write the social as JSON that conforms to GET /schemas/social. The \
social has `frames` and `format`, and no `viewport`. Set `format` to the format in the \
session options: `square`, `portrait`, `story`, or `landscape`. PUT it to \
/socials/{id}-candidate-1. Use the session id as the base. The browser shows the \
candidates.",
    "\
Print session: write the print as JSON that conforms to GET /schemas/print. The print \
has `sheets`, `size`, and `orientation`, and no `viewport`. Set `size` and \
`orientation` to the values in the session options. PUT it to /prints/{id}-candidate-1. \
Use the session id as the base. The browser shows the candidates.",
    "\
Mailing session: write the mailing as JSON that conforms to GET /schemas/mailing. The \
mailing has `emails` and `format`, and no `viewport`. Set `format` to the format in the \
session options: `short`, `standard`, or `long`. PUT it to /mailings/{id}-candidate-1. \
Use the session id as the base. The browser shows the candidates.",
    "A 422 response lists every problem in error.details. Fix each one. PUT again.",
    "\
When the user asks for a change in the chat while an artifact is open, edit that \
artifact and PUT it again. When no artifact is open, write new candidates. A message \
that pins two or more candidates and asks to combine parts of them is a merge: write \
one new candidate under the next free number, and take each part from the candidate the \
user names for it. A message with is_regenerate true names units like `[screen 2]`, \
`[slide 2]`, `[page 2]`, `[frame 2]`, `[sheet 2]`, or `[email 2]`: write those units \
anew, without their old markup, and keep the rest. POST /designs/{id}/fork, POST \
/decks/{id}/fork, POST /documents/{id}/fork, POST /socials/{id}/fork, POST \
/prints/{id}/fork, or POST /mailings/{id}/fork copies a candidate to the next free \
number; the user presses Fork for that, you do not.",
    "\
GET /uploads?session={id} lists the source files of that session. Each row has name, \
size_bytes, content_type, and is_image. GET /uploads/{name} returns the file. Use an \
image row as `<img src='/uploads/{name}'>`. A file belongs to one session: never read \
another session's files.",
    "\
After you save a design, look at it: GET /designs/{id}/screens/{n}.png returns a PNG of \
screen n, 1-based. It needs Chrome or Chromium and answers 503 without one. Review \
every screen for overlap, overflow, empty space, and weak contrast. Fix what you see \
and PUT the design again. GET /designs/{id}/export returns the design as one HTML file. \
A design has no PDF export.",
    "\
After you save a deck, look at it: GET /decks/{id}/slides/{n}.png returns a PNG of \
slide n, 1-based. Review every slide the same way and PUT the deck again. GET \
/decks/{id}/export returns the deck as one HTML file. GET /decks/{id}/export.pdf \
returns it as a PDF, one page per slide. GET /decks/{id}/export.pptx returns it as a \
PowerPoint file. GET /decks/{id}/present is the presenter view with the notes.",
    "\
After you save a document, look at it: GET /documents/{id}/pages/{n}.png returns a PNG \
of page n, 1-based. Review every page the same way and PUT the document again. GET \
/documents/{id}/export returns the document as one HTML file. GET \
/documents/{id}/export.pdf returns it as a PDF, one sheet per page. GET \
/documents/{id}/export.docx returns it as a Word file.",
    "\
After you save a social, look at it: GET /socials/{id}/frames/{n}.png returns a PNG of \
frame n, 1-based. Review every frame the same way and PUT the social again. GET \
/socials/{id}/export returns the social as one HTML file. GET /socials/{id}/export.pdf \
returns it as a PDF, one sheet per frame, the file a LinkedIn carousel takes. GET \
/socials/{id}/export.zip returns one PNG per frame in a zip, the files an Instagram \
carousel takes.",
    "\
After you save a print, look at it: GET /prints/{id}/sheets/{n}.png returns a PNG of \
sheet n, 1-based. Review every sheet the same way and PUT the print again. GET \
/prints/{id}/export returns the print as one HTML file. GET /prints/{id}/export.pdf \
returns it as a PDF, one PDF page per sheet, the file a print shop takes. GET \
/prints/{id}/export.zip returns one PNG per sheet in a zip.",
    "\
After you save a mailing, look at it: GET /mailings/{id}/emails/{n}.png returns a PNG \
of email n, 1-based. Review every email the same way and PUT the mailing again. GET \
/mailings/{id}/export returns the mailing as one HTML file. GET \
/mailings/{id}/export.pdf returns it as a PDF, one PDF page per email. GET \
/mailings/{id}/export.zip returns one PNG per email in a zip. GET \
/mailings/{id}/export.email.zip returns one email-client HTML file per email in a zip: \
inlined styles, a 600 px table shell, and Outlook support. Send that file from your \
email service.",
    "\
When the design, the deck, the document, the social, the print, or the mailing is \
written, POST /sessions/{id}/complete, or exit with code 0. The session moves to \
reviewing.",
    "\
GET /events returns {\"revision\": n}. The revision increases when data changes. To \
wait for a change in one run, call GET /events?after={revision}&wait=25 in a loop. Each \
call returns within the wait time, so loop; do not treat a timeout as an error.",
];

/// How the step that asks starts.
pub const ASK_START: &'static str = "\
Plan the turn. When you need a choice from the user, PUT /sessions/{id}/question-set \
with a BriefQuestionSet: at most ";

/// How the step that asks goes on.
pub const ASK_MIDDLE: &'static str = " questions, each with 2 to 4 short options and allow_other true, none required, \
can_proceed_with_assumptions true. Use single_select when the options rule each other \
out. Use multi_select when the user can pick more than one at once. The app adds a skip \
choice. Write every option from the request and the source files, in their words. An \
option that would fit any other project is wrong. Name the real thing the option \
builds. The session moves to clarifying. Then stop. After ";

/// How the step that asks ends.
pub const ASK_END: &'static str = " answered questions about one request, do not ask more about it. A later request for a \
change starts fresh: ask when the change is unclear.";

// -- Routes -----------------------------------------------------------------

/// The name of each route an agent may call, and the route.
pub const ROUTES: [(&'static str, &'static str); 67] = [
    ("schema_design", "GET /schemas/design"),
    ("schema_deck", "GET /schemas/deck"),
    ("schema_document", "GET /schemas/document"),
    ("schema_social", "GET /schemas/social"),
    ("schema_print", "GET /schemas/print"),
    ("schema_mailing", "GET /schemas/mailing"),
    ("schema_question_set", "GET /schemas/question-set"),
    ("session", "GET /sessions/{id}"),
    ("question_set", "PUT /sessions/{id}/question-set"),
    ("answers", "GET /sessions/{id} (answers field)"),
    ("complete", "POST /sessions/{id}/complete"),
    ("events", "GET /events?after={revision}&wait={seconds}"),
    ("uploads", "GET /uploads?session={id}"),
    ("upload", "GET /uploads/{name}"),
    ("save_design", "PUT /designs/{id}"),
    ("check_design", "POST /designs/render"),
    ("render_design", "GET /designs/{id}/render"),
    ("screen_image", "GET /designs/{id}/screens/{n}.png"),
    ("export_html", "GET /designs/{id}/export"),
    ("save_deck", "PUT /decks/{id}"),
    ("check_deck", "POST /decks/render"),
    ("render_deck", "GET /decks/{id}/render"),
    ("render_audience", "GET /decks/{id}/render?audience=true"),
    ("slide_image", "GET /decks/{id}/slides/{n}.png"),
    ("present", "GET /decks/{id}/present"),
    ("export_deck_html", "GET /decks/{id}/export"),
    ("export_deck_pdf", "GET /decks/{id}/export.pdf"),
    ("export_pptx", "GET /decks/{id}/export.pptx"),
    ("save_document", "PUT /documents/{id}"),
    ("check_document", "POST /documents/render"),
    ("render_document", "GET /documents/{id}/render"),
    ("page_image", "GET /documents/{id}/pages/{n}.png"),
    ("export_document_html", "GET /documents/{id}/export"),
    ("export_document_pdf", "GET /documents/{id}/export.pdf"),
    ("export_docx", "GET /documents/{id}/export.docx"),
    ("save_social", "PUT /socials/{id}"),
    ("check_social", "POST /socials/render"),
    ("render_social", "GET /socials/{id}/render"),
    ("frame_image", "GET /socials/{id}/frames/{n}.png"),
    ("export_social_html", "GET /socials/{id}/export"),
    ("export_social_pdf", "GET /socials/{id}/export.pdf"),
    ("export_social_zip", "GET /socials/{id}/export.zip"),
    ("save_print", "PUT /prints/{id}"),
    ("check_print", "POST /prints/render"),
    ("render_print", "GET /prints/{id}/render"),
    ("sheet_image", "GET /prints/{id}/sheets/{n}.png"),
    ("export_print_html", "GET /prints/{id}/export"),
    ("export_print_pdf", "GET /prints/{id}/export.pdf"),
    ("export_print_zip", "GET /prints/{id}/export.zip"),
    ("save_mailing", "PUT /mailings/{id}"),
    ("check_mailing", "POST /mailings/render"),
    ("render_mailing", "GET /mailings/{id}/render"),
    ("email_image", "GET /mailings/{id}/emails/{n}.png"),
    ("email_client_html", "GET /mailings/{id}/emails/{n}.html"),
    ("export_mailing_html", "GET /mailings/{id}/export"),
    ("export_mailing_pdf", "GET /mailings/{id}/export.pdf"),
    ("export_mailing_zip", "GET /mailings/{id}/export.zip"),
    ("export_mailing_email_zip", "GET /mailings/{id}/export.email.zip"),
    ("fork_design", "POST /designs/{id}/fork"),
    ("fork_deck", "POST /decks/{id}/fork"),
    ("fork_document", "POST /documents/{id}/fork"),
    ("fork_social", "POST /socials/{id}/fork"),
    ("fork_print", "POST /prints/{id}/fork"),
    ("fork_mailing", "POST /mailings/{id}/fork"),
    ("chooser", "GET /candidates/{base}"),
    ("templates", "GET /templates"),
    ("template", "GET /templates/{id}"),
];

/// The first route from `k` on that is called `name`.
pub open spec fn route_from(name: Seq<char>, k: int) -> Option<Seq<char>>
    decreases ROUTES@.len() - k,
{
    if k < 0 || k >= ROUTES@.len() {
        None
    } else if ROUTES@[k].0@ == name {
        Some(ROUTES@[k].1@)
    } else {
        route_from(name, k + 1)
    }
}

/// The route called `name`.
pub fn route(name: &str) -> (r: Option<&'static str>)
    ensures
        model::optional_str(r) == route_from(name@, 0),
{
    let routes: [(&'static str, &'static str); 67] = ROUTES;
    let mut k: usize = 0;
    while k < routes.len()
        invariant
            k <= routes@.len(),
            routes@ == ROUTES@,
            route_from(name@, 0) == route_from(name@, k as int),
        decreases routes@.len() - k,
    {
        if *routes[k].0 == *name {
            return Some(routes[k].1);
        }
        k += 1;
    }
    None
}

// -- Texts ------------------------------------------------------------------

/// The texts of a list.
pub open spec fn listed(list: Seq<&'static str>) -> Seq<Seq<char>> {
    list.map_values(|item: &'static str| item@)
}

fn copies(list: &[&'static str]) -> (r: Vec<String>)
    ensures
        text::strings(r@) == listed(list@),
{
    let mut r: Vec<String> = Vec::new();
    let mut k: usize = 0;
    while k < list.len()
        invariant
            k <= list@.len(),
            r@.len() == k,
            forall|j: int| 0 <= j < k ==> (#[trigger] r@[j])@ == list@[j]@,
        decreases list@.len() - k,
    {
        r.push(owned(list[k]));
        k += 1;
    }
    assert(text::strings(r@) =~= listed(list@));
    r
}

/// The rules as lines of a prompt.
pub fn joined_rules(rules: &[&'static str]) -> (r: String)
    ensures
        r@ == text::join(listed(rules@), "\n"@),
{
    joined_strings(&copies(rules), "\n")
}

/// The step that asks: at most `limit` questions a turn, and none past
/// `answered` answers.
pub open spec fn ask_step(limit: nat, answered: nat) -> Seq<char> {
    ASK_START@ + text::decimal(limit) + ASK_MIDDLE@ + text::decimal(answered) + ASK_END@
}

/// The build steps as texts.
pub open spec fn steps_of(limit: nat, answered: nat) -> Seq<Seq<char>> {
    listed(FIRST_STEPS@).push(ask_step(limit, answered)) + listed(LATER_STEPS@)
}

/// The build steps, in order. One instruction per sentence.
pub fn steps(limit: usize, answered: usize) -> (r: Vec<String>)
    ensures
        text::strings(r@) == steps_of(limit as nat, answered as nat),
{
    let first: [&'static str; 2] = FIRST_STEPS;
    let later: [&'static str; 18] = LATER_STEPS;
    let mut r = copies(first.as_slice());
    let mut ask = owned(ASK_START);
    ask.append(decimal_of(limit as u128).as_str());
    ask.append(ASK_MIDDLE);
    ask.append(decimal_of(answered as u128).as_str());
    ask.append(ASK_END);
    let ghost asked = ask@;
    r.push(ask);
    let ghost before = r@;
    assert(text::strings(before) =~= listed(FIRST_STEPS@).push(asked));
    let mut rest = copies(later.as_slice());
    let ghost more = rest@;
    r.append(&mut rest);
    assert(text::strings(r@) =~= text::strings(before) + text::strings(more));
    r
}

// -- The payload -------------------------------------------------------------

/// What the app is for.
pub const PURPOSE: &'static str = "\
Turn a request into HTML designs, decks, documents, social posts, print pieces, or \
emails: ask a few questions in the chat, write candidates, then edit them from the \
chat. Swift Design keeps the workflow state, validates, renders, and lets the user \
edit. Swift Design makes no LLM API calls.";

/// How a run finds its session.
pub const SESSION: &'static str = "\
The run works on one session. Its id is in the SWIFT_DESIGN_SESSION_ID environment \
variable. The mode is in SWIFT_DESIGN_RUN_MODE: generation. The artifact kind is in \
SWIFT_DESIGN_ARTIFACT_KIND: demo, deck, document, social, print, or mailing. GET \
/sessions/{id} returns the state, the artifact_kind, the options, the question sets, \
the answers, and the messages.";

/// The artifact kinds.
pub const KINDS: [(&'static str, &'static str); 6] = [
    (
        "demo",
        "\
A software demo: a landing page, app screens, or a similar layout on a device \
viewport. Written as a design with `screens` and a `viewport`. Saved under /designs.",
    ),
    (
        "deck",
        "\
A slide presentation on a 1920 by 1080 px canvas. Written as a deck with `slides` \
and no `viewport`. Saved under /decks.",
    ),
    (
        "document",
        "\
A paged document on A4 or Letter paper: a report, a memo, a proposal, a letter, or a \
guide. Written as a document with `pages` and `paper`, and no `viewport`. Saved \
under /documents.",
    ),
    (
        "social",
        "\
A social post or a carousel on a square, portrait, story, or landscape canvas, for \
Instagram, LinkedIn, X, or Facebook. Written as a social with `frames` and `format`, \
and no `viewport`. Saved under /socials.",
    ),
    (
        "print",
        "\
A print piece on an A5, A4, A3, Letter, or Tabloid canvas, portrait or landscape: a \
poster, a flyer, a menu, a program, a certificate, or a sign. Written as a print \
with `sheets`, `size`, and `orientation`, and no `viewport`. Saved under /prints.",
    ),
    (
        "mailing",
        "\
An email or an email sequence on a 600 px wide canvas: a newsletter, an \
announcement, a promotion, a welcome email, a digest, or an invitation. Written as a \
mailing with `emails` and `format`, and no `viewport`. Saved under /mailings.",
    ),
];

/// What a route takes and returns.
pub const PAYLOADS: [(&'static str, &'static str); 13] = [
    (
        "PUT /sessions/{id}/question-set",
        "\
a BriefQuestionSet",
    ),
    (
        "PUT /designs/{id}",
        "\
the design JSON",
    ),
    (
        "POST /designs/render",
        "\
the design JSON; returns the rendered HTML, or every validation error",
    ),
    (
        "PUT /decks/{id}",
        "\
the deck JSON",
    ),
    (
        "POST /decks/render",
        "\
the deck JSON; returns the rendered HTML, or every validation error",
    ),
    (
        "PUT /documents/{id}",
        "\
the document JSON",
    ),
    (
        "POST /documents/render",
        "\
the document JSON; returns the rendered HTML, or every validation error",
    ),
    (
        "PUT /socials/{id}",
        "\
the social JSON",
    ),
    (
        "POST /socials/render",
        "\
the social JSON; returns the rendered HTML, or every validation error",
    ),
    (
        "PUT /prints/{id}",
        "\
the print JSON",
    ),
    (
        "POST /prints/render",
        "\
the print JSON; returns the rendered HTML, or every validation error",
    ),
    (
        "PUT /mailings/{id}",
        "\
the mailing JSON",
    ),
    (
        "POST /mailings/render",
        "\
the mailing JSON; returns the rendered HTML, or every validation error",
    ),
];

/// How large a canvas is.
pub const CANVAS_CONVENTION: &'static str = "\
a design's `viewport` in px (default 1440 by 900); a deck's fixed 1920 by 1080; a \
document's `paper`: 794 by 1123 for a4, 816 by 1056 for letter; a social's `format`: \
1080 by 1080 for square, 1080 by 1350 for portrait, 1080 by 1920 for story, 1200 by \
630 for landscape; a print's `size`: 559 by 794 for a5, 794 by 1123 for a4, 1123 by \
1587 for a3, 816 by 1056 for letter, 1056 by 1632 for tabloid, with `orientation: \
'landscape'` swapping width and height; a mailing's `format`: 600 by 800 for short, \
600 by 1200 for standard, 600 by 1800 for long. Use px units. The server scales the \
canvas to any frame.";

/// The base styles.
pub const BASE_STYLES_CONVENTION: &'static str = "\
32px body text in the body font and text color; headings in the heading font with \
margin 0; paragraphs and lists margin 0; images block and max-width 100%";

/// How a message refers to a node.
pub const NODE_REFERENCE: &'static str = "\
[screen N, node a/b/c <tag.class>: text] for a design; [slide N, node a/b/c \
<tag.class>: text] for a deck; [page N, node a/b/c <tag.class>: text] for a \
document; [frame N, node a/b/c <tag.class>: text] for a social; [sheet N, node a/b/c \
<tag.class>: text] for a print; [email N, node a/b/c <tag.class>: text] for a \
mailing";

/// How a message refers to an upload.
pub const UPLOAD_REFERENCE: &'static str = "\
[upload name]";

/// How a message carries comments.
pub const COMMENT_LINES: &'static str = "\
A message may carry several comments, one per line, each `<node or page reference>: \
<note>`. Apply every line in one edit.";

/// The CSS variables of the theme.
pub const CSS_VARIABLES: [&'static str; 7] = [
    "--background",
    "--text",
    "--accent",
    "--muted",
    "--heading-font",
    "--body-font",
    "--mono-font",
];

/// One example of each artifact kind, as JSON.
#[derive(Debug)]
pub struct Examples {
    pub design: Json,
    pub deck: Json,
    pub document: Json,
    pub social: Json,
    pub print: Json,
    pub mailing: Json,
}

/// A JSON list of texts.
pub open spec fn list_of(texts: Seq<Seq<char>>) -> JsonModel {
    JsonModel::List(texts.map_values(|text: Seq<char>| JsonModel::Text(text)))
}

/// A JSON object of texts.
pub open spec fn table_of(pairs: Seq<(&'static str, &'static str)>) -> JsonModel {
    JsonModel::Record(
        pairs.map_values(
            |pair: (&'static str, &'static str)| (pair.0@, JsonModel::Text(pair.1@)),
        ),
    )
}

fn text_list(texts: Vec<String>) -> (r: Json)
    ensures
        json::model_of(r) == list_of(text::strings(texts@)),
{
    let mut items: Vec<Json> = Vec::new();
    let mut k: usize = 0;
    while k < texts.len()
        invariant
            k <= texts@.len(),
            items@.len() == k,
            forall|j: int|
                0 <= j < k ==> json::model_of(#[trigger] items@[j]) == JsonModel::Text(
                    texts@[j]@,
                ),
        decreases texts@.len() - k,
    {
        items.push(Json::Text(texts[k].clone()));
        k += 1;
    }
    proof {
        json::lemma_models(items@);
        assert(json::models_of(items@) =~= text::strings(texts@).map_values(
            |text: Seq<char>| JsonModel::Text(text),
        ));
    }
    Json::List(items)
}

fn text_table(pairs: &[(&'static str, &'static str)]) -> (r: Json)
    ensures
        json::model_of(r) == table_of(pairs@),
{
    let mut fields: Vec<Field> = Vec::new();
    let mut k: usize = 0;
    while k < pairs.len()
        invariant
            k <= pairs@.len(),
            fields@.len() == k,
            forall|j: int|
                #![trigger fields@[j]]
                0 <= j < k ==> fields@[j].name@ == pairs@[j].0@ && json::model_of(fields@[j].value)
                    == JsonModel::Text(pairs@[j].1@),
        decreases pairs@.len() - k,
    {
        fields.push(text_field(pairs[k].0, pairs[k].1));
        k += 1;
    }
    proof {
        json::lemma_fields(fields@);
        assert(json::fields_of(fields@) =~= pairs@.map_values(
            |pair: (&'static str, &'static str)| (pair.0@, JsonModel::Text(pair.1@)),
        ));
    }
    Json::Record(fields)
}

fn field(name: &str, value: Json) -> (r: Field)
    ensures
        r.name@ == name@,
        r.value == value,
{
    Field { name: owned(name), value }
}

fn text_field(name: &str, value: &str) -> (r: Field)
    ensures
        r.name@ == name@,
        json::model_of(r.value) == JsonModel::Text(value@),
{
    field(name, Json::Text(owned(value)))
}

/// The rules for a chart, and an example.
pub open spec fn charts_model() -> JsonModel {
    JsonModel::Record(
        seq![
            ("rules"@, list_of(listed(CHART_RULES@))),
            ("example"@, JsonModel::Text(CHART_EXAMPLE@)),
        ],
    )
}

fn charts() -> (r: Json)
    ensures
        json::model_of(r) == charts_model(),
{
    let rules: [&'static str; 8] = CHART_RULES;
    let mut fields: Vec<Field> = Vec::new();
    fields.push(field("rules", text_list(copies(rules.as_slice()))));
    fields.push(text_field("example", CHART_EXAMPLE));
    proof {
        json::lemma_fields(fields@);
        assert(json::fields_of(fields@) =~= seq![
            ("rules"@, list_of(listed(CHART_RULES@))),
            ("example"@, JsonModel::Text(CHART_EXAMPLE@)),
        ]);
    }
    Json::Record(fields)
}

/// The conventions every artifact keeps.
pub open spec fn conventions_model() -> JsonModel {
    JsonModel::Record(
        seq![
            ("canvas"@, JsonModel::Text(CANVAS_CONVENTION@)),
            ("css_variables"@, list_of(listed(CSS_VARIABLES@))),
            ("base_styles"@, JsonModel::Text(BASE_STYLES_CONVENTION@)),
            ("node_reference"@, JsonModel::Text(NODE_REFERENCE@)),
            ("upload_reference"@, JsonModel::Text(UPLOAD_REFERENCE@)),
            ("comment_lines"@, JsonModel::Text(COMMENT_LINES@)),
        ],
    )
}

fn conventions() -> (r: Json)
    ensures
        json::model_of(r) == conventions_model(),
{
    let variables: [&'static str; 7] = CSS_VARIABLES;
    let mut fields: Vec<Field> = Vec::new();
    fields.push(text_field("canvas", CANVAS_CONVENTION));
    fields.push(field("css_variables", text_list(copies(variables.as_slice()))));
    fields.push(text_field("base_styles", BASE_STYLES_CONVENTION));
    fields.push(text_field("node_reference", NODE_REFERENCE));
    fields.push(text_field("upload_reference", UPLOAD_REFERENCE));
    fields.push(text_field("comment_lines", COMMENT_LINES));
    proof {
        json::lemma_fields(fields@);
        assert(json::fields_of(fields@) =~= seq![
            ("canvas"@, JsonModel::Text(CANVAS_CONVENTION@)),
            ("css_variables"@, list_of(listed(CSS_VARIABLES@))),
            ("base_styles"@, JsonModel::Text(BASE_STYLES_CONVENTION@)),
            ("node_reference"@, JsonModel::Text(NODE_REFERENCE@)),
            ("upload_reference"@, JsonModel::Text(UPLOAD_REFERENCE@)),
            ("comment_lines"@, JsonModel::Text(COMMENT_LINES@)),
        ]);
    }
    Json::Record(fields)
}

/// The fields of the contract.
pub open spec fn contract(limit: nat, answered: nat, examples: Examples) -> Seq<
    (Seq<char>, JsonModel),
> {
    seq![
        ("purpose"@, JsonModel::Text(PURPOSE@)),
        ("session"@, JsonModel::Text(SESSION@)),
        ("kinds"@, table_of(KINDS@)),
        ("steps"@, list_of(steps_of(limit, answered))),
        ("demo_rules"@, list_of(listed(DEMO_RULES@))),
        ("deck_rules"@, list_of(listed(DECK_RULES@))),
        ("document_rules"@, list_of(listed(DOCUMENT_RULES@))),
        ("social_rules"@, list_of(listed(SOCIAL_RULES@))),
        ("print_rules"@, list_of(listed(PRINT_RULES@))),
        ("mailing_rules"@, list_of(listed(MAILING_RULES@))),
        ("charts"@, charts_model()),
        ("conventions"@, conventions_model()),
        ("payloads"@, table_of(PAYLOADS@)),
        ("routes"@, table_of(ROUTES@)),
        ("example_design"@, json::model_of(examples.design)),
        ("example_deck"@, json::model_of(examples.deck)),
        ("example_document"@, json::model_of(examples.document)),
        ("example_social"@, json::model_of(examples.social)),
        ("example_print"@, json::model_of(examples.print)),
        ("example_mailing"@, json::model_of(examples.mailing)),
    ]
}

fn rule_lists(fields: &mut Vec<Field>)
    ensures
        final(fields)@.len() == old(fields)@.len() + 6,
        final(fields)@.take(old(fields)@.len() as int) == old(fields)@,
        json::fields_of(final(fields)@.skip(old(fields)@.len() as int)) == seq![
            ("demo_rules"@, list_of(listed(DEMO_RULES@))),
            ("deck_rules"@, list_of(listed(DECK_RULES@))),
            ("document_rules"@, list_of(listed(DOCUMENT_RULES@))),
            ("social_rules"@, list_of(listed(SOCIAL_RULES@))),
            ("print_rules"@, list_of(listed(PRINT_RULES@))),
            ("mailing_rules"@, list_of(listed(MAILING_RULES@))),
        ],
{
    let demo: [&'static str; 15] = DEMO_RULES;
    let deck: [&'static str; 13] = DECK_RULES;
    let document: [&'static str; 14] = DOCUMENT_RULES;
    let social: [&'static str; 15] = SOCIAL_RULES;
    let print: [&'static str; 16] = PRINT_RULES;
    let mailing: [&'static str; 19] = MAILING_RULES;
    fields.push(field("demo_rules", text_list(copies(demo.as_slice()))));
    fields.push(field("deck_rules", text_list(copies(deck.as_slice()))));
    fields.push(field("document_rules", text_list(copies(document.as_slice()))));
    fields.push(field("social_rules", text_list(copies(social.as_slice()))));
    fields.push(field("print_rules", text_list(copies(print.as_slice()))));
    fields.push(field("mailing_rules", text_list(copies(mailing.as_slice()))));
    proof {
        let added = fields@.skip(old(fields)@.len() as int);
        json::lemma_fields(added);
        assert(fields@.take(old(fields)@.len() as int) =~= old(fields)@);
        assert(json::fields_of(added) =~= seq![
            ("demo_rules"@, list_of(listed(DEMO_RULES@))),
            ("deck_rules"@, list_of(listed(DECK_RULES@))),
            ("document_rules"@, list_of(listed(DOCUMENT_RULES@))),
            ("social_rules"@, list_of(listed(SOCIAL_RULES@))),
            ("print_rules"@, list_of(listed(PRINT_RULES@))),
            ("mailing_rules"@, list_of(listed(MAILING_RULES@))),
        ]);
    }
}

/// The whole contract as one JSON object.
pub fn instructions(limit: usize, answered: usize, examples: Examples) -> (r: Json)
    ensures
        json::model_of(r) == JsonModel::Record(
            contract(limit as nat, answered as nat, examples),
        ),
{
    let kinds: [(&'static str, &'static str); 6] = KINDS;
    let payloads: [(&'static str, &'static str); 13] = PAYLOADS;
    let routes: [(&'static str, &'static str); 67] = ROUTES;
    let mut fields: Vec<Field> = Vec::new();
    fields.push(text_field("purpose", PURPOSE));
    fields.push(text_field("session", SESSION));
    fields.push(field("kinds", text_table(kinds.as_slice())));
    fields.push(field("steps", text_list(steps(limit, answered))));
    let ghost opening = fields@;
    rule_lists(&mut fields);
    let ghost ruled = fields@;
    proof {
        json::lemma_fields(ruled.skip(4));
        assert forall|j: int| 0 <= j < 4 implies #[trigger] ruled[j] == opening[j] by {
            assert(ruled.take(4)[j] == ruled[j]);
        }
        assert forall|j: int| 4 <= j < 10 implies (
            (#[trigger] ruled[j]).name@,
            json::model_of(ruled[j].value),
        ) == contract(limit as nat, answered as nat, examples)[j] by {
            assert(ruled.skip(4)[j - 4] == ruled[j]);
            assert(json::fields_of(ruled.skip(4))[j - 4] == (
                ruled[j].name@,
                json::model_of(ruled[j].value),
            ));
        }
    }
    fields.push(field("charts", charts()));
    fields.push(field("conventions", conventions()));
    fields.push(field("payloads", text_table(payloads.as_slice())));
    fields.push(field("routes", text_table(routes.as_slice())));
    fields.push(field("example_design", examples.design));
    fields.push(field("example_deck", examples.deck));
    fields.push(field("example_document", examples.document));
    fields.push(field("example_social", examples.social));
    fields.push(field("example_print", examples.print));
    fields.push(field("example_mailing", examples.mailing));
    proof {
        json::lemma_fields(fields@);
        assert(json::fields_of(fields@) =~= contract(limit as nat, answered as nat, examples));
    }
    Json::Record(fields)
}

/// A route is found by its name, and a name that no route has finds none.
pub proof fn law_a_route_is_found_by_its_name(name: Seq<char>)
    ensures
        match route_from(name, 0) {
            Some(description) => exists|k: int|
                0 <= k < ROUTES@.len() && (#[trigger] ROUTES@[k]).0@ == name && ROUTES@[k].1@
                    == description && forall|j: int|
                    0 <= j < k ==> (#[trigger] ROUTES@[j]).0@ != name,
            None => forall|k: int| 0 <= k < ROUTES@.len() ==> (#[trigger] ROUTES@[k]).0@ != name,
        },
{
    lemma_route_from(name, 0);
}

proof fn lemma_route_from(name: Seq<char>, from: int)
    requires
        0 <= from,
    ensures
        match route_from(name, from) {
            Some(description) => exists|k: int|
                from <= k < ROUTES@.len() && (#[trigger] ROUTES@[k]).0@ == name && ROUTES@[k].1@
                    == description && forall|j: int|
                    from <= j < k ==> (#[trigger] ROUTES@[j]).0@ != name,
            None => forall|k: int| from <= k < ROUTES@.len() ==> (#[trigger] ROUTES@[k]).0@ != name,
        },
    decreases ROUTES@.len() - from,
{
    if from < ROUTES@.len() && ROUTES@[from].0@ != name {
        lemma_route_from(name, from + 1);
        if let Some(description) = route_from(name, from + 1) {
            let k = choose|k: int|
                from + 1 <= k < ROUTES@.len() && (#[trigger] ROUTES@[k]).0@ == name && ROUTES@[k].1@
                    == description && forall|j: int|
                    from + 1 <= j < k ==> (#[trigger] ROUTES@[j]).0@ != name;
            assert(ROUTES@[k].0@ == name);
        }
    } else if from < ROUTES@.len() {
        assert(ROUTES@[from].0@ == name);
    }
}

/// The steps come in their order, with the asking between the first and the
/// later ones, and it names both limits.
pub proof fn law_the_steps_stand_in_order(limit: nat, answered: nat)
    ensures
        ({
            let steps = steps_of(limit, answered);
            let first = FIRST_STEPS@.len() as int;
            &&& steps.len() == first + 1 + LATER_STEPS@.len()
            &&& forall|k: int| 0 <= k < first ==> #[trigger] steps[k] == FIRST_STEPS@[k]@
            &&& forall|k: int|
                first < k < steps.len() ==> #[trigger] steps[k] == LATER_STEPS@[k - first - 1]@
            &&& text::holds(steps[first], text::decimal(limit) + ASK_MIDDLE@)
            &&& text::holds(steps[first], text::decimal(answered) + ASK_END@)
        }),
{
    let a = text::decimal(limit) + ASK_MIDDLE@;
    let b = text::decimal(answered) + ASK_END@;
    let asking = ask_step(limit, answered);
    assert(asking =~= ASK_START@ + a + b);
    text::lemma_holds_itself(ASK_START@, a, b);
    text::lemma_holds_itself(ASK_START@ + a, b, Seq::empty());
    assert(ASK_START@ + a + b + Seq::<char>::empty() =~= asking);
}

/// The contract gives each artifact kind its own rules and its own example,
/// and names every route.
pub proof fn law_the_contract_has_each_part(limit: nat, answered: nat, examples: Examples)
    ensures
        ({
            let fields = contract(limit, answered, examples);
            &&& fields.contains(("steps"@, list_of(steps_of(limit, answered))))
            &&& fields.contains(("demo_rules"@, list_of(listed(DEMO_RULES@))))
            &&& fields.contains(("deck_rules"@, list_of(listed(DECK_RULES@))))
            &&& fields.contains(("document_rules"@, list_of(listed(DOCUMENT_RULES@))))
            &&& fields.contains(("social_rules"@, list_of(listed(SOCIAL_RULES@))))
            &&& fields.contains(("print_rules"@, list_of(listed(PRINT_RULES@))))
            &&& fields.contains(("mailing_rules"@, list_of(listed(MAILING_RULES@))))
            &&& fields.contains(("routes"@, table_of(ROUTES@)))
            &&& fields.contains(("example_design"@, json::model_of(examples.design)))
            &&& fields.contains(("example_deck"@, json::model_of(examples.deck)))
            &&& fields.contains(("example_document"@, json::model_of(examples.document)))
            &&& fields.contains(("example_social"@, json::model_of(examples.social)))
            &&& fields.contains(("example_print"@, json::model_of(examples.print)))
            &&& fields.contains(("example_mailing"@, json::model_of(examples.mailing)))
        }),
{
    let fields = contract(limit, answered, examples);
    assert(fields[3].0 == "steps"@);
    assert(fields[4].0 == "demo_rules"@);
    assert(fields[5].0 == "deck_rules"@);
    assert(fields[6].0 == "document_rules"@);
    assert(fields[7].0 == "social_rules"@);
    assert(fields[8].0 == "print_rules"@);
    assert(fields[9].0 == "mailing_rules"@);
    assert(fields[13].0 == "routes"@);
    assert(fields[14].0 == "example_design"@);
    assert(fields[15].0 == "example_deck"@);
    assert(fields[16].0 == "example_document"@);
    assert(fields[17].0 == "example_social"@);
    assert(fields[18].0 == "example_print"@);
    assert(fields[19].0 == "example_mailing"@);
}

} // verus!
