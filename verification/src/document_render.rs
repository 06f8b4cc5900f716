//! Renders a document to one standalone HTML page.
//!
//! Every page is a px canvas the size of the document's paper, scaled with
//! CSS to fit its frame, so the same layout appears in thumbnails, the
//! editor, and the PDF. Page markup is inserted as written and page styles
//! are scoped to the page. Callers validate the document first.

use vstd::prelude::*;

use crate::encoding;
use crate::encoding::standard_base64;
use crate::markup;
use crate::markup::{css_safe, escape_html};
use crate::model::{Document, Page};
use crate::text;
use crate::text::{chars_of, decimal_of, owned, substitute, text_of};
use sha2::Digest;

verus! {

/// How to render a document page.
#[derive(Debug)]
pub struct RenderOptions {
    /// Nodes are selectable and text is editable in place; every change is
    /// posted to the parent window for the editor.
    pub is_editable: bool,
    /// Render only this zero-based page. Used by thumbnails and the editor
    /// preview, so the page never scrolls.
    pub only_page: Option<usize>,
    /// Adds the layout audit script; the polish pass reads its result.
    pub is_auditing: bool,
    /// Extra origin allowed for images, such as the server URL when the page
    /// loads from a file for a screenshot.
    pub asset_origin: Option<String>,
    /// One page per paper sheet, with the fit script alone. Used for prints.
    pub is_print: bool,
}

impl Default for RenderOptions {
    fn default() -> (r: RenderOptions)
        ensures
            !r.is_editable,
            r.only_page is None,
            !r.is_auditing,
            r.asset_origin is None,
            !r.is_print,
    {
        RenderOptions {
            is_editable: false,
            only_page: None,
            is_auditing: false,
            asset_origin: None,
            is_print: false,
        }
    }
}

/// The scripts a page may carry.
pub struct Scripts<'a> {
    pub fit: &'a str,
    pub layout: &'a str,
    pub navigation: &'a str,
    pub editing: &'a str,
    pub audit: &'a str,
}

/// The parts of a page that come from its theme, and the scripts it may
/// carry.
pub struct PageParts<'a> {
    /// The scripts the page may carry.
    pub scripts: &'a Scripts<'a>,
    /// The font links of the theme, or nothing.
    pub fonts: &'a str,
    /// The stylesheet of the theme for the paper.
    pub stylesheet: &'a str,
    /// The stylesheet of a print for the paper.
    pub print_stylesheet: &'a str,
    /// The styles of each page that has any, scoped to it.
    pub scoped_styles: &'a [Option<String>],
}

/// The selector that the styles of page `index` are scoped to.
pub open spec fn scope_of(index: nat) -> Seq<char> {
    "[data-swift-design-screen=\""@ + text::decimal(index) + "\"]"@
}

/// The selector that the styles of page `index` are scoped to.
pub fn page_scope(index: usize) -> (r: String)
    ensures
        r@ == scope_of(index as nat),
{
    let mut r = owned("[data-swift-design-screen=\"");
    r.append(decimal_of(index as u128).as_str());
    r.append("\"]");
    r
}

/// The script of a page.
pub open spec fn script_text(options: RenderOptions, scripts: Scripts) -> Seq<char> {
    if options.is_print {
        scripts.fit@
    } else {
        scripts.fit@ + scripts.layout@ + scripts.navigation@ + (if options.is_editable {
            scripts.editing@
        } else {
            Seq::empty()
        }) + (if options.is_auditing {
            scripts.audit@
        } else {
            Seq::empty()
        })
    }
}

/// The page script for `options`: the fit always, layout and navigation on
/// screen, editing and audit on request. A print carries the fit alone, so
/// the PDF holds the same content the studio shows.
pub fn page_script(options: &RenderOptions, scripts: &Scripts) -> (r: String)
    ensures
        r@ == script_text(*options, *scripts),
{
    let mut r = owned(scripts.fit);
    if options.is_print {
        return r;
    }
    r.append(scripts.layout);
    r.append(scripts.navigation);
    if options.is_editable {
        r.append(scripts.editing);
    } else {
        proof {
            text::lemma_append_nothing(r@);
        }
    }
    if options.is_auditing {
        r.append(scripts.audit);
    } else {
        proof {
            text::lemma_append_nothing(r@);
        }
    }
    r
}

/// The SHA-256 digest of `bytes`.
pub uninterp spec fn sha256(bytes: Seq<u8>) -> Seq<u8>;

/// The longest text `sha2::Sha256::digest` takes, in bytes: it counts the
/// bits in 64 bits.
pub const LONGEST_DIGESTED: u64 = 0x1fff_ffff_ffff_ffff;

/// Calls `sha2::Sha256::digest`: the digest, which depends on the bytes alone
/// and is named by `sha256`, has 32 bytes.
#[verifier::external_body]
fn digest_of(bytes: &[u8]) -> (r: Vec<u8>)
    requires
        bytes@.len() <= LONGEST_DIGESTED,
    ensures
        r@ == sha256(bytes@),
        r@.len() == 32,
{
    sha2::Sha256::digest(bytes).to_vec()
}

/// The script source of a policy that allows `script` and no other.
pub open spec fn script_source(script: Seq<char>) -> Seq<char> {
    "'sha256-"@ + encoding::base64_of(sha256(vstd::utf8::encode_utf8(script))) + "'"@
}

/// The element that runs `script`.
pub open spec fn script_element(script: Seq<char>) -> Seq<char> {
    "<script>"@ + script + "</script>\n"@
}

/// The policy source that allows `script`, by its hash, and the element that
/// runs it.
pub fn script_markup(script: &str) -> (r: (String, String))
    requires
        vstd::utf8::encode_utf8(script@).len() <= LONGEST_DIGESTED,
    ensures
        r.0@ == script_source(script@),
        r.1@ == script_element(script@),
{
    let digest = digest_of(script.as_bytes());
    let mut source = owned("'sha256-");
    source.append(standard_base64(digest.as_slice()).as_str());
    source.append("'");
    let mut element = owned("<script>");
    element.append(script);
    element.append("</script>\n");
    (source, element)
}

/// One page: a full-window frame that centers the paper box, and the
/// paper-sized root that holds the page's markup as written.
pub open spec fn page_html(html: Seq<char>, index: nat) -> Seq<char> {
    "<div class=\"page-frame\" id=\"page-"@ + text::decimal(index + 1)
        + "\" data-swift-design-frame>\n<section class=\"page\" data-swift-design-screen=\""@
        + text::decimal(index)
        + "\">\n<div class=\"page-root\" data-swift-design-root>"@ + html
        + "</div>\n</section>\n</div>\n"@
}

/// Renders one page: a full-window frame that centers the paper box, and the
/// paper-sized root that holds the page's markup as written.
pub fn render_page(page: &Page, index: usize) -> (r: String)
    ensures
        r@ == page_html(page.html@, index as nat),
{
    let mut r = owned("<div class=\"page-frame\" id=\"page-");
    r.append(decimal_of(index as u128 + 1).as_str());
    r.append("\" data-swift-design-frame>\n<section class=\"page\" data-swift-design-screen=\"");
    r.append(decimal_of(index as u128).as_str());
    r.append("\">\n<div class=\"page-root\" data-swift-design-root>");
    r.append(page.html.as_str());
    r.append("</div>\n</section>\n</div>\n");
    r
}

/// True when page `index` is rendered.
pub open spec fn is_shown(only_page: Option<usize>, index: int) -> bool {
    only_page matches Some(only) ==> only == index
}

/// The sections of the first `n` pages that are rendered.
pub open spec fn sections_before(pages: Seq<Page>, only_page: Option<usize>, n: int) -> Seq<char>
    decreases n,
{
    if n <= 0 {
        Seq::empty()
    } else if is_shown(only_page, n - 1) {
        sections_before(pages, only_page, n - 1) + page_html(
            pages[n - 1].html@,
            (n - 1) as nat,
        )
    } else {
        sections_before(pages, only_page, n - 1)
    }
}

/// The scoped styles of the first `n` pages that are rendered and have styles.
pub open spec fn styles_before(
    pages: Seq<Page>,
    scoped: Seq<Option<String>>,
    only_page: Option<usize>,
    n: int,
) -> Seq<char>
    decreases n,
{
    if n <= 0 {
        Seq::empty()
    } else if is_shown(only_page, n - 1) && pages[n - 1].css is Some {
        match scoped[n - 1] {
            Some(css) => styles_before(pages, scoped, only_page, n - 1) + css@ + "\n"@,
            None => styles_before(pages, scoped, only_page, n - 1),
        }
    } else {
        styles_before(pages, scoped, only_page, n - 1)
    }
}

/// The page sections and their scoped styles, for every page or only
/// `only_page`.
pub fn page_markup(document: &Document, only_page: Option<usize>, scoped: &[Option<String>]) -> (r: (
    String,
    String,
))
    requires
        scoped@.len() == document.pages@.len(),
    ensures
        r.0@ == sections_before(document.pages@, only_page, document.pages@.len() as int),
        r.1@ == styles_before(
            document.pages@,
            scoped@,
            only_page,
            document.pages@.len() as int,
        ),
{
    let pages = &document.pages;
    let mut sections = String::new();
    let mut styles = String::new();
    let mut n: usize = 0;
    while n < pages.len()
        invariant
            n <= pages@.len(),
            scoped@.len() == pages@.len(),
            sections@ == sections_before(pages@, only_page, n as int),
            styles@ == styles_before(pages@, scoped@, only_page, n as int),
        decreases pages@.len() - n,
    {
        let shown = match only_page {
            Some(only) => only == n,
            None => true,
        };
        if shown {
            sections.append(render_page(&pages[n], n).as_str());
            if pages[n].css.is_some() {
                if let Some(css) = &scoped[n] {
                    styles.append(css.as_str());
                    styles.append("\n");
                }
            }
        }
        n += 1;
    }
    (sections, styles)
}

/// The image sources of a page's policy.
pub open spec fn image_sources(asset_origin: Option<String>) -> Seq<char> {
    match asset_origin {
        Some(origin) => "'self' data: "@ + text::substituted(
            markup::css_safe_text(origin@),
            " "@,
            ""@,
        ),
        None => "'self' data:"@,
    }
}

fn sources_of_images(asset_origin: &Option<String>) -> (r: String)
    ensures
        r@ == image_sources(*asset_origin),
{
    match asset_origin {
        Some(origin) => {
            let safe = css_safe(origin.as_str());
            proof {
                reveal_strlit(" ");
            }
            let mut r = owned("'self' data: ");
            r.append(text_of(&substitute(&chars_of(safe.as_str()), " ", "")).as_str());
            r
        },
        None => owned("'self' data:"),
    }
}

/// How a page starts.
pub const PAGE_START: &'static str = "<!doctype html>\n<html lang=\"en\">\n<head>\n\
<meta charset=\"utf-8\">\n\
<meta name=\"viewport\" content=\"width=device-width, initial-scale=1\">\n\
<meta http-equiv=\"Content-Security-Policy\" content=\"default-src 'none'; script-src ";

/// The style and font sources of a page's policy.
pub const PAGE_POLICY: &'static str = "; style-src 'unsafe-inline' https://fonts.googleapis.com; \
font-src 'self' https://fonts.gstatic.com; img-src ";

/// The rest of a page's policy.
pub const PAGE_POLICY_END: &'static str = "; connect-src 'none'; object-src 'none'; \
frame-src 'none'; form-action 'none'\">\n<title>";

/// The policy and the title of a page.
pub open spec fn page_head(document: Document, options: RenderOptions, parts: PageParts) -> Seq<
    char,
> {
    PAGE_START@ + script_source(script_text(options, *parts.scripts)) + PAGE_POLICY@ + image_sources(options.asset_origin)
        + PAGE_POLICY_END@ + markup::html_escaped(document.title@) + "</title>\n"@
}

fn head_of(document: &Document, options: &RenderOptions, source: &str) -> (r: String)
    ensures
        r@ == PAGE_START@ + source@ + PAGE_POLICY@ + image_sources(options.asset_origin)
            + PAGE_POLICY_END@ + markup::html_escaped(document.title@) + "</title>\n"@,
{
    let mut r = owned(PAGE_START);
    r.append(source);
    r.append(PAGE_POLICY);
    r.append(sources_of_images(&options.asset_origin).as_str());
    r.append(PAGE_POLICY_END);
    r.append(escape_html(document.title.as_str()).as_str());
    r.append("</title>\n");
    r
}

/// The document as an HTML page.
pub open spec fn document_html(
    document: Document,
    options: RenderOptions,
    parts: PageParts,
) -> Seq<char> {
    let n = document.pages@.len() as int;
    page_head(document, options, parts) + parts.fonts@ + "<style>\n"@ + parts.stylesheet@
        + (if options.is_print {
        parts.print_stylesheet@
    } else {
        Seq::empty()
    }) + styles_before(document.pages@, parts.scoped_styles@, options.only_page, n)
        + "</style>\n</head>\n<body>\n<main class=\"design document\" data-swift-design-width=\""@
        + text::decimal(document.paper.canvas().width as nat)
        + "\" data-swift-design-height=\""@ + text::decimal(
        document.paper.canvas().height as nat,
    ) + "\">\n"@ + sections_before(document.pages@, options.only_page, n) + "</main>\n"@
        + script_element(script_text(options, *parts.scripts)) + "</body>\n</html>\n"@
}

/// True when the script of a page can be hashed for its policy.
pub open spec fn is_hashable(options: RenderOptions, scripts: Scripts) -> bool {
    vstd::utf8::encode_utf8(script_text(options, scripts)).len() <= LONGEST_DIGESTED
}

/// Renders the document, or one page of it, per `options`.
pub fn render_document_with(document: &Document, options: &RenderOptions, parts: &PageParts) -> (r:
    String)
    requires
        parts.scoped_styles@.len() == document.pages@.len(),
        is_hashable(*options, *parts.scripts),
    ensures
        r@ == document_html(*document, *options, *parts),
{
    let script = page_script(options, parts.scripts);
    let (source, element) = script_markup(script.as_str());
    let (sections, styles) = page_markup(document, options.only_page, parts.scoped_styles);
    let viewport = document.paper.viewport();
    let mut r = head_of(document, options, source.as_str());
    r.append(parts.fonts);
    r.append("<style>\n");
    r.append(parts.stylesheet);
    if options.is_print {
        r.append(parts.print_stylesheet);
    } else {
        proof {
            text::lemma_append_nothing(r@);
        }
    }
    r.append(styles.as_str());
    r.append(
        "</style>\n</head>\n<body>\n<main class=\"design document\" data-swift-design-width=\"",
    );
    r.append(decimal_of(viewport.width as u128).as_str());
    r.append("\" data-swift-design-height=\"");
    r.append(decimal_of(viewport.height as u128).as_str());
    r.append("\">\n");
    r.append(sections.as_str());
    r.append("</main>\n");
    r.append(element.as_str());
    r.append("</body>\n</html>\n");
    r
}

/// Renders the whole document as an HTML page.
pub fn render_document(document: &Document, is_editable: bool, parts: &PageParts) -> (r: String)
    requires
        parts.scoped_styles@.len() == document.pages@.len(),
        is_hashable(
            (RenderOptions {
                is_editable,
                only_page: None,
                is_auditing: false,
                asset_origin: None,
                is_print: false,
            }),
            *parts.scripts,
        ),
    ensures
        r@ == document_html(
            *document,
            (RenderOptions {
                is_editable,
                only_page: None,
                is_auditing: false,
                asset_origin: None,
                is_print: false,
            }),
            *parts,
        ),
{
    let options = RenderOptions {
        is_editable,
        only_page: None,
        is_auditing: false,
        asset_origin: None,
        is_print: false,
    };
    render_document_with(document, &options, parts)
}

/// A page rendered alone keeps its real index.
pub proof fn law_a_single_page_keeps_its_index(pages: Seq<Page>, only: usize, n: int)
    requires
        only < n <= pages.len(),
    ensures
        sections_before(pages, Some(only), n) == page_html(pages[only as int].html@, only as nat),
    decreases n,
{
    if n - 1 == only {
        lemma_nothing_shown(pages, only, n - 1);
        assert(Seq::<char>::empty() + page_html(pages[only as int].html@, only as nat)
            =~= page_html(pages[only as int].html@, only as nat));
    } else {
        law_a_single_page_keeps_its_index(pages, only, n - 1);
    }
}

proof fn lemma_nothing_shown(pages: Seq<Page>, only: usize, n: int)
    requires
        n <= only,
    ensures
        sections_before(pages, Some(only), n) == Seq::<char>::empty(),
    decreases n,
{
    if n > 0 {
        lemma_nothing_shown(pages, only, n - 1);
    }
}

/// A page rendered alone carries no other page's styles.
pub proof fn law_a_single_page_keeps_its_styles(
    pages: Seq<Page>,
    scoped: Seq<Option<String>>,
    only: usize,
    n: int,
)
    requires
        only < n <= pages.len(),
        scoped.len() == pages.len(),
    ensures
        styles_before(pages, scoped, Some(only), n) == match (
            pages[only as int].css,
            scoped[only as int],
        ) {
            (Some(_), Some(css)) => css@ + "\n"@,
            _ => Seq::empty(),
        },
    decreases n,
{
    if n - 1 == only {
        lemma_no_styles(pages, scoped, only, n - 1);
        if let Some(css) = scoped[only as int] {
            assert(Seq::<char>::empty() + css@ + "\n"@ =~= css@ + "\n"@);
        }
    } else {
        law_a_single_page_keeps_its_styles(pages, scoped, only, n - 1);
    }
}

proof fn lemma_no_styles(
    pages: Seq<Page>,
    scoped: Seq<Option<String>>,
    only: usize,
    n: int,
)
    requires
        n <= only,
    ensures
        styles_before(pages, scoped, Some(only), n) == Seq::<char>::empty(),
    decreases n,
{
    if n > 0 {
        lemma_no_styles(pages, scoped, only, n - 1);
    }
}

/// A page runs the script of its options, and its policy allows that script
/// by its hash.
pub proof fn law_the_policy_allows_the_script_of_the_page(
    document: Document,
    options: RenderOptions,
    parts: PageParts,
)
    ensures
        (PAGE_START@ + script_source(script_text(options, *parts.scripts))
            + PAGE_POLICY@).is_prefix_of(document_html(document, options, parts)),
        (script_element(script_text(options, *parts.scripts))
            + "</body>\n</html>\n"@).is_suffix_of(document_html(document, options, parts)),
{
    let script = script_text(options, *parts.scripts);
    let html = document_html(document, options, parts);
    let start = PAGE_START@ + script_source(script) + PAGE_POLICY@;
    let head = page_head(document, options, parts);
    let end = "</body>\n</html>\n"@;
    assert(head.take(start.len() as int) =~= start);
    assert(html.take(head.len() as int) =~= head);
    assert(html.take(start.len() as int) =~= head.take(start.len() as int));
    let tail = script_element(script) + end;
    assert(html.skip(html.len() - tail.len()) =~= tail);
}

/// The sections of a whole document stand in page order, each with the index
/// of its page.
pub proof fn law_sections_stand_in_page_order(pages: Seq<Page>, n: nat)
    requires
        n <= pages.len(),
    ensures
        sections_before(pages, None, n as int) == Seq::new(
            n,
            |i: int| page_html(pages[i].html@, i as nat),
        ).flatten(),
    decreases n,
{
    let all = Seq::new(n, |i: int| page_html(pages[i].html@, i as nat));
    if n > 0 {
        let m = (n - 1) as nat;
        let before = Seq::new(m, |i: int| page_html(pages[i].html@, i as nat));
        law_sections_stand_in_page_order(pages, m);
        text::lemma_flatten_push(before, page_html(pages[m as int].html@, m));
        assert(before.push(page_html(pages[m as int].html@, m)) =~= all);
    } else {
        assert(all =~= Seq::<Seq<char>>::empty());
    }
}

/// The sections of the first pages begin the sections of all of them, whether
/// one page is rendered or every one.
pub proof fn law_earlier_pages_stand_first(
    pages: Seq<Page>,
    only_page: Option<usize>,
    k: int,
    n: int,
)
    requires
        0 <= k <= n <= pages.len(),
    ensures
        sections_before(pages, only_page, k).is_prefix_of(sections_before(pages, only_page, n)),
    decreases n - k,
{
    if k < n {
        law_earlier_pages_stand_first(pages, only_page, k, n - 1);
    }
}

/// The styles that page `i` adds to a page that shows it.
pub open spec fn own_styles(page: Page, scoped: Option<String>) -> Seq<char> {
    match (page.css, scoped) {
        (Some(_), Some(css)) => css@ + "\n"@,
        _ => Seq::empty(),
    }
}

/// The styles of a whole document are those of each page that has any, in
/// page order.
pub proof fn law_styles_stand_in_page_order(
    pages: Seq<Page>,
    scoped: Seq<Option<String>>,
    n: nat,
)
    requires
        n <= pages.len(),
        scoped.len() == pages.len(),
    ensures
        styles_before(pages, scoped, None, n as int) == Seq::new(
            n,
            |i: int| own_styles(pages[i], scoped[i]),
        ).flatten(),
    decreases n,
{
    let all = Seq::new(n, |i: int| own_styles(pages[i], scoped[i]));
    if n > 0 {
        let m = (n - 1) as nat;
        let before = Seq::new(m, |i: int| own_styles(pages[i], scoped[i]));
        let last = own_styles(pages[m as int], scoped[m as int]);
        law_styles_stand_in_page_order(pages, scoped, m);
        text::lemma_flatten_push(before, last);
        assert(before.push(last) =~= all);
        assert(styles_before(pages, scoped, None, n as int) =~= before.flatten() + last);
    } else {
        assert(all =~= Seq::<Seq<char>>::empty());
    }
}

/// A page holds its markup as written, in the root of its section, and names
/// its place: the index of the section, and the number of the frame.
pub proof fn law_a_page_holds_its_markup(html: Seq<char>, index: nat)
    ensures
        text::holds(
            page_html(html, index),
            "\">\n<div class=\"page-root\" data-swift-design-root>"@ + html
                + "</div>\n</section>\n</div>\n"@,
        ),
        text::starts_with(
            page_html(html, index),
            "<div class=\"page-frame\" id=\"page-"@ + text::decimal(index + 1) + "\" data-swift-design-frame>\n<section class=\"page\" data-swift-design-screen=\""@
                + text::decimal(index),
        ),
{
    let start = "<div class=\"page-frame\" id=\"page-"@ + text::decimal(index + 1)
        + "\" data-swift-design-frame>\n<section class=\"page\" data-swift-design-screen=\""@
        + text::decimal(index);
    let rest = "\">\n<div class=\"page-root\" data-swift-design-root>"@ + html
        + "</div>\n</section>\n</div>\n"@;
    let page = page_html(html, index);
    assert(page =~= start + rest);
    assert(page.subrange(0, start.len() as int) =~= start);
    text::lemma_holds_itself(start, rest, Seq::empty());
    assert(start + rest + Seq::<char>::empty() =~= page);
}

proof fn lemma_styles_part(
    first: Seq<char>,
    policy: Seq<char>,
    open: Seq<char>,
    head: Seq<char>,
    mid: Seq<char>,
    close: Seq<char>,
    end: Seq<char>,
)
    ensures
        text::holds(
            first + (policy + open) + head + mid + (close + end),
            open + head + mid + close,
        ),
{
    text::lemma_holds_itself(first + policy, open + head + mid + close, end);
    assert((first + policy) + (open + head + mid + close) + end =~= first + (policy + open) + head
        + mid + (close + end));
}

/// A rendered document holds its title, then the theme's styles, then those
/// of its pages.
pub proof fn law_a_document_holds_its_styles(
    document: Document,
    options: RenderOptions,
    parts: PageParts,
)
    ensures
        text::holds(
            document_html(document, options, parts),
            "<title>"@ + (markup::html_escaped(document.title@) + "</title>\n"@) + (parts.fonts@
                + "<style>\n"@ + parts.stylesheet@ + (if options.is_print {
                parts.print_stylesheet@
            } else {
                Seq::empty()
            }) + styles_before(
                document.pages@,
                parts.scoped_styles@,
                options.only_page,
                document.pages@.len() as int,
            )) + "</style>\n"@,
        ),
{
    let n = document.pages@.len() as int;
    let print = if options.is_print {
        parts.print_stylesheet@
    } else {
        Seq::empty()
    };
    let styles = styles_before(document.pages@, parts.scoped_styles@, options.only_page, n);
    let title = markup::html_escaped(document.title@) + "</title>\n"@;
    let sheet = parts.fonts@ + "<style>\n"@ + parts.stylesheet@ + print + styles;
    let end = "</style>\n</head>\n<body>\n<main class=\"design document\" data-swift-design-width=\""@;
    let policy = PAGE_POLICY_END@;
    let first = PAGE_START@ + script_source(script_text(options, *parts.scripts)) + PAGE_POLICY@
        + image_sources(options.asset_origin);
    let close = "</style>\n"@;
    let rest = end.skip(9);
    assert(end == close + rest) by {
        reveal_strlit("</style>\n</head>\n<body>\n<main class=\"design document\" data-swift-design-width=\"");
        reveal_strlit("</style>\n");
        assert(end =~= close + rest);
    }
    let start = policy.take(policy.len() - 7);
    assert(policy == start + "<title>"@) by {
        reveal_strlit("; connect-src 'none'; object-src 'none'; \
frame-src 'none'; form-action 'none'\">\n<title>");
        reveal_strlit("<title>");
        assert(policy =~= start + "<title>"@);
    }
    lemma_styles_part(first, start, "<title>"@, title, sheet, close, rest);
    let part = "<title>"@ + title + sheet + close;
    let head = page_head(document, options, parts);
    assert(head =~= first + policy + title);
    let begun = head + parts.fonts@ + "<style>\n"@ + parts.stylesheet@ + print + styles + end;
    assert(begun =~= first + policy + title + sheet + end);
    let width = text::decimal(document.paper.canvas().width as nat);
    let height = text::decimal(document.paper.canvas().height as nat);
    let sections = sections_before(document.pages@, options.only_page, n);
    let script = script_element(script_text(options, *parts.scripts));
    lemma_held(
        begun,
        width,
        "\" data-swift-design-height=\""@,
        height,
        "\">\n"@,
        sections,
        "</main>\n"@,
        script,
        "</body>\n</html>\n"@,
        part,
    );
}

proof fn lemma_held(
    s: Seq<char>,
    a: Seq<char>,
    b: Seq<char>,
    c: Seq<char>,
    d: Seq<char>,
    e: Seq<char>,
    f: Seq<char>,
    g: Seq<char>,
    h: Seq<char>,
    part: Seq<char>,
)
    requires
        text::holds(s, part),
    ensures
        text::holds(s + a + b + c + d + e + f + g + h, part),
{
    text::lemma_holds_before(s, a, part);
    text::lemma_holds_before(s + a, b, part);
    text::lemma_holds_before(s + a + b, c, part);
    text::lemma_holds_before(s + a + b + c, d, part);
    text::lemma_holds_before(s + a + b + c + d, e, part);
    text::lemma_holds_before(s + a + b + c + d + e, f, part);
    text::lemma_holds_before(s + a + b + c + d + e + f, g, part);
    text::lemma_holds_before(s + a + b + c + d + e + f + g, h, part);
}

proof fn lemma_main_part(
    begun: Seq<char>,
    start: Seq<char>,
    name: Seq<char>,
    a: Seq<char>,
    b: Seq<char>,
    c: Seq<char>,
    d: Seq<char>,
    e: Seq<char>,
    f: Seq<char>,
    g: Seq<char>,
    h: Seq<char>,
)
    ensures
        text::holds(
            begun + (start + name) + a + b + c + d + e + f + g + h,
            name + a + b + c + d + e + f,
        ),
{
    let part = name + a + b + c + d + e + f;
    text::lemma_holds_itself(begun + start, part, g + h);
    assert((begun + start) + part + (g + h) =~= begun + (start + name) + a + b + c + d + e + f + g
        + h);
}

/// A rendered document holds the sections of its pages in its main element,
/// which names the canvas of its paper.
pub proof fn law_a_document_holds_its_pages(
    document: Document,
    options: RenderOptions,
    parts: PageParts,
)
    ensures
        text::holds(
            document_html(document, options, parts),
            "<main class=\"design document\" data-swift-design-width=\""@ + text::decimal(
                document.paper.canvas().width as nat,
            ) + "\" data-swift-design-height=\""@ + text::decimal(
                document.paper.canvas().height as nat,
            ) + "\">\n"@ + sections_before(
                document.pages@,
                options.only_page,
                document.pages@.len() as int,
            ) + "</main>\n"@,
        ),
{
    let n = document.pages@.len() as int;
    let print = if options.is_print {
        parts.print_stylesheet@
    } else {
        Seq::empty()
    };
    let styles = styles_before(document.pages@, parts.scoped_styles@, options.only_page, n);
    let end = "</style>\n</head>\n<body>\n<main class=\"design document\" data-swift-design-width=\""@;
    let name = "<main class=\"design document\" data-swift-design-width=\""@;
    let start = end.take(end.len() - name.len());
    assert(end == start + name) by {
        reveal_strlit("</style>\n</head>\n<body>\n<main class=\"design document\" data-swift-design-width=\"");
        reveal_strlit("<main class=\"design document\" data-swift-design-width=\"");
        assert(end =~= start + name);
    }
    let begun = page_head(document, options, parts) + parts.fonts@ + "<style>\n"@
        + parts.stylesheet@ + print + styles;
    lemma_main_part(
        begun,
        start,
        name,
        text::decimal(document.paper.canvas().width as nat),
        "\" data-swift-design-height=\""@,
        text::decimal(document.paper.canvas().height as nat),
        "\">\n"@,
        sections_before(document.pages@, options.only_page, n),
        "</main>\n"@,
        script_element(script_text(options, *parts.scripts)),
        "</body>\n</html>\n"@,
    );
}

} // verus!
