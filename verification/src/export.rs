//! The export of artifacts as files: names, fonts, and archives.

use vstd::prelude::*;

use crate::archive;
use crate::archive::{pack, NamedFile};
use crate::attachments::utf8_text;
use crate::email_html::EmailHtmlFile;
use crate::encoding;
use crate::encoding::standard_base64;
use crate::order;
use crate::text;
use crate::text::{chars_of, decimal_of, find_char, find_text, owned, part, push_chars, substitute, text_of};
use crate::uploads;
use crate::uploads::offset_of;

verus! {

/// The `Content-Disposition` value that names the download
/// `{id}.{extension}`.
pub fn attachment_disposition(id: &str, extension: &str) -> (r: String)
    ensures
        r@ == "attachment; filename=\""@ + id@ + "."@ + extension@ + "\""@,
{
    let mut r = owned("attachment; filename=\"");
    r.append(id);
    r.append(".");
    r.append(extension);
    r.append("\"");
    r
}

/// A `data:` URI of `bytes`.
pub open spec fn data_uri_of(content_type: Seq<char>, bytes: Seq<u8>) -> Seq<char> {
    "data:"@ + content_type + ";base64,"@ + encoding::base64_of(bytes)
}

/// A `data:` URI of `bytes` with this content type.
pub fn data_uri(content_type: &str, bytes: &[u8]) -> (r: String)
    ensures
        r@ == data_uri_of(content_type@, bytes@),
{
    let mut r = owned("data:");
    r.append(content_type);
    r.append(";base64,");
    r.append(encoding::base64_encode(bytes).as_str());
    r
}

// -- Fonts ------------------------------------------------------------------

/// Start of the stylesheet `<link>` of the online fonts.
pub const FONT_LINK_PREFIX: &'static str = "<link rel=\"stylesheet\" href=\"https://fonts.googleapis.com/";

/// Start of one font file reference inside the online stylesheet.
pub const FONT_URL_PREFIX: &'static str = "url(https://fonts.gstatic.com/";

/// The preconnect hints that go with the stylesheet link.
pub const PRECONNECT_STYLES: &'static str = "<link rel=\"preconnect\" href=\"https://fonts.googleapis.com\">\n";

/// The preconnect hints that go with the stylesheet link.
pub const PRECONNECT_FONTS: &'static str = "<link rel=\"preconnect\" href=\"https://fonts.gstatic.com\" crossorigin>\n";

/// The style sources of the page's policy with online fonts.
pub const ONLINE_STYLES: &'static str = "style-src 'unsafe-inline' https://fonts.googleapis.com;";

/// The style sources of the page's policy without online fonts.
pub const OFFLINE_STYLES: &'static str = "style-src 'unsafe-inline';";

/// The font sources of the page's policy with online fonts.
pub const ONLINE_FONTS: &'static str = "font-src 'self' https://fonts.gstatic.com;";

/// The font sources of the page's policy with every font inline.
pub const OFFLINE_FONTS: &'static str = "font-src 'self' data:;";

/// Where the font link stands in a page, in characters: the link from
/// `start` to `end`, its URL from `url_start` to `url_end`.
pub struct LinkSpan {
    pub start: int,
    pub url_start: int,
    pub url_end: int,
    pub end: int,
}

/// The first font link in `s`, when it is complete.
pub open spec fn link_span(s: Seq<char>) -> Option<LinkSpan> {
    match text::find(s, FONT_LINK_PREFIX@) {
        None => None,
        Some(start) => {
            let url_start = start + 29;
            match text::find_char_from(s, '"', url_start) {
                None => None,
                Some(url_end) => match text::find_char_from(s, '>', url_end) {
                    None => None,
                    Some(close) => Some(LinkSpan { start, url_start, url_end, end: close + 1 }),
                },
            }
        },
    }
}

/// Where the font `<link>` sits in the page, and its URL.
#[derive(Debug, PartialEq, Eq)]
pub struct FontLink {
    /// Byte offset of `<link`.
    pub start: usize,
    /// Byte offset right after the closing `>`.
    pub end: usize,
    /// The stylesheet URL.
    pub url: String,
}

/// True when `link` is the first font link of `s`.
pub open spec fn is_font_link(link: FontLink, s: Seq<char>) -> bool {
    match link_span(s) {
        Some(span) => {
            &&& link.start == uploads::byte_offset(s, span.start)
            &&& link.end == uploads::byte_offset(s, span.end)
            &&& link.url@ == s.subrange(span.url_start, span.url_end)
        },
        None => false,
    }
}

struct Span {
    start: usize,
    url_start: usize,
    url_end: usize,
    end: usize,
}

fn find_span(chars: &[char]) -> (r: Option<Span>)
    ensures
        match r {
            Some(span) => link_span(chars@) == Some(
                LinkSpan {
                    start: span.start as int,
                    url_start: span.url_start as int,
                    url_end: span.url_end as int,
                    end: span.end as int,
                },
            ) && span.start <= span.url_start <= span.url_end < span.end <= chars@.len(),
            None => link_span(chars@) is None,
        },
{
    let length: usize = chars.len();
    let Some(start) = find_text(chars, FONT_LINK_PREFIX, 0) else {
        return None;
    };
    proof {
        reveal_strlit(
            "<link rel=\"stylesheet\" href=\"https://fonts.googleapis.com/",
        );
    }
    let url_start: usize = start + 29;
    let Some(url_end) = find_char(chars, '"', url_start) else {
        return None;
    };
    let Some(close) = find_char(chars, '>', url_end) else {
        return None;
    };
    Some(Span { start, url_start, url_end, end: close + 1 })
}

/// Finds the font stylesheet `<link>` in `html`.
pub fn google_fonts_link(html: &str) -> (r: Option<FontLink>)
    ensures
        match r {
            Some(link) => is_font_link(link, html@),
            None => link_span(html@) is None,
        },
{
    let chars = chars_of(html);
    match find_span(&chars) {
        Some(span) => Some(
            FontLink {
                start: offset_of(&chars, span.start),
                end: offset_of(&chars, span.end),
                url: text_of(&part(&chars, span.url_start, span.url_end)),
            },
        ),
        None => None,
    }
}

/// A page without its preconnect hints and with the policy of inline fonts.
pub open spec fn offline(s: Seq<char>) -> Seq<char> {
    let unhinted = text::substituted(
        text::substituted(s, PRECONNECT_STYLES@, Seq::empty()),
        PRECONNECT_FONTS@,
        Seq::empty(),
    );
    text::substituted(
        text::substituted(unhinted, ONLINE_STYLES@, OFFLINE_STYLES@),
        ONLINE_FONTS@,
        OFFLINE_FONTS@,
    )
}

/// The page `s` with its font link replaced by the stylesheet itself.
pub open spec fn with_inline_fonts(s: Seq<char>, css: Seq<char>) -> Seq<char> {
    match link_span(s) {
        Some(span) => offline(
            s.take(span.start) + "<style>\n"@ + css + "\n</style>"@ + s.skip(span.end),
        ),
        None => s,
    }
}

/// Swaps the page's font link for a `<style>` element that holds `css`,
/// removes the preconnect hints, and drops the online font hosts from the
/// page's policy. A page without a font link stays as it is.
pub fn replace_font_link(html: &str, css: &str) -> (r: String)
    ensures
        r@ == with_inline_fonts(html@, css@),
{
    let chars = chars_of(html);
    let Some(span) = find_span(&chars) else {
        return owned(html);
    };
    let mut page = text_of(&part(&chars, 0, span.start));
    page.append("<style>\n");
    page.append(css);
    page.append("\n</style>");
    push_chars(&mut page, &part(&chars, span.end, chars.len()));
    proof {
        assert(chars@.take(span.start as int) =~= chars@.subrange(0, span.start as int));
        assert(chars@.skip(span.end as int) =~= chars@.subrange(
            span.end as int,
            chars@.len() as int,
        ));
        reveal_strlit("<link rel=\"preconnect\" href=\"https://fonts.googleapis.com\">\n");
        reveal_strlit(
            "<link rel=\"preconnect\" href=\"https://fonts.gstatic.com\" crossorigin>\n",
        );
        reveal_strlit("style-src 'unsafe-inline' https://fonts.googleapis.com;");
        reveal_strlit("font-src 'self' https://fonts.gstatic.com;");
        reveal_strlit("");
        assert(""@ =~= Seq::<char>::empty());
    }
    let step = substitute(&chars_of(page.as_str()), PRECONNECT_STYLES, "");
    let step = substitute(&step, PRECONNECT_FONTS, "");
    let step = substitute(&step, ONLINE_STYLES, OFFLINE_STYLES);
    let step = substitute(&step, ONLINE_FONTS, OFFLINE_FONTS);
    text_of(&step)
}

/// The next font file reference at or after `cursor`: where its URL starts
/// and ends.
pub open spec fn next_url(s: Seq<char>, cursor: int) -> Option<(int, int)> {
    match text::find_from(s, FONT_URL_PREFIX@, cursor) {
        None => None,
        Some(found) => match text::find_char_from(s, ')', found + 4) {
            None => None,
            Some(end) => Some((found + 4, end)),
        },
    }
}

/// A font file reference lies behind the cursor, inside the text.
pub proof fn lemma_next_url(s: Seq<char>, cursor: int)
    requires
        0 <= cursor,
    ensures
        next_url(s, cursor) matches Some((start, end)) ==> cursor + 4 <= start <= end < s.len(),
{
    reveal_strlit("url(https://fonts.gstatic.com/");
    text::lemma_find_from(s, FONT_URL_PREFIX@, cursor);
    if let Some(found) = text::find_from(s, FONT_URL_PREFIX@, cursor) {
        text::lemma_find_char_from(s, ')', found + 4);
    }
}

/// The font file URLs in a stylesheet from `cursor` on, in order.
pub open spec fn urls_from(s: Seq<char>, cursor: int) -> Seq<Seq<char>>
    decreases s.len() - cursor,
    via urls_decreases
{
    match next_url(s, cursor) {
        None => Seq::empty(),
        Some((start, end)) => seq![s.subrange(start, end)] + urls_from(s, end),
    }
}

#[via_fn]
proof fn urls_decreases(s: Seq<char>, cursor: int) {
    if cursor >= 0 {
        lemma_next_url(s, cursor);
    }
}

fn find_url(chars: &[char], cursor: usize) -> (r: Option<(usize, usize)>)
    requires
        cursor <= chars@.len(),
    ensures
        match r {
            Some((start, end)) => next_url(chars@, cursor as int) == Some(
                (start as int, end as int),
            ) && cursor + 4 <= start <= end < chars@.len(),
            None => next_url(chars@, cursor as int) is None,
        },
{
    let length: usize = chars.len();
    let Some(found) = find_text(chars, FONT_URL_PREFIX, cursor) else {
        return None;
    };
    proof {
        reveal_strlit("url(https://fonts.gstatic.com/");
    }
    match find_char(chars, ')', found + 4) {
        Some(end) => Some((found + 4, end)),
        None => None,
    }
}

/// The font file URLs in a stylesheet, in order: what has to be fetched
/// before the fonts can be inlined.
pub fn font_urls(css: &str) -> (urls: Vec<String>)
    ensures
        text::strings(urls@) == urls_from(css@, 0),
{
    let chars = chars_of(css);
    let mut urls: Vec<String> = Vec::new();
    let mut cursor: usize = 0;
    assert(text::strings(urls@) + urls_from(chars@, 0) =~= urls_from(chars@, 0));
    loop
        invariant
            cursor <= chars@.len(),
            urls_from(chars@, 0) == text::strings(urls@) + urls_from(chars@, cursor as int),
        ensures
            urls_from(chars@, 0) == text::strings(urls@),
        decreases chars@.len() - cursor,
    {
        let Some((start, end)) = find_url(&chars, cursor) else {
            assert(text::strings(urls@) + Seq::<Seq<char>>::empty() =~= text::strings(urls@));
            break;
        };
        let ghost before = urls@;
        let url = text_of(&part(&chars, start, end));
        urls.push(url);
        proof {
            let rest = urls_from(chars@, end as int);
            assert(text::strings(urls@) =~= text::strings(before).push(url@));
            assert(text::strings(before) + (seq![url@] + rest) =~= text::strings(urls@) + rest);
        }
        cursor = end;
    }
    urls
}

/// The stylesheet from `cursor` on with each font file as a `data:` URI. The
/// file of the next URL is `fonts[k]`.
pub open spec fn inlined_from(s: Seq<char>, cursor: int, fonts: Seq<Vec<u8>>, k: int) -> Seq<char>
    decreases s.len() - cursor,
    via inlined_decreases
{
    match next_url(s, cursor) {
        None => s.subrange(cursor, s.len() as int),
        Some((start, end)) => s.subrange(cursor, start) + "data:font/woff2;base64,"@
            + encoding::base64_of(fonts[k]@) + inlined_from(s, end, fonts, k + 1),
    }
}

#[via_fn]
proof fn inlined_decreases(s: Seq<char>, cursor: int, fonts: Seq<Vec<u8>>, k: int) {
    if cursor >= 0 {
        lemma_next_url(s, cursor);
    }
}

/// Replaces every font file URL in `css` with a `data:` URI of the file's
/// bytes. The rest of the CSS is unchanged. `fonts` holds the files of
/// `font_urls`, in order.
pub fn inline_font_urls(css: &str, fonts: &Vec<Vec<u8>>) -> (r: String)
    requires
        fonts@.len() == urls_from(css@, 0).len(),
        forall|k: int|
            0 <= k < fonts@.len() ==> (#[trigger] fonts@[k])@.len() <= encoding::LARGEST_INPUT,
    ensures
        r@ == inlined_from(css@, 0, fonts@, 0),
{
    let chars = chars_of(css);
    let mut r = String::new();
    let mut cursor: usize = 0;
    let mut k: usize = 0;
    let count: usize = fonts.len();
    assert(r@ + inlined_from(chars@, 0, fonts@, 0) =~= inlined_from(chars@, 0, fonts@, 0));
    loop
        invariant_except_break
            cursor <= chars@.len(),
            count == fonts@.len(),
            k + urls_from(chars@, cursor as int).len() == count,
            forall|j: int|
                0 <= j < fonts@.len() ==> (#[trigger] fonts@[j])@.len() <= encoding::LARGEST_INPUT,
            inlined_from(chars@, 0, fonts@, 0) == r@ + inlined_from(
                chars@,
                cursor as int,
                fonts@,
                k as int,
            ),
        ensures
            cursor <= chars@.len(),
            inlined_from(chars@, 0, fonts@, 0) == r@ + chars@.subrange(
                cursor as int,
                chars@.len() as int,
            ),
        decreases chars@.len() - cursor,
    {
        let Some((start, end)) = find_url(&chars, cursor) else {
            break;
        };
        let ghost before = r@;
        push_chars(&mut r, &part(&chars, cursor, start));
        r.append("data:font/woff2;base64,");
        r.append(standard_base64(fonts[k].as_slice()).as_str());
        proof {
            let rest = inlined_from(chars@, end as int, fonts@, k + 1);
            assert(before + (chars@.subrange(cursor as int, start as int)
                + "data:font/woff2;base64,"@ + encoding::base64_of(fonts@[k as int]@) + rest)
                =~= r@ + rest);
        }
        cursor = end;
        k += 1;
    }
    push_chars(&mut r, &part(&chars, cursor, chars.len()));
    r
}

/// A stylesheet without online font files stays as it is.
pub proof fn law_css_without_fonts_is_kept(s: Seq<char>, fonts: Seq<Vec<u8>>)
    requires
        text::find(s, FONT_URL_PREFIX@) is None,
    ensures
        urls_from(s, 0) == Seq::<Seq<char>>::empty(),
        inlined_from(s, 0, fonts, 0) == s,
{
    assert(s.subrange(0, s.len() as int) =~= s);
}

/// The text of a fetched stylesheet, or `None` when it is not valid UTF-8.
pub fn stylesheet_text(bytes: &[u8]) -> (r: Option<String>)
    ensures
        match r {
            Some(css) => vstd::utf8::valid_utf8(bytes@) && css@ == vstd::utf8::decode_utf8(bytes@),
            None => !vstd::utf8::valid_utf8(bytes@),
        },
{
    utf8_text(bytes)
}

/// True when every font file of the stylesheet `css` was fetched.
pub open spec fn are_fetched(css: Seq<char>, fonts: Seq<Option<Vec<u8>>>) -> bool {
    fonts.len() == urls_from(css, 0).len() && forall|k: int|
        0 <= k < fonts.len() ==> (#[trigger] fonts[k]) is Some
}

/// The font files that were fetched, when all were.
pub open spec fn fetched(fonts: Seq<Option<Vec<u8>>>) -> Seq<Vec<u8>> {
    Seq::new(fonts.len(), |k: int| fonts[k]->0)
}

/// The page `html` with its fonts in it, when its stylesheet and every font
/// file of the stylesheet were fetched; the page as it was otherwise.
pub open spec fn page_with_fonts(
    html: Seq<char>,
    stylesheet: Option<Vec<u8>>,
    fonts: Seq<Option<Vec<u8>>>,
) -> Seq<char> {
    match stylesheet {
        None => html,
        Some(bytes) => {
            let css = vstd::utf8::decode_utf8(bytes@);
            if vstd::utf8::valid_utf8(bytes@) && are_fetched(css, fonts) {
                with_inline_fonts(html, inlined_from(css, 0, fetched(fonts), 0))
            } else {
                html
            }
        },
    }
}

/// Swaps the online font link of a page for its fonts. `stylesheet` is what
/// the link's URL answered, `fonts` are the files of its `font_urls` in
/// order, and `None` is a fetch that failed. Any failure leaves the page as
/// it was, so the export still succeeds.
pub fn inline_google_fonts(
    html: &str,
    stylesheet: Option<Vec<u8>>,
    fonts: Vec<Option<Vec<u8>>>,
) -> (r: String)
    requires
        forall|k: int|
            0 <= k < fonts@.len() ==> ((#[trigger] fonts@[k]) matches Some(font) ==> font@.len()
                <= encoding::LARGEST_INPUT),
    ensures
        r@ == page_with_fonts(html@, stylesheet, fonts@),
{
    let Some(bytes) = stylesheet else {
        return owned(html);
    };
    let Some(css) = stylesheet_text(bytes.as_slice()) else {
        return owned(html);
    };
    let ghost all = fonts@;
    let count: usize = fonts.len();
    let mut files: Vec<Vec<u8>> = Vec::new();
    for font in it: fonts
        invariant
            it.seq() == all,
            files@ == fetched(all.take(it.index())),
            forall|k: int| 0 <= k < it.index() ==> (#[trigger] all[k]) is Some,
    {
        let ghost i = it.index();
        match font {
            Some(file) => {
                files.push(file);
                assert(fetched(all.take(i + 1)) =~= fetched(all.take(i)).push(file));
            },
            None => {
                assert(all[i] is None);
                return owned(html);
            },
        }
    }
    assert(all.take(all.len() as int) =~= all);
    if count != font_urls(css.as_str()).len() {
        return owned(html);
    }
    replace_font_link(html, inline_font_urls(css.as_str(), &files).as_str())
}

/// A fetch that failed leaves the page as it was: the stylesheet's, one that
/// is not text, or that of any font file.
pub proof fn law_a_failed_fetch_keeps_the_page(
    html: Seq<char>,
    stylesheet: Option<Vec<u8>>,
    fonts: Seq<Option<Vec<u8>>>,
)
    requires
        stylesheet is None || !vstd::utf8::valid_utf8(stylesheet->0@) || exists|k: int|
            0 <= k < fonts.len() && (#[trigger] fonts[k]) is None,
    ensures
        page_with_fonts(html, stylesheet, fonts) == html,
{
}

/// A page without a font link stays as it is, whatever was fetched.
pub proof fn law_a_page_without_a_font_link_is_kept(
    html: Seq<char>,
    stylesheet: Option<Vec<u8>>,
    fonts: Seq<Option<Vec<u8>>>,
)
    requires
        link_span(html) is None,
    ensures
        page_with_fonts(html, stylesheet, fonts) == html,
{
}

// -- Archives ---------------------------------------------------------------

/// The name of the image of the unit at `index`: `{id}-{kind}-{n}.png`,
/// counted from 1.
pub open spec fn image_name(id: Seq<char>, kind: Seq<char>, index: nat) -> Seq<char> {
    id + "-"@ + kind + "-"@ + text::decimal(index + 1) + ".png"@
}

/// The images of the units as an archive stores them, in order. A PNG is
/// compressed already, so they are stored as they are.
pub open spec fn image_files(id: Seq<char>, kind: Seq<char>, images: Seq<Vec<u8>>) -> Seq<
    (Seq<char>, Seq<u8>, bool),
> {
    Seq::new(
        images.len(),
        |k: int| (image_name(id, kind, k as nat), images[k]@, false),
    )
}

/// No two images have the same name.
proof fn lemma_image_names_differ(id: Seq<char>, kind: Seq<char>, images: Seq<Vec<u8>>)
    ensures
        archive::names_differ(image_files(id, kind, images)),
{
    let entries = image_files(id, kind, images);
    let head = id + "-"@ + kind + "-"@;
    reveal_strlit(".png");
    let tail = ".png"@.skip(1);
    assert(".png"@ =~= seq!['.'] + tail);
    assert forall|j: int, k: int| 0 <= j < k < entries.len() implies (#[trigger] entries[j]).0 != (
    #[trigger] entries[k]).0 by {
        order::lemma_decimals_differ_before((j + 1) as nat, (k + 1) as nat, '.', tail, tail);
        assert(entries[j].0.skip(head.len() as int) =~= text::decimal((j + 1) as nat) + seq!['.']
            + tail);
        assert(entries[k].0.skip(head.len() as int) =~= text::decimal((k + 1) as nat) + seq!['.']
            + tail);
    }
}

/// One zip with `{id}-{kind}-{n}.png` per image, counted from 1, in order.
fn pack_images(id: &str, kind: &str, images: &[Vec<u8>]) -> (r: Result<Vec<u8>, String>)
    ensures
        archive::is_archive_of(r, image_files(id@, kind@, images@)),
{
    let mut files: Vec<NamedFile> = Vec::new();
    let mut k: usize = 0;
    while k < images.len()
        invariant
            k <= images@.len(),
            k == files@.len(),
            forall|j: int|
                0 <= j < k ==> (#[trigger] files@[j]).name@ == image_name(id@, kind@, j as nat)
                    && files@[j].bytes@ == images@[j]@,
        decreases images@.len() - k,
    {
        let mut name = owned(id);
        name.append("-");
        name.append(kind);
        name.append("-");
        name.append(decimal_of(k as u128 + 1).as_str());
        name.append(".png");
        files.push(NamedFile { name, bytes: text::copy_bytes(images[k].as_slice()) });
        k += 1;
    }
    assert(archive::files_of(files@, false) =~= image_files(id@, kind@, images@));
    proof {
        lemma_image_names_differ(id@, kind@, images@);
    }
    pack(&files, false)
}

/// One zip with `{id}-frame-{n}.png` per image, counted from 1, in order.
pub fn pack_frame_images(id: &str, images: &[Vec<u8>]) -> (r: Result<Vec<u8>, String>)
    ensures
        archive::is_archive_of(r, image_files(id@, "frame"@, images@)),
{
    pack_images(id, "frame", images)
}

/// One zip with `{id}-sheet-{n}.png` per image, counted from 1, in order.
pub fn pack_sheet_images(id: &str, images: &[Vec<u8>]) -> (r: Result<Vec<u8>, String>)
    ensures
        archive::is_archive_of(r, image_files(id@, "sheet"@, images@)),
{
    pack_images(id, "sheet", images)
}

/// One zip with `{id}-ad-{n}.png` per image, counted from 1, in order.
pub fn pack_ad_images(id: &str, images: &[Vec<u8>]) -> (r: Result<Vec<u8>, String>)
    ensures
        archive::is_archive_of(r, image_files(id@, "ad"@, images@)),
{
    pack_images(id, "ad", images)
}

/// One zip with `{id}-email-{n}.png` per image, counted from 1, in order.
pub fn pack_email_images(id: &str, images: &[Vec<u8>]) -> (r: Result<Vec<u8>, String>)
    ensures
        archive::is_archive_of(r, image_files(id@, "email"@, images@)),
{
    pack_images(id, "email", images)
}

/// What the subject list says of the email at `index`, counted from 1.
pub open spec fn subject_entry(file: EmailHtmlFile, index: nat) -> Seq<char> {
    "Email "@ + text::decimal(index + 1) + "\nSubject: "@ + text_or_nothing(file.subject)
        + "\nPreheader: "@ + text_or_nothing(file.preheader) + "\n\n"@
}

/// An optional text, or nothing.
pub open spec fn text_or_nothing(text: Option<String>) -> Seq<char> {
    match text {
        Some(s) => s@,
        None => Seq::empty(),
    }
}

/// The subject list of the first `k` emails.
pub open spec fn subject_list(files: Seq<EmailHtmlFile>, k: int) -> Seq<char>
    decreases k,
{
    if k <= 0 {
        Seq::empty()
    } else {
        subject_list(files, k - 1) + subject_entry(files[k - 1], (k - 1) as nat)
    }
}

/// The name of the document of the email at `index`: `{id}-email-{n}.html`,
/// counted from 1.
pub open spec fn email_name(id: Seq<char>, index: nat) -> Seq<char> {
    id + "-email-"@ + text::decimal(index + 1) + ".html"@
}

/// The email documents as an archive holds them, in order, and the subject
/// list behind them.
pub open spec fn email_files(id: Seq<char>, files: Seq<EmailHtmlFile>) -> Seq<
    (Seq<char>, Seq<u8>, bool),
> {
    Seq::new(
        files.len(),
        |k: int|
            (email_name(id, k as nat), vstd::utf8::encode_utf8(files[k].html@), true),
    ).push(
        (
            id + "-subjects.txt"@,
            vstd::utf8::encode_utf8(subject_list(files, files.len() as int)),
            true,
        ),
    )
}

/// No two emails have the same name, nor the name of the subject list.
proof fn lemma_email_names_differ(id: Seq<char>, files: Seq<EmailHtmlFile>)
    ensures
        archive::names_differ(email_files(id, files)),
{
    let entries = email_files(id, files);
    let head = id + "-email-"@;
    reveal_strlit(".html");
    reveal_strlit("-subjects.txt");
    let tail = ".html"@.skip(1);
    assert(".html"@ =~= seq!['.'] + tail);
    assert forall|j: int, k: int| 0 <= j < k < entries.len() implies (#[trigger] entries[j]).0 != (
    #[trigger] entries[k]).0 by {
        assert(entries[j].0 == email_name(id, j as nat));
        if k < files.len() {
            assert(entries[k].0 == email_name(id, k as nat));
            order::lemma_decimals_differ_before((j + 1) as nat, (k + 1) as nat, '.', tail, tail);
            assert(entries[j].0.skip(head.len() as int) =~= text::decimal((j + 1) as nat)
                + seq!['.'] + tail);
            assert(entries[k].0.skip(head.len() as int) =~= text::decimal((k + 1) as nat)
                + seq!['.'] + tail);
        } else {
            assert(entries[k].0 == id + "-subjects.txt"@);
            assert(entries[j].0.last() == 'l');
            assert(entries[k].0.last() == 't');
        }
    }
}

fn subject_lines(file: &EmailHtmlFile, index: usize) -> (r: String)
    ensures
        r@ == subject_entry(*file, index as nat),
{
    let mut r = owned("Email ");
    r.append(decimal_of(index as u128 + 1).as_str());
    r.append("\nSubject: ");
    r.append(shown(&file.subject).as_str());
    r.append("\nPreheader: ");
    r.append(shown(&file.preheader).as_str());
    r.append("\n\n");
    r
}

fn shown(text: &Option<String>) -> (r: String)
    ensures
        r@ == text_or_nothing(*text),
{
    match text {
        Some(s) => owned(s.as_str()),
        None => String::new(),
    }
}

/// One zip with `{id}-email-{n}.html` per email, counted from 1, in order,
/// plus `{id}-subjects.txt` with the subject and preheader lines.
pub fn pack_email_html_files(id: &str, files: &[EmailHtmlFile]) -> (r: Result<Vec<u8>, String>)
    ensures
        archive::is_archive_of(r, email_files(id@, files@)),
{
    let mut list: Vec<NamedFile> = Vec::new();
    let mut subjects = String::new();
    let mut k: usize = 0;
    while k < files.len()
        invariant
            k <= files@.len(),
            k == list@.len(),
            subjects@ == subject_list(files@, k as int),
            forall|j: int|
                0 <= j < k ==> (#[trigger] list@[j]).name@ == email_name(id@, j as nat)
                    && list@[j].bytes@ == vstd::utf8::encode_utf8(files@[j].html@),
        decreases files@.len() - k,
    {
        let mut name = owned(id);
        name.append("-email-");
        name.append(decimal_of(k as u128 + 1).as_str());
        name.append(".html");
        list.push(NamedFile { name, bytes: text::bytes_of(files[k].html.as_str()) });
        subjects.append(subject_lines(&files[k], k).as_str());
        k += 1;
    }
    let mut name = owned(id);
    name.append("-subjects.txt");
    list.push(NamedFile { name, bytes: text::bytes_of(subjects.as_str()) });
    assert(archive::files_of(list@, true) =~= email_files(id@, files@));
    proof {
        lemma_email_names_differ(id@, files@);
    }
    pack(&list, true)
}

/// What a request for an email that the mailing does not have is answered.
pub open spec fn missing_email(id: Seq<char>, number: nat, count: nat) -> Seq<char> {
    "mailing `"@ + id + "` has no email "@ + text::decimal(number) + ": use 1 to "@ + text::decimal(
        count,
    )
}

/// The index of the email that a request names by its number, counted from
/// 1, or what the request is answered when the mailing has no such email.
pub fn email_index(id: &str, number: usize, count: usize) -> (r: Result<usize, String>)
    ensures
        match r {
            Ok(index) => 1 <= number <= count && index == number - 1,
            Err(message) => (number == 0 || number > count) && message@ == missing_email(
                id@,
                number as nat,
                count as nat,
            ),
        },
{
    if number == 0 || number > count {
        let mut message = owned("mailing `");
        message.append(id);
        message.append("` has no email ");
        message.append(decimal_of(number as u128).as_str());
        message.append(": use 1 to ");
        message.append(decimal_of(count as u128).as_str());
        return Err(message);
    }
    Ok(number - 1)
}

// -- Refusals ---------------------------------------------------------------

/// Why an export is refused.
#[derive(Debug)]
pub enum ExportRefusal {
    /// The id could not name a stored artifact.
    InvalidId,
    /// Nothing is stored under the id.
    NotFound,
    /// The store could not be read, and why.
    Unreadable(String),
    /// The stored artifact has these validation errors.
    Invalid(Vec<String>),
    /// The export needs Chrome, and there is none.
    NoChrome,
}

impl ExportRefusal {
    /// The HTTP status of the answer.
    pub open spec fn code(self) -> u16 {
        match self {
            ExportRefusal::InvalidId => 400,
            ExportRefusal::NotFound => 404,
            ExportRefusal::Unreadable(_) => 500,
            ExportRefusal::Invalid(_) => 422,
            ExportRefusal::NoChrome => 503,
        }
    }

    /// The HTTP status of the answer.
    pub fn status(&self) -> (r: u16)
        ensures
            r == self.code(),
    {
        match self {
            ExportRefusal::InvalidId => 400,
            ExportRefusal::NotFound => 404,
            ExportRefusal::Unreadable(_) => 500,
            ExportRefusal::Invalid(_) => 422,
            ExportRefusal::NoChrome => 503,
        }
    }
}

/// What an export is made from, or why it is refused.
pub open spec fn export_answer<A>(
    is_valid_id: bool,
    loaded: Result<Option<(A, Vec<String>)>, String>,
    lacks_chrome: bool,
) -> Result<A, ExportRefusal> {
    if !is_valid_id {
        Err(ExportRefusal::InvalidId)
    } else {
        match loaded {
            Err(error) => Err(ExportRefusal::Unreadable(error)),
            Ok(None) => Err(ExportRefusal::NotFound),
            Ok(Some((artifact, errors))) => if errors@.len() > 0 {
                Err(ExportRefusal::Invalid(errors))
            } else if lacks_chrome {
                Err(ExportRefusal::NoChrome)
            } else {
                Ok(artifact)
            },
        }
    }
}

/// The artifact to export: stored under a valid id, without a validation
/// error, and with Chrome at hand when the export needs it. `loaded` is what
/// the store holds under the id, with its validation errors.
pub fn export_source<A>(
    is_valid_id: bool,
    loaded: Result<Option<(A, Vec<String>)>, String>,
    needs_chrome: bool,
    has_chrome: bool,
) -> (r: Result<A, ExportRefusal>)
    ensures
        r == export_answer(is_valid_id, loaded, needs_chrome && !has_chrome),
{
    if !is_valid_id {
        return Err(ExportRefusal::InvalidId);
    }
    match loaded {
        Err(error) => Err(ExportRefusal::Unreadable(error)),
        Ok(None) => Err(ExportRefusal::NotFound),
        Ok(Some((artifact, errors))) => {
            if errors.len() > 0 {
                Err(ExportRefusal::Invalid(errors))
            } else if needs_chrome && !has_chrome {
                Err(ExportRefusal::NoChrome)
            } else {
                Ok(artifact)
            }
        },
    }
}

/// An export that needs no Chrome is never refused for the lack of it, and one
/// that needs it is, whatever is stored.
pub proof fn law_only_missing_chrome_is_unavailable<A>(
    is_valid_id: bool,
    loaded: Result<Option<(A, Vec<String>)>, String>,
    lacks_chrome: bool,
)
    ensures
        export_answer(is_valid_id, loaded, false) matches Err(refusal) ==> refusal.code() != 503,
        export_answer(is_valid_id, loaded, true) is Err,
        export_answer(is_valid_id, loaded, lacks_chrome) matches Err(refusal)
            && refusal.code() == 503 ==> lacks_chrome && export_answer(
            is_valid_id,
            loaded,
            false,
        ) is Ok,
{
}

/// The subject list tells of each email in order: the emails before one are
/// told before it, and its number, subject and preheader stand together.
pub proof fn law_subjects_stand_in_order(files: Seq<EmailHtmlFile>, k: int, n: int)
    requires
        0 <= k < n <= files.len(),
    ensures
        ({
            let before = subject_list(files, k);
            let told = "Email "@ + text::decimal((k + 1) as nat) + "\nSubject: "@ + text_or_nothing(
                files[k].subject,
            ) + "\nPreheader: "@ + text_or_nothing(files[k].preheader);
            text::starts_with(subject_list(files, n), before + told)
        }),
    decreases n,
{
    let before = subject_list(files, k);
    let told = "Email "@ + text::decimal((k + 1) as nat) + "\nSubject: "@ + text_or_nothing(
        files[k].subject,
    ) + "\nPreheader: "@ + text_or_nothing(files[k].preheader);
    let all = subject_list(files, n);
    let size = (before.len() + told.len()) as int;
    if k == n - 1 {
        assert(all == before + subject_entry(files[k], k as nat));
        assert(subject_entry(files[k], k as nat) =~= told + "\n\n"@);
        assert(all.subrange(0, size) =~= before + told);
    } else {
        law_subjects_stand_in_order(files, k, n - 1);
        let shorter = subject_list(files, n - 1);
        assert(all.subrange(0, size) =~= shorter.subrange(0, size));
    }
}

/// A `data:` URI names its type and carries its bytes: two files with the
/// same URI have the same bytes.
pub proof fn law_a_data_uri_carries_its_bytes(content_type: Seq<char>, a: Seq<u8>, b: Seq<u8>)
    ensures
        text::starts_with(data_uri_of(content_type, a), "data:"@ + content_type + ";base64,"@),
        data_uri_of(content_type, a) == data_uri_of(content_type, b) ==> a == b,
{
    let head = "data:"@ + content_type + ";base64,"@;
    let first = data_uri_of(content_type, a);
    let second = data_uri_of(content_type, b);
    assert(first.subrange(0, head.len() as int) =~= head);
    if first == second {
        assert(first.skip(head.len() as int) =~= encoding::base64_of(a));
        assert(second.skip(head.len() as int) =~= encoding::base64_of(b));
        encoding::law_base64_tells_bytes_apart(a, b);
    }
}

/// Where the first font URL stands when the text before it has none.
proof fn lemma_url_is_found(before: Seq<char>, rest: Seq<char>)
    requires
        text::find(before, FONT_URL_PREFIX@) is None,
    ensures
        text::find_from(before + FONT_URL_PREFIX@ + rest, FONT_URL_PREFIX@, 0) == Some(
            before.len() as int,
        ),
{
    reveal_strlit("url(https://fonts.gstatic.com/");
    let s = before + FONT_URL_PREFIX@ + rest;
    let place = before.len() as int;
    assert(s.subrange(place, place + 30) =~= FONT_URL_PREFIX@);
    assert(text::stands_at(s, FONT_URL_PREFIX@, place));
    text::lemma_find_from(s, FONT_URL_PREFIX@, 0);
    let j = text::find_from(s, FONT_URL_PREFIX@, 0)->0;
    if j < place {
        let found = s.subrange(j, j + 30);
        if j + 30 <= place {
            assert(before.subrange(j, j + 30) =~= found);
            assert(text::stands_at(before, FONT_URL_PREFIX@, j));
            text::lemma_find_from(before, FONT_URL_PREFIX@, 0);
        } else {
            assert(found[place - j] == s[place]);
            assert(s[place] == 'u');
        }
    }
}

/// No font URL stands behind a parenthesis and a text that has none.
proof fn lemma_no_url_behind(s: Seq<char>, end: int)
    requires
        0 <= end < s.len(),
        s[end] == ')',
        text::find(s.skip(end + 1), FONT_URL_PREFIX@) is None,
    ensures
        text::find_from(s, FONT_URL_PREFIX@, end) is None,
{
    reveal_strlit("url(https://fonts.gstatic.com/");
    let after = s.skip(end + 1);
    text::lemma_find_from(s, FONT_URL_PREFIX@, end);
    if let Some(j) = text::find_from(s, FONT_URL_PREFIX@, end) {
        assert(s.subrange(j, j + 30)[0] == s[j]);
        let k = j - end - 1;
        assert(after.subrange(k, k + 30) =~= s.subrange(j, j + 30));
        assert(text::stands_at(after, FONT_URL_PREFIX@, k));
        text::lemma_find_from(after, FONT_URL_PREFIX@, 0);
    }
}

/// A font file is put in place of its URL, with the text around it kept.
pub proof fn law_a_font_url_becomes_its_file(
    before: Seq<char>,
    path: Seq<char>,
    after: Seq<char>,
    fonts: Seq<Vec<u8>>,
)
    requires
        text::find(before, FONT_URL_PREFIX@) is None,
        !path.contains(')'),
        text::find(after, FONT_URL_PREFIX@) is None,
        fonts.len() > 0,
    ensures
        ({
            let s = before + FONT_URL_PREFIX@ + (path + ")"@ + after);
            &&& urls_from(s, 0) == seq!["https://fonts.gstatic.com/"@ + path]
            &&& inlined_from(s, 0, fonts, 0) == before + "url("@ + data_uri_of(
                "font/woff2"@,
                fonts[0]@,
            ) + ")"@ + after
        }),
{
    reveal_strlit("url(https://fonts.gstatic.com/");
    reveal_strlit("https://fonts.gstatic.com/");
    reveal_strlit("url(");
    reveal_strlit(")");
    let s = before + FONT_URL_PREFIX@ + (path + ")"@ + after);
    let place = before.len() as int;
    let start = place + 4;
    let end = place + 30 + path.len();
    lemma_url_is_found(before, path + ")"@ + after);
    assert(s[end] == ')');
    assert forall|k: int| start <= k < end implies s[k] != ')' by {
        if k < place + 30 {
            assert(s[k] == FONT_URL_PREFIX@[k - place]);
        } else {
            assert(s[k] == path[k - place - 30]);
        }
    }
    text::lemma_find_char_from(s, ')', start);
    assert(next_url(s, 0) == Some((start, end)));
    assert(s.skip(end + 1) =~= after);
    lemma_no_url_behind(s, end);
    assert(s.subrange(start, end) =~= "https://fonts.gstatic.com/"@ + path);
    assert(urls_from(s, end) == Seq::<Seq<char>>::empty());
    assert(urls_from(s, 0) =~= seq![s.subrange(start, end)]);
    let head = s.subrange(0, start);
    let tail = s.subrange(end, s.len() as int);
    assert(head =~= before + "url("@);
    assert(tail =~= ")"@ + after);
    lemma_font_uri(fonts[0]@);
    let encoded = encoding::base64_of(fonts[0]@);
    assert(inlined_from(s, end, fonts, 1) == tail);
    assert(inlined_from(s, 0, fonts, 0) == head + "data:font/woff2;base64,"@ + encoded + tail);
    assert(head + "data:font/woff2;base64,"@ + encoded + tail =~= before + "url("@ + (
    "data:font/woff2;base64,"@ + encoded) + ")"@ + after);
}

proof fn lemma_font_uri(bytes: Seq<u8>)
    ensures
        data_uri_of("font/woff2"@, bytes) == "data:font/woff2;base64,"@ + encoding::base64_of(bytes),
{
    reveal_strlit("data:");
    reveal_strlit("font/woff2");
    reveal_strlit(";base64,");
    reveal_strlit("data:font/woff2;base64,");
    assert("data:font/woff2;base64,"@ =~= "data:"@ + "font/woff2"@ + ";base64,"@);
}

proof fn lemma_nothing_replaced(s: Seq<char>, pattern: Seq<char>, with: Seq<char>)
    requires
        pattern.len() > 0,
        text::find(s, pattern) is None,
    ensures
        text::substituted(s, pattern, with) == s,
{
    assert(s.subrange(0, s.len() as int) =~= s);
}

/// The font link of a page becomes the stylesheet itself, with the page
/// around it kept.
pub proof fn law_a_font_link_becomes_its_stylesheet(
    before: Seq<char>,
    path: Seq<char>,
    tail: Seq<char>,
    after: Seq<char>,
    css: Seq<char>,
)
    requires
        text::find(before, FONT_LINK_PREFIX@) is None,
        !path.contains('"'),
        !tail.contains('>'),
        ({
            let page = before + "<style>\n"@ + css + "\n</style>"@ + after;
            &&& text::find(page, PRECONNECT_STYLES@) is None
            &&& text::find(page, PRECONNECT_FONTS@) is None
            &&& text::find(page, ONLINE_STYLES@) is None
            &&& text::find(page, ONLINE_FONTS@) is None
        }),
    ensures
        with_inline_fonts(
            before + FONT_LINK_PREFIX@ + (path + seq!['"'] + tail + seq!['>'] + after),
            css,
        ) == before + "<style>\n"@ + css + "\n</style>"@ + after,
{
    let rest = path + seq!['"'] + tail + seq!['>'] + after;
    let s = before + FONT_LINK_PREFIX@ + rest;
    let page = before + "<style>\n"@ + css + "\n</style>"@ + after;
    let start = before.len() as int;
    lemma_link_is_found(before, rest);
    let url_end = start + 58 + path.len();
    let close = url_end + 1 + tail.len();
    reveal_strlit("<link rel=\"stylesheet\" href=\"https://fonts.googleapis.com/");
    assert(s[url_end] == '"');
    assert forall|k: int| start + 29 <= k < url_end implies s[k] != '"' by {
        if k < start + 58 {
            assert(s[k] == FONT_LINK_PREFIX@[k - start]);
        } else {
            assert(s[k] == path[k - start - 58]);
        }
    }
    text::lemma_find_char_from(s, '"', start + 29);
    assert(text::find_char_from(s, '"', start + 29) == Some(url_end));
    assert(s[close] == '>');
    assert forall|k: int| url_end <= k < close implies s[k] != '>' by {
        if k > url_end {
            assert(s[k] == tail[k - url_end - 1]);
        }
    }
    text::lemma_find_char_from(s, '>', url_end);
    assert(text::find_char_from(s, '>', url_end) == Some(close));
    assert(s.take(start) =~= before);
    assert(s.skip(close + 1) =~= after);
    assert(offline(page) == page) by {
        lemma_offline_page(page);
    }
}

proof fn lemma_offline_page(page: Seq<char>)
    requires
        text::find(page, PRECONNECT_STYLES@) is None,
        text::find(page, PRECONNECT_FONTS@) is None,
        text::find(page, ONLINE_STYLES@) is None,
        text::find(page, ONLINE_FONTS@) is None,
    ensures
        offline(page) == page,
{
    assert(PRECONNECT_STYLES@.len() > 0) by {
        reveal_strlit("<link rel=\"preconnect\" href=\"https://fonts.googleapis.com\">\n");
    }
    assert(PRECONNECT_FONTS@.len() > 0) by {
        reveal_strlit("<link rel=\"preconnect\" href=\"https://fonts.gstatic.com\" crossorigin>\n");
    }
    assert(ONLINE_STYLES@.len() > 0) by {
        reveal_strlit("style-src 'unsafe-inline' https://fonts.googleapis.com;");
    }
    assert(ONLINE_FONTS@.len() > 0) by {
        reveal_strlit("font-src 'self' https://fonts.gstatic.com;");
    }
    lemma_nothing_replaced(page, PRECONNECT_STYLES@, Seq::empty());
    lemma_nothing_replaced(page, PRECONNECT_FONTS@, Seq::empty());
    lemma_nothing_replaced(page, ONLINE_STYLES@, OFFLINE_STYLES@);
    lemma_nothing_replaced(page, ONLINE_FONTS@, OFFLINE_FONTS@);
}

/// Where the first font link stands when the text before it has none.
proof fn lemma_link_is_found(before: Seq<char>, rest: Seq<char>)
    requires
        text::find(before, FONT_LINK_PREFIX@) is None,
    ensures
        text::find(before + FONT_LINK_PREFIX@ + rest, FONT_LINK_PREFIX@) == Some(
            before.len() as int,
        ),
        FONT_LINK_PREFIX@.len() == 58,
{
    reveal_strlit("<link rel=\"stylesheet\" href=\"https://fonts.googleapis.com/");
    let s = before + FONT_LINK_PREFIX@ + rest;
    let place = before.len() as int;
    assert(s.subrange(place, place + 58) =~= FONT_LINK_PREFIX@);
    assert(text::stands_at(s, FONT_LINK_PREFIX@, place));
    text::lemma_find_from(s, FONT_LINK_PREFIX@, 0);
    let j = text::find_from(s, FONT_LINK_PREFIX@, 0)->0;
    if j < place {
        let found = s.subrange(j, j + 58);
        if j + 58 <= place {
            assert(before.subrange(j, j + 58) =~= found);
            assert(text::stands_at(before, FONT_LINK_PREFIX@, j));
            text::lemma_find_from(before, FONT_LINK_PREFIX@, 0);
        } else {
            assert(found[place - j] == s[place]);
            assert(s[place] == '<');
        }
    }
}

} // verus!
