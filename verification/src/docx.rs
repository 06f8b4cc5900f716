//! The Word export: a flowing `.docx` from the blocks of a document.
//!
//! A Word file flows, so the page CSS is not carried: the theme's fonts and
//! colors go into the styles part, and the structure of the HTML decides
//! the rest.

use vstd::prelude::*;

use crate::archive;
use crate::archive::{pack, NamedFile};
use crate::blocks;
use crate::blocks::{Block, BlockModel, Run, RunModel};
use crate::image;
use crate::image::image_size;
use crate::markup;
use crate::markup::escape_xml;
use crate::model::{duplicate_list, Duplicate, Paper, Theme};
use crate::order;
use crate::text;
use crate::text::{chars_of, decimal_of, owned, part, text_of, trimmed};

verus! {

/// The content type of a `.docx` download.
pub const DOCX_CONTENT_TYPE: &'static str = "application/vnd.openxmlformats-officedocument.wordprocessingml.document";

/// EMU per twip (a twentieth of a point).
pub const EMU_PER_TWIP: i64 = 635;

/// EMU per CSS pixel at 96 dpi.
pub const EMU_PER_PIXEL: i64 = 9525;

/// The page margin on every side, in twips: one inch.
pub const PAGE_MARGIN_TWIPS: i64 = 1440;

/// The start of every XML part.
pub const XML_HEADER: &'static str = "<?xml version=\"1.0\" encoding=\"UTF-8\" standalone=\"yes\"?>\n";

// -- Sizes ------------------------------------------------------------------

/// The page size of `paper` in twips: (width, height).
pub open spec fn page_size(paper: Paper) -> (i64, i64) {
    match paper {
        Paper::A4 => (11906, 16838),
        Paper::Letter => (12240, 15840),
    }
}

/// The page size of `paper` in twips: (width, height).
pub fn page_size_twips(paper: Paper) -> (r: (i64, i64))
    ensures
        r == page_size(paper),
{
    match paper {
        Paper::A4 => (11906, 16838),
        Paper::Letter => (12240, 15840),
    }
}

/// The width in EMU of the text column of `paper`.
pub open spec fn column_emu(paper: Paper) -> int {
    (page_size(paper).0 - 2 * PAGE_MARGIN_TWIPS) * EMU_PER_TWIP
}

fn text_width_emu(paper: Paper) -> (r: i64)
    ensures
        r == column_emu(paper),
        0 < r < 10_000_000,
{
    (page_size_twips(paper).0 - 2 * PAGE_MARGIN_TWIPS) * EMU_PER_TWIP
}

/// The picture extent in EMU: the natural size at 96 dpi, shrunk to the text
/// column when wider. An image of unknown size takes the column at 4:3.
pub open spec fn extent_of(bytes: Seq<u8>, paper: Paper) -> (int, int) {
    let column = column_emu(paper);
    match image::size_of(bytes) {
        Some((width, height)) => if width > 0 && height > 0 {
            let natural = width * EMU_PER_PIXEL;
            let shown = if natural < column {
                natural
            } else {
                column
            };
            (shown, shown * height / width)
        } else {
            (column, column * 3 / 4)
        },
        None => (column, column * 3 / 4),
    }
}

/// The picture extent in EMU: the natural size at 96 dpi, shrunk to the text
/// column when wider.
pub fn picture_extent(bytes: &[u8], paper: Paper) -> (r: (i64, i64))
    ensures
        (r.0 as int, r.1 as int) == extent_of(bytes@, paper),
        0 < r.0 <= column_emu(paper),
        0 <= r.1,
{
    let column = text_width_emu(paper);
    match image_size(bytes) {
        Some((width, height)) => if width > 0 && height > 0 {
            let natural: i64 = width as i64 * EMU_PER_PIXEL;
            let shown: i64 = if natural < column {
                natural
            } else {
                column
            };
            assert(0 <= shown * height <= 10_000_000 * 0x1_0000_0000) by (nonlinear_arith)
                requires
                    0 <= shown <= 10_000_000,
                    0 <= height <= 0xffff_ffff,
            ;
            let area: i64 = shown * height as i64;
            assert(0 <= area / (width as i64)) by (nonlinear_arith)
                requires
                    area >= 0,
                    width > 0,
            ;
            (shown, area / width as i64)
        } else {
            (column, column * 3 / 4)
        },
        None => (column, column * 3 / 4),
    }
}

/// A picture never stands wider than the text column, and a picture of
/// known size keeps its proportions to the last EMU.
pub proof fn law_a_picture_fits_the_column(bytes: Seq<u8>, paper: Paper)
    ensures
        0 < extent_of(bytes, paper).0 <= column_emu(paper),
        image::size_of(bytes) matches Some((width, height)) ==> width > 0 && height > 0 ==> {
            let (shown, tall) = extent_of(bytes, paper);
            tall * width <= shown * height < (tall + 1) * width
        },
{
    if let Some((width, height)) = image::size_of(bytes) {
        if width > 0 && height > 0 {
            let (shown, tall) = extent_of(bytes, paper);
            let area = shown * height;
            assert(tall == area / width);
            assert((area / width) * width <= area && area < (area / width + 1) * width)
                by (nonlinear_arith)
                requires
                    width > 0,
            ;
        }
    }
}

// -- Runs -------------------------------------------------------------------

/// `RRGGBB` for a theme `#rrggbb` color.
pub open spec fn hex_color(color: Seq<char>) -> Seq<char> {
    upper(without_hashes(text::trim(color)))
}

/// `s` without the number signs it begins with.
pub open spec fn without_hashes(s: Seq<char>) -> Seq<char>
    decreases s.len(),
{
    if s.len() > 0 && s[0] == '#' {
        without_hashes(s.drop_first())
    } else {
        s
    }
}

/// `c` in upper case, where it is an ASCII letter.
pub open spec fn upper_char(c: char) -> char {
    if 'a' <= c <= 'z' {
        ((c as u32) - 32) as char
    } else {
        c
    }
}

/// `s` with its ASCII letters in upper case.
pub open spec fn upper(s: Seq<char>) -> Seq<char> {
    Seq::new(s.len(), |i: int| upper_char(s[i]))
}

/// `RRGGBB` for a theme `#rrggbb` color.
fn hex_of(color: &str) -> (r: String)
    ensures
        r@ == hex_color(color@),
{
    let chars = trimmed(&chars_of(color));
    let mut i: usize = 0;
    assert(chars@.skip(0) =~= chars@);
    while i < chars.len() && chars[i] == '#'
        invariant
            i <= chars@.len(),
            without_hashes(chars@) == without_hashes(chars@.skip(i as int)),
        decreases chars@.len() - i,
    {
        assert(chars@.skip(i as int).drop_first() =~= chars@.skip(i + 1));
        i += 1;
    }
    let ghost start = i as int;
    let ghost digits = chars@.skip(start);
    let mut r = String::new();
    while i < chars.len()
        invariant
            0 <= start <= i <= chars@.len(),
            digits == chars@.skip(start),
            r@ == upper(digits.take(i - start)),
        decreases chars@.len() - i,
    {
        let c = chars[i];
        assert(digits[i - start] == c);
        if 'a' <= c && c <= 'z' {
            r.push(((c as u8) - 32u8) as char);
        } else {
            r.push(c);
        }
        assert(r@ =~= upper(digits.take(i + 1 - start)));
        i += 1;
    }
    assert(digits.take(i - start) =~= digits);
    r
}

/// The properties element of a run: bold, italic, and the theme's mono font
/// for code. Empty for a plain run.
pub open spec fn properties_xml(run: RunModel, theme: Theme) -> Seq<char> {
    if !run.is_bold && !run.is_italic && !run.is_code {
        Seq::empty()
    } else {
        "<w:rPr>"@ + when(run.is_bold, "<w:b/>"@) + when(run.is_italic, "<w:i/>"@) + when(
            run.is_code,
            fonts_xml(markup::xml_escaped(theme.fonts.mono@)),
        ) + "</w:rPr>"@
    }
}

/// `s` when `wanted`, else nothing.
pub open spec fn when(wanted: bool, s: Seq<char>) -> Seq<char> {
    if wanted {
        s
    } else {
        Seq::empty()
    }
}

/// The fonts element for one family.
pub open spec fn fonts_xml(family: Seq<char>) -> Seq<char> {
    "<w:rFonts w:ascii=\""@ + family + "\" w:hAnsi=\""@ + family + "\" w:cs=\""@ + family
        + "\"/>"@
}

fn fonts_element(family: &str) -> (r: String)
    ensures
        r@ == fonts_xml(family@),
{
    let mut r = owned("<w:rFonts w:ascii=\"");
    r.append(family);
    r.append("\" w:hAnsi=\"");
    r.append(family);
    r.append("\" w:cs=\"");
    r.append(family);
    r.append("\"/>");
    r
}

/// `piece` when `wanted`, else nothing.
fn piece_when(wanted: bool, piece: &str) -> (r: String)
    ensures
        r@ == when(wanted, piece@),
{
    if wanted {
        owned(piece)
    } else {
        String::new()
    }
}

fn run_properties(run: &Run, theme: &Theme) -> (r: String)
    ensures
        r@ == properties_xml(run@, *theme),
{
    if !run.is_bold && !run.is_italic && !run.is_code {
        return String::new();
    }
    let mono = escape_xml(theme.fonts.mono.as_str());
    let mut r = owned("<w:rPr>");
    r.append(piece_when(run.is_bold, "<w:b/>").as_str());
    r.append(piece_when(run.is_italic, "<w:i/>").as_str());
    r.append(piece_when(run.is_code, fonts_element(mono.as_str()).as_str()).as_str());
    r.append("</w:rPr>");
    r
}

/// One line of a run. An empty line is nothing.
pub open spec fn line_xml(line: Seq<char>, properties: Seq<char>) -> Seq<char> {
    when(
        line.len() > 0,
        "<w:r>"@ + properties + "<w:t xml:space=\"preserve\">"@ + markup::xml_escaped(line)
            + "</w:t></w:r>"@,
    )
}

/// The first `k` lines of a run, with a line break between each two.
pub open spec fn lines_xml(lines: Seq<Seq<char>>, properties: Seq<char>, k: int) -> Seq<char>
    decreases k,
{
    if k <= 0 {
        Seq::empty()
    } else {
        lines_xml(lines, properties, k - 1) + when(k > 1, "<w:r><w:br/></w:r>"@) + line_xml(
            lines[k - 1],
            properties,
        )
    }
}

/// One run. A newline in it is a line break.
pub open spec fn run_xml(run: RunModel, theme: Theme) -> Seq<char> {
    let lines = text::pieces(run.text, '\n');
    lines_xml(lines, properties_xml(run, theme), lines.len() as int)
}

/// The first `k` runs.
pub open spec fn runs_text(runs: Seq<RunModel>, theme: Theme, k: int) -> Seq<char>
    decreases k,
{
    if k <= 0 {
        Seq::empty()
    } else {
        runs_text(runs, theme, k - 1) + run_xml(runs[k - 1], theme)
    }
}

fn line_element(line: &[char], properties: &str) -> (r: String)
    ensures
        r@ == line_xml(line@, properties@),
{
    if line.len() == 0 {
        return String::new();
    }
    let mut r = owned("<w:r>");
    r.append(properties);
    r.append("<w:t xml:space=\"preserve\">");
    r.append(escape_xml(text_of(line).as_str()).as_str());
    r.append("</w:t></w:r>");
    r
}

fn run_element(run: &Run, theme: &Theme) -> (xml: String)
    ensures
        xml@ == run_xml(run@, *theme),
{
    let properties = run_properties(run, theme);
    let lines = text::pieces_of(&chars_of(run.text.as_str()), '\n');
    let ghost all = text::texts(lines@);
    let mut xml = String::new();
    let mut k: usize = 0;
    while k < lines.len()
        invariant
            k <= lines@.len(),
            all == text::texts(lines@),
            properties@ == properties_xml(run@, *theme),
            xml@ == lines_xml(all, properties@, k as int),
        decreases lines@.len() - k,
    {
        assert(all[k as int] == lines@[k as int]@);
        xml.append(piece_when(k > 0, "<w:r><w:br/></w:r>").as_str());
        xml.append(line_element(&lines[k], properties.as_str()).as_str());
        k += 1;
    }
    xml
}

/// The `w:r` elements for `runs`. A newline in a run is a line break.
pub fn runs_xml(runs: &[Run], theme: &Theme) -> (xml: String)
    ensures
        xml@ == runs_text(blocks::runs_of(runs@), *theme, runs@.len() as int),
{
    let ghost all = blocks::runs_of(runs@);
    let mut xml = String::new();
    let mut k: usize = 0;
    while k < runs.len()
        invariant
            k <= runs@.len(),
            all == blocks::runs_of(runs@),
            xml@ == runs_text(all, *theme, k as int),
        decreases runs@.len() - k,
    {
        assert(all[k as int] == runs@[k as int]@);
        xml.append(run_element(&runs[k], theme).as_str());
        k += 1;
    }
    xml
}

// -- What runs give ---------------------------------------------------------

/// The element of one line break.
pub const LINE_BREAK: &'static str = "<w:br/>";

/// How many line breaks are in a text of XML.
pub open spec fn line_breaks(xml: Seq<char>) -> nat {
    text::occurrences(xml, LINE_BREAK@)
}

/// True when no element reaches over the end of `a` into `b`.
spec fn is_seam(a: Seq<char>, b: Seq<char>) -> bool {
    a.len() == 0 || b.len() == 0 || a.last() == '>' || b.first() == '<'
}

proof fn lemma_breaks_of_joined(a: Seq<char>, b: Seq<char>)
    requires
        is_seam(a, b),
    ensures
        line_breaks(a + b) == line_breaks(a) + line_breaks(b),
    decreases a.len(),
{
    reveal_strlit("<w:br/>");
    let pattern = LINE_BREAK@;
    let joined = a + b;
    if a.len() == 0 {
        assert(joined =~= b);
    } else if b.len() == 0 {
        assert(joined =~= a);
    } else {
        assert(joined.drop_first() =~= a.drop_first() + b);
        lemma_breaks_of_joined(a.drop_first(), b);
        if a.len() >= 7 {
            assert(joined.subrange(0, 7) =~= a.subrange(0, 7));
        } else if text::stands_at(joined, pattern, 0) {
            let found = joined.subrange(0, 7);
            assert(found[a.len() - 1] == a.last());
            assert(found[a.len() as int] == b.first());
            assert(false);
        }
        assert(text::stands_at(joined, pattern, 0) == text::stands_at(a, pattern, 0));
    }
}

/// A text without a tag has no line break.
proof fn lemma_no_tag_no_break(s: Seq<char>)
    requires
        !s.contains('<'),
    ensures
        line_breaks(s) == 0,
    decreases s.len(),
{
    reveal_strlit("<w:br/>");
    if s.len() > 0 {
        if text::stands_at(s, LINE_BREAK@, 0) {
            assert(s.subrange(0, 7)[0] == s[0]);
            assert(s.contains(s[0]));
        }
        assert forall|k: int| 0 <= k < s.drop_first().len() implies s.drop_first()[k] != '<' by {
            assert(s[k + 1] == s.drop_first()[k]);
        }
        lemma_no_tag_no_break(s.drop_first());
    }
}

/// A single tag that is no line break holds none.
proof fn lemma_other_tag(s: Seq<char>)
    requires
        s.len() > 5,
        s[3] != 'b' || s[4] != 'r',
        !s.drop_first().contains('<'),
    ensures
        line_breaks(s) == 0,
{
    reveal_strlit("<w:br/>");
    lemma_no_tag_no_break(s.drop_first());
    if text::stands_at(s, LINE_BREAK@, 0) {
        assert(s.subrange(0, 7)[3] == s[3]);
        assert(s.subrange(0, 7)[4] == s[4]);
    }
}

proof fn lemma_fixed_tags()
    ensures
        line_breaks("<w:r>"@) == 0,
        line_breaks("<w:rPr>"@) == 0,
        line_breaks("</w:rPr>"@) == 0,
        line_breaks("<w:b/>"@) == 0,
        line_breaks("<w:i/>"@) == 0,
        line_breaks("<w:t xml:space=\"preserve\">"@) == 0,
        line_breaks("</w:t></w:r>"@) == 0,
        line_breaks("<w:r><w:br/></w:r>"@) == 1,
{
    reveal_strlit("<w:br/>");
    reveal_strlit("<w:r>");
    reveal_strlit("<w:rPr>");
    reveal_strlit("</w:rPr>");
    reveal_strlit("<w:b/>");
    reveal_strlit("<w:i/>");
    reveal_strlit("<w:t xml:space=\"preserve\">");
    reveal_strlit("</w:t></w:r>");
    reveal_strlit("<w:r><w:br/></w:r>");
    reveal_strlit("</w:t>");
    reveal_strlit("</w:r>");
    lemma_no_tag_no_break("<w:r>"@.drop_first());
    lemma_other_tag("<w:rPr>"@);
    lemma_other_tag("</w:rPr>"@);
    lemma_other_tag("<w:b/>"@);
    lemma_other_tag("<w:i/>"@);
    lemma_other_tag("<w:t xml:space=\"preserve\">"@);
    lemma_other_tag("</w:t>"@);
    lemma_other_tag("</w:r>"@);
    assert("</w:t></w:r>"@ =~= "</w:t>"@ + "</w:r>"@);
    lemma_breaks_of_joined("</w:t>"@, "</w:r>"@);
    let tail = LINE_BREAK@ + "</w:r>"@;
    assert("<w:r><w:br/></w:r>"@ =~= "<w:r>"@ + tail);
    lemma_breaks_of_joined("<w:r>"@, tail);
    lemma_breaks_of_joined(LINE_BREAK@, "</w:r>"@);
    lemma_no_tag_no_break(LINE_BREAK@.drop_first());
    assert(LINE_BREAK@.subrange(0, 7) =~= LINE_BREAK@);
    assert(text::stands_at(LINE_BREAK@, LINE_BREAK@, 0));
}

/// The properties of a run hold no line break, and are tags.
proof fn lemma_properties_hold_no_break(run: RunModel, theme: Theme)
    ensures
        line_breaks(properties_xml(run, theme)) == 0,
        properties_xml(run, theme).len() > 0 ==> properties_xml(run, theme).first() == '<'
            && properties_xml(run, theme).last() == '>',
{
    reveal_strlit("<w:rPr>");
    reveal_strlit("</w:rPr>");
    reveal_strlit("<w:b/>");
    reveal_strlit("<w:i/>");
    reveal_strlit("<w:rFonts w:ascii=\"");
    reveal_strlit("\" w:hAnsi=\"");
    reveal_strlit("\" w:cs=\"");
    reveal_strlit("\"/>");
    lemma_fixed_tags();
    let family = markup::xml_escaped(theme.fonts.mono@);
    markup::law_escaped_text_is_inert(theme.fonts.mono@);
    let fonts = fonts_xml(family);
    assert(fonts.first() == '<');
    assert(fonts.last() == '>');
    assert forall|k: int| 0 <= k < fonts.drop_first().len() implies fonts.drop_first()[k] != '<' by {
        let n = family.len() as int;
        let i = k + 1;
        assert(fonts[i] == fonts.drop_first()[k]);
        if 19 <= i < 19 + n {
            assert(fonts[i] == family[i - 19]);
        } else if 30 + n <= i < 30 + 2 * n {
            assert(fonts[i] == family[i - 30 - n]);
        } else if 38 + 2 * n <= i < 38 + 3 * n {
            assert(fonts[i] == family[i - 38 - 2 * n]);
        }
    }
    lemma_other_tag(fonts);
    let bold = when(run.is_bold, "<w:b/>"@);
    let italic = when(run.is_italic, "<w:i/>"@);
    let code = when(run.is_code, fonts);
    lemma_breaks_of_joined("<w:rPr>"@, bold);
    lemma_breaks_of_joined("<w:rPr>"@ + bold, italic);
    lemma_breaks_of_joined("<w:rPr>"@ + bold + italic, code);
    lemma_breaks_of_joined("<w:rPr>"@ + bold + italic + code, "</w:rPr>"@);
}

/// A line holds no line break. It is nothing, or it begins and ends with a
/// tag.
proof fn lemma_line_holds_no_break(line: Seq<char>, run: RunModel, theme: Theme)
    ensures
        ({
            let xml = line_xml(line, properties_xml(run, theme));
            line_breaks(xml) == 0 && (xml.len() > 0 ==> xml.first() == '<' && xml.last() == '>')
        }),
{
    let properties = properties_xml(run, theme);
    let escaped = markup::xml_escaped(line);
    reveal_strlit("<w:r>");
    reveal_strlit("<w:t xml:space=\"preserve\">");
    reveal_strlit("</w:t></w:r>");
    lemma_fixed_tags();
    lemma_properties_hold_no_break(run, theme);
    markup::law_escaped_text_is_inert(line);
    lemma_no_tag_no_break(escaped);
    lemma_breaks_of_joined("<w:r>"@, properties);
    lemma_breaks_of_joined("<w:r>"@ + properties, "<w:t xml:space=\"preserve\">"@);
    let opened = "<w:r>"@ + properties + "<w:t xml:space=\"preserve\">"@;
    lemma_breaks_of_joined(opened, escaped);
    lemma_breaks_of_joined(opened + escaped, "</w:t></w:r>"@);
}

proof fn lemma_breaks_of_lines(lines: Seq<Seq<char>>, run: RunModel, theme: Theme, k: int)
    requires
        0 <= k <= lines.len(),
    ensures
        ({
            let xml = lines_xml(lines, properties_xml(run, theme), k);
            &&& line_breaks(xml) == if k > 0 {
                k - 1
            } else {
                0
            }
            &&& xml.len() > 0 ==> xml.first() == '<' && xml.last() == '>'
        }),
    decreases k,
{
    if k > 0 {
        let properties = properties_xml(run, theme);
        let before = lines_xml(lines, properties, k - 1);
        let cut = when(k > 1, "<w:r><w:br/></w:r>"@);
        reveal_strlit("<w:r><w:br/></w:r>");
        lemma_fixed_tags();
        lemma_breaks_of_lines(lines, run, theme, k - 1);
        lemma_line_holds_no_break(lines[k - 1], run, theme);
        lemma_breaks_of_joined(before, cut);
        lemma_breaks_of_joined(before + cut, line_xml(lines[k - 1], properties));
    }
}

proof fn lemma_runs_text_of_prefix(a: Seq<RunModel>, b: Seq<RunModel>, theme: Theme, k: int)
    requires
        0 <= k <= a.len(),
    ensures
        runs_text(a + b, theme, k) == runs_text(a, theme, k),
    decreases k,
{
    if k > 0 {
        lemma_runs_text_of_prefix(a, b, theme, k - 1);
        assert((a + b)[k - 1] == a[k - 1]);
    }
}

/// The elements of two lists of runs are the elements of the one behind the
/// elements of the other. No runs give no element.
pub proof fn law_runs_follow_each_other(a: Seq<RunModel>, b: Seq<RunModel>, theme: Theme)
    ensures
        runs_text(a + b, theme, (a + b).len() as int) == runs_text(a, theme, a.len() as int)
            + runs_text(b, theme, b.len() as int),
        runs_text(Seq::empty(), theme, 0) == Seq::<char>::empty(),
    decreases b.len(),
{
    let first = runs_text(a, theme, a.len() as int);
    if b.len() == 0 {
        assert(a + b =~= a);
        assert(first + Seq::<char>::empty() =~= first);
    } else {
        let rest = b.drop_last();
        let tail = seq![b.last()];
        let all = a + b;
        law_runs_follow_each_other(a, rest, theme);
        lemma_runs_text_of_prefix(a + rest, tail, theme, (a + rest).len() as int);
        lemma_runs_text_of_prefix(rest, tail, theme, rest.len() as int);
        assert((a + rest) + tail =~= all);
        assert(rest + tail =~= b);
        assert(all[all.len() - 1] == b.last());
        assert(first + (runs_text(rest, theme, rest.len() as int) + run_xml(b.last(), theme))
            =~= (first + runs_text(rest, theme, rest.len() as int)) + run_xml(b.last(), theme));
    }
}

proof fn lemma_breaks_of_runs(runs: Seq<RunModel>, theme: Theme)
    ensures
        ({
            let xml = runs_text(runs, theme, runs.len() as int);
            &&& line_breaks(xml) == text::count_char(blocks::plain_text(runs), '\n')
            &&& xml.len() > 0 ==> xml.first() == '<' && xml.last() == '>'
        }),
    decreases runs.len(),
{
    if runs.len() > 0 {
        let rest = runs.drop_last();
        let last = runs.last();
        let lines = text::pieces(last.text, '\n');
        lemma_breaks_of_runs(rest, theme);
        lemma_runs_text_of_prefix(rest, seq![last], theme, rest.len() as int);
        assert(rest + seq![last] =~= runs);
        lemma_breaks_of_lines(lines, last, theme, lines.len() as int);
        text::lemma_pieces_count(last.text, '\n', 0);
        assert(last.text.skip(0) =~= last.text);
        text::lemma_count_of_joined(blocks::plain_text(rest), last.text, '\n');
        lemma_breaks_of_joined(
            runs_text(rest, theme, rest.len() as int),
            run_xml(last, theme),
        );
    }
}

/// The elements of runs hold one line break for each newline in their text.
pub proof fn law_each_newline_is_a_line_break(runs: Seq<RunModel>, theme: Theme)
    ensures
        line_breaks(runs_text(runs, theme, runs.len() as int)) == text::count_char(
            blocks::plain_text(runs),
            '\n',
        ),
{
    lemma_breaks_of_runs(runs, theme);
}

// -- Blocks -----------------------------------------------------------------

/// A paragraph with a style, a left and a hanging indent, and its runs.
pub open spec fn paragraph_text(
    style: Seq<char>,
    indent: Option<(int, int)>,
    runs: Seq<char>,
) -> Seq<char> {
    "<w:p><w:pPr><w:pStyle w:val=\""@ + style + "\"/>"@ + indent_text(indent) + "</w:pPr>"@ + runs
        + "</w:p>"@
}

/// The indent element, when there is an indent.
pub open spec fn indent_text(indent: Option<(int, int)>) -> Seq<char> {
    match indent {
        Some((left, hanging)) => "<w:ind w:left=\""@ + text::decimal(left as nat)
            + "\" w:hanging=\""@ + text::decimal(hanging as nat) + "\"/>"@,
        None => Seq::empty(),
    }
}

/// The indent of a list item or a quote, in twips: half an inch.
pub const INDENT_TWIPS: u32 = 720;

/// How far the marker of a list item hangs, in twips.
pub const HANGING_TWIPS: u32 = 360;

spec fn indent_of(indent: Option<(u32, u32)>) -> Option<(int, int)> {
    match indent {
        Some((left, hanging)) => Some((left as int, hanging as int)),
        None => None,
    }
}

fn indent_xml(indent: Option<(u32, u32)>) -> (r: String)
    ensures
        r@ == indent_text(indent_of(indent)),
{
    match indent {
        Some((left, hanging)) => {
            let mut r = owned("<w:ind w:left=\"");
            r.append(decimal_of(left as u128).as_str());
            r.append("\" w:hanging=\"");
            r.append(decimal_of(hanging as u128).as_str());
            r.append("\"/>");
            r
        },
        None => String::new(),
    }
}

/// A paragraph with `style` and an optional indent.
fn paragraph_xml(style: &str, indent: Option<(u32, u32)>, runs: &str) -> (r: String)
    ensures
        r@ == paragraph_text(style@, indent_of(indent), runs@),
{
    let mut r = owned("<w:p><w:pPr><w:pStyle w:val=\"");
    r.append(style);
    r.append("\"/>");
    r.append(indent_xml(indent).as_str());
    r.append("</w:pPr>");
    r.append(runs);
    r.append("</w:p>");
    r
}

/// One image file that goes into the package as an inline picture.
#[derive(Debug, PartialEq, Eq)]
pub struct Picture {
    /// The `src` the blocks name it by.
    pub src: String,
    /// File extension without the dot: `png`, `jpg`, `jpeg`, or `gif`.
    pub extension: String,
    /// The image bytes.
    pub bytes: Vec<u8>,
}

/// The picture paragraph, embedded through a relationship.
pub open spec fn picture_text(
    relationship: Seq<char>,
    id: nat,
    picture: Picture,
    paper: Paper,
) -> Seq<char> {
    let (width, height) = extent_of(picture.bytes@, paper);
    let name = markup::xml_escaped(picture.src@);
    let size = size_text(width as nat, height as nat);
    "<w:p><w:r><w:drawing><wp:inline distT=\"0\" distB=\"0\" distL=\"0\" distR=\"0\"><wp:extent"@
        + size + "/><wp:docPr id=\""@ + text::decimal(id) + "\" name=\""@ + name
        + "\"/><a:graphic><a:graphicData uri=\"http://schemas.openxmlformats.org/drawingml/2006/picture\"><pic:pic><pic:nvPicPr><pic:cNvPr id=\"0\" name=\""@
        + name + "\"/><pic:cNvPicPr/></pic:nvPicPr><pic:blipFill><a:blip r:embed=\""@ + relationship
        + "\"/><a:stretch><a:fillRect/></a:stretch></pic:blipFill><pic:spPr><a:xfrm><a:off x=\"0\" y=\"0\"/><a:ext"@
        + size
        + "/></a:xfrm><a:prstGeom prst=\"rect\"><a:avLst/></a:prstGeom></pic:spPr></pic:pic></a:graphicData></a:graphic></wp:inline></w:drawing></w:r></w:p>"@
}

/// The size attributes of a picture.
pub open spec fn size_text(width: nat, height: nat) -> Seq<char> {
    " cx=\""@ + text::decimal(width) + "\" cy=\""@ + text::decimal(height) + "\""@
}

/// The picture paragraph for `picture`, embedded through `relationship`.
pub fn picture_xml(relationship: &str, id: u128, picture: &Picture, paper: Paper) -> (r: String)
    ensures
        r@ == picture_text(relationship@, id as nat, *picture, paper),
{
    let (width, height) = picture_extent(picture.bytes.as_slice(), paper);
    let name = escape_xml(picture.src.as_str());
    let mut size = owned(" cx=\"");
    size.append(decimal_of(width as u128).as_str());
    size.append("\" cy=\"");
    size.append(decimal_of(height as u128).as_str());
    size.append("\"");
    let mut r = owned(
        "<w:p><w:r><w:drawing><wp:inline distT=\"0\" distB=\"0\" distL=\"0\" distR=\"0\"><wp:extent",
    );
    r.append(size.as_str());
    r.append("/><wp:docPr id=\"");
    r.append(decimal_of(id).as_str());
    r.append("\" name=\"");
    r.append(name.as_str());
    r.append(
        "\"/><a:graphic><a:graphicData uri=\"http://schemas.openxmlformats.org/drawingml/2006/picture\"><pic:pic><pic:nvPicPr><pic:cNvPr id=\"0\" name=\"",
    );
    r.append(name.as_str());
    r.append("\"/><pic:cNvPicPr/></pic:nvPicPr><pic:blipFill><a:blip r:embed=\"");
    r.append(relationship);
    r.append(
        "\"/><a:stretch><a:fillRect/></a:stretch></pic:blipFill><pic:spPr><a:xfrm><a:off x=\"0\" y=\"0\"/><a:ext",
    );
    r.append(size.as_str());
    r.append(
        "/></a:xfrm><a:prstGeom prst=\"rect\"><a:avLst/></a:prstGeom></pic:spPr></pic:pic></a:graphicData></a:graphic></wp:inline></w:drawing></w:r></w:p>",
    );
    r
}

// -- Tables -----------------------------------------------------------------

/// The start of a table: its borders and its cell margins.
pub const TABLE_OPEN: &'static str = "<w:tbl><w:tblPr><w:tblW w:w=\"0\" w:type=\"auto\"/><w:tblBorders><w:top w:val=\"single\" w:sz=\"4\" w:space=\"0\" w:color=\"BBBBBB\"/><w:left w:val=\"single\" w:sz=\"4\" w:space=\"0\" w:color=\"BBBBBB\"/><w:bottom w:val=\"single\" w:sz=\"4\" w:space=\"0\" w:color=\"BBBBBB\"/><w:right w:val=\"single\" w:sz=\"4\" w:space=\"0\" w:color=\"BBBBBB\"/><w:insideH w:val=\"single\" w:sz=\"4\" w:space=\"0\" w:color=\"BBBBBB\"/><w:insideV w:val=\"single\" w:sz=\"4\" w:space=\"0\" w:color=\"BBBBBB\"/></w:tblBorders><w:tblCellMar><w:left w:w=\"108\" w:type=\"dxa\"/><w:right w:w=\"108\" w:type=\"dxa\"/></w:tblCellMar></w:tblPr>";

/// The runs, all bold when `bold`.
pub open spec fn emboldened(runs: Seq<RunModel>, bold: bool) -> Seq<RunModel> {
    runs.map_values(|run: RunModel| RunModel { is_bold: run.is_bold || bold, ..run })
}

/// The runs, all italic.
pub open spec fn italicized(runs: Seq<RunModel>) -> Seq<RunModel> {
    runs.map_values(|run: RunModel| RunModel { is_italic: true, ..run })
}

fn styled_runs(runs: &Vec<Run>, bold: bool, italic: bool) -> (r: Vec<Run>)
    ensures
        r@.len() == runs@.len(),
        forall|k: int|
            0 <= k < r@.len() ==> (#[trigger] r@[k])@ == (RunModel {
                is_bold: runs@[k].is_bold || bold,
                is_italic: runs@[k].is_italic || italic,
                ..runs@[k]@
            }),
{
    let mut r: Vec<Run> = Vec::new();
    let mut k: usize = 0;
    while k < runs.len()
        invariant
            k <= runs@.len(),
            k == r@.len(),
            forall|j: int|
                0 <= j < k ==> (#[trigger] r@[j])@ == (RunModel {
                    is_bold: runs@[j].is_bold || bold,
                    is_italic: runs@[j].is_italic || italic,
                    ..runs@[j]@
                }),
        decreases runs@.len() - k,
    {
        let mut run = runs[k].duplicate();
        run.is_bold = run.is_bold || bold;
        run.is_italic = run.is_italic || italic;
        r.push(run);
        k += 1;
    }
    r
}

/// One table cell.
pub open spec fn cell_text(cell: Seq<RunModel>, is_header: bool, theme: Theme) -> Seq<char> {
    "<w:tc><w:tcPr/><w:p>"@ + runs_text(emboldened(cell, is_header), theme, cell.len() as int)
        + "</w:p></w:tc>"@
}

/// The first `k` cells of a row.
pub open spec fn cells_text(
    row: Seq<Seq<RunModel>>,
    is_header: bool,
    theme: Theme,
    k: int,
) -> Seq<char>
    decreases k,
{
    if k <= 0 {
        Seq::empty()
    } else {
        cells_text(row, is_header, theme, k - 1) + cell_text(row[k - 1], is_header, theme)
    }
}

/// The first `k` rows of a table. The first row is bold when it is a header.
pub open spec fn rows_text(
    rows: Seq<Seq<Seq<RunModel>>>,
    has_header: bool,
    theme: Theme,
    k: int,
) -> Seq<char>
    decreases k,
{
    if k <= 0 {
        Seq::empty()
    } else {
        let row = rows[k - 1];
        rows_text(rows, has_header, theme, k - 1) + ("<w:tr>"@ + cells_text(
            row,
            has_header && k == 1,
            theme,
            row.len() as int,
        ) + "</w:tr>"@)
    }
}

/// A table, and the empty paragraph that must follow it.
pub open spec fn table_text(
    rows: Seq<Seq<Seq<RunModel>>>,
    has_header: bool,
    theme: Theme,
) -> Seq<char> {
    TABLE_OPEN@ + rows_text(rows, has_header, theme, rows.len() as int) + "</w:tbl><w:p/>"@
}

fn cell_xml(cell: &Vec<Run>, is_header: bool, theme: &Theme) -> (r: String)
    ensures
        r@ == cell_text(blocks::runs_of(cell@), is_header, *theme),
{
    let bold = styled_runs(cell, is_header, false);
    assert(blocks::runs_of(bold@) =~= emboldened(blocks::runs_of(cell@), is_header));
    let mut r = owned("<w:tc><w:tcPr/><w:p>");
    r.append(runs_xml(bold.as_slice(), theme).as_str());
    r.append("</w:p></w:tc>");
    r
}

fn row_xml(row: &Vec<Vec<Run>>, is_header: bool, theme: &Theme) -> (r: String)
    ensures
        r@ == "<w:tr>"@ + cells_text(
            blocks::cells_of(row@),
            is_header,
            *theme,
            row@.len() as int,
        ) + "</w:tr>"@,
{
    let ghost all = blocks::cells_of(row@);
    let mut cells = String::new();
    let mut k: usize = 0;
    while k < row.len()
        invariant
            k <= row@.len(),
            all == blocks::cells_of(row@),
            cells@ == cells_text(all, is_header, *theme, k as int),
        decreases row@.len() - k,
    {
        assert(all[k as int] == blocks::runs_of(row@[k as int]@));
        cells.append(cell_xml(&row[k], is_header, theme).as_str());
        k += 1;
    }
    let mut r = owned("<w:tr>");
    r.append(cells.as_str());
    r.append("</w:tr>");
    r
}

/// The table element for `rows`. A table must be followed by a paragraph, so
/// one empty paragraph is appended.
pub fn table_xml(has_header: bool, rows: &[Vec<Vec<Run>>], theme: &Theme) -> (r: String)
    ensures
        r@ == table_text(blocks::rows_of(rows@), has_header, *theme),
{
    let ghost all = blocks::rows_of(rows@);
    let mut body = String::new();
    let mut k: usize = 0;
    while k < rows.len()
        invariant
            k <= rows@.len(),
            all == blocks::rows_of(rows@),
            body@ == rows_text(all, has_header, *theme, k as int),
        decreases rows@.len() - k,
    {
        assert(all[k as int] == blocks::cells_of(rows@[k as int]@));
        body.append(row_xml(&rows[k], has_header && k == 0, theme).as_str());
        k += 1;
    }
    let mut r = owned(TABLE_OPEN);
    r.append(body.as_str());
    r.append("</w:tbl><w:p/>");
    r
}

// -- The body ---------------------------------------------------------------

/// The page break paragraph.
pub const PAGE_BREAK: &'static str = "<w:p><w:r><w:br w:type=\"page\"/></w:r></w:p>";

/// The position of the first picture with this `src`, at or after `k`.
pub open spec fn picture_at(pictures: Seq<Picture>, src: Seq<char>, k: int) -> Option<int>
    decreases pictures.len() - k,
{
    if !(0 <= k < pictures.len()) {
        None
    } else if pictures[k].src@ == src {
        Some(k)
    } else {
        picture_at(pictures, src, k + 1)
    }
}

fn find_picture(pictures: &Vec<Picture>, src: &str) -> (r: Option<usize>)
    ensures
        text::position(r) == picture_at(pictures@, src@, 0),
        r matches Some(k) ==> k < pictures@.len(),
{
    let mut k: usize = 0;
    while k < pictures.len()
        invariant
            k <= pictures@.len(),
            picture_at(pictures@, src@, 0) == picture_at(pictures@, src@, k as int),
        decreases pictures@.len() - k,
    {
        if *pictures[k].src.as_str() == *src {
            return Some(k);
        }
        k += 1;
    }
    None
}

/// The relationship id of the picture at `index`. The first id is the styles
/// part's.
pub open spec fn relationship_id(index: nat) -> Seq<char> {
    "rId"@ + text::decimal(index + 2)
}

fn picture_relationship(index: usize) -> (r: String)
    ensures
        r@ == relationship_id(index as nat),
{
    let mut r = owned("rId");
    r.append(decimal_of(index as u128 + 2).as_str());
    r
}

/// The marker before a list item: its number, or a bullet.
pub open spec fn marker_text(number: Option<int>) -> Seq<char> {
    match number {
        Some(n) => text::decimal(n as nat) + ".\t"@,
        None => "•\t"@,
    }
}

/// One block of the body. An image without a picture is left out.
pub open spec fn block_text(
    block: BlockModel,
    pictures: Seq<Picture>,
    theme: Theme,
    paper: Paper,
) -> Seq<char> {
    match block {
        BlockModel::Heading(level, runs) => paragraph_text(
            "Heading"@ + text::decimal(level as nat),
            None,
            runs_text(runs, theme, runs.len() as int),
        ),
        BlockModel::Paragraph(runs) => paragraph_text(
            "Normal"@,
            None,
            runs_text(runs, theme, runs.len() as int),
        ),
        BlockModel::ListItem(number, runs) => {
            let listed = seq![blocks::plain_run(marker_text(number))] + runs;
            paragraph_text(
                "ListParagraph"@,
                Some((INDENT_TWIPS as int, HANGING_TWIPS as int)),
                runs_text(listed, theme, listed.len() as int),
            )
        },
        BlockModel::Quote(runs) => paragraph_text(
            "Quote"@,
            Some((INDENT_TWIPS as int, 0int)),
            runs_text(italicized(runs), theme, runs.len() as int),
        ),
        BlockModel::Code(code) => {
            let run = RunModel { is_code: true, ..blocks::plain_run(code) };
            paragraph_text("Code"@, None, runs_text(seq![run], theme, 1))
        },
        BlockModel::Table(has_header, rows) => table_text(rows, has_header, theme),
        BlockModel::Image(src) => match picture_at(pictures, src, 0) {
            Some(index) => picture_text(
                relationship_id(index as nat),
                (index + 1) as nat,
                pictures[index],
                paper,
            ),
            None => Seq::empty(),
        },
        BlockModel::PageBreak => PAGE_BREAK@,
    }
}

/// The first `k` blocks of the body.
pub open spec fn blocks_text(
    list: Seq<BlockModel>,
    pictures: Seq<Picture>,
    theme: Theme,
    paper: Paper,
    k: int,
) -> Seq<char>
    decreases k,
{
    if k <= 0 {
        Seq::empty()
    } else {
        blocks_text(list, pictures, theme, paper, k - 1) + block_text(
            list[k - 1],
            pictures,
            theme,
            paper,
        )
    }
}

fn list_item_xml(number: Option<usize>, runs: &Vec<Run>, theme: &Theme) -> (r: String)
    ensures
        r@ == block_text(
            BlockModel::ListItem(blocks::number_of(number), blocks::runs_of(runs@)),
            Seq::empty(),
            *theme,
            Paper::A4,
        ),
{
    let marker = match number {
        Some(n) => {
            let mut m = decimal_of(n as u128);
            m.append(".\t");
            m
        },
        None => owned("•\t"),
    };
    let mut listed: Vec<Run> = Vec::new();
    listed.push(Run { text: marker, is_bold: false, is_italic: false, is_code: false });
    let mut rest = duplicate_list(runs.as_slice());
    listed.append(&mut rest);
    assert(blocks::runs_of(listed@) =~= seq![
        blocks::plain_run(marker_text(blocks::number_of(number))),
    ] + blocks::runs_of(runs@));
    let xml = runs_xml(listed.as_slice(), theme);
    paragraph_xml("ListParagraph", Some((INDENT_TWIPS, HANGING_TWIPS)), xml.as_str())
}

fn block_xml(block: &Block, pictures: &Vec<Picture>, theme: &Theme, paper: Paper) -> (r: String)
    ensures
        r@ == block_text(block@, pictures@, *theme, paper),
{
    match block {
        Block::Heading(level, runs) => {
            let mut style = owned("Heading");
            style.append(decimal_of(*level as u128).as_str());
            let xml = runs_xml(runs.as_slice(), theme);
            paragraph_xml(style.as_str(), None, xml.as_str())
        },
        Block::Paragraph(runs) => {
            let xml = runs_xml(runs.as_slice(), theme);
            paragraph_xml("Normal", None, xml.as_str())
        },
        Block::ListItem { number, runs } => list_item_xml(*number, runs, theme),
        Block::Quote(runs) => {
            let italic = styled_runs(runs, false, true);
            assert(blocks::runs_of(italic@) =~= italicized(blocks::runs_of(runs@)));
            let xml = runs_xml(italic.as_slice(), theme);
            paragraph_xml("Quote", Some((INDENT_TWIPS, 0)), xml.as_str())
        },
        Block::Code(code) => {
            let mut runs: Vec<Run> = Vec::new();
            runs.push(
                Run { text: code.clone(), is_bold: false, is_italic: false, is_code: true },
            );
            assert(blocks::runs_of(runs@) =~= seq![
                RunModel { is_code: true, ..blocks::plain_run(code@) },
            ]);
            let xml = runs_xml(runs.as_slice(), theme);
            paragraph_xml("Code", None, xml.as_str())
        },
        Block::Table { has_header, rows } => table_xml(*has_header, rows.as_slice(), theme),
        Block::Image(src) => match find_picture(pictures, src.as_str()) {
            Some(index) => picture_xml(
                picture_relationship(index).as_str(),
                index as u128 + 1,
                &pictures[index],
                paper,
            ),
            None => String::new(),
        },
        Block::PageBreak => owned(PAGE_BREAK),
    }
}

/// Everything the XML build needs.
#[derive(Debug, PartialEq)]
pub struct DocumentInput {
    /// The document title, for the core metadata.
    pub title: String,
    /// The theme: fonts and colors for the styles part.
    pub theme: Theme,
    /// The paper: the page size.
    pub paper: Paper,
    /// The body, page by page, with page breaks between them.
    pub blocks: Vec<Block>,
    /// Pictures whose bytes could be read.
    pub pictures: Vec<Picture>,
}

/// The body element: every block, then the section with the page size.
pub open spec fn body_text(input: DocumentInput) -> Seq<char> {
    let (width, height) = page_size(input.paper);
    "<w:body>"@ + blocks_text(
        blocks::blocks_of(input.blocks@),
        input.pictures@,
        input.theme,
        input.paper,
        input.blocks@.len() as int,
    ) + "<w:sectPr><w:pgSz w:w=\""@ + text::decimal(width as nat) + "\" w:h=\""@ + text::decimal(
        height as nat,
    )
        + "\"/><w:pgMar w:top=\"1440\" w:right=\"1440\" w:bottom=\"1440\" w:left=\"1440\" w:header=\"708\" w:footer=\"708\" w:gutter=\"0\"/></w:sectPr></w:body>"@
}

/// The body element of the document part: every block, then the section with
/// the page size.
pub fn body_xml(input: &DocumentInput) -> (r: String)
    ensures
        r@ == body_text(*input),
{
    let ghost all = blocks::blocks_of(input.blocks@);
    let mut body = String::new();
    let mut k: usize = 0;
    while k < input.blocks.len()
        invariant
            k <= input.blocks@.len(),
            all == blocks::blocks_of(input.blocks@),
            body@ == blocks_text(all, input.pictures@, input.theme, input.paper, k as int),
        decreases input.blocks@.len() - k,
    {
        assert(all[k as int] == input.blocks@[k as int]@);
        body.append(
            block_xml(&input.blocks[k], &input.pictures, &input.theme, input.paper).as_str(),
        );
        k += 1;
    }
    let (width, height) = page_size_twips(input.paper);
    let mut r = owned("<w:body>");
    r.append(body.as_str());
    r.append("<w:sectPr><w:pgSz w:w=\"");
    r.append(decimal_of(width as u128).as_str());
    r.append("\" w:h=\"");
    r.append(decimal_of(height as u128).as_str());
    r.append(
        "\"/><w:pgMar w:top=\"1440\" w:right=\"1440\" w:bottom=\"1440\" w:left=\"1440\" w:header=\"708\" w:footer=\"708\" w:gutter=\"0\"/></w:sectPr></w:body>",
    );
    r
}

// -- Styles -----------------------------------------------------------------

/// One heading style: the heading font, bold, its size in half-points, and
/// its color.
pub open spec fn heading_text(
    level: nat,
    size: nat,
    color: Seq<char>,
    heading_font: Seq<char>,
) -> Seq<char> {
    "<w:style w:type=\"paragraph\" w:styleId=\"Heading"@ + text::decimal(level) + "\"><w:name w:val=\"heading "@ + text::decimal(level) + "\"/><w:basedOn w:val=\"Normal\"/><w:next w:val=\"Normal\"/><w:qFormat/><w:pPr><w:keepNext/><w:spacing w:before=\"320\" w:after=\"120\"/><w:outlineLvl w:val=\""@ + text::decimal((level - 1) as nat) + "\"/></w:pPr><w:rPr>"@ + fonts_xml(heading_font) + "<w:b/><w:color w:val=\""@ + color + "\"/><w:sz w:val=\""@ + text::decimal(size) + "\"/><w:szCs w:val=\""@ + text::decimal(size) + "\"/></w:rPr></w:style>"@
}

fn heading_style(level: u8, size: u32, color: &str, heading_font: &str) -> (r: String)
    requires
        level >= 1,
    ensures
        r@ == heading_text(level as nat, size as nat, color@, heading_font@),
{
    let number = decimal_of(level as u128);
    let points = decimal_of(size as u128);
    let mut r = owned("<w:style w:type=\"paragraph\" w:styleId=\"Heading");
    r.append(number.as_str());
    r.append("\"><w:name w:val=\"heading ");
    r.append(number.as_str());
    r.append("\"/><w:basedOn w:val=\"Normal\"/><w:next w:val=\"Normal\"/><w:qFormat/><w:pPr><w:keepNext/><w:spacing w:before=\"320\" w:after=\"120\"/><w:outlineLvl w:val=\"");
    r.append(decimal_of(level as u128 - 1).as_str());
    r.append("\"/></w:pPr><w:rPr>");
    r.append(fonts_element(heading_font).as_str());
    r.append("<w:b/><w:color w:val=\"");
    r.append(color);
    r.append("\"/><w:sz w:val=\"");
    r.append(points.as_str());
    r.append("\"/><w:szCs w:val=\"");
    r.append(points.as_str());
    r.append("\"/></w:rPr></w:style>");
    r
}

/// The six heading styles. The first two take the accent color.
pub open spec fn headings_text(theme: Theme) -> Seq<char> {
    let font = markup::xml_escaped(theme.fonts.heading@);
    let accent = hex_color(theme.colors.accent@);
    let ink = hex_color(theme.colors.text@);
    heading_text(1, 64, accent, font) + heading_text(2, 52, accent, font) + heading_text(
        3,
        44,
        ink,
        font,
    ) + heading_text(4, 36, ink, font) + heading_text(5, 32, ink, font) + heading_text(
        6,
        28,
        ink,
        font,
    )
}

fn heading_styles(theme: &Theme) -> (r: String)
    ensures
        r@ == headings_text(*theme),
{
    let font = escape_xml(theme.fonts.heading.as_str());
    let accent = hex_of(theme.colors.accent.as_str());
    let ink = hex_of(theme.colors.text.as_str());
    let mut r = heading_style(1, 64, accent.as_str(), font.as_str());
    r.append(heading_style(2, 52, accent.as_str(), font.as_str()).as_str());
    r.append(heading_style(3, 44, ink.as_str(), font.as_str()).as_str());
    r.append(heading_style(4, 36, ink.as_str(), font.as_str()).as_str());
    r.append(heading_style(5, 32, ink.as_str(), font.as_str()).as_str());
    r.append(heading_style(6, 28, ink.as_str(), font.as_str()).as_str());
    r
}

/// The styles part: the theme fonts and colors on the defaults, six headings,
/// and the list, quote, and code paragraphs.
pub open spec fn styles_text(theme: Theme) -> Seq<char> {
    XML_HEADER@ + "<w:styles xmlns:w=\"http://schemas.openxmlformats.org/wordprocessingml/2006/main\"><w:docDefaults><w:rPrDefault><w:rPr>"@ + fonts_xml(markup::xml_escaped(theme.fonts.body@)) + "<w:color w:val=\""@ + hex_color(theme.colors.text@) + "\"/><w:sz w:val=\"22\"/><w:szCs w:val=\"22\"/><w:lang w:val=\"en-US\"/></w:rPr></w:rPrDefault><w:pPrDefault><w:pPr><w:spacing w:after=\"160\" w:line=\"276\" w:lineRule=\"auto\"/></w:pPr></w:pPrDefault></w:docDefaults><w:style w:type=\"paragraph\" w:default=\"1\" w:styleId=\"Normal\"><w:name w:val=\"Normal\"/><w:qFormat/></w:style>"@ + headings_text(theme) + "<w:style w:type=\"paragraph\" w:styleId=\"ListParagraph\"><w:name w:val=\"List Paragraph\"/><w:basedOn w:val=\"Normal\"/><w:qFormat/><w:pPr><w:spacing w:after=\"60\"/><w:contextualSpacing/></w:pPr></w:style><w:style w:type=\"paragraph\" w:styleId=\"Quote\"><w:name w:val=\"Quote\"/><w:basedOn w:val=\"Normal\"/><w:qFormat/><w:pPr><w:pBdr><w:left w:val=\"single\" w:sz=\"18\" w:space=\"12\" w:color=\""@ + hex_color(theme.colors.accent@) + "\"/></w:pBdr></w:pPr><w:rPr><w:i/><w:color w:val=\""@ + hex_color(theme.colors.muted@) + "\"/></w:rPr></w:style><w:style w:type=\"paragraph\" w:styleId=\"Code\"><w:name w:val=\"Code\"/><w:basedOn w:val=\"Normal\"/><w:pPr><w:shd w:val=\"clear\" w:color=\"auto\" w:fill=\"F2F2F2\"/><w:spacing w:after=\"160\" w:line=\"240\" w:lineRule=\"auto\"/></w:pPr><w:rPr>"@ + fonts_xml(markup::xml_escaped(theme.fonts.mono@)) + "<w:sz w:val=\"20\"/><w:szCs w:val=\"20\"/></w:rPr></w:style></w:styles>"@
}

/// The styles part: the theme fonts and colors on the defaults, six headings,
/// and the list, quote, and code paragraphs.
pub fn styles_part(theme: &Theme) -> (r: String)
    ensures
        r@ == styles_text(*theme),
{
    let body_font = escape_xml(theme.fonts.body.as_str());
    let mono_font = escape_xml(theme.fonts.mono.as_str());
    let ink = hex_of(theme.colors.text.as_str());
    let accent = hex_of(theme.colors.accent.as_str());
    let muted = hex_of(theme.colors.muted.as_str());
    let mut r = owned(XML_HEADER);
    r.append("<w:styles xmlns:w=\"http://schemas.openxmlformats.org/wordprocessingml/2006/main\"><w:docDefaults><w:rPrDefault><w:rPr>");
    r.append(fonts_element(body_font.as_str()).as_str());
    r.append("<w:color w:val=\"");
    r.append(ink.as_str());
    r.append("\"/><w:sz w:val=\"22\"/><w:szCs w:val=\"22\"/><w:lang w:val=\"en-US\"/></w:rPr></w:rPrDefault><w:pPrDefault><w:pPr><w:spacing w:after=\"160\" w:line=\"276\" w:lineRule=\"auto\"/></w:pPr></w:pPrDefault></w:docDefaults><w:style w:type=\"paragraph\" w:default=\"1\" w:styleId=\"Normal\"><w:name w:val=\"Normal\"/><w:qFormat/></w:style>");
    r.append(heading_styles(theme).as_str());
    r.append("<w:style w:type=\"paragraph\" w:styleId=\"ListParagraph\"><w:name w:val=\"List Paragraph\"/><w:basedOn w:val=\"Normal\"/><w:qFormat/><w:pPr><w:spacing w:after=\"60\"/><w:contextualSpacing/></w:pPr></w:style><w:style w:type=\"paragraph\" w:styleId=\"Quote\"><w:name w:val=\"Quote\"/><w:basedOn w:val=\"Normal\"/><w:qFormat/><w:pPr><w:pBdr><w:left w:val=\"single\" w:sz=\"18\" w:space=\"12\" w:color=\"");
    r.append(accent.as_str());
    r.append("\"/></w:pBdr></w:pPr><w:rPr><w:i/><w:color w:val=\"");
    r.append(muted.as_str());
    r.append("\"/></w:rPr></w:style><w:style w:type=\"paragraph\" w:styleId=\"Code\"><w:name w:val=\"Code\"/><w:basedOn w:val=\"Normal\"/><w:pPr><w:shd w:val=\"clear\" w:color=\"auto\" w:fill=\"F2F2F2\"/><w:spacing w:after=\"160\" w:line=\"240\" w:lineRule=\"auto\"/></w:pPr><w:rPr>");
    r.append(fonts_element(mono_font.as_str()).as_str());
    r.append("<w:sz w:val=\"20\"/><w:szCs w:val=\"20\"/></w:rPr></w:style></w:styles>");
    r
}

// -- The other parts --------------------------------------------------------

/// One relationship element.
pub open spec fn relationship_text(id: Seq<char>, kind: Seq<char>, target: Seq<char>) -> Seq<char> {
    "<Relationship Id=\""@ + id + "\" Type=\"http://schemas.openxmlformats.org/officeDocument/2006/relationships/"@ + kind + "\" Target=\""@ + target + "\"/>"@
}

fn relationship(id: &str, kind: &str, target: &str) -> (r: String)
    ensures
        r@ == relationship_text(id@, kind@, target@),
{
    let mut r = owned("<Relationship Id=\"");
    r.append(id);
    r.append("\" Type=\"http://schemas.openxmlformats.org/officeDocument/2006/relationships/");
    r.append(kind);
    r.append("\" Target=\"");
    r.append(target);
    r.append("\"/>");
    r
}

/// A relationships part around relationship elements.
pub open spec fn relationships_text(relationships: Seq<char>) -> Seq<char> {
    XML_HEADER@ + "<Relationships xmlns=\"http://schemas.openxmlformats.org/package/2006/relationships\">"@ + relationships + "</Relationships>"@
}

fn relationships_part(relationships: &str) -> (r: String)
    ensures
        r@ == relationships_text(relationships@),
{
    let mut r = owned(XML_HEADER);
    r.append("<Relationships xmlns=\"http://schemas.openxmlformats.org/package/2006/relationships\">");
    r.append(relationships);
    r.append("</Relationships>");
    r
}

/// The name of the media file of the picture at `index`, counted from 1.
pub open spec fn media_name(index: nat, picture: Picture) -> Seq<char> {
    "media/image"@ + text::decimal(index + 1) + "."@ + picture.extension@
}

fn media_file(index: usize, picture: &Picture) -> (r: String)
    ensures
        r@ == media_name(index as nat, *picture),
{
    let mut r = owned("media/image");
    r.append(decimal_of(index as u128 + 1).as_str());
    r.append(".");
    r.append(picture.extension.as_str());
    r
}

/// The relationships of the styles part and of the first `k` pictures.
pub open spec fn picture_relationships(pictures: Seq<Picture>, k: int) -> Seq<char>
    decreases k,
{
    if k <= 0 {
        relationship_text("rId1"@, "styles"@, "styles.xml"@)
    } else {
        picture_relationships(pictures, k - 1) + relationship_text(
            relationship_id((k - 1) as nat),
            "image"@,
            media_name((k - 1) as nat, pictures[k - 1]),
        )
    }
}

/// The document part's relationships: the styles, then one per picture.
pub fn document_relationships_part(pictures: &[Picture]) -> (r: String)
    ensures
        r@ == relationships_text(picture_relationships(pictures@, pictures@.len() as int)),
{
    let mut list = relationship("rId1", "styles", "styles.xml");
    let mut k: usize = 0;
    while k < pictures.len()
        invariant
            k <= pictures@.len(),
            list@ == picture_relationships(pictures@, k as int),
        decreases pictures@.len() - k,
    {
        list.append(
            relationship(
                picture_relationship(k).as_str(),
                "image",
                media_file(k, &pictures[k]).as_str(),
            ).as_str(),
        );
        k += 1;
    }
    relationships_part(list.as_str())
}

/// The content types part.
pub open spec fn content_types_text() -> Seq<char> {
    XML_HEADER@ + "<Types xmlns=\"http://schemas.openxmlformats.org/package/2006/content-types\"><Default Extension=\"rels\" ContentType=\"application/vnd.openxmlformats-package.relationships+xml\"/><Default Extension=\"xml\" ContentType=\"application/xml\"/><Default Extension=\"png\" ContentType=\"image/png\"/><Default Extension=\"jpg\" ContentType=\"image/jpeg\"/><Default Extension=\"jpeg\" ContentType=\"image/jpeg\"/><Default Extension=\"gif\" ContentType=\"image/gif\"/><Override PartName=\"/word/document.xml\" ContentType=\""@ + DOCX_CONTENT_TYPE@ + ".main+xml\"/><Override PartName=\"/word/styles.xml\" ContentType=\"application/vnd.openxmlformats-officedocument.wordprocessingml.styles+xml\"/><Override PartName=\"/docProps/core.xml\" ContentType=\"application/vnd.openxmlformats-package.core-properties+xml\"/></Types>"@
}

/// The content types part.
pub fn content_types_part() -> (r: String)
    ensures
        r@ == content_types_text(),
{
    let mut r = owned(XML_HEADER);
    r.append("<Types xmlns=\"http://schemas.openxmlformats.org/package/2006/content-types\"><Default Extension=\"rels\" ContentType=\"application/vnd.openxmlformats-package.relationships+xml\"/><Default Extension=\"xml\" ContentType=\"application/xml\"/><Default Extension=\"png\" ContentType=\"image/png\"/><Default Extension=\"jpg\" ContentType=\"image/jpeg\"/><Default Extension=\"jpeg\" ContentType=\"image/jpeg\"/><Default Extension=\"gif\" ContentType=\"image/gif\"/><Override PartName=\"/word/document.xml\" ContentType=\"");
    r.append(DOCX_CONTENT_TYPE);
    r.append(".main+xml\"/><Override PartName=\"/word/styles.xml\" ContentType=\"application/vnd.openxmlformats-officedocument.wordprocessingml.styles+xml\"/><Override PartName=\"/docProps/core.xml\" ContentType=\"application/vnd.openxmlformats-package.core-properties+xml\"/></Types>");
    r
}

/// The core properties part: the title.
pub open spec fn core_text(title: Seq<char>) -> Seq<char> {
    XML_HEADER@ + "<cp:coreProperties xmlns:cp=\"http://schemas.openxmlformats.org/package/2006/metadata/core-properties\" xmlns:dc=\"http://purl.org/dc/elements/1.1/\" xmlns:dcterms=\"http://purl.org/dc/terms/\" xmlns:xsi=\"http://www.w3.org/2001/XMLSchema-instance\"><dc:title>"@ + markup::xml_escaped(title) + "</dc:title><dc:creator>Swift Design</dc:creator></cp:coreProperties>"@
}

fn core_part(title: &str) -> (r: String)
    ensures
        r@ == core_text(title@),
{
    let mut r = owned(XML_HEADER);
    r.append("<cp:coreProperties xmlns:cp=\"http://schemas.openxmlformats.org/package/2006/metadata/core-properties\" xmlns:dc=\"http://purl.org/dc/elements/1.1/\" xmlns:dcterms=\"http://purl.org/dc/terms/\" xmlns:xsi=\"http://www.w3.org/2001/XMLSchema-instance\"><dc:title>");
    r.append(escape_xml(title).as_str());
    r.append("</dc:title><dc:creator>Swift Design</dc:creator></cp:coreProperties>");
    r
}

/// The namespaces of the document part.
pub const WORD_NAMESPACES: &'static str = "xmlns:w=\"http://schemas.openxmlformats.org/wordprocessingml/2006/main\" xmlns:r=\"http://schemas.openxmlformats.org/officeDocument/2006/relationships\" xmlns:wp=\"http://schemas.openxmlformats.org/drawingml/2006/wordprocessingDrawing\" xmlns:a=\"http://schemas.openxmlformats.org/drawingml/2006/main\" xmlns:pic=\"http://schemas.openxmlformats.org/drawingml/2006/picture\"";

/// The document part.
pub open spec fn document_text(input: DocumentInput) -> Seq<char> {
    XML_HEADER@ + "<w:document "@ + WORD_NAMESPACES@ + ">"@ + body_text(input) + "</w:document>"@
}

/// The document part.
pub fn document_part(input: &DocumentInput) -> (r: String)
    ensures
        r@ == document_text(*input),
{
    let mut r = owned(XML_HEADER);
    r.append("<w:document ");
    r.append(WORD_NAMESPACES);
    r.append(">");
    r.append(body_xml(input).as_str());
    r.append("</w:document>");
    r
}

// -- The package ------------------------------------------------------------

/// A compressed text file of the package.
pub open spec fn text_file(name: Seq<char>, content: Seq<char>) -> (Seq<char>, Seq<u8>, bool) {
    (name, vstd::utf8::encode_utf8(content), true)
}

/// The package's own relationships: the document and the metadata.
pub open spec fn package_relationships() -> Seq<char> {
    relationship_text("rId1"@, "officeDocument"@, "word/document.xml"@) + relationship_text(
        "rId2"@,
        "metadata/core-properties"@,
        "docProps/core.xml"@,
    )
}

/// The media files of the pictures, in order.
pub open spec fn media_files(pictures: Seq<Picture>) -> Seq<(Seq<char>, Seq<u8>, bool)> {
    Seq::new(
        pictures.len(),
        |k: int| ("word/"@ + media_name(k as nat, pictures[k]), pictures[k].bytes@, true),
    )
}

/// The files of the whole package, in order.
pub open spec fn package_files(input: DocumentInput) -> Seq<(Seq<char>, Seq<u8>, bool)> {
    seq![
        text_file("[Content_Types].xml"@, content_types_text()),
        text_file("_rels/.rels"@, relationships_text(package_relationships())),
        text_file("docProps/core.xml"@, core_text(input.title@)),
        text_file("word/document.xml"@, document_text(input)),
        text_file(
            "word/_rels/document.xml.rels"@,
            relationships_text(
                picture_relationships(input.pictures@, input.pictures@.len() as int),
            ),
        ),
        text_file("word/styles.xml"@, styles_text(input.theme)),
    ] + media_files(input.pictures@)
}

fn push_part(parts: &mut Vec<NamedFile>, name: &str, content: &str)
    ensures
        archive::files_of(final(parts)@, true) == archive::files_of(old(parts)@, true).push(
            text_file(name@, content@),
        ),
{
    let ghost before = parts@;
    parts.push(NamedFile { name: owned(name), bytes: text::bytes_of(content) });
    assert(archive::files_of(parts@, true) =~= archive::files_of(before, true).push(
        text_file(name@, content@),
    ));
}

/// The files of the whole package, in order.
pub fn package_parts(input: &DocumentInput) -> (parts: Vec<NamedFile>)
    ensures
        archive::files_of(parts@, true) == package_files(*input),
{
    let mut parts: Vec<NamedFile> = Vec::new();
    let mut own = relationship("rId1", "officeDocument", "word/document.xml");
    own.append(relationship("rId2", "metadata/core-properties", "docProps/core.xml").as_str());
    assert(archive::files_of(parts@, true) =~= Seq::empty());
    push_part(&mut parts, "[Content_Types].xml", content_types_part().as_str());
    push_part(&mut parts, "_rels/.rels", relationships_part(own.as_str()).as_str());
    push_part(&mut parts, "docProps/core.xml", core_part(input.title.as_str()).as_str());
    push_part(&mut parts, "word/document.xml", document_part(input).as_str());
    push_part(
        &mut parts,
        "word/_rels/document.xml.rels",
        document_relationships_part(input.pictures.as_slice()).as_str(),
    );
    push_part(&mut parts, "word/styles.xml", styles_part(&input.theme).as_str());
    let ghost texts = archive::files_of(parts@, true);
    let ghost media = media_files(input.pictures@);
    let mut k: usize = 0;
    assert(texts + media.take(0) =~= texts);
    while k < input.pictures.len()
        invariant
            k <= input.pictures@.len(),
            media == media_files(input.pictures@),
            archive::files_of(parts@, true) == texts + media.take(k as int),
        decreases input.pictures@.len() - k,
    {
        let ghost before = parts@;
        let mut name = owned("word/");
        name.append(media_file(k, &input.pictures[k]).as_str());
        parts.push(
            NamedFile { name, bytes: text::copy_bytes(input.pictures[k].bytes.as_slice()) },
        );
        assert(archive::files_of(parts@, true) =~= archive::files_of(before, true).push(
            media[k as int],
        ));
        assert(archive::files_of(parts@, true) =~= texts + media.take(k + 1));
        k += 1;
    }
    proof {
        assert(media.take(k as int) =~= media);
        assert(archive::files_of(parts@, true) =~= package_files(*input));
    }
    parts
}

/// No two parts of text have the same name, nor that of a media file.
proof fn lemma_part_names_differ(input: DocumentInput)
    ensures
        archive::names_differ(package_files(input).take(6)),
        forall|k: int|
            0 <= k < 6 ==> {
                let name = (#[trigger] package_files(input)[k]).0;
                name.len() > 5 && (name[0] != 'w' || name[5] != 'm')
            },
{
    reveal_strlit("[Content_Types].xml");
    reveal_strlit("_rels/.rels");
    reveal_strlit("docProps/core.xml");
    reveal_strlit("word/document.xml");
    reveal_strlit("word/_rels/document.xml.rels");
    reveal_strlit("word/styles.xml");
    assert("word/document.xml"@[5] == 'd');
    assert("word/_rels/document.xml.rels"@[5] == '_');
    assert("word/styles.xml"@[5] == 's');
    assert("[Content_Types].xml"@[0] == '[');
    assert("_rels/.rels"@[0] == '_');
    assert("docProps/core.xml"@[0] == 'd');
    assert("word/document.xml"@[0] == 'w');
    assert("word/_rels/document.xml.rels"@[0] == 'w');
    assert("word/styles.xml"@[0] == 'w');
}

/// The name of a media file: what all of them begin with, its number, a dot
/// and its extension.
proof fn lemma_media_name(input: DocumentInput, k: int)
    requires
        6 <= k < package_files(input).len(),
    ensures
        ({
            let name = package_files(input)[k].0;
            &&& name.skip(16) == text::decimal((k - 5) as nat) + seq!['.'] + input.pictures@[k
                - 6].extension@
            &&& name.len() > 16 && name[0] == 'w' && name[5] == 'm'
        }),
{
    reveal_strlit("word/");
    reveal_strlit("media/image");
    reveal_strlit(".");
    let name = package_files(input)[k].0;
    let rest = text::decimal((k - 5) as nat) + seq!['.'] + input.pictures@[k - 6].extension@;
    let head = "word/"@ + "media/image"@;
    assert(package_files(input)[k] == media_files(input.pictures@)[k - 6]);
    assert("."@ =~= seq!['.']);
    assert(name =~= head + rest);
    assert(name.skip(16) =~= rest);
}

/// No two files of a package have the same name.
proof fn lemma_package_names_differ(input: DocumentInput)
    ensures
        archive::names_differ(package_files(input)),
{
    let entries = package_files(input);
    lemma_part_names_differ(input);
    assert forall|j: int, k: int| 0 <= j < k < entries.len() implies (#[trigger] entries[j]).0 != (
    #[trigger] entries[k]).0 by {
        if k < 6 {
            assert(entries.take(6)[j] == entries[j]);
            assert(entries.take(6)[k] == entries[k]);
        } else {
            lemma_media_name(input, k);
            if j >= 6 {
                lemma_media_name(input, j);
                order::lemma_decimals_differ_before(
                    (j - 5) as nat,
                    (k - 5) as nat,
                    '.',
                    input.pictures@[j - 6].extension@,
                    input.pictures@[k - 6].extension@,
                );
            }
        }
    }
}

/// Writes the whole package as ZIP bytes. A reader of the bytes finds the
/// package's files.
pub fn build_package(input: &DocumentInput) -> (r: Result<Vec<u8>, String>)
    ensures
        archive::is_archive_of(r, package_files(*input)),
{
    proof {
        lemma_package_names_differ(*input);
    }
    pack(&package_parts(input), true)
}

// -- What the body says -----------------------------------------------------

proof fn lemma_blocks_of_prefix(
    a: Seq<BlockModel>,
    b: Seq<BlockModel>,
    pictures: Seq<Picture>,
    theme: Theme,
    paper: Paper,
    k: int,
)
    requires
        0 <= k <= a.len(),
    ensures
        blocks_text(a + b, pictures, theme, paper, k) == blocks_text(a, pictures, theme, paper, k),
    decreases k,
{
    if k > 0 {
        lemma_blocks_of_prefix(a, b, pictures, theme, paper, k - 1);
        assert((a + b)[k - 1] == a[k - 1]);
    }
}

/// The body of two lists of blocks is the body of the first followed by the
/// body of the second, so the paragraphs stand in the reading order of the
/// document. No blocks give no body.
pub proof fn law_blocks_follow_each_other(
    a: Seq<BlockModel>,
    b: Seq<BlockModel>,
    pictures: Seq<Picture>,
    theme: Theme,
    paper: Paper,
)
    ensures
        blocks_text(a + b, pictures, theme, paper, (a + b).len() as int) == blocks_text(
            a,
            pictures,
            theme,
            paper,
            a.len() as int,
        ) + blocks_text(b, pictures, theme, paper, b.len() as int),
        blocks_text(Seq::empty(), pictures, theme, paper, 0) == Seq::<char>::empty(),
    decreases b.len(),
{
    let first = blocks_text(a, pictures, theme, paper, a.len() as int);
    if b.len() == 0 {
        assert(a + b =~= a);
        assert(first + Seq::<char>::empty() =~= first);
    } else {
        let rest = b.drop_last();
        let tail = seq![b.last()];
        law_blocks_follow_each_other(a, rest, pictures, theme, paper);
        assert((a + rest) + tail =~= a + b);
        assert(rest + tail =~= b);
        lemma_blocks_of_prefix(a + rest, tail, pictures, theme, paper, (a + rest).len() as int);
        lemma_blocks_of_prefix(rest, tail, pictures, theme, paper, rest.len() as int);
        let middle = blocks_text(rest, pictures, theme, paper, rest.len() as int);
        let last = block_text(b.last(), pictures, theme, paper);
        assert(first + (middle + last) =~= (first + middle) + last);
    }
}

proof fn lemma_rows_of_prefix(
    a: Seq<Seq<Seq<RunModel>>>,
    b: Seq<Seq<Seq<RunModel>>>,
    has_header: bool,
    theme: Theme,
    k: int,
)
    requires
        0 <= k <= a.len(),
    ensures
        rows_text(a + b, has_header, theme, k) == rows_text(a, has_header, theme, k),
    decreases k,
{
    if k > 0 {
        lemma_rows_of_prefix(a, b, has_header, theme, k - 1);
        assert((a + b)[k - 1] == a[k - 1]);
    }
}

/// The rows of a table stand in order, and only the first is a header row.
pub proof fn law_rows_follow_each_other(
    a: Seq<Seq<Seq<RunModel>>>,
    b: Seq<Seq<Seq<RunModel>>>,
    has_header: bool,
    theme: Theme,
)
    requires
        a.len() > 0,
    ensures
        rows_text(a + b, has_header, theme, (a + b).len() as int) == rows_text(
            a,
            has_header,
            theme,
            a.len() as int,
        ) + rows_text(b, false, theme, b.len() as int),
    decreases b.len(),
{
    let first = rows_text(a, has_header, theme, a.len() as int);
    if b.len() == 0 {
        assert(a + b =~= a);
        assert(first + Seq::<char>::empty() =~= first);
    } else {
        let rest = b.drop_last();
        let tail = seq![b.last()];
        law_rows_follow_each_other(a, rest, has_header, theme);
        assert((a + rest) + tail =~= a + b);
        assert(rest + tail =~= b);
        lemma_rows_of_prefix(a + rest, tail, has_header, theme, (a + rest).len() as int);
        lemma_rows_of_prefix(rest, tail, false, theme, rest.len() as int);
        let middle = rows_text(rest, false, theme, rest.len() as int);
        let row = b.last();
        let last = "<w:tr>"@ + cells_text(row, false, theme, row.len() as int) + "</w:tr>"@;
        assert(rows_text(a + b, has_header, theme, (a + b).len() as int) == rows_text(
            a + b,
            has_header,
            theme,
            (a + rest).len() as int,
        ) + last);
        assert(first + (middle + last) =~= (first + middle) + last);
    }
}

/// The text of runs on one line.
pub open spec fn line_of(runs: Seq<RunModel>) -> Seq<char> {
    one_line(blocks::plain_text(runs))
}

/// A text without its line breaks.
pub open spec fn one_line(s: Seq<char>) -> Seq<char> {
    s.filter(|c: char| c != '\n')
}

/// What a reader reads of a row: its cells in order.
pub open spec fn row_words(row: Seq<Seq<RunModel>>) -> Seq<char> {
    row.map_values(|cell: Seq<RunModel>| line_of(cell)).flatten()
}

/// What a reader reads of a block, without its line breaks: its text, behind
/// the marker of a list item; the cells of a table, row by row.
pub open spec fn block_words(block: BlockModel) -> Seq<char> {
    match block {
        BlockModel::Heading(_, runs) => line_of(runs),
        BlockModel::Paragraph(runs) => line_of(runs),
        BlockModel::ListItem(Some(n), runs) => text::decimal(n as nat) + ".\t"@ + line_of(runs),
        BlockModel::ListItem(None, runs) => "•\t"@ + line_of(runs),
        BlockModel::Quote(runs) => line_of(runs),
        BlockModel::Code(code) => one_line(code),
        BlockModel::Table(_, rows) => rows_words(rows),
        BlockModel::Image(_) => Seq::empty(),
        BlockModel::PageBreak => Seq::empty(),
    }
}

/// What a reader reads of the blocks, in order.
pub open spec fn words_of_blocks(list: Seq<BlockModel>) -> Seq<char> {
    list.map_values(|block: BlockModel| block_words(block)).flatten()
}

proof fn lemma_one_line_of_joined(a: Seq<char>, b: Seq<char>)
    ensures
        one_line(a + b) == one_line(a) + one_line(b),
{
    Seq::filter_distributes_over_add(a, b, |c: char| c != '\n');
}

proof fn lemma_without_newline(s: Seq<char>)
    requires
        !s.contains('\n'),
    ensures
        one_line(s) == s,
    decreases s.len(),
{
    reveal(Seq::filter);
    if s.len() > 0 {
        let rest = s.drop_last();
        assert(s.contains(s.last()));
        assert forall|i: int| 0 <= i < rest.len() implies rest[i] != '\n' by {
            assert(s.contains(s[i]));
        }
        lemma_without_newline(rest);
        assert(rest.push(s.last()) =~= s);
    }
}

/// The pieces between the newlines of a text are the text on one line.
proof fn lemma_pieces_are_one_line(s: Seq<char>, from: int)
    requires
        0 <= from <= s.len(),
    ensures
        text::pieces_from(s, '\n', from).flatten() == one_line(s.skip(from)),
    decreases s.len() - from,
{
    text::lemma_find_char_from(s, '\n', from);
    let rest = s.skip(from);
    match text::find_char_from(s, '\n', from) {
        None => {
            let last = s.subrange(from, s.len() as int);
            assert(last =~= rest);
            assert forall|i: int| 0 <= i < last.len() implies last[i] != '\n' by {
                assert(s[from + i] == last[i]);
            }
            lemma_without_newline(last);
            let pieces = seq![last];
            reveal_with_fuel(Seq::<_>::flatten, 2);
            assert(pieces.drop_first() =~= Seq::<Seq<char>>::empty());
            assert(pieces.flatten() =~= last);
        },
        Some(p) => {
            let first = s.subrange(from, p);
            lemma_pieces_are_one_line(s, p + 1);
            assert forall|i: int| 0 <= i < first.len() implies first[i] != '\n' by {
                assert(s[from + i] == first[i]);
            }
            lemma_without_newline(first);
            let more = text::pieces_from(s, '\n', p + 1);
            let pieces = seq![first] + more;
            assert(pieces.drop_first() =~= more);
            assert(pieces.first() == first);
            assert(rest =~= first + (seq!['\n'] + s.skip(p + 1)));
            lemma_one_line_of_joined(first, seq!['\n'] + s.skip(p + 1));
            lemma_one_line_of_joined(seq!['\n'], s.skip(p + 1));
            reveal_with_fuel(Seq::<_>::filter, 2);
            assert(seq!['\n'].drop_last() =~= Seq::<char>::empty());
            assert(one_line(seq!['\n']) =~= Seq::<char>::empty());
            assert(Seq::<char>::empty() + one_line(s.skip(p + 1)) =~= one_line(s.skip(p + 1)));
        },
    }
}

proof fn lemma_properties_are_hidden(run: RunModel, theme: Theme)
    ensures
        markup::hides(properties_xml(run, theme), false, false),
{
    reveal_strlit("<w:rPr>");
    reveal_strlit("</w:rPr>");
    reveal_strlit("<w:b/>");
    reveal_strlit("<w:i/>");
    let family = markup::xml_escaped(theme.fonts.mono@);
    markup::law_escaped_text_is_inert(theme.fonts.mono@);
    lemma_fonts_are_hidden(family);
    let bold = when(run.is_bold, "<w:b/>"@);
    let italic = when(run.is_italic, "<w:i/>"@);
    let code = when(run.is_code, fonts_xml(family));
    markup::lemma_hides("<w:rPr>"@, false);
    markup::lemma_hides(bold, false);
    markup::lemma_hides(italic, false);
    markup::lemma_hides("</w:rPr>"@, false);
    markup::lemma_hides_joined("<w:rPr>"@, bold, false, false, false);
    markup::lemma_hides_joined("<w:rPr>"@ + bold, italic, false, false, false);
    markup::lemma_hides_joined("<w:rPr>"@ + bold + italic, code, false, false, false);
    markup::lemma_hides_joined(
        "<w:rPr>"@ + bold + italic + code,
        "</w:rPr>"@,
        false,
        false,
        false,
    );
}

proof fn lemma_fonts_are_hidden(family: Seq<char>)
    requires
        markup::is_inert(family),
    ensures
        markup::hides(fonts_xml(family), false, false),
{
    reveal_strlit("<w:rFonts w:ascii=\"");
    reveal_strlit("\" w:hAnsi=\"");
    reveal_strlit("\" w:cs=\"");
    reveal_strlit("\"/>");
    let a = "<w:rFonts w:ascii=\""@;
    let b = "\" w:hAnsi=\""@;
    let c = "\" w:cs=\""@;
    let d = "\"/>"@;
    markup::lemma_shown_of_inert(family);
    markup::lemma_hides(a, false);
    markup::lemma_hides(b, true);
    markup::lemma_hides(c, true);
    markup::lemma_hides(d, true);
    markup::lemma_hides_joined(a, family, false, true, true);
    markup::lemma_hides_joined(a + family, b, false, true, true);
    markup::lemma_hides_joined(a + family + b, family, false, true, true);
    markup::lemma_hides_joined(a + family + b + family, c, false, true, true);
    markup::lemma_hides_joined(a + family + b + family + c, family, false, true, true);
    markup::lemma_hides_joined(a + family + b + family + c + family, d, false, true, false);
}

/// Text between hidden tags is what is read of the whole.
proof fn lemma_read_between(open: Seq<char>, s: Seq<char>, close: Seq<char>, words: Seq<char>)
    requires
        markup::hides(open, false, false),
        markup::reads_as(s, words),
        markup::hides(close, false, false),
    ensures
        markup::reads_as(open + s + close, words),
{
    markup::lemma_reads_joined(open, s, Seq::empty(), words);
    assert(Seq::<char>::empty() + words =~= words);
    markup::lemma_reads_joined(open + s, close, words, Seq::empty());
    assert(words + Seq::<char>::empty() =~= words);
}

proof fn lemma_line_reads(line: Seq<char>, run: RunModel, theme: Theme)
    ensures
        markup::reads_as(line_xml(line, properties_xml(run, theme)), markup::xml_escaped(line)),
{
    if line.len() > 0 {
        reveal_strlit("<w:r>");
        reveal_strlit("<w:t xml:space=\"preserve\">");
        reveal_strlit("</w:t></w:r>");
        let properties = properties_xml(run, theme);
        lemma_properties_are_hidden(run, theme);
        markup::lemma_hides("<w:r>"@, false);
        markup::lemma_hides("<w:t xml:space=\"preserve\">"@, false);
        markup::lemma_hides("</w:t></w:r>"@, false);
        markup::lemma_hides_joined("<w:r>"@, properties, false, false, false);
        markup::lemma_hides_joined(
            "<w:r>"@ + properties,
            "<w:t xml:space=\"preserve\">"@,
            false,
            false,
            false,
        );
        markup::law_escaped_text_is_inert(line);
        markup::lemma_shown_of_inert(markup::xml_escaped(line));
        lemma_read_between(
            "<w:r>"@ + properties + "<w:t xml:space=\"preserve\">"@,
            markup::xml_escaped(line),
            "</w:t></w:r>"@,
            markup::xml_escaped(line),
        );
    } else {
        assert(line =~= Seq::<char>::empty());
    }
}

proof fn lemma_lines_read(lines: Seq<Seq<char>>, run: RunModel, theme: Theme, k: int)
    requires
        0 <= k <= lines.len(),
    ensures
        markup::reads_as(
            lines_xml(lines, properties_xml(run, theme), k),
            markup::xml_escaped(lines.take(k).flatten()),
        ),
    decreases k,
{
    if k > 0 {
        let properties = properties_xml(run, theme);
        let before = lines_xml(lines, properties, k - 1);
        let cut = when(k > 1, "<w:r><w:br/></w:r>"@);
        let words = lines.take(k - 1).flatten();
        reveal_strlit("<w:r><w:br/></w:r>");
        lemma_lines_read(lines, run, theme, k - 1);
        lemma_line_reads(lines[k - 1], run, theme);
        markup::lemma_hides(cut, false);
        markup::lemma_reads_joined(before, cut, markup::xml_escaped(words), Seq::empty());
        assert(markup::xml_escaped(words) + Seq::<char>::empty() =~= markup::xml_escaped(words));
        markup::lemma_reads_joined(
            before + cut,
            line_xml(lines[k - 1], properties),
            markup::xml_escaped(words),
            markup::xml_escaped(lines[k - 1]),
        );
        text::lemma_flatten_push(lines.take(k - 1), lines[k - 1]);
        assert(lines.take(k - 1).push(lines[k - 1]) =~= lines.take(k));
        markup::lemma_xml_escaped_of_joined(words, lines[k - 1]);
    } else {
        assert(lines.take(0) =~= Seq::<Seq<char>>::empty());
    }
}

proof fn lemma_runs_read(runs: Seq<RunModel>, theme: Theme)
    ensures
        markup::reads_as(
            runs_text(runs, theme, runs.len() as int),
            markup::xml_escaped(line_of(runs)),
        ),
    decreases runs.len(),
{
    if runs.len() > 0 {
        let rest = runs.drop_last();
        let last = runs.last();
        let lines = text::pieces(last.text, '\n');
        lemma_runs_read(rest, theme);
        lemma_runs_text_of_prefix(rest, seq![last], theme, rest.len() as int);
        assert(rest + seq![last] =~= runs);
        lemma_lines_read(lines, last, theme, lines.len() as int);
        assert(lines.take(lines.len() as int) =~= lines);
        lemma_pieces_are_one_line(last.text, 0);
        assert(last.text.skip(0) =~= last.text);
        lemma_one_line_of_joined(blocks::plain_text(rest), last.text);
        markup::lemma_xml_escaped_of_joined(line_of(rest), one_line(last.text));
        markup::lemma_reads_joined(
            runs_text(rest, theme, rest.len() as int),
            run_xml(last, theme),
            markup::xml_escaped(line_of(rest)),
            markup::xml_escaped(one_line(last.text)),
        );
    } else {
        lemma_without_newline(Seq::empty());
    }
}

proof fn lemma_decimal_is_inert(n: nat)
    ensures
        markup::is_inert(text::decimal(n)),
        !text::decimal(n).contains('\n'),
    decreases n,
{
    let digits = text::decimal(n);
    if n >= 10 {
        lemma_decimal_is_inert(n / 10);
    }
    assert forall|i: int| 0 <= i < digits.len() implies digits[i] != '<' && digits[i] != '>'
        && digits[i] != '"' && digits[i] != '\'' && digits[i] != '\n' by {
        if n >= 10 && i < digits.len() - 1 {
            assert(text::decimal(n / 10).contains(text::decimal(n / 10)[i]));
        }
    }
}

/// Inert text inside an open tag, behind a hidden beginning and before a
/// hidden end.
proof fn lemma_hidden_value(a: Seq<char>, value: Seq<char>, b: Seq<char>, open: bool, after: bool)
    requires
        markup::hides(a, open, true),
        markup::is_inert(value),
        markup::hides(b, true, after),
    ensures
        markup::hides(a + value + b, open, after),
{
    markup::lemma_shown_of_inert(value);
    markup::lemma_hides_joined(a, value, open, true, true);
    markup::lemma_hides_joined(a + value, b, open, true, after);
}

proof fn lemma_paragraph_reads(
    style: Seq<char>,
    indent: Option<(int, int)>,
    runs: Seq<char>,
    words: Seq<char>,
)
    requires
        markup::is_inert(style),
        markup::reads_as(runs, words),
    ensures
        markup::reads_as(paragraph_text(style, indent, runs), words),
{
    reveal_strlit("<w:p><w:pPr><w:pStyle w:val=\"");
    reveal_strlit("\"/>");
    reveal_strlit("<w:ind w:left=\"");
    reveal_strlit("\" w:hanging=\"");
    reveal_strlit("</w:pPr>");
    reveal_strlit("</w:p>");
    let start = "<w:p><w:pPr><w:pStyle w:val=\""@;
    let end = "\"/>"@;
    markup::lemma_hides(start, false);
    markup::lemma_hides(end, true);
    markup::lemma_hides("</w:pPr>"@, false);
    markup::lemma_hides("</w:p>"@, false);
    lemma_hidden_value(start, style, end, false, false);
    let dented = indent_text(indent);
    if let Some((left, hanging)) = indent {
        let a = "<w:ind w:left=\""@;
        let b = "\" w:hanging=\""@;
        markup::lemma_hides(a, false);
        markup::lemma_hides(b, true);
        lemma_decimal_is_inert(left as nat);
        lemma_decimal_is_inert(hanging as nat);
        lemma_hidden_value(a, text::decimal(left as nat), b, false, true);
        lemma_hidden_value(
            a + text::decimal(left as nat) + b,
            text::decimal(hanging as nat),
            end,
            false,
            false,
        );
    }
    let head = start + style + end;
    assert(markup::hides(dented, false, false));
    markup::lemma_hides_joined(head, dented, false, false, false);
    markup::lemma_hides_joined(head + dented, "</w:pPr>"@, false, false, false);
    lemma_read_between(head + dented + "</w:pPr>"@, runs, "</w:p>"@, words);
}

proof fn lemma_same_words(runs: Seq<RunModel>, bold: bool)
    ensures
        blocks::plain_text(emboldened(runs, bold)) == blocks::plain_text(runs),
        blocks::plain_text(italicized(runs)) == blocks::plain_text(runs),
    decreases runs.len(),
{
    if runs.len() > 0 {
        lemma_same_words(runs.drop_last(), bold);
        assert(emboldened(runs, bold).drop_last() =~= emboldened(runs.drop_last(), bold));
        assert(italicized(runs).drop_last() =~= italicized(runs.drop_last()));
    }
}

proof fn lemma_cells_read(row: Seq<Seq<RunModel>>, is_header: bool, theme: Theme, k: int)
    requires
        0 <= k <= row.len(),
    ensures
        markup::reads_as(
            cells_text(row, is_header, theme, k),
            markup::xml_escaped(row_words(row.take(k))),
        ),
    decreases k,
{
    let word = |cell: Seq<RunModel>| line_of(cell);
    if k > 0 {
        let cell = row[k - 1];
        lemma_cells_read(row, is_header, theme, k - 1);
        lemma_same_words(cell, is_header);
        lemma_runs_read(emboldened(cell, is_header), theme);
        reveal_strlit("<w:tc><w:tcPr/><w:p>");
        reveal_strlit("</w:p></w:tc>");
        markup::lemma_hides("<w:tc><w:tcPr/><w:p>"@, false);
        markup::lemma_hides("</w:p></w:tc>"@, false);
        let escaped = markup::xml_escaped(line_of(cell));
        lemma_read_between(
            "<w:tc><w:tcPr/><w:p>"@,
            runs_text(emboldened(cell, is_header), theme, cell.len() as int),
            "</w:p></w:tc>"@,
            escaped,
        );
        let before = row_words(row.take(k - 1));
        markup::lemma_reads_joined(
            cells_text(row, is_header, theme, k - 1),
            cell_text(cell, is_header, theme),
            markup::xml_escaped(before),
            escaped,
        );
        assert(row.take(k).map_values(word) =~= row.take(k - 1).map_values(word).push(
            line_of(cell),
        ));
        text::lemma_flatten_push(row.take(k - 1).map_values(word), line_of(cell));
        markup::lemma_xml_escaped_of_joined(before, line_of(cell));
    } else {
        assert(row.take(0).map_values(word) =~= Seq::<Seq<char>>::empty());
    }
}

/// What a reader reads of rows, in order.
pub open spec fn rows_words(rows: Seq<Seq<Seq<RunModel>>>) -> Seq<char> {
    rows.map_values(|row: Seq<Seq<RunModel>>| row_words(row)).flatten()
}

proof fn lemma_rows_read(rows: Seq<Seq<Seq<RunModel>>>, has_header: bool, theme: Theme, k: int)
    requires
        0 <= k <= rows.len(),
    ensures
        markup::reads_as(
            rows_text(rows, has_header, theme, k),
            markup::xml_escaped(rows_words(rows.take(k))),
        ),
    decreases k,
{
    let word = |row: Seq<Seq<RunModel>>| row_words(row);
    if k > 0 {
        let row = rows[k - 1];
        lemma_rows_read(rows, has_header, theme, k - 1);
        lemma_cells_read(row, has_header && k == 1, theme, row.len() as int);
        assert(row.take(row.len() as int) =~= row);
        reveal_strlit("<w:tr>");
        reveal_strlit("</w:tr>");
        markup::lemma_hides("<w:tr>"@, false);
        markup::lemma_hides("</w:tr>"@, false);
        let escaped = markup::xml_escaped(row_words(row));
        let cells = cells_text(row, has_header && k == 1, theme, row.len() as int);
        lemma_read_between("<w:tr>"@, cells, "</w:tr>"@, escaped);
        let before = rows_words(rows.take(k - 1));
        markup::lemma_reads_joined(
            rows_text(rows, has_header, theme, k - 1),
            "<w:tr>"@ + cells + "</w:tr>"@,
            markup::xml_escaped(before),
            escaped,
        );
        assert(rows.take(k).map_values(word) =~= rows.take(k - 1).map_values(word).push(
            row_words(row),
        ));
        text::lemma_flatten_push(rows.take(k - 1).map_values(word), row_words(row));
        markup::lemma_xml_escaped_of_joined(before, row_words(row));
    } else {
        assert(rows.take(0).map_values(word) =~= Seq::<Seq<char>>::empty());
    }
}

proof fn lemma_table_reads(rows: Seq<Seq<Seq<RunModel>>>, has_header: bool, theme: Theme)
    ensures
        markup::reads_as(
            table_text(rows, has_header, theme),
            markup::xml_escaped(rows_words(rows)),
        ),
{
    lemma_rows_read(rows, has_header, theme, rows.len() as int);
    assert(rows.take(rows.len() as int) =~= rows);
    reveal_strlit("<w:tbl><w:tblPr><w:tblW w:w=\"0\" w:type=\"auto\"/><w:tblBorders><w:top w:val=\"single\" w:sz=\"4\" w:space=\"0\" w:color=\"BBBBBB\"/><w:left w:val=\"single\" w:sz=\"4\" w:space=\"0\" w:color=\"BBBBBB\"/><w:bottom w:val=\"single\" w:sz=\"4\" w:space=\"0\" w:color=\"BBBBBB\"/><w:right w:val=\"single\" w:sz=\"4\" w:space=\"0\" w:color=\"BBBBBB\"/><w:insideH w:val=\"single\" w:sz=\"4\" w:space=\"0\" w:color=\"BBBBBB\"/><w:insideV w:val=\"single\" w:sz=\"4\" w:space=\"0\" w:color=\"BBBBBB\"/></w:tblBorders><w:tblCellMar><w:left w:w=\"108\" w:type=\"dxa\"/><w:right w:w=\"108\" w:type=\"dxa\"/></w:tblCellMar></w:tblPr>");
    reveal_strlit("</w:tbl><w:p/>");
    markup::lemma_hides(TABLE_OPEN@, false);
    markup::lemma_hides("</w:tbl><w:p/>"@, false);
    lemma_read_between(
        TABLE_OPEN@,
        rows_text(rows, has_header, theme, rows.len() as int),
        "</w:tbl><w:p/>"@,
        markup::xml_escaped(rows_words(rows)),
    );
}

proof fn lemma_size_is_hidden(width: nat, height: nat)
    ensures
        markup::hides(size_text(width, height), true, true),
{
    reveal_strlit(" cx=\"");
    reveal_strlit("\" cy=\"");
    reveal_strlit("\"");
    markup::lemma_hides(" cx=\""@, true);
    markup::lemma_hides("\" cy=\""@, true);
    markup::lemma_hides("\""@, true);
    lemma_decimal_is_inert(width);
    lemma_decimal_is_inert(height);
    lemma_hidden_value(" cx=\""@, text::decimal(width), "\" cy=\""@, true, true);
    lemma_hidden_value(
        " cx=\""@ + text::decimal(width) + "\" cy=\""@,
        text::decimal(height),
        "\""@,
        true,
        true,
    );
}

proof fn lemma_picture_is_hidden(
    relationship: Seq<char>,
    id: nat,
    picture: Picture,
    paper: Paper,
)
    requires
        markup::is_inert(relationship),
    ensures
        markup::hides(picture_text(relationship, id, picture, paper), false, false),
{
    let (width, height) = extent_of(picture.bytes@, paper);
    let name = markup::xml_escaped(picture.src@);
    let size = size_text(width as nat, height as nat);
    markup::law_escaped_text_is_inert(picture.src@);
    lemma_size_is_hidden(width as nat, height as nat);
    lemma_decimal_is_inert(id);
    let a = "<w:p><w:r><w:drawing><wp:inline distT=\"0\" distB=\"0\" distL=\"0\" distR=\"0\"><wp:extent"@;
    let b = "/><wp:docPr id=\""@;
    let c = "\" name=\""@;
    let d = "\"/><a:graphic><a:graphicData uri=\"http://schemas.openxmlformats.org/drawingml/2006/picture\"><pic:pic><pic:nvPicPr><pic:cNvPr id=\"0\" name=\""@;
    let e = "\"/><pic:cNvPicPr/></pic:nvPicPr><pic:blipFill><a:blip r:embed=\""@;
    let f = "\"/><a:stretch><a:fillRect/></a:stretch></pic:blipFill><pic:spPr><a:xfrm><a:off x=\"0\" y=\"0\"/><a:ext"@;
    let g = "/></a:xfrm><a:prstGeom prst=\"rect\"><a:avLst/></a:prstGeom></pic:spPr></pic:pic></a:graphicData></a:graphic></wp:inline></w:drawing></w:r></w:p>"@;
    assert(markup::hides(a, false, true)) by {
        reveal_strlit("<w:p><w:r><w:drawing><wp:inline distT=\"0\" distB=\"0\" distL=\"0\" distR=\"0\"><wp:extent");
        markup::lemma_hides(a, false);
    }
    assert(markup::hides(b, true, true)) by {
        reveal_strlit("/><wp:docPr id=\"");
        markup::lemma_hides(b, true);
    }
    assert(markup::hides(c, true, true)) by {
        reveal_strlit("\" name=\"");
        markup::lemma_hides(c, true);
    }
    assert(markup::hides(d, true, true)) by {
        reveal_strlit("\"/><a:graphic><a:graphicData uri=\"http://schemas.openxmlformats.org/drawingml/2006/picture\"><pic:pic><pic:nvPicPr><pic:cNvPr id=\"0\" name=\"");
        markup::lemma_hides(d, true);
    }
    assert(markup::hides(e, true, true)) by {
        reveal_strlit("\"/><pic:cNvPicPr/></pic:nvPicPr><pic:blipFill><a:blip r:embed=\"");
        markup::lemma_hides(e, true);
    }
    assert(markup::hides(f, true, true)) by {
        reveal_strlit("\"/><a:stretch><a:fillRect/></a:stretch></pic:blipFill><pic:spPr><a:xfrm><a:off x=\"0\" y=\"0\"/><a:ext");
        markup::lemma_hides(f, true);
    }
    assert(markup::hides(g, true, false)) by {
        reveal_strlit("/></a:xfrm><a:prstGeom prst=\"rect\"><a:avLst/></a:prstGeom></pic:spPr></pic:pic></a:graphicData></a:graphic></wp:inline></w:drawing></w:r></w:p>");
        markup::lemma_hides(g, true);
    }
    markup::lemma_hides_joined(a, size, false, true, true);
    markup::lemma_hides_joined(a + size, b, false, true, true);
    lemma_hidden_value(a + size + b, text::decimal(id), c, false, true);
    let first = a + size + b + text::decimal(id) + c;
    lemma_hidden_value(first, name, d, false, true);
    lemma_hidden_value(first + name + d, name, e, false, true);
    lemma_hidden_value(first + name + d + name + e, relationship, f, false, true);
    let second = first + name + d + name + e + relationship + f;
    markup::lemma_hides_joined(second, size, false, true, true);
    markup::lemma_hides_joined(second + size, g, false, true, false);
}

proof fn lemma_marked_line(marker: Seq<char>, runs: Seq<RunModel>)
    requires
        !marker.contains('\n'),
    ensures
        line_of(seq![blocks::plain_run(marker)] + runs) == marker + line_of(runs),
{
    let first = seq![blocks::plain_run(marker)];
    blocks::lemma_plain_text_of_joined(first, runs);
    assert(first.drop_last() =~= Seq::<RunModel>::empty());
    reveal_with_fuel(blocks::plain_text, 2);
    assert(blocks::plain_text(first) =~= marker);
    lemma_one_line_of_joined(marker, blocks::plain_text(runs));
    lemma_without_newline(marker);
}

/// Headings are numbered and list items count, in numbers that are not
/// negative.
proof fn lemma_block_reads(
    block: BlockModel,
    pictures: Seq<Picture>,
    theme: Theme,
    paper: Paper,
)
    ensures
        markup::reads_as(
            block_text(block, pictures, theme, paper),
            markup::xml_escaped(block_words(block)),
        ),
{
    reveal_strlit("Heading");
    reveal_strlit("Normal");
    reveal_strlit("ListParagraph");
    reveal_strlit("Quote");
    reveal_strlit("Code");
    match block {
        BlockModel::Heading(level, runs) => {
            let style = "Heading"@ + text::decimal(level as nat);
            lemma_decimal_is_inert(level as nat);
            assert forall|i: int| 0 <= i < style.len() implies style[i] != '<' && style[i] != '>'
                && style[i] != '"' && style[i] != '\'' by {
                if i >= 7 {
                    assert(text::decimal(level as nat).contains(style[i]));
                }
            }
            lemma_runs_read(runs, theme);
            lemma_paragraph_reads(
                style,
                None,
                runs_text(runs, theme, runs.len() as int),
                markup::xml_escaped(line_of(runs)),
            );
        },
        BlockModel::Paragraph(runs) => {
            lemma_runs_read(runs, theme);
            lemma_paragraph_reads(
                "Normal"@,
                None,
                runs_text(runs, theme, runs.len() as int),
                markup::xml_escaped(line_of(runs)),
            );
        },
        BlockModel::ListItem(number, runs) => {
            let marker = marker_text(number);
            reveal_strlit(".\t");
            reveal_strlit("•\t");
            match number {
                Some(n) => {
                    lemma_decimal_is_inert(n as nat);
                    assert forall|i: int| 0 <= i < marker.len() implies marker[i] != '\n' by {
                        if i < text::decimal(n as nat).len() {
                            assert(text::decimal(n as nat).contains(marker[i]));
                        }
                    }
                },
                None => {},
            }
            let listed = seq![blocks::plain_run(marker)] + runs;
            lemma_marked_line(marker, runs);
            lemma_runs_read(listed, theme);
            lemma_paragraph_reads(
                "ListParagraph"@,
                Some((INDENT_TWIPS as int, HANGING_TWIPS as int)),
                runs_text(listed, theme, listed.len() as int),
                markup::xml_escaped(line_of(listed)),
            );
        },
        BlockModel::Quote(runs) => {
            lemma_same_words(runs, false);
            lemma_runs_read(italicized(runs), theme);
            lemma_paragraph_reads(
                "Quote"@,
                Some((INDENT_TWIPS as int, 0int)),
                runs_text(italicized(runs), theme, runs.len() as int),
                markup::xml_escaped(line_of(runs)),
            );
        },
        BlockModel::Code(code) => {
            let run = RunModel { is_code: true, ..blocks::plain_run(code) };
            assert(seq![run].drop_last() =~= Seq::<RunModel>::empty());
            reveal_with_fuel(blocks::plain_text, 2);
            assert(blocks::plain_text(seq![run]) =~= code);
            lemma_runs_read(seq![run], theme);
            lemma_paragraph_reads(
                "Code"@,
                None,
                runs_text(seq![run], theme, 1),
                markup::xml_escaped(one_line(code)),
            );
        },
        BlockModel::Table(has_header, rows) => {
            lemma_table_reads(rows, has_header, theme);
        },
        BlockModel::Image(src) => {
            assert(markup::xml_escaped(Seq::empty()) =~= Seq::<char>::empty());
            if let Some(index) = picture_at(pictures, src, 0) {
                let id = relationship_id(index as nat);
                reveal_strlit("rId");
                lemma_decimal_is_inert((index as nat) + 2);
                assert forall|i: int| 0 <= i < id.len() implies id[i] != '<' && id[i] != '>'
                    && id[i] != '"' && id[i] != '\'' by {
                    if i >= 3 {
                        assert(text::decimal((index as nat) + 2).contains(id[i]));
                    }
                }
                lemma_picture_is_hidden(id, (index + 1) as nat, pictures[index], paper);
            }
        },
        BlockModel::PageBreak => {
            assert(markup::xml_escaped(Seq::empty()) =~= Seq::<char>::empty());
            reveal_strlit("<w:p><w:r><w:br w:type=\"page\"/></w:r></w:p>");
            markup::lemma_hides(PAGE_BREAK@, false);
        },
    }
}

/// A Word body reads as the blocks of the document, in order: every text of
/// every block is in it, escaped, and nothing else is.
pub proof fn law_the_body_reads_as_the_blocks(
    list: Seq<BlockModel>,
    pictures: Seq<Picture>,
    theme: Theme,
    paper: Paper,
)
    ensures
        markup::reads_as(
            blocks_text(list, pictures, theme, paper, list.len() as int),
            markup::xml_escaped(words_of_blocks(list)),
        ),
    decreases list.len(),
{
    let word = |block: BlockModel| block_words(block);
    if list.len() > 0 {
        let rest = list.drop_last();
        let last = list.last();
        law_the_body_reads_as_the_blocks(rest, pictures, theme, paper);
        lemma_blocks_of_prefix(rest, seq![last], pictures, theme, paper, rest.len() as int);
        assert(rest + seq![last] =~= list);
        lemma_block_reads(last, pictures, theme, paper);
        markup::lemma_reads_joined(
            blocks_text(rest, pictures, theme, paper, rest.len() as int),
            block_text(last, pictures, theme, paper),
            markup::xml_escaped(words_of_blocks(rest)),
            markup::xml_escaped(block_words(last)),
        );
        assert(list.map_values(word) =~= rest.map_values(word).push(block_words(last)));
        text::lemma_flatten_push(rest.map_values(word), block_words(last));
        markup::lemma_xml_escaped_of_joined(words_of_blocks(rest), block_words(last));
    } else {
        assert(list.map_values(word) =~= Seq::<Seq<char>>::empty());
    }
}

/// A Word document reads as its blocks, in order, behind the line feed of its
/// header.
pub proof fn law_the_document_reads_as_its_blocks(input: DocumentInput)
    ensures
        markup::reads_as(
            document_text(input),
            "\n"@ + markup::xml_escaped(words_of_blocks(blocks::blocks_of(input.blocks@))),
        ),
{
    let (width, height) = page_size(input.paper);
    let list = blocks::blocks_of(input.blocks@);
    let inner = blocks_text(
        list,
        input.pictures@,
        input.theme,
        input.paper,
        list.len() as int,
    );
    let words = markup::xml_escaped(words_of_blocks(list));
    law_the_body_reads_as_the_blocks(list, input.pictures@, input.theme, input.paper);
    let a = "<w:sectPr><w:pgSz w:w=\""@;
    let b = "\" w:h=\""@;
    let c = "\"/><w:pgMar w:top=\"1440\" w:right=\"1440\" w:bottom=\"1440\" w:left=\"1440\" w:header=\"708\" w:footer=\"708\" w:gutter=\"0\"/></w:sectPr></w:body>"@;
    assert(markup::hides(a, false, true)) by {
        reveal_strlit("<w:sectPr><w:pgSz w:w=\"");
        markup::lemma_hides(a, false);
    }
    assert(markup::hides(b, true, true)) by {
        reveal_strlit("\" w:h=\"");
        markup::lemma_hides(b, true);
    }
    assert(markup::hides(c, true, false)) by {
        reveal_strlit("\"/><w:pgMar w:top=\"1440\" w:right=\"1440\" w:bottom=\"1440\" w:left=\"1440\" w:header=\"708\" w:footer=\"708\" w:gutter=\"0\"/></w:sectPr></w:body>");
        markup::lemma_hides(c, true);
    }
    lemma_decimal_is_inert(width as nat);
    lemma_decimal_is_inert(height as nat);
    let w = text::decimal(width as nat);
    let h = text::decimal(height as nat);
    lemma_hidden_value(a, w, b, false, true);
    lemma_hidden_value(a + w + b, h, c, false, false);
    let section = a + w + b + h + c;
    assert(markup::hides("<w:body>"@, false, false)) by {
        reveal_strlit("<w:body>");
        markup::lemma_hides("<w:body>"@, false);
    }
    lemma_read_between("<w:body>"@, inner, section, words);
    assert(body_text(input) =~= "<w:body>"@ + inner + section);
    let open = "<w:document "@ + WORD_NAMESPACES@ + ">"@;
    assert(markup::hides("<w:document "@, false, true)) by {
        reveal_strlit("<w:document ");
        markup::lemma_hides("<w:document "@, false);
    }
    assert(markup::hides(WORD_NAMESPACES@, true, true)) by {
        reveal_strlit("xmlns:w=\"http://schemas.openxmlformats.org/wordprocessingml/2006/main\" xmlns:r=\"http://schemas.openxmlformats.org/officeDocument/2006/relationships\" xmlns:wp=\"http://schemas.openxmlformats.org/drawingml/2006/wordprocessingDrawing\" xmlns:a=\"http://schemas.openxmlformats.org/drawingml/2006/main\" xmlns:pic=\"http://schemas.openxmlformats.org/drawingml/2006/picture\"");
        markup::lemma_hides(WORD_NAMESPACES@, true);
    }
    assert(markup::hides(">"@, true, false)) by {
        reveal_strlit(">");
        markup::lemma_hides(">"@, true);
    }
    assert(markup::hides("</w:document>"@, false, false)) by {
        reveal_strlit("</w:document>");
        markup::lemma_hides("</w:document>"@, false);
    }
    markup::lemma_hides_joined("<w:document "@, WORD_NAMESPACES@, false, true, true);
    markup::lemma_hides_joined("<w:document "@ + WORD_NAMESPACES@, ">"@, false, true, false);
    lemma_read_between(open, body_text(input), "</w:document>"@, words);
    assert(markup::reads_as(XML_HEADER@, "\n"@)) by {
        reveal_strlit("<?xml version=\"1.0\" encoding=\"UTF-8\" standalone=\"yes\"?>\n");
        reveal_strlit("\n");
        let tag = XML_HEADER@.drop_last();
        markup::lemma_hides(tag, false);
        assert(Seq::<char>::empty().push('\n') =~= "\n"@);
    }
    markup::lemma_reads_joined(
        XML_HEADER@,
        open + body_text(input) + "</w:document>"@,
        "\n"@,
        words,
    );
    assert(document_text(input) =~= XML_HEADER@ + (open + body_text(input) + "</w:document>"@));
}

proof fn lemma_relationship_listed(pictures: Seq<Picture>, index: int, k: int)
    requires
        0 <= index < k <= pictures.len(),
    ensures
        text::holds(
            picture_relationships(pictures, k),
            relationship_text(
                relationship_id(index as nat),
                "image"@,
                media_name(index as nat, pictures[index]),
            ),
        ),
    decreases k,
{
    let part = relationship_text(
        relationship_id(index as nat),
        "image"@,
        media_name(index as nat, pictures[index]),
    );
    let before = picture_relationships(pictures, k - 1);
    let nothing = Seq::<char>::empty();
    if index == k - 1 {
        assert(part.subrange(0, part.len() as int) =~= part);
        assert(text::stands_at(part, part, 0));
        text::lemma_holds_behind(before, part, nothing, part);
        assert(before + part + nothing =~= before + part);
    } else {
        lemma_relationship_listed(pictures, index, k - 1);
        let last = relationship_text(
            relationship_id((k - 1) as nat),
            "image"@,
            media_name((k - 1) as nat, pictures[k - 1]),
        );
        text::lemma_holds_behind(nothing, before, last, part);
        assert(nothing + before + last =~= before + last);
    }
}

/// A picture that a block shows is in the package: the drawing names a
/// relationship, which no other picture and no other part has, which leads to
/// a file with the bytes of the first picture of that source.
pub proof fn law_a_picture_is_in_the_package(input: DocumentInput, src: Seq<char>, index: int)
    requires
        0 <= index < input.pictures@.len(),
        input.pictures@[index].src@ == src,
        forall|i: int| 0 <= i < index ==> (#[trigger] input.pictures@[i]).src@ != src,
    ensures
        ({
            let picture = input.pictures@[index];
            let id = relationship_id(index as nat);
            let target = media_name(index as nat, picture);
            &&& text::holds(
                block_text(BlockModel::Image(src), input.pictures@, input.theme, input.paper),
                "<a:blip r:embed=\""@ + id + "\"/>"@,
            )
            &&& text::holds(
                picture_relationships(input.pictures@, input.pictures@.len() as int),
                relationship_text(id, "image"@, target),
            )
            &&& package_files(input).contains(("word/"@ + target, picture.bytes@, true))
            &&& id != "rId1"@
            &&& forall|other: int|
                0 <= other < input.pictures@.len() && other != index ==> #[trigger] relationship_id(
                    other as nat,
                ) != id
        }),
{
    let pictures = input.pictures@;
    let picture = pictures[index];
    let id = relationship_id(index as nat);
    lemma_first_picture(pictures, src, index, 0);
    lemma_relationship_listed(pictures, index, pictures.len() as int);
    let files = package_files(input);
    assert(files[6 + index] == media_files(pictures)[index]);
    lemma_own_relationship(index as nat);
    assert forall|other: int| 0 <= other < pictures.len() && other != index implies
        #[trigger] relationship_id(other as nat) != id by {
        lemma_relationships_differ(other as nat, index as nat);
    }
    lemma_drawing_names(id, (index + 1) as nat, picture, input.paper);
}

proof fn lemma_own_relationship(index: nat)
    ensures
        relationship_id(index) != "rId1"@,
{
    let id = relationship_id(index);
    reveal_strlit("rId");
    reveal_strlit("rId1");
    if id == "rId1"@ {
        assert(id.skip(3) =~= text::decimal(index + 2));
        assert("rId1"@.skip(3) =~= text::decimal(1));
        order::lemma_decimals_differ(1, index + 2);
    }
}

proof fn lemma_relationships_differ(a: nat, b: nat)
    requires
        a != b,
    ensures
        relationship_id(a) != relationship_id(b),
{
    reveal_strlit("rId");
    assert(relationship_id(a).skip(3) =~= text::decimal(a + 2));
    assert(relationship_id(b).skip(3) =~= text::decimal(b + 2));
    order::lemma_decimals_differ(a + 2, b + 2);
}

proof fn lemma_drawing_names(relationship: Seq<char>, id: nat, picture: Picture, paper: Paper)
    ensures
        text::holds(
            picture_text(relationship, id, picture, paper),
            "<a:blip r:embed=\""@ + relationship + "\"/>"@,
        ),
{
    let (width, height) = extent_of(picture.bytes@, paper);
    let name = markup::xml_escaped(picture.src@);
    let size = size_text(width as nat, height as nat);
    let a = "<w:p><w:r><w:drawing><wp:inline distT=\"0\" distB=\"0\" distL=\"0\" distR=\"0\"><wp:extent"@
        + size + "/><wp:docPr id=\""@ + text::decimal(id) + "\" name=\""@ + name
        + "\"/><a:graphic><a:graphicData uri=\"http://schemas.openxmlformats.org/drawingml/2006/picture\"><pic:pic><pic:nvPicPr><pic:cNvPr id=\"0\" name=\""@
        + name;
    let b = "\"/><pic:cNvPicPr/></pic:nvPicPr><pic:blipFill><a:blip r:embed=\""@;
    let c = "\"/><a:stretch><a:fillRect/></a:stretch></pic:blipFill><pic:spPr><a:xfrm><a:off x=\"0\" y=\"0\"/><a:ext"@;
    let d = size;
    let e = "/></a:xfrm><a:prstGeom prst=\"rect\"><a:avLst/></a:prstGeom></pic:spPr></pic:pic></a:graphicData></a:graphic></wp:inline></w:drawing></w:r></w:p>"@;
    let open = "<a:blip r:embed=\""@;
    let close = "\"/>"@;
    let part = open + relationship + close;
    let head = b.take(46);
    let tail = c.skip(3);
    assert(b == head + open) by {
        reveal_strlit("\"/><pic:cNvPicPr/></pic:nvPicPr><pic:blipFill><a:blip r:embed=\"");
        reveal_strlit("<a:blip r:embed=\"");
        assert(b =~= head + open);
    }
    assert(c == close + tail) by {
        reveal_strlit("\"/><a:stretch><a:fillRect/></a:stretch></pic:blipFill><pic:spPr><a:xfrm><a:off x=\"0\" y=\"0\"/><a:ext");
        reveal_strlit("\"/>");
        assert(c =~= close + tail);
    }
    let whole = picture_text(relationship, id, picture, paper);
    assert(whole == a + b + relationship + c + d + e);
    assert(a + (head + open) + relationship + (close + tail) + d + e =~= (a + head) + part + (tail
        + d + e));
    assert(part.subrange(0, part.len() as int) =~= part);
    assert(text::stands_at(part, part, 0));
    text::lemma_holds_behind(a + head, part, tail + d + e, part);
}

proof fn lemma_first_picture(pictures: Seq<Picture>, src: Seq<char>, index: int, k: int)
    requires
        0 <= k <= index < pictures.len(),
        pictures[index].src@ == src,
        forall|i: int| 0 <= i < index ==> (#[trigger] pictures[i]).src@ != src,
    ensures
        picture_at(pictures, src, k) == Some(index),
    decreases index - k,
{
    if k < index {
        lemma_first_picture(pictures, src, index, k + 1);
    }
}

} // verus!
