//! How text looks in a Word file: which style a run, a row and a block carry.

use vstd::prelude::*;

use crate::blocks;
use crate::blocks::{BlockModel, RunModel};
use crate::docx;
use crate::docx::Picture;
use crate::markup;
use crate::model::{Paper, Theme};
use crate::text;

verus! {

/// A bold run says so, an italic run says so, and a code run has the mono
/// font of the theme. A plain run says nothing.
pub proof fn law_a_run_shows_its_style(run: RunModel, theme: Theme)
    ensures
        ({
            let properties = docx::properties_xml(run, theme);
            &&& run.is_bold ==> text::holds(properties, "<w:b/>"@)
            &&& run.is_italic ==> text::holds(properties, "<w:i/>"@)
            &&& run.is_code ==> text::holds(properties, markup::xml_escaped(theme.fonts.mono@))
            &&& !run.is_bold && !run.is_italic && !run.is_code ==> properties.len() == 0
        }),
{
    let a = "<w:rPr>"@;
    let b = docx::when(run.is_bold, "<w:b/>"@);
    let i = docx::when(run.is_italic, "<w:i/>"@);
    let family = markup::xml_escaped(theme.fonts.mono@);
    let fonts = docx::fonts_xml(family);
    let c = docx::when(run.is_code, fonts);
    let e = "</w:rPr>"@;
    lemma_holds_each(a, b, i, c, e);
    if run.is_code {
        let open = "<w:rFonts w:ascii=\""@;
        let rest = "\" w:hAnsi=\""@ + family + "\" w:cs=\""@ + family + "\"/>"@;
        text::lemma_holds_itself(open, family, rest);
        assert(fonts =~= open + family + rest);
        text::lemma_holds_inside(a + b + i + c + e, fonts, family);
    }
}

proof fn lemma_holds_each(
    a: Seq<char>,
    b: Seq<char>,
    c: Seq<char>,
    d: Seq<char>,
    e: Seq<char>,
)
    ensures
        text::holds(a + b + c + d + e, b),
        text::holds(a + b + c + d + e, c),
        text::holds(a + b + c + d + e, d),
{
    let whole = a + b + c + d + e;
    text::lemma_holds_itself(a, b, c + d + e);
    assert(a + b + (c + d + e) =~= whole);
    text::lemma_holds_itself(a + b, c, d + e);
    assert(a + b + c + (d + e) =~= whole);
    text::lemma_holds_itself(a + b + c, d, e);
}

/// To make a run bold, italic, or code changes how it looks, whatever else it
/// is.
pub proof fn law_styles_can_be_told_apart(run: RunModel, theme: Theme)
    ensures
        ({
            let shown = |is_bold: bool, is_italic: bool, is_code: bool|
                docx::properties_xml(RunModel { is_bold, is_italic, is_code, ..run }, theme);
            &&& shown(true, run.is_italic, run.is_code) != shown(
                false,
                run.is_italic,
                run.is_code,
            )
            &&& shown(run.is_bold, true, run.is_code) != shown(run.is_bold, false, run.is_code)
            &&& shown(run.is_bold, run.is_italic, true) != shown(
                run.is_bold,
                run.is_italic,
                false,
            )
        }),
{
    reveal_strlit("<w:rPr>");
    reveal_strlit("</w:rPr>");
    reveal_strlit("<w:b/>");
    reveal_strlit("<w:i/>");
    reveal_strlit("<w:rFonts w:ascii=\"");
    let b = |is_bold: bool| docx::properties_xml(RunModel { is_bold, ..run }, theme);
    let i = |is_italic: bool| docx::properties_xml(RunModel { is_italic, ..run }, theme);
    let c = |is_code: bool| docx::properties_xml(RunModel { is_code, ..run }, theme);
    assert(b(true).len() > b(false).len());
    assert(i(true).len() > i(false).len());
    assert(c(true).len() > c(false).len());
}

/// A line of text carries the style of its run, right before the text.
pub proof fn law_a_line_carries_its_style(run: RunModel, theme: Theme)
    requires
        run.text.len() > 0,
        !run.text.contains('\n'),
    ensures
        docx::run_xml(run, theme) == "<w:r>"@ + docx::properties_xml(run, theme)
            + "<w:t xml:space=\"preserve\">"@ + markup::xml_escaped(run.text) + "</w:t></w:r>"@,
{
    let properties = docx::properties_xml(run, theme);
    let lines = text::pieces(run.text, '\n');
    text::lemma_find_char_from(run.text, '\n', 0);
    assert(text::find_char_from(run.text, '\n', 0) is None);
    assert(run.text.subrange(0, run.text.len() as int) =~= run.text);
    assert(lines =~= seq![run.text]);
    reveal_with_fuel(docx::lines_xml, 2);
    let line = docx::line_xml(run.text, properties);
    assert(Seq::<char>::empty() + Seq::<char>::empty() + line =~= line);
    assert(docx::lines_xml(lines, properties, 1) =~= line);
}

/// The paragraph style element with this name.
pub open spec fn style_element(name: Seq<char>) -> Seq<char> {
    "<w:pPr><w:pStyle w:val=\""@ + name + "\"/>"@
}

proof fn lemma_paragraph_style(style: Seq<char>, indent: Option<(int, int)>, runs: Seq<char>)
    ensures
        text::starts_with(docx::paragraph_text(style, indent, runs), "<w:p>"@ + style_element(style)),
        text::holds(docx::paragraph_text(style, indent, runs), runs),
{
    reveal_strlit("<w:p>");
    reveal_strlit("<w:pPr><w:pStyle w:val=\"");
    reveal_strlit("<w:p><w:pPr><w:pStyle w:val=\"");
    let whole = docx::paragraph_text(style, indent, runs);
    let start = "<w:p>"@ + style_element(style);
    let open = "<w:p><w:pPr><w:pStyle w:val=\""@;
    assert(open =~= "<w:p>"@ + "<w:pPr><w:pStyle w:val=\""@);
    assert(start =~= open + style + "\"/>"@);
    let front = open + style + "\"/>"@ + docx::indent_text(indent) + "</w:pPr>"@;
    assert(whole == front + runs + "</w:p>"@);
    text::lemma_holds_itself(front, runs, "</w:p>"@);
    assert(whole.subrange(0, start.len() as int) =~= start);
}

/// Each kind of text block has its own paragraph style, and holds its runs: a
/// heading the style of its level, a quote its runs in italics, a list item
/// its marker before them.
pub proof fn law_a_block_has_its_style(
    block: BlockModel,
    pictures: Seq<Picture>,
    theme: Theme,
    paper: Paper,
)
    ensures
        ({
            let xml = docx::block_text(block, pictures, theme, paper);
            let shown = |runs: Seq<RunModel>| docx::runs_text(runs, theme, runs.len() as int);
            let styled = |name: Seq<char>| text::starts_with(xml, "<w:p>"@ + style_element(name));
            match block {
                BlockModel::Heading(level, runs) => styled(
                    "Heading"@ + text::decimal(level as nat),
                ) && text::holds(xml, shown(runs)),
                BlockModel::Paragraph(runs) => styled("Normal"@) && text::holds(xml, shown(runs)),
                BlockModel::ListItem(number, runs) => styled("ListParagraph"@) && text::holds(
                    xml,
                    shown(seq![blocks::plain_run(docx::marker_text(number))] + runs),
                ),
                BlockModel::Quote(runs) => styled("Quote"@) && text::holds(
                    xml,
                    shown(
                        Seq::new(
                            runs.len(),
                            |k: int| RunModel { is_italic: true, ..runs[k] },
                        ),
                    ),
                ),
                BlockModel::Code(code) => styled("Code"@) && text::holds(
                    xml,
                    shown(
                        seq![
                            RunModel {
                                text: code,
                                is_bold: false,
                                is_italic: false,
                                is_code: true,
                            },
                        ],
                    ),
                ),
                BlockModel::PageBreak => xml == docx::PAGE_BREAK@,
                _ => true,
            }
        }),
{
    match block {
        BlockModel::Heading(level, runs) => {
            lemma_paragraph_style(
                "Heading"@ + text::decimal(level as nat),
                None,
                docx::runs_text(runs, theme, runs.len() as int),
            );
        },
        BlockModel::Paragraph(runs) => {
            lemma_paragraph_style(
                "Normal"@,
                None,
                docx::runs_text(runs, theme, runs.len() as int),
            );
        },
        BlockModel::ListItem(number, runs) => {
            let listed = seq![blocks::plain_run(docx::marker_text(number))] + runs;
            lemma_paragraph_style(
                "ListParagraph"@,
                Some((docx::INDENT_TWIPS as int, docx::HANGING_TWIPS as int)),
                docx::runs_text(listed, theme, listed.len() as int),
            );
        },
        BlockModel::Quote(runs) => {
            let slanted = Seq::new(
                runs.len(),
                |k: int| RunModel { is_italic: true, ..runs[k] },
            );
            assert(docx::italicized(runs) =~= slanted);
            lemma_paragraph_style(
                "Quote"@,
                Some((docx::INDENT_TWIPS as int, 0int)),
                docx::runs_text(slanted, theme, runs.len() as int),
            );
        },
        BlockModel::Code(code) => {
            let run = RunModel { text: code, is_bold: false, is_italic: false, is_code: true };
            lemma_paragraph_style("Code"@, None, docx::runs_text(seq![run], theme, 1));
        },
        _ => {},
    }
}

/// Every run of a row in bold.
pub open spec fn bold_row(row: Seq<Seq<RunModel>>) -> Seq<Seq<RunModel>> {
    row.map_values(
        |cell: Seq<RunModel>|
            cell.map_values(|run: RunModel| RunModel { is_bold: true, ..run }),
    )
}

proof fn lemma_bold_cells(row: Seq<Seq<RunModel>>, theme: Theme, k: int)
    requires
        0 <= k <= row.len(),
    ensures
        docx::cells_text(row, true, theme, k) == docx::cells_text(bold_row(row), false, theme, k),
    decreases k,
{
    if k > 0 {
        lemma_bold_cells(row, theme, k - 1);
        let cell = row[k - 1];
        let bold = bold_row(row)[k - 1];
        assert(docx::emboldened(cell, true) =~= docx::emboldened(bold, false));
    }
}

/// A header row looks like a row in bold, and only the first row is one.
pub proof fn law_a_header_row_is_bold(rows: Seq<Seq<Seq<RunModel>>>, theme: Theme, k: int)
    requires
        0 < k <= rows.len(),
    ensures
        docx::rows_text(rows, true, theme, k) == docx::rows_text(
            rows.update(0, bold_row(rows[0])),
            false,
            theme,
            k,
        ),
    decreases k,
{
    let bold = rows.update(0, bold_row(rows[0]));
    if k == 1 {
        reveal_with_fuel(docx::rows_text, 2);
        lemma_bold_cells(rows[0], theme, rows[0].len() as int);
    } else {
        law_a_header_row_is_bold(rows, theme, k - 1);
    }
}

/// The cells of a row stand in order, each with its runs.
pub proof fn law_cells_follow_each_other(
    a: Seq<Seq<RunModel>>,
    b: Seq<Seq<RunModel>>,
    is_header: bool,
    theme: Theme,
)
    ensures
        docx::cells_text(a + b, is_header, theme, (a + b).len() as int) == docx::cells_text(
            a,
            is_header,
            theme,
            a.len() as int,
        ) + docx::cells_text(b, is_header, theme, b.len() as int),
    decreases b.len(),
{
    if b.len() == 0 {
        assert(a + b =~= a);
        assert(docx::cells_text(a, is_header, theme, a.len() as int) + docx::cells_text(
            b,
            is_header,
            theme,
            0,
        ) =~= docx::cells_text(a, is_header, theme, a.len() as int));
    } else {
        let less = b.drop_last();
        law_cells_follow_each_other(a, less, is_header, theme);
        let n = (a + b).len() as int;
        assert((a + b)[n - 1] == b.last());
        lemma_cells_of_prefix(a + less, seq![b.last()], is_header, theme, n - 1);
        assert(a + less + seq![b.last()] =~= a + b);
        lemma_cells_of_prefix(less, seq![b.last()], is_header, theme, less.len() as int);
        assert(less + seq![b.last()] =~= b);
        let x = docx::cells_text(a, is_header, theme, a.len() as int);
        let y = docx::cells_text(less, is_header, theme, less.len() as int);
        let z = docx::cell_text(b.last(), is_header, theme);
        assert(x + y + z =~= x + (y + z));
    }
}

proof fn lemma_cells_of_prefix(
    a: Seq<Seq<RunModel>>,
    b: Seq<Seq<RunModel>>,
    is_header: bool,
    theme: Theme,
    k: int,
)
    requires
        0 <= k <= a.len(),
    ensures
        docx::cells_text(a + b, is_header, theme, k) == docx::cells_text(a, is_header, theme, k),
    decreases k,
{
    if k > 0 {
        lemma_cells_of_prefix(a, b, is_header, theme, k - 1);
        assert((a + b)[k - 1] == a[k - 1]);
    }
}

/// The package names the title of the document.
pub proof fn law_the_package_names_its_title(title: Seq<char>)
    ensures
        text::holds(docx::core_text(title), markup::xml_escaped(title)),
{
    let escaped = markup::xml_escaped(title);
    let whole = docx::core_text(title);
    let behind = "</dc:title><dc:creator>Swift Design</dc:creator></cp:coreProperties>"@;
    let front = docx::XML_HEADER@
        + "<cp:coreProperties xmlns:cp=\"http://schemas.openxmlformats.org/package/2006/metadata/core-properties\" xmlns:dc=\"http://purl.org/dc/elements/1.1/\" xmlns:dcterms=\"http://purl.org/dc/terms/\" xmlns:xsi=\"http://www.w3.org/2001/XMLSchema-instance\"><dc:title>"@;
    assert(whole == front + escaped + behind);
    text::lemma_holds_itself(front, escaped, behind);
}

/// A heading style has its level, its color, its font, and its size.
pub proof fn law_a_heading_style_has_its_looks(
    level: nat,
    size: nat,
    color: Seq<char>,
    font: Seq<char>,
)
    requires
        level > 0,
    ensures
        ({
            let style = docx::heading_text(level, size, color, font);
            &&& text::starts_with(
                style,
                "<w:style w:type=\"paragraph\" w:styleId=\"Heading"@ + text::decimal(level),
            )
            &&& text::holds(style, docx::fonts_xml(font))
            &&& text::holds(style, color)
            &&& text::holds(style, text::decimal(size))
        }),
{
    let style = docx::heading_text(level, size, color, font);
    let a = "<w:style w:type=\"paragraph\" w:styleId=\"Heading"@ + text::decimal(level);
    let b = a + "\"><w:name w:val=\"heading "@ + text::decimal(level)
        + "\"/><w:basedOn w:val=\"Normal\"/><w:next w:val=\"Normal\"/><w:qFormat/><w:pPr><w:keepNext/><w:spacing w:before=\"320\" w:after=\"120\"/><w:outlineLvl w:val=\""@
        + text::decimal((level - 1) as nat) + "\"/></w:pPr><w:rPr>"@;
    let fonts = docx::fonts_xml(font);
    let c = "<w:b/><w:color w:val=\""@;
    let d = "\"/><w:sz w:val=\""@;
    let e = "\"/><w:szCs w:val=\""@;
    let f = text::decimal(size);
    let g = "\"/></w:rPr></w:style>"@;
    assert(style == b + fonts + c + color + d + f + e + f + g);
    lemma_holds_three(b, fonts, c, color, d, f, e + f + g);
    assert(b + fonts + c + color + d + f + (e + f + g) =~= style);
    assert(style.subrange(0, a.len() as int) =~= a);
}

proof fn lemma_holds_three(
    a: Seq<char>,
    x: Seq<char>,
    b: Seq<char>,
    y: Seq<char>,
    c: Seq<char>,
    z: Seq<char>,
    d: Seq<char>,
)
    ensures
        text::holds(a + x + b + y + c + z + d, x),
        text::holds(a + x + b + y + c + z + d, y),
        text::holds(a + x + b + y + c + z + d, z),
{
    let whole = a + x + b + y + c + z + d;
    text::lemma_holds_itself(a, x, b + y + c + z + d);
    assert(a + x + (b + y + c + z + d) =~= whole);
    text::lemma_holds_itself(a + x + b, y, c + z + d);
    assert(a + x + b + y + (c + z + d) =~= whole);
    text::lemma_holds_itself(a + x + b + y + c, z, d);
}

/// There is a style for each heading level, in order, with the heading font
/// of the theme.
pub proof fn law_each_heading_level_has_a_style(theme: Theme)
    ensures
        ({
            let font = markup::xml_escaped(theme.fonts.heading@);
            let accent = docx::hex_color(theme.colors.accent@);
            let ink = docx::hex_color(theme.colors.text@);
            let all = docx::headings_text(theme);
            &&& text::starts_with(
                all,
                docx::heading_text(1, 64, accent, font) + docx::heading_text(2, 52, accent, font),
            )
            &&& text::holds(all, docx::heading_text(3, 44, ink, font))
            &&& text::holds(all, docx::heading_text(4, 36, ink, font))
            &&& text::holds(all, docx::heading_text(5, 32, ink, font))
            &&& text::ends_with(all, docx::heading_text(6, 28, ink, font))
        }),
{
    let font = markup::xml_escaped(theme.fonts.heading@);
    let accent = docx::hex_color(theme.colors.accent@);
    let ink = docx::hex_color(theme.colors.text@);
    let all = docx::headings_text(theme);
    lemma_six(
        all,
        docx::heading_text(1, 64, accent, font),
        docx::heading_text(2, 52, accent, font),
        docx::heading_text(3, 44, ink, font),
        docx::heading_text(4, 36, ink, font),
        docx::heading_text(5, 32, ink, font),
        docx::heading_text(6, 28, ink, font),
    );
}

proof fn lemma_six(
    all: Seq<char>,
    a: Seq<char>,
    b: Seq<char>,
    c: Seq<char>,
    d: Seq<char>,
    e: Seq<char>,
    f: Seq<char>,
)
    requires
        all == a + b + c + d + e + f,
    ensures
        text::starts_with(all, a + b),
        text::holds(all, c),
        text::holds(all, d),
        text::holds(all, e),
        text::ends_with(all, f),
{
    let n = (a + b).len() as int;
    assert(all.subrange(0, n) =~= a + b);
    lemma_holds_three(a + b, c, Seq::empty(), d, Seq::empty(), e, f);
    assert(a + b + c + Seq::<char>::empty() + d + Seq::<char>::empty() + e + f =~= all);
    assert(all.subrange(all.len() - f.len(), all.len() as int) =~= f);
}

/// A color is written without its number sign, with its letters in upper
/// case.
pub proof fn law_a_color_is_written_in_upper_case(digits: Seq<char>)
    requires
        digits.len() > 0,
        digits[0] != '#',
        !text::is_space(digits[0]),
        !text::is_space(digits.last()),
    ensures
        docx::hex_color(seq!['#'] + digits) == docx::hex_color(digits),
        docx::hex_color(digits).len() == digits.len(),
        forall|k: int|
            0 <= k < digits.len() ==> text::lower_char(#[trigger] docx::hex_color(digits)[k])
                == text::lower_char(digits[k]),
        forall|k: int|
            0 <= k < digits.len() ==> !('a' <= #[trigger] docx::hex_color(digits)[k] <= 'z'),
{
    let color = seq!['#'] + digits;
    assert(color.last() == digits.last());
    assert(text::trim(color) == color);
    assert(text::trim(digits) == digits);
    assert(color.drop_first() =~= digits);
    reveal_with_fuel(docx::without_hashes, 2);
    assert(docx::without_hashes(color) == digits);
    assert(docx::without_hashes(digits) == digits);
}

} // verus!
