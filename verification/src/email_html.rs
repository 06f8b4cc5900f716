//! The email-client HTML export.
//!
//! Email clients strip stylesheets and ignore modern layout CSS. Each email
//! becomes one self-contained document: its CSS is inlined into `style`
//! attributes, the theme variables are resolved, and the email sits in a
//! centered 600 px table shell with Outlook ghost tables around the
//! `columns` pattern. Rules the inliner cannot place on an element stay in a
//! `<style>` block that only some clients read.

use vstd::prelude::*;

use crate::css;
use crate::css::split_top_level;
use crate::dom;
use crate::dom::{class_list, parse_fragment, void_tag, Attribute, AttributeModel, Element, ElementModel, Node, NodeModel};
use crate::markup;
use crate::markup::{css_safe, escape_html};
use crate::model;
use crate::model::{borrowed, Email, Mailing, Theme};
use crate::order;
use crate::selector::text_is_in;
use crate::style;
use crate::style::{all_rules, merged_style, parse_rules, theme_variables};
use crate::text;
use crate::text::{chars_of, decimal_of, find_char, find_text, owned, part, text_of, trimmed};

verus! {

// -- The notes --------------------------------------------------------------

/// The text of `s` behind `marker`, cut at a line break or at `stop`, when
/// there is any.
pub open spec fn marked(s: Seq<char>, marker: Seq<char>, stop: Seq<char>) -> Option<Seq<char>> {
    match text::find(s, marker) {
        None => None,
        Some(at) => {
            let start = at + marker.len();
            let line = match text::find_char_from(s, '\n', start) {
                Some(end) => end,
                None => s.len() as int,
            };
            let end = match text::find_from(s, stop, start) {
                Some(other) => if other < line {
                    other
                } else {
                    line
                },
                None => line,
            };
            let found = text::trim(s.subrange(start, end));
            if found.len() == 0 {
                None
            } else {
                Some(found)
            }
        },
    }
}

/// The subject line that the notes of an email carry.
pub open spec fn subject_in(notes: Option<Seq<char>>) -> Option<Seq<char>> {
    match notes {
        Some(s) => marked(s, "Subject:"@, "Preheader:"@),
        None => None,
    }
}

/// The preheader text that the notes of an email carry.
pub open spec fn preheader_in(notes: Option<Seq<char>>) -> Option<Seq<char>> {
    match notes {
        Some(s) => marked(s, "Preheader:"@, "Subject:"@),
        None => None,
    }
}

/// The text after `marker`, cut at a line break or at `stop`.
fn marked_text(notes: &[char], marker: &str, stop: &str) -> (r: Option<String>)
    ensures
        model::optional(r) == marked(notes@, marker@, stop@),
{
    let length: usize = notes.len();
    let width: usize = chars_of(marker).len();
    let Some(at) = find_text(notes, marker, 0) else {
        return None;
    };
    let start: usize = at + width;
    let mut end: usize = match find_char(notes, '\n', start) {
        Some(line) => line,
        None => length,
    };
    if let Some(other) = find_text(notes, stop, start) {
        if other < end {
            end = other;
        }
    }
    let found = trimmed(&part(notes, start, end));
    if found.len() == 0 {
        None
    } else {
        Some(text_of(&found))
    }
}

/// The `Subject:` and `Preheader:` texts in the notes. Each runs to the
/// other marker or to the end of its line.
pub fn subject_and_preheader(notes: Option<&str>) -> (r: (Option<String>, Option<String>))
    ensures
        model::optional(r.0) == subject_in(model::optional_str(notes)),
        model::optional(r.1) == preheader_in(model::optional_str(notes)),
{
    match notes {
        None => (None, None),
        Some(notes) => {
            let chars = chars_of(notes);
            (
                marked_text(&chars, "Subject:", "Preheader:"),
                marked_text(&chars, "Preheader:", "Subject:"),
            )
        },
    }
}

// -- Serializing ------------------------------------------------------------

/// The attributes as a tag writes them, without the style.
pub open spec fn written_attributes(attributes: Seq<AttributeModel>) -> Seq<char>
    decreases attributes.len(),
{
    if attributes.len() == 0 {
        Seq::empty()
    } else {
        let before = written_attributes(attributes.drop_last());
        let last = attributes.last();
        if last.name == "style"@ {
            before
        } else {
            match last.value {
                Some(value) => before + (" "@ + last.name + "=\""@ + markup::html_escaped(value)
                    + "\""@),
                None => before + (" "@ + last.name),
            }
        }
    }
}

/// A merged style as a tag writes it.
pub open spec fn written_style(merged: Seq<char>) -> Seq<char> {
    if merged.len() == 0 {
        Seq::empty()
    } else {
        " style=\""@ + markup::html_escaped(merged) + "\""@
    }
}

/// The opening tag of an element with its merged style.
pub open spec fn opening_tag(element: ElementModel, merged: Seq<char>) -> Seq<char> {
    "<"@ + element.tag + written_attributes(element.attributes) + written_style(merged) + ">"@
}

/// The width of a column in a ghost table: its px width, else half the email.
pub open spec fn column_width(width: Option<u32>) -> Seq<char> {
    match width {
        Some(px) => text::decimal(px as nat),
        None => "300"@,
    }
}

/// The cell that Outlook opens before a column.
pub open spec fn cell_open(width: Option<u32>) -> Seq<char> {
    "<!--[if mso]><td width=\""@ + column_width(width) + "\" valign=\"top\"><![endif]-->"@
}

/// What the children of element `e` before position `k` are written as.
pub open spec fn children_text(
    tree: Seq<ElementModel>,
    styles: Seq<Seq<char>>,
    widths: Seq<Option<u32>>,
    e: int,
    k: int,
) -> Seq<char>
    decreases tree.len() - e, k,
{
    if k <= 0 || k > tree[e].children.len() {
        Seq::empty()
    } else {
        children_text(tree, styles, widths, e, k - 1) + match tree[e].children[k - 1] {
            NodeModel::Text(content) => content,
            NodeModel::Raw(raw) => raw,
            NodeModel::Element(j) => if e < j < tree.len() {
                element_text(tree, styles, widths, j)
            } else {
                Seq::empty()
            },
        }
    }
}

/// What element `e` is written as: its tag, its content, its closing tag,
/// with the ghost table around a `columns` section and the ghost cell
/// around each `column`.
pub open spec fn element_text(
    tree: Seq<ElementModel>,
    styles: Seq<Seq<char>>,
    widths: Seq<Option<u32>>,
    e: int,
) -> Seq<char>
    decreases tree.len() - e, tree[e].children.len() + 1,
{
    let node = tree[e];
    let is_columns = dom::classes_of(node).contains("columns"@);
    let is_column = dom::classes_of(node).contains("column"@);
    let cell = if is_column {
        cell_open(widths[e])
    } else {
        Seq::empty()
    };
    let opened = cell + opening_tag(node, styles[e]);
    let content = children_text(tree, styles, widths, e, node.children.len() as int);
    if node.tag == "svg"@ {
        opened + content + "</svg>"@
    } else if dom::is_void_tag(node.tag) {
        opened
    } else {
        let table_open = if is_columns {
            COLUMNS_OPEN@
        } else {
            Seq::empty()
        };
        let table_close = if is_columns {
            COLUMNS_CLOSE@
        } else {
            Seq::empty()
        };
        let cell_close = if is_column {
            COLUMN_CLOSE@
        } else {
            Seq::empty()
        };
        opened + table_open + content + table_close + ("</"@ + node.tag + ">"@) + cell_close
    }
}

/// The ghost table that Outlook opens inside a `columns` section.
pub const COLUMNS_OPEN: &'static str = "<!--[if mso]><table role=\"presentation\" width=\"100%\" cellpadding=\"0\" cellspacing=\"0\" border=\"0\"><tr><![endif]-->";

/// The end of the ghost table.
pub const COLUMNS_CLOSE: &'static str = "<!--[if mso]></tr></table><![endif]-->";

/// The end of the ghost cell.
pub const COLUMN_CLOSE: &'static str = "<!--[if mso]></td><![endif]-->";

/// The whole fragment with its merged styles.
pub open spec fn serialized(
    tree: Seq<ElementModel>,
    styles: Seq<Seq<char>>,
    widths: Seq<Option<u32>>,
) -> Seq<char> {
    children_text(tree, styles, widths, 0, tree[0].children.len() as int)
}

fn push_attributes(out: &mut String, attributes: &Vec<Attribute>)
    ensures
        final(out)@ == old(out)@ + written_attributes(dom::attributes_of(attributes@)),
{
    let ghost all = dom::attributes_of(attributes@);
    let ghost start = out@;
    let mut i: usize = 0;
    assert(start + written_attributes(all.take(0)) =~= start);
    while i < attributes.len()
        invariant
            i <= attributes@.len(),
            all == dom::attributes_of(attributes@),
            out@ == start + written_attributes(all.take(i as int)),
        decreases attributes@.len() - i,
    {
        let attribute = &attributes[i];
        assert(all.take(i + 1).drop_last() =~= all.take(i as int));
        assert(all.take(i + 1).last() == attribute@);
        if !(*attribute.name.as_str() == *"style") {
            out.append(" ");
            out.append(attribute.name.as_str());
            if let Some(value) = &attribute.value {
                out.append("=\"");
                out.append(escape_html(value.as_str()).as_str());
                out.append("\"");
            }
        }
        assert(out@ =~= start + written_attributes(all.take(i + 1)));
        i += 1;
    }
    assert(all.take(i as int) =~= all);
}

fn push_opening(out: &mut String, element: &Element, merged: &str)
    ensures
        final(out)@ == old(out)@ + opening_tag(element@, merged@),
{
    out.append("<");
    out.append(element.tag.as_str());
    push_attributes(out, &element.attributes);
    if !merged.is_empty() {
        out.append(" style=\"");
        out.append(escape_html(merged).as_str());
        out.append("\"");
    }
    out.append(">");
    assert(out@ =~= old(out)@ + opening_tag(element@, merged@));
}

/// Writes the children of `element` in order.
fn serialize_children(
    tree: &Vec<Element>,
    element: usize,
    styles: &Vec<String>,
    widths: &Vec<Option<u32>>,
    out: &mut String,
)
    requires
        dom::is_tree(dom::tree_of(tree@)),
        element < tree@.len(),
        styles@.len() == tree@.len(),
        widths@.len() == tree@.len(),
    ensures
        final(out)@ == old(out)@ + children_text(
            dom::tree_of(tree@),
            text::strings(styles@),
            widths@,
            element as int,
            dom::tree_of(tree@)[element as int].children.len() as int,
        ),
    decreases tree@.len() - element, tree@[element as int].children@.len(),
{
    let ghost model = dom::tree_of(tree@);
    let ghost merged = text::strings(styles@);
    let ghost start = out@;
    let mut k: usize = 0;
    let children = &tree[element].children;
    assert(model[element as int].children == dom::nodes_of(children@));
    assert(start + children_text(model, merged, widths@, element as int, 0) =~= start);
    while k < children.len()
        invariant
            k <= children@.len(),
            element < tree@.len(),
            *children == tree@[element as int].children,
            model == dom::tree_of(tree@),
            dom::is_tree(model),
            merged == text::strings(styles@),
            styles@.len() == tree@.len(),
            widths@.len() == tree@.len(),
            model[element as int].children == dom::nodes_of(children@),
            out@ == start + children_text(model, merged, widths@, element as int, k as int),
        decreases children@.len() - k,
    {
        assert(model[element as int].children[k as int] == children@[k as int]@);
        match &children[k] {
            Node::Text(content) => {
                out.append(content.as_str());
            },
            Node::Raw(raw) => {
                out.append(raw.as_str());
            },
            Node::Element(index) => {
                serialize_element(tree, *index, styles, widths, out);
            },
        }
        assert(out@ =~= start + children_text(model, merged, widths@, element as int, k + 1));
        k += 1;
    }
}

/// Writes one element, with the ghost table cells for a `columns` section.
fn serialize_element(
    tree: &Vec<Element>,
    element: usize,
    styles: &Vec<String>,
    widths: &Vec<Option<u32>>,
    out: &mut String,
)
    requires
        dom::is_tree(dom::tree_of(tree@)),
        element < tree@.len(),
        styles@.len() == tree@.len(),
        widths@.len() == tree@.len(),
    ensures
        final(out)@ == old(out)@ + element_text(
            dom::tree_of(tree@),
            text::strings(styles@),
            widths@,
            element as int,
        ),
    decreases tree@.len() - element, tree@[element as int].children@.len() + 1,
{
    let ghost model = dom::tree_of(tree@);
    let ghost merged = text::strings(styles@);
    let node = &tree[element];
    assert(model[element as int] == node@);
    assert(merged[element as int] == styles@[element as int]@);
    let classes = class_list(node);
    let is_columns = text_is_in(&classes, &chars_of("columns"));
    let is_column = text_is_in(&classes, &chars_of("column"));
    let ghost start = out@;
    let ghost cell = if is_column {
        cell_open(widths@[element as int])
    } else {
        Seq::empty()
    };
    if is_column {
        push_cell(out, widths[element]);
    } else {
        proof {
            text::lemma_append_nothing(start);
        }
    }
    let ghost opened = cell + opening_tag(node@, styles@[element as int]@);
    let ghost content = children_text(
        model,
        merged,
        widths@,
        element as int,
        node@.children.len() as int,
    );
    push_opening(out, node, styles[element].as_str());
    proof {
        text::lemma_append(start, cell, opening_tag(node@, styles@[element as int]@));
    }
    if *node.tag.as_str() == *"svg" {
        serialize_children(tree, element, styles, widths, out);
        out.append("</svg>");
        proof {
            text::lemma_append(start, opened, content);
            text::lemma_append(start, opened + content, "</svg>"@);
        }
        return;
    }
    if void_tag(node.tag.as_str()) {
        return;
    }
    let ghost table_open = if is_columns {
        COLUMNS_OPEN@
    } else {
        Seq::empty()
    };
    let ghost table_close = if is_columns {
        COLUMNS_CLOSE@
    } else {
        Seq::empty()
    };
    let ghost cell_close = if is_column {
        COLUMN_CLOSE@
    } else {
        Seq::empty()
    };
    let ghost closing = "</"@ + node@.tag + ">"@;
    push_if(out, is_columns, COLUMNS_OPEN);
    serialize_children(tree, element, styles, widths, out);
    push_if(out, is_columns, COLUMNS_CLOSE);
    push_closing(out, node.tag.as_str());
    push_if(out, is_column, COLUMN_CLOSE);
    proof {
        text::lemma_append(start, opened, table_open);
        text::lemma_append(start, opened + table_open, content);
        text::lemma_append(start, opened + table_open + content, table_close);
        text::lemma_append(start, opened + table_open + content + table_close, closing);
        text::lemma_append(
            start,
            opened + table_open + content + table_close + closing,
            cell_close,
        );
    }
}

/// Appends `piece` when `wanted`.
fn push_if(out: &mut String, wanted: bool, piece: &str)
    ensures
        final(out)@ == old(out)@ + (if wanted {
            piece@
        } else {
            Seq::empty()
        }),
{
    if wanted {
        out.append(piece);
    } else {
        proof {
            text::lemma_append_nothing(out@);
        }
    }
}

fn push_closing(out: &mut String, tag: &str)
    ensures
        final(out)@ == old(out)@ + ("</"@ + tag@ + ">"@),
{
    out.append("</");
    out.append(tag);
    out.append(">");
    assert(out@ =~= old(out)@ + ("</"@ + tag@ + ">"@));
}

fn push_cell(out: &mut String, width: Option<u32>)
    ensures
        final(out)@ == old(out)@ + cell_open(width),
{
    out.append("<!--[if mso]><td width=\"");
    match width {
        Some(px) => {
            out.append(decimal_of(px as u128).as_str());
        },
        None => {
            out.append("300");
        },
    }
    out.append("\" valign=\"top\"><![endif]-->");
    assert(out@ =~= old(out)@ + cell_open(width));
}

/// Serializes the tree with merged styles, quoted attributes, explicit end
/// tags, and Outlook ghost tables around the `columns` pattern. `widths`
/// holds the px width in each element's merged style, where it has one.
pub fn serialize(tree: &Vec<Element>, styles: &Vec<String>, widths: &Vec<Option<u32>>) -> (r: String)
    requires
        dom::is_tree(dom::tree_of(tree@)),
        styles@.len() == tree@.len(),
        widths@.len() == tree@.len(),
    ensures
        r@ == serialized(dom::tree_of(tree@), text::strings(styles@), widths@),
{
    let mut out = String::new();
    serialize_children(tree, 0, styles, widths, &mut out);
    assert(out@ =~= serialized(dom::tree_of(tree@), text::strings(styles@), widths@));
    out
}

// -- Column widths ----------------------------------------------------------

/// The value of a `width` declaration, without the white space around it.
pub open spec fn width_value(declaration: Seq<char>) -> Option<Seq<char>> {
    let d = text::trim(declaration);
    if text::starts_with(d, "width:"@) {
        Some(text::trim(d.skip(6)))
    } else if text::starts_with(d, "width :"@) {
        Some(text::trim(d.skip(7)))
    } else {
        None
    }
}

/// The number of the first px width among the declarations from `k`.
pub open spec fn width_number_from(parts: Seq<Seq<char>>, k: int) -> Option<Seq<char>>
    decreases parts.len() - k,
{
    if !(0 <= k < parts.len()) {
        None
    } else {
        match width_value(parts[k]) {
            Some(value) => if text::ends_with(value, "px"@) {
                Some(text::trim(value.take(value.len() - 2)))
            } else {
                width_number_from(parts, k + 1)
            },
            None => width_number_from(parts, k + 1),
        }
    }
}

/// The number of the px width in a merged style, as it is written.
pub open spec fn width_number(merged: Seq<char>) -> Option<Seq<char>> {
    width_number_from(css::split(merged, ';'), 0)
}

/// The number in the `width` of a merged style, as it is written, when the
/// width is a px length.
pub fn width_text(merged: &str) -> (r: Option<String>)
    ensures
        model::optional(r) == width_number(merged@),
{
    let parts = split_top_level(&chars_of(merged), ';');
    let ghost all = text::texts(parts@);
    let mut k: usize = 0;
    proof {
        reveal_strlit("width:");
        reveal_strlit("width :");
        reveal_strlit("px");
    }
    while k < parts.len()
        invariant
            k <= parts@.len(),
            all == text::texts(parts@),
            "width:"@.len() == 6,
            "width :"@.len() == 7,
            "px"@.len() == 2,
            width_number(merged@) == width_number_from(all, k as int),
        decreases parts@.len() - k,
    {
        assert(all[k as int] == parts@[k as int]@);
        let d = trimmed(&parts[k]);
        let mut at: usize = 0;
        if text::begins_with(&d, "width:") {
            at = 6;
        } else if text::begins_with(&d, "width :") {
            at = 7;
        }
        if at > 0 {
            let value = trimmed(&part(&d, at, d.len()));
            assert(d@.skip(at as int) =~= d@.subrange(at as int, d@.len() as int));
            if text::finishes_with(&value, "px") {
                let number = trimmed(&part(&value, 0, value.len() - 2));
                assert(value@.take(value@.len() - 2) =~= value@.subrange(0, value@.len() - 2));
                return Some(text_of(&number));
            }
        }
        k += 1;
    }
    None
}

// -- The document -----------------------------------------------------------

/// An email with its styles merged: its tree, one style per element, and the
/// stylesheet for what could not be inlined.
#[derive(Debug)]
pub struct StyledEmail {
    pub tree: Vec<Element>,
    pub styles: Vec<String>,
    pub fallback: String,
}

/// The CSS of an email, empty when it has none.
pub open spec fn css_text(css: Option<Seq<char>>) -> Seq<char> {
    match css {
        Some(s) => s,
        None => Seq::empty(),
    }
}

/// The stylesheet of an email in its theme.
pub open spec fn sheet_for(email: Email, theme: Theme) -> style::SheetModel {
    style::sheet_of(css_text(email@.css), style::variables_for(theme))
}

/// The merged styles of an email, one per element of its tree.
pub open spec fn styles_for(email: Email, theme: Theme) -> Seq<Seq<char>> {
    let tree = dom::parsed(email.html@);
    let rules = style::all_rules_for(sheet_for(email, theme).rules, theme);
    Seq::new(tree.len(), |e: int| style::style_of(tree, e, rules, theme))
}

/// True when `styled` is `email` with its styles merged in `theme`.
pub open spec fn is_styled(styled: StyledEmail, email: Email, theme: Theme) -> bool {
    &&& dom::tree_of(styled.tree@) == dom::parsed(email.html@)
    &&& dom::is_tree(dom::tree_of(styled.tree@))
    &&& text::strings(styled.styles@) == styles_for(email, theme)
    &&& styled.fallback@ == sheet_for(email, theme).fallback
}

/// Parses an email and merges its styles.
pub fn style_email(email: &Email, theme: &Theme) -> (r: StyledEmail)
    ensures
        is_styled(r, *email, *theme),
        r.styles@.len() == r.tree@.len(),
{
    let variables = theme_variables(theme);
    let (author, fallback) = match &email.css {
        Some(css) => parse_rules(css.as_str(), &variables),
        None => {
            let none = String::new();
            parse_rules(none.as_str(), &variables)
        },
    };
    let rules = all_rules(author, theme);
    let tree = parse_fragment(email.html.as_str());
    let ghost model = dom::tree_of(tree@);
    let ghost all = style::rules_of(rules@);
    let mut styles: Vec<String> = Vec::new();
    let mut e: usize = 0;
    while e < tree.len()
        invariant
            e <= tree@.len(),
            e == styles@.len(),
            model == dom::tree_of(tree@),
            dom::is_tree(model),
            all == style::rules_of(rules@),
            style::are_rules(all),
            forall|k: int|
                0 <= k < e ==> (#[trigger] styles@[k])@ == style::style_of(model, k, all, *theme),
        decreases tree@.len() - e,
    {
        styles.push(merged_style(&tree, e, &rules, theme));
        e += 1;
    }
    assert(text::strings(styles@) =~= styles_for(*email, *theme));
    StyledEmail { tree, styles, fallback }
}

/// One export file: the document, plus the subject and the preheader read
/// from the email's notes.
#[derive(Debug)]
pub struct EmailHtmlFile {
    /// The complete email-client HTML document.
    pub html: String,
    /// The `Subject:` text from the notes, when present.
    pub subject: Option<String>,
    /// The `Preheader:` text from the notes, when present.
    pub preheader: Option<String>,
}

/// The document up to its title.
pub const EMAIL_HEAD: &'static str = "<!DOCTYPE html>\n<html lang=\"en\">\n<head>\n<meta charset=\"utf-8\">\n<meta name=\"viewport\" content=\"width=device-width, initial-scale=1\">\n<meta http-equiv=\"X-UA-Compatible\" content=\"IE=edge\">\n<title>";

/// The end of the title.
pub const EMAIL_TITLE_END: &'static str = "</title>\n";

/// The start of the style block.
pub const EMAIL_STYLE_OPEN: &'static str = "<style>\n";

/// The phone rules, the end of the style block, and the body up to its
/// background.
pub const EMAIL_STYLE_CLOSE: &'static str = "@media (max-width:620px){ div.column{display:block!important;width:100%!important;} div.columns{width:100%!important;} }\n</style>\n</head>\n<body style=\"margin:0;padding:0;background:";

/// The end of the body's opening tag.
pub const EMAIL_BODY_OPEN: &'static str = ";\">\n";

/// The table shell up to its background.
pub const EMAIL_SHELL_OPEN: &'static str = "<table role=\"presentation\" width=\"100%\" cellpadding=\"0\" cellspacing=\"0\" border=\"0\" bgcolor=\"";

/// The table shell up to the email itself.
pub const EMAIL_SHELL_INNER: &'static str = "\"><tr><td align=\"center\">\n<!--[if mso]><table role=\"presentation\" width=\"600\" cellpadding=\"0\" cellspacing=\"0\" border=\"0\"><tr><td><![endif]-->\n<div style=\"width:600px;max-width:100%;margin:0 auto;font-size:16px;line-height:1.3;\">\n";

/// The end of the shell and of the document.
pub const EMAIL_SHELL_CLOSE: &'static str = "</div>\n<!--[if mso]></td></tr></table><![endif]-->\n</td></tr></table>\n</body>\n</html>\n";

/// The font link, hidden from Outlook.
pub open spec fn font_link_block(link: Option<Seq<char>>) -> Seq<char> {
    match link {
        Some(s) => "<!--[if !mso]><!-->"@ + s + "<!--<![endif]-->\n"@,
        None => Seq::empty(),
    }
}

/// The preheader at the start of the body, hidden from the reader.
pub open spec fn preview_block(preheader: Option<Seq<char>>) -> Seq<char> {
    match preheader {
        Some(s) =>
        "<div style=\"display:none;max-height:0;overflow:hidden;mso-hide:all;\">"@
            + markup::html_escaped(s) + "</div>\n"@,
        None => Seq::empty(),
    }
}

/// The title of an email: its subject, else the title of the mailing.
pub open spec fn title_for(email: Email, mailing_title: Seq<char>) -> Seq<char> {
    match subject_in(email@.notes) {
        Some(subject) => subject,
        None => mailing_title,
    }
}

/// The complete document of an email.
pub open spec fn document_of(
    email: Email,
    theme: Theme,
    mailing_title: Seq<char>,
    font_link: Option<Seq<char>>,
    widths: Seq<Option<u32>>,
) -> Seq<char> {
    let background = markup::css_safe_text(theme.colors.background@);
    EMAIL_HEAD@ + markup::html_escaped(title_for(email, mailing_title)) + EMAIL_TITLE_END@ + font_link_block(
        font_link,
    ) + EMAIL_STYLE_OPEN@ + sheet_for(email, theme).fallback + EMAIL_STYLE_CLOSE@ + background + EMAIL_BODY_OPEN@
        + preview_block(preheader_in(email@.notes)) + EMAIL_SHELL_OPEN@ + background + EMAIL_SHELL_INNER@
        + serialized(dom::parsed(email.html@), styles_for(email, theme), widths) + EMAIL_SHELL_CLOSE@
}

/// One email as a self-contained email-client document. `widths` holds the
/// px width in each element's merged style, where it has one.
pub fn email_document(
    email: &Email,
    theme: &Theme,
    mailing_title: &str,
    font_link: Option<&str>,
    styled: &StyledEmail,
    widths: &Vec<Option<u32>>,
) -> (r: EmailHtmlFile)
    requires
        is_styled(*styled, *email, *theme),
        widths@.len() == styled.tree@.len(),
    ensures
        r.html@ == document_of(
            *email,
            *theme,
            mailing_title@,
            model::optional_str(font_link),
            widths@,
        ),
        model::optional(r.subject) == subject_in(email@.notes),
        model::optional(r.preheader) == preheader_in(email@.notes),
{
    let (subject, preheader) = subject_and_preheader(borrowed(&email.notes));
    assert(text::strings(styled.styles@).len() == styled.styles@.len());
    assert(dom::tree_of(styled.tree@).len() == styled.tree@.len());
    let body = serialize(&styled.tree, &styled.styles, widths);
    let background = css_safe(theme.colors.background.as_str());
    let mut html = owned(EMAIL_HEAD);
    match &subject {
        Some(text) => {
            html.append(escape_html(text.as_str()).as_str());
        },
        None => {
            html.append(escape_html(mailing_title).as_str());
        },
    }
    html.append(EMAIL_TITLE_END);
    if let Some(link) = font_link {
        html.append("<!--[if !mso]><!-->");
        html.append(link);
        html.append("<!--<![endif]-->\n");
    }
    html.append(EMAIL_STYLE_OPEN);
    html.append(styled.fallback.as_str());
    html.append(EMAIL_STYLE_CLOSE);
    html.append(background.as_str());
    html.append(EMAIL_BODY_OPEN);
    if let Some(text) = &preheader {
        html.append("<div style=\"display:none;max-height:0;overflow:hidden;mso-hide:all;\">");
        html.append(escape_html(text.as_str()).as_str());
        html.append("</div>\n");
    }
    html.append(EMAIL_SHELL_OPEN);
    html.append(background.as_str());
    html.append(EMAIL_SHELL_INNER);
    html.append(body.as_str());
    html.append(EMAIL_SHELL_CLOSE);
    assert(html@ =~= document_of(
        *email,
        *theme,
        mailing_title@,
        model::optional_str(font_link),
        widths@,
    ));
    EmailHtmlFile { html, subject, preheader }
}

/// True when `files` are the documents of the mailing's emails, in order.
pub open spec fn is_export(
    files: Seq<EmailHtmlFile>,
    mailing: Mailing,
    font_link: Option<Seq<char>>,
    widths: Seq<Vec<Option<u32>>>,
) -> bool {
    &&& files.len() == mailing.emails@.len()
    &&& forall|i: int|
        0 <= i < files.len() ==> {
            let email = mailing.emails@[i];
            &&& (#[trigger] files[i]).html@ == document_of(
                email,
                mailing.theme,
                mailing.title@,
                font_link,
                widths[i]@,
            )
            &&& model::optional(files[i].subject) == subject_in(email@.notes)
            &&& model::optional(files[i].preheader) == preheader_in(email@.notes)
        }
}

/// Builds one email-client HTML document per email, in send order. `widths`
/// holds, per email, the px width in each element's merged style, where it
/// has one.
pub fn export_mailing_emails(
    mailing: &Mailing,
    font_link: Option<&str>,
    widths: &Vec<Vec<Option<u32>>>,
) -> (files: Vec<EmailHtmlFile>)
    requires
        widths@.len() == mailing.emails@.len(),
        forall|i: int|
            0 <= i < widths@.len() ==> (#[trigger] widths@[i])@.len() == dom::parsed(
                mailing.emails@[i].html@,
            ).len(),
    ensures
        is_export(files@, *mailing, model::optional_str(font_link), widths@),
{
    let mut files: Vec<EmailHtmlFile> = Vec::new();
    let mut i: usize = 0;
    while i < mailing.emails.len()
        invariant
            i <= mailing.emails@.len(),
            i == files@.len(),
            widths@.len() == mailing.emails@.len(),
            forall|k: int|
                0 <= k < widths@.len() ==> (#[trigger] widths@[k])@.len() == dom::parsed(
                    mailing.emails@[k].html@,
                ).len(),
            forall|k: int|
                0 <= k < i ==> {
                    let email = mailing.emails@[k];
                    &&& (#[trigger] files@[k]).html@ == document_of(
                        email,
                        mailing.theme,
                        mailing.title@,
                        model::optional_str(font_link),
                        widths@[k]@,
                    )
                    &&& model::optional(files@[k].subject) == subject_in(email@.notes)
                    &&& model::optional(files@[k].preheader) == preheader_in(email@.notes)
                },
        decreases mailing.emails@.len() - i,
    {
        let styled = style_email(&mailing.emails[i], &mailing.theme);
        assert(dom::tree_of(styled.tree@).len() == styled.tree@.len());
        assert(widths@[i as int]@.len() == styled.tree@.len());
        files.push(
            email_document(
                &mailing.emails[i],
                &mailing.theme,
                mailing.title.as_str(),
                font_link,
                &styled,
                &widths[i],
            ),
        );
        i += 1;
    }
    files
}

// -- What the tags say ------------------------------------------------------

/// The attributes of an element but its style, and the merged style, when
/// there is one.
pub open spec fn exported_attributes(attributes: Seq<AttributeModel>, merged: Seq<char>) -> Seq<
    AttributeModel,
> {
    attributes.filter(|attribute: AttributeModel| attribute.name != "style"@) + if merged.len()
        == 0 {
        Seq::empty()
    } else {
        seq![AttributeModel { name: "style"@, value: Some(merged) }]
    }
}

/// One attribute as a tag writes it.
spec fn attribute_text(attribute: AttributeModel) -> Seq<char> {
    match attribute.value {
        Some(value) => " "@ + attribute.name + "=\""@ + markup::html_escaped(value) + "\""@,
        None => " "@ + attribute.name,
    }
}

spec fn attributes_text(attributes: Seq<AttributeModel>) -> Seq<char>
    decreases attributes.len(),
{
    if attributes.len() == 0 {
        Seq::empty()
    } else {
        attribute_text(attributes[0]) + attributes_text(attributes.drop_first())
    }
}

proof fn lemma_attributes_text_push(attributes: Seq<AttributeModel>, last: AttributeModel)
    ensures
        attributes_text(attributes.push(last)) == attributes_text(attributes) + attribute_text(
            last,
        ),
    decreases attributes.len(),
{
    reveal_with_fuel(attributes_text, 2);
    let all = attributes.push(last);
    if attributes.len() == 0 {
        assert(all.drop_first() =~= Seq::<AttributeModel>::empty());
        assert(attributes_text(all) =~= attributes_text(attributes) + attribute_text(last));
    } else {
        lemma_attributes_text_push(attributes.drop_first(), last);
        assert(all.drop_first() =~= attributes.drop_first().push(last));
        assert(attributes_text(all) =~= attributes_text(attributes) + attribute_text(last));
    }
}

proof fn lemma_written(attributes: Seq<AttributeModel>, merged: Seq<char>)
    ensures
        written_attributes(attributes) + written_style(merged) == attributes_text(
            exported_attributes(attributes, merged),
        ),
{
    let named = |attribute: AttributeModel| attribute.name != "style"@;
    let kept = attributes.filter(named);
    lemma_written_attributes(attributes);
    if merged.len() == 0 {
        assert(exported_attributes(attributes, merged) =~= kept);
        assert(written_attributes(attributes) + Seq::<char>::empty() =~= written_attributes(
            attributes,
        ));
    } else {
        let last = AttributeModel { name: "style"@, value: Some(merged) };
        lemma_attributes_text_push(kept, last);
        assert(exported_attributes(attributes, merged) =~= kept.push(last));
        reveal_strlit(" style=\"");
        reveal_strlit(" ");
        reveal_strlit("style");
        reveal_strlit("=\"");
        assert(" style=\""@ =~= " "@ + "style"@ + "=\""@);
    }
}

proof fn lemma_written_attributes(attributes: Seq<AttributeModel>)
    ensures
        written_attributes(attributes) == attributes_text(
            attributes.filter(|attribute: AttributeModel| attribute.name != "style"@),
        ),
    decreases attributes.len(),
{
    reveal(Seq::filter);
    if attributes.len() > 0 {
        let named = |attribute: AttributeModel| attribute.name != "style"@;
        let rest = attributes.drop_last();
        let last = attributes.last();
        lemma_written_attributes(rest);
        if last.name != "style"@ {
            lemma_attributes_text_push(rest.filter(named), last);
        }
    }
}

proof fn lemma_name_ends_at(s: Seq<char>, i: int, e: int)
    requires
        0 <= i <= e <= s.len(),
        forall|j: int| i <= j < e ==> !text::is_space(#[trigger] s[j]) && s[j] != '=',
        e == s.len() || text::is_space(s[e]) || s[e] == '=',
    ensures
        dom::name_end(s, i) == e,
    decreases e - i,
{
    if i < e {
        lemma_name_ends_at(s, i + 1, e);
    }
}

proof fn lemma_space_ends_at(s: Seq<char>, i: int, e: int)
    requires
        0 <= i <= e <= s.len(),
        forall|j: int| i <= j < e ==> !text::is_space(#[trigger] s[j]),
        e == s.len() || text::is_space(s[e]),
    ensures
        text::next_space(s, i) == e,
    decreases e - i,
{
    if i < e {
        lemma_space_ends_at(s, i + 1, e);
    }
}

proof fn lemma_quote_found_at(s: Seq<char>, i: int, e: int)
    requires
        0 <= i <= e < s.len(),
        forall|j: int| i <= j < e ==> #[trigger] s[j] != '"',
        s[e] == '"',
    ensures
        text::find_char_from(s, '"', i) == Some(e),
    decreases e - i,
{
    if i < e {
        lemma_quote_found_at(s, i + 1, e);
    }
}

/// The text of attributes reads back as those attributes.
proof fn lemma_attributes_read_back(s: Seq<char>, i: int, attributes: Seq<AttributeModel>)
    requires
        0 <= i <= s.len(),
        s.skip(i) == attributes_text(attributes),
        dom::are_attribute_words(attributes),
    ensures
        dom::attributes_from(s, text::skip_space(s, i)) == attributes,
    decreases attributes.len(),
{
    reveal_strlit(" ");
    reveal_strlit("=\"");
    reveal_strlit("\"");
    if attributes.len() == 0 {
        assert(s.skip(i).len() == 0);
        assert(dom::attributes_from(s, i) =~= Seq::<AttributeModel>::empty());
        assert(attributes =~= Seq::<AttributeModel>::empty());
        return;
    }
    let first = attributes[0];
    let rest = attributes.drop_first();
    let name = first.name;
    let own = attribute_text(first);
    let more = attributes_text(rest);
    let n = name.len() as int;
    assert(dom::is_attribute_word(name));
    assert(dom::are_attribute_words(rest)) by {
        assert forall|k: int| 0 <= k < rest.len() implies dom::is_attribute_word((#[trigger] rest[k]).name) by {
            assert(rest[k] == attributes[k + 1]);
        }
    }
    assert(s.skip(i) == own + more);
    assert(s.skip(i).len() == s.len() - i);
    assert forall|k: int| 0 <= k < own.len() implies #[trigger] s[i + k] == own[k] by {
        assert(s.skip(i)[k] == s[i + k]);
        assert((own + more)[k] == own[k]);
    }
    assert forall|k: int| 0 <= k < n implies #[trigger] own[k + 1] == name[k] by {}
    assert(s[i + 0int] == own[0]);
    assert(text::is_space(s[i]));
    assert(s[i + 1] == own[1]);
    assert(own[0int + 1] == name[0]);
    assert(text::skip_space(s, i + 1) == i + 1);
    assert(text::skip_space(s, i) == i + 1);
    let at = i + 1;
    let e = at + n;
    assert forall|j: int| at <= j < e implies !text::is_space(#[trigger] s[j]) && s[j] != '=' by {
        let k = j - at;
        assert(s[i + (k + 1)] == own[k + 1]);
        assert(own[k + 1] == name[k]);
    }
    assert(s.subrange(at, e) =~= name) by {
        assert forall|k: int| 0 <= k < n implies s.subrange(at, e)[k] == name[k] by {
            assert(s[i + (k + 1)] == own[k + 1]);
            assert(own[k + 1] == name[k]);
        }
    }
    assert(s.skip(i + own.len()) =~= more) by {
        assert(s.skip(i).skip(own.len() as int) =~= s.skip(i + own.len()));
        assert((own + more).skip(own.len() as int) =~= more);
    }
    lemma_attributes_read_back(s, i + own.len(), rest);
    match first.value {
        Some(value) => {
            let escaped = markup::html_escaped(value);
            let m = escaped.len() as int;
            markup::law_escaped_text_is_inert(value);
            markup::law_decoding_undoes_escaping(value);
            assert(own.len() == 1 + n + 2 + m + 1);
            assert(own[1 + n] == '=');
            assert(own[2 + n] == '"');
            assert(own[3 + n + m] == '"');
            assert(s[i + (1 + n)] == '=');
            assert(s[i + (2 + n)] == '"');
            assert(s[i + (3 + n + m)] == '"');
            lemma_name_ends_at(s, at, e);
            assert(text::skip_space(s, e) == e);
            assert(text::skip_space(s, e + 1) == e + 1);
            let k = e + 1;
            let q = k + 1 + m;
            assert forall|j: int| k + 1 <= j < q implies #[trigger] s[j] != '"' by {
                let d = j - (k + 1);
                assert(s[i + (3 + n + d)] == own[3 + n + d]);
                assert(own[3 + n + d] == escaped[d]);
                assert(escaped.contains(escaped[d]));
            }
            lemma_quote_found_at(s, k + 1, q);
            assert(s.subrange(k + 1, q) =~= escaped) by {
                assert forall|d: int| 0 <= d < m implies s.subrange(k + 1, q)[d] == escaped[d] by {
                    assert(s[i + (3 + n + d)] == own[3 + n + d]);
                    assert(own[3 + n + d] == escaped[d]);
                }
            }
            assert(q + 1 == i + own.len());
            text::lemma_skip_space(s, q + 1);
            assert(dom::attributes_from(s, at) =~= attributes);
        },
        None => {
            assert(own.len() == 1 + n);
            if rest.len() > 0 {
                let next = rest[0];
                assert(dom::is_attribute_word(next.name));
                assert(attribute_text(next)[0] == ' ');
                assert(attribute_text(next)[1] == next.name[0]);
                assert(more[0] == ' ');
                assert(more[1] == next.name[0]);
                assert(s.skip(e)[0] == s[e]);
                assert(s.skip(e)[1] == s[e + 1]);
                lemma_name_ends_at(s, at, e);
                assert(text::skip_space(s, e + 1) == e + 1);
                assert(text::skip_space(s, e) == e + 1);
            } else {
                assert(s.skip(e).len() == 0);
                lemma_name_ends_at(s, at, e);
                assert(text::skip_space(s, e) == e);
            }
            assert(dom::attributes_from(s, at) =~= attributes);
        },
    }
}

proof fn lemma_text_ends(attributes: Seq<AttributeModel>)
    requires
        dom::are_attribute_words(attributes),
    ensures
        attributes.len() > 0 ==> attributes_text(attributes).len() > 0 && !text::is_space(
            attributes_text(attributes).last(),
        ) && attributes_text(attributes).first() == ' ',
    decreases attributes.len(),
{
    reveal_strlit(" ");
    reveal_strlit("\"");
    if attributes.len() > 0 {
        let rest = attributes.drop_first();
        assert(dom::is_attribute_word(attributes[0].name));
        let own = attribute_text(attributes[0]);
        assert(!text::is_space(own.last())) by {
            if attributes[0].value is None {
                let name = attributes[0].name;
                assert(own.last() == name[name.len() - 1]);
            }
        }
        assert forall|k: int| 0 <= k < rest.len() implies dom::is_attribute_word((#[trigger] rest[k]).name) by {
            assert(rest[k] == attributes[k + 1]);
        }
        lemma_text_ends(rest);
        if rest.len() == 0 {
            assert(attributes_text(rest) =~= Seq::<char>::empty());
            assert(own + Seq::<char>::empty() =~= own);
        }
    }
}

/// The inside of the opening tag of an element.
pub open spec fn tag_inside(element: ElementModel, merged: Seq<char>) -> Seq<char> {
    let tag = opening_tag(element, merged);
    tag.subrange(1, tag.len() - 1)
}

/// An opening tag reads back as its element: parsing its inside gives the tag
/// of the element, and each attribute but the style in order, with the same
/// name and the same value, then the merged style. Left out is a tag whose
/// inside would end with a slash, which closes the element.
pub proof fn law_a_tag_keeps_its_attributes(element: ElementModel, merged: Seq<char>)
    requires
        dom::is_tag_word(element.tag),
        dom::are_attribute_words(element.attributes),
        tag_inside(element, merged).last() != '/',
    ensures
        dom::tag_name(tag_inside(element, merged)) == element.tag,
        dom::tag_attributes(tag_inside(element, merged)) == exported_attributes(
            element.attributes,
            merged,
        ),
        !tag_inside(element, merged).contains('>'),
{
    let inside = tag_inside(element, merged);
    let all = exported_attributes(element.attributes, merged);
    let own = attributes_text(all);
    let tag = element.tag;
    lemma_written(element.attributes, merged);
    reveal_strlit("<");
    reveal_strlit(">");
    assert(inside =~= tag + own) by {
        let whole = opening_tag(element, merged);
        assert(whole =~= "<"@ + (tag + (written_attributes(element.attributes) + written_style(
            merged,
        ))) + ">"@);
        assert(whole =~= "<"@ + (tag + own) + ">"@);
    }
    assert(dom::are_attribute_words(all)) by {
        let named = |attribute: AttributeModel| attribute.name != "style"@;
        let kept = element.attributes.filter(named);
        assert forall|k: int| 0 <= k < all.len() implies dom::is_attribute_word((#[trigger] all[k]).name) by {
            if k < kept.len() {
                assert(all[k] == kept[k]);
                assert(kept.contains(kept[k]));
                element.attributes.lemma_filter_contains_rev(named, kept[k]);
                let i = choose|i: int|
                    0 <= i < element.attributes.len() && element.attributes[i] == kept[k];
                assert(dom::is_attribute_word(element.attributes[i].name));
            } else {
                reveal_strlit("style");
                assert(all[k].name == "style"@);
                assert(text::lower("style"@) =~= "style"@);
            }
        }
    }
    lemma_text_ends(all);
    assert(inside[0] == tag[0]);
    assert(!text::is_space(inside.first()));
    assert(!text::is_space(inside.last())) by {
        if all.len() == 0 {
            assert(own =~= Seq::<char>::empty());
            assert(inside.last() == tag[tag.len() - 1]);
        } else {
            assert(inside.last() == own.last());
        }
    }
    assert(text::trim_start(inside) == inside);
    assert(text::trim(inside) == inside);
    assert(dom::tag_content(inside) == inside);
    let n = tag.len() as int;
    assert forall|j: int| 0 <= j < n implies !text::is_space(#[trigger] inside[j]) by {
        assert(inside[j] == tag[j]);
    }
    if own.len() > 0 {
        assert(inside[n] == own[0]);
    }
    lemma_space_ends_at(inside, 0, n);
    assert(inside.subrange(0, n) =~= tag);
    assert(inside.skip(n) =~= own);
    lemma_attributes_read_back(inside, n, all);
    lemma_no_tag_end(all);
    assert forall|j: int| 0 <= j < inside.len() implies inside[j] != '>' by {
        if j < n {
            assert(inside[j] == tag[j]);
        } else {
            assert(inside[j] == own[j - n]);
            assert(own.contains(own[j - n]));
        }
    }
}

/// Attributes hold no end of a tag.
proof fn lemma_no_tag_end(attributes: Seq<AttributeModel>)
    requires
        dom::are_attribute_words(attributes),
    ensures
        !attributes_text(attributes).contains('>'),
    decreases attributes.len(),
{
    reveal_strlit(" ");
    reveal_strlit("=\"");
    reveal_strlit("\"");
    if attributes.len() > 0 {
        let rest = attributes.drop_first();
        let first = attributes[0];
        assert(dom::is_attribute_word(first.name));
        assert forall|k: int| 0 <= k < rest.len() implies dom::is_attribute_word((#[trigger] rest[k]).name) by {
            assert(rest[k] == attributes[k + 1]);
        }
        lemma_no_tag_end(rest);
        let own = attribute_text(first);
        let n = first.name.len() as int;
        if let Some(value) = first.value {
            markup::law_escaped_text_is_inert(value);
        }
        assert forall|j: int| 0 <= j < own.len() implies own[j] != '>' by {
            if 1 <= j < 1 + n {
                assert(own[j] == first.name[j - 1]);
            } else if j >= 3 + n && first.value is Some {
                let escaped = markup::html_escaped(first.value->0);
                if j < 3 + n + escaped.len() {
                    assert(own[j] == escaped[j - 3 - n]);
                    assert(escaped.contains(escaped[j - 3 - n]));
                }
            }
        }
        let all = attributes_text(attributes);
        assert forall|j: int| 0 <= j < all.len() implies all[j] != '>' by {
            if j >= own.len() {
                assert(all[j] == attributes_text(rest)[j - own.len()]);
                assert(attributes_text(rest).contains(attributes_text(rest)[j - own.len()]));
            }
        }
    }
}

/// The tags that an export writes are not read.
proof fn lemma_opening_is_hidden(element: ElementModel, merged: Seq<char>)
    requires
        dom::is_tag_word(element.tag),
        dom::are_attribute_words(element.attributes),
    ensures
        markup::hides(opening_tag(element, merged), false, false),
{
    let all = exported_attributes(element.attributes, merged);
    let own = attributes_text(all);
    let whole = opening_tag(element, merged);
    lemma_written(element.attributes, merged);
    lemma_exported_words(element.attributes, merged);
    lemma_no_tag_end(all);
    reveal_strlit("<");
    reveal_strlit(">");
    assert(whole =~= "<"@ + (element.tag + own) + ">"@) by {
        assert(whole =~= "<"@ + (element.tag + (written_attributes(element.attributes)
            + written_style(merged))) + ">"@);
    }
    let n = element.tag.len() as int;
    assert forall|j: int| 0 <= j < whole.len() - 1 implies #[trigger] whole[j] != '>' by {
        if 1 <= j < 1 + n {
            assert(whole[j] == element.tag[j - 1]);
        } else if j >= 1 + n {
            assert(whole[j] == own[j - 1 - n]);
            assert(own.contains(own[j - 1 - n]));
        }
    }
    markup::lemma_hides(whole, false);
}

proof fn lemma_exported_words(attributes: Seq<AttributeModel>, merged: Seq<char>)
    requires
        dom::are_attribute_words(attributes),
    ensures
        dom::are_attribute_words(exported_attributes(attributes, merged)),
{
    let all = exported_attributes(attributes, merged);
    let named = |attribute: AttributeModel| attribute.name != "style"@;
    let kept = attributes.filter(named);
    assert forall|k: int| 0 <= k < all.len() implies dom::is_attribute_word(
        (#[trigger] all[k]).name,
    ) by {
        if k < kept.len() {
            assert(all[k] == kept[k]);
            assert(kept.contains(kept[k]));
            attributes.lemma_filter_contains_rev(named, kept[k]);
            let i = choose|i: int| 0 <= i < attributes.len() && attributes[i] == kept[k];
            assert(dom::is_attribute_word(attributes[i].name));
        } else {
            reveal_strlit("style");
            assert(all[k].name == "style"@);
            assert(text::lower("style"@) =~= "style"@);
        }
    }
}

proof fn lemma_closing_is_hidden(tag: Seq<char>)
    requires
        dom::is_tag_word(tag),
    ensures
        markup::hides("</"@ + tag + ">"@, false, false),
{
    reveal_strlit("</");
    reveal_strlit(">");
    let whole = "</"@ + tag + ">"@;
    assert forall|j: int| 0 <= j < whole.len() - 1 implies #[trigger] whole[j] != '>' by {
        if 2 <= j {
            assert(whole[j] == tag[j - 2]);
        }
    }
    markup::lemma_hides(whole, false);
}

proof fn lemma_ghosts_are_hidden(width: Option<u32>)
    ensures
        markup::hides(COLUMNS_OPEN@, false, false),
        markup::hides(COLUMNS_CLOSE@, false, false),
        markup::hides(COLUMN_CLOSE@, false, false),
        markup::hides(cell_open(width), false, false),
        markup::hides(Seq::<char>::empty(), false, false),
{
    assert(markup::hides(COLUMNS_OPEN@, false, false)) by {
        reveal_strlit("<!--[if mso]><table role=\"presentation\" width=\"100%\" cellpadding=\"0\" cellspacing=\"0\" border=\"0\"><tr><![endif]-->");
        markup::lemma_hides(COLUMNS_OPEN@, false);
    }
    assert(markup::hides(COLUMNS_CLOSE@, false, false)) by {
        reveal_strlit("<!--[if mso]></tr></table><![endif]-->");
        markup::lemma_hides(COLUMNS_CLOSE@, false);
    }
    assert(markup::hides(COLUMN_CLOSE@, false, false)) by {
        reveal_strlit("<!--[if mso]></td><![endif]-->");
        markup::lemma_hides(COLUMN_CLOSE@, false);
    }
    let a = "<!--[if mso]><td width=\""@;
    let b = "\" valign=\"top\"><![endif]-->"@;
    let number = column_width(width);
    assert(markup::hides(a, false, true)) by {
        reveal_strlit("<!--[if mso]><td width=\"");
        markup::lemma_hides(a, false);
    }
    assert(markup::hides(b, true, false)) by {
        reveal_strlit("\" valign=\"top\"><![endif]-->");
        markup::lemma_hides(b, true);
    }
    assert(markup::hides(number, true, true)) by {
        reveal_strlit("300");
        if let Some(px) = width {
            order::lemma_decimal_holds_digits(px as nat);
        }
        assert forall|i: int| 0 <= i < number.len() implies #[trigger] number[i] != '<' && number[i]
            != '>' by {
            if width is Some {
                assert(text::is_digit(text::decimal(width->0 as nat)[i]));
            }
        }
        markup::lemma_shown_of_plain(number, true);
    }
    markup::lemma_hides_joined(a, number, false, true, true);
    markup::lemma_hides_joined(a + number, b, false, true, false);
}

/// Words between hidden texts are all that is read.
proof fn lemma_reads_between(a: Seq<char>, s: Seq<char>, b: Seq<char>, words: Seq<char>)
    requires
        markup::hides(a, false, false),
        markup::reads_as(s, words),
        markup::hides(b, false, false),
    ensures
        markup::reads_as(a + s + b, words),
{
    markup::lemma_reads_joined(a, s, Seq::empty(), words);
    assert(Seq::<char>::empty() + words =~= words);
    markup::lemma_reads_joined(a + s, b, words, Seq::empty());
    assert(words + Seq::<char>::empty() =~= words);
}

proof fn lemma_text_reads(content: Seq<char>)
    requires
        !content.contains('<'),
    ensures
        markup::reads_as(content, content),
    decreases content.len(),
{
    if content.len() > 0 {
        let less = content.drop_last();
        assert forall|j: int| 0 <= j < less.len() implies less[j] != '<' by {
            assert(content.contains(content[j]));
        }
        assert(content.contains(content.last()));
        lemma_text_reads(less);
        assert(less.push(content.last()) =~= content);
    } else {
        assert(content =~= Seq::<char>::empty());
    }
}

/// True for a tree as a parse gives it.
pub open spec fn is_fragment(tree: Seq<ElementModel>) -> bool {
    dom::is_tree(tree) && dom::is_named(tree) && dom::is_void_empty(tree) && dom::is_split(tree)
}

proof fn lemma_children_read(
    tree: Seq<ElementModel>,
    styles: Seq<Seq<char>>,
    widths: Seq<Option<u32>>,
    e: int,
    k: int,
)
    requires
        is_fragment(tree),
        0 <= e < tree.len(),
        0 <= k <= tree[e].children.len(),
        tree[e].tag != "svg"@,
    ensures
        markup::reads_as(
            children_text(tree, styles, widths, e, k),
            dom::words_in(tree, e, k),
        ),
    decreases tree.len() - e, k,
{
    if k > 0 {
        lemma_children_read(tree, styles, widths, e, k - 1);
        let before = children_text(tree, styles, widths, e, k - 1);
        let words = dom::words_in(tree, e, k - 1);
        match tree[e].children[k - 1] {
            NodeModel::Text(content) => {
                lemma_text_reads(content);
                markup::lemma_reads_joined(before, content, words, content);
            },
            NodeModel::Raw(_) => {},
            NodeModel::Element(j) => {
                assert(e < j < tree.len());
                lemma_element_reads(tree, styles, widths, j);
                markup::lemma_reads_joined(
                    before,
                    element_text(tree, styles, widths, j),
                    words,
                    dom::words_of(tree, j),
                );
            },
        }
    }
}

/// Words between hidden texts are all that is read, with three of them
/// behind the words.
proof fn lemma_wrapped_reads(
    opened: Seq<char>,
    table_open: Seq<char>,
    content: Seq<char>,
    table_close: Seq<char>,
    closing: Seq<char>,
    cell_close: Seq<char>,
    words: Seq<char>,
)
    requires
        markup::hides(opened, false, false),
        markup::hides(table_open, false, false),
        markup::reads_as(content, words),
        markup::hides(table_close, false, false),
        markup::hides(closing, false, false),
        markup::hides(cell_close, false, false),
    ensures
        markup::reads_as(
            opened + table_open + content + table_close + closing + cell_close,
            words,
        ),
{
    markup::lemma_hides_joined(opened, table_open, false, false, false);
    markup::lemma_hides_joined(table_close, closing, false, false, false);
    markup::lemma_hides_joined(table_close + closing, cell_close, false, false, false);
    let before = opened + table_open;
    let behind = table_close + closing + cell_close;
    lemma_reads_between(before, content, behind, words);
    assert(before + content + behind =~= opened + table_open + content + table_close + closing
        + cell_close);
}

#[verifier::spinoff_prover]
#[verifier::rlimit(30)]
proof fn lemma_element_reads(
    tree: Seq<ElementModel>,
    styles: Seq<Seq<char>>,
    widths: Seq<Option<u32>>,
    e: int,
)
    requires
        is_fragment(tree),
        0 < e < tree.len(),
    ensures
        markup::reads_as(element_text(tree, styles, widths, e), dom::words_of(tree, e)),
    decreases tree.len() - e, tree[e].children.len() + 1,
{
    let node = tree[e];
    let n = node.children.len() as int;
    let words = dom::words_of(tree, e);
    let content = children_text(tree, styles, widths, e, n);
    let is_columns = dom::classes_of(node).contains("columns"@);
    let is_column = dom::classes_of(node).contains("column"@);
    let cell = if is_column {
        cell_open(widths[e])
    } else {
        Seq::empty()
    };
    assert(dom::is_tag_word(node.tag));
    lemma_ghosts_are_hidden(widths[e]);
    lemma_opening_is_hidden(node, styles[e]);
    let opened = cell + opening_tag(node, styles[e]);
    markup::lemma_hides_joined(cell, opening_tag(node, styles[e]), false, false, false);
    if node.tag == "svg"@ {
        assert(markup::reads_as(content + "</svg>"@, words)) by {
            lemma_svg_reads(tree, styles, widths, e);
        }
        lemma_reads_between(opened, content + "</svg>"@, Seq::empty(), words);
        assert(opened + (content + "</svg>"@) + Seq::<char>::empty() =~= opened + content
            + "</svg>"@);
    } else if dom::is_void_tag(node.tag) {
        assert(n == 0);
    } else {
        let table_open = if is_columns {
            COLUMNS_OPEN@
        } else {
            Seq::empty()
        };
        let table_close = if is_columns {
            COLUMNS_CLOSE@
        } else {
            Seq::empty()
        };
        let cell_close = if is_column {
            COLUMN_CLOSE@
        } else {
            Seq::empty()
        };
        let closing = "</"@ + node.tag + ">"@;
        lemma_children_read(tree, styles, widths, e, n);
        lemma_closing_is_hidden(node.tag);
        lemma_wrapped_reads(opened, table_open, content, table_close, closing, cell_close, words);
    }
}

proof fn lemma_svg_reads(
    tree: Seq<ElementModel>,
    styles: Seq<Seq<char>>,
    widths: Seq<Option<u32>>,
    e: int,
)
    requires
        is_fragment(tree),
        0 < e < tree.len(),
        tree[e].tag == "svg"@,
    ensures
        markup::reads_as(
            children_text(tree, styles, widths, e, tree[e].children.len() as int) + "</svg>"@,
            dom::words_of(tree, e),
        ),
{
    let n = tree[e].children.len() as int;
    let content = children_text(tree, styles, widths, e, n);
    let close = "</svg>"@;
    reveal_strlit("</svg>");
    reveal_with_fuel(children_text, 2);
    reveal_with_fuel(dom::words_in, 2);
    if n == 0 {
        assert(content + close =~= close);
        markup::lemma_hides(close, false);
    } else {
        match tree[e].children[0] {
            NodeModel::Raw(raw) => {
                assert(content =~= raw);
                assert(dom::words_of(tree, e) =~= markup::shown(raw + close, false));
                markup::lemma_shown_of_joined(raw, close, false);
                let open = markup::in_tag(raw, false);
                markup::lemma_hides(close, open);
            },
            _ => {},
        }
    }
}

/// An exported email keeps its text: a reader sees of the exported fragment
/// what they see of the email as it was written, in order.
pub proof fn law_an_email_keeps_its_text(
    html: Seq<char>,
    styles: Seq<Seq<char>>,
    widths: Seq<Option<u32>>,
)
    ensures
        markup::reads_as(
            serialized(dom::parsed(html), styles, widths),
            markup::shown(html, false),
        ),
{
    let tree = dom::parsed(html);
    dom::law_a_tree_reads_as_its_fragment(html);
    reveal_strlit("svg");
    lemma_children_read(tree, styles, widths, 0, tree[0].children.len() as int);
}

proof fn lemma_child_is_held(
    tree: Seq<ElementModel>,
    styles: Seq<Seq<char>>,
    widths: Seq<Option<u32>>,
    e: int,
    at: int,
    k: int,
    j: int,
)
    requires
        is_fragment(tree),
        0 <= e < tree.len(),
        0 <= at < k <= tree[e].children.len(),
        tree[e].children[at] == NodeModel::Element(j),
    ensures
        text::holds(
            children_text(tree, styles, widths, e, k),
            element_text(tree, styles, widths, j),
        ),
    decreases k,
{
    let part = element_text(tree, styles, widths, j);
    let before = children_text(tree, styles, widths, e, k - 1);
    assert(e < j < tree.len());
    if at == k - 1 {
        text::lemma_holds_itself(before, part, Seq::empty());
        assert(before + part + Seq::<char>::empty() =~= before + part);
    } else {
        lemma_child_is_held(tree, styles, widths, e, at, k - 1, j);
        let last = match tree[e].children[k - 1] {
            NodeModel::Text(content) => content,
            NodeModel::Raw(raw) => raw,
            NodeModel::Element(i) => if e < i < tree.len() {
                element_text(tree, styles, widths, i)
            } else {
                Seq::empty()
            },
        };
        text::lemma_holds_before(before, last, part);
    }
}

proof fn lemma_framed(
    opening: Seq<char>,
    table_open: Seq<char>,
    content: Seq<char>,
    table_close: Seq<char>,
    closing: Seq<char>,
    cell_close: Seq<char>,
)
    ensures
        ({
            let whole = opening + table_open + content + table_close + closing + cell_close;
            let rest = whole.skip(opening.len() as int);
            &&& text::starts_with(whole, opening)
            &&& text::starts_with(rest, table_open + content + table_close + closing)
            &&& text::ends_with(rest, closing + cell_close)
        }),
{
    let whole = opening + table_open + content + table_close + closing + cell_close;
    let n = opening.len() as int;
    let front = table_open + content + table_close + closing;
    let tail = closing + cell_close;
    assert(whole.subrange(0, n) =~= opening);
    let rest = whole.skip(n);
    assert(rest =~= front + cell_close);
    assert(rest.subrange(0, front.len() as int) =~= front);
    assert(rest =~= (table_open + content + table_close) + tail);
    assert(rest.subrange(rest.len() - tail.len(), rest.len() as int) =~= tail);
}

/// An element is written as its opening tag, its content, and its closing
/// tag, in this order, with the ghost table around the content of a `columns`
/// section and the ghost cell around a `column`. One that never has a closing
/// tag is its opening tag alone.
pub proof fn law_an_element_stands_between_its_tags(
    tree: Seq<ElementModel>,
    styles: Seq<Seq<char>>,
    widths: Seq<Option<u32>>,
    e: int,
)
    requires
        0 <= e < tree.len(),
    ensures
        ({
            let node = tree[e];
            let whole = element_text(tree, styles, widths, e);
            let content = children_text(tree, styles, widths, e, node.children.len() as int);
            let is_a = |class: Seq<char>| dom::classes_of(node).contains(class);
            let opening = (if is_a("column"@) {
                cell_open(widths[e])
            } else {
                Seq::empty()
            }) + opening_tag(node, styles[e]);
            &&& text::starts_with(whole, opening)
            &&& node.tag == "svg"@ ==> text::starts_with(
                whole.skip(opening.len() as int),
                content + "</svg>"@,
            )
            &&& dom::is_void_tag(node.tag) && node.tag != "svg"@ ==> whole == opening
            &&& !dom::is_void_tag(node.tag) && node.tag != "svg"@ ==> {
                let rest = whole.skip(opening.len() as int);
                let closing = "</"@ + node.tag + ">"@;
                &&& is_a("columns"@) ==> text::starts_with(
                    rest,
                    COLUMNS_OPEN@ + content + COLUMNS_CLOSE@ + closing,
                )
                &&& !is_a("columns"@) ==> text::starts_with(rest, content + closing)
                &&& is_a("column"@) ==> text::ends_with(rest, closing + COLUMN_CLOSE@)
                &&& !is_a("column"@) ==> text::ends_with(rest, closing)
            }
        }),
{
    let node = tree[e];
    let whole = element_text(tree, styles, widths, e);
    let content = children_text(tree, styles, widths, e, node.children.len() as int);
    let is_columns = dom::classes_of(node).contains("columns"@);
    let is_column = dom::classes_of(node).contains("column"@);
    let opening = (if is_column {
        cell_open(widths[e])
    } else {
        Seq::empty()
    }) + opening_tag(node, styles[e]);
    let n = opening.len() as int;
    if node.tag == "svg"@ {
        assert(whole =~= opening + (content + "</svg>"@));
        assert(whole.subrange(0, n) =~= opening);
        let rest = whole.skip(n);
        assert(rest =~= content + "</svg>"@);
        assert(rest.subrange(0, rest.len() as int) =~= rest);
    } else if dom::is_void_tag(node.tag) {
        assert(whole.subrange(0, n) =~= opening);
    } else {
        let table_open = if is_columns {
            COLUMNS_OPEN@
        } else {
            Seq::empty()
        };
        let table_close = if is_columns {
            COLUMNS_CLOSE@
        } else {
            Seq::empty()
        };
        let cell_close = if is_column {
            COLUMN_CLOSE@
        } else {
            Seq::empty()
        };
        let closing = "</"@ + node.tag + ">"@;
        lemma_framed(opening, table_open, content, table_close, closing, cell_close);
        if !is_columns {
            assert(table_open + content + table_close + closing =~= content + closing);
        }
        if !is_column {
            assert(closing + cell_close =~= closing);
        }
    }
}

proof fn lemma_content_is_held(
    tree: Seq<ElementModel>,
    styles: Seq<Seq<char>>,
    widths: Seq<Option<u32>>,
    e: int,
)
    requires
        0 <= e < tree.len(),
        !dom::is_void_tag(tree[e].tag) || tree[e].tag == "svg"@,
    ensures
        text::holds(
            element_text(tree, styles, widths, e),
            children_text(tree, styles, widths, e, tree[e].children.len() as int),
        ),
{
    let node = tree[e];
    let whole = element_text(tree, styles, widths, e);
    let content = children_text(tree, styles, widths, e, node.children.len() as int);
    let is_columns = dom::classes_of(node).contains("columns"@);
    let is_column = dom::classes_of(node).contains("column"@);
    let opening = (if is_column {
        cell_open(widths[e])
    } else {
        Seq::empty()
    }) + opening_tag(node, styles[e]);
    if node.tag == "svg"@ {
        text::lemma_holds_itself(opening, content, "</svg>"@);
    } else {
        let table_open = if is_columns {
            COLUMNS_OPEN@
        } else {
            Seq::empty()
        };
        let table_close = if is_columns {
            COLUMNS_CLOSE@
        } else {
            Seq::empty()
        };
        let cell_close = if is_column {
            COLUMN_CLOSE@
        } else {
            Seq::empty()
        };
        let closing = "</"@ + node.tag + ">"@;
        text::lemma_holds_itself(
            opening + table_open,
            content,
            table_close + closing + cell_close,
        );
        assert((opening + table_open) + content + (table_close + closing + cell_close) =~= whole);
    }
}

proof fn lemma_element_is_held(
    tree: Seq<ElementModel>,
    styles: Seq<Seq<char>>,
    widths: Seq<Option<u32>>,
    e: int,
)
    requires
        is_fragment(tree),
        0 < e < tree.len(),
    ensures
        text::holds(serialized(tree, styles, widths), element_text(tree, styles, widths, e)),
    decreases e,
{
    let above = tree[e].parent;
    assert(0 <= above < e);
    assert(dom::is_listed(tree[above].children, e));
    let n = tree[above].children.len() as int;
    let at = choose|k: int|
        0 <= k < n && #[trigger] tree[above].children[k] == NodeModel::Element(e);
    lemma_child_is_held(tree, styles, widths, above, at, n, e);
    let content = children_text(tree, styles, widths, above, n);
    if above > 0 {
        assert(tree[above].children.len() > 0);
        assert(!dom::is_void_tag(tree[above].tag));
        lemma_content_is_held(tree, styles, widths, above);
        lemma_element_is_held(tree, styles, widths, above);
        text::lemma_holds_inside(
            serialized(tree, styles, widths),
            element_text(tree, styles, widths, above),
            content,
        );
        text::lemma_holds_inside(
            serialized(tree, styles, widths),
            content,
            element_text(tree, styles, widths, e),
        );
    }
}

/// Every element of an email is in the export, with its merged style, and its
/// opening tag reads back as it was written: the same tag, and the same
/// attributes with the same values but for the style. Left out is a tag whose
/// inside would end with a slash, which closes the element.
pub proof fn law_an_email_keeps_its_attributes(
    html: Seq<char>,
    styles: Seq<Seq<char>>,
    widths: Seq<Option<u32>>,
    e: int,
)
    requires
        0 < e < dom::parsed(html).len(),
    ensures
        ({
            let element = dom::parsed(html)[e];
            let inside = tag_inside(element, styles[e]);
            &&& text::holds(
                serialized(dom::parsed(html), styles, widths),
                "<"@ + inside + ">"@,
            )
            &&& inside.last() != '/' ==> dom::tag_name(inside) == element.tag
                && dom::tag_attributes(inside) == exported_attributes(
                element.attributes,
                styles[e],
            )
        }),
{
    let tree = dom::parsed(html);
    let element = tree[e];
    dom::law_a_tree_reads_as_its_fragment(html);
    assert(dom::is_tag_word(element.tag));
    let inside = tag_inside(element, styles[e]);
    let opening = opening_tag(element, styles[e]);
    reveal_strlit("<");
    reveal_strlit(">");
    assert("<"@ + inside + ">"@ =~= opening);
    if inside.last() != '/' {
        law_a_tag_keeps_its_attributes(element, styles[e]);
    }
    lemma_element_is_held(tree, styles, widths, e);
    law_an_element_stands_between_its_tags(tree, styles, widths, e);
    let whole = element_text(tree, styles, widths, e);
    let cell = if dom::classes_of(element).contains("column"@) {
        cell_open(widths[e])
    } else {
        Seq::empty()
    };
    let n = (cell + opening).len() as int;
    assert(whole.subrange(0, n) == cell + opening);
    text::lemma_holds_itself(cell, opening, whole.skip(n));
    assert(cell + opening + whole.skip(n) =~= whole);
    text::lemma_holds_inside(serialized(tree, styles, widths), whole, opening);
}

// -- The whole document -------------------------------------------------------

/// The document of an email holds the email's title and preheader, escaped,
/// the rules that could not be inlined, and the whole email with its styles
/// merged.
pub proof fn law_a_document_holds_its_email(
    email: Email,
    theme: Theme,
    mailing_title: Seq<char>,
    font_link: Option<Seq<char>>,
    widths: Seq<Option<u32>>,
)
    ensures
        ({
            let document = document_of(email, theme, mailing_title, font_link, widths);
            &&& text::starts_with(document, EMAIL_HEAD@)
            &&& text::holds(
                document,
                EMAIL_HEAD@ + markup::html_escaped(title_for(email, mailing_title))
                    + EMAIL_TITLE_END@,
            )
            &&& font_link matches Some(link) ==> text::holds(document, link)
            &&& text::holds(document, sheet_for(email, theme).fallback)
            &&& preheader_in(email@.notes) matches Some(preheader) ==> text::holds(
                document,
                markup::html_escaped(preheader),
            )
            &&& text::holds(
                document,
                serialized(dom::parsed(email.html@), styles_for(email, theme), widths),
            )
        }),
{
    let background = markup::css_safe_text(theme.colors.background@);
    let fallback = sheet_for(email, theme).fallback;
    let preview = preview_block(preheader_in(email@.notes));
    let body = serialized(dom::parsed(email.html@), styles_for(email, theme), widths);
    let d1 = EMAIL_HEAD@ + markup::html_escaped(title_for(email, mailing_title));
    let d2 = d1 + EMAIL_TITLE_END@;
    let d3 = d2 + font_link_block(font_link);
    let d4 = d3 + EMAIL_STYLE_OPEN@;
    let d5 = d4 + fallback;
    let d6 = d5 + EMAIL_STYLE_CLOSE@;
    let d7 = d6 + background;
    let d8 = d7 + EMAIL_BODY_OPEN@;
    let d9 = d8 + preview;
    let d10 = d9 + EMAIL_SHELL_OPEN@;
    let d11 = d10 + background;
    let d12 = d11 + EMAIL_SHELL_INNER@;
    let d13 = d12 + body;
    let document = d13 + EMAIL_SHELL_CLOSE@;
    assert(document == document_of(email, theme, mailing_title, font_link, widths));
    assert(document.subrange(0, EMAIL_HEAD@.len() as int) =~= EMAIL_HEAD@);
    text::lemma_holds_appended(d2, font_link_block(font_link));
    text::lemma_holds_appended(d3, EMAIL_STYLE_OPEN@);
    text::lemma_holds_appended(d4, fallback);
    text::lemma_holds_appended(d5, EMAIL_STYLE_CLOSE@);
    text::lemma_holds_appended(d6, background);
    text::lemma_holds_appended(d7, EMAIL_BODY_OPEN@);
    text::lemma_holds_appended(d8, preview);
    text::lemma_holds_appended(d9, EMAIL_SHELL_OPEN@);
    text::lemma_holds_appended(d10, background);
    text::lemma_holds_appended(d11, EMAIL_SHELL_INNER@);
    text::lemma_holds_appended(d12, body);
    text::lemma_holds_appended(d13, EMAIL_SHELL_CLOSE@);
    if let Some(link) = font_link {
        text::lemma_holds_itself("<!--[if !mso]><!-->"@, link, "<!--<![endif]-->\n"@);
        text::lemma_holds_inside(document, font_link_block(font_link), link);
    }
    if let Some(preheader) = preheader_in(email@.notes) {
        text::lemma_holds_itself(
            "<div style=\"display:none;max-height:0;overflow:hidden;mso-hide:all;\">"@,
            markup::html_escaped(preheader),
            "</div>\n"@,
        );
        text::lemma_holds_inside(document, preview, markup::html_escaped(preheader));
    }
}

proof fn lemma_stands_as_written(s: Seq<char>, pattern: Seq<char>, j: int, i: int)
    requires
        text::stands_at(s, pattern, j),
        0 <= i < pattern.len(),
    ensures
        0 <= j + i < s.len(),
        s[j + i] == pattern[i],
{
    assert(s.subrange(j, j + pattern.len())[i] == pattern[i]);
}

/// Notes that name a subject and a preheader on a line each give both back.
pub proof fn law_the_notes_give_subject_and_preheader(subject: Seq<char>, preheader: Seq<char>)
    requires
        !subject.contains('\n'),
        !preheader.contains('\n'),
        text::find(subject, "Preheader:"@) is None,
        text::find(preheader, "Subject:"@) is None,
        text::trim(subject).len() > 0,
        text::trim(preheader).len() > 0,
    ensures
        subject_in(Some("Subject:"@ + subject + "\nPreheader:"@ + preheader)) == Some(
            text::trim(subject),
        ),
        preheader_in(Some("Subject:"@ + subject + "\nPreheader:"@ + preheader)) == Some(
            text::trim(preheader),
        ),
{
    reveal_strlit("Subject:");
    reveal_strlit("Preheader:");
    reveal_strlit("\nPreheader:");
    let s = "Subject:"@ + subject + "\nPreheader:"@ + preheader;
    let line = 8 + subject.len() as int;
    let at = line + 1;
    let from = at + 10;
    let length = s.len() as int;
    assert(s.subrange(0, 8) =~= "Subject:"@);
    assert(text::stands_at(s, "Subject:"@, 0));
    text::lemma_find_from(s, "Subject:"@, 0);
    assert(text::find(s, "Subject:"@) == Some(0int));
    assert(s[line] == '\n');
    assert forall|k: int| 8 <= k < line implies s[k] != '\n' by {
        assert(s[k] == subject[k - 8]);
    }
    text::lemma_find_char_from(s, '\n', 8);
    assert(text::find_char_from(s, '\n', 8) == Some(line));
    assert(s.subrange(at, from) =~= "Preheader:"@);
    assert(text::stands_at(s, "Preheader:"@, at));
    assert forall|j: int| 0 <= j < at implies !#[trigger] text::stands_at(s, "Preheader:"@, j) by {
        if text::stands_at(s, "Preheader:"@, j) {
            lemma_stands_as_written(s, "Preheader:"@, j, 0);
            if j < 8 {
                assert(s[j] == "Subject:"@[j]);
            } else if j + 10 <= line {
                assert(subject.subrange(j - 8, j + 2) =~= s.subrange(j, j + 10));
                assert(text::stands_at(subject, "Preheader:"@, j - 8));
                text::lemma_find_from(subject, "Preheader:"@, 0);
            } else {
                lemma_stands_as_written(s, "Preheader:"@, j, line - j);
            }
        }
    }
    text::lemma_find_from(s, "Preheader:"@, 0);
    text::lemma_find_from(s, "Preheader:"@, 8);
    assert(text::find_from(s, "Preheader:"@, 0) == Some(at));
    assert(text::find_from(s, "Preheader:"@, 8) == Some(at));
    assert(s.subrange(8, line) =~= subject);
    assert forall|k: int| from <= k < length implies s[k] != '\n' by {
        assert(s[k] == preheader[k - from]);
    }
    text::lemma_find_char_from(s, '\n', from);
    assert(text::find_char_from(s, '\n', from) is None);
    assert forall|j: int| from <= j implies !#[trigger] text::stands_at(s, "Subject:"@, j) by {
        if text::stands_at(s, "Subject:"@, j) {
            let k = j - from;
            assert(preheader.subrange(k, k + 8) =~= s.subrange(j, j + 8));
            assert(text::stands_at(preheader, "Subject:"@, k));
            text::lemma_find_from(preheader, "Subject:"@, 0);
        }
    }
    text::lemma_find_from(s, "Subject:"@, from);
    assert(text::find_from(s, "Subject:"@, from) is None);
    assert(s.subrange(from, length) =~= preheader);
}

/// The px width of a style is read as its number, from the first declaration
/// that sets one.
pub proof fn law_a_px_width_is_read(number: Seq<char>, other: Seq<char>, rest: Seq<char>)
    requires
        number.len() > 0,
        text::all_digits(number),
        css::is_one_part(other, ';'),
        width_value(other) is None,
    ensures
        width_number("width:"@ + number + "px"@) == Some(number),
        width_number(other + seq![';'] + rest) == width_number(rest),
{
    reveal_strlit("width:");
    reveal_strlit("px");
    let s = "width:"@ + number + "px"@;
    assert forall|k: int| 0 <= k < number.len() implies text::is_digit(#[trigger] number[k]) by {
        assert(text::is_digit(number[k]));
    }
    assert forall|k: int| 0 <= k < s.len() implies {
        let c = #[trigger] s[k];
        c != '"' && c != '\'' && c != '(' && c != ')' && c != '[' && c != ']' && c != ';'
    } by {
        if 6 <= k < 6 + number.len() {
            assert(s[k] == number[k - 6]);
        }
    }
    assert(css::is_flat(s));
    assert(!s.contains(';'));
    css::law_brackets_hold_a_part_together(s, Seq::empty(), ';');
    css::law_a_part_is_split_off(s, ';', rest);
    assert(s[0] == 'w' && s.last() == 'x');
    assert(text::trim(s) == s);
    assert(s.subrange(0, 6) =~= "width:"@);
    let value = number + "px"@;
    assert(s.skip(6) =~= value);
    assert(value[0] == number[0] && value.last() == 'x');
    assert(!text::is_space(value[0]));
    assert(text::trim(value) == value);
    assert(value.subrange(value.len() - 2, value.len() as int) =~= "px"@);
    assert(value.take(value.len() - 2) =~= number);
    assert(text::is_digit(number[number.len() - 1]));
    assert(!text::is_space(number.last()) && !text::is_space(number.first()));
    assert(text::trim(number) == number);
    assert(css::split(s, ';')[0] == s);
    css::law_a_part_is_split_off(other, ';', rest);
    let parts = css::split(other + seq![';'] + rest, ';');
    assert(parts[0] == other);
    assert(parts.drop_first() =~= css::split(rest, ';'));
    lemma_widths_behind(parts, css::split(rest, ';'), 0);
}

proof fn lemma_widths_behind(parts: Seq<Seq<char>>, rest: Seq<Seq<char>>, k: int)
    requires
        0 <= k,
        parts.len() == rest.len() + 1,
        parts.drop_first() == rest,
    ensures
        width_number_from(parts, k + 1) == width_number_from(rest, k),
    decreases rest.len() - k,
{
    if k < rest.len() {
        assert(parts[k + 1] == parts.drop_first()[k]);
        lemma_widths_behind(parts, rest, k + 1);
    }
}

} // verus!
