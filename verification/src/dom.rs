//! The element tree of an email fragment.
//!
//! A fragment is parsed into an arena. Element 0 is a synthetic root with an
//! empty tag. Every other element names its parent, which stands before it,
//! and is listed once among that parent's children.

use vstd::prelude::*;

use crate::markup;
use crate::markup::decode_entities;
use crate::text;
use crate::text::{chars_of, find_char, letter, owned, part, text_of, to_lower, trimmed, trimmed_end};

verus! {

// -- The model --------------------------------------------------------------

/// One attribute: its name and its decoded value, when it has one.
pub struct AttributeModel {
    pub name: Seq<char>,
    pub value: Option<Seq<char>>,
}

/// One node: a child element by arena index, text kept verbatim, or a raw
/// subtree copied through unchanged.
pub enum NodeModel {
    Element(int),
    Text(Seq<char>),
    Raw(Seq<char>),
}

/// One element of the arena.
pub struct ElementModel {
    pub tag: Seq<char>,
    pub attributes: Seq<AttributeModel>,
    pub parent: int,
    pub children: Seq<NodeModel>,
}

/// One attribute: its name and its decoded value, when it has one.
#[derive(Debug)]
pub struct Attribute {
    pub name: String,
    pub value: Option<String>,
}

/// One node: a child element by arena index, text kept verbatim, or a raw
/// subtree copied through unchanged.
#[derive(Debug)]
pub enum Node {
    Element(usize),
    Text(String),
    Raw(String),
}

/// One element of the arena.
#[derive(Debug)]
pub struct Element {
    /// The tag name in lower case, empty for the root alone.
    pub tag: String,
    /// The attributes in source order.
    pub attributes: Vec<Attribute>,
    /// The arena index of the parent.
    pub parent: usize,
    /// The content in source order.
    pub children: Vec<Node>,
}

impl View for Attribute {
    type V = AttributeModel;

    open spec fn view(&self) -> AttributeModel {
        AttributeModel {
            name: self.name@,
            value: match self.value {
                Some(value) => Some(value@),
                None => None,
            },
        }
    }
}

impl View for Node {
    type V = NodeModel;

    open spec fn view(&self) -> NodeModel {
        match *self {
            Node::Element(index) => NodeModel::Element(index as int),
            Node::Text(text) => NodeModel::Text(text@),
            Node::Raw(raw) => NodeModel::Raw(raw@),
        }
    }
}

/// The attributes of a list.
pub open spec fn attributes_of(list: Seq<Attribute>) -> Seq<AttributeModel> {
    list.map_values(|attribute: Attribute| attribute@)
}

/// The nodes of a list.
pub open spec fn nodes_of(list: Seq<Node>) -> Seq<NodeModel> {
    list.map_values(|node: Node| node@)
}

impl View for Element {
    type V = ElementModel;

    open spec fn view(&self) -> ElementModel {
        ElementModel {
            tag: self.tag@,
            attributes: attributes_of(self.attributes@),
            parent: self.parent as int,
            children: nodes_of(self.children@),
        }
    }
}

/// The elements of an arena.
pub open spec fn tree_of(arena: Seq<Element>) -> Seq<ElementModel> {
    arena.map_values(|element: Element| element@)
}

/// The shape of every arena: the root first and alone without a tag, parents
/// before their children, and every element listed in order below its parent.
pub open spec fn is_tree(tree: Seq<ElementModel>) -> bool {
    &&& tree.len() > 0
    &&& tree[0].tag.len() == 0
    &&& tree[0].parent == 0
    &&& forall|i: int|
        0 < i < tree.len() ==> 0 <= (#[trigger] tree[i]).parent < i && tree[i].tag.len() > 0
    &&& forall|i: int, k: int|
        #![trigger tree[i].children[k]]
        0 <= i < tree.len() && 0 <= k < tree[i].children.len() ==> (
        tree[i].children[k] matches NodeModel::Element(j) ==> i < j < tree.len() && tree[j].parent
            == i)
    &&& forall|i: int, k: int, l: int|
        #![trigger tree[i].children[k], tree[i].children[l]]
        0 <= i < tree.len() && 0 <= k < l < tree[i].children.len() ==> (
        tree[i].children[k] matches NodeModel::Element(a) ==> (
        tree[i].children[l] matches NodeModel::Element(b) ==> a < b))
    &&& forall|j: int|
        0 < j < tree.len() ==> is_listed(tree[(#[trigger] tree[j]).parent].children, j)
}

/// True when element `j` is among the nodes.
pub open spec fn is_listed(nodes: Seq<NodeModel>, j: int) -> bool {
    exists|k: int| 0 <= k < nodes.len() && #[trigger] nodes[k] == NodeModel::Element(j)
}

// -- Tags -------------------------------------------------------------------

/// The elements that never have a closing tag.
pub open spec fn is_void_tag(tag: Seq<char>) -> bool {
    tag == "area"@ || tag == "br"@ || tag == "col"@ || tag == "embed"@ || tag == "hr"@ || tag
        == "img"@ || tag == "input"@
}

/// The block elements that implicitly close an open paragraph.
pub open spec fn is_block_tag(tag: Seq<char>) -> bool {
    tag == "address"@ || tag == "article"@ || tag == "aside"@ || tag == "blockquote"@ || tag
        == "div"@ || tag == "figure"@ || tag == "footer"@ || tag == "h1"@ || tag == "h2"@ || tag
        == "h3"@ || tag == "h4"@ || tag == "h5"@ || tag == "h6"@ || tag == "header"@ || tag
        == "hr"@ || tag == "main"@ || tag == "nav"@ || tag == "ol"@ || tag == "p"@ || tag == "pre"@
        || tag == "ul"@
}

/// True when the open element `top` closes implicitly before `next`.
pub open spec fn closes_before(top: Seq<char>, next: Seq<char>) -> bool {
    ||| (next == "p"@ || next == "li"@ || next == "tr"@ || next == "thead"@ || next == "tbody"@
        || next == "tfoot"@) && top == next
    ||| (next == "td"@ || next == "th"@) && (top == "td"@ || top == "th"@)
    ||| (next == "dt"@ || next == "dd"@) && (top == "dt"@ || top == "dd"@)
    ||| top == "p"@ && is_block_tag(next)
}

/// True for an element that never has a closing tag.
pub fn void_tag(tag: &str) -> (r: bool)
    ensures
        r == is_void_tag(tag@),
{
    *tag == *"area" || *tag == *"br" || *tag == *"col" || *tag == *"embed" || *tag == *"hr" || *tag
        == *"img" || *tag == *"input"
}

fn block_tag(tag: &str) -> (r: bool)
    ensures
        r == is_block_tag(tag@),
{
    *tag == *"address" || *tag == *"article" || *tag == *"aside" || *tag == *"blockquote" || *tag
        == *"div" || *tag == *"figure" || *tag == *"footer" || *tag == *"h1" || *tag == *"h2"
        || *tag == *"h3" || *tag == *"h4" || *tag == *"h5" || *tag == *"h6" || *tag == *"header"
        || *tag == *"hr" || *tag == *"main" || *tag == *"nav" || *tag == *"ol" || *tag == *"p"
        || *tag == *"pre" || *tag == *"ul"
}

/// True when the open element `top` closes implicitly before `next`.
pub fn implicitly_closes(top: &str, next: &str) -> (r: bool)
    ensures
        r == closes_before(top@, next@),
{
    let closes_same = (*next == *"p" || *next == *"li" || *next == *"tr" || *next == *"thead"
        || *next == *"tbody" || *next == *"tfoot") && *top == *next;
    let closes_cell = (*next == *"td" || *next == *"th") && (*top == *"td" || *top == *"th");
    let closes_term = (*next == *"dt" || *next == *"dd") && (*top == *"dt" || *top == *"dd");
    let closes_paragraph = *top == *"p" && block_tag(next);
    closes_same || closes_cell || closes_term || closes_paragraph
}

/// `s` without the slashes it ends with.
pub open spec fn without_slashes(s: Seq<char>) -> Seq<char>
    decreases s.len(),
{
    if s.len() > 0 && s.last() == '/' {
        without_slashes(s.drop_last())
    } else {
        s
    }
}

/// Where the attribute name that begins at `i` ends: at white space, at an
/// equals sign, or at the end.
pub open spec fn name_end(s: Seq<char>, i: int) -> int
    decreases s.len() - i,
{
    if 0 <= i < s.len() && !text::is_space(s[i]) && s[i] != '=' {
        name_end(s, i + 1)
    } else {
        i
    }
}

/// The raw attribute value that begins at `k`, and the position behind it:
/// quoted up to the same quote, or bare up to white space.
pub open spec fn value_at(s: Seq<char>, k: int) -> (Seq<char>, int) {
    if 0 <= k < s.len() && (s[k] == '"' || s[k] == '\'') {
        match text::find_char_from(s, s[k], k + 1) {
            Some(q) => (s.subrange(k + 1, q), q + 1),
            None => (s.subrange(k + 1, s.len() as int), s.len() as int),
        }
    } else {
        let end = text::next_space(s, k);
        (s.subrange(k, end), end)
    }
}

/// The attributes of a tag from position `i`, where no white space stands.
pub open spec fn attributes_from(s: Seq<char>, i: int) -> Seq<AttributeModel>
    decreases s.len() - i,
{
    let e = name_end(s, i);
    let j = text::skip_space(s, e);
    if !(0 <= i < e <= j <= s.len()) {
        Seq::empty()
    } else if j < s.len() && s[j] == '=' {
        let (raw, end) = value_at(s, text::skip_space(s, j + 1));
        let next = text::skip_space(s, end);
        let attribute = AttributeModel {
            name: text::lower(s.subrange(i, e)),
            value: Some(markup::decoded(raw)),
        };
        if i < next <= s.len() {
            seq![attribute] + attributes_from(s, next)
        } else {
            Seq::empty()
        }
    } else {
        let attribute = AttributeModel { name: text::lower(s.subrange(i, e)), value: None };
        seq![attribute] + attributes_from(s, j)
    }
}

/// The inside of a tag without the white space around it and its closing
/// slashes.
pub open spec fn tag_content(s: Seq<char>) -> Seq<char> {
    without_slashes(text::trim(s))
}

/// The name of the tag with inside `s`, in lower case.
pub open spec fn tag_name(s: Seq<char>) -> Seq<char> {
    let content = tag_content(s);
    text::lower(content.subrange(0, text::next_space(content, 0)))
}

/// The attributes of the tag with inside `s`, in source order.
pub open spec fn tag_attributes(s: Seq<char>) -> Seq<AttributeModel> {
    let content = tag_content(s);
    attributes_from(content, text::skip_space(content, text::next_space(content, 0)))
}

proof fn lemma_name_end(s: Seq<char>, i: int)
    requires
        0 <= i <= s.len(),
    ensures
        i <= name_end(s, i) <= s.len(),
    decreases s.len() - i,
{
    if i < s.len() && !text::is_space(s[i]) && s[i] != '=' {
        lemma_name_end(s, i + 1);
    }
}

/// The inside of a tag without the white space around it and its closing
/// slashes.
fn content_of(tag: &[char]) -> (r: Vec<char>)
    ensures
        r@ == tag_content(tag@),
{
    let inside = trimmed(tag);
    let mut end: usize = inside.len();
    assert(inside@.take(end as int) =~= inside@);
    while end > 0 && inside[end - 1] == '/'
        invariant
            end <= inside@.len(),
            without_slashes(inside@) == without_slashes(inside@.take(end as int)),
        decreases end,
    {
        assert(inside@.take(end as int).drop_last() =~= inside@.take(end - 1));
        end -= 1;
    }
    part(&inside, 0, end)
}

/// The lowercased tag name and the decoded attributes of a tag's inside.
pub fn parse_tag(tag: &[char]) -> (r: (String, Vec<Attribute>))
    ensures
        r.0@ == tag_name(tag@),
        attributes_of(r.1@) == tag_attributes(tag@),
{
    let content = content_of(tag);
    let end = text::up_to_space(&content, 0);
    let name = text_of(&to_lower(&part(&content, 0, end)));
    let mut attributes: Vec<Attribute> = Vec::new();
    let mut i = text::after_space(&content, end);
    loop
        invariant
            i <= content@.len(),
            tag_attributes(tag@) == attributes_of(attributes@) + attributes_from(
                content@,
                i as int,
            ),
        ensures
            tag_attributes(tag@) == attributes_of(attributes@),
        decreases content@.len() - i,
    {
        proof {
            lemma_name_end(content@, i as int);
        }
        let e = attribute_name_end(&content, i);
        if e == i {
            assert(attributes_from(content@, i as int) =~= Seq::<AttributeModel>::empty());
            assert(attributes_of(attributes@) + Seq::<AttributeModel>::empty() =~= attributes_of(
                attributes@,
            ));
            break;
        }
        let ghost before = attributes@;
        let attribute_name = text_of(&to_lower(&part(&content, i, e)));
        let j = text::after_space(&content, e);
        let ghost at = i as int;
        if j < content.len() && content[j] == '=' {
            let k = text::after_space(&content, j + 1);
            let (raw, next) = read_value(&content, k);
            let value = text_of(&decode_entities(&raw));
            attributes.push(Attribute { name: attribute_name, value: Some(value) });
            i = text::after_space(&content, next);
        } else {
            attributes.push(Attribute { name: attribute_name, value: None });
            i = j;
        }
        proof {
            let model = attributes@.last()@;
            assert(attributes_of(attributes@) =~= attributes_of(before).push(model));
            assert(attributes_from(content@, at) == seq![model] + attributes_from(
                content@,
                i as int,
            ));
            assert(attributes_of(before) + (seq![model] + attributes_from(content@, i as int))
                =~= attributes_of(attributes@) + attributes_from(content@, i as int));
        }
    }
    (name, attributes)
}

fn attribute_name_end(chars: &[char], from: usize) -> (r: usize)
    requires
        from <= chars@.len(),
    ensures
        r == name_end(chars@, from as int),
        from <= r <= chars@.len(),
{
    let mut i: usize = from;
    while i < chars.len() && !text::space(chars[i]) && chars[i] != '='
        invariant
            from <= i <= chars@.len(),
            name_end(chars@, from as int) == name_end(chars@, i as int),
        decreases chars@.len() - i,
    {
        i += 1;
    }
    i
}

fn read_value(chars: &[char], k: usize) -> (r: (Vec<char>, usize))
    requires
        k <= chars@.len(),
    ensures
        (r.0@, r.1 as int) == value_at(chars@, k as int),
        k <= r.1 <= chars@.len(),
{
    if k < chars.len() && (chars[k] == '"' || chars[k] == '\'') {
        match find_char(chars, chars[k], k + 1) {
            Some(q) => (part(chars, k + 1, q), q + 1),
            None => (part(chars, k + 1, chars.len()), chars.len()),
        }
    } else {
        let end = text::up_to_space(chars, k);
        (part(chars, k, end), end)
    }
}

// -- Raw subtrees -----------------------------------------------------------

/// True when `pattern`, in lower case, stands at `i` in any case.
pub open spec fn stands_in_any_case(s: Seq<char>, pattern: Seq<char>, i: int) -> bool {
    text::stands_at(text::lower(s), pattern, i)
}

/// The end of the raw content of an `<svg>` element and the position behind
/// its closing tag, scanned from `i` with `depth` nested elements open. An
/// element that never closes runs to the end.
pub open spec fn svg_end(s: Seq<char>, i: int, depth: int) -> (int, int)
    decreases s.len() - i,
    via svg_end_decreases
{
    match text::find_char_from(s, '<', i) {
        None => (s.len() as int, s.len() as int),
        Some(p) => if stands_in_any_case(s, "/svg"@, p + 1) {
            if depth <= 0 {
                match text::find_char_from(s, '>', p) {
                    Some(q) => (p, q + 1),
                    None => (p, s.len() as int),
                }
            } else {
                svg_end(s, p + 1, depth - 1)
            }
        } else if stands_in_any_case(s, "svg"@, p + 1) && !(p + 4 < s.len() && (text::is_letter(
            s[p + 4],
        ) || text::is_digit(s[p + 4]))) {
            svg_end(s, p + 1, depth + 1)
        } else {
            svg_end(s, p + 1, depth)
        },
    }
}

#[via_fn]
proof fn svg_end_decreases(s: Seq<char>, i: int, depth: int) {
    if i >= 0 {
        text::lemma_find_char_from(s, '<', i);
    }
}

/// The raw content of an `<svg>` element whose inside begins at `from`: where
/// it ends, and where the text goes on behind the closing tag.
pub fn raw_svg_content(chars: &[char], from: usize) -> (r: (usize, usize))
    requires
        from <= chars@.len(),
    ensures
        (r.0 as int, r.1 as int) == svg_end(chars@, from as int, 0),
        from <= r.0 <= r.1 <= chars@.len(),
{
    let lowered = to_lower(chars);
    let length: usize = chars.len();
    let mut depth: usize = 0;
    let mut i: usize = from;
    loop
        invariant
            from <= i <= chars@.len(),
            depth <= i - from,
            length == chars@.len(),
            lowered@ == text::lower(chars@),
            svg_end(chars@, from as int, 0) == svg_end(chars@, i as int, depth as int),
        decreases chars@.len() - i,
    {
        let Some(p) = find_char(chars, '<', i) else {
            return (chars.len(), chars.len());
        };
        if text::text_is_at(&lowered, "/svg", p + 1) {
            if depth == 0 {
                return match find_char(chars, '>', p) {
                    Some(q) => (p, q + 1),
                    None => (p, chars.len()),
                };
            }
            depth -= 1;
        } else if text::text_is_at(&lowered, "svg", p + 1) {
            proof {
                reveal_strlit("svg");
            }
            if !(p + 4 < length && (letter(chars[p + 4]) || text::digit(chars[p + 4]))) {
                depth += 1;
            }
        }
        i = p + 1;
    }
}

// -- The fragment -----------------------------------------------------------

/// The tree with `node` appended below element `parent`.
pub open spec fn with_child(tree: Seq<ElementModel>, parent: int, node: NodeModel) -> Seq<
    ElementModel,
> {
    tree.update(
        parent,
        ElementModel { children: tree[parent].children.push(node), ..tree[parent] },
    )
}

/// The tree with text appended to the innermost open element, when there is
/// any.
pub open spec fn with_text(tree: Seq<ElementModel>, open: Seq<int>, content: Seq<char>) -> Seq<
    ElementModel,
> {
    if content.len() == 0 {
        tree
    } else {
        with_child(tree, open.last(), NodeModel::Text(content))
    }
}

/// The tree with a new last element, listed below its parent.
pub open spec fn with_element(tree: Seq<ElementModel>, element: ElementModel) -> Seq<
    ElementModel,
> {
    with_child(tree.push(element), element.parent, NodeModel::Element(tree.len() as int))
}

/// The position of the innermost open element with the given tag.
pub open spec fn innermost(tree: Seq<ElementModel>, open: Seq<int>, tag: Seq<char>) -> Option<int>
    decreases open.len(),
{
    if open.len() == 0 {
        None
    } else if tree[open.last()].tag == tag {
        Some(open.len() - 1)
    } else {
        innermost(tree, open.drop_last(), tag)
    }
}

/// The open elements after the closing tag `tag`: the innermost open element
/// of that name and everything inside it closes. A closing tag of a void
/// element, or of nothing open, closes nothing.
pub open spec fn after_close(tree: Seq<ElementModel>, open: Seq<int>, tag: Seq<char>) -> Seq<int> {
    if tag.len() == 0 || is_void_tag(tag) {
        open
    } else {
        match innermost(tree, open, tag) {
            Some(position) => if position <= 0 {
                open
            } else {
                open.take(position)
            },
            None => open,
        }
    }
}

/// The open elements after those close that close implicitly before `tag`.
pub open spec fn after_implicit_closes(
    tree: Seq<ElementModel>,
    open: Seq<int>,
    tag: Seq<char>,
) -> Seq<int>
    decreases open.len(),
{
    if open.len() > 1 && closes_before(tree[open.last()].tag, tag) {
        after_implicit_closes(tree, open.drop_last(), tag)
    } else {
        open
    }
}

/// True for a tag whose element has no content: a void element, or one that
/// closes itself with a slash.
pub open spec fn is_childless(name: Seq<char>, inside: Seq<char>) -> bool {
    let end = text::trim_end(inside);
    is_void_tag(name) || end.len() > 0 && end.last() == '/'
}

/// The tree of the fragment `s` from position `i`, with `open` the elements
/// that are open there, the innermost last.
pub open spec fn parsed_from(
    s: Seq<char>,
    i: int,
    tree: Seq<ElementModel>,
    open: Seq<int>,
) -> Seq<ElementModel>
    decreases s.len() - i,
    via parsed_decreases
{
    if !(0 <= i <= s.len()) {
        tree
    } else {
        match text::find_char_from(s, '<', i) {
            None => with_text(tree, open, s.subrange(i, s.len() as int)),
            Some(p) => {
                let before = with_text(tree, open, s.subrange(i, p));
                match text::find_char_from(s, '>', p) {
                    None => before,
                    Some(q) => {
                        let inside = s.subrange(p + 1, q);
                        let name = tag_name(inside);
                        if inside.len() > 0 && inside[0] == '/' {
                            let closed = text::lower(text::trim(inside.drop_first()));
                            parsed_from(s, q + 1, before, after_close(before, open, closed))
                        } else if name.len() == 0 {
                            parsed_from(s, q + 1, before, open)
                        } else {
                            let still = after_implicit_closes(before, open, name);
                            if name == "svg"@ {
                                let (end, next) = svg_end(s, q + 1, 0);
                                let element = ElementModel {
                                    tag: name,
                                    attributes: tag_attributes(inside),
                                    parent: still.last(),
                                    children: seq![NodeModel::Raw(s.subrange(q + 1, end))],
                                };
                                parsed_from(s, next, with_element(before, element), still)
                            } else {
                                let element = ElementModel {
                                    tag: name,
                                    attributes: tag_attributes(inside),
                                    parent: still.last(),
                                    children: Seq::empty(),
                                };
                                parsed_from(
                                    s,
                                    q + 1,
                                    with_element(before, element),
                                    if is_childless(name, inside) {
                                        still
                                    } else {
                                        still.push(before.len() as int)
                                    },
                                )
                            }
                        }
                    },
                }
            },
        }
    }
}

#[via_fn]
proof fn parsed_decreases(s: Seq<char>, i: int, tree: Seq<ElementModel>, open: Seq<int>) {
    if 0 <= i <= s.len() {
        text::lemma_find_char_from(s, '<', i);
        if let Some(p) = text::find_char_from(s, '<', i) {
            text::lemma_find_char_from(s, '>', p);
            if let Some(q) = text::find_char_from(s, '>', p) {
                lemma_svg_end(s, q + 1, 0);
            }
        }
    }
}

/// An `<svg>` element ends behind its inside, within the text.
pub proof fn lemma_svg_end(s: Seq<char>, i: int, depth: int)
    requires
        0 <= i <= s.len(),
    ensures
        i <= svg_end(s, i, depth).0 <= svg_end(s, i, depth).1 <= s.len(),
    decreases s.len() - i,
{
    text::lemma_find_char_from(s, '<', i);
    if let Some(p) = text::find_char_from(s, '<', i) {
        text::lemma_find_char_from(s, '>', p);
        lemma_svg_end(s, p + 1, depth - 1);
        lemma_svg_end(s, p + 1, depth + 1);
        lemma_svg_end(s, p + 1, depth);
    }
}

/// The synthetic root of every tree.
pub open spec fn root_element() -> ElementModel {
    ElementModel {
        tag: Seq::empty(),
        attributes: Seq::empty(),
        parent: 0,
        children: Seq::empty(),
    }
}

/// The tree of the fragment `s`.
pub open spec fn parsed(s: Seq<char>) -> Seq<ElementModel> {
    parsed_from(s, 0, seq![root_element()], seq![0int])
}

// -- Building the tree ------------------------------------------------------

/// True when `open` can be the open elements of `tree`: the root, then
/// elements of the tree.
spec fn is_open_in(tree: Seq<ElementModel>, open: Seq<int>) -> bool {
    &&& open.len() > 0
    &&& open[0] == 0
    &&& forall|k: int| 0 <= k < open.len() ==> 0 <= #[trigger] open[k] < tree.len()
}

/// The open elements as integers.
spec fn indexes(open: Seq<usize>) -> Seq<int> {
    open.map_values(|index: usize| index as int)
}

proof fn lemma_with_text_keeps_tree(tree: Seq<ElementModel>, parent: int, node: NodeModel)
    requires
        is_tree(tree),
        0 <= parent < tree.len(),
        node !is Element,
    ensures
        is_tree(with_child(tree, parent, node)),
{
    let after = with_child(tree, parent, node);
    assert forall|j: int| 0 < j < after.len() implies is_listed(
        after[(#[trigger] after[j]).parent].children,
        j,
    ) by {
        let above = tree[j].parent;
        assert(is_listed(tree[above].children, j));
        let k = choose|k: int|
            0 <= k < tree[above].children.len() && #[trigger] tree[above].children[k]
                == NodeModel::Element(j);
        assert(after[above].children[k] == NodeModel::Element(j));
    }
    assert forall|i: int, k: int|
        #![trigger after[i].children[k]]
        0 <= i < after.len() && 0 <= k < after[i].children.len() implies (
    after[i].children[k] matches NodeModel::Element(j) ==> i < j < after.len() && after[j].parent
        == i) by {
        if k < tree[i].children.len() {
            assert(after[i].children[k] == tree[i].children[k]);
        }
    }
    assert forall|i: int, k: int, l: int|
        #![trigger after[i].children[k], after[i].children[l]]
        0 <= i < after.len() && 0 <= k < l < after[i].children.len() implies (
    after[i].children[k] matches NodeModel::Element(a) ==> (
    after[i].children[l] matches NodeModel::Element(b) ==> a < b)) by {
        assert(after[i].children[k] == tree[i].children[k]);
        if l < tree[i].children.len() {
            assert(after[i].children[l] == tree[i].children[l]);
        }
    }
}

proof fn lemma_with_element_keeps_tree(tree: Seq<ElementModel>, element: ElementModel)
    requires
        is_tree(tree),
        0 <= element.parent < tree.len(),
        element.tag.len() > 0,
        forall|k: int| 0 <= k < element.children.len() ==> #[trigger] element.children[k] !is Element,
    ensures
        is_tree(with_element(tree, element)),
{
    let fresh = tree.len() as int;
    let after = with_element(tree, element);
    assert(after[fresh] == element);
    assert forall|i: int| 0 < i < after.len() implies 0 <= (#[trigger] after[i]).parent < i
        && after[i].tag.len() > 0 by {
        if i < fresh {
            assert(tree[i].parent == after[i].parent);
        }
    }
    assert forall|j: int| 0 < j < after.len() implies is_listed(
        after[(#[trigger] after[j]).parent].children,
        j,
    ) by {
        let above = after[j].parent;
        if j < fresh {
            assert(tree[j].parent == above);
            assert(is_listed(tree[above].children, j));
            let k = choose|k: int|
                0 <= k < tree[above].children.len() && #[trigger] tree[above].children[k]
                    == NodeModel::Element(j);
            assert(after[above].children[k] == NodeModel::Element(j));
        } else {
            let k = tree[above].children.len() as int;
            assert(after[above].children[k] == NodeModel::Element(j));
        }
    }
    assert forall|i: int, k: int|
        #![trigger after[i].children[k]]
        0 <= i < after.len() && 0 <= k < after[i].children.len() implies (
    after[i].children[k] matches NodeModel::Element(j) ==> i < j < after.len() && after[j].parent
        == i) by {
        if i < fresh && k < tree[i].children.len() {
            assert(after[i].children[k] == tree[i].children[k]);
        } else if i == fresh {
            assert(after[i].children[k] == element.children[k]);
        }
    }
    assert forall|i: int, k: int, l: int|
        #![trigger after[i].children[k], after[i].children[l]]
        0 <= i < after.len() && 0 <= k < l < after[i].children.len() implies (
    after[i].children[k] matches NodeModel::Element(a) ==> (
    after[i].children[l] matches NodeModel::Element(b) ==> a < b)) by {
        if i < fresh {
            assert(after[i].children[k] == tree[i].children[k]);
            if l < tree[i].children.len() {
                assert(after[i].children[l] == tree[i].children[l]);
            }
        } else {
            assert(after[i].children[k] == element.children[k]);
        }
    }
}

/// Appends a node to the content of element `parent`.
fn push_child(arena: &mut Vec<Element>, parent: usize, node: Node)
    requires
        parent < old(arena)@.len(),
    ensures
        tree_of(final(arena)@) == with_child(tree_of(old(arena)@), parent as int, node@),
        final(arena)@.len() == old(arena)@.len(),
{
    let ghost before = arena@;
    let ghost children = arena@[parent as int].children@;
    arena[parent].children.push(node);
    proof {
        assert(nodes_of(children.push(node)) =~= nodes_of(children).push(node@));
        assert(tree_of(arena@) =~= with_child(tree_of(before), parent as int, node@));
    }
}

/// Appends non-empty text to the innermost open element.
fn push_text(arena: &mut Vec<Element>, open: &Vec<usize>, content: &[char])
    requires
        is_tree(tree_of(old(arena)@)),
        is_open_in(tree_of(old(arena)@), indexes(open@)),
    ensures
        tree_of(final(arena)@) == with_text(tree_of(old(arena)@), indexes(open@), content@),
        is_tree(tree_of(final(arena)@)),
        final(arena)@.len() == old(arena)@.len(),
{
    if content.len() == 0 {
        return;
    }
    let parent = open[open.len() - 1];
    assert(indexes(open@).last() == parent as int);
    proof {
        lemma_with_text_keeps_tree(
            tree_of(arena@),
            parent as int,
            NodeModel::Text(content@),
        );
    }
    push_child(arena, parent, Node::Text(text_of(content)));
}

/// Closes the innermost open element named `name` and everything inside it.
/// A closing tag with no open element is dropped.
fn close_element(arena: &Vec<Element>, open: &mut Vec<usize>, name: &str)
    requires
        is_tree(tree_of(arena@)),
        is_open_in(tree_of(arena@), indexes(old(open)@)),
    ensures
        indexes(final(open)@) == after_close(tree_of(arena@), indexes(old(open)@), name@),
        is_open_in(tree_of(arena@), indexes(final(open)@)),
{
    let ghost tree = tree_of(arena@);
    let ghost all = indexes(open@);
    if name.is_empty() || void_tag(name) {
        return;
    }
    let mut count: usize = open.len();
    assert(all.take(count as int) =~= all);
    while count > 0
        invariant
            count <= open@.len(),
            *open == *old(open),
            tree == tree_of(arena@),
            all == indexes(open@),
            is_open_in(tree, all),
            innermost(tree, all, name@) == innermost(tree, all.take(count as int), name@),
            !(name@.len() == 0 || is_void_tag(name@)),
        decreases count,
    {
        let index = open[count - 1];
        assert(all.take(count as int).last() == index as int);
        assert(all[count - 1] == index as int);
        assert(tree[index as int].tag == arena@[index as int].tag@);
        if *arena[index].tag.as_str() == *name {
            let position: usize = count - 1;
            if position > 0 {
                open.truncate(position);
                assert(indexes(open@) =~= all.take(position as int));
            }
            return;
        }
        assert(all.take(count as int).drop_last() =~= all.take(count - 1));
        count -= 1;
    }
}

/// Closes the open elements that close implicitly before an element `name`.
fn close_implicitly(arena: &Vec<Element>, open: &mut Vec<usize>, name: &str)
    requires
        is_tree(tree_of(arena@)),
        is_open_in(tree_of(arena@), indexes(old(open)@)),
    ensures
        indexes(final(open)@) == after_implicit_closes(
            tree_of(arena@),
            indexes(old(open)@),
            name@,
        ),
        is_open_in(tree_of(arena@), indexes(final(open)@)),
{
    let ghost tree = tree_of(arena@);
    while open.len() > 1
        invariant
            tree == tree_of(arena@),
            is_open_in(tree, indexes(open@)),
            after_implicit_closes(tree, indexes(old(open)@), name@) == after_implicit_closes(
                tree,
                indexes(open@),
                name@,
            ),
        ensures
            is_open_in(tree, indexes(open@)),
            after_implicit_closes(tree, indexes(old(open)@), name@) == indexes(open@),
        decreases open@.len(),
    {
        let top = open[open.len() - 1];
        assert(indexes(open@).last() == top as int);
        assert(indexes(open@)[open@.len() - 1] == top as int);
        assert(tree[top as int].tag == arena@[top as int].tag@);
        if implicitly_closes(arena[top].tag.as_str(), name) {
            let ghost was = indexes(open@);
            let _ = open.pop();
            assert(indexes(open@) =~= was.drop_last());
        } else {
            break;
        }
    }
}

/// Appends a new element below its parent and returns its index.
fn push_element(arena: &mut Vec<Element>, element: Element) -> (index: usize)
    requires
        is_tree(tree_of(old(arena)@)),
        element.parent < old(arena)@.len(),
        element@.tag.len() > 0,
        forall|k: int|
            0 <= k < element@.children.len() ==> #[trigger] element@.children[k] !is Element,
    ensures
        tree_of(final(arena)@) == with_element(tree_of(old(arena)@), element@),
        is_tree(tree_of(final(arena)@)),
        index == old(arena)@.len(),
        final(arena)@.len() == old(arena)@.len() + 1,
{
    let index = arena.len();
    let parent = element.parent;
    let ghost before = tree_of(arena@);
    let ghost model = element@;
    proof {
        lemma_with_element_keeps_tree(before, model);
    }
    arena.push(element);
    assert(tree_of(arena@) =~= before.push(model));
    push_child(arena, parent, Node::Element(index));
    index
}

/// Parses a fragment into an arena. Optional end tags follow the HTML rules;
/// a stray closing tag is dropped.
pub fn parse_fragment(html: &str) -> (arena: Vec<Element>)
    ensures
        tree_of(arena@) == parsed(html@),
        is_tree(tree_of(arena@)),
{
    let s = chars_of(html);
    let length: usize = s.len();
    let mut arena: Vec<Element> = Vec::new();
    arena.push(
        Element { tag: String::new(), attributes: Vec::new(), parent: 0, children: Vec::new() },
    );
    let mut open: Vec<usize> = Vec::new();
    open.push(0);
    proof {
        assert(attributes_of(Seq::<Attribute>::empty()) =~= Seq::<AttributeModel>::empty());
        assert(nodes_of(Seq::<Node>::empty()) =~= Seq::<NodeModel>::empty());
        assert(tree_of(arena@) =~= seq![root_element()]);
        assert(indexes(open@) =~= seq![0int]);
    }
    let mut i: usize = 0;
    loop
        invariant_except_break
            i <= s@.len(),
            length == s@.len(),
            s@ == html@,
            is_tree(tree_of(arena@)),
            is_open_in(tree_of(arena@), indexes(open@)),
            parsed(html@) == parsed_from(s@, i as int, tree_of(arena@), indexes(open@)),
        ensures
            is_tree(tree_of(arena@)),
            parsed(html@) == tree_of(arena@),
        decreases s@.len() - i,
    {
        let Some(p) = find_char(&s, '<', i) else {
            let rest = part(&s, i, length);
            push_text(&mut arena, &open, &rest);
            break;
        };
        let rest = part(&s, i, p);
        push_text(&mut arena, &open, &rest);
        let Some(q) = find_char(&s, '>', p) else {
            break;
        };
        let inside = part(&s, p + 1, q);
        if inside.len() > 0 && inside[0] == '/' {
            let tail = part(&inside, 1, inside.len());
            assert(tail@ =~= inside@.drop_first());
            let name = text_of(&to_lower(&trimmed(&tail)));
            close_element(&arena, &mut open, name.as_str());
            i = q + 1;
            continue;
        }
        let (name, attributes) = parse_tag(&inside);
        if name.as_str().is_empty() {
            i = q + 1;
            continue;
        }
        close_implicitly(&arena, &mut open, name.as_str());
        let parent = open[open.len() - 1];
        assert(indexes(open@).last() == parent as int);
        if *name.as_str() == *"svg" {
            let (end, next) = raw_svg_content(&s, q + 1);
            let raw = text_of(&part(&s, q + 1, end));
            let mut children: Vec<Node> = Vec::new();
            children.push(Node::Raw(raw));
            assert(nodes_of(children@) =~= seq![NodeModel::Raw(raw@)]);
            let _ = push_element(
                &mut arena,
                Element { tag: name, attributes, parent, children },
            );
            i = next;
            continue;
        }
        let end = trimmed_end(&inside);
        let childless = void_tag(name.as_str()) || (end.len() > 0 && end[end.len() - 1] == '/');
        assert(nodes_of(Seq::<Node>::empty()) =~= Seq::<NodeModel>::empty());
        let index = push_element(
            &mut arena,
            Element { tag: name, attributes, parent, children: Vec::new() },
        );
        if !childless {
            let ghost was = indexes(open@);
            open.push(index);
            assert(indexes(open@) =~= was.push(index as int));
        }
        i = q + 1;
    }
    arena
}

// -- Reading an element -----------------------------------------------------

/// The value of the first attribute named `name`, when it has one.
pub open spec fn value_of(attributes: Seq<AttributeModel>, name: Seq<char>) -> Option<Seq<char>>
    decreases attributes.len(),
{
    if attributes.len() == 0 {
        None
    } else if attributes[0].name == name {
        attributes[0].value
    } else {
        value_of(attributes.drop_first(), name)
    }
}

/// The class names of an element.
pub open spec fn classes_of(element: ElementModel) -> Seq<Seq<char>> {
    match value_of(element.attributes, "class"@) {
        Some(value) => text::words(value),
        None => Seq::empty(),
    }
}

/// The decoded value of one attribute, when present.
pub fn attribute_value(element: &Element, name: &str) -> (r: Option<String>)
    ensures
        match r {
            Some(value) => value_of(element@.attributes, name@) == Some(value@),
            None => value_of(element@.attributes, name@) is None,
        },
{
    let ghost all = element@.attributes;
    let mut i: usize = 0;
    assert(all.skip(0) =~= all);
    while i < element.attributes.len()
        invariant
            i <= element.attributes@.len(),
            all == attributes_of(element.attributes@),
            value_of(all, name@) == value_of(all.skip(i as int), name@),
        decreases element.attributes@.len() - i,
    {
        let attribute = &element.attributes[i];
        assert(all.skip(i as int)[0] == attribute@);
        if *attribute.name.as_str() == *name {
            return match &attribute.value {
                Some(value) => Some(owned(value.as_str())),
                None => None,
            };
        }
        assert(all.skip(i as int).drop_first() =~= all.skip(i + 1));
        i += 1;
    }
    None
}

/// The class names of an element.
pub fn class_list(element: &Element) -> (r: Vec<Vec<char>>)
    ensures
        text::texts(r@) == classes_of(element@),
{
    match attribute_value(element, "class") {
        Some(value) => text::words_of(&chars_of(value.as_str())),
        None => {
            let none: Vec<Vec<char>> = Vec::new();
            assert(text::texts(none@) =~= Seq::<Seq<char>>::empty());
            none
        },
    }
}

// -- What a fragment says ---------------------------------------------------

/// True when `word` can name a tag: it has no white space, no end of a tag,
/// and no capitals.
pub open spec fn is_tag_word(word: Seq<char>) -> bool {
    &&& word.len() > 0
    &&& text::lower(word) == word
    &&& forall|i: int|
        0 <= i < word.len() ==> !text::is_space(#[trigger] word[i]) && word[i] != '>'
}

/// True when `word` can name an attribute: a word without an equals sign.
pub open spec fn is_attribute_word(word: Seq<char>) -> bool {
    is_tag_word(word) && forall|i: int| 0 <= i < word.len() ==> #[trigger] word[i] != '='
}

/// True when every attribute has a name that an attribute can have.
pub open spec fn are_attribute_words(attributes: Seq<AttributeModel>) -> bool {
    forall|i: int|
        0 <= i < attributes.len() ==> is_attribute_word((#[trigger] attributes[i]).name)
}

/// True when every element but the root is named as a tag can be, and has
/// attributes named as attributes can be.
pub open spec fn is_named(tree: Seq<ElementModel>) -> bool {
    forall|e: int|
        0 < e < tree.len() ==> is_tag_word((#[trigger] tree[e]).tag) && are_attribute_words(
            tree[e].attributes,
        )
}

/// True when no element that never has a closing tag has content.
pub open spec fn is_void_empty(tree: Seq<ElementModel>) -> bool {
    forall|e: int|
        0 <= e < tree.len() && is_void_tag((#[trigger] tree[e]).tag) ==> tree[e].children.len()
            == 0
}

/// True when no text has the beginning of a tag, and a raw subtree is all
/// that an `<svg>` element has.
pub open spec fn is_split(tree: Seq<ElementModel>) -> bool {
    forall|e: int, k: int|
        #![trigger tree[e].children[k]]
        0 <= e < tree.len() && 0 <= k < tree[e].children.len() ==> match tree[e].children[k] {
            NodeModel::Text(content) => !content.contains('<') && tree[e].tag != "svg"@,
            NodeModel::Raw(_) => tree[e].tag == "svg"@ && tree[e].children.len() == 1,
            NodeModel::Element(_) => tree[e].tag != "svg"@,
        }
}

/// What a reader reads of the first `k` nodes of element `e`.
pub open spec fn words_in(tree: Seq<ElementModel>, e: int, k: int) -> Seq<char>
    decreases tree.len() - e, k,
{
    if k <= 0 || k > tree[e].children.len() {
        Seq::empty()
    } else {
        words_in(tree, e, k - 1) + match tree[e].children[k - 1] {
            NodeModel::Text(content) => content,
            NodeModel::Raw(raw) => markup::shown(raw + "</svg>"@, false),
            NodeModel::Element(j) => if e < j < tree.len() {
                words_in(tree, j, tree[j].children.len() as int)
            } else {
                Seq::empty()
            },
        }
    }
}

/// What a reader reads of element `e`.
pub open spec fn words_of(tree: Seq<ElementModel>, e: int) -> Seq<char> {
    words_in(tree, e, tree[e].children.len() as int)
}

/// What a reader reads of one node below element `e`.
spec fn node_words(tree: Seq<ElementModel>, e: int, node: NodeModel) -> Seq<char> {
    match node {
        NodeModel::Text(content) => content,
        NodeModel::Raw(raw) => markup::shown(raw + "</svg>"@, false),
        NodeModel::Element(j) => if e < j < tree.len() {
            words_of(tree, j)
        } else {
            Seq::empty()
        },
    }
}

/// The links of a tree: every child stands behind its parent and names it,
/// and children stand in order.
spec fn is_linked(tree: Seq<ElementModel>) -> bool {
    &&& forall|i: int, k: int|
        #![trigger tree[i].children[k]]
        0 <= i < tree.len() && 0 <= k < tree[i].children.len() ==> (
        tree[i].children[k] matches NodeModel::Element(j) ==> i < j < tree.len() && tree[j].parent
            == i)
    &&& forall|i: int, k: int, l: int|
        #![trigger tree[i].children[k], tree[i].children[l]]
        0 <= i < tree.len() && 0 <= k < l < tree[i].children.len() ==> (
        tree[i].children[k] matches NodeModel::Element(a) ==> (
        tree[i].children[l] matches NodeModel::Element(b) ==> a < b))
}

/// True when each open element is the last node of the one around it.
spec fn is_last_path(tree: Seq<ElementModel>, open: Seq<int>) -> bool {
    &&& is_open_in(tree, open)
    &&& forall|k: int| 0 < k < open.len() ==> #[trigger] is_last_of(tree, open, k)
}

/// True when open element `k` is the last node of the one around it.
spec fn is_last_of(tree: Seq<ElementModel>, open: Seq<int>, k: int) -> bool {
    tree[open[k - 1]].children.len() > 0 && tree[open[k - 1]].children.last()
        == NodeModel::Element(open[k])
}

proof fn lemma_path_ascends(tree: Seq<ElementModel>, open: Seq<int>, a: int, b: int)
    requires
        is_linked(tree),
        is_last_path(tree, open),
        0 <= a < b < open.len(),
    ensures
        open[a] < open[b],
        tree[open[b]].parent == open[b - 1],
    decreases b,
{
    let above = open[b - 1];
    let n = tree[above].children.len() as int;
    assert(is_last_of(tree, open, b));
    assert(tree[above].children[n - 1] == NodeModel::Element(open[b]));
    assert(0 <= above < tree.len());
    if a < b - 1 {
        lemma_path_ascends(tree, open, a, b - 1);
    }
}

/// A child of an element that is not open is not open.
proof fn lemma_not_open(tree: Seq<ElementModel>, open: Seq<int>, e: int, m: int, j: int)
    requires
        is_linked(tree),
        is_last_path(tree, open),
        0 <= e < tree.len(),
        0 <= m < tree[e].children.len(),
        tree[e].children[m] == NodeModel::Element(j),
        !open.contains(e),
    ensures
        !open.contains(j),
{
    if open.contains(j) {
        let k = choose|k: int| 0 <= k < open.len() && open[k] == j;
        assert(tree[j].parent == e);
        assert(k > 0);
        lemma_path_ascends(tree, open, k - 1, k);
        assert(open.contains(open[k - 1]));
    }
}

/// A child of an open element is open only when it is its last node.
proof fn lemma_not_open_below(tree: Seq<ElementModel>, open: Seq<int>, d: int, m: int, j: int)
    requires
        is_linked(tree),
        is_last_path(tree, open),
        0 <= d < open.len(),
        0 <= m < tree[open[d]].children.len(),
        tree[open[d]].children[m] == NodeModel::Element(j),
        d == open.len() - 1 || m < tree[open[d]].children.len() - 1,
    ensures
        !open.contains(j),
{
    assert(0 <= open[d] < tree.len());
    if open.contains(j) {
        let k = choose|k: int| 0 <= k < open.len() && open[k] == j;
        assert(tree[j].parent == open[d]);
        assert(k > 0) by {
            assert(open[0] == 0);
        }
        lemma_path_ascends(tree, open, k - 1, k);
        assert(open[k - 1] == open[d]);
        if k - 1 < d {
            lemma_path_ascends(tree, open, k - 1, d);
        }
        if d < k - 1 {
            lemma_path_ascends(tree, open, d, k - 1);
        }
        let n = tree[open[d]].children.len() as int;
        assert(is_last_of(tree, open, d + 1));
        assert(tree[open[d]].children[n - 1] == NodeModel::Element(open[d + 1]));
        assert(tree[open[d]].children[m] == NodeModel::Element(j));
        assert(m < n - 1);
        assert(false);
    }
}

/// What is read of nodes stays when only open elements change.
proof fn lemma_words_kept(
    tree: Seq<ElementModel>,
    after: Seq<ElementModel>,
    open: Seq<int>,
    e: int,
    k: int,
)
    requires
        is_linked(tree),
        is_last_path(tree, open),
        after.len() == tree.len(),
        forall|i: int| 0 <= i < tree.len() && !open.contains(i) ==> #[trigger] after[i] == tree[i],
        0 <= e < tree.len(),
        0 <= k <= tree[e].children.len(),
        k <= after[e].children.len(),
        forall|m: int|
            0 <= m < k ==> #[trigger] after[e].children[m] == tree[e].children[m] && (
            tree[e].children[m] matches NodeModel::Element(j) ==> !open.contains(j)),
    ensures
        words_in(after, e, k) == words_in(tree, e, k),
    decreases tree.len() - e, k,
{
    if k > 0 {
        lemma_words_kept(tree, after, open, e, k - 1);
        assert(after[e].children[k - 1] == tree[e].children[k - 1]);
        if let NodeModel::Element(j) = tree[e].children[k - 1] {
            assert(e < j < tree.len());
            assert(!open.contains(j));
            assert(after[j] == tree[j]);
            assert forall|m: int| 0 <= m < tree[j].children.len() implies
                #[trigger] after[j].children[m] == tree[j].children[m] && (
            tree[j].children[m] matches NodeModel::Element(i) ==> !open.contains(i)) by {
                if let NodeModel::Element(i) = tree[j].children[m] {
                    lemma_not_open(tree, open, j, m, i);
                }
            }
            lemma_words_kept(tree, after, open, j, tree[j].children.len() as int);
        }
    }
}

/// A node appended to the innermost open element is read behind all that was
/// read before.
proof fn lemma_words_appended(
    tree: Seq<ElementModel>,
    open: Seq<int>,
    node: NodeModel,
    d: int,
)
    requires
        is_linked(tree),
        is_last_path(tree, open),
        0 <= d < open.len(),
        node matches NodeModel::Element(j) ==> open.last() < j < tree.len() && !open.contains(j),
    ensures
        words_of(with_child(tree, open.last(), node), open[d]) == words_of(tree, open[d])
            + node_words(tree, open.last(), node),
    decreases open.len() - d,
{
    let x = open.last();
    let after = with_child(tree, x, node);
    let e = open[d];
    let n = tree[e].children.len() as int;
    assert(open[open.len() - 1] == x);
    assert(0 <= x < tree.len());
    assert(0 <= e < tree.len());
    assert forall|i: int| 0 <= i < tree.len() && !open.contains(i) implies #[trigger] after[i]
        == tree[i] by {
        assert(open.contains(x));
    }
    if d == open.len() - 1 {
        assert forall|m: int| 0 <= m < n implies #[trigger] after[e].children[m]
            == tree[e].children[m] && (tree[e].children[m] matches NodeModel::Element(j)
            ==> !open.contains(j)) by {
            if let NodeModel::Element(j) = tree[e].children[m] {
                lemma_not_open_below(tree, open, d, m, j);
            }
        }
        lemma_words_kept(tree, after, open, e, n);
        assert(after[e].children[n] == node);
        if let NodeModel::Element(j) = node {
            assert(after[j] == tree[j]);
            assert forall|m: int| 0 <= m < tree[j].children.len() implies
                #[trigger] after[j].children[m] == tree[j].children[m] && (
            tree[j].children[m] matches NodeModel::Element(i) ==> !open.contains(i)) by {
                if let NodeModel::Element(i) = tree[j].children[m] {
                    lemma_not_open(tree, open, j, m, i);
                }
            }
            lemma_words_kept(tree, after, open, j, tree[j].children.len() as int);
        }
    } else {
        lemma_path_ascends(tree, open, d, open.len() - 1);
        lemma_path_ascends(tree, open, d, d + 1);
        assert(after[e] == tree[e]);
        lemma_words_appended(tree, open, node, d + 1);
        assert(is_last_of(tree, open, d + 1));
        assert(tree[e].children[n - 1] == NodeModel::Element(open[d + 1]));
        assert forall|m: int| 0 <= m < n - 1 implies #[trigger] after[e].children[m]
            == tree[e].children[m] && (tree[e].children[m] matches NodeModel::Element(j)
            ==> !open.contains(j)) by {
            if let NodeModel::Element(j) = tree[e].children[m] {
                lemma_not_open_below(tree, open, d, m, j);
            }
        }
        lemma_words_kept(tree, after, open, e, n - 1);
        let first = words_in(tree, e, n - 1);
        let inner = words_of(tree, open[d + 1]);
        let more = node_words(tree, x, node);
        assert(0 <= open[d + 1] < tree.len());
        assert(words_of(after, e) == words_in(after, e, n - 1) + words_of(after, open[d + 1]));
        assert(first + (inner + more) =~= (first + inner) + more);
    }
}

/// What is read of a tree stays when an element is added that nothing names.
proof fn lemma_words_pushed(tree: Seq<ElementModel>, element: ElementModel, e: int, k: int)
    requires
        is_linked(tree),
        0 <= e < tree.len(),
        0 <= k <= tree[e].children.len(),
    ensures
        words_in(tree.push(element), e, k) == words_in(tree, e, k),
    decreases tree.len() - e, k,
{
    let after = tree.push(element);
    if k > 0 {
        lemma_words_pushed(tree, element, e, k - 1);
        assert(after[e] == tree[e]);
        if let NodeModel::Element(j) = tree[e].children[k - 1] {
            assert(e < j < tree.len());
            assert(after[j] == tree[j]);
            lemma_words_pushed(tree, element, j, tree[j].children.len() as int);
        }
    }
}

proof fn lemma_content_stays_inside(s: Seq<char>)
    requires
        !s.contains('>'),
    ensures
        !text::trim_start(s).contains('>'),
        !text::trim_end(s).contains('>'),
        !without_slashes(s).contains('>'),
    decreases s.len(),
{
    if s.len() > 0 {
        let tail = s.drop_first();
        let head = s.drop_last();
        assert forall|i: int| 0 <= i < tail.len() implies tail[i] != '>' by {
            assert(s.contains(s[i + 1]));
        }
        assert forall|i: int| 0 <= i < head.len() implies head[i] != '>' by {
            assert(s.contains(s[i]));
        }
        lemma_content_stays_inside(tail);
        lemma_content_stays_inside(head);
    }
}

proof fn lemma_name_is_plain(s: Seq<char>, i: int)
    requires
        0 <= i <= s.len(),
    ensures
        i <= name_end(s, i) <= s.len(),
        forall|j: int|
            i <= j < name_end(s, i) ==> !text::is_space(#[trigger] s[j]) && s[j] != '=',
    decreases s.len() - i,
{
    if i < s.len() && !text::is_space(s[i]) && s[i] != '=' {
        lemma_name_is_plain(s, i + 1);
    }
}

proof fn lemma_lowered_word(s: Seq<char>)
    requires
        s.len() > 0,
        forall|i: int| 0 <= i < s.len() ==> !text::is_space(#[trigger] s[i]) && s[i] != '>',
    ensures
        is_tag_word(text::lower(s)),
        (forall|i: int| 0 <= i < s.len() ==> #[trigger] s[i] != '=') ==> is_attribute_word(
            text::lower(s),
        ),
{
    let low = text::lower(s);
    assert forall|i: int| 0 <= i < low.len() implies !text::is_space(#[trigger] low[i]) && low[i]
        != '>' && (s[i] != '=' ==> low[i] != '=') by {
        assert(low[i] == text::lower_char(s[i]));
        assert(!text::is_space(s[i]));
    }
    assert(text::lower(low) =~= low);
}

proof fn lemma_attribute_words(s: Seq<char>, i: int)
    requires
        0 <= i <= s.len(),
        forall|j: int| 0 <= j < s.len() ==> #[trigger] s[j] != '>',
    ensures
        are_attribute_words(attributes_from(s, i)),
    decreases s.len() - i,
{
    let e = name_end(s, i);
    lemma_name_is_plain(s, i);
    let j = text::skip_space(s, e);
    text::lemma_skip_space(s, e);
    if i < e {
        let name = s.subrange(i, e);
        assert forall|k: int| 0 <= k < name.len() implies !text::is_space(#[trigger] name[k])
            && name[k] != '>' && name[k] != '=' by {
            assert(name[k] == s[i + k]);
        }
        lemma_lowered_word(name);
        if j < s.len() && s[j] == '=' {
            let (raw, end) = value_at(s, text::skip_space(s, j + 1));
            let next = text::skip_space(s, end);
            if i < next <= s.len() {
                lemma_attribute_words(s, next);
            }
        } else {
            lemma_attribute_words(s, j);
        }
    }
}

/// A tag names itself and its attributes in words.
proof fn lemma_tag_words(inside: Seq<char>)
    requires
        !inside.contains('>'),
    ensures
        tag_name(inside).len() > 0 ==> is_tag_word(tag_name(inside)),
        are_attribute_words(tag_attributes(inside)),
{
    lemma_content_stays_inside(inside);
    lemma_content_stays_inside(text::trim_start(inside));
    lemma_content_stays_inside(text::trim(inside));
    let content = tag_content(inside);
    assert forall|j: int| 0 <= j < content.len() implies #[trigger] content[j] != '>' by {
        assert(content.contains(content[j]));
    }
    text::lemma_space_scans(content, 0);
    let n = text::next_space(content, 0);
    let name = content.subrange(0, n);
    if n > 0 {
        assert forall|k: int| 0 <= k < name.len() implies !text::is_space(#[trigger] name[k])
            && name[k] != '>' by {
            assert(name[k] == content[k]);
        }
        lemma_lowered_word(name);
    }
    text::lemma_skip_space(content, n);
    lemma_attribute_words(content, text::skip_space(content, n));
}

/// What holds of the tree at every step of a parse.
#[verifier::opaque]
spec fn is_grown(tree: Seq<ElementModel>) -> bool {
    is_tree(tree) && is_named(tree) && is_void_empty(tree) && is_split(tree)
}

/// What holds of the open elements at every step of a parse.
#[verifier::opaque]
spec fn is_growing(tree: Seq<ElementModel>, open: Seq<int>) -> bool {
    &&& is_linked(tree)
    &&& is_last_path(tree, open)
    &&& forall|k: int|
        0 < k < open.len() ==> !is_void_tag(tree[#[trigger] open[k]].tag) && tree[open[k]].tag
            != "svg"@
}

/// What holds at every step of a parse.
spec fn is_parsing(tree: Seq<ElementModel>, open: Seq<int>) -> bool {
    is_grown(tree) && is_growing(tree, open)
}

proof fn lemma_no_name(tag: Seq<char>)
    requires
        tag.len() == 0,
    ensures
        !is_void_tag(tag),
        tag != "svg"@,
{
    reveal_strlit("area");
    reveal_strlit("br");
    reveal_strlit("col");
    reveal_strlit("embed");
    reveal_strlit("hr");
    reveal_strlit("img");
    reveal_strlit("input");
    reveal_strlit("svg");
}

/// The innermost open element takes content.
proof fn lemma_open_takes_content(tree: Seq<ElementModel>, open: Seq<int>)
    requires
        is_parsing(tree, open),
    ensures
        open.len() > 0,
        open[0] == 0,
        0 <= open.last() < tree.len(),
        !is_void_tag(tree[open.last()].tag),
        tree[open.last()].tag != "svg"@,
{
    reveal(is_grown);
    reveal(is_growing);
    let k = open.len() - 1;
    assert(open[k] == open.last());
    if k == 0 {
        lemma_no_name(tree[0].tag);
    }
}

/// A node for the innermost open element keeps the form of the tree.
proof fn lemma_grown_by_text(tree: Seq<ElementModel>, x: int, content: Seq<char>)
    requires
        is_grown(tree),
        0 <= x < tree.len(),
        !is_void_tag(tree[x].tag),
        tree[x].tag != "svg"@,
        !content.contains('<'),
    ensures
        is_grown(with_child(tree, x, NodeModel::Text(content))),
{
    reveal(is_grown);
    let node = NodeModel::Text(content);
    let after = with_child(tree, x, node);
    lemma_with_text_keeps_tree(tree, x, node);
    assert(is_split(after)) by {
        assert forall|e: int, k: int|
            #![trigger after[e].children[k]]
            0 <= e < after.len() && 0 <= k < after[e].children.len() implies match after[e].children[k] {
            NodeModel::Text(content) => !content.contains('<') && after[e].tag != "svg"@,
            NodeModel::Raw(_) => after[e].tag == "svg"@ && after[e].children.len() == 1,
            NodeModel::Element(_) => after[e].tag != "svg"@,
        } by {
            if k < tree[e].children.len() {
                assert(after[e].children[k] == tree[e].children[k]);
            }
        }
    }
    assert(is_named(after)) by {
        assert forall|e: int| 0 < e < after.len() implies is_tag_word((#[trigger] after[e]).tag)
            && are_attribute_words(after[e].attributes) by {
            assert(is_tag_word(tree[e].tag));
        }
    }
    assert(is_void_empty(after)) by {
        assert forall|e: int| 0 <= e < after.len() && is_void_tag((#[trigger] after[e]).tag) implies
            after[e].children.len() == 0 by {
            assert(after[e].tag == tree[e].tag);
        }
    }
}

/// A node for the innermost open element keeps the path to it.
proof fn lemma_path_kept(tree: Seq<ElementModel>, open: Seq<int>, node: NodeModel)
    requires
        is_linked(tree),
        is_last_path(tree, open),
    ensures
        is_last_path(with_child(tree, open.last(), node), open),
{
    let x = open.last();
    let after = with_child(tree, x, node);
    assert(open[open.len() - 1] == x);
    assert forall|k: int| 0 < k < open.len() implies #[trigger] is_last_of(after, open, k) by {
        lemma_path_ascends(tree, open, k - 1, open.len() - 1);
        assert(is_last_of(tree, open, k));
        assert(open[k - 1] != x);
        assert(0 <= open[k - 1] < tree.len());
    }
}

proof fn lemma_linked(tree: Seq<ElementModel>)
    requires
        is_grown(tree),
    ensures
        is_linked(tree),
{
    reveal(is_grown);
}

proof fn lemma_child_step(tree: Seq<ElementModel>, open: Seq<int>, content: Seq<char>)
    requires
        is_parsing(tree, open),
        !content.contains('<'),
    ensures
        is_parsing(with_text(tree, open, content), open),
        with_text(tree, open, content).len() == tree.len(),
        words_of(with_text(tree, open, content), 0) == words_of(tree, 0) + content,
{
    if content.len() == 0 {
        assert(words_of(tree, 0) + content =~= words_of(tree, 0));
    } else {
        let x = open.last();
        let node = NodeModel::Text(content);
        let after = with_child(tree, x, node);
        lemma_open_takes_content(tree, open);
        lemma_grown_by_text(tree, x, content);
        lemma_linked(after);
        reveal(is_growing);
        lemma_words_appended(tree, open, node, 0);
        lemma_path_kept(tree, open, node);
        assert forall|k: int| 0 < k < open.len() implies !is_void_tag(after[#[trigger] open[k]].tag)
            && after[open[k]].tag != "svg"@ by {
            assert(after[open[k]].tag == tree[open[k]].tag);
        }
    }
}

/// True for an element as a parse adds it.
spec fn is_new(element: ElementModel) -> bool {
    &&& is_tag_word(element.tag)
    &&& are_attribute_words(element.attributes)
    &&& if element.tag == "svg"@ {
        element.children.len() == 1 && element.children[0] is Raw
    } else {
        element.children.len() == 0
    }
}

proof fn lemma_grown_by_element(tree: Seq<ElementModel>, element: ElementModel)
    requires
        is_grown(tree),
        0 <= element.parent < tree.len(),
        !is_void_tag(tree[element.parent].tag),
        tree[element.parent].tag != "svg"@,
        is_new(element),
    ensures
        is_grown(with_element(tree, element)),
{
    reveal(is_grown);
    let n = tree.len() as int;
    let after = with_element(tree, element);
    lemma_with_element_keeps_tree(tree, element);
    assert(after[n] == element);
    assert(is_split(after)) by {
        assert forall|e: int, k: int|
            #![trigger after[e].children[k]]
            0 <= e < after.len() && 0 <= k < after[e].children.len() implies match after[e].children[k] {
            NodeModel::Text(content) => !content.contains('<') && after[e].tag != "svg"@,
            NodeModel::Raw(_) => after[e].tag == "svg"@ && after[e].children.len() == 1,
            NodeModel::Element(_) => after[e].tag != "svg"@,
        } by {
            if e < n && k < tree[e].children.len() {
                assert(after[e].children[k] == tree[e].children[k]);
            }
        }
    }
    assert(is_named(after)) by {
        assert forall|e: int| 0 < e < after.len() implies is_tag_word((#[trigger] after[e]).tag)
            && are_attribute_words(after[e].attributes) by {
            if e < n {
                assert(is_tag_word(tree[e].tag));
            }
        }
    }
    assert(is_void_empty(after)) by {
        assert forall|e: int| 0 <= e < after.len() && is_void_tag((#[trigger] after[e]).tag) implies
            after[e].children.len() == 0 by {
            if e < n {
                assert(after[e].tag == tree[e].tag);
            } else {
                lemma_svg_is_not_void();
            }
        }
    }
}

proof fn lemma_svg_is_not_void()
    ensures
        !is_void_tag("svg"@),
{
    reveal_strlit("area");
    reveal_strlit("br");
    reveal_strlit("col");
    reveal_strlit("embed");
    reveal_strlit("hr");
    reveal_strlit("img");
    reveal_strlit("input");
    reveal_strlit("svg");
    assert("svg"@[0] == 's');
    assert("col"@[0] == 'c');
    assert("img"@[0] == 'i');
}

proof fn lemma_linked_by_push(tree: Seq<ElementModel>, element: ElementModel)
    requires
        is_linked(tree),
        is_new(element),
    ensures
        is_linked(tree.push(element)),
{
    let n = tree.len() as int;
    let pushed = tree.push(element);
    assert forall|i: int, k: int|
        #![trigger pushed[i].children[k]]
        0 <= i < pushed.len() && 0 <= k < pushed[i].children.len() implies (
    pushed[i].children[k] matches NodeModel::Element(j) ==> i < j < pushed.len() && pushed[j].parent
        == i) by {
        if i < n {
            assert(pushed[i].children[k] == tree[i].children[k]);
        }
    }
    assert forall|i: int, k: int, l: int|
        #![trigger pushed[i].children[k], pushed[i].children[l]]
        0 <= i < pushed.len() && 0 <= k < l < pushed[i].children.len() implies (
    pushed[i].children[k] matches NodeModel::Element(a) ==> (
    pushed[i].children[l] matches NodeModel::Element(b) ==> a < b)) by {
        if i < n {
            assert(pushed[i].children[k] == tree[i].children[k]);
            assert(pushed[i].children[l] == tree[i].children[l]);
        }
    }
}

proof fn lemma_path_kept_by_push(
    tree: Seq<ElementModel>,
    open: Seq<int>,
    element: ElementModel,
)
    requires
        is_last_path(tree, open),
    ensures
        is_last_path(tree.push(element), open),
{
    let pushed = tree.push(element);
    assert forall|k: int| 0 < k < open.len() implies #[trigger] is_last_of(pushed, open, k) by {
        assert(is_last_of(tree, open, k));
        assert(0 <= open[k - 1] < tree.len());
        assert(pushed[open[k - 1]] == tree[open[k - 1]]);
    }
}

/// What a reader reads of an element as a parse adds it.
spec fn new_words(element: ElementModel) -> Seq<char> {
    if element.tag == "svg"@ {
        markup::shown(element.children[0]->Raw_0 + "</svg>"@, false)
    } else {
        Seq::empty()
    }
}

proof fn lemma_new_words(tree: Seq<ElementModel>, n: int)
    requires
        0 <= n < tree.len(),
        is_new(tree[n]),
    ensures
        words_of(tree, n) == new_words(tree[n]),
{
    reveal_with_fuel(words_in, 2);
    assert(words_of(tree, n) =~= new_words(tree[n]));
}

proof fn lemma_element_step(tree: Seq<ElementModel>, open: Seq<int>, element: ElementModel)
    requires
        is_parsing(tree, open),
        element.parent == open.last(),
        is_new(element),
    ensures
        is_parsing(with_element(tree, element), open),
        with_element(tree, element).len() == tree.len() + 1,
        words_of(with_element(tree, element), 0) == words_of(tree, 0) + new_words(element),
        !is_void_tag(element.tag) && element.tag != "svg"@ ==> is_parsing(
            with_element(tree, element),
            open.push(tree.len() as int),
        ),
{
    let x = open.last();
    let n = tree.len() as int;
    let node = NodeModel::Element(n);
    let pushed = tree.push(element);
    let after = with_element(tree, element);
    lemma_open_takes_content(tree, open);
    lemma_grown_by_element(tree, element);
    lemma_linked(tree);
    lemma_linked(after);
    reveal(is_growing);
    assert(open[open.len() - 1] == x);
    assert(!open.contains(n));
    lemma_linked_by_push(tree, element);
    lemma_path_kept_by_push(tree, open, element);
    lemma_words_appended(pushed, open, node, 0);
    lemma_words_pushed(tree, element, 0, tree[0].children.len() as int);
    assert(pushed[0] == tree[0]);
    assert(pushed[n] == element);
    lemma_new_words(pushed, n);
    lemma_path_kept(pushed, open, node);
    assert forall|k: int| 0 < k < open.len() implies !is_void_tag(after[#[trigger] open[k]].tag)
        && after[open[k]].tag != "svg"@ by {
        assert(0 <= open[k] < tree.len());
        assert(after[open[k]].tag == tree[open[k]].tag);
    }
    if !is_void_tag(element.tag) && element.tag != "svg"@ {
        let more = open.push(n);
        assert(after[n] == element);
        assert forall|k: int| 0 < k < more.len() implies #[trigger] is_last_of(after, more, k) by {
            if k < open.len() {
                assert(is_last_of(after, open, k));
                assert(more[k] == open[k]);
                assert(more[k - 1] == open[k - 1]);
            } else {
                assert(more[k - 1] == x);
            }
        }
        assert forall|k: int| 0 < k < more.len() implies !is_void_tag(after[#[trigger] more[k]].tag)
            && after[more[k]].tag != "svg"@ by {
            if k < open.len() {
                assert(more[k] == open[k]);
            }
        }
        assert(is_last_path(after, more));
    }
}

proof fn lemma_fewer_open(tree: Seq<ElementModel>, open: Seq<int>, m: int)
    requires
        is_parsing(tree, open),
        0 < m <= open.len(),
    ensures
        is_parsing(tree, open.take(m)),
{
    reveal(is_growing);
    let less = open.take(m);
    assert forall|k: int| 0 < k < less.len() implies #[trigger] is_last_of(tree, less, k) by {
        assert(is_last_of(tree, open, k));
        assert(less[k] == open[k]);
        assert(less[k - 1] == open[k - 1]);
    }
    assert forall|k: int| 0 < k < less.len() implies !is_void_tag(tree[#[trigger] less[k]].tag)
        && tree[less[k]].tag != "svg"@ by {
        assert(less[k] == open[k]);
    }
    assert(is_last_path(tree, less));
}

proof fn lemma_after_implicit_closes(tree: Seq<ElementModel>, open: Seq<int>, tag: Seq<char>)
    requires
        is_parsing(tree, open),
    ensures
        is_parsing(tree, after_implicit_closes(tree, open, tag)),
    decreases open.len(),
{
    if open.len() > 1 && closes_before(tree[open.last()].tag, tag) {
        lemma_fewer_open(tree, open, open.len() - 1);
        assert(open.take(open.len() - 1) =~= open.drop_last());
        lemma_after_implicit_closes(tree, open.drop_last(), tag);
    }
}

proof fn lemma_innermost(tree: Seq<ElementModel>, open: Seq<int>, tag: Seq<char>)
    ensures
        innermost(tree, open, tag) matches Some(k) ==> 0 <= k < open.len(),
    decreases open.len(),
{
    if open.len() > 0 && tree[open.last()].tag != tag {
        lemma_innermost(tree, open.drop_last(), tag);
    }
}

proof fn lemma_after_close(tree: Seq<ElementModel>, open: Seq<int>, tag: Seq<char>)
    requires
        is_parsing(tree, open),
    ensures
        is_parsing(tree, after_close(tree, open, tag)),
{
    lemma_innermost(tree, open, tag);
    if let Some(k) = innermost(tree, open, tag) {
        if k > 0 {
            lemma_fewer_open(tree, open, k);
        }
    }
}

/// Text without the beginning of a tag is read as it is.
proof fn lemma_text_is_shown(content: Seq<char>)
    requires
        forall|j: int| 0 <= j < content.len() ==> #[trigger] content[j] != '<',
    ensures
        markup::reads_as(content, content),
    decreases content.len(),
{
    if content.len() > 0 {
        let less = content.drop_last();
        assert forall|j: int| 0 <= j < less.len() implies #[trigger] less[j] != '<' by {
            assert(less[j] == content[j]);
        }
        lemma_text_is_shown(less);
        assert(content.last() == content[content.len() - 1]);
        assert(content.drop_last().push(content.last()) =~= content);
    } else {
        assert(content =~= Seq::<char>::empty());
    }
}

/// A tag with nothing behind it, or up to its end, is not read.
proof fn lemma_tag_is_hidden(tag: Seq<char>, open: bool)
    requires
        tag.len() > 0,
        tag[0] == '<',
        forall|j: int| 0 <= j < tag.len() - 1 ==> #[trigger] tag[j] != '>',
    ensures
        markup::hides(tag, open, tag.last() != '>'),
{
    markup::lemma_hides(tag, open);
}

/// What a reader sees of a fragment from a position on: the text up to the
/// next tag, then what stands behind the tag.
proof fn lemma_shown_step(s: Seq<char>, i: int, p: int, q: int)
    requires
        0 <= i <= p < q < s.len(),
        s[p] == '<',
        s[q] == '>',
        forall|j: int| i <= j < p ==> #[trigger] s[j] != '<',
        forall|j: int| p <= j < q ==> #[trigger] s[j] != '>',
    ensures
        markup::shown(s.skip(i), false) == s.subrange(i, p) + markup::shown(s.skip(q + 1), false),
        !s.subrange(i, p).contains('<'),
{
    let before = s.subrange(i, p);
    let tag = s.subrange(p, q + 1);
    let rest = s.skip(q + 1);
    assert forall|j: int| 0 <= j < before.len() implies #[trigger] before[j] != '<' by {
        assert(before[j] == s[i + j]);
    }
    assert forall|j: int| 0 <= j < tag.len() - 1 implies #[trigger] tag[j] != '>' by {
        assert(tag[j] == s[p + j]);
    }
    lemma_text_is_shown(before);
    lemma_tag_is_hidden(tag, false);
    assert(s.skip(i) =~= before + (tag + rest));
    markup::lemma_shown_of_joined(before, tag + rest, false);
    markup::lemma_shown_of_joined(tag, rest, false);
    assert(Seq::<char>::empty() + markup::shown(rest, false) =~= markup::shown(rest, false));
}

/// The raw content of an `<svg>` element is read with the closing tag behind
/// it, then what stands behind that.
proof fn lemma_svg_shown(s: Seq<char>, from: int, i: int, depth: int)
    requires
        0 <= from <= i <= s.len(),
    ensures
        ({
            let (end, next) = svg_end(s, i, depth);
            &&& from <= end <= next <= s.len()
            &&& markup::shown(s.skip(from), false) == markup::shown(
                s.subrange(from, end) + "</svg>"@,
                false,
            ) + markup::shown(s.skip(next), false)
        }),
    decreases s.len() - i,
{
    text::lemma_find_char_from(s, '<', i);
    reveal_strlit("</svg>");
    let close = "</svg>"@;
    match text::find_char_from(s, '<', i) {
        None => {
            let raw = s.subrange(from, s.len() as int);
            lemma_svg_closed(s, from, s.len() as int, s.len() as int);
        },
        Some(p) => {
            if stands_in_any_case(s, "/svg"@, p + 1) && depth <= 0 {
                text::lemma_find_char_from(s, '>', p);
                match text::find_char_from(s, '>', p) {
                    Some(q) => {
                        lemma_svg_closed(s, from, p, q + 1);
                    },
                    None => {
                        lemma_svg_closed(s, from, p, s.len() as int);
                    },
                }
            } else if stands_in_any_case(s, "/svg"@, p + 1) {
                lemma_svg_shown(s, from, p + 1, depth - 1);
            } else if stands_in_any_case(s, "svg"@, p + 1) && !(p + 4 < s.len() && (
            text::is_letter(s[p + 4]) || text::is_digit(s[p + 4]))) {
                lemma_svg_shown(s, from, p + 1, depth + 1);
            } else {
                lemma_svg_shown(s, from, p + 1, depth);
            }
        },
    }
}

proof fn lemma_svg_closed(s: Seq<char>, from: int, end: int, next: int)
    requires
        0 <= from <= end <= next <= s.len(),
        end < next ==> s[end] == '<',
        forall|j: int| end <= j < next - 1 ==> #[trigger] s[j] != '>',
        next == s.len() || (end < next && s[next - 1] == '>'),
    ensures
        markup::shown(s.skip(from), false) == markup::shown(
            s.subrange(from, end) + "</svg>"@,
            false,
        ) + markup::shown(s.skip(next), false),
{
    reveal_strlit("</svg>");
    let close = "</svg>"@;
    let raw = s.subrange(from, end);
    let tag = s.subrange(end, next);
    let rest = s.skip(next);
    let open = markup::in_tag(raw, false);
    lemma_tag_is_hidden(close, open);
    markup::lemma_shown_of_joined(raw, close, false);
    assert(markup::shown(raw, false) + Seq::<char>::empty() =~= markup::shown(raw, false));
    assert(s.skip(from) =~= raw + (tag + rest));
    markup::lemma_shown_of_joined(raw, tag + rest, false);
    markup::lemma_shown_of_joined(tag, rest, open);
    if end < next {
        assert forall|j: int| 0 <= j < tag.len() - 1 implies #[trigger] tag[j] != '>' by {
            assert(tag[j] == s[end + j]);
        }
        lemma_tag_is_hidden(tag, open);
    }
    if next == s.len() {
        assert(rest =~= Seq::<char>::empty());
    }
    assert(Seq::<char>::empty() + markup::shown(rest, false) =~= markup::shown(rest, false));
}

/// What a parse makes of the rest of a fragment: a tree whose text is the
/// text so far, followed by what a reader sees of the rest.
#[verifier::rlimit(30)]
proof fn lemma_parsed_from(s: Seq<char>, i: int, tree: Seq<ElementModel>, open: Seq<int>)
    requires
        0 <= i <= s.len(),
        is_parsing(tree, open),
    ensures
        ({
            let all = parsed_from(s, i, tree, open);
            &&& is_grown(all)
            &&& words_of(all, 0) == words_of(tree, 0) + markup::shown(s.skip(i), false)
        }),
    decreases s.len() - i,
{
    let start = words_of(tree, 0);
    text::lemma_find_char_from(s, '<', i);
    match text::find_char_from(s, '<', i) {
        None => {
            let rest = s.subrange(i, s.len() as int);
            assert(rest =~= s.skip(i));
            assert forall|j: int| 0 <= j < rest.len() implies #[trigger] rest[j] != '<' by {
                assert(rest[j] == s[i + j]);
            }
            lemma_text_is_shown(rest);
            lemma_child_step(tree, open, rest);
        },
        Some(p) => {
            let content = s.subrange(i, p);
            let before = with_text(tree, open, content);
            text::lemma_find_char_from(s, '>', p);
            assert forall|j: int| 0 <= j < content.len() implies #[trigger] content[j] != '<' by {
                assert(content[j] == s[i + j]);
            }
            lemma_child_step(tree, open, content);
            match text::find_char_from(s, '>', p) {
                None => {
                    let tag = s.skip(p);
                    lemma_text_is_shown(content);
                    assert forall|j: int| 0 <= j < tag.len() implies #[trigger] tag[j] != '>' by {
                        assert(tag[j] == s[p + j]);
                    }
                    lemma_tag_is_hidden(tag, false);
                    assert(s.skip(i) =~= content + tag);
                    markup::lemma_shown_of_joined(content, tag, false);
                    assert(content + Seq::<char>::empty() =~= content);
                },
                Some(q) => {
                    let inside = s.subrange(p + 1, q);
                    let name = tag_name(inside);
                    let rest = markup::shown(s.skip(q + 1), false);
                    lemma_shown_step(s, i, p, q);
                    assert forall|j: int| 0 <= j < inside.len() implies inside[j] != '>' by {
                        assert(inside[j] == s[p + 1 + j]);
                    }
                    lemma_tag_words(inside);
                    text::lemma_append(start, content, rest);
                    if inside.len() > 0 && inside[0] == '/' {
                        let closed = text::lower(text::trim(inside.drop_first()));
                        lemma_after_close(before, open, closed);
                        lemma_parsed_from(s, q + 1, before, after_close(before, open, closed));
                    } else if name.len() == 0 {
                        lemma_parsed_from(s, q + 1, before, open);
                    } else {
                        let still = after_implicit_closes(before, open, name);
                        lemma_after_implicit_closes(before, open, name);
                        if name == "svg"@ {
                            let (end, next) = svg_end(s, q + 1, 0);
                            lemma_svg_shown(s, q + 1, q + 1, 0);
                            let element = ElementModel {
                                tag: name,
                                attributes: tag_attributes(inside),
                                parent: still.last(),
                                children: seq![NodeModel::Raw(s.subrange(q + 1, end))],
                            };
                            lemma_element_step(before, still, element);
                            lemma_parsed_from(s, next, with_element(before, element), still);
                            let drawn = markup::shown(s.subrange(q + 1, end) + "</svg>"@, false);
                            let behind = markup::shown(s.skip(next), false);
                            assert(start + content + drawn + behind =~= start + (content + (drawn
                                + behind)));
                        } else {
                            let element = ElementModel {
                                tag: name,
                                attributes: tag_attributes(inside),
                                parent: still.last(),
                                children: Seq::empty(),
                            };
                            lemma_element_step(before, still, element);
                            text::lemma_append_nothing(start + content);
                            lemma_parsed_from(
                                s,
                                q + 1,
                                with_element(before, element),
                                if is_childless(name, inside) {
                                    still
                                } else {
                                    still.push(before.len() as int)
                                },
                            );
                        }
                    }
                },
            }
        },
    }
}

/// A fragment is parsed into a tree that reads as the fragment does: the text
/// of its elements in order is what a reader sees of the fragment. Its tags
/// and attributes are named in words, no element without a closing tag has
/// content, and an `<svg>` element has its raw content alone.
pub proof fn law_a_tree_reads_as_its_fragment(s: Seq<char>)
    ensures
        is_tree(parsed(s)),
        is_named(parsed(s)),
        is_void_empty(parsed(s)),
        is_split(parsed(s)),
        words_of(parsed(s), 0) == markup::shown(s, false),
{
    let root = seq![root_element()];
    let open = seq![0int];
    assert(is_parsing(root, open)) by {
        reveal(is_grown);
        reveal(is_growing);
    }
    lemma_parsed_from(s, 0, root, open);
    reveal(is_grown);
    assert(s.skip(0) =~= s);
    assert(Seq::<char>::empty() + markup::shown(s, false) =~= markup::shown(s, false));
}

} // verus!
