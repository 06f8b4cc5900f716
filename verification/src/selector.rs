//! The CSS selectors the email inliner supports, and how they match.
//!
//! A selector is a list of compounds with a combinator between each two:
//! `tag.class#id:pseudo` parts, descendant and child. Anything else is not
//! inlinable and parses to `None`.

use vstd::prelude::*;

use crate::dom;
use crate::dom::{attribute_value, class_list, Element, ElementModel, Node, NodeModel};
use crate::text;
use crate::text::{contains_char, find_char, letter, part, spells, to_lower, trimmed};

verus! {

// -- The model --------------------------------------------------------------

/// One structural pseudo-class.
#[derive(Clone, Copy, Debug, PartialEq, Eq, Structural)]
pub enum Pseudo {
    /// The first element below its parent.
    First,
    /// The last element below its parent.
    Last,
    /// The element at this position, counted from 1.
    Index(usize),
    /// The elements at even positions.
    Even,
    /// The elements at odd positions.
    Odd,
}

/// How one compound relates to the one on its right.
#[derive(Clone, Copy, Debug, PartialEq, Eq, Structural)]
pub enum Combinator {
    Descendant,
    Child,
}

/// One compound: `tag.class#id:pseudo` with every part optional.
pub struct CompoundModel {
    pub tag: Option<Seq<char>>,
    pub id: Option<Seq<char>>,
    pub classes: Seq<Seq<char>>,
    pub pseudo: Option<Pseudo>,
}

/// One selector: compounds left to right, with a combinator between each two.
pub struct SelectorModel {
    pub compounds: Seq<CompoundModel>,
    pub combinators: Seq<Combinator>,
}

/// One compound: `tag.class#id:pseudo` with every part optional.
#[derive(Debug)]
pub struct Compound {
    pub tag: Option<Vec<char>>,
    pub id: Option<Vec<char>>,
    pub classes: Vec<Vec<char>>,
    pub pseudo: Option<Pseudo>,
}

/// One selector: compounds left to right, with a combinator between each two.
#[derive(Debug)]
pub struct Selector {
    pub compounds: Vec<Compound>,
    pub combinators: Vec<Combinator>,
}

/// An optional text as an optional sequence.
pub open spec fn optional(text: Option<Vec<char>>) -> Option<Seq<char>> {
    match text {
        Some(chars) => Some(chars@),
        None => None,
    }
}

impl View for Compound {
    type V = CompoundModel;

    open spec fn view(&self) -> CompoundModel {
        CompoundModel {
            tag: optional(self.tag),
            id: optional(self.id),
            classes: text::texts(self.classes@),
            pseudo: self.pseudo,
        }
    }
}

/// The compounds of a list.
pub open spec fn compounds_of(list: Seq<Compound>) -> Seq<CompoundModel> {
    list.map_values(|compound: Compound| compound@)
}

impl View for Selector {
    type V = SelectorModel;

    open spec fn view(&self) -> SelectorModel {
        SelectorModel {
            compounds: compounds_of(self.compounds@),
            combinators: self.combinators@,
        }
    }
}

/// A selector has a compound, and one combinator between each two.
pub open spec fn is_selector(selector: SelectorModel) -> bool {
    selector.compounds.len() > 0 && selector.combinators.len() == selector.compounds.len() - 1
}

// -- Parsing ----------------------------------------------------------------

/// The characters that begin the next part of a compound.
pub open spec fn is_marker(c: char) -> bool {
    c == '.' || c == '#' || c == ':'
}

/// The first marker at or after `i`, or the end.
pub open spec fn next_marker(s: Seq<char>, i: int) -> int
    decreases s.len() - i,
{
    if 0 <= i < s.len() && !is_marker(s[i]) {
        next_marker(s, i + 1)
    } else {
        i
    }
}

proof fn lemma_next_marker(s: Seq<char>, i: int)
    requires
        0 <= i <= s.len(),
    ensures
        i <= next_marker(s, i) <= s.len(),
    decreases s.len() - i,
{
    if i < s.len() && !is_marker(s[i]) {
        lemma_next_marker(s, i + 1);
    }
}

fn find_marker(chars: &[char], from: usize) -> (r: usize)
    requires
        from <= chars@.len(),
    ensures
        r == next_marker(chars@, from as int),
        from <= r <= chars@.len(),
{
    let mut i: usize = from;
    while i < chars.len() && chars[i] != '.' && chars[i] != '#' && chars[i] != ':'
        invariant
            from <= i <= chars@.len(),
            next_marker(chars@, from as int) == next_marker(chars@, i as int),
        decreases chars@.len() - i,
    {
        i += 1;
    }
    i
}

/// True when a name holds no attribute part and no sibling combinator, which
/// are not supported.
pub open spec fn is_plain_name(s: Seq<char>) -> bool {
    !s.contains('[') && !s.contains('+') && !s.contains('~')
}

fn plain_name(chars: &[char]) -> (r: bool)
    ensures
        r == is_plain_name(chars@),
{
    !contains_char(chars, '[') && !contains_char(chars, '+') && !contains_char(chars, '~')
}

/// The pseudo-class named `s`, when it is supported.
pub open spec fn pseudo_of(s: Seq<char>) -> Option<Pseudo> {
    let name = text::lower(s);
    if name == "first-child"@ {
        Some(Pseudo::First)
    } else if name == "last-child"@ {
        Some(Pseudo::Last)
    } else if text::starts_with(name, "nth-child("@) && name.len() > 10 && name.last() == ')' {
        let argument = text::trim(name.subrange(10, name.len() - 1));
        if argument == "even"@ {
            Some(Pseudo::Even)
        } else if argument == "odd"@ {
            Some(Pseudo::Odd)
        } else {
            match text::unsigned(argument, usize::MAX as int) {
                Some(n) => Some(Pseudo::Index(n as usize)),
                None => None,
            }
        }
    } else {
        None
    }
}

/// Parses one supported pseudo-class, or `None`.
pub fn parse_pseudo(chars: &[char]) -> (r: Option<Pseudo>)
    ensures
        r == pseudo_of(chars@),
{
    let name = to_lower(chars);
    if spells(&name, "first-child") {
        return Some(Pseudo::First);
    }
    if spells(&name, "last-child") {
        return Some(Pseudo::Last);
    }
    if text::begins_with(&name, "nth-child(") && name.len() > 10 && name[name.len() - 1] == ')' {
        let argument = trimmed(&part(&name, 10, name.len() - 1));
        if spells(&argument, "even") {
            return Some(Pseudo::Even);
        }
        if spells(&argument, "odd") {
            return Some(Pseudo::Odd);
        }
        return match text::parse_usize(&argument) {
            Some(n) => Some(Pseudo::Index(n)),
            None => None,
        };
    }
    None
}

/// Where the pseudo-class that begins at `i` ends: behind its closing
/// parenthesis when it has an argument, else at the next part. `None` when
/// its argument never closes.
pub open spec fn pseudo_end(s: Seq<char>, i: int) -> Option<int> {
    let other = next_marker(s, i);
    match text::find_char_from(s, '(', i) {
        Some(open) => if other >= s.len() || open < other {
            match text::find_char_from(s, ')', open) {
                Some(close) => Some(close + 1),
                None => None,
            }
        } else {
            Some(other)
        },
        None => Some(other),
    }
}

/// The rest of a compound from position `i`, added to what was read before.
pub open spec fn compound_from(s: Seq<char>, i: int, compound: CompoundModel) -> Option<
    CompoundModel,
>
    decreases s.len() - i,
    via compound_decreases
{
    if !(0 <= i < s.len()) {
        Some(compound)
    } else if s[i] == '.' || s[i] == '#' {
        let end = next_marker(s, i + 1);
        let part = s.subrange(i + 1, end);
        if part.len() == 0 || !is_plain_name(part) {
            None
        } else if s[i] == '.' {
            compound_from(
                s,
                end,
                CompoundModel { classes: compound.classes.push(part), ..compound },
            )
        } else if compound.id is Some {
            None
        } else {
            compound_from(s, end, CompoundModel { id: Some(part), ..compound })
        }
    } else if s[i] == ':' {
        if compound.pseudo is Some || (i + 1 < s.len() && s[i + 1] == ':') {
            None
        } else {
            match pseudo_end(s, i + 1) {
                Some(end) => match pseudo_of(s.subrange(i + 1, end)) {
                    Some(pseudo) => compound_from(
                        s,
                        end,
                        CompoundModel { pseudo: Some(pseudo), ..compound },
                    ),
                    None => None,
                },
                None => None,
            }
        }
    } else {
        None
    }
}

#[via_fn]
proof fn compound_decreases(s: Seq<char>, i: int, compound: CompoundModel) {
    if 0 <= i < s.len() {
        lemma_next_marker(s, i + 1);
        lemma_pseudo_end(s, i + 1);
    }
}

proof fn lemma_pseudo_end(s: Seq<char>, i: int)
    requires
        0 <= i <= s.len(),
    ensures
        pseudo_end(s, i) matches Some(end) ==> i <= end <= s.len(),
{
    lemma_next_marker(s, i);
    text::lemma_find_char_from(s, '(', i);
    if let Some(open) = text::find_char_from(s, '(', i) {
        text::lemma_find_char_from(s, ')', open);
    }
}

/// The compound without any part.
pub open spec fn any_element() -> CompoundModel {
    CompoundModel { tag: None, id: None, classes: Seq::empty(), pseudo: None }
}

/// The compound that the token `s` spells, when every part is supported.
pub open spec fn compound_of(s: Seq<char>) -> Option<CompoundModel> {
    if s == "*"@ {
        Some(any_element())
    } else if s.len() == 0 {
        None
    } else if text::is_letter(s[0]) {
        let end = next_marker(s, 0);
        let name = s.subrange(0, end);
        if is_plain_name(name) {
            compound_from(s, end, CompoundModel { tag: Some(text::lower(name)), ..any_element() })
        } else {
            None
        }
    } else {
        compound_from(s, 0, any_element())
    }
}

/// An optional compound as its model.
pub open spec fn compound_model(compound: Option<Compound>) -> Option<CompoundModel> {
    match compound {
        Some(c) => Some(c@),
        None => None,
    }
}

/// Parses one compound token, or `None` when a part is unsupported.
pub fn parse_compound(token: &[char]) -> (r: Option<Compound>)
    ensures
        compound_model(r) == compound_of(token@),
{
    let mut compound = Compound { tag: None, id: None, classes: Vec::new(), pseudo: None };
    assert(text::texts(compound.classes@) =~= Seq::<Seq<char>>::empty());
    let length: usize = token.len();
    if spells(token, "*") {
        return Some(compound);
    }
    if length == 0 {
        return None;
    }
    let mut i: usize = 0;
    if letter(token[0]) {
        i = find_marker(token, 0);
        let name = part(token, 0, i);
        if !plain_name(&name) {
            return None;
        }
        compound.tag = Some(to_lower(&name));
    }
    while i < length
        invariant
            i <= length,
            length == token@.len(),
            compound_of(token@) == compound_from(token@, i as int, compound@),
        decreases length - i,
    {
        let marker = token[i];
        proof {
            lemma_next_marker(token@, i + 1);
            lemma_pseudo_end(token@, i + 1);
        }
        if marker == '.' || marker == '#' {
            let end = find_marker(token, i + 1);
            if end == i + 1 {
                return None;
            }
            let name = part(token, i + 1, end);
            if !plain_name(&name) {
                return None;
            }
            if marker == '.' {
                let ghost before = compound@;
                let ghost classes = compound.classes@;
                compound.classes.push(name);
                assert(text::texts(compound.classes@) =~= text::texts(classes).push(name@));
                assert(compound@ == (CompoundModel { classes: before.classes.push(name@), ..before }));
            } else {
                if compound.id.is_some() {
                    return None;
                }
                compound.id = Some(name);
            }
            i = end;
        } else if marker == ':' {
            if compound.pseudo.is_some() || (i + 1 < length && token[i + 1] == ':') {
                return None;
            }
            let other = find_marker(token, i + 1);
            let mut end = other;
            if let Some(open) = find_char(token, '(', i + 1) {
                if other >= length || open < other {
                    let Some(close) = find_char(token, ')', open) else {
                        return None;
                    };
                    end = close + 1;
                }
            }
            assert(pseudo_end(token@, i + 1) == Some(end as int));
            let Some(pseudo) = parse_pseudo(&part(token, i + 1, end)) else {
                return None;
            };
            compound.pseudo = Some(pseudo);
            i = end;
        } else {
            return None;
        }
    }
    Some(compound)
}

/// `s` with a space before and behind each `>`.
pub open spec fn spaced(s: Seq<char>) -> Seq<char> {
    text::rewritten(
        s,
        |c: char|
            if c == '>' {
                seq![' ', '>', ' ']
            } else {
                seq![c]
            },
    )
}

/// The selector that the tokens from position `k` complete. A `>` joins the
/// compound before it to the one behind it; two compounds without one are
/// ancestor and descendant.
pub open spec fn selector_from(tokens: Seq<Seq<char>>, k: int, selector: SelectorModel) -> Option<
    SelectorModel,
>
    decreases tokens.len() - k,
{
    if !(0 <= k < tokens.len()) {
        if is_selector(selector) {
            Some(selector)
        } else {
            None
        }
    } else if tokens[k] == ">"@ {
        if is_selector(selector) {
            selector_from(
                tokens,
                k + 1,
                SelectorModel {
                    combinators: selector.combinators.push(Combinator::Child),
                    ..selector
                },
            )
        } else {
            None
        }
    } else {
        let combinators = if is_selector(selector) {
            selector.combinators.push(Combinator::Descendant)
        } else {
            selector.combinators
        };
        match compound_of(tokens[k]) {
            Some(compound) => selector_from(
                tokens,
                k + 1,
                SelectorModel { compounds: selector.compounds.push(compound), combinators },
            ),
            None => None,
        }
    }
}

/// The selector that `s` spells, when the inliner supports it.
pub open spec fn selector_of(s: Seq<char>) -> Option<SelectorModel> {
    selector_from(
        text::words(spaced(text::trim(s))),
        0,
        SelectorModel { compounds: Seq::empty(), combinators: Seq::empty() },
    )
}

/// An optional selector as its model.
pub open spec fn selector_model(selector: Option<Selector>) -> Option<SelectorModel> {
    match selector {
        Some(s) => Some(s@),
        None => None,
    }
}

fn spread(chars: &[char]) -> (r: Vec<char>)
    ensures
        r@ == spaced(chars@),
{
    let mut r: Vec<char> = Vec::new();
    let mut i: usize = 0;
    while i < chars.len()
        invariant
            i <= chars@.len(),
            r@ == spaced(chars@.take(i as int)),
        decreases chars@.len() - i,
    {
        let c = chars[i];
        let ghost before = r@;
        assert(chars@.take(i + 1).drop_last() =~= chars@.take(i as int));
        if c == '>' {
            r.push(' ');
            r.push('>');
            r.push(' ');
            assert(r@ =~= before + seq![' ', '>', ' ']);
        } else {
            r.push(c);
            assert(r@ =~= before + seq![c]);
        }
        i += 1;
    }
    assert(chars@.take(i as int) =~= chars@);
    r
}

/// Parses one selector, or `None` when it uses a feature the inliner does
/// not support.
pub fn parse_selector(chars: &[char]) -> (r: Option<Selector>)
    ensures
        selector_model(r) == selector_of(chars@),
        r matches Some(selector) ==> is_selector(selector@),
{
    let tokens = text::words_of(&spread(&trimmed(chars)));
    let mut compounds: Vec<Compound> = Vec::new();
    let mut combinators: Vec<Combinator> = Vec::new();
    let mut k: usize = 0;
    proof {
        assert(compounds_of(compounds@) =~= Seq::<CompoundModel>::empty());
        assert(combinators@ =~= Seq::<Combinator>::empty());
    }
    while k < tokens.len()
        invariant
            k <= tokens@.len(),
            combinators@.len() <= compounds@.len(),
            selector_of(chars@) == selector_from(
                text::texts(tokens@),
                k as int,
                SelectorModel {
                    compounds: compounds_of(compounds@),
                    combinators: combinators@,
                },
            ),
        decreases tokens@.len() - k,
    {
        let ready = compounds.len() > 0 && combinators.len() == compounds.len() - 1;
        if spells(&tokens[k], ">") {
            if !ready {
                return None;
            }
            combinators.push(Combinator::Child);
        } else {
            if ready {
                combinators.push(Combinator::Descendant);
            }
            let Some(compound) = parse_compound(&tokens[k]) else {
                return None;
            };
            let ghost before = compounds@;
            compounds.push(compound);
            assert(compounds_of(compounds@) =~= compounds_of(before).push(compound@));
        }
        k += 1;
    }
    if compounds.len() == 0 || combinators.len() != compounds.len() - 1 {
        return None;
    }
    Some(Selector { compounds, combinators })
}

// -- Specificity ------------------------------------------------------------

/// How specific a selector is: its ids, its classes and pseudo-classes, its
/// tags.
pub struct SpecificityModel {
    pub ids: int,
    pub classes: int,
    pub tags: int,
}

/// How specific a selector is: its ids, its classes and pseudo-classes, its
/// tags.
#[derive(Clone, Copy, Debug, PartialEq, Eq, Structural)]
pub struct Specificity {
    pub ids: u128,
    pub classes: u128,
    pub tags: u128,
}

impl View for Specificity {
    type V = SpecificityModel;

    open spec fn view(&self) -> SpecificityModel {
        SpecificityModel {
            ids: self.ids as int,
            classes: self.classes as int,
            tags: self.tags as int,
        }
    }
}

/// One for a part that is there.
pub open spec fn one_if(present: bool) -> int {
    if present {
        1
    } else {
        0
    }
}

/// The counts over a list of compounds.
pub open spec fn specificity(compounds: Seq<CompoundModel>) -> SpecificityModel
    decreases compounds.len(),
{
    if compounds.len() == 0 {
        SpecificityModel { ids: 0, classes: 0, tags: 0 }
    } else {
        let before = specificity(compounds.drop_last());
        let last = compounds.last();
        SpecificityModel {
            ids: before.ids + one_if(last.id is Some),
            classes: before.classes + last.classes.len() + one_if(last.pseudo is Some),
            tags: before.tags + one_if(last.tag is Some),
        }
    }
}

/// The (ids, classes and pseudo-classes, tags) counts of a selector.
pub fn specificity_of(selector: &Selector) -> (r: Specificity)
    ensures
        r@ == specificity(selector@.compounds),
{
    let mut ids: u128 = 0;
    let mut classes: u128 = 0;
    let mut tags: u128 = 0;
    let mut i: usize = 0;
    let ghost all = selector@.compounds;
    while i < selector.compounds.len()
        invariant
            i <= selector.compounds@.len(),
            all == compounds_of(selector.compounds@),
            ids <= i,
            tags <= i,
            classes <= i * 0x1_0000_0000_0000_0000,
            (SpecificityModel { ids: ids as int, classes: classes as int, tags: tags as int })
                == specificity(all.take(i as int)),
        decreases selector.compounds@.len() - i,
    {
        let compound = &selector.compounds[i];
        let count: usize = compound.classes.len();
        assert(all.take(i + 1).drop_last() =~= all.take(i as int));
        assert(all.take(i + 1).last() == compound@);
        if compound.id.is_some() {
            ids += 1;
        }
        classes = classes + count as u128;
        if compound.pseudo.is_some() {
            classes += 1;
        }
        if compound.tag.is_some() {
            tags += 1;
        }
        i += 1;
    }
    assert(all.take(i as int) =~= all);
    Specificity { ids, classes, tags }
}

// -- Matching ---------------------------------------------------------------

/// The child elements in a list of nodes, in order.
pub open spec fn elements_in(nodes: Seq<NodeModel>) -> Seq<int>
    decreases nodes.len(),
{
    if nodes.len() == 0 {
        Seq::empty()
    } else {
        let before = elements_in(nodes.drop_last());
        match nodes.last() {
            NodeModel::Element(index) => before.push(index),
            _ => before,
        }
    }
}

/// True when the element at `position` among `count` siblings, counted from
/// 0, has the pseudo-class.
pub open spec fn has_pseudo(pseudo: Pseudo, position: int, count: int) -> bool {
    match pseudo {
        Pseudo::First => position == 0,
        Pseudo::Last => position + 1 == count,
        Pseudo::Index(wanted) => position + 1 == wanted,
        Pseudo::Even => (position + 1) % 2 == 0,
        Pseudo::Odd => (position + 1) % 2 == 1,
    }
}

/// True when `element` matches one compound. The root matches none.
pub open spec fn compound_matches(
    tree: Seq<ElementModel>,
    element: int,
    compound: CompoundModel,
) -> bool {
    let node = tree[element];
    &&& node.tag.len() > 0
    &&& compound.tag matches Some(tag) ==> tag == node.tag
    &&& compound.id matches Some(id) ==> dom::value_of(node.attributes, "id"@) == Some(id)
    &&& forall|k: int|
        0 <= k < compound.classes.len() ==> dom::classes_of(node).contains(
            #[trigger] compound.classes[k],
        )
    &&& compound.pseudo matches Some(pseudo) ==> {
        let siblings = elements_in(tree[node.parent].children);
        exists|position: int|
            0 <= position < siblings.len() && #[trigger] siblings[position] == element
                && has_pseudo(pseudo, position, siblings.len() as int)
    }
}

/// True when `element` matches the selector's compounds up to `position`: the
/// one at `position` itself, and the others on its ancestors.
pub open spec fn matches_up_to(
    tree: Seq<ElementModel>,
    element: int,
    selector: SelectorModel,
    position: int,
) -> bool
    decreases position, 0int,
{
    compound_matches(tree, element, selector.compounds[position]) && (position <= 0 || {
        let parent = tree[element].parent;
        match selector.combinators[position - 1] {
            Combinator::Child => parent > 0 && matches_up_to(tree, parent, selector, position - 1),
            Combinator::Descendant => some_ancestor_matches(tree, parent, selector, position - 1),
        }
    })
}

/// True when `ancestor` or an element above it, but not the root, matches the
/// selector's compounds up to `position`.
pub open spec fn some_ancestor_matches(
    tree: Seq<ElementModel>,
    ancestor: int,
    selector: SelectorModel,
    position: int,
) -> bool
    decreases position, ancestor + 1,
{
    ancestor > 0 && (matches_up_to(tree, ancestor, selector, position) || (
    0 <= tree[ancestor].parent < ancestor && some_ancestor_matches(
        tree,
        tree[ancestor].parent,
        selector,
        position,
    )))
}

/// True when `element` matches `selector`.
pub open spec fn matches(tree: Seq<ElementModel>, element: int, selector: SelectorModel) -> bool {
    matches_up_to(tree, element, selector, selector.compounds.len() - 1)
}

proof fn lemma_elements_in(tree: Seq<ElementModel>, i: int, n: int)
    requires
        dom::is_tree(tree),
        0 <= i < tree.len(),
        0 <= n <= tree[i].children.len(),
    ensures
        ({
            let nodes = tree[i].children.take(n);
            let found = elements_in(nodes);
            &&& found.len() <= n
            &&& forall|k: int| 0 <= k < found.len() ==> dom::is_listed(nodes, #[trigger] found[k])
            &&& forall|k: int, l: int|
                0 <= k < l < found.len() ==> #[trigger] found[k] < #[trigger] found[l]
        }),
    decreases n,
{
    if n > 0 {
        lemma_elements_in(tree, i, n - 1);
        let all = tree[i].children;
        let nodes = all.take(n);
        let shorter = all.take(n - 1);
        assert(nodes.drop_last() =~= shorter);
        let before = elements_in(shorter);
        let found = elements_in(nodes);
        assert forall|k: int| 0 <= k < found.len() implies dom::is_listed(
            nodes,
            #[trigger] found[k],
        ) by {
            if k < before.len() {
                assert(dom::is_listed(shorter, before[k]));
                let m = choose|m: int|
                    0 <= m < shorter.len() && #[trigger] shorter[m] == NodeModel::Element(before[k]);
                assert(nodes[m] == NodeModel::Element(found[k]));
            } else {
                assert(nodes[n - 1] == NodeModel::Element(found[k]));
            }
        }
        assert forall|k: int, l: int| 0 <= k < l < found.len() implies #[trigger] found[k]
            < #[trigger] found[l] by {
            if l < before.len() {
                assert(before[k] < before[l]);
            } else {
                assert(dom::is_listed(shorter, before[k]));
                let m = choose|m: int|
                    0 <= m < shorter.len() && #[trigger] shorter[m] == NodeModel::Element(before[k]);
                assert(all[m] == NodeModel::Element(found[k]));
                assert(all[n - 1] == NodeModel::Element(found[l]));
            }
        }
    }
}

/// The position of `element` among the child elements of `parent`, and how
/// many there are.
fn sibling_position(tree: &Vec<Element>, parent: usize, element: usize) -> (r: (
    Option<usize>,
    usize,
))
    requires
        dom::is_tree(dom::tree_of(tree@)),
        parent < tree@.len(),
    ensures
        ({
            let siblings = elements_in(dom::tree_of(tree@)[parent as int].children);
            &&& r.1 == siblings.len()
            &&& match r.0 {
                Some(p) => p < siblings.len() && siblings[p as int] == element as int && forall|
                    k: int,
                |
                    0 <= k < siblings.len() && k != p ==> #[trigger] siblings[k] != element as int,
                None => forall|k: int|
                    0 <= k < siblings.len() ==> #[trigger] siblings[k] != element as int,
            }
        }),
{
    let ghost model = dom::tree_of(tree@);
    let children = &tree[parent].children;
    let ghost nodes = model[parent as int].children;
    let mut found: Option<usize> = None;
    let mut count: usize = 0;
    let mut i: usize = 0;
    while i < children.len()
        invariant
            i <= children@.len(),
            count <= i,
            nodes == dom::nodes_of(children@),
            count == elements_in(nodes.take(i as int)).len(),
            match found {
                Some(p) => p < count && elements_in(nodes.take(i as int))[p as int]
                    == element as int,
                None => forall|k: int|
                    0 <= k < count ==> #[trigger] elements_in(nodes.take(i as int))[k]
                        != element as int,
            },
        decreases children@.len() - i,
    {
        assert(nodes.take(i + 1).drop_last() =~= nodes.take(i as int));
        assert(nodes.take(i + 1).last() == children@[i as int]@);
        if let Node::Element(index) = &children[i] {
            if found.is_none() && *index == element {
                found = Some(count);
            }
            count += 1;
        }
        i += 1;
    }
    proof {
        assert(nodes.take(i as int) =~= nodes);
        lemma_elements_in(model, parent as int, nodes.len() as int);
    }
    (found, count)
}

/// True when `element` matches one compound.
pub fn element_matches(tree: &Vec<Element>, element: usize, compound: &Compound) -> (r: bool)
    requires
        dom::is_tree(dom::tree_of(tree@)),
        element < tree@.len(),
    ensures
        r == compound_matches(dom::tree_of(tree@), element as int, compound@),
{
    let ghost model = dom::tree_of(tree@);
    let node = &tree[element];
    assert(model[element as int] == node@);
    if node.tag.as_str().is_empty() {
        return false;
    }
    if let Some(tag) = &compound.tag {
        if !spells(tag, node.tag.as_str()) {
            return false;
        }
    }
    if let Some(id) = &compound.id {
        match attribute_value(node, "id") {
            Some(value) => {
                if !spells(id, value.as_str()) {
                    return false;
                }
            },
            None => {
                return false;
            },
        }
    }
    let classes = class_list(node);
    let mut k: usize = 0;
    while k < compound.classes.len()
        invariant
            k <= compound.classes@.len(),
            element < tree@.len(),
            model == dom::tree_of(tree@),
            node@ == model[element as int],
            text::texts(classes@) == dom::classes_of(node@),
            forall|j: int|
                0 <= j < k ==> dom::classes_of(node@).contains(#[trigger] compound@.classes[j]),
        decreases compound.classes@.len() - k,
    {
        assert(compound@.classes[k as int] == compound.classes@[k as int]@);
        if !text_is_in(&classes, &compound.classes[k]) {
            return false;
        }
        k += 1;
    }
    match compound.pseudo {
        None => true,
        Some(pseudo) => {
            assert(node.parent < tree@.len());
            let (found, count) = sibling_position(tree, node.parent, element);
            let ghost siblings = elements_in(model[node@.parent].children);
            match found {
                None => false,
                Some(position) => {
                    assert(siblings[position as int] == element as int);
                    match pseudo {
                        Pseudo::First => position == 0,
                        Pseudo::Last => position + 1 == count,
                        Pseudo::Index(wanted) => position + 1 == wanted,
                        Pseudo::Even => (position + 1) % 2 == 0,
                        Pseudo::Odd => (position + 1) % 2 == 1,
                    }
                },
            }
        },
    }
}

/// True when the text is in the list.
pub fn text_is_in(list: &Vec<Vec<char>>, wanted: &[char]) -> (r: bool)
    ensures
        r == text::texts(list@).contains(wanted@),
{
    let mut i: usize = 0;
    while i < list.len()
        invariant
            i <= list@.len(),
            forall|j: int| 0 <= j < i ==> #[trigger] list@[j]@ != wanted@,
        decreases list@.len() - i,
    {
        if text::same_chars(&list[i], wanted) {
            assert(text::texts(list@)[i as int] == wanted@);
            return true;
        }
        i += 1;
    }
    proof {
        if text::texts(list@).contains(wanted@) {
            let j = choose|j: int|
                0 <= j < text::texts(list@).len() && text::texts(list@)[j] == wanted@;
            assert(list@[j]@ == wanted@);
        }
    }
    false
}

/// True when `element` matches the selector's compounds up to `position`.
fn matches_from(tree: &Vec<Element>, element: usize, selector: &Selector, position: usize) -> (r:
    bool)
    requires
        dom::is_tree(dom::tree_of(tree@)),
        element < tree@.len(),
        is_selector(selector@),
        position < selector@.compounds.len(),
    ensures
        r == matches_up_to(dom::tree_of(tree@), element as int, selector@, position as int),
    decreases position,
{
    let ghost model = dom::tree_of(tree@);
    assert(selector@.compounds[position as int] == selector.compounds@[position as int]@);
    if !element_matches(tree, element, &selector.compounds[position]) {
        return false;
    }
    if position == 0 {
        return true;
    }
    let combinator = selector.combinators[position - 1];
    assert(model[element as int] == tree@[element as int]@);
    let mut ancestor = tree[element].parent;
    match combinator {
        Combinator::Child => ancestor > 0 && matches_from(
            tree,
            ancestor,
            selector,
            position - 1,
        ),
        Combinator::Descendant => {
            while ancestor > 0
                invariant
                    model == dom::tree_of(tree@),
                    dom::is_tree(model),
                    ancestor < tree@.len(),
                    is_selector(selector@),
                    0 < position < selector@.compounds.len(),
                    matches_up_to(model, element as int, selector@, position as int)
                        == some_ancestor_matches(model, ancestor as int, selector@, position - 1),
                decreases ancestor,
            {
                if matches_from(tree, ancestor, selector, position - 1) {
                    return true;
                }
                assert(model[ancestor as int] == tree@[ancestor as int]@);
                ancestor = tree[ancestor].parent;
            }
            false
        },
    }
}

/// True when `element` matches `selector`.
pub fn selector_matches(tree: &Vec<Element>, element: usize, selector: &Selector) -> (r: bool)
    requires
        dom::is_tree(dom::tree_of(tree@)),
        element < tree@.len(),
        is_selector(selector@),
    ensures
        r == matches(dom::tree_of(tree@), element as int, selector@),
{
    matches_from(tree, element, selector, selector.compounds.len() - 1)
}

/// The synthetic root matches no selector.
pub proof fn law_root_matches_nothing(tree: Seq<ElementModel>, selector: SelectorModel)
    requires
        dom::is_tree(tree),
        is_selector(selector),
    ensures
        !matches(tree, 0, selector),
{
}

// -- What matching means ------------------------------------------------------

/// True when `upper` is the parent of `lower`, or stands above that parent.
pub open spec fn is_above(tree: Seq<ElementModel>, upper: int, lower: int) -> bool
    decreases lower,
{
    &&& 0 <= tree[lower].parent < lower
    &&& tree[lower].parent == upper || is_above(tree, upper, tree[lower].parent)
}

/// True when two elements stand to each other as a combinator asks.
pub open spec fn is_joined(
    tree: Seq<ElementModel>,
    upper: int,
    combinator: Combinator,
    lower: int,
) -> bool {
    match combinator {
        Combinator::Child => tree[lower].parent == upper,
        Combinator::Descendant => is_above(tree, upper, lower),
    }
}

/// True when the elements of a line match the first compounds of a selector
/// one by one, each two joined by the combinator between their compounds.
pub open spec fn is_line(
    tree: Seq<ElementModel>,
    selector: SelectorModel,
    line: Seq<int>,
) -> bool {
    &&& forall|k: int| 0 <= k < line.len() ==> 0 <= #[trigger] line[k] < tree.len()
    &&& forall|k: int|
        0 <= k < line.len() ==> compound_matches(tree, #[trigger] line[k], selector.compounds[k])
    &&& forall|k: int, l: int|
        #![trigger line[k], line[l]]
        0 <= k < line.len() && l == k + 1 && l < line.len() ==> is_joined(
            tree,
            line[k],
            selector.combinators[k],
            line[l],
        )
}

proof fn lemma_matching_ancestor(
    tree: Seq<ElementModel>,
    ancestor: int,
    selector: SelectorModel,
    position: int,
) -> (found: int)
    requires
        dom::is_tree(tree),
        0 <= ancestor < tree.len(),
        some_ancestor_matches(tree, ancestor, selector, position),
    ensures
        0 < found < tree.len(),
        found == ancestor || is_above(tree, found, ancestor),
        matches_up_to(tree, found, selector, position),
    decreases ancestor,
{
    if matches_up_to(tree, ancestor, selector, position) {
        ancestor
    } else {
        lemma_matching_ancestor(tree, tree[ancestor].parent, selector, position)
    }
}

proof fn lemma_ancestor_is_found(
    tree: Seq<ElementModel>,
    found: int,
    ancestor: int,
    selector: SelectorModel,
    position: int,
)
    requires
        dom::is_tree(tree),
        0 <= ancestor < tree.len(),
        0 < found < tree.len(),
        found == ancestor || is_above(tree, found, ancestor),
        matches_up_to(tree, found, selector, position),
    ensures
        some_ancestor_matches(tree, ancestor, selector, position),
    decreases ancestor,
{
    if found != ancestor {
        lemma_ancestor_is_found(tree, found, tree[ancestor].parent, selector, position);
    }
}

proof fn lemma_matching_line(
    tree: Seq<ElementModel>,
    element: int,
    selector: SelectorModel,
    position: int,
) -> (line: Seq<int>)
    requires
        dom::is_tree(tree),
        0 <= element < tree.len(),
        0 <= position,
        matches_up_to(tree, element, selector, position),
    ensures
        line.len() == position + 1,
        line.last() == element,
        is_line(tree, selector, line),
    decreases position,
{
    if position == 0 {
        seq![element]
    } else {
        let parent = tree[element].parent;
        assert(element > 0);
        let upper = match selector.combinators[position - 1] {
            Combinator::Child => parent,
            Combinator::Descendant => lemma_matching_ancestor(
                tree,
                parent,
                selector,
                position - 1,
            ),
        };
        let before = lemma_matching_line(tree, upper, selector, position - 1);
        let line = before.push(element);
        assert forall|k: int, l: int|
            #![trigger line[k], line[l]]
            0 <= k < line.len() && l == k + 1 && l < line.len() implies is_joined(
            tree,
            line[k],
            selector.combinators[k],
            line[l],
        ) by {
            if l < before.len() {
                assert(is_joined(tree, before[k], selector.combinators[k], before[l]));
            }
        }
        line
    }
}

proof fn lemma_line_matches(
    tree: Seq<ElementModel>,
    selector: SelectorModel,
    line: Seq<int>,
)
    requires
        dom::is_tree(tree),
        line.len() > 0,
        is_line(tree, selector, line),
    ensures
        matches_up_to(tree, line.last(), selector, line.len() - 1),
    decreases line.len(),
{
    let element = line.last();
    let position = line.len() - 1;
    assert(line[position] == element);
    if position > 0 {
        let before = line.drop_last();
        let upper = before.last();
        assert(line[position - 1] == upper);
        assert forall|k: int, l: int|
            #![trigger before[k], before[l]]
            0 <= k < before.len() && l == k + 1 && l < before.len() implies is_joined(
            tree,
            before[k],
            selector.combinators[k],
            before[l],
        ) by {
            assert(is_joined(tree, line[k], selector.combinators[k], line[l]));
        }
        lemma_line_matches(tree, selector, before);
        assert(is_joined(tree, line[position - 1], selector.combinators[position - 1], line[position]));
        assert(upper > 0);
        assert(element > 0);
        if selector.combinators[position - 1] is Descendant {
            lemma_ancestor_is_found(tree, upper, tree[element].parent, selector, position - 1);
        }
    }
}

/// An element matches a selector exactly when some line of elements down to
/// it matches the compounds one by one: each the parent of the next where the
/// selector says child, and somewhere above it where it says descendant.
pub proof fn law_a_selector_matches_a_line_of_elements(
    tree: Seq<ElementModel>,
    element: int,
    selector: SelectorModel,
)
    requires
        dom::is_tree(tree),
        is_selector(selector),
        0 <= element < tree.len(),
    ensures
        matches(tree, element, selector) <==> exists|line: Seq<int>|
            line.len() == selector.compounds.len() && line.last() == element && #[trigger] is_line(
                tree,
                selector,
                line,
            ),
{
    let last = selector.compounds.len() - 1;
    if matches(tree, element, selector) {
        let line = lemma_matching_line(tree, element, selector, last);
        assert(is_line(tree, selector, line));
    }
    if exists|line: Seq<int>|
        line.len() == selector.compounds.len() && line.last() == element && #[trigger] is_line(
            tree,
            selector,
            line,
        ) {
        let line = choose|line: Seq<int>|
            line.len() == selector.compounds.len() && line.last() == element && #[trigger] is_line(
                tree,
                selector,
                line,
            );
        lemma_line_matches(tree, selector, line);
    }
}

// -- What a selector spells ---------------------------------------------------

/// The selector without any compound.
pub open spec fn nothing_read() -> SelectorModel {
    SelectorModel { compounds: Seq::empty(), combinators: Seq::empty() }
}

proof fn lemma_read_on(
    tokens: Seq<Seq<char>>,
    more: Seq<Seq<char>>,
    k: int,
    selector: SelectorModel,
)
    requires
        0 <= k <= tokens.len(),
        selector_from(tokens, k, selector) is Some,
    ensures
        selector_from(tokens + more, k, selector) == selector_from(
            tokens + more,
            tokens.len() as int,
            selector_from(tokens, k, selector)->0,
        ),
    decreases tokens.len() - k,
{
    if k < tokens.len() {
        assert((tokens + more)[k] == tokens[k]);
        if tokens[k] == ">"@ {
            lemma_read_on(
                tokens,
                more,
                k + 1,
                SelectorModel {
                    combinators: selector.combinators.push(Combinator::Child),
                    ..selector
                },
            );
        } else {
            let combinators = if is_selector(selector) {
                selector.combinators.push(Combinator::Descendant)
            } else {
                selector.combinators
            };
            let compound = compound_of(tokens[k])->0;
            lemma_read_on(
                tokens,
                more,
                k + 1,
                SelectorModel { compounds: selector.compounds.push(compound), combinators },
            );
        }
    }
}

/// A compound alone is a selector. A compound behind a selector matches below
/// what the selector matches: anywhere below it, or right below it where a
/// `>` stands between.
pub proof fn law_a_selector_grows_by_a_compound(
    tokens: Seq<Seq<char>>,
    token: Seq<char>,
    compound: CompoundModel,
)
    requires
        token != ">"@,
        compound_of(token) == Some(compound),
    ensures
        selector_from(seq![token], 0, nothing_read()) == Some(
            SelectorModel { compounds: seq![compound], combinators: Seq::empty() },
        ),
        selector_from(tokens, 0, nothing_read()) matches Some(read) ==> {
            &&& selector_from(tokens.push(token), 0, nothing_read()) == Some(
                SelectorModel {
                    compounds: read.compounds.push(compound),
                    combinators: read.combinators.push(Combinator::Descendant),
                },
            )
            &&& selector_from(tokens.push(">"@).push(token), 0, nothing_read()) == Some(
                SelectorModel {
                    compounds: read.compounds.push(compound),
                    combinators: read.combinators.push(Combinator::Child),
                },
            )
        },
{
    reveal_with_fuel(selector_from, 3);
    assert(nothing_read().compounds.push(compound) =~= seq![compound]);
    if let Some(read) = selector_from(tokens, 0, nothing_read()) {
        lemma_read_selector(tokens, 0, nothing_read());
        let n = tokens.len() as int;
        let spaced_out = tokens.push(token);
        let joined = tokens.push(">"@).push(token);
        lemma_read_on(tokens, seq![token], 0, nothing_read());
        assert(tokens + seq![token] =~= spaced_out);
        assert(spaced_out[n] == token);
        lemma_read_on(tokens, seq![">"@, token], 0, nothing_read());
        assert(tokens + seq![">"@, token] =~= joined);
        assert(joined[n] == ">"@);
        assert(joined[n + 1] == token);
    }
}

proof fn lemma_read_selector(tokens: Seq<Seq<char>>, k: int, selector: SelectorModel)
    ensures
        selector_from(tokens, k, selector) matches Some(read) ==> is_selector(read),
    decreases tokens.len() - k,
{
    if 0 <= k < tokens.len() {
        if tokens[k] == ">"@ {
            lemma_read_selector(
                tokens,
                k + 1,
                SelectorModel {
                    combinators: selector.combinators.push(Combinator::Child),
                    ..selector
                },
            );
        } else if compound_of(tokens[k]) is Some {
            let combinators = if is_selector(selector) {
                selector.combinators.push(Combinator::Descendant)
            } else {
                selector.combinators
            };
            let compound = compound_of(tokens[k])->0;
            lemma_read_selector(
                tokens,
                k + 1,
                SelectorModel { compounds: selector.compounds.push(compound), combinators },
            );
        }
    }
}

/// True for a name that can stand in a compound.
pub open spec fn is_compound_name(s: Seq<char>) -> bool {
    &&& s.len() > 0
    &&& is_plain_name(s)
    &&& forall|k: int| 0 <= k < s.len() ==> !is_marker(#[trigger] s[k])
}

proof fn lemma_marker_at(s: Seq<char>, i: int, end: int)
    requires
        0 <= i <= end <= s.len(),
        forall|k: int| i <= k < end ==> !is_marker(#[trigger] s[k]),
        end < s.len() ==> is_marker(s[end]),
    ensures
        next_marker(s, i) == end,
    decreases end - i,
{
    if i < end {
        lemma_marker_at(s, i + 1, end);
    }
}

/// A compound is read for its tag, in lower case, its class, and its id.
pub proof fn law_a_compound_names_its_parts(tag: Seq<char>, class: Seq<char>, id: Seq<char>)
    requires
        is_compound_name(tag),
        text::is_letter(tag[0]),
        is_compound_name(class),
        is_compound_name(id),
    ensures
        compound_of(tag + "."@ + class + "#"@ + id) == Some(
            CompoundModel {
                tag: Some(text::lower(tag)),
                id: Some(id),
                classes: seq![class],
                pseudo: None,
            },
        ),
{
    reveal_strlit("*");
    reveal_strlit(".");
    reveal_strlit("#");
    reveal_with_fuel(compound_from, 3);
    let s = tag + "."@ + class + "#"@ + id;
    let a = tag.len() as int;
    let b = a + 1 + class.len();
    let c = b + 1 + id.len();
    assert(s[0] == tag[0]);
    assert(s.len() == c);
    assert(s[a] == '.');
    assert(s[b] == '#');
    assert forall|k: int| 0 <= k < a implies !is_marker(#[trigger] s[k]) by {
        assert(s[k] == tag[k]);
    }
    lemma_marker_at(s, 0, a);
    assert(s.subrange(0, a) =~= tag);
    assert forall|k: int| a + 1 <= k < b implies !is_marker(#[trigger] s[k]) by {
        assert(s[k] == class[k - a - 1]);
    }
    lemma_marker_at(s, a + 1, b);
    assert(s.subrange(a + 1, b) =~= class);
    assert forall|k: int| b + 1 <= k < c implies !is_marker(#[trigger] s[k]) by {
        assert(s[k] == id[k - b - 1]);
    }
    lemma_marker_at(s, b + 1, c);
    assert(s.subrange(b + 1, c) =~= id);
    assert(Seq::<Seq<char>>::empty().push(class) =~= seq![class]);
}

/// The counts of two lists of compounds add up, and each compound counts for
/// its id, its classes with its pseudo-class, and its tag.
pub proof fn law_specificity_adds_up(a: Seq<CompoundModel>, b: Seq<CompoundModel>)
    ensures
        specificity(a + b).ids == specificity(a).ids + specificity(b).ids,
        specificity(a + b).classes == specificity(a).classes + specificity(b).classes,
        specificity(a + b).tags == specificity(a).tags + specificity(b).tags,
        b.len() == 1 ==> specificity(b).ids == one_if(b[0].id is Some) && specificity(b).tags
            == one_if(b[0].tag is Some) && specificity(b).classes == b[0].classes.len() + one_if(
            b[0].pseudo is Some,
        ),
    decreases b.len(),
{
    reveal_with_fuel(specificity, 2);
    if b.len() == 0 {
        assert(a + b =~= a);
    } else {
        law_specificity_adds_up(a, b.drop_last());
        assert((a + b).drop_last() =~= a + b.drop_last());
    }
}

/// A structural pseudo-class picks the places it says, counted from one among
/// the siblings: the first, the last, one place, or every second one.
pub proof fn law_a_pseudo_class_picks_its_places(place: int, count: int, wanted: usize)
    requires
        1 <= place <= count,
    ensures
        has_pseudo(Pseudo::First, place - 1, count) <==> place == 1,
        has_pseudo(Pseudo::Last, place - 1, count) <==> place == count,
        has_pseudo(Pseudo::Index(wanted), place - 1, count) <==> place == wanted,
        has_pseudo(Pseudo::Even, 2 * place - 1, 2 * count),
        !has_pseudo(Pseudo::Odd, 2 * place - 1, 2 * count),
        has_pseudo(Pseudo::Odd, 2 * place - 2, 2 * count),
        !has_pseudo(Pseudo::Even, 2 * place - 2, 2 * count),
{
}

} // verus!
