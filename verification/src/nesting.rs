//! How written HTML reads as a tree: which element holds what.

use vstd::prelude::*;

use crate::dom;
use crate::dom::{ElementModel, NodeModel};
use crate::reading;
use crate::text;

verus! {

/// True for a tag of small letters and digits that can hold content.
pub open spec fn is_plain_tag(name: Seq<char>) -> bool {
    &&& name.len() > 0
    &&& forall|k: int|
        0 <= k < name.len() ==> 'a' <= #[trigger] name[k] <= 'z' || '1' <= name[k] <= '6'
    &&& name != "svg"@
    &&& !dom::is_void_tag(name)
}

/// The tree of `s` from position `i`.
#[verifier::opaque]
spec fn parse(s: Seq<char>, i: int, tree: Seq<ElementModel>, open: Seq<int>) -> Seq<ElementModel> {
    dom::parsed_from(s, i, tree, open)
}

proof fn lemma_parse_ends(s: Seq<char>, tree: Seq<ElementModel>, open: Seq<int>)
    ensures
        parse(s, s.len() as int, tree, open) == tree,
{
    reveal(parse);
    text::lemma_find_char_from(s, '<', s.len() as int);
    assert(s.subrange(s.len() as int, s.len() as int) =~= Seq::<char>::empty());
}

proof fn lemma_no_space(s: Seq<char>, i: int)
    requires
        0 <= i <= s.len(),
        forall|k: int| i <= k < s.len() ==> !text::is_space(#[trigger] s[k]),
    ensures
        text::next_space(s, i) == s.len(),
    decreases s.len() - i,
{
    if i < s.len() {
        lemma_no_space(s, i + 1);
    }
}

proof fn lemma_plain_name(name: Seq<char>)
    requires
        is_plain_tag(name),
    ensures
        dom::tag_name(name) == name,
        !dom::is_childless(name, name),
        text::lower(text::trim(name)) == name,
        name[0] != '/',
        !name.contains('>'),
{
    assert forall|k: int| 0 <= k < name.len() implies !text::is_space(#[trigger] name[k]) && name[k]
        != '/' && text::lower_char(name[k]) == name[k] by {
        assert('a' <= name[k] <= 'z' || '1' <= name[k] <= '6');
    }
    let last = name.len() - 1;
    assert(!text::is_space(name[last]) && name[last] != '/');
    assert(!text::is_space(name[0]));
    assert(text::trim(name) == name);
    assert(text::trim_end(name) == name);
    assert(dom::tag_content(name) == name);
    lemma_no_space(name, 0);
    assert(name.subrange(0, name.len() as int) =~= name);
    assert(text::lower(name) =~= name);
}

proof fn lemma_found(
    s: Seq<char>,
    before: Seq<char>,
    content: Seq<char>,
    inside: Seq<char>,
    rest: Seq<char>,
)
    requires
        s == before + content + seq!['<'] + inside + seq!['>'] + rest,
        !content.contains('<'),
        !inside.contains('>'),
    ensures
        ({
            let i = before.len() as int;
            let p = i + content.len();
            let q = p + 1 + inside.len();
            &&& text::find_char_from(s, '<', i) == Some(p)
            &&& text::find_char_from(s, '>', p) == Some(q)
            &&& s.subrange(i, p) == content
            &&& s.subrange(p + 1, q) == inside
        }),
{
    let i = before.len() as int;
    let p = i + content.len();
    let q = p + 1 + inside.len();
    assert(s[p] == '<');
    assert forall|k: int| i <= k < p implies s[k] != '<' by {
        assert(s[k] == content[k - i]);
    }
    text::lemma_find_char_from(s, '<', i);
    assert(s[q] == '>');
    assert forall|k: int| p <= k < q implies s[k] != '>' by {
        if k > p {
            assert(s[k] == inside[k - p - 1]);
        }
    }
    text::lemma_find_char_from(s, '>', p);
    assert(s.subrange(i, p) =~= content);
    assert(s.subrange(p + 1, q) =~= inside);
}

/// An element without content yet.
pub open spec fn fresh_element(name: Seq<char>, parent: int) -> ElementModel {
    ElementModel {
        tag: name,
        attributes: dom::tag_attributes(name),
        parent,
        children: Seq::empty(),
    }
}

proof fn lemma_opens(
    s: Seq<char>,
    before: Seq<char>,
    content: Seq<char>,
    name: Seq<char>,
    rest: Seq<char>,
    tree: Seq<ElementModel>,
    open: Seq<int>,
)
    requires
        s == before + content + seq!['<'] + name + seq!['>'] + rest,
        !content.contains('<'),
        is_plain_tag(name),
    ensures
        ({
            let said = dom::with_text(tree, open, content);
            let still = dom::after_implicit_closes(said, open, name);
            parse(s, before.len() as int, tree, open) == parse(
                s,
                (before.len() + content.len() + name.len() + 2) as int,
                dom::with_element(said, fresh_element(name, still.last())),
                still.push(said.len() as int),
            )
        }),
{
    reveal(parse);
    lemma_plain_name(name);
    lemma_found(s, before, content, name, rest);
}

proof fn lemma_closes(
    s: Seq<char>,
    before: Seq<char>,
    content: Seq<char>,
    name: Seq<char>,
    rest: Seq<char>,
    tree: Seq<ElementModel>,
    open: Seq<int>,
)
    requires
        s == before + content + seq!['<'] + (seq!['/'] + name) + seq!['>'] + rest,
        !content.contains('<'),
        is_plain_tag(name),
    ensures
        ({
            let said = dom::with_text(tree, open, content);
            parse(s, before.len() as int, tree, open) == parse(
                s,
                (before.len() + content.len() + name.len() + 3) as int,
                said,
                dom::after_close(said, open, name),
            )
        }),
{
    reveal(parse);
    lemma_plain_name(name);
    let closing = seq!['/'] + name;
    assert(closing[0] == '/');
    assert forall|k: int| 0 <= k < closing.len() implies closing[k] != '>' by {
        if k > 0 {
            assert(closing[k] == name[k - 1]);
            assert('a' <= name[k - 1] <= 'z' || '1' <= name[k - 1] <= '6');
        }
    }
    assert(closing.drop_first() =~= name);
    lemma_found(s, before, content, closing, rest);
}

/// An element with this content, listed below its parent.
pub open spec fn element_with(name: Seq<char>, parent: int, children: Seq<NodeModel>) -> ElementModel {
    ElementModel { children, ..fresh_element(name, parent) }
}

/// The root with these children.
pub open spec fn root_with(children: Seq<NodeModel>) -> ElementModel {
    ElementModel { children, ..dom::root_element() }
}

/// An element holds what its tags enclose, in order: the text before an inner
/// element, the inner element with its own text, and the text behind it.
pub proof fn law_an_element_holds_what_its_tags_enclose(
    a: Seq<char>,
    b: Seq<char>,
    x: Seq<char>,
    y: Seq<char>,
    z: Seq<char>,
)
    requires
        is_plain_tag(a),
        is_plain_tag(b),
        !dom::closes_before(a, b),
        x.len() > 0 && !x.contains('<'),
        y.len() > 0 && !y.contains('<'),
        z.len() > 0 && !z.contains('<'),
    ensures
        dom::parsed(reading::tagged(a, x + reading::tagged(b, y) + z)) == seq![
            root_with(seq![NodeModel::Element(1)]),
            element_with(
                a,
                0,
                seq![NodeModel::Text(x), NodeModel::Element(2), NodeModel::Text(z)],
            ),
            element_with(b, 1, seq![NodeModel::Text(y)]),
        ],
{
    let s = reading::tagged(a, x + reading::tagged(b, y) + z);
    let none = Seq::<char>::empty();
    let close_a = seq!['<'] + (seq!['/'] + a) + seq!['>'];
    let close_b = seq!['<'] + (seq!['/'] + b) + seq!['>'];
    let open_a = seq!['<'] + a + seq!['>'];
    let open_b = seq!['<'] + b + seq!['>'];
    assert(seq!['<', '/'] + a =~= seq!['<'] + (seq!['/'] + a));
    assert(seq!['<', '/'] + b =~= seq!['<'] + (seq!['/'] + b));
    let t0 = seq![dom::root_element()];
    let o0 = seq![0int];
    let rest1 = x + open_b + y + close_b + z + close_a;
    assert(s =~= none + none + seq!['<'] + a + seq!['>'] + rest1);
    lemma_opens(s, none, none, a, rest1, t0, o0);
    let root = root_with(seq![NodeModel::Element(1)]);
    let t1 = seq![root, fresh_element(a, 0)];
    let o1 = seq![0int, 1int];
    lemma_first_element(a);
    assert(o0.push(1) =~= o1);
    // The text before the inner element, and the inner element.
    let rest2 = y + close_b + z + close_a;
    let head2 = open_a;
    assert(s =~= head2 + x + seq!['<'] + b + seq!['>'] + rest2);
    lemma_opens(s, head2, x, b, rest2, t1, o1);
    let said1 = dom::with_text(t1, o1, x);
    assert(said1[1].tag == a);
    assert(dom::after_implicit_closes(said1, o1, b) == o1);
    let t2 = seq![
        root,
        element_with(a, 0, seq![NodeModel::Text(x), NodeModel::Element(2)]),
        fresh_element(b, 1),
    ];
    let o2 = seq![0int, 1int, 2int];
    assert(dom::with_element(said1, fresh_element(b, 1)) =~= t2) by {
        let made = dom::with_element(said1, fresh_element(b, 1));
        assert(said1[1].children =~= seq![NodeModel::Text(x)]);
        assert(made[1].children =~= t2[1].children);
    }
    assert(o1.push(2) =~= o2);
    // The end of the inner element.
    let rest3 = z + close_a;
    let head3 = head2 + x + open_b;
    assert(s =~= head3 + y + seq!['<'] + (seq!['/'] + b) + seq!['>'] + rest3);
    lemma_closes(s, head3, y, b, rest3, t2, o2);
    let t3 = seq![
        root,
        element_with(a, 0, seq![NodeModel::Text(x), NodeModel::Element(2)]),
        element_with(b, 1, seq![NodeModel::Text(y)]),
    ];
    assert(dom::with_text(t2, o2, y) =~= t3) by {
        assert(dom::with_text(t2, o2, y)[2].children =~= t3[2].children);
    }
    assert(dom::after_close(t3, o2, b) =~= o1);
    // The text behind it, and the end of the outer element.
    let head4 = head3 + y + close_b;
    assert(s =~= head4 + z + seq!['<'] + (seq!['/'] + a) + seq!['>'] + none);
    lemma_closes(s, head4, z, a, none, t3, o1);
    let t4 = seq![
        root,
        element_with(
            a,
            0,
            seq![NodeModel::Text(x), NodeModel::Element(2), NodeModel::Text(z)],
        ),
        element_with(b, 1, seq![NodeModel::Text(y)]),
    ];
    assert(dom::with_text(t3, o1, z) =~= t4) by {
        assert(dom::with_text(t3, o1, z)[1].children =~= t4[1].children);
    }
    lemma_parse_ends(s, t4, dom::after_close(t4, o1, a));
    lemma_parsed(s, t4, dom::after_close(t4, o1, a));
}

proof fn lemma_parsed(s: Seq<char>, tree: Seq<ElementModel>, open: Seq<int>)
    requires
        parse(s, 0, seq![dom::root_element()], seq![0int]) == parse(
            s,
            s.len() as int,
            tree,
            open,
        ),
    ensures
        dom::parsed(s) == tree,
{
    lemma_parse_ends(s, tree, open);
    reveal(parse);
}

proof fn lemma_first_element(a: Seq<char>)
    ensures
        ({
            let t0 = seq![dom::root_element()];
            let none = Seq::<char>::empty();
            &&& dom::with_text(t0, seq![0int], none) == t0
            &&& dom::after_implicit_closes(t0, seq![0int], a) == seq![0int]
            &&& dom::with_element(t0, fresh_element(a, 0)) == seq![
                root_with(seq![NodeModel::Element(1)]),
                fresh_element(a, 0),
            ]
        }),
{
    let t0 = seq![dom::root_element()];
    let made = dom::with_element(t0, fresh_element(a, 0));
    let wanted = seq![root_with(seq![NodeModel::Element(1)]), fresh_element(a, 0)];
    assert(made[0].children =~= wanted[0].children);
    assert(made =~= wanted);
}

/// Elements behind each other are siblings, in order.
pub proof fn law_elements_behind_each_other_are_siblings(
    a: Seq<char>,
    b: Seq<char>,
    x: Seq<char>,
    y: Seq<char>,
)
    requires
        is_plain_tag(a),
        is_plain_tag(b),
        x.len() > 0 && !x.contains('<'),
        y.len() > 0 && !y.contains('<'),
    ensures
        dom::parsed(reading::tagged(a, x) + reading::tagged(b, y)) == seq![
            root_with(seq![NodeModel::Element(1), NodeModel::Element(2)]),
            element_with(a, 0, seq![NodeModel::Text(x)]),
            element_with(b, 0, seq![NodeModel::Text(y)]),
        ],
{
    let s = reading::tagged(a, x) + reading::tagged(b, y);
    let none = Seq::<char>::empty();
    let close_a = seq!['<'] + (seq!['/'] + a) + seq!['>'];
    let close_b = seq!['<'] + (seq!['/'] + b) + seq!['>'];
    let open_a = seq!['<'] + a + seq!['>'];
    let open_b = seq!['<'] + b + seq!['>'];
    assert(seq!['<', '/'] + a =~= seq!['<'] + (seq!['/'] + a));
    assert(seq!['<', '/'] + b =~= seq!['<'] + (seq!['/'] + b));
    let t0 = seq![dom::root_element()];
    let o0 = seq![0int];
    let rest1 = x + close_a + open_b + y + close_b;
    assert(s =~= none + none + seq!['<'] + a + seq!['>'] + rest1);
    lemma_opens(s, none, none, a, rest1, t0, o0);
    lemma_first_element(a);
    let root = root_with(seq![NodeModel::Element(1)]);
    let t1 = seq![root, fresh_element(a, 0)];
    let o1 = seq![0int, 1int];
    assert(o0.push(1) =~= o1);
    let rest2 = open_b + y + close_b;
    assert(s =~= open_a + x + seq!['<'] + (seq!['/'] + a) + seq!['>'] + rest2);
    lemma_closes(s, open_a, x, a, rest2, t1, o1);
    let t2 = seq![root, element_with(a, 0, seq![NodeModel::Text(x)])];
    assert(dom::with_text(t1, o1, x) =~= t2) by {
        assert(dom::with_text(t1, o1, x)[1].children =~= t2[1].children);
    }
    assert(dom::after_close(t2, o1, a) =~= o0);
    let head3 = open_a + x + close_a;
    let rest3 = y + close_b;
    assert(s =~= head3 + none + seq!['<'] + b + seq!['>'] + rest3);
    lemma_opens(s, head3, none, b, rest3, t2, o0);
    assert(dom::with_text(t2, o0, none) == t2);
    assert(dom::after_implicit_closes(t2, o0, b) == o0);
    let head = head3 + open_b;
    assert(s =~= head + y + close_b);
    lemma_second_element(a, b, x, y, s, head, close_b);
}

/// The end of a second element below the root.
proof fn lemma_second_element(
    a: Seq<char>,
    b: Seq<char>,
    x: Seq<char>,
    y: Seq<char>,
    s: Seq<char>,
    head: Seq<char>,
    tail: Seq<char>,
)
    requires
        is_plain_tag(b),
        y.len() > 0 && !y.contains('<'),
        s == head + y + tail,
        tail == seq!['<'] + (seq!['/'] + b) + seq!['>'],
        ({
            let t2 = seq![
                root_with(seq![NodeModel::Element(1)]),
                element_with(a, 0, seq![NodeModel::Text(x)]),
            ];
            parse(s, 0, seq![dom::root_element()], seq![0int]) == parse(
                s,
                head.len() as int,
                dom::with_element(t2, fresh_element(b, 0)),
                seq![0int].push(2),
            )
        }),
    ensures
        dom::parsed(s) == seq![
            root_with(seq![NodeModel::Element(1), NodeModel::Element(2)]),
            element_with(a, 0, seq![NodeModel::Text(x)]),
            element_with(b, 0, seq![NodeModel::Text(y)]),
        ],
{
    let none = Seq::<char>::empty();
    let t2 = seq![
        root_with(seq![NodeModel::Element(1)]),
        element_with(a, 0, seq![NodeModel::Text(x)]),
    ];
    let both = root_with(seq![NodeModel::Element(1), NodeModel::Element(2)]);
    let t3 = seq![both, element_with(a, 0, seq![NodeModel::Text(x)]), fresh_element(b, 0)];
    assert(dom::with_element(t2, fresh_element(b, 0)) =~= t3) by {
        assert(dom::with_element(t2, fresh_element(b, 0))[0].children =~= t3[0].children);
    }
    let o3 = seq![0int, 2int];
    assert(seq![0int].push(2) =~= o3);
    assert(s =~= head + y + seq!['<'] + (seq!['/'] + b) + seq!['>'] + none);
    lemma_closes(s, head, y, b, none, t3, o3);
    let t4 = seq![
        both,
        element_with(a, 0, seq![NodeModel::Text(x)]),
        element_with(b, 0, seq![NodeModel::Text(y)]),
    ];
    assert(dom::with_text(t3, o3, y) =~= t4) by {
        assert(dom::with_text(t3, o3, y)[2].children =~= t4[2].children);
    }
    lemma_parsed(s, t4, dom::after_close(t4, o3, b));
}

/// A tag that ends the element before it makes a sibling of it, without a
/// closing tag between them.
pub proof fn law_a_tag_can_end_the_element_before_it(
    a: Seq<char>,
    b: Seq<char>,
    x: Seq<char>,
    y: Seq<char>,
)
    requires
        is_plain_tag(a),
        is_plain_tag(b),
        dom::closes_before(a, b),
        x.len() > 0 && !x.contains('<'),
        y.len() > 0 && !y.contains('<'),
    ensures
        dom::parsed(seq!['<'] + a + seq!['>'] + x + reading::tagged(b, y)) == seq![
            root_with(seq![NodeModel::Element(1), NodeModel::Element(2)]),
            element_with(a, 0, seq![NodeModel::Text(x)]),
            element_with(b, 0, seq![NodeModel::Text(y)]),
        ],
{
    let s = seq!['<'] + a + seq!['>'] + x + reading::tagged(b, y);
    let none = Seq::<char>::empty();
    let close_b = seq!['<'] + (seq!['/'] + b) + seq!['>'];
    let open_a = seq!['<'] + a + seq!['>'];
    let open_b = seq!['<'] + b + seq!['>'];
    assert(seq!['<', '/'] + b =~= seq!['<'] + (seq!['/'] + b));
    let t0 = seq![dom::root_element()];
    let o0 = seq![0int];
    let rest1 = x + open_b + y + close_b;
    assert(s =~= none + none + seq!['<'] + a + seq!['>'] + rest1);
    lemma_opens(s, none, none, a, rest1, t0, o0);
    lemma_first_element(a);
    let root = root_with(seq![NodeModel::Element(1)]);
    let t1 = seq![root, fresh_element(a, 0)];
    let o1 = seq![0int, 1int];
    assert(o0.push(1) =~= o1);
    let rest2 = y + close_b;
    assert(s =~= open_a + x + seq!['<'] + b + seq!['>'] + rest2);
    lemma_opens(s, open_a, x, b, rest2, t1, o1);
    let t2 = seq![root, element_with(a, 0, seq![NodeModel::Text(x)])];
    assert(dom::with_text(t1, o1, x) =~= t2) by {
        assert(dom::with_text(t1, o1, x)[1].children =~= t2[1].children);
    }
    reveal_with_fuel(dom::after_implicit_closes, 2);
    assert(o1.drop_last() =~= o0);
    assert(dom::after_implicit_closes(t2, o1, b) == o0);
    let head = open_a + x + open_b;
    assert(s =~= head + y + close_b);
    lemma_second_element(a, b, x, y, s, head, close_b);
}

} // verus!
