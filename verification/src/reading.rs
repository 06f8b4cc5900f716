//! How written HTML reads as blocks: what each tag makes of the text in it.

use vstd::prelude::*;

use crate::blocks;
use crate::blocks::{BlockModel, RunModel, WalkModel};
use crate::markup;
use crate::text;

verus! {

// -- Text -------------------------------------------------------------------

/// True for a text without white space around it, and with single spaces
/// between its words.
pub open spec fn is_clean(s: Seq<char>) -> bool {
    &&& s.len() > 0
    &&& !text::is_space(s.first())
    &&& !text::is_space(s.last())
    &&& are_single_spaces(s)
}

/// True when the only white space is single spaces.
pub open spec fn are_single_spaces(s: Seq<char>) -> bool {
    &&& forall|k: int| 0 <= k < s.len() && text::is_space(#[trigger] s[k]) ==> s[k] == ' '
    &&& forall|k: int, l: int|
        #![trigger s[k], s[l]]
        0 <= k < s.len() && l == k + 1 && l < s.len() ==> !(text::is_space(s[k]) && text::is_space(
            s[l],
        ))
}

proof fn lemma_single_spaces_stay(s: Seq<char>, after_space: bool)
    requires
        are_single_spaces(s),
        s.len() > 0 ==> !text::is_space(s.first()),
    ensures
        blocks::collapsed(s, after_space) == s,
    decreases s.len(),
{
    if s.len() > 0 {
        let less = s.drop_last();
        assert(are_single_spaces(less)) by {
            assert forall|k: int| 0 <= k < less.len() && text::is_space(
                #[trigger] less[k],
            ) implies less[k] == ' ' by {
                assert(less[k] == s[k]);
            }
            assert forall|k: int, l: int|
                #![trigger less[k], less[l]]
                0 <= k < less.len() && l == k + 1 && l < less.len() implies !(text::is_space(
                less[k],
            ) && text::is_space(less[l])) by {
                assert(less[k] == s[k] && less[l] == s[l]);
            }
        }
        if less.len() > 0 {
            assert(less.first() == s.first());
        }
        lemma_single_spaces_stay(less, after_space);
        let last = s.len() - 1;
        assert(s[last] == s.last());
        if s.len() > 1 {
            assert(!(text::is_space(s[last - 1]) && text::is_space(s[last])));
        }
        assert(less.push(s.last()) =~= s);
    } else {
        assert(s =~= Seq::<char>::empty());
    }
}

// -- The walk ---------------------------------------------------------------

/// The walk over `s` from position `i`.
#[verifier::opaque]
spec fn walk(s: Seq<char>, i: int, w: WalkModel) -> WalkModel {
    blocks::walked_from(s, i, w)
}

/// The walk after a text.
#[verifier::opaque]
spec fn say(w: WalkModel, content: Seq<char>) -> WalkModel {
    blocks::with_text(w, content)
}

/// The walk after an opening tag without attributes.
#[verifier::opaque]
spec fn open_tag(w: WalkModel, name: Seq<char>) -> WalkModel {
    blocks::opened(w, name, name)
}

/// The walk after a closing tag.
#[verifier::opaque]
spec fn close_tag(w: WalkModel, name: Seq<char>) -> WalkModel {
    blocks::closed(w, name)
}

/// The walk after one tag with this inside.
#[verifier::opaque]
spec fn after_tag(w: WalkModel, inside: Seq<char>) -> WalkModel {
    if inside.len() > 0 && inside[0] == '/' {
        blocks::closed(w, blocks::tag_name(inside))
    } else {
        blocks::opened(w, blocks::tag_name(inside), inside)
    }
}

proof fn lemma_step(
    s: Seq<char>,
    before: Seq<char>,
    content: Seq<char>,
    inside: Seq<char>,
    rest: Seq<char>,
    w: WalkModel,
)
    requires
        s == before + content + seq!['<'] + inside + seq!['>'] + rest,
        !content.contains('<'),
        !inside.contains('>'),
        blocks::tag_name(inside) != "svg"@,
    ensures
        walk(s, before.len() as int, w) == walk(
            s,
            (before.len() + content.len() + inside.len() + 2) as int,
            after_tag(say(w, content), inside),
        ),
{
    reveal(walk);
    reveal(say);
    reveal(after_tag);
    let i = before.len() as int;
    let p = i + content.len();
    let q = p + 1 + inside.len();
    assert(s[p] == '<');
    assert forall|k: int| i <= k < p implies s[k] != '<' by {
        assert(s[k] == content[k - i]);
    }
    text::lemma_find_char_from(s, '<', i);
    assert(text::find_char_from(s, '<', i) == Some(p));
    assert(s[q] == '>');
    assert forall|k: int| p <= k < q implies s[k] != '>' by {
        if k > p {
            assert(s[k] == inside[k - p - 1]);
        }
    }
    text::lemma_find_char_from(s, '>', p);
    assert(text::find_char_from(s, '>', p) == Some(q));
    assert(s.subrange(i, p) =~= content);
    assert(s.subrange(p + 1, q) =~= inside);
}

proof fn lemma_walk_ends(s: Seq<char>, w: WalkModel)
    ensures
        walk(s, s.len() as int, w) == w,
{
    reveal(walk);
}

proof fn lemma_nothing_said(w: WalkModel)
    ensures
        say(w, Seq::empty()) == w,
{
    reveal(say);
}

/// True for a tag name of small letters and digits.
spec fn is_small_name(name: Seq<char>) -> bool {
    &&& name.len() > 0
    &&& forall|k: int|
        0 <= k < name.len() ==> 'a' <= #[trigger] name[k] <= 'z' || '1' <= name[k] <= '6'
}

proof fn lemma_name_ends(s: Seq<char>, i: int)
    requires
        0 <= i <= s.len(),
        forall|k: int| i <= k < s.len() ==> !text::is_space(#[trigger] s[k]) && s[k] != '/',
    ensures
        blocks::tag_name_end(s, i) == s.len(),
    decreases s.len() - i,
{
    if i < s.len() {
        lemma_name_ends(s, i + 1);
    }
}

proof fn lemma_small_name(name: Seq<char>)
    requires
        is_small_name(name),
    ensures
        blocks::tag_name(name) == name,
        blocks::tag_name(seq!['/'] + name) == name,
        !name.contains('>'),
        !(seq!['/'] + name).contains('>'),
        name[0] != '/',
{
    let closing = seq!['/'] + name;
    assert(!text::is_space(name[0]) && name[0] != '/');
    assert forall|k: int| 0 <= k < name.len() implies !text::is_space(#[trigger] name[k]) && name[k]
        != '/' && text::lower_char(name[k]) == name[k] by {
        assert('a' <= name[k] <= 'z' || '1' <= name[k] <= '6');
    }
    lemma_name_ends(name, 0);
    assert(name.subrange(0, name.len() as int) =~= name);
    assert(text::lower(name) =~= name);
    assert forall|k: int| 1 <= k < closing.len() implies !text::is_space(#[trigger] closing[k])
        && closing[k] != '/' by {
        assert(closing[k] == name[k - 1]);
    }
    reveal_with_fuel(blocks::skip_slashes, 2);
    assert(closing[1] == name[0]);
    assert(blocks::skip_slashes(closing, 0) == 1);
    lemma_name_ends(closing, 1);
    assert(closing.subrange(1, closing.len() as int) =~= name);
}

proof fn lemma_tags(name: Seq<char>, w: WalkModel)
    requires
        is_small_name(name),
    ensures
        after_tag(w, name) == open_tag(w, name),
        after_tag(w, seq!['/'] + name) == close_tag(w, name),
{
    lemma_small_name(name);
    reveal(after_tag);
    reveal(open_tag);
    reveal(close_tag);
}

/// True for a walk between two blocks, outside every table and style.
spec fn is_between_blocks(w: WalkModel) -> bool {
    &&& w.current.len() == 0
    &&& w.pre_depth == 0
    &&& w.table is None
    &&& w.bold_depth == 0
    &&& w.italic_depth == 0
    &&& w.code_depth == 0
}

proof fn lemma_nothing_to_flush(w: WalkModel)
    requires
        w.current.len() == 0,
    ensures
        blocks::flushed(w).blocks == w.blocks,
{
    assert(w.current =~= Seq::<RunModel>::empty());
    blocks::law_trimmed_runs_hold_the_trimmed_text(w.current);
    let runs = blocks::trimmed_runs(w.current);
    if runs.len() > 0 {
        assert(runs[0].text.len() > 0);
        lemma_some_text(runs);
    }
}

/// Runs of which the first holds text hold text.
proof fn lemma_some_text(runs: Seq<RunModel>)
    requires
        runs.len() > 0,
        runs[0].text.len() > 0,
    ensures
        blocks::plain_text(runs).len() > 0,
    decreases runs.len(),
{
    if runs.len() > 1 {
        lemma_some_text(runs.drop_last());
    }
}

proof fn lemma_one_run_stays(run: RunModel)
    requires
        is_clean(run.text),
    ensures
        blocks::trimmed_runs(seq![run]) == seq![run],
{
    let runs = seq![run];
    assert(text::trim_start(run.text) == run.text);
    assert(text::trim_end(run.text) == run.text);
    assert(blocks::without_blank_start(runs) == runs);
    assert(blocks::without_blank_end(runs) == runs);
    assert(blocks::trimmed_ends(runs) =~= runs);
    reveal_with_fuel(Seq::<_>::filter, 2);
    assert(runs.drop_last() =~= Seq::<RunModel>::empty());
    assert(blocks::non_empty(runs) =~= runs);
}

proof fn lemma_clean_text(w: WalkModel, s: Seq<char>)
    requires
        is_clean(s),
        w.pre_depth == 0,
        w.table is None,
    ensures
        say(w, markup::html_escaped(s)) == (WalkModel {
            current: w.current.push(
                RunModel {
                    text: s,
                    is_bold: w.bold_depth > 0,
                    is_italic: w.italic_depth > 0,
                    is_code: w.code_depth > 0,
                },
            ),
            is_after_space: false,
            ..w
        }),
{
    reveal(say);
    markup::law_decoding_undoes_escaping(s);
    lemma_single_spaces_stay(s, w.is_after_space);
    assert(markup::html_escaped(s).len() > 0) by {
        if markup::html_escaped(s).len() == 0 {
            assert(markup::html_escaped(s) =~= Seq::<char>::empty());
            assert(markup::decoded(Seq::<char>::empty()) =~= Seq::<char>::empty());
        }
    }
}

/// The tags that make a block of the text in them.
pub open spec fn is_text_block(name: Seq<char>) -> bool {
    name == "p"@ || name == "h1"@ || name == "h2"@ || name == "h3"@ || name == "h4"@ || name
        == "h5"@ || name == "h6"@ || name == "blockquote"@
}

proof fn lemma_text_block_names(name: Seq<char>)
    requires
        is_text_block(name) || name == "li"@,
    ensures
        is_small_name(name),
        name != "svg"@,
        name != "strong"@ && name != "b"@ && name != "em"@ && name != "i"@ && name != "code"@,
        name != "br"@ && name != "img"@ && name != "pre"@ && name != "ul"@ && name != "ol"@,
        name != "table"@ && name != "tr"@ && name != "td"@ && name != "th"@ && name != "hr"@,
{
    reveal_strlit("p");
    assert("p"@[0] == 'p' && "p"@[0] == 'p');
    reveal_strlit("h1");
    assert("h1"@[0] == 'h' && "h1"@[1] == '1');
    reveal_strlit("h2");
    assert("h2"@[0] == 'h' && "h2"@[1] == '2');
    reveal_strlit("h3");
    assert("h3"@[0] == 'h' && "h3"@[1] == '3');
    reveal_strlit("h4");
    assert("h4"@[0] == 'h' && "h4"@[1] == '4');
    reveal_strlit("h5");
    assert("h5"@[0] == 'h' && "h5"@[1] == '5');
    reveal_strlit("h6");
    assert("h6"@[0] == 'h' && "h6"@[1] == '6');
    reveal_strlit("blockquote");
    assert("blockquote"@[0] == 'b' && "blockquote"@[9] == 'e');
    reveal_strlit("li");
    assert("li"@[0] == 'l' && "li"@[1] == 'i');
    reveal_strlit("svg");
    assert("svg"@[0] == 's' && "svg"@[2] == 'g');
    reveal_strlit("strong");
    assert("strong"@[0] == 's' && "strong"@[5] == 'g');
    reveal_strlit("b");
    assert("b"@[0] == 'b' && "b"@[0] == 'b');
    reveal_strlit("em");
    assert("em"@[0] == 'e' && "em"@[1] == 'm');
    reveal_strlit("i");
    assert("i"@[0] == 'i' && "i"@[0] == 'i');
    reveal_strlit("code");
    assert("code"@[0] == 'c' && "code"@[3] == 'e');
    reveal_strlit("br");
    assert("br"@[0] == 'b' && "br"@[1] == 'r');
    reveal_strlit("img");
    assert("img"@[0] == 'i' && "img"@[2] == 'g');
    reveal_strlit("pre");
    assert("pre"@[0] == 'p' && "pre"@[2] == 'e');
    reveal_strlit("ul");
    assert("ul"@[0] == 'u' && "ul"@[1] == 'l');
    reveal_strlit("ol");
    assert("ol"@[0] == 'o' && "ol"@[1] == 'l');
    reveal_strlit("table");
    assert("table"@[0] == 't' && "table"@[4] == 'e');
    reveal_strlit("tr");
    assert("tr"@[0] == 't' && "tr"@[1] == 'r');
    reveal_strlit("td");
    assert("td"@[0] == 't' && "td"@[1] == 'd');
    reveal_strlit("th");
    assert("th"@[0] == 't' && "th"@[1] == 'h');
    reveal_strlit("hr");
    assert("hr"@[0] == 'h' && "hr"@[1] == 'r');
}

proof fn lemma_text_blocks(name: Seq<char>, w: WalkModel)
    requires
        is_text_block(name) || name == "li"@,
    ensures
        is_small_name(name),
        name != "svg"@,
        open_tag(w, name) == blocks::block_opened(w, name),
        close_tag(w, name) == (WalkModel { kind: None, ..blocks::flushed(w) }),
{
    reveal(open_tag);
    reveal(close_tag);
    lemma_text_block_names(name);
}

/// What each of the tags makes.
proof fn lemma_kinds()
    ensures
        blocks::kind_of("p"@) == Some(blocks::BlockKind::Paragraph),
        blocks::kind_of("blockquote"@) == Some(blocks::BlockKind::Quote),
        blocks::kind_of("h1"@) == Some(blocks::BlockKind::Heading(1)),
        blocks::kind_of("h2"@) == Some(blocks::BlockKind::Heading(2)),
        blocks::kind_of("h3"@) == Some(blocks::BlockKind::Heading(3)),
        blocks::kind_of("h4"@) == Some(blocks::BlockKind::Heading(4)),
        blocks::kind_of("h5"@) == Some(blocks::BlockKind::Heading(5)),
        blocks::kind_of("h6"@) == Some(blocks::BlockKind::Heading(6)),
        "p"@ != "li"@ && "blockquote"@ != "li"@ && "h1"@ != "li"@ && "h2"@ != "li"@,
        "h3"@ != "li"@ && "h4"@ != "li"@ && "h5"@ != "li"@ && "h6"@ != "li"@,
{
    reveal_strlit("p");
    assert("p"@[0] == 'p' && "p"@[0] == 'p');
    reveal_strlit("h1");
    assert("h1"@[0] == 'h' && "h1"@[1] == '1');
    reveal_strlit("h2");
    assert("h2"@[0] == 'h' && "h2"@[1] == '2');
    reveal_strlit("h3");
    assert("h3"@[0] == 'h' && "h3"@[1] == '3');
    reveal_strlit("h4");
    assert("h4"@[0] == 'h' && "h4"@[1] == '4');
    reveal_strlit("h5");
    assert("h5"@[0] == 'h' && "h5"@[1] == '5');
    reveal_strlit("h6");
    assert("h6"@[0] == 'h' && "h6"@[1] == '6');
    reveal_strlit("blockquote");
    assert("blockquote"@[0] == 'b' && "blockquote"@[9] == 'e');
    reveal_strlit("li");
    assert("li"@[0] == 'l' && "li"@[1] == 'i');
}

/// What a tag with a text in it is written as.
pub open spec fn tagged(name: Seq<char>, content: Seq<char>) -> Seq<char> {
    seq!['<'] + name + seq!['>'] + content + seq!['<', '/'] + name + seq!['>']
}

proof fn lemma_tagged_shape(before: Seq<char>, name: Seq<char>, content: Seq<char>, rest: Seq<char>)
    ensures
        ({
            let s = before + tagged(name, content) + rest;
            let none = Seq::<char>::empty();
            let closing = seq!['/'] + name;
            let tail = content + seq!['<'] + closing + seq!['>'] + rest;
            let head = before + seq!['<'] + name + seq!['>'];
            &&& s == before + none + seq!['<'] + name + seq!['>'] + tail
            &&& s == head + content + seq!['<'] + closing + seq!['>'] + rest
        }),
{
    let s = before + tagged(name, content) + rest;
    let none = Seq::<char>::empty();
    let closing = seq!['/'] + name;
    let tail = content + seq!['<'] + closing + seq!['>'] + rest;
    let head = before + seq!['<'] + name + seq!['>'];
    assert(seq!['<', '/'] + name =~= seq!['<'] + closing);
    assert(s =~= before + none + seq!['<'] + name + seq!['>'] + tail);
    assert(s =~= head + content + seq!['<'] + closing + seq!['>'] + rest);
}

/// The walk over one tag with a text in it.
proof fn lemma_tagged(
    s: Seq<char>,
    before: Seq<char>,
    name: Seq<char>,
    content: Seq<char>,
    rest: Seq<char>,
    w: WalkModel,
)
    requires
        s == before + tagged(name, content) + rest,
        is_small_name(name),
        name != "svg"@,
        !content.contains('<'),
    ensures
        walk(s, before.len() as int, w) == walk(
            s,
            (before.len() + tagged(name, content).len()) as int,
            close_tag(say(open_tag(w, name), content), name),
        ),
{
    let none = Seq::<char>::empty();
    let closing = seq!['/'] + name;
    let tail = content + seq!['<'] + closing + seq!['>'] + rest;
    let head = before + seq!['<'] + name + seq!['>'];
    lemma_small_name(name);
    lemma_tagged_shape(before, name, content, rest);
    lemma_step(s, before, none, name, tail, w);
    lemma_nothing_said(w);
    lemma_tags(name, w);
    let open = open_tag(w, name);
    lemma_step(s, head, content, closing, rest, open);
    lemma_tags(name, say(open, content));
}

proof fn lemma_finished(w: WalkModel)
    requires
        is_between_blocks(w),
    ensures
        blocks::finished(w).blocks == w.blocks,
{
    lemma_nothing_to_flush(w);
}

proof fn lemma_blocks_of(html: Seq<char>, end: WalkModel)
    requires
        walk(html, 0, blocks::walk_start()) == walk(html, html.len() as int, end),
        is_between_blocks(end),
    ensures
        blocks::blocks_in(html) == end.blocks,
{
    lemma_walk_ends(html, end);
    lemma_finished(end);
    reveal(walk);
}

proof fn lemma_one_block(w: WalkModel, name: Seq<char>, s: Seq<char>) -> (end: WalkModel)
    requires
        is_text_block(name) || name == "li"@,
        is_clean(s),
        is_between_blocks(w),
    ensures
        end == close_tag(say(open_tag(w, name), markup::html_escaped(s)), name),
        is_between_blocks(end),
        ({
            let open = blocks::block_opened(w, name);
            end.blocks == w.blocks.push(
                blocks::block_for(open.kind, open.item_number, seq![blocks::plain_run(s)]),
            ) && end.lists == open.lists
        }),
{
    lemma_text_blocks(name, w);
    lemma_nothing_to_flush(w);
    let open = blocks::block_opened(w, name);
    lemma_clean_text(open, s);
    let full = say(open, markup::html_escaped(s));
    lemma_text_blocks(name, full);
    let run = blocks::plain_run(s);
    assert(full.current =~= seq![run]);
    lemma_one_run_stays(run);
    close_tag(full, name)
}

proof fn lemma_escaped_has_no_tag(s: Seq<char>)
    ensures
        !markup::html_escaped(s).contains('<'),
{
    markup::law_escaped_text_is_inert(s);
    let e = markup::html_escaped(s);
    if e.contains('<') {
        let k = choose|k: int| 0 <= k < e.len() && e[k] == '<';
        assert(e[k] == '<');
    }
}

proof fn lemma_single_block(name: Seq<char>, s: Seq<char>)
    requires
        is_text_block(name),
        name != "li"@,
        is_clean(s),
    ensures
        blocks::blocks_in(tagged(name, markup::html_escaped(s))) == seq![
            blocks::block_for(blocks::kind_of(name), None, seq![blocks::plain_run(s)]),
        ],
{
    let w = blocks::walk_start();
    let content = markup::html_escaped(s);
    let none = Seq::<char>::empty();
    let html = tagged(name, content);
    lemma_escaped_has_no_tag(s);
    lemma_text_blocks(name, w);
    assert(none + html + none =~= html);
    lemma_tagged(html, none, name, content, none, w);
    let end = lemma_one_block(w, name, s);
    lemma_blocks_of(html, end);
    assert(end.blocks =~= seq![
        blocks::block_for(blocks::kind_of(name), None, seq![blocks::plain_run(s)]),
    ]);
}

/// A paragraph, a quote and a heading of each level read as what they are,
/// with their text, whatever it is.
pub proof fn law_a_text_block_reads_as_written(s: Seq<char>)
    requires
        is_clean(s),
    ensures
        ({
            let content = markup::html_escaped(s);
            let runs = seq![blocks::plain_run(s)];
            &&& blocks::blocks_in(tagged("p"@, content)) == seq![BlockModel::Paragraph(runs)]
            &&& blocks::blocks_in(tagged("blockquote"@, content)) == seq![BlockModel::Quote(runs)]
            &&& blocks::blocks_in(tagged("h1"@, content)) == seq![BlockModel::Heading(1, runs)]
            &&& blocks::blocks_in(tagged("h2"@, content)) == seq![BlockModel::Heading(2, runs)]
            &&& blocks::blocks_in(tagged("h3"@, content)) == seq![BlockModel::Heading(3, runs)]
            &&& blocks::blocks_in(tagged("h4"@, content)) == seq![BlockModel::Heading(4, runs)]
            &&& blocks::blocks_in(tagged("h5"@, content)) == seq![BlockModel::Heading(5, runs)]
            &&& blocks::blocks_in(tagged("h6"@, content)) == seq![BlockModel::Heading(6, runs)]
        }),
{
    lemma_kinds();
    lemma_single_block("p"@, s);
    lemma_single_block("blockquote"@, s);
    lemma_single_block("h1"@, s);
    lemma_single_block("h2"@, s);
    lemma_single_block("h3"@, s);
    lemma_single_block("h4"@, s);
    lemma_single_block("h5"@, s);
    lemma_single_block("h6"@, s);
}

// -- Lists ------------------------------------------------------------------

/// List items with these texts, one behind the other.
pub open spec fn items_html(items: Seq<Seq<char>>) -> Seq<char>
    decreases items.len(),
{
    if items.len() == 0 {
        Seq::empty()
    } else {
        items_html(items.drop_last()) + tagged("li"@, markup::html_escaped(items.last()))
    }
}

/// The blocks of list items with these texts, numbered from `first` in an
/// ordered list.
pub open spec fn item_blocks(items: Seq<Seq<char>>, first: Option<int>) -> Seq<BlockModel> {
    Seq::new(
        items.len(),
        |k: int|
            BlockModel::ListItem(
                match first {
                    Some(n) => Some(n + k),
                    None => None,
                },
                seq![blocks::plain_run(items[k])],
            ),
    )
}

proof fn lemma_items(
    before: Seq<char>,
    items: Seq<Seq<char>>,
    rest: Seq<char>,
    w: WalkModel,
) -> (end: WalkModel)
    requires
        is_between_blocks(w),
        w.lists.len() == 1,
        forall|k: int| 0 <= k < items.len() ==> is_clean(#[trigger] items[k]),
    ensures
        is_between_blocks(end),
        end.blocks == w.blocks + item_blocks(items, w.lists[0]),
        end.lists == seq![
            match w.lists[0] {
                Some(n) => Some(n + items.len()),
                None => None,
            },
        ],
        ({
            let s = before + items_html(items) + rest;
            walk(s, before.len() as int, w) == walk(
                s,
                (before.len() + items_html(items).len()) as int,
                end,
            )
        }),
    decreases items.len(),
{
    if items.len() == 0 {
        assert(w.blocks + item_blocks(items, w.lists[0]) =~= w.blocks);
        assert(w.lists =~= seq![
            match w.lists[0] {
                Some(n) => Some(n + 0),
                None => None,
            },
        ]);
        w
    } else {
        let less = items.drop_last();
        let last = items.last();
        let content = markup::html_escaped(last);
        let item = tagged("li"@, content);
        assert forall|k: int| 0 <= k < less.len() implies is_clean(#[trigger] less[k]) by {
            assert(less[k] == items[k]);
        }
        let s = before + items_html(items) + rest;
        assert(s =~= before + items_html(less) + (item + rest));
        let middle = lemma_items(before, less, item + rest, w);
        let head = before + items_html(less);
        assert(s =~= head + item + rest);
        assert(is_clean(items[items.len() - 1]));
        lemma_escaped_has_no_tag(last);
        lemma_text_blocks("li"@, middle);
        lemma_tagged(s, head, "li"@, content, rest, middle);
        let end = lemma_one_block(middle, "li"@, last);
        let open = blocks::block_opened(middle, "li"@);
        assert(open.item_number == middle.lists.last());
        let first = w.lists[0];
        assert(end.blocks =~= w.blocks + item_blocks(items, first)) by {
            assert(item_blocks(less, first) =~= item_blocks(items, first).drop_last());
        }
        assert(end.lists =~= seq![
            match w.lists[0] {
                Some(n) => Some(n + items.len()),
                None => None,
            },
        ]);
        end
    }
}

proof fn lemma_list_tags(name: Seq<char>, w: WalkModel)
    requires
        name == "ol"@ || name == "ul"@,
    ensures
        is_small_name(name),
        name != "svg"@,
        open_tag(w, name) == (WalkModel {
            lists: w.lists.push(
                if name == "ol"@ {
                    Some(1int)
                } else {
                    None
                },
            ),
            ..w
        }),
        close_tag(w, name) == (WalkModel {
            lists: if w.lists.len() > 0 {
                w.lists.drop_last()
            } else {
                w.lists
            },
            ..blocks::flushed(w)
        }),
{
    reveal(open_tag);
    reveal(close_tag);
    reveal_strlit("svg");
    assert("svg"@[0] == 's' && "svg"@[2] == 'g');
    reveal_strlit("strong");
    assert("strong"@[0] == 's' && "strong"@[5] == 'g');
    reveal_strlit("b");
    assert("b"@[0] == 'b' && "b"@[0] == 'b');
    reveal_strlit("em");
    assert("em"@[0] == 'e' && "em"@[1] == 'm');
    reveal_strlit("i");
    assert("i"@[0] == 'i' && "i"@[0] == 'i');
    reveal_strlit("code");
    assert("code"@[0] == 'c' && "code"@[3] == 'e');
    reveal_strlit("br");
    assert("br"@[0] == 'b' && "br"@[1] == 'r');
    reveal_strlit("img");
    assert("img"@[0] == 'i' && "img"@[2] == 'g');
    reveal_strlit("pre");
    assert("pre"@[0] == 'p' && "pre"@[2] == 'e');
    reveal_strlit("ul");
    assert("ul"@[0] == 'u' && "ul"@[1] == 'l');
    reveal_strlit("ol");
    assert("ol"@[0] == 'o' && "ol"@[1] == 'l');
}

/// The items of a list read as list items in order: numbered from one in an
/// ordered list, and without a number in another.
pub proof fn law_a_list_reads_item_by_item(items: Seq<Seq<char>>)
    requires
        forall|k: int| 0 <= k < items.len() ==> is_clean(#[trigger] items[k]),
    ensures
        blocks::blocks_in(tagged("ol"@, items_html(items))) == item_blocks(items, Some(1)),
        blocks::blocks_in(tagged("ul"@, items_html(items))) == item_blocks(items, None),
{
    reveal_strlit("ol");
    reveal_strlit("ul");
    assert("ol"@[0] == 'o' && "ul"@[0] == 'u');
    lemma_list("ol"@, items);
    lemma_list("ul"@, items);
}

proof fn lemma_list(name: Seq<char>, items: Seq<Seq<char>>)
    requires
        name == "ol"@ || name == "ul"@,
        forall|k: int| 0 <= k < items.len() ==> is_clean(#[trigger] items[k]),
    ensures
        blocks::blocks_in(tagged(name, items_html(items))) == item_blocks(
            items,
            if name == "ol"@ {
                Some(1int)
            } else {
                None
            },
        ),
{
    let w = blocks::walk_start();
    let none = Seq::<char>::empty();
    let inner = items_html(items);
    let html = tagged(name, inner);
    lemma_list_tags(name, w);
    lemma_small_name(name);
    let open = open_tag(w, name);
    let closing = seq!['/'] + name;
    let head = seq!['<'] + name + seq!['>'];
    let tail = seq!['<'] + closing + seq!['>'];
    lemma_outer_shape(name, inner);
    lemma_step(html, none, none, name, inner + tail, w);
    lemma_nothing_said(w);
    lemma_tags(name, w);
    let first = if name == "ol"@ {
        Some(1int)
    } else {
        None
    };
    assert(open.lists =~= seq![first]);
    let end = lemma_items(head, items, tail, open);
    lemma_step(html, head + inner, none, closing, none, end);
    lemma_nothing_said(end);
    lemma_tags(name, end);
    lemma_list_tags(name, end);
    lemma_nothing_to_flush(end);
    lemma_blocks_of(html, close_tag(end, name));
    assert(blocks::blocks_in(html) =~= item_blocks(items, first));
}

proof fn lemma_outer_shape(name: Seq<char>, inner: Seq<char>)
    ensures
        ({
            let html = tagged(name, inner);
            let none = Seq::<char>::empty();
            let closing = seq!['/'] + name;
            let head = seq!['<'] + name + seq!['>'];
            let tail = seq!['<'] + closing + seq!['>'];
            &&& html == none + none + seq!['<'] + name + seq!['>'] + (inner + tail)
            &&& html == head + inner + tail
            &&& html == (head + inner) + none + seq!['<'] + closing + seq!['>'] + none
        }),
{
    let html = tagged(name, inner);
    let none = Seq::<char>::empty();
    let closing = seq!['/'] + name;
    let head = seq!['<'] + name + seq!['>'];
    let tail = seq!['<'] + closing + seq!['>'];
    assert(seq!['<', '/'] + name =~= seq!['<'] + closing);
    assert(html =~= head + inner + tail);
    assert(html =~= none + none + seq!['<'] + name + seq!['>'] + (inner + tail));
    assert(html =~= (head + inner) + none + seq!['<'] + closing + seq!['>'] + none);
}

// -- Inline style -----------------------------------------------------------

/// The tags that style the text in them.
pub open spec fn is_style_tag(name: Seq<char>) -> bool {
    name == "b"@ || name == "strong"@ || name == "i"@ || name == "em"@ || name == "code"@
}

proof fn lemma_style_tags(name: Seq<char>, w: WalkModel)
    requires
        is_style_tag(name),
        w.pre_depth == 0,
    ensures
        is_small_name(name),
        name != "svg"@,
        ({
            let open = open_tag(w, name);
            &&& open == (WalkModel {
                bold_depth: open.bold_depth,
                italic_depth: open.italic_depth,
                code_depth: open.code_depth,
                ..w
            })
            &&& open.bold_depth == w.bold_depth + if name == "b"@ || name == "strong"@ {
                1int
            } else {
                0
            }
            &&& open.italic_depth == w.italic_depth + if name == "i"@ || name == "em"@ {
                1int
            } else {
                0
            }
            &&& open.code_depth == w.code_depth + if name == "code"@ {
                1int
            } else {
                0
            }
        }),
        ({
            let shut = close_tag(w, name);
            &&& shut == (WalkModel {
                bold_depth: shut.bold_depth,
                italic_depth: shut.italic_depth,
                code_depth: shut.code_depth,
                ..w
            })
            &&& name == "b"@ || name == "strong"@ ==> shut.bold_depth == blocks::less_one(
                w.bold_depth,
            ) && shut.italic_depth == w.italic_depth && shut.code_depth == w.code_depth
            &&& name == "i"@ || name == "em"@ ==> shut.italic_depth == blocks::less_one(
                w.italic_depth,
            ) && shut.bold_depth == w.bold_depth && shut.code_depth == w.code_depth
            &&& name == "code"@ ==> shut.code_depth == blocks::less_one(w.code_depth)
                && shut.bold_depth == w.bold_depth && shut.italic_depth == w.italic_depth
        }),
{
    reveal(open_tag);
    reveal(close_tag);
    reveal_strlit("svg");
    assert("svg"@[0] == 's' && "svg"@[2] == 'g');
    reveal_strlit("strong");
    assert("strong"@[0] == 's' && "strong"@[5] == 'g');
    reveal_strlit("b");
    assert("b"@[0] == 'b' && "b"@[0] == 'b');
    reveal_strlit("em");
    assert("em"@[0] == 'e' && "em"@[1] == 'm');
    reveal_strlit("i");
    assert("i"@[0] == 'i' && "i"@[0] == 'i');
    reveal_strlit("code");
    assert("code"@[0] == 'c' && "code"@[3] == 'e');
}

/// A styled text in a paragraph reads as one run with that style and no
/// other: bold, italic, or code.
pub proof fn law_a_style_tag_styles_its_text(name: Seq<char>, s: Seq<char>)
    requires
        is_style_tag(name),
        is_clean(s),
    ensures
        blocks::blocks_in(tagged("p"@, tagged(name, markup::html_escaped(s)))) == seq![
            BlockModel::Paragraph(
                seq![
                    RunModel {
                        text: s,
                        is_bold: name == "b"@ || name == "strong"@,
                        is_italic: name == "i"@ || name == "em"@,
                        is_code: name == "code"@,
                    },
                ],
            ),
        ],
{
    let w = blocks::walk_start();
    let none = Seq::<char>::empty();
    let p = "p"@;
    let content = markup::html_escaped(s);
    let inner = tagged(name, content);
    let html = tagged(p, inner);
    lemma_escaped_has_no_tag(s);
    lemma_text_blocks(p, w);
    lemma_small_name(p);
    lemma_kinds();
    let head = seq!['<'] + p + seq!['>'];
    let closing = seq!['/'] + p;
    let tail = seq!['<'] + closing + seq!['>'];
    lemma_outer_shape(p, inner);
    lemma_step(html, none, none, p, inner + tail, w);
    lemma_nothing_said(w);
    lemma_tags(p, w);
    lemma_nothing_to_flush(w);
    let open = open_tag(w, p);
    lemma_style_tags(name, open);
    lemma_tagged(html, head, name, content, tail, open);
    let run = RunModel {
        text: s,
        is_bold: name == "b"@ || name == "strong"@,
        is_italic: name == "i"@ || name == "em"@,
        is_code: name == "code"@,
    };
    let plain = lemma_styled_text(open, name, s);
    lemma_step(html, head + inner, none, closing, none, plain);
    lemma_nothing_said(plain);
    lemma_tags(p, plain);
    lemma_text_blocks(p, plain);
    lemma_one_run_stays(run);
    let end = close_tag(plain, p);
    lemma_blocks_of(html, end);
    assert(end.blocks =~= seq![BlockModel::Paragraph(seq![run])]);
}

proof fn lemma_styled_text(open: WalkModel, name: Seq<char>, s: Seq<char>) -> (plain: WalkModel)
    requires
        is_style_tag(name),
        is_clean(s),
        is_between_blocks(open),
    ensures
        plain == close_tag(say(open_tag(open, name), markup::html_escaped(s)), name),
        plain == (WalkModel {
            current: seq![
                RunModel {
                    text: s,
                    is_bold: name == "b"@ || name == "strong"@,
                    is_italic: name == "i"@ || name == "em"@,
                    is_code: name == "code"@,
                },
            ],
            is_after_space: false,
            ..open
        }),
{
    lemma_style_names(name);
    lemma_style_tags(name, open);
    let styled = open_tag(open, name);
    lemma_clean_text(styled, s);
    let full = say(styled, markup::html_escaped(s));
    lemma_style_tags(name, full);
    let run = RunModel {
        text: s,
        is_bold: name == "b"@ || name == "strong"@,
        is_italic: name == "i"@ || name == "em"@,
        is_code: name == "code"@,
    };
    assert(full.current =~= seq![run]);
    close_tag(full, name)
}

/// No two kinds of style have one tag.
proof fn lemma_style_names(name: Seq<char>)
    requires
        is_style_tag(name),
    ensures
        name == "b"@ || name == "strong"@ ==> name != "i"@ && name != "em"@ && name != "code"@,
        name == "i"@ || name == "em"@ ==> name != "b"@ && name != "strong"@ && name != "code"@,
{
    reveal_strlit("strong");
    assert("strong"@[0] == 's' && "strong"@[5] == 'g');
    reveal_strlit("b");
    assert("b"@[0] == 'b' && "b"@[0] == 'b');
    reveal_strlit("em");
    assert("em"@[0] == 'e' && "em"@[1] == 'm');
    reveal_strlit("i");
    assert("i"@[0] == 'i' && "i"@[0] == 'i');
    reveal_strlit("code");
    assert("code"@[0] == 'c' && "code"@[3] == 'e');
}

// -- Code -------------------------------------------------------------------

proof fn lemma_code_tag(w: WalkModel)
    ensures
        is_small_name("pre"@),
        "pre"@ != "svg"@,
        open_tag(w, "pre"@) == ({
            let f = blocks::flushed(w);
            WalkModel { pre_depth: f.pre_depth + 1, ..f }
        }),
        close_tag(w, "pre"@) == blocks::pre_closed(w),
{
    reveal(open_tag);
    reveal(close_tag);
    reveal_strlit("svg");
    assert("svg"@[0] == 's' && "svg"@[2] == 'g');
    reveal_strlit("strong");
    assert("strong"@[0] == 's' && "strong"@[5] == 'g');
    reveal_strlit("b");
    assert("b"@[0] == 'b' && "b"@[0] == 'b');
    reveal_strlit("em");
    assert("em"@[0] == 'e' && "em"@[1] == 'm');
    reveal_strlit("i");
    assert("i"@[0] == 'i' && "i"@[0] == 'i');
    reveal_strlit("code");
    assert("code"@[0] == 'c' && "code"@[3] == 'e');
    reveal_strlit("br");
    assert("br"@[0] == 'b' && "br"@[1] == 'r');
    reveal_strlit("img");
    assert("img"@[0] == 'i' && "img"@[2] == 'g');
    reveal_strlit("pre");
    assert("pre"@[0] == 'p' && "pre"@[2] == 'e');
}

/// Preformatted text reads as code, with every space and newline in it kept.
pub proof fn law_preformatted_text_reads_as_code(s: Seq<char>)
    requires
        blocks::is_code_text(s),
    ensures
        blocks::blocks_in(tagged("pre"@, markup::html_escaped(s))) == seq![BlockModel::Code(s)],
{
    let w = blocks::walk_start();
    let none = Seq::<char>::empty();
    let content = markup::html_escaped(s);
    let html = tagged("pre"@, content);
    lemma_escaped_has_no_tag(s);
    lemma_code_tag(w);
    lemma_nothing_to_flush(w);
    assert(none + html + none =~= html);
    lemma_tagged(html, none, "pre"@, content, none, w);
    let open = open_tag(w, "pre"@);
    let full = say(open, content);
    assert(full == (WalkModel { code: s, ..open })) by {
        reveal(say);
        markup::law_decoding_undoes_escaping(s);
        if content.len() == 0 {
            assert(content =~= none);
            assert(markup::decoded(none) =~= none);
        }
        assert(open.code + s =~= s);
    }
    lemma_code_tag(full);
    assert(blocks::without_newlines(s) == s);
    let end = close_tag(full, "pre"@);
    assert(is_between_blocks(end));
    lemma_blocks_of(html, end);
    assert(end.blocks =~= seq![BlockModel::Code(s)]);
}

// -- Tables -----------------------------------------------------------------

/// Table cells with these texts, one behind the other.
pub open spec fn cells_html(name: Seq<char>, cells: Seq<Seq<char>>) -> Seq<char>
    decreases cells.len(),
{
    if cells.len() == 0 {
        Seq::empty()
    } else {
        cells_html(name, cells.drop_last()) + tagged(name, markup::html_escaped(cells.last()))
    }
}

/// The tag of the cells in row `k`.
pub open spec fn cell_name(has_header: bool, k: int) -> Seq<char> {
    if has_header && k == 0 {
        "th"@
    } else {
        "td"@
    }
}

/// Table rows with these cells, one below the other.
pub open spec fn rows_html(rows: Seq<Seq<Seq<char>>>, has_header: bool) -> Seq<char>
    decreases rows.len(),
{
    if rows.len() == 0 {
        Seq::empty()
    } else {
        rows_html(rows.drop_last(), has_header) + tagged(
            "tr"@,
            cells_html(cell_name(has_header, rows.len() - 1), rows.last()),
        )
    }
}

/// A row of cells with these texts.
pub open spec fn row_runs(cells: Seq<Seq<char>>) -> Seq<Seq<RunModel>> {
    cells.map_values(|cell: Seq<char>| seq![blocks::plain_run(cell)])
}

/// True when every cell holds a clean text.
pub open spec fn are_clean(cells: Seq<Seq<char>>) -> bool {
    forall|k: int| 0 <= k < cells.len() ==> is_clean(#[trigger] cells[k])
}

/// True for a walk between the cells of a table with these rows.
spec fn is_in_table(
    w: WalkModel,
    earlier: Seq<BlockModel>,
    has_header: bool,
    rows: Seq<Seq<Seq<RunModel>>>,
) -> bool {
    &&& w.blocks == earlier
    &&& w.current.len() == 0
    &&& w.pre_depth == 0
    &&& w.bold_depth == 0
    &&& w.italic_depth == 0
    &&& w.code_depth == 0
    &&& w.table == Some(blocks::TableModel { has_header, rows, cell: None })
}

proof fn lemma_table_tags(w: WalkModel)
    ensures
        is_small_name("table"@) && is_small_name("tr"@) && is_small_name("td"@) && is_small_name(
            "th"@,
        ),
        "table"@ != "svg"@ && "tr"@ != "svg"@ && "td"@ != "svg"@ && "th"@ != "svg"@,
        "td"@ != "th"@,
        open_tag(w, "table"@) == (WalkModel {
            table: Some(
                blocks::TableModel { has_header: false, rows: Seq::empty(), cell: None },
            ),
            ..blocks::flushed(w)
        }),
        close_tag(w, "table"@) == blocks::table_closed(w),
        open_tag(w, "tr"@) == (match w.table {
            Some(table) => WalkModel {
                table: Some(
                    blocks::TableModel { rows: table.rows.push(Seq::empty()), ..table },
                ),
                ..w
            },
            None => w,
        }),
        close_tag(w, "tr"@) == w,
        open_tag(w, "td"@) == blocks::cell_opened(w, false),
        open_tag(w, "th"@) == blocks::cell_opened(w, true),
        close_tag(w, "td"@) == blocks::cell_closed(w),
        close_tag(w, "th"@) == blocks::cell_closed(w),
{
    reveal(open_tag);
    reveal(close_tag);
    lemma_table_names();
}

proof fn lemma_table_names()
    ensures
        is_small_name("table"@) && is_small_name("tr"@) && is_small_name("td"@) && is_small_name(
            "th"@,
        ),
        "table"@ != "svg"@ && "tr"@ != "svg"@ && "td"@ != "svg"@ && "th"@ != "svg"@,
        is_no_other("table"@) && is_no_other("tr"@) && is_no_other("td"@) && is_no_other("th"@),
        "table"@ != "tr"@ && "table"@ != "td"@ && "table"@ != "th"@,
        "tr"@ != "td"@ && "tr"@ != "th"@ && "td"@ != "th"@,
        !blocks::is_block_tag("tr"@),
{
    reveal_strlit("svg");
    assert("svg"@[0] == 's' && "svg"@[2] == 'g');
    reveal_strlit("strong");
    assert("strong"@[0] == 's' && "strong"@[5] == 'g');
    reveal_strlit("b");
    assert("b"@[0] == 'b' && "b"@[0] == 'b');
    reveal_strlit("em");
    assert("em"@[0] == 'e' && "em"@[1] == 'm');
    reveal_strlit("i");
    assert("i"@[0] == 'i' && "i"@[0] == 'i');
    reveal_strlit("code");
    assert("code"@[0] == 'c' && "code"@[3] == 'e');
    reveal_strlit("br");
    assert("br"@[0] == 'b' && "br"@[1] == 'r');
    reveal_strlit("img");
    assert("img"@[0] == 'i' && "img"@[2] == 'g');
    reveal_strlit("pre");
    assert("pre"@[0] == 'p' && "pre"@[2] == 'e');
    reveal_strlit("ul");
    assert("ul"@[0] == 'u' && "ul"@[1] == 'l');
    reveal_strlit("ol");
    assert("ol"@[0] == 'o' && "ol"@[1] == 'l');
    reveal_strlit("table");
    assert("table"@[0] == 't' && "table"@[4] == 'e');
    reveal_strlit("tr");
    assert("tr"@[0] == 't' && "tr"@[1] == 'r');
    reveal_strlit("td");
    assert("td"@[0] == 't' && "td"@[1] == 'd');
    reveal_strlit("th");
    assert("th"@[0] == 't' && "th"@[1] == 'h');
    reveal_strlit("address");
    assert("address"@[0] == 'a' && "address"@[6] == 's');
    reveal_strlit("article");
    assert("article"@[0] == 'a' && "article"@[6] == 'e');
    reveal_strlit("aside");
    assert("aside"@[0] == 'a' && "aside"@[4] == 'e');
    reveal_strlit("blockquote");
    assert("blockquote"@[0] == 'b' && "blockquote"@[9] == 'e');
    reveal_strlit("div");
    assert("div"@[0] == 'd' && "div"@[2] == 'v');
    reveal_strlit("dd");
    assert("dd"@[0] == 'd' && "dd"@[1] == 'd');
    reveal_strlit("dt");
    assert("dt"@[0] == 'd' && "dt"@[1] == 't');
    reveal_strlit("figcaption");
    assert("figcaption"@[0] == 'f' && "figcaption"@[9] == 'n');
    reveal_strlit("figure");
    assert("figure"@[0] == 'f' && "figure"@[5] == 'e');
    reveal_strlit("footer");
    assert("footer"@[0] == 'f' && "footer"@[5] == 'r');
    reveal_strlit("h1");
    assert("h1"@[0] == 'h' && "h1"@[1] == '1');
    reveal_strlit("h2");
    assert("h2"@[0] == 'h' && "h2"@[1] == '2');
    reveal_strlit("h3");
    assert("h3"@[0] == 'h' && "h3"@[1] == '3');
    reveal_strlit("h4");
    assert("h4"@[0] == 'h' && "h4"@[1] == '4');
    reveal_strlit("h5");
    assert("h5"@[0] == 'h' && "h5"@[1] == '5');
    reveal_strlit("h6");
    assert("h6"@[0] == 'h' && "h6"@[1] == '6');
    reveal_strlit("header");
    assert("header"@[0] == 'h' && "header"@[5] == 'r');
    reveal_strlit("li");
    assert("li"@[0] == 'l' && "li"@[1] == 'i');
    reveal_strlit("p");
    assert("p"@[0] == 'p' && "p"@[0] == 'p');
    reveal_strlit("section");
    assert("section"@[0] == 's' && "section"@[6] == 'n');
}

/// True for a name of none of the tags outside tables.
spec fn is_no_other(name: Seq<char>) -> bool {
    &&& name != "strong"@ && name != "b"@ && name != "em"@ && name != "i"@ && name != "code"@
    &&& name != "br"@ && name != "img"@ && name != "pre"@ && name != "ul"@ && name != "ol"@
}

proof fn lemma_cell_text(w: WalkModel, table: blocks::TableModel, cell: Seq<RunModel>, s: Seq<char>)
    requires
        is_clean(s),
        w.pre_depth == 0,
        w.bold_depth == 0,
        w.italic_depth == 0,
        w.code_depth == 0,
        w.table == Some(table),
        table.cell == Some(cell),
    ensures
        say(w, markup::html_escaped(s)) == (WalkModel {
            table: Some(
                blocks::TableModel { cell: Some(cell.push(blocks::plain_run(s))), ..table },
            ),
            is_after_space: false,
            ..w
        }),
{
    reveal(say);
    markup::law_decoding_undoes_escaping(s);
    lemma_single_spaces_stay(s, w.is_after_space);
    assert(markup::html_escaped(s).len() > 0) by {
        if markup::html_escaped(s).len() == 0 {
            assert(markup::html_escaped(s) =~= Seq::<char>::empty());
            assert(markup::decoded(Seq::<char>::empty()) =~= Seq::<char>::empty());
        }
    }
}

proof fn lemma_cell(
    w: WalkModel,
    earlier: Seq<BlockModel>,
    has_header: bool,
    rows: Seq<Seq<Seq<RunModel>>>,
    is_header: bool,
    s: Seq<char>,
) -> (end: WalkModel)
    requires
        is_in_table(w, earlier, has_header, rows),
        rows.len() > 0,
        is_clean(s),
    ensures
        ({
            let name = if is_header {
                "th"@
            } else {
                "td"@
            };
            end == close_tag(say(open_tag(w, name), markup::html_escaped(s)), name)
        }),
        is_in_table(
            end,
            earlier,
            has_header || (is_header && blocks::is_in_first_row(rows)),
            rows.drop_last().push(rows.last().push(seq![blocks::plain_run(s)])),
        ),
{
    let name = if is_header {
        "th"@
    } else {
        "td"@
    };
    lemma_table_tags(w);
    let open = open_tag(w, name);
    let table = open.table->0;
    let none = Seq::<RunModel>::empty();
    assert(table.cell == Some(none));
    lemma_cell_text(open, table, none, s);
    let full = say(open, markup::html_escaped(s));
    let run = blocks::plain_run(s);
    assert(none.push(run) =~= seq![run]);
    lemma_one_run_stays(run);
    lemma_table_tags(full);
    let end = close_tag(full, name);
    assert(rows.update(rows.len() - 1, rows.last().push(seq![run])) =~= rows.drop_last().push(
        rows.last().push(seq![run]),
    ));
    end
}

proof fn lemma_cells(
    s: Seq<char>,
    before: Seq<char>,
    cells: Seq<Seq<char>>,
    rest: Seq<char>,
    w: WalkModel,
    earlier: Seq<BlockModel>,
    has_header: bool,
    rows: Seq<Seq<Seq<RunModel>>>,
    is_header: bool,
) -> (end: WalkModel)
    requires
        s == before + cells_html(
            if is_header {
                "th"@
            } else {
                "td"@
            },
            cells,
        ) + rest,
        are_clean(cells),
        is_in_table(w, earlier, has_header, rows.push(Seq::empty())),
        is_header ==> rows.len() == 0,
    ensures
        is_in_table(
            end,
            earlier,
            has_header || (is_header && cells.len() > 0),
            rows.push(row_runs(cells)),
        ),
        walk(s, before.len() as int, w) == walk(
            s,
            (before.len() + cells_html(
                if is_header {
                    "th"@
                } else {
                    "td"@
                },
                cells,
            ).len()) as int,
            end,
        ),
    decreases cells.len(),
{
    let name = if is_header {
        "th"@
    } else {
        "td"@
    };
    if cells.len() == 0 {
        assert(row_runs(cells) =~= Seq::<Seq<RunModel>>::empty());
        w
    } else {
        let less = cells.drop_last();
        let last = cells.last();
        let content = markup::html_escaped(last);
        let item = tagged(name, content);
        assert forall|k: int| 0 <= k < less.len() implies is_clean(#[trigger] less[k]) by {
            assert(less[k] == cells[k]);
        }
        assert(s =~= before + cells_html(name, less) + (item + rest));
        let middle = lemma_cells(
            s,
            before,
            less,
            item + rest,
            w,
            earlier,
            has_header,
            rows,
            is_header,
        );
        let head = before + cells_html(name, less);
        assert(s =~= head + item + rest);
        assert(is_clean(cells[cells.len() - 1]));
        lemma_escaped_has_no_tag(last);
        lemma_table_names();
        lemma_tagged(s, head, name, content, rest, middle);
        let so_far = rows.push(row_runs(less));
        let header_so_far = has_header || (is_header && less.len() > 0);
        let end = lemma_cell(middle, earlier, header_so_far, so_far, is_header, last);
        assert(so_far.drop_last() =~= rows);
        assert(row_runs(less).push(seq![blocks::plain_run(last)]) =~= row_runs(cells));
        end
    }
}

proof fn lemma_row(
    s: Seq<char>,
    before: Seq<char>,
    cells: Seq<Seq<char>>,
    rest: Seq<char>,
    w: WalkModel,
    earlier: Seq<BlockModel>,
    has_header: bool,
    rows: Seq<Seq<Seq<RunModel>>>,
    is_header: bool,
) -> (end: WalkModel)
    requires
        s == before + tagged(
            "tr"@,
            cells_html(
                if is_header {
                    "th"@
                } else {
                    "td"@
                },
                cells,
            ),
        ) + rest,
        are_clean(cells),
        is_in_table(w, earlier, has_header, rows),
        is_header ==> rows.len() == 0,
    ensures
        is_in_table(
            end,
            earlier,
            has_header || (is_header && cells.len() > 0),
            rows.push(row_runs(cells)),
        ),
        walk(s, before.len() as int, w) == walk(s, s.len() - rest.len(), end),
{
    let name = if is_header {
        "th"@
    } else {
        "td"@
    };
    let row = "tr"@;
    let none = Seq::<char>::empty();
    let inner = cells_html(name, cells);
    let closing = seq!['/'] + row;
    let head = before + seq!['<'] + row + seq!['>'];
    let tail = seq!['<'] + closing + seq!['>'] + rest;
    lemma_table_names();
    lemma_small_name(row);
    lemma_row_shape(before, row, inner, rest);
    lemma_step(s, before, none, row, inner + tail, w);
    lemma_nothing_said(w);
    lemma_tags(row, w);
    lemma_table_tags(w);
    let open = open_tag(w, row);
    let middle = lemma_cells(
        s,
        head,
        cells,
        tail,
        open,
        earlier,
        has_header,
        rows,
        is_header,
    );
    lemma_step(s, head + inner, none, closing, rest, middle);
    lemma_nothing_said(middle);
    lemma_tags(row, middle);
    lemma_table_tags(middle);
    middle
}

proof fn lemma_row_shape(before: Seq<char>, name: Seq<char>, inner: Seq<char>, rest: Seq<char>)
    ensures
        ({
            let s = before + tagged(name, inner) + rest;
            let none = Seq::<char>::empty();
            let closing = seq!['/'] + name;
            let head = before + seq!['<'] + name + seq!['>'];
            let tail = seq!['<'] + closing + seq!['>'] + rest;
            &&& s == before + none + seq!['<'] + name + seq!['>'] + (inner + tail)
            &&& s == head + inner + tail
            &&& s == (head + inner) + none + seq!['<'] + closing + seq!['>'] + rest
        }),
{
    let s = before + tagged(name, inner) + rest;
    let none = Seq::<char>::empty();
    let closing = seq!['/'] + name;
    let head = before + seq!['<'] + name + seq!['>'];
    let tail = seq!['<'] + closing + seq!['>'] + rest;
    assert(seq!['<', '/'] + name =~= seq!['<'] + closing);
    assert(s =~= head + inner + tail);
    assert(s =~= before + none + seq!['<'] + name + seq!['>'] + (inner + tail));
    assert(s =~= (head + inner) + none + seq!['<'] + closing + seq!['>'] + rest);
}

/// The rows of a table with these texts.
pub open spec fn table_rows(rows: Seq<Seq<Seq<char>>>) -> Seq<Seq<Seq<RunModel>>> {
    rows.map_values(|cells: Seq<Seq<char>>| row_runs(cells))
}

proof fn lemma_rows(
    s: Seq<char>,
    before: Seq<char>,
    rows: Seq<Seq<Seq<char>>>,
    rest: Seq<char>,
    w: WalkModel,
    earlier: Seq<BlockModel>,
    has_header: bool,
) -> (end: WalkModel)
    requires
        s == before + rows_html(rows, has_header) + rest,
        forall|k: int| 0 <= k < rows.len() ==> (#[trigger] rows[k]).len() > 0 && are_clean(rows[k]),
        is_in_table(w, earlier, false, Seq::empty()),
    ensures
        is_in_table(end, earlier, has_header && rows.len() > 0, table_rows(rows)),
        walk(s, before.len() as int, w) == walk(s, s.len() - rest.len(), end),
    decreases rows.len(),
{
    if rows.len() == 0 {
        assert(table_rows(rows) =~= Seq::<Seq<Seq<RunModel>>>::empty());
        assert(s.len() - rest.len() == before.len());
        w
    } else {
        let less = rows.drop_last();
        let last = rows.last();
        let is_header = has_header && less.len() == 0;
        let row = tagged("tr"@, cells_html(cell_name(has_header, rows.len() - 1), last));
        assert forall|k: int| 0 <= k < less.len() implies (#[trigger] less[k]).len() > 0
            && are_clean(less[k]) by {
            assert(less[k] == rows[k]);
        }
        assert(s =~= before + rows_html(less, has_header) + (row + rest));
        let middle = lemma_rows(s, before, less, row + rest, w, earlier, has_header);
        let head = before + rows_html(less, has_header);
        assert(s =~= head + row + rest);
        assert(rows[rows.len() - 1].len() > 0 && are_clean(rows[rows.len() - 1]));
        let end = lemma_row(
            s,
            head,
            last,
            rest,
            middle,
            earlier,
            has_header && less.len() > 0,
            table_rows(less),
            is_header,
        );
        assert(table_rows(less).push(row_runs(last)) =~= table_rows(rows));
        end
    }
}

/// A table reads row by row and cell by cell, in order, and its first row is
/// the header row exactly when its cells are header cells.
pub proof fn law_a_table_reads_row_by_row(rows: Seq<Seq<Seq<char>>>, has_header: bool)
    requires
        rows.len() > 0,
        forall|k: int| 0 <= k < rows.len() ==> (#[trigger] rows[k]).len() > 0 && are_clean(rows[k]),
    ensures
        blocks::blocks_in(tagged("table"@, rows_html(rows, has_header))) == seq![
            BlockModel::Table(has_header, table_rows(rows)),
        ],
{
    let w = blocks::walk_start();
    let none = Seq::<char>::empty();
    let name = "table"@;
    let inner = rows_html(rows, has_header);
    let html = tagged(name, inner);
    let closing = seq!['/'] + name;
    let head = seq!['<'] + name + seq!['>'];
    let tail = seq!['<'] + closing + seq!['>'];
    let nothing = Seq::<BlockModel>::empty();
    lemma_table_names();
    lemma_small_name(name);
    lemma_outer_shape(name, inner);
    lemma_step(html, none, none, name, inner + tail, w);
    lemma_nothing_said(w);
    lemma_tags(name, w);
    lemma_table_tags(w);
    lemma_nothing_to_flush(w);
    let open = open_tag(w, name);
    let full = lemma_rows(html, head, rows, tail, open, nothing, has_header);
    lemma_step(html, head + inner, none, closing, none, full);
    lemma_nothing_said(full);
    lemma_tags(name, full);
    lemma_table_tags(full);
    lemma_nothing_to_flush(full);
    lemma_all_filled(table_rows(rows));
    let end = close_tag(full, name);
    lemma_blocks_of(html, end);
    assert(end.blocks =~= seq![BlockModel::Table(has_header, table_rows(rows))]);
}

proof fn lemma_all_filled(rows: Seq<Seq<Seq<RunModel>>>)
    requires
        forall|k: int| 0 <= k < rows.len() ==> (#[trigger] rows[k]).len() > 0,
    ensures
        blocks::filled(rows) == rows,
    decreases rows.len(),
{
    reveal(Seq::filter);
    if rows.len() > 0 {
        let less = rows.drop_last();
        assert forall|k: int| 0 <= k < less.len() implies (#[trigger] less[k]).len() > 0 by {
            assert(less[k] == rows[k]);
        }
        lemma_all_filled(less);
        assert(rows[rows.len() - 1].len() > 0);
        assert(less.push(rows.last()) =~= rows);
    }
}

// -- Images -----------------------------------------------------------------

proof fn lemma_word_ends_at(s: Seq<char>, i: int, e: int)
    requires
        0 <= i <= e < s.len(),
        forall|k: int| i <= k < e ==> !text::is_space(#[trigger] s[k]) && s[k] != '/' && s[k] != '=',
        text::is_space(s[e]) || s[e] == '/' || s[e] == '=',
    ensures
        blocks::word_end(s, i) == e,
    decreases e - i,
{
    if i < e {
        assert(!text::is_space(s[i]));
        lemma_word_ends_at(s, i + 1, e);
    }
}

/// The inside of a tag with one attribute.
pub open spec fn attribute_tag(name: Seq<char>, attribute: Seq<char>, value: Seq<char>) -> Seq<char> {
    name + seq![' '] + attribute + seq!['=', '"'] + markup::html_escaped(value) + seq!['"']
}

/// An attribute is read by its name, with the value that was written,
/// whatever it is.
pub proof fn law_an_attribute_is_read_by_its_name(
    name: Seq<char>,
    attribute: Seq<char>,
    value: Seq<char>,
)
    requires
        name.len() > 0,
        forall|k: int| 0 <= k < name.len() ==> 'a' <= #[trigger] name[k] <= 'z',
        attribute.len() > 0,
        forall|k: int| 0 <= k < attribute.len() ==> 'a' <= #[trigger] attribute[k] <= 'z',
    ensures
        blocks::attribute_in(attribute_tag(name, attribute, value), attribute) == Some(value),
{
    let s = attribute_tag(name, attribute, value);
    let content = markup::html_escaped(value);
    let a = name.len() as int;
    let b = a + 1;
    let c = b + attribute.len();
    let d = c + 2;
    let e = d + content.len();
    markup::law_escaped_text_is_inert(value);
    markup::law_decoding_undoes_escaping(value);
    assert(s[a] == ' ');
    assert(s[c] == '=');
    assert(s[c + 1] == '"');
    assert(s[e] == '"');
    assert forall|k: int| 0 <= k < a implies !text::is_space(#[trigger] s[k]) && s[k] != '/' && s[k]
        != '=' by {
        assert(s[k] == name[k]);
    }
    assert forall|k: int| b <= k < c implies !text::is_space(#[trigger] s[k]) && s[k] != '/' && s[k]
        != '=' by {
        assert(s[k] == attribute[k - b]);
    }
    assert(!text::is_space(s[0]) && s[0] != '/');
    assert(blocks::between_words(s, 0) == 0);
    lemma_word_ends_at(s, 0, a);
    assert(!text::is_space(s[b]) && s[b] != '/' && s[b] != '=');
    assert(text::skip_space(s, b) == b);
    assert(text::skip_space(s, a) == b);
    assert(blocks::attribute_from(s, attribute, 0) == blocks::attribute_from(s, attribute, a));
    assert(blocks::between_words(s, b) == b);
    assert(blocks::between_words(s, a) == b);
    lemma_word_ends_at(s, b, c);
    assert(!text::is_space(s[c]) && !text::is_space(s[c + 1]));
    assert(text::skip_space(s, c) == c);
    assert(text::skip_space(s, c + 1) == c + 1);
    assert(s.subrange(b, c) =~= attribute);
    assert(text::lower(attribute) =~= attribute);
    assert forall|k: int| d <= k < e implies s[k] != '"' by {
        assert(s[k] == content[k - d]);
    }
    text::lemma_find_char_from(s, '"', d);
    assert(text::find_char_from(s, '"', d) == Some(e));
    assert(s.subrange(d, e) =~= content);
}

proof fn lemma_image_name(value: Seq<char>)
    ensures
        ({
            let inside = attribute_tag("img"@, "src"@, value);
            &&& blocks::tag_name(inside) == "img"@
            &&& !inside.contains('>')
            &&& inside[0] == 'i'
            &&& blocks::attribute_in(inside, "src"@) == Some(value)
        }),
        "img"@ != "svg"@,
{
    reveal_strlit("img");
    reveal_strlit("src");
    reveal_strlit("svg");
    assert("img"@[0] == 'i' && "svg"@[0] == 's');
    let inside = attribute_tag("img"@, "src"@, value);
    let content = markup::html_escaped(value);
    law_an_attribute_is_read_by_its_name("img"@, "src"@, value);
    markup::law_escaped_text_is_inert(value);
    assert forall|k: int| 0 <= k < inside.len() implies inside[k] != '>' by {
        if k >= 9 && k < 9 + content.len() {
            assert(inside[k] == content[k - 9]);
        }
    }
    assert(inside[0] == 'i' && inside[1] == 'm' && inside[2] == 'g' && inside[3] == ' ');
    reveal_with_fuel(blocks::tag_name_end, 5);
    assert(blocks::skip_slashes(inside, 0) == 0);
    assert(blocks::tag_name_end(inside, 0) == 3);
    assert(inside.subrange(0, 3) =~= "img"@);
    assert(text::lower("img"@) =~= "img"@);
}

/// An image reads as a block with its source, whatever it is.
pub proof fn law_an_image_reads_by_its_source(value: Seq<char>)
    ensures
        blocks::blocks_in(seq!['<'] + attribute_tag("img"@, "src"@, value) + seq!['>']) == seq![
            BlockModel::Image(value),
        ],
{
    let w = blocks::walk_start();
    let none = Seq::<char>::empty();
    let inside = attribute_tag("img"@, "src"@, value);
    let html = seq!['<'] + inside + seq!['>'];
    lemma_image_name(value);
    assert(html =~= none + none + seq!['<'] + inside + seq!['>'] + none);
    lemma_step(html, none, none, inside, none, w);
    lemma_nothing_said(w);
    lemma_nothing_to_flush(w);
    let end = after_tag(w, inside);
    assert(end == (WalkModel {
        blocks: blocks::flushed(w).blocks.push(BlockModel::Image(value)),
        ..blocks::flushed(w)
    })) by {
        reveal(after_tag);
        reveal_strlit("strong");
        assert("strong"@[0] == 's' && "strong"@[5] == 'g');
        reveal_strlit("b");
        assert("b"@[0] == 'b' && "b"@[0] == 'b');
        reveal_strlit("em");
        assert("em"@[0] == 'e' && "em"@[1] == 'm');
        reveal_strlit("i");
        assert("i"@[0] == 'i' && "i"@[0] == 'i');
        reveal_strlit("code");
        assert("code"@[0] == 'c' && "code"@[3] == 'e');
        reveal_strlit("br");
        assert("br"@[0] == 'b' && "br"@[1] == 'r');
        reveal_strlit("img");
        assert("img"@[0] == 'i' && "img"@[2] == 'g');
    }
    lemma_blocks_of(html, end);
    assert(end.blocks =~= seq![BlockModel::Image(value)]);
}

// -- White space ------------------------------------------------------------

/// Collapsed text has single spaces as its only white space, and none at the
/// start behind a space.
pub proof fn law_white_space_collapses(s: Seq<char>, after_space: bool)
    ensures
        are_single_spaces(blocks::collapsed(s, after_space)),
        after_space && blocks::collapsed(s, after_space).len() > 0 ==> !text::is_space(
            blocks::collapsed(s, after_space).first(),
        ),
        s.len() > 0 && !text::is_space(s.last()) ==> blocks::collapsed(s, after_space).len() > 0
            && blocks::collapsed(s, after_space).last() == s.last(),
        s.len() > 0 && text::is_space(s.last()) ==> (blocks::collapsed(s, after_space).len() == 0
            && after_space) || (blocks::collapsed(s, after_space).len() > 0 && blocks::collapsed(
            s,
            after_space,
        ).last() == ' '),
    decreases s.len(),
{
    let all = blocks::collapsed(s, after_space);
    if s.len() > 0 {
        let less = s.drop_last();
        law_white_space_collapses(less, after_space);
        let before = blocks::collapsed(less, after_space);
        if less.len() > 0 {
            assert(less.last() == s[s.len() - 2]);
        } else {
            assert(before =~= Seq::<char>::empty());
        }
        if all != before {
            let c = all.last();
            assert(all == before.push(c));
            assert forall|k: int| 0 <= k < all.len() && text::is_space(
                #[trigger] all[k],
            ) implies all[k] == ' ' by {
                if k < before.len() {
                    assert(all[k] == before[k]);
                }
            }
            assert forall|k: int, l: int|
                #![trigger all[k], all[l]]
                0 <= k < all.len() && l == k + 1 && l < all.len() implies !(text::is_space(all[k])
                && text::is_space(all[l])) by {
                if l < before.len() {
                    assert(all[k] == before[k] && all[l] == before[l]);
                } else {
                    assert(all[k] == before.last());
                }
            }
            if before.len() > 0 {
                assert(all.first() == before.first());
            }
        }
    } else {
        assert(all =~= Seq::<char>::empty());
    }
}

} // verus!
