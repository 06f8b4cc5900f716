//! The blocks of a Word body, walked out of the HTML of a page.
//!
//! The walk goes over the HTML tag by tag. Headings, paragraphs, list items,
//! quotes, preformatted code, tables, and images become blocks; inline style
//! becomes runs. Inline SVG has no Word shape and is left out.

use vstd::prelude::*;

use crate::dom;
use crate::dom::raw_svg_content;
use crate::markup;
use crate::markup::decode_entities;
use crate::model::{Document, Duplicate};
use crate::text;
use crate::text::{chars_of, find_char, part, text_of, to_lower};

verus! {

// -- Runs and blocks --------------------------------------------------------

/// One run of text with its inline style.
pub struct RunModel {
    pub text: Seq<char>,
    pub is_bold: bool,
    pub is_italic: bool,
    pub is_code: bool,
}

/// One block of the Word body.
pub enum BlockModel {
    Heading(int, Seq<RunModel>),
    Paragraph(Seq<RunModel>),
    ListItem(Option<int>, Seq<RunModel>),
    Quote(Seq<RunModel>),
    Code(Seq<char>),
    Table(bool, Seq<Seq<Seq<RunModel>>>),
    Image(Seq<char>),
    PageBreak,
}

/// One run of text with its inline style.
#[derive(Debug, PartialEq, Eq)]
pub struct Run {
    /// The text. A newline is a line break inside the paragraph.
    pub text: String,
    /// True inside `<strong>` or `<b>`.
    pub is_bold: bool,
    /// True inside `<em>` or `<i>`.
    pub is_italic: bool,
    /// True inside `<code>`.
    pub is_code: bool,
}

/// One block of the Word body, in reading order.
#[derive(Debug, PartialEq, Eq)]
pub enum Block {
    /// A heading of level 1 to 6.
    Heading(u8, Vec<Run>),
    /// A paragraph.
    Paragraph(Vec<Run>),
    /// One list item. `number` is `Some` in an ordered list.
    ListItem {
        /// The 1-based position in an ordered list, or `None` for a bullet.
        number: Option<usize>,
        /// The item text.
        runs: Vec<Run>,
    },
    /// A block quote.
    Quote(Vec<Run>),
    /// Preformatted code, lines joined by newlines.
    Code(String),
    /// A table: rows of cells, each cell its runs.
    Table {
        /// True when the first row is a header row.
        has_header: bool,
        /// The rows.
        rows: Vec<Vec<Vec<Run>>>,
    },
    /// An image by its `src`, as written.
    Image(String),
    /// A page break: the next block starts a new sheet.
    PageBreak,
}

impl View for Run {
    type V = RunModel;

    open spec fn view(&self) -> RunModel {
        RunModel {
            text: self.text@,
            is_bold: self.is_bold,
            is_italic: self.is_italic,
            is_code: self.is_code,
        }
    }
}

impl Default for Run {
    fn default() -> (r: Run)
        ensures
            r@ == plain_run(Seq::empty()),
    {
        Run { text: String::new(), is_bold: false, is_italic: false, is_code: false }
    }
}

impl Duplicate for Run {
    fn duplicate(&self) -> (r: Self) {
        Run {
            text: self.text.clone(),
            is_bold: self.is_bold,
            is_italic: self.is_italic,
            is_code: self.is_code,
        }
    }
}

/// A run without inline style.
pub open spec fn plain_run(s: Seq<char>) -> RunModel {
    RunModel { text: s, is_bold: false, is_italic: false, is_code: false }
}

/// The runs of a list.
pub open spec fn runs_of(runs: Seq<Run>) -> Seq<RunModel> {
    runs.map_values(|run: Run| run@)
}

/// The cells of a row.
pub open spec fn cells_of(row: Seq<Vec<Run>>) -> Seq<Seq<RunModel>> {
    row.map_values(|cell: Vec<Run>| runs_of(cell@))
}

/// The rows of a table.
pub open spec fn rows_of(rows: Seq<Vec<Vec<Run>>>) -> Seq<Seq<Seq<RunModel>>> {
    rows.map_values(|row: Vec<Vec<Run>>| cells_of(row@))
}

/// An optional list number.
pub open spec fn number_of(number: Option<usize>) -> Option<int> {
    match number {
        Some(n) => Some(n as int),
        None => None,
    }
}

impl View for Block {
    type V = BlockModel;

    open spec fn view(&self) -> BlockModel {
        match *self {
            Block::Heading(level, runs) => BlockModel::Heading(level as int, runs_of(runs@)),
            Block::Paragraph(runs) => BlockModel::Paragraph(runs_of(runs@)),
            Block::ListItem { number, runs } => BlockModel::ListItem(
                number_of(number),
                runs_of(runs@),
            ),
            Block::Quote(runs) => BlockModel::Quote(runs_of(runs@)),
            Block::Code(code) => BlockModel::Code(code@),
            Block::Table { has_header, rows } => BlockModel::Table(has_header, rows_of(rows@)),
            Block::Image(src) => BlockModel::Image(src@),
            Block::PageBreak => BlockModel::PageBreak,
        }
    }
}

/// The blocks of a list.
pub open spec fn blocks_of(blocks: Seq<Block>) -> Seq<BlockModel> {
    blocks.map_values(|block: Block| block@)
}

// -- White space ------------------------------------------------------------

/// `s` with each run of white space as one space, and none at the start
/// when the text before ended in one.
pub open spec fn collapsed(s: Seq<char>, after_space: bool) -> Seq<char>
    decreases s.len(),
{
    if s.len() == 0 {
        Seq::empty()
    } else {
        let before = collapsed(s.drop_last(), after_space);
        let was_space = if s.len() == 1 {
            after_space
        } else {
            text::is_space(s[s.len() - 2])
        };
        if !text::is_space(s.last()) {
            before.push(s.last())
        } else if was_space {
            before
        } else {
            before.push(' ')
        }
    }
}

/// Collapses runs of white space to one space. The leading space goes when
/// the text before it ended in one.
pub fn collapse_whitespace(chars: &[char], is_after_space: bool) -> (r: Vec<char>)
    ensures
        r@ == collapsed(chars@, is_after_space),
{
    let mut r: Vec<char> = Vec::new();
    let mut is_space = is_after_space;
    let mut i: usize = 0;
    while i < chars.len()
        invariant
            i <= chars@.len(),
            is_space == (if i == 0 {
                is_after_space
            } else {
                text::is_space(chars@[i - 1])
            }),
            r@ == collapsed(chars@.take(i as int), is_after_space),
        decreases chars@.len() - i,
    {
        let c = chars[i];
        assert(chars@.take(i + 1).drop_last() =~= chars@.take(i as int));
        if text::space(c) {
            if !is_space {
                r.push(' ');
            }
            is_space = true;
        } else {
            r.push(c);
            is_space = false;
        }
        i += 1;
    }
    assert(chars@.take(i as int) =~= chars@);
    r
}

/// The runs that hold any text.
pub open spec fn non_empty(runs: Seq<RunModel>) -> Seq<RunModel> {
    runs.filter(|run: RunModel| run.text.len() > 0)
}

/// The runs from the first one that holds more than white space.
pub open spec fn without_blank_start(runs: Seq<RunModel>) -> Seq<RunModel>
    decreases runs.len(),
{
    if runs.len() > 0 && text::trim_start(runs.first().text).len() == 0 {
        without_blank_start(runs.drop_first())
    } else {
        runs
    }
}

/// The runs up to the last one that holds more than white space.
pub open spec fn without_blank_end(runs: Seq<RunModel>) -> Seq<RunModel>
    decreases runs.len(),
{
    if runs.len() > 0 && text::trim_end(runs.last().text).len() == 0 {
        without_blank_end(runs.drop_last())
    } else {
        runs
    }
}

/// The runs with the white space before the first and behind the last
/// removed.
pub open spec fn trimmed_ends(runs: Seq<RunModel>) -> Seq<RunModel> {
    if runs.len() == 0 {
        runs
    } else {
        let first = runs.update(
            0,
            RunModel { text: text::trim_start(runs[0].text), ..runs[0] },
        );
        first.update(
            first.len() - 1,
            RunModel { text: text::trim_end(first.last().text), ..first.last() },
        )
    }
}

/// The runs without leading and trailing white space, and without empty
/// runs.
pub open spec fn trimmed_runs(runs: Seq<RunModel>) -> Seq<RunModel> {
    non_empty(trimmed_ends(without_blank_end(without_blank_start(runs))))
}

/// The runs without leading and trailing white space, and without empty
/// runs.
pub fn trimmed(runs: &Vec<Run>) -> (r: Vec<Run>)
    ensures
        runs_of(r@) == trimmed_runs(runs_of(runs@)),
{
    let ghost all = runs_of(runs@);
    let mut start: usize = 0;
    assert(all.skip(0) =~= all);
    while start < runs.len() && text::trimmed_start(&chars_of(runs[start].text.as_str())).len() == 0
        invariant
            start <= runs@.len(),
            all == runs_of(runs@),
            without_blank_start(all) == without_blank_start(all.skip(start as int)),
        decreases runs@.len() - start,
    {
        assert(all.skip(start as int).first() == runs@[start as int]@);
        assert(all.skip(start as int).drop_first() =~= all.skip(start + 1));
        start += 1;
    }
    let ghost rest = all.skip(start as int);
    assert(rest.len() > 0 ==> rest.first() == runs@[start as int]@);
    assert(without_blank_start(all) == rest);
    let mut end: usize = runs.len();
    assert(all.subrange(start as int, end as int) =~= rest);
    while end > start && text::trimmed_end(&chars_of(runs[end - 1].text.as_str())).len() == 0
        invariant
            start <= end <= runs@.len(),
            all == runs_of(runs@),
            without_blank_end(rest) == without_blank_end(
                all.subrange(start as int, end as int),
            ),
        decreases end,
    {
        let ghost left = all.subrange(start as int, end as int);
        assert(left.last() == runs@[end - 1]@);
        assert(left.drop_last() =~= all.subrange(start as int, end - 1));
        end -= 1;
    }
    let ghost left = all.subrange(start as int, end as int);
    let ghost ends = trimmed_ends(left);
    assert(left.len() > 0 ==> left.last() == runs@[end - 1]@);
    assert(without_blank_end(rest) == left);
    let mut kept: Vec<Run> = Vec::new();
    let mut i: usize = start;
    proof {
        reveal(Seq::filter);
        assert(runs_of(kept@) =~= non_empty(ends.take(0)));
    }
    while i < end
        invariant
            start <= i <= end <= runs@.len(),
            all == runs_of(runs@),
            left == all.subrange(start as int, end as int),
            ends == trimmed_ends(left),
            runs_of(kept@) == non_empty(ends.take(i - start)),
        decreases end - i,
    {
        assert(left[i - start] == runs@[i as int]@);
        let mut content = chars_of(runs[i].text.as_str());
        if i == start {
            content = text::trimmed_start(&content);
        }
        if i == end - 1 {
            content = text::trimmed_end(&content);
        }
        assert(content@ == ends[i - start].text);
        proof {
            reveal(Seq::filter);
            assert(ends.take(i - start + 1).drop_last() =~= ends.take(i - start));
        }
        if content.len() > 0 {
            let ghost before = kept@;
            let run = Run {
                text: text_of(&content),
                is_bold: runs[i].is_bold,
                is_italic: runs[i].is_italic,
                is_code: runs[i].is_code,
            };
            kept.push(run);
            assert(runs_of(kept@) =~= runs_of(before).push(run@));
        }
        i += 1;
    }
    assert(ends.take(i - start) =~= ends);
    kept
}

/// The text of the runs, without their style.
pub open spec fn plain_text(runs: Seq<RunModel>) -> Seq<char>
    decreases runs.len(),
{
    if runs.len() == 0 {
        Seq::empty()
    } else {
        plain_text(runs.drop_last()) + runs.last().text
    }
}

/// The text of runs behind runs is their text behind the text of the others.
pub proof fn lemma_plain_text_of_joined(a: Seq<RunModel>, b: Seq<RunModel>)
    ensures
        plain_text(a + b) == plain_text(a) + plain_text(b),
    decreases b.len(),
{
    if b.len() == 0 {
        assert(a + b =~= a);
        assert(plain_text(a) + Seq::<char>::empty() =~= plain_text(a));
    } else {
        assert((a + b).drop_last() =~= a + b.drop_last());
        lemma_plain_text_of_joined(a, b.drop_last());
        assert(plain_text(a) + (plain_text(b.drop_last()) + b.last().text) =~= (plain_text(a)
            + plain_text(b.drop_last())) + b.last().text);
    }
}

proof fn lemma_plain_text_of_first(runs: Seq<RunModel>)
    requires
        runs.len() > 0,
    ensures
        plain_text(runs) == runs.first().text + plain_text(runs.drop_first()),
{
    let head = seq![runs.first()];
    lemma_plain_text_of_joined(head, runs.drop_first());
    assert(head + runs.drop_first() =~= runs);
    assert(head.drop_last() =~= Seq::<RunModel>::empty());
    assert(Seq::<char>::empty() + runs.first().text =~= runs.first().text);
    assert(plain_text(head.drop_last()) == Seq::<char>::empty());
    assert(plain_text(head) == runs.first().text);
}

proof fn lemma_without_blank_start(runs: Seq<RunModel>)
    ensures
        ({
            let rest = without_blank_start(runs);
            &&& text::trim_start(plain_text(runs)) == text::trim_start(plain_text(rest))
            &&& rest.len() > 0 ==> text::trim_start(rest.first().text).len() > 0
        }),
    decreases runs.len(),
{
    if runs.len() > 0 && text::trim_start(runs.first().text).len() == 0 {
        lemma_plain_text_of_first(runs);
        text::lemma_trim_start_of_joined(runs.first().text, plain_text(runs.drop_first()));
        lemma_without_blank_start(runs.drop_first());
    }
}

proof fn lemma_without_blank_end(runs: Seq<RunModel>)
    ensures
        ({
            let left = without_blank_end(runs);
            &&& text::trim_end(plain_text(runs)) == text::trim_end(plain_text(left))
            &&& left.len() > 0 ==> text::trim_end(left.last().text).len() > 0 && left.first()
                == runs.first()
        }),
    decreases runs.len(),
{
    if runs.len() > 0 && text::trim_end(runs.last().text).len() == 0 {
        text::lemma_trim_end_of_joined(plain_text(runs.drop_last()), runs.last().text);
        lemma_without_blank_end(runs.drop_last());
    }
}

proof fn lemma_non_empty(runs: Seq<RunModel>)
    ensures
        plain_text(non_empty(runs)) == plain_text(runs),
        forall|k: int|
            0 <= k < non_empty(runs).len() ==> (#[trigger] non_empty(runs)[k]).text.len() > 0,
        runs.len() > 0 && runs.first().text.len() > 0 ==> non_empty(runs).len() > 0 && non_empty(
            runs,
        ).first() == runs.first(),
        runs.len() > 0 && runs.last().text.len() > 0 ==> non_empty(runs).len() > 0 && non_empty(
            runs,
        ).last() == runs.last(),
    decreases runs.len(),
{
    reveal(Seq::filter);
    if runs.len() > 0 {
        let before = non_empty(runs.drop_last());
        lemma_non_empty(runs.drop_last());
        if runs.last().text.len() > 0 {
            assert(non_empty(runs) == before.push(runs.last()));
            assert(non_empty(runs).drop_last() =~= before);
            assert forall|k: int| 0 <= k < non_empty(runs).len() implies (#[trigger] non_empty(
                runs,
            )[k]).text.len() > 0 by {
                if k < before.len() {
                    assert(non_empty(runs)[k] == before[k]);
                }
            }
        } else {
            assert(non_empty(runs) == before);
            assert(plain_text(runs.drop_last()) + runs.last().text =~= plain_text(
                runs.drop_last(),
            ));
        }
    }
}

/// Trimming the ends of runs that neither begin nor end blank trims their
/// text.
proof fn lemma_trimmed_ends(runs: Seq<RunModel>)
    requires
        runs.len() > 0,
        text::trim_start(runs.first().text).len() > 0,
        text::trim_end(runs.last().text).len() > 0,
    ensures
        ({
            let ends = trimmed_ends(runs);
            &&& plain_text(ends) == text::trim(plain_text(runs))
            &&& ends.first().text.len() > 0 && !text::is_space(ends.first().text.first())
            &&& ends.last().text.len() > 0 && !text::is_space(ends.last().text.last())
        }),
{
    let ends = trimmed_ends(runs);
    let first = RunModel { text: text::trim_start(runs[0].text), ..runs[0] };
    let started = runs.update(0, first);
    let last = RunModel { text: text::trim_end(started.last().text), ..started.last() };
    text::lemma_trim_start(runs[0].text);
    text::lemma_trim_end(first.text);
    lemma_plain_text_of_first(runs);
    lemma_plain_text_of_first(started);
    assert(started.drop_first() =~= runs.drop_first());
    text::lemma_trim_start_of_joined(runs[0].text, plain_text(runs.drop_first()));
    assert(plain_text(started) == text::trim_start(plain_text(runs)));
    assert(ends.drop_last() =~= started.drop_last());
    text::lemma_trim_end(started.last().text);
    text::lemma_trim_end(runs.last().text);
    assert(last.text.len() > 0);
    text::lemma_trim_end_of_joined(plain_text(started.drop_last()), started.last().text);
    if runs.len() > 1 {
        assert(ends.first() == first);
    }
}

/// Trimmed runs hold the text of the runs without the white space around it.
/// None of them is empty, the first does not begin with white space, and the
/// last does not end with it.
pub proof fn law_trimmed_runs_hold_the_trimmed_text(runs: Seq<RunModel>)
    ensures
        plain_text(trimmed_runs(runs)) == text::trim(plain_text(runs)),
        forall|k: int|
            0 <= k < trimmed_runs(runs).len() ==> (#[trigger] trimmed_runs(runs)[k]).text.len() > 0,
        trimmed_runs(runs).len() > 0 ==> !text::is_space(trimmed_runs(runs).first().text.first())
            && !text::is_space(trimmed_runs(runs).last().text.last()),
{
    let rest = without_blank_start(runs);
    let left = without_blank_end(rest);
    lemma_without_blank_start(runs);
    lemma_without_blank_end(rest);
    lemma_non_empty(trimmed_ends(left));
    if rest.len() > 0 {
        let head = rest.first().text;
        let begun = text::trim_start(head);
        let x = plain_text(rest.drop_first());
        lemma_plain_text_of_first(rest);
        text::lemma_trim_start_of_joined(head, x);
        text::lemma_trim_end_of_joined(head, x);
        text::lemma_trim_end_of_joined(begun, x);
        if left.len() > 0 {
            let y = plain_text(left.drop_first());
            lemma_plain_text_of_first(left);
            text::lemma_trim_start_of_joined(head, y);
            text::lemma_trim_end_of_joined(head, y);
            text::lemma_trim_end_of_joined(begun, y);
            lemma_trim_end_is_no_longer(head);
            lemma_trimmed_ends(left);
            if text::trim_end(x).len() > 0 {
                assert((head + text::trim_end(x)).skip(head.len() as int) =~= text::trim_end(x));
                assert((head + text::trim_end(y)).skip(head.len() as int) =~= text::trim_end(y));
            }
        } else {
            text::lemma_blank(head);
        }
    }
}

proof fn lemma_trim_end_is_no_longer(s: Seq<char>)
    ensures
        text::trim_end(s).len() <= s.len(),
    decreases s.len(),
{
    if s.len() > 0 {
        lemma_trim_end_is_no_longer(s.drop_last());
    }
}

// -- The walk ---------------------------------------------------------------

/// What an open block tag makes of the text inside it.
#[derive(Clone, Copy, Debug, PartialEq, Eq, Structural)]
pub enum BlockKind {
    Paragraph,
    Heading(u8),
    ListItem,
    Quote,
}

/// A table under construction: its rows and the open cell.
pub struct TableModel {
    pub has_header: bool,
    pub rows: Seq<Seq<Seq<RunModel>>>,
    pub cell: Option<Seq<RunModel>>,
}

/// The state of one walk over a fragment.
pub struct WalkModel {
    /// The blocks that are complete.
    pub blocks: Seq<BlockModel>,
    /// The runs of the open block.
    pub current: Seq<RunModel>,
    /// What the open block is. Text outside every block is a paragraph.
    pub kind: Option<BlockKind>,
    /// The open lists, innermost last: the next number of an ordered list.
    pub lists: Seq<Option<int>>,
    /// The number the open list item took, when it is ordered.
    pub item_number: Option<int>,
    pub bold_depth: int,
    pub italic_depth: int,
    pub code_depth: int,
    /// How deep inside `<pre>` the walk is.
    pub pre_depth: int,
    /// The text inside `<pre>`.
    pub code: Seq<char>,
    pub table: Option<TableModel>,
    /// True while the last text ended in white space.
    pub is_after_space: bool,
}

/// The walk before the first character.
pub open spec fn walk_start() -> WalkModel {
    WalkModel {
        blocks: Seq::empty(),
        current: Seq::empty(),
        kind: None,
        lists: Seq::empty(),
        item_number: None,
        bold_depth: 0,
        italic_depth: 0,
        code_depth: 0,
        pre_depth: 0,
        code: Seq::empty(),
        table: None,
        is_after_space: false,
    }
}

/// The block that the open runs make.
pub open spec fn block_for(
    kind: Option<BlockKind>,
    item_number: Option<int>,
    runs: Seq<RunModel>,
) -> BlockModel {
    match kind {
        Some(BlockKind::Heading(level)) => BlockModel::Heading(level as int, runs),
        Some(BlockKind::ListItem) => BlockModel::ListItem(item_number, runs),
        Some(BlockKind::Quote) => BlockModel::Quote(runs),
        _ => BlockModel::Paragraph(runs),
    }
}

/// The walk after the open block ends, when it holds text.
pub open spec fn flushed(w: WalkModel) -> WalkModel {
    let runs = trimmed_runs(w.current);
    WalkModel {
        blocks: if runs.len() == 0 {
            w.blocks
        } else {
            w.blocks.push(block_for(w.kind, w.item_number, runs))
        },
        current: Seq::empty(),
        is_after_space: true,
        ..w
    }
}

/// The walk with one more run in the open cell or block.
pub open spec fn with_run(w: WalkModel, s: Seq<char>) -> WalkModel {
    let run = RunModel {
        text: s,
        is_bold: w.bold_depth > 0,
        is_italic: w.italic_depth > 0,
        is_code: w.code_depth > 0,
    };
    match w.table {
        Some(table) => match table.cell {
            Some(cell) => WalkModel {
                table: Some(TableModel { cell: Some(cell.push(run)), ..table }),
                ..w
            },
            None => WalkModel { current: w.current.push(run), ..w },
        },
        None => WalkModel { current: w.current.push(run), ..w },
    }
}

/// The walk after text: raw inside `<pre>`, collapsed elsewhere.
pub open spec fn with_text(w: WalkModel, raw: Seq<char>) -> WalkModel {
    let decoded = markup::decoded(raw);
    if raw.len() == 0 {
        w
    } else if w.pre_depth > 0 {
        WalkModel { code: w.code + decoded, ..w }
    } else {
        let s = collapsed(decoded, w.is_after_space);
        if s.len() == 0 {
            w
        } else {
            with_run(WalkModel { is_after_space: s.last() == ' ', ..w }, s)
        }
    }
}

/// The walk after a line break.
pub open spec fn with_break(w: WalkModel) -> WalkModel {
    if w.pre_depth > 0 {
        WalkModel { code: w.code.push('\n'), ..w }
    } else {
        WalkModel { is_after_space: true, ..with_run(w, seq!['\n']) }
    }
}

/// The walk after the open table cell ends, if any.
pub open spec fn cell_closed(w: WalkModel) -> WalkModel {
    match w.table {
        Some(table) => match table.cell {
            Some(cell) => WalkModel {
                table: Some(
                    TableModel {
                        cell: None,
                        rows: if table.rows.len() == 0 {
                            table.rows
                        } else {
                            table.rows.update(
                                table.rows.len() - 1,
                                table.rows.last().push(trimmed_runs(cell)),
                            )
                        },
                        ..table
                    },
                ),
                ..w
            },
            None => w,
        },
        None => w,
    }
}

/// True when the last row is the first that holds cells.
pub open spec fn is_in_first_row(rows: Seq<Seq<Seq<RunModel>>>) -> bool {
    forall|k: int| 0 <= k < rows.len() - 1 ==> (#[trigger] rows[k]).len() == 0
}

/// The walk after a table cell starts. A header cell in the first row makes
/// it the header row.
pub open spec fn cell_opened(w: WalkModel, is_header: bool) -> WalkModel {
    let closed = cell_closed(w);
    match closed.table {
        Some(table) => {
            let rows = if table.rows.len() == 0 {
                seq![Seq::<Seq<RunModel>>::empty()]
            } else {
                table.rows
            };
            WalkModel {
                table: Some(
                    TableModel {
                        has_header: table.has_header || (is_header && is_in_first_row(rows)),
                        rows,
                        cell: Some(Seq::empty()),
                    },
                ),
                is_after_space: true,
                ..closed
            }
        },
        None => closed,
    }
}

/// The tags that start a block of their own.
pub open spec fn is_block_tag(name: Seq<char>) -> bool {
    name == "address"@ || name == "article"@ || name == "aside"@ || name == "blockquote"@ || name
        == "div"@ || name == "dd"@ || name == "dt"@ || name == "figcaption"@ || name == "figure"@
        || name == "footer"@ || name == "h1"@ || name == "h2"@ || name == "h3"@ || name == "h4"@
        || name == "h5"@ || name == "h6"@ || name == "header"@ || name == "li"@ || name == "p"@
        || name == "section"@
}

/// What a block tag makes of the text inside it. A wrapper makes nothing of
/// its own.
pub open spec fn kind_of(name: Seq<char>) -> Option<BlockKind> {
    if name == "h1"@ {
        Some(BlockKind::Heading(1))
    } else if name == "h2"@ {
        Some(BlockKind::Heading(2))
    } else if name == "h3"@ {
        Some(BlockKind::Heading(3))
    } else if name == "h4"@ {
        Some(BlockKind::Heading(4))
    } else if name == "h5"@ {
        Some(BlockKind::Heading(5))
    } else if name == "h6"@ {
        Some(BlockKind::Heading(6))
    } else if name == "li"@ {
        Some(BlockKind::ListItem)
    } else if name == "blockquote"@ {
        Some(BlockKind::Quote)
    } else if name == "p"@ || name == "dd"@ || name == "dt"@ || name == "figcaption"@ {
        Some(BlockKind::Paragraph)
    } else {
        None
    }
}

/// The walk after a block tag opens. A list item takes the next number of
/// its list.
pub open spec fn block_opened(w: WalkModel, name: Seq<char>) -> WalkModel {
    let f = flushed(w);
    if name == "li"@ {
        let next = if f.lists.len() > 0 {
            f.lists.last()
        } else {
            None
        };
        WalkModel {
            kind: Some(BlockKind::ListItem),
            item_number: next,
            lists: match next {
                Some(n) => f.lists.update(f.lists.len() - 1, Some(n + 1)),
                None => f.lists,
            },
            ..f
        }
    } else {
        WalkModel { kind: kind_of(name), ..f }
    }
}

// -- Attributes -------------------------------------------------------------

/// Where a bare attribute value ends.
pub open spec fn bare_end(s: Seq<char>, i: int) -> int
    decreases s.len() - i,
{
    if 0 <= i < s.len() && !text::is_space(s[i]) && s[i] != '>' {
        bare_end(s, i + 1)
    } else {
        i
    }
}

/// The decoded attribute value that begins at `i`, quoted or bare. A quoted
/// value that never closes is none.
pub open spec fn attribute_value_at(s: Seq<char>, i: int) -> Option<Seq<char>> {
    if !(0 <= i < s.len()) {
        None
    } else if s[i] == '"' || s[i] == '\'' {
        match text::find_char_from(s, s[i], i + 1) {
            Some(end) => Some(markup::decoded(s.subrange(i + 1, end))),
            None => None,
        }
    } else {
        Some(markup::decoded(s.subrange(i, bare_end(s, i))))
    }
}

/// Where the attribute value that begins at `i` ends. A quoted value that
/// never closes runs to the end.
pub open spec fn attribute_value_end(s: Seq<char>, i: int) -> int {
    if 0 <= i < s.len() && (s[i] == '"' || s[i] == '\'') {
        match text::find_char_from(s, s[i], i + 1) {
            Some(end) => end + 1,
            None => s.len() as int,
        }
    } else {
        bare_end(s, i)
    }
}

/// The position behind the white space and the slashes at `i`.
pub open spec fn between_words(s: Seq<char>, i: int) -> int
    decreases s.len() - i,
{
    if 0 <= i < s.len() && (text::is_space(s[i]) || s[i] == '/') {
        between_words(s, i + 1)
    } else {
        i
    }
}

/// Where the word at `i` ends: at white space, a slash or an equals sign.
pub open spec fn word_end(s: Seq<char>, i: int) -> int
    decreases s.len() - i,
{
    if 0 <= i < s.len() && !text::is_space(s[i]) && s[i] != '/' && s[i] != '=' {
        word_end(s, i + 1)
    } else {
        i
    }
}

/// The value of the attribute `name` in the tag `s`, read word by word from
/// `from`. What stands in the value of another attribute is no attribute.
pub open spec fn attribute_from(s: Seq<char>, name: Seq<char>, from: int) -> Option<Seq<char>>
    decreases s.len() - from,
    via attribute_decreases
{
    let start = between_words(s, from);
    if !(0 <= from && start < s.len()) {
        None
    } else {
        let end = word_end(s, start);
        let equals = text::skip_space(s, end);
        if equals < s.len() && s[equals] == '=' {
            let value = text::skip_space(s, equals + 1);
            if text::lower(s.subrange(start, end)) == name {
                attribute_value_at(s, value)
            } else {
                attribute_from(s, name, attribute_value_end(s, value))
            }
        } else {
            attribute_from(s, name, end)
        }
    }
}

#[via_fn]
proof fn attribute_decreases(s: Seq<char>, name: Seq<char>, from: int) {
    if from >= 0 {
        lemma_between_words(s, from);
        let start = between_words(s, from);
        if start < s.len() {
            lemma_word_end(s, start);
            let end = word_end(s, start);
            text::lemma_skip_space(s, end);
            let equals = text::skip_space(s, end);
            if equals < s.len() && s[equals] == '=' {
                text::lemma_skip_space(s, equals + 1);
                lemma_attribute_value_end(s, text::skip_space(s, equals + 1));
            }
        }
    }
}

proof fn lemma_between_words(s: Seq<char>, i: int)
    requires
        0 <= i,
    ensures
        i <= between_words(s, i),
        between_words(s, i) <= s.len() || between_words(s, i) == i,
        between_words(s, i) < s.len() ==> !text::is_space(s[between_words(s, i)]) && s[between_words(
            s,
            i,
        )] != '/',
    decreases s.len() - i,
{
    if i < s.len() && (text::is_space(s[i]) || s[i] == '/') {
        lemma_between_words(s, i + 1);
    }
}

proof fn lemma_word_end(s: Seq<char>, i: int)
    requires
        0 <= i <= s.len(),
    ensures
        i <= word_end(s, i) <= s.len(),
        i < s.len() && !text::is_space(s[i]) && s[i] != '/' && s[i] != '=' ==> i < word_end(s, i),
    decreases s.len() - i,
{
    if i < s.len() && !text::is_space(s[i]) && s[i] != '/' && s[i] != '=' {
        lemma_word_end(s, i + 1);
    }
}

proof fn lemma_attribute_value_end(s: Seq<char>, i: int)
    requires
        0 <= i <= s.len(),
    ensures
        i <= attribute_value_end(s, i) <= s.len(),
{
    if i < s.len() && (s[i] == '"' || s[i] == '\'') {
        text::lemma_find_char_from(s, s[i], i + 1);
    } else {
        lemma_bare_end(s, i);
    }
}

proof fn lemma_bare_end(s: Seq<char>, i: int)
    requires
        0 <= i <= s.len(),
    ensures
        i <= bare_end(s, i) <= s.len(),
    decreases s.len() - i,
{
    if i < s.len() && !text::is_space(s[i]) && s[i] != '>' {
        lemma_bare_end(s, i + 1);
    }
}

/// The value of the attribute `name` in the tag `s`.
pub open spec fn attribute_in(s: Seq<char>, name: Seq<char>) -> Option<Seq<char>> {
    attribute_from(s, name, 0)
}

fn find_bare_end(chars: &[char], from: usize) -> (r: usize)
    requires
        from <= chars@.len(),
    ensures
        r == bare_end(chars@, from as int),
        from <= r <= chars@.len(),
{
    let mut i: usize = from;
    while i < chars.len() && !text::space(chars[i]) && chars[i] != '>'
        invariant
            from <= i <= chars@.len(),
            bare_end(chars@, from as int) == bare_end(chars@, i as int),
        decreases chars@.len() - i,
    {
        i += 1;
    }
    i
}

fn read_attribute_value(chars: &[char], i: usize) -> (r: Option<Vec<char>>)
    requires
        i <= chars@.len(),
    ensures
        crate::selector::optional(r) == attribute_value_at(chars@, i as int),
{
    if i >= chars.len() {
        return None;
    }
    let quote = chars[i];
    if quote == '"' || quote == '\'' {
        return match find_char(chars, quote, i + 1) {
            Some(end) => Some(decode_entities(&part(chars, i + 1, end))),
            None => None,
        };
    }
    let end = find_bare_end(chars, i);
    Some(decode_entities(&part(chars, i, end)))
}

fn find_attribute_value_end(chars: &[char], i: usize) -> (r: usize)
    requires
        i <= chars@.len(),
    ensures
        r == attribute_value_end(chars@, i as int),
        i <= r <= chars@.len(),
{
    if i < chars.len() && (chars[i] == '"' || chars[i] == '\'') {
        match find_char(chars, chars[i], i + 1) {
            Some(end) => end + 1,
            None => chars.len(),
        }
    } else {
        find_bare_end(chars, i)
    }
}

fn find_word(chars: &[char], from: usize) -> (r: usize)
    requires
        from <= chars@.len(),
    ensures
        r == between_words(chars@, from as int),
        from <= r <= chars@.len(),
{
    let mut i: usize = from;
    while i < chars.len() && (text::space(chars[i]) || chars[i] == '/')
        invariant
            from <= i <= chars@.len(),
            between_words(chars@, from as int) == between_words(chars@, i as int),
        decreases chars@.len() - i,
    {
        i += 1;
    }
    i
}

fn find_word_end(chars: &[char], from: usize) -> (r: usize)
    requires
        from <= chars@.len(),
    ensures
        r == word_end(chars@, from as int),
        from <= r <= chars@.len(),
{
    let mut i: usize = from;
    while i < chars.len() && !text::space(chars[i]) && chars[i] != '/' && chars[i] != '='
        invariant
            from <= i <= chars@.len(),
            word_end(chars@, from as int) == word_end(chars@, i as int),
        decreases chars@.len() - i,
    {
        i += 1;
    }
    i
}

/// The value of `name` in the inside of a tag, when the tag has it.
fn read_attribute(chars: &[char], name: &str) -> (r: Option<Vec<char>>)
    ensures
        crate::selector::optional(r) == attribute_in(chars@, name@),
{
    let length: usize = chars.len();
    let mut from: usize = 0;
    loop
        invariant
            from <= length,
            length == chars@.len(),
            attribute_in(chars@, name@) == attribute_from(chars@, name@, from as int),
        decreases length - from,
    {
        proof {
            lemma_between_words(chars@, from as int);
        }
        let start = find_word(chars, from);
        if start >= length {
            return None;
        }
        proof {
            lemma_word_end(chars@, start as int);
        }
        let end = find_word_end(chars, start);
        let equals = text::after_space(chars, end);
        if equals < length && chars[equals] == '=' {
            let value = text::after_space(chars, equals + 1);
            if text::spells(&to_lower(&part(chars, start, end)), name) {
                return read_attribute_value(chars, value);
            }
            from = find_attribute_value_end(chars, value);
        } else {
            from = end;
        }
    }
}

/// The decoded value of the attribute `name` in the inside of a tag, when
/// the tag has it.
pub fn attribute(tag: &str, name: &str) -> (r: Option<String>)
    ensures
        crate::model::optional(r) == attribute_in(tag@, name@),
{
    match read_attribute(&chars_of(tag), name) {
        Some(value) => Some(text_of(&value)),
        None => None,
    }
}

// -- Tags -------------------------------------------------------------------

/// The walk after an opening tag with this name and inside.
pub open spec fn opened(w: WalkModel, name: Seq<char>, tag: Seq<char>) -> WalkModel {
    if name == "strong"@ || name == "b"@ {
        WalkModel { bold_depth: w.bold_depth + 1, ..w }
    } else if name == "em"@ || name == "i"@ {
        WalkModel { italic_depth: w.italic_depth + 1, ..w }
    } else if name == "code"@ && w.pre_depth == 0 {
        WalkModel { code_depth: w.code_depth + 1, ..w }
    } else if name == "br"@ {
        with_break(w)
    } else if name == "img"@ {
        let f = flushed(w);
        match attribute_in(tag, "src"@) {
            Some(src) => WalkModel { blocks: f.blocks.push(BlockModel::Image(src)), ..f },
            None => f,
        }
    } else if name == "pre"@ {
        let f = flushed(w);
        WalkModel { pre_depth: f.pre_depth + 1, ..f }
    } else if name == "ul"@ {
        WalkModel { lists: w.lists.push(None), ..w }
    } else if name == "ol"@ {
        WalkModel { lists: w.lists.push(Some(1int)), ..w }
    } else if name == "table"@ {
        WalkModel {
            table: Some(TableModel { has_header: false, rows: Seq::empty(), cell: None }),
            ..flushed(w)
        }
    } else if name == "tr"@ {
        match w.table {
            Some(table) => WalkModel {
                table: Some(TableModel { rows: table.rows.push(Seq::empty()), ..table }),
                ..w
            },
            None => w,
        }
    } else if name == "td"@ || name == "th"@ {
        cell_opened(w, name == "th"@)
    } else if name == "hr"@ {
        let f = flushed(w);
        WalkModel { blocks: f.blocks.push(BlockModel::Paragraph(Seq::empty())), ..f }
    } else if is_block_tag(name) {
        block_opened(w, name)
    } else {
        w
    }
}

/// One less, but not below zero.
pub open spec fn less_one(n: int) -> int {
    if n > 0 {
        n - 1
    } else {
        0
    }
}

/// `s` without the newlines around it.
pub open spec fn without_newlines(s: Seq<char>) -> Seq<char>
    decreases s.len(),
{
    if s.len() > 0 && s.first() == '\n' {
        without_newlines(s.drop_first())
    } else if s.len() > 0 && s.last() == '\n' {
        without_newlines(s.drop_last())
    } else {
        s
    }
}

/// The rows that hold any cell.
pub open spec fn filled(rows: Seq<Seq<Seq<RunModel>>>) -> Seq<Seq<Seq<RunModel>>> {
    rows.filter(|row: Seq<Seq<RunModel>>| row.len() > 0)
}

/// The walk after `</pre>`: the outermost one ends the code.
pub open spec fn pre_closed(w: WalkModel) -> WalkModel {
    let depth = less_one(w.pre_depth);
    if depth > 0 {
        WalkModel { pre_depth: depth, ..w }
    } else {
        let code = without_newlines(w.code);
        WalkModel {
            pre_depth: 0,
            code: Seq::empty(),
            blocks: if code.len() == 0 {
                w.blocks
            } else {
                w.blocks.push(BlockModel::Code(code))
            },
            ..w
        }
    }
}

/// The walk after a table ends: the rows with cells are a table. Text in it
/// outside its cells, such as its caption, stands before it.
pub open spec fn table_closed(w: WalkModel) -> WalkModel {
    let c = cell_closed(w);
    match c.table {
        Some(table) => {
            let f = flushed(c);
            let rows = filled(table.rows);
            WalkModel {
                table: None,
                blocks: if rows.len() == 0 {
                    f.blocks
                } else {
                    f.blocks.push(BlockModel::Table(table.has_header, rows))
                },
                ..f
            }
        },
        None => c,
    }
}

/// The walk after the last open block is closed: code, a table, or text.
pub open spec fn finished(w: WalkModel) -> WalkModel {
    let p = if w.pre_depth > 0 {
        pre_closed(WalkModel { pre_depth: 1, ..w })
    } else {
        w
    };
    flushed(table_closed(p))
}

/// The walk after a closing tag with this name.
pub open spec fn closed(w: WalkModel, name: Seq<char>) -> WalkModel {
    if name == "strong"@ || name == "b"@ {
        WalkModel { bold_depth: less_one(w.bold_depth), ..w }
    } else if name == "em"@ || name == "i"@ {
        WalkModel { italic_depth: less_one(w.italic_depth), ..w }
    } else if name == "code"@ && w.pre_depth == 0 {
        WalkModel { code_depth: less_one(w.code_depth), ..w }
    } else if name == "pre"@ {
        pre_closed(w)
    } else if name == "ul"@ || name == "ol"@ {
        let f = flushed(w);
        WalkModel {
            lists: if f.lists.len() > 0 {
                f.lists.drop_last()
            } else {
                f.lists
            },
            ..f
        }
    } else if name == "td"@ || name == "th"@ {
        cell_closed(w)
    } else if name == "table"@ {
        table_closed(w)
    } else if is_block_tag(name) {
        WalkModel { kind: None, ..flushed(w) }
    } else {
        w
    }
}

// -- The walker -------------------------------------------------------------

struct TableBuilder {
    has_header: bool,
    rows: Vec<Vec<Vec<Run>>>,
    cell: Option<Vec<Run>>,
}

impl View for TableBuilder {
    type V = TableModel;

    closed spec fn view(&self) -> TableModel {
        TableModel {
            has_header: self.has_header,
            rows: rows_of(self.rows@),
            cell: match self.cell {
                Some(cell) => Some(runs_of(cell@)),
                None => None,
            },
        }
    }
}

struct Walker {
    blocks: Vec<Block>,
    current: Vec<Run>,
    kind: Option<BlockKind>,
    lists: Vec<Option<usize>>,
    item_number: Option<usize>,
    bold_depth: usize,
    italic_depth: usize,
    code_depth: usize,
    pre_depth: usize,
    code: Vec<char>,
    table: Option<TableBuilder>,
    is_after_space: bool,
}

spec fn numbers_of(lists: Seq<Option<usize>>) -> Seq<Option<int>> {
    lists.map_values(|next: Option<usize>| number_of(next))
}

spec fn table_of(table: Option<TableBuilder>) -> Option<TableModel> {
    match table {
        Some(t) => Some(t@),
        None => None,
    }
}

impl View for Walker {
    type V = WalkModel;

    closed spec fn view(&self) -> WalkModel {
        WalkModel {
            blocks: blocks_of(self.blocks@),
            current: runs_of(self.current@),
            kind: self.kind,
            lists: numbers_of(self.lists@),
            item_number: number_of(self.item_number),
            bold_depth: self.bold_depth as int,
            italic_depth: self.italic_depth as int,
            code_depth: self.code_depth as int,
            pre_depth: self.pre_depth as int,
            code: self.code@,
            table: table_of(self.table),
            is_after_space: self.is_after_space,
        }
    }
}

/// Each tag takes two characters at least, so no counter outgrows half the
/// text before `i`.
spec fn is_within(w: WalkModel, i: int) -> bool {
    &&& 2 * w.bold_depth <= i
    &&& 2 * w.italic_depth <= i
    &&& 2 * w.code_depth <= i
    &&& 2 * w.pre_depth <= i
    &&& forall|k: int|
        0 <= k < w.lists.len() ==> ((#[trigger] w.lists[k]) matches Some(n) ==> 2 * (n - 1) <= i)
}

fn push_block(blocks: &mut Vec<Block>, block: Block)
    ensures
        blocks_of(final(blocks)@) == blocks_of(old(blocks)@).push(block@),
{
    let ghost before = blocks@;
    blocks.push(block);
    assert(blocks_of(blocks@) =~= blocks_of(before).push(block@));
}

impl Walker {
    fn start() -> (r: Walker)
        ensures
            r@ == walk_start(),
    {
        let r = Walker {
            blocks: Vec::new(),
            current: Vec::new(),
            kind: None,
            lists: Vec::new(),
            item_number: None,
            bold_depth: 0,
            italic_depth: 0,
            code_depth: 0,
            pre_depth: 0,
            code: Vec::new(),
            table: None,
            is_after_space: false,
        };
        assert(blocks_of(r.blocks@) =~= Seq::<BlockModel>::empty());
        assert(runs_of(r.current@) =~= Seq::<RunModel>::empty());
        assert(numbers_of(r.lists@) =~= Seq::<Option<int>>::empty());
        r
    }

    /// Ends the open block, when it holds text.
    fn flush(&mut self)
        ensures
            final(self)@ == flushed(old(self)@),
    {
        let runs = trimmed(&self.current);
        self.current = Vec::new();
        assert(runs_of(self.current@) =~= Seq::<RunModel>::empty());
        self.is_after_space = true;
        if runs.len() == 0 {
            return;
        }
        let block = match self.kind {
            Some(BlockKind::Heading(level)) => Block::Heading(level, runs),
            Some(BlockKind::ListItem) => Block::ListItem { number: self.item_number, runs },
            Some(BlockKind::Quote) => Block::Quote(runs),
            Some(BlockKind::Paragraph) => Block::Paragraph(runs),
            None => Block::Paragraph(runs),
        };
        push_block(&mut self.blocks, block);
    }

    /// Adds one run with the open inline style to the open cell or block.
    fn push_run(&mut self, content: &[char])
        ensures
            final(self)@ == with_run(old(self)@, content@),
    {
        let run = Run {
            text: text_of(content),
            is_bold: self.bold_depth > 0,
            is_italic: self.italic_depth > 0,
            is_code: self.code_depth > 0,
        };
        let ghost model = run@;
        if let Some(mut table) = self.table.take() {
            if let Some(mut cell) = table.cell.take() {
                let ghost before = cell@;
                cell.push(run);
                assert(runs_of(cell@) =~= runs_of(before).push(model));
                table.cell = Some(cell);
                self.table = Some(table);
                return;
            }
            self.table = Some(table);
        }
        let ghost before = self.current@;
        self.current.push(run);
        assert(runs_of(self.current@) =~= runs_of(before).push(model));
    }

    /// Adds text: raw inside `<pre>`, collapsed elsewhere.
    fn text(&mut self, raw: &[char])
        ensures
            final(self)@ == with_text(old(self)@, raw@),
            forall|i: int| is_within(old(self)@, i) ==> is_within(final(self)@, i),
    {
        if raw.len() == 0 {
            return;
        }
        let decoded = decode_entities(raw);
        if self.pre_depth > 0 {
            text::extend_chars(&mut self.code, &decoded);
            return;
        }
        let collapsed = collapse_whitespace(&decoded, self.is_after_space);
        if collapsed.len() == 0 {
            return;
        }
        self.is_after_space = collapsed[collapsed.len() - 1] == ' ';
        self.push_run(&collapsed);
    }

    /// Adds a line break to the open block.
    fn line_break(&mut self)
        ensures
            final(self)@ == with_break(old(self)@),
    {
        if self.pre_depth > 0 {
            self.code.push('\n');
            return;
        }
        let mut line: Vec<char> = Vec::new();
        line.push('\n');
        assert(line@ =~= seq!['\n']);
        self.push_run(&line);
        self.is_after_space = true;
    }

    /// Ends the open table cell, if any.
    fn close_cell(&mut self)
        ensures
            final(self)@ == cell_closed(old(self)@),
    {
        if let Some(mut table) = self.table.take() {
            if let Some(cell) = table.cell.take() {
                let runs = trimmed(&cell);
                if let Some(mut row) = table.rows.pop() {
                    let ghost rows = rows_of(old(self).table->0.rows@);
                    let ghost cells = row@;
                    row.push(runs);
                    assert(cells_of(row@) =~= cells_of(cells).push(runs_of(runs@)));
                    table.rows.push(row);
                    assert(rows_of(table.rows@) =~= rows.update(
                        rows.len() - 1,
                        rows.last().push(runs_of(runs@)),
                    ));
                }
            }
            self.table = Some(table);
        }
    }

    /// Starts a table cell.
    fn open_cell(&mut self, is_header: bool)
        ensures
            final(self)@ == cell_opened(old(self)@, is_header),
    {
        self.close_cell();
        if let Some(mut table) = self.table.take() {
            if table.rows.len() == 0 {
                table.rows.push(Vec::new());
                assert(cells_of(Seq::<Vec<Run>>::empty()) =~= Seq::<Seq<RunModel>>::empty());
                assert(rows_of(table.rows@) =~= seq![Seq::<Seq<RunModel>>::empty()]);
            }
            if is_header && in_first_row(&table.rows) {
                table.has_header = true;
            }
            let cell: Vec<Run> = Vec::new();
            assert(runs_of(cell@) =~= Seq::<RunModel>::empty());
            table.cell = Some(cell);
            self.table = Some(table);
            self.is_after_space = true;
        }
    }
}

/// True when the last row is the first that holds cells.
fn in_first_row(rows: &Vec<Vec<Vec<Run>>>) -> (r: bool)
    requires
        rows@.len() > 0,
    ensures
        r == is_in_first_row(rows_of(rows@)),
{
    let ghost all = rows_of(rows@);
    let count: usize = rows.len();
    let mut k: usize = 0;
    while k < count - 1
        invariant
            k < count,
            count == rows@.len(),
            all == rows_of(rows@),
            forall|j: int| 0 <= j < k ==> (#[trigger] all[j]).len() == 0,
        decreases count - k,
    {
        assert(all[k as int] == cells_of(rows@[k as int]@));
        if rows[k].len() > 0 {
            return false;
        }
        k += 1;
    }
    true
}

fn block_tag(name: &str) -> (r: bool)
    ensures
        r == is_block_tag(name@),
{
    *name == *"address" || *name == *"article" || *name == *"aside" || *name == *"blockquote"
        || *name == *"div" || *name == *"dd" || *name == *"dt" || *name == *"figcaption" || *name
        == *"figure" || *name == *"footer" || *name == *"h1" || *name == *"h2" || *name == *"h3"
        || *name == *"h4" || *name == *"h5" || *name == *"h6" || *name == *"header" || *name
        == *"li" || *name == *"p" || *name == *"section"
}

fn block_kind(name: &str) -> (r: Option<BlockKind>)
    ensures
        r == kind_of(name@),
{
    if *name == *"h1" {
        Some(BlockKind::Heading(1))
    } else if *name == *"h2" {
        Some(BlockKind::Heading(2))
    } else if *name == *"h3" {
        Some(BlockKind::Heading(3))
    } else if *name == *"h4" {
        Some(BlockKind::Heading(4))
    } else if *name == *"h5" {
        Some(BlockKind::Heading(5))
    } else if *name == *"h6" {
        Some(BlockKind::Heading(6))
    } else if *name == *"li" {
        Some(BlockKind::ListItem)
    } else if *name == *"blockquote" {
        Some(BlockKind::Quote)
    } else if *name == *"p" || *name == *"dd" || *name == *"dt" || *name == *"figcaption" {
        Some(BlockKind::Paragraph)
    } else {
        None
    }
}

/// The code without the newlines around it.
fn strip_newlines(chars: &[char]) -> (r: Vec<char>)
    ensures
        r@ == without_newlines(chars@),
{
    let mut start: usize = 0;
    let mut end: usize = chars.len();
    assert(chars@.subrange(0, end as int) =~= chars@);
    while start < end && (chars[start] == '\n' || chars[end - 1] == '\n')
        invariant
            start <= end <= chars@.len(),
            without_newlines(chars@) == without_newlines(
                chars@.subrange(start as int, end as int),
            ),
        decreases end - start,
    {
        let ghost s = chars@.subrange(start as int, end as int);
        if chars[start] == '\n' {
            assert(s.drop_first() =~= chars@.subrange(start + 1, end as int));
            start += 1;
        } else {
            assert(s.drop_last() =~= chars@.subrange(start as int, end - 1));
            end -= 1;
        }
    }
    part(chars, start, end)
}

impl Walker {
    /// Starts a block for a block tag.
    fn open_block(&mut self, name: &str, Ghost(i): Ghost<int>)
        requires
            is_within(old(self)@, i),
            i < usize::MAX,
        ensures
            final(self)@ == block_opened(old(self)@, name@),
            is_within(final(self)@, i + 2),
    {
        self.flush();
        if *name == *"li" {
            self.kind = Some(BlockKind::ListItem);
            let ghost before = self@.lists;
            let ghost raw = self.lists@;
            match self.lists.pop() {
                Some(next) => {
                    assert(before.last() == number_of(next));
                    self.item_number = next;
                    match next {
                        Some(number) => {
                            self.lists.push(Some(number + 1));
                        },
                        None => {
                            self.lists.push(None);
                        },
                    }
                    assert(numbers_of(self.lists@) =~= (match number_of(next) {
                        Some(n) => before.update(before.len() - 1, Some(n + 1)),
                        None => before,
                    }));
                },
                None => {
                    assert(numbers_of(self.lists@) =~= before);
                    self.item_number = None;
                },
            }
        } else {
            self.kind = block_kind(name);
        }
    }

    /// Handles an opening tag.
    fn open(&mut self, name: &str, tag: &[char], Ghost(i): Ghost<int>)
        requires
            is_within(old(self)@, i),
            i < usize::MAX,
        ensures
            final(self)@ == opened(old(self)@, name@, tag@),
            is_within(final(self)@, i + 2),
    {
        if *name == *"strong" || *name == *"b" {
            self.bold_depth += 1;
        } else if *name == *"em" || *name == *"i" {
            self.italic_depth += 1;
        } else if *name == *"code" && self.pre_depth == 0 {
            self.code_depth += 1;
        } else if *name == *"br" {
            self.line_break();
        } else if *name == *"img" {
            self.flush();
            if let Some(src) = read_attribute(tag, "src") {
                push_block(&mut self.blocks, Block::Image(text_of(&src)));
            }
        } else if *name == *"pre" {
            self.flush();
            self.pre_depth += 1;
        } else if *name == *"ul" {
            let ghost before = self.lists@;
            self.lists.push(None);
            assert(numbers_of(self.lists@) =~= numbers_of(before).push(None));
        } else if *name == *"ol" {
            let ghost before = self.lists@;
            self.lists.push(Some(1));
            assert(numbers_of(self.lists@) =~= numbers_of(before).push(Some(1int)));
        } else if *name == *"table" {
            self.flush();
            let table = TableBuilder { has_header: false, rows: Vec::new(), cell: None };
            assert(rows_of(table.rows@) =~= Seq::<Seq<Seq<RunModel>>>::empty());
            self.table = Some(table);
        } else if *name == *"tr" {
            if let Some(mut table) = self.table.take() {
                let ghost before = table.rows@;
                let row: Vec<Vec<Run>> = Vec::new();
                assert(cells_of(row@) =~= Seq::<Seq<RunModel>>::empty());
                table.rows.push(row);
                assert(rows_of(table.rows@) =~= rows_of(before).push(Seq::empty()));
                self.table = Some(table);
            }
        } else if *name == *"td" || *name == *"th" {
            self.open_cell(*name == *"th");
        } else if *name == *"hr" {
            self.flush();
            let none: Vec<Run> = Vec::new();
            assert(runs_of(none@) =~= Seq::<RunModel>::empty());
            push_block(&mut self.blocks, Block::Paragraph(none));
        } else if block_tag(name) {
            self.open_block(name, Ghost(i));
        }
    }

    /// Ends the outermost preformatted code, when it holds any.
    fn close_pre(&mut self)
        ensures
            final(self)@ == pre_closed(old(self)@),
    {
        if self.pre_depth > 1 {
            self.pre_depth -= 1;
            return;
        }
        self.pre_depth = 0;
        let code = strip_newlines(&self.code);
        self.code = Vec::new();
        assert(self.code@ =~= Seq::<char>::empty());
        if code.len() > 0 {
            push_block(&mut self.blocks, Block::Code(text_of(&code)));
        }
    }

    /// Ends the open table. Rows without cells are dropped.
    fn close_table(&mut self)
        ensures
            final(self)@ == table_closed(old(self)@),
    {
        self.close_cell();
        if let Some(table) = self.table.take() {
            self.flush();
            let rows = filled_rows(table.rows);
            if rows.len() > 0 {
                push_block(
                    &mut self.blocks,
                    Block::Table { has_header: table.has_header, rows },
                );
            }
        }
    }

    /// Closes the last open block.
    fn finish(&mut self)
        ensures
            final(self)@ == finished(old(self)@),
    {
        if self.pre_depth > 0 {
            self.pre_depth = 1;
            self.close_pre();
        }
        self.close_table();
        self.flush();
    }

    /// Handles a closing tag.
    fn close(&mut self, name: &str, Ghost(i): Ghost<int>)
        requires
            is_within(old(self)@, i),
        ensures
            final(self)@ == closed(old(self)@, name@),
            is_within(final(self)@, i),
    {
        if *name == *"strong" || *name == *"b" {
            self.bold_depth = self.bold_depth.saturating_sub(1);
        } else if *name == *"em" || *name == *"i" {
            self.italic_depth = self.italic_depth.saturating_sub(1);
        } else if *name == *"code" && self.pre_depth == 0 {
            self.code_depth = self.code_depth.saturating_sub(1);
        } else if *name == *"pre" {
            self.close_pre();
        } else if *name == *"ul" || *name == *"ol" {
            self.flush();
            let ghost before = self.lists@;
            let _ = self.lists.pop();
            assert(before.len() > 0 ==> numbers_of(self.lists@) =~= numbers_of(before).drop_last());
        } else if *name == *"td" || *name == *"th" {
            self.close_cell();
        } else if *name == *"table" {
            self.close_table();
        } else if block_tag(name) {
            self.flush();
            self.kind = None;
        }
    }
}

/// The rows that hold any cell, in order.
fn filled_rows(rows: Vec<Vec<Vec<Run>>>) -> (r: Vec<Vec<Vec<Run>>>)
    ensures
        rows_of(r@) == filled(rows_of(rows@)),
{
    let ghost all = rows_of(rows@);
    let mut kept: Vec<Vec<Vec<Run>>> = Vec::new();
    proof {
        reveal(Seq::filter);
        assert(rows_of(kept@) =~= filled(all.take(0)));
    }
    for row in it: rows
        invariant
            it.seq() == rows@,
            all == rows_of(rows@),
            rows_of(kept@) == filled(all.take(it.index() as int)),
    {
        let ghost n = it.index() as int;
        assert(all[n] == cells_of(row@));
        proof {
            reveal(Seq::filter);
            assert(all.take(n + 1).drop_last() =~= all.take(n));
        }
        if row.len() > 0 {
            let ghost before = kept@;
            let ghost cells = cells_of(row@);
            kept.push(row);
            assert(rows_of(kept@) =~= rows_of(before).push(cells));
        }
    }
    assert(all.take(rows@.len() as int) =~= all);
    kept
}

// -- The whole walk ---------------------------------------------------------

/// The position behind the slashes at `i`.
pub open spec fn skip_slashes(s: Seq<char>, i: int) -> int
    decreases s.len() - i,
{
    if 0 <= i < s.len() && s[i] == '/' {
        skip_slashes(s, i + 1)
    } else {
        i
    }
}

/// Where the tag name at `i` ends: at white space, at a slash, or at the end.
pub open spec fn tag_name_end(s: Seq<char>, i: int) -> int
    decreases s.len() - i,
{
    if 0 <= i < s.len() && !text::is_space(s[i]) && s[i] != '/' {
        tag_name_end(s, i + 1)
    } else {
        i
    }
}

/// The name of the tag with inside `s`, in lower case.
pub open spec fn tag_name(s: Seq<char>) -> Seq<char> {
    let start = skip_slashes(s, 0);
    text::lower(s.subrange(start, tag_name_end(s, start)))
}

/// The walk over `s` from position `i`. An `<svg>` is skipped whole, up to the
/// closing tag that matches it.
pub open spec fn walked_from(s: Seq<char>, i: int, w: WalkModel) -> WalkModel
    decreases s.len() - i,
    via walked_decreases
{
    if !(0 <= i < s.len()) {
        w
    } else {
        match text::find_char_from(s, '<', i) {
            None => with_text(w, s.subrange(i, s.len() as int)),
            Some(p) => {
                let before = with_text(w, s.subrange(i, p));
                match text::find_char_from(s, '>', p) {
                    None => before,
                    Some(q) => {
                        let tag = s.subrange(p + 1, q);
                        let name = tag_name(tag);
                        let is_closing = tag.len() > 0 && tag[0] == '/';
                        if name == "svg"@ && !is_closing {
                            walked_from(s, dom::svg_end(s, q + 1, 0).1, before)
                        } else if is_closing {
                            walked_from(s, q + 1, closed(before, name))
                        } else {
                            walked_from(s, q + 1, opened(before, name, tag))
                        }
                    },
                }
            },
        }
    }
}

#[via_fn]
proof fn walked_decreases(s: Seq<char>, i: int, w: WalkModel) {
    if 0 <= i < s.len() {
        text::lemma_find_char_from(s, '<', i);
        if let Some(p) = text::find_char_from(s, '<', i) {
            text::lemma_find_char_from(s, '>', p);
            if let Some(q) = text::find_char_from(s, '>', p) {
                dom::lemma_svg_end(s, q + 1, 0);
            }
        }
    }
}

/// The blocks of the fragment `s`, in reading order.
pub open spec fn blocks_in(s: Seq<char>) -> Seq<BlockModel> {
    finished(walked_from(s, 0, walk_start())).blocks
}

fn read_tag_name(tag: &[char]) -> (r: String)
    ensures
        r@ == tag_name(tag@),
{
    let mut start: usize = 0;
    while start < tag.len() && tag[start] == '/'
        invariant
            start <= tag@.len(),
            skip_slashes(tag@, 0) == skip_slashes(tag@, start as int),
        decreases tag@.len() - start,
    {
        start += 1;
    }
    let mut end: usize = start;
    while end < tag.len() && !text::space(tag[end]) && tag[end] != '/'
        invariant
            start <= end <= tag@.len(),
            tag_name_end(tag@, start as int) == tag_name_end(tag@, end as int),
        decreases tag@.len() - end,
    {
        end += 1;
    }
    text_of(&to_lower(&part(tag, start, end)))
}

/// The blocks of one HTML fragment, in reading order.
pub fn blocks_from_html(html: &str) -> (r: Vec<Block>)
    ensures
        blocks_of(r@) == blocks_in(html@),
{
    let s = chars_of(html);
    let length: usize = s.len();
    let mut walker = Walker::start();
    let mut i: usize = 0;
    while i < length
        invariant_except_break
            i <= length,
            length == s@.len(),
            s@ == html@,
            is_within(walker@, i as int),
            walked_from(s@, 0, walk_start()) == walked_from(s@, i as int, walker@),
        ensures
            walked_from(s@, 0, walk_start()) == walker@,
        decreases length - i,
    {
        let Some(p) = find_char(&s, '<', i) else {
            walker.text(&part(&s, i, length));
            break;
        };
        walker.text(&part(&s, i, p));
        let Some(q) = find_char(&s, '>', p) else {
            break;
        };
        let tag = part(&s, p + 1, q);
        let name = read_tag_name(&tag);
        let is_closing = tag.len() > 0 && tag[0] == '/';
        if *name.as_str() == *"svg" && !is_closing {
            i = raw_svg_content(&s, q + 1).1;
        } else if is_closing {
            walker.close(name.as_str(), Ghost(i as int));
            i = q + 1;
        } else {
            walker.open(name.as_str(), &tag, Ghost(i as int));
            i = q + 1;
        }
    }
    walker.finish();
    walker.blocks
}

/// The blocks of the first `n` pages, with a page break between pages.
pub open spec fn blocks_of_pages(pages: Seq<Seq<char>>, n: int) -> Seq<BlockModel>
    decreases n,
{
    if n <= 0 {
        Seq::empty()
    } else if n == 1 {
        blocks_in(pages[0])
    } else {
        blocks_of_pages(pages, n - 1).push(BlockModel::PageBreak) + blocks_in(pages[n - 1])
    }
}

/// The HTML of each page of a document.
pub open spec fn pages_html(document: Document) -> Seq<Seq<char>> {
    document.pages@.map_values(|page: crate::model::Page| page.html@)
}

/// The body blocks of the whole document: every page's blocks, with a page
/// break between pages.
pub fn document_blocks(document: &Document) -> (r: Vec<Block>)
    ensures
        blocks_of(r@) == blocks_of_pages(pages_html(*document), document.pages@.len() as int),
{
    let ghost pages = pages_html(*document);
    let mut blocks: Vec<Block> = Vec::new();
    let mut i: usize = 0;
    assert(blocks_of(blocks@) =~= Seq::<BlockModel>::empty());
    while i < document.pages.len()
        invariant
            i <= document.pages@.len(),
            pages == pages_html(*document),
            blocks_of(blocks@) == blocks_of_pages(pages, i as int),
        decreases document.pages@.len() - i,
    {
        if i > 0 {
            push_block(&mut blocks, Block::PageBreak);
        }
        let ghost before = blocks@;
        assert(pages[i as int] == document.pages@[i as int].html@);
        let mut more = blocks_from_html(document.pages[i].html.as_str());
        let ghost added = more@;
        blocks.append(&mut more);
        assert(blocks_of(blocks@) =~= blocks_of(before) + blocks_of(added));
        assert(blocks_of(blocks@) =~= blocks_of_pages(pages, i + 1));
        i += 1;
    }
    blocks
}

// -- What every page gives --------------------------------------------------

/// True for runs without white space around them: none is empty, the first
/// does not begin with white space, and the last does not end with it.
pub open spec fn are_trimmed(runs: Seq<RunModel>) -> bool {
    &&& forall|k: int| 0 <= k < runs.len() ==> (#[trigger] runs[k]).text.len() > 0
    &&& runs.len() > 0 ==> !text::is_space(runs.first().text.first()) && !text::is_space(
        runs.last().text.last(),
    )
}

/// True for code that neither begins nor ends with a newline.
pub open spec fn is_code_text(code: Seq<char>) -> bool {
    code.len() > 0 && code.first() != '\n' && code.last() != '\n'
}

/// True for a row of trimmed cells.
pub open spec fn is_row(row: Seq<Seq<RunModel>>) -> bool {
    forall|k: int| 0 <= k < row.len() ==> are_trimmed(#[trigger] row[k])
}

/// True for a number that an item of a list can have, or none.
pub open spec fn is_item_number(number: Option<int>) -> bool {
    number matches Some(n) ==> n >= 1
}

/// True for a block that a page gives: a heading of level 1 to 6, an item, a
/// quote or code with text, a table of rows with cells, or an image. A rule
/// (`<hr>`) gives the one paragraph without text. Text has no white space
/// around it, items count from 1, and code has no newline at either end. No
/// page breaks itself.
pub open spec fn is_page_block(block: BlockModel) -> bool {
    match block {
        BlockModel::Heading(level, runs) => 1 <= level <= 6 && runs.len() > 0 && are_trimmed(runs),
        BlockModel::Paragraph(runs) => are_trimmed(runs),
        BlockModel::ListItem(number, runs) => is_item_number(number) && runs.len() > 0
            && are_trimmed(runs),
        BlockModel::Quote(runs) => runs.len() > 0 && are_trimmed(runs),
        BlockModel::Code(code) => is_code_text(code),
        BlockModel::Table(_, rows) => rows.len() > 0 && forall|k: int|
            0 <= k < rows.len() ==> (#[trigger] rows[k]).len() > 0 && is_row(rows[k]),
        BlockModel::Image(_) => true,
        BlockModel::PageBreak => false,
    }
}

/// True when every block is one that a page gives.
pub open spec fn are_page_blocks(blocks: Seq<BlockModel>) -> bool {
    forall|k: int| 0 <= k < blocks.len() ==> is_page_block(#[trigger] blocks[k])
}

spec fn are_rows(table: Option<TableModel>) -> bool {
    table matches Some(t) ==> forall|k: int| 0 <= k < t.rows.len() ==> is_row(#[trigger] t.rows[k])
}

spec fn is_sound(w: WalkModel) -> bool {
    &&& are_page_blocks(w.blocks)
    &&& w.kind matches Some(BlockKind::Heading(level)) ==> 1 <= level <= 6
    &&& is_item_number(w.item_number)
    &&& forall|k: int| 0 <= k < w.lists.len() ==> is_item_number(#[trigger] w.lists[k])
    &&& are_rows(w.table)
}

proof fn lemma_flushed(w: WalkModel)
    requires
        is_sound(w),
    ensures
        is_sound(flushed(w)),
{
    law_trimmed_runs_hold_the_trimmed_text(w.current);
}

proof fn lemma_cell_closed(w: WalkModel)
    requires
        is_sound(w),
    ensures
        is_sound(cell_closed(w)),
{
    if let Some(table) = w.table {
        if let Some(cell) = table.cell {
            law_trimmed_runs_hold_the_trimmed_text(cell);
            if table.rows.len() > 0 {
                let last = table.rows.last();
                let longer = last.push(trimmed_runs(cell));
                assert(is_row(table.rows[table.rows.len() - 1]));
                assert forall|k: int| 0 <= k < longer.len() implies are_trimmed(
                    #[trigger] longer[k],
                ) by {
                    if k < last.len() {
                        assert(longer[k] == last[k]);
                    }
                }
                assert(is_row(longer));
            }
        }
    }
}

proof fn lemma_cell_opened(w: WalkModel, is_header: bool)
    requires
        is_sound(w),
    ensures
        is_sound(cell_opened(w, is_header)),
{
    lemma_cell_closed(w);
    assert(is_row(Seq::<Seq<RunModel>>::empty()));
}

proof fn lemma_block_opened(w: WalkModel, name: Seq<char>)
    requires
        is_sound(w),
    ensures
        is_sound(block_opened(w, name)),
{
    lemma_flushed(w);
}

proof fn lemma_opened(w: WalkModel, name: Seq<char>, tag: Seq<char>)
    requires
        is_sound(w),
    ensures
        is_sound(opened(w, name, tag)),
{
    lemma_flushed(w);
    lemma_cell_opened(w, name == "th"@);
    lemma_block_opened(w, name);
    assert(is_row(Seq::<Seq<RunModel>>::empty()));
    if name == "ul"@ || name == "ol"@ {
        let next = if name == "ul"@ {
            None
        } else {
            Some(1int)
        };
        assert forall|k: int| 0 <= k < w.lists.push(next).len() implies is_item_number(
            #[trigger] w.lists.push(next)[k],
        ) by {
            if k < w.lists.len() {
                assert(w.lists.push(next)[k] == w.lists[k]);
            }
        }
    }
}

proof fn lemma_without_newlines(s: Seq<char>)
    ensures
        without_newlines(s).len() > 0 ==> is_code_text(without_newlines(s)),
    decreases s.len(),
{
    if s.len() > 0 && s.first() == '\n' {
        lemma_without_newlines(s.drop_first());
    } else if s.len() > 0 && s.last() == '\n' {
        lemma_without_newlines(s.drop_last());
    }
}

proof fn lemma_pre_closed(w: WalkModel)
    requires
        is_sound(w),
    ensures
        is_sound(pre_closed(w)),
{
    lemma_without_newlines(w.code);
}

proof fn lemma_closed(w: WalkModel, name: Seq<char>)
    requires
        is_sound(w),
    ensures
        is_sound(closed(w, name)),
{
    lemma_flushed(w);
    lemma_cell_closed(w);
    lemma_pre_closed(w);
    lemma_table_closed(w);
}

proof fn lemma_table_closed(w: WalkModel)
    requires
        is_sound(w),
    ensures
        is_sound(table_closed(w)),
{
    let c = cell_closed(w);
    lemma_cell_closed(w);
    lemma_flushed(c);
    if let Some(table) = c.table {
        lemma_filled(table.rows);
    }
}

/// The rows that hold cells are rows of the table.
proof fn lemma_filled(rows: Seq<Seq<Seq<RunModel>>>)
    requires
        forall|k: int| 0 <= k < rows.len() ==> is_row(#[trigger] rows[k]),
    ensures
        forall|k: int|
            0 <= k < filled(rows).len() ==> (#[trigger] filled(rows)[k]).len() > 0 && is_row(
                filled(rows)[k],
            ),
    decreases rows.len(),
{
    reveal(Seq::filter);
    if rows.len() > 0 {
        let before = filled(rows.drop_last());
        assert forall|k: int| 0 <= k < rows.drop_last().len() implies is_row(
            #[trigger] rows.drop_last()[k],
        ) by {
            assert(rows.drop_last()[k] == rows[k]);
        }
        lemma_filled(rows.drop_last());
        assert(is_row(rows[rows.len() - 1]));
        assert forall|k: int| 0 <= k < filled(rows).len() implies (#[trigger] filled(rows)[k]).len()
            > 0 && is_row(filled(rows)[k]) by {
            if k < before.len() {
                assert(filled(rows)[k] == before[k]);
            }
        }
    }
}

proof fn lemma_walked(s: Seq<char>, i: int, w: WalkModel)
    requires
        is_sound(w),
    ensures
        is_sound(walked_from(s, i, w)),
    decreases s.len() - i,
{
    if 0 <= i < s.len() {
        text::lemma_find_char_from(s, '<', i);
        if let Some(p) = text::find_char_from(s, '<', i) {
            let before = with_text(w, s.subrange(i, p));
            text::lemma_find_char_from(s, '>', p);
            if let Some(q) = text::find_char_from(s, '>', p) {
                let tag = s.subrange(p + 1, q);
                let name = tag_name(tag);
                dom::lemma_svg_end(s, q + 1, 0);
                lemma_closed(before, name);
                lemma_opened(before, name, tag);
                lemma_walked(s, q + 1, closed(before, name));
                lemma_walked(s, q + 1, opened(before, name, tag));
                lemma_walked(s, dom::svg_end(s, q + 1, 0).1, before);
            }
        }
    }
}

/// Whatever the HTML, a page gives headings of level 1 to 6, items that count
/// from 1, quotes and code, each with text, tables of rows with cells, and no
/// page break. Text has no white space around it and no empty run, and code
/// has no newline at either end.
pub proof fn law_a_page_gives_page_blocks(s: Seq<char>)
    ensures
        are_page_blocks(blocks_in(s)),
{
    let w = walked_from(s, 0, walk_start());
    lemma_walked(s, 0, walk_start());
    let p = if w.pre_depth > 0 {
        lemma_pre_closed(WalkModel { pre_depth: 1, ..w });
        pre_closed(WalkModel { pre_depth: 1, ..w })
    } else {
        w
    };
    lemma_table_closed(p);
    lemma_flushed(table_closed(p));
}

/// How many page breaks are among the blocks.
pub open spec fn break_count(blocks: Seq<BlockModel>) -> nat {
    blocks.filter(|block: BlockModel| block is PageBreak).len()
}

proof fn lemma_break_count(a: Seq<BlockModel>, b: Seq<BlockModel>)
    ensures
        break_count(a + b) == break_count(a) + break_count(b),
{
    Seq::filter_distributes_over_add(a, b, |block: BlockModel| block is PageBreak);
}

proof fn lemma_no_breaks(blocks: Seq<BlockModel>)
    requires
        are_page_blocks(blocks),
    ensures
        break_count(blocks) == 0,
    decreases blocks.len(),
{
    reveal(Seq::filter);
    if blocks.len() > 0 {
        assert forall|k: int| 0 <= k < blocks.drop_last().len() implies is_page_block(
            #[trigger] blocks.drop_last()[k],
        ) by {
            assert(is_page_block(blocks[k]));
        }
        assert(is_page_block(blocks[blocks.len() - 1]));
        lemma_no_breaks(blocks.drop_last());
    }
}

/// The pages of a document are joined by page breaks: one less than there
/// are pages.
pub proof fn law_page_breaks_join_the_pages(pages: Seq<Seq<char>>, n: int)
    requires
        0 <= n <= pages.len(),
    ensures
        break_count(blocks_of_pages(pages, n)) == (if n > 0 {
            n - 1
        } else {
            0
        }),
    decreases n,
{
    reveal(Seq::filter);
    if n > 0 {
        law_a_page_gives_page_blocks(pages[n - 1]);
        lemma_no_breaks(blocks_in(pages[n - 1]));
    }
    if n > 1 {
        law_page_breaks_join_the_pages(pages, n - 1);
        let before = blocks_of_pages(pages, n - 1);
        let broken = before.push(BlockModel::PageBreak);
        assert(broken.drop_last() =~= before);
        assert(break_count(broken) == break_count(before) + 1);
        lemma_break_count(broken, blocks_in(pages[n - 1]));
    }
}

proof fn lemma_pages_of_prefix(a: Seq<Seq<char>>, b: Seq<Seq<char>>, n: int)
    requires
        0 <= n <= a.len(),
    ensures
        blocks_of_pages(a + b, n) == blocks_of_pages(a, n),
    decreases n,
{
    if n > 0 {
        lemma_pages_of_prefix(a, b, n - 1);
        assert((a + b)[n - 1] == a[n - 1]);
        assert((a + b)[0] == a[0]);
    }
}

/// The pages of a document stand in order: the blocks of the first pages, a
/// page break, then the blocks of the pages behind them.
pub proof fn law_pages_follow_each_other(a: Seq<Seq<char>>, b: Seq<Seq<char>>)
    requires
        a.len() > 0,
        b.len() > 0,
    ensures
        blocks_of_pages(a + b, (a + b).len() as int) == blocks_of_pages(a, a.len() as int).push(
            BlockModel::PageBreak,
        ) + blocks_of_pages(b, b.len() as int),
        a.len() == 1 ==> blocks_of_pages(a, 1) == blocks_in(a[0]),
    decreases b.len(),
{
    let first = blocks_of_pages(a, a.len() as int).push(BlockModel::PageBreak);
    let all = a + b;
    let rest = b.drop_last();
    let tail = seq![b.last()];
    assert(all =~= (a + rest) + tail);
    assert(b =~= rest + tail);
    assert(all[all.len() - 1] == b.last());
    lemma_pages_of_prefix(a + rest, tail, (a + rest).len() as int);
    if b.len() == 1 {
        assert(a + rest =~= a);
    } else {
        law_pages_follow_each_other(a, rest);
        lemma_pages_of_prefix(rest, tail, rest.len() as int);
        let middle = blocks_of_pages(rest, rest.len() as int);
        assert((first + middle).push(BlockModel::PageBreak) + blocks_in(b.last()) =~= first
            + (middle.push(BlockModel::PageBreak) + blocks_in(b.last())));
    }
}

// -- What a page says -------------------------------------------------------

/// A text without its white space.
pub open spec fn solid(s: Seq<char>) -> Seq<char> {
    s.filter(|c: char| !text::is_space(c))
}

/// The text of a block, without its style.
pub open spec fn block_says(block: BlockModel) -> Seq<char> {
    match block {
        BlockModel::Heading(_, runs) => plain_text(runs),
        BlockModel::Paragraph(runs) => plain_text(runs),
        BlockModel::ListItem(_, runs) => plain_text(runs),
        BlockModel::Quote(runs) => plain_text(runs),
        BlockModel::Code(code) => code,
        BlockModel::Table(_, rows) => rows.map_values(
            |row: Seq<Seq<RunModel>>|
                row.map_values(|cell: Seq<RunModel>| plain_text(cell)).flatten(),
        ).flatten(),
        BlockModel::Image(_) => Seq::empty(),
        BlockModel::PageBreak => Seq::empty(),
    }
}

/// The text of blocks, in order.
pub open spec fn blocks_say(blocks: Seq<BlockModel>) -> Seq<char> {
    blocks.map_values(|block: BlockModel| block_says(block)).flatten()
}

/// The text of a fragment from position `i` on: what stands between its tags,
/// decoded, without the drawings.
pub open spec fn page_says(s: Seq<char>, i: int) -> Seq<char>
    decreases s.len() - i,
    via says_decreases
{
    if !(0 <= i < s.len()) {
        Seq::empty()
    } else {
        match text::find_char_from(s, '<', i) {
            None => markup::decoded(s.subrange(i, s.len() as int)),
            Some(p) => markup::decoded(s.subrange(i, p)) + match text::find_char_from(s, '>', p) {
                None => Seq::empty(),
                Some(q) => if tag_name(s.subrange(p + 1, q)) == "svg"@ && s[p + 1] != '/' {
                    page_says(s, dom::svg_end(s, q + 1, 0).1)
                } else {
                    page_says(s, q + 1)
                },
            },
        }
    }
}

#[via_fn]
proof fn says_decreases(s: Seq<char>, i: int) {
    if 0 <= i < s.len() {
        text::lemma_find_char_from(s, '<', i);
        if let Some(p) = text::find_char_from(s, '<', i) {
            text::lemma_find_char_from(s, '>', p);
            if let Some(q) = text::find_char_from(s, '>', p) {
                dom::lemma_svg_end(s, q + 1, 0);
            }
        }
    }
}

/// True for a fragment without a table.
pub open spec fn is_table_free(s: Seq<char>) -> bool {
    forall|i: int| !#[trigger] dom::stands_in_any_case(s, "<table"@, i)
}

proof fn lemma_solid_of_joined(a: Seq<char>, b: Seq<char>)
    ensures
        solid(a + b) == solid(a) + solid(b),
{
    Seq::filter_distributes_over_add(a, b, |c: char| !text::is_space(c));
}

proof fn lemma_solid_push(s: Seq<char>, c: char)
    ensures
        solid(s.push(c)) == if text::is_space(c) {
            solid(s)
        } else {
            solid(s).push(c)
        },
{
    reveal(Seq::filter);
    assert(s.push(c).drop_last() =~= s);
}

proof fn lemma_solid_of_space(s: Seq<char>)
    requires
        forall|j: int| 0 <= j < s.len() ==> text::is_space(#[trigger] s[j]),
    ensures
        solid(s) == Seq::<char>::empty(),
    decreases s.len(),
{
    reveal(Seq::filter);
    if s.len() > 0 {
        let rest = s.drop_last();
        assert forall|j: int| 0 <= j < rest.len() implies text::is_space(#[trigger] rest[j]) by {
            assert(rest[j] == s[j]);
        }
        lemma_solid_of_space(rest);
        assert(text::is_space(s[s.len() - 1]));
    }
}

proof fn lemma_solid_of_trimmed(s: Seq<char>)
    ensures
        solid(text::trim(s)) == solid(s),
{
    text::law_trimming_takes_white_space_alone(s);
    let t = text::trim(s);
    let i = choose|i: int|
        #![trigger text::stands_at(s, t, i)]
        text::stands_at(s, t, i) && (forall|j: int| 0 <= j < i ==> text::is_space(#[trigger] s[j]))
            && (forall|j: int| i + t.len() <= j < s.len() ==> text::is_space(#[trigger] s[j]));
    let end = i + t.len();
    let before = s.subrange(0, i);
    let behind = s.subrange(end, s.len() as int);
    assert(s =~= before + s.subrange(i, end) + behind);
    assert forall|j: int| 0 <= j < before.len() implies text::is_space(#[trigger] before[j]) by {
        assert(before[j] == s[j]);
    }
    assert forall|j: int| 0 <= j < behind.len() implies text::is_space(#[trigger] behind[j]) by {
        assert(behind[j] == s[end + j]);
    }
    lemma_solid_of_space(before);
    lemma_solid_of_space(behind);
    lemma_solid_of_joined(before + t, behind);
    lemma_solid_of_joined(before, t);
    assert(Seq::<char>::empty() + solid(t) + Seq::<char>::empty() =~= solid(t));
}

proof fn lemma_solid_of_collapsed(s: Seq<char>, after_space: bool)
    ensures
        solid(collapsed(s, after_space)) == solid(s),
    decreases s.len(),
{
    if s.len() > 0 {
        let rest = s.drop_last();
        let before = collapsed(rest, after_space);
        lemma_solid_of_collapsed(rest, after_space);
        lemma_solid_push(rest, s.last());
        assert(rest.push(s.last()) =~= s);
        lemma_solid_push(before, s.last());
        lemma_solid_push(before, ' ');
    } else {
        assert(s =~= Seq::<char>::empty());
    }
}

proof fn lemma_solid_of_code(s: Seq<char>)
    ensures
        solid(without_newlines(s)) == solid(s),
    decreases s.len(),
{
    if s.len() > 0 && s.first() == '\n' {
        lemma_solid_of_code(s.drop_first());
        assert(s =~= seq!['\n'] + s.drop_first());
        lemma_solid_of_joined(seq!['\n'], s.drop_first());
        lemma_solid_of_space(seq!['\n']);
        assert(Seq::<char>::empty() + solid(s.drop_first()) =~= solid(s.drop_first()));
    } else if s.len() > 0 && s.last() == '\n' {
        lemma_solid_of_code(s.drop_last());
        lemma_solid_push(s.drop_last(), '\n');
        assert(s.drop_last().push('\n') =~= s);
    }
}

/// The text that a walk holds: its blocks, the open block, and open code.
spec fn held(w: WalkModel) -> Seq<char> {
    solid(blocks_say(w.blocks)) + solid(plain_text(w.current)) + solid(w.code)
}

/// True for a walk that is in no table: text is open, or code is, not both.
spec fn is_plain(w: WalkModel) -> bool {
    &&& w.table is None
    &&& w.pre_depth >= 0
    &&& w.pre_depth > 0 ==> w.current.len() == 0
    &&& w.pre_depth == 0 ==> w.code.len() == 0
}

proof fn lemma_blocks_say_push(blocks: Seq<BlockModel>, block: BlockModel)
    ensures
        solid(blocks_say(blocks.push(block))) == solid(blocks_say(blocks)) + solid(
            block_says(block),
        ),
{
    let word = |block: BlockModel| block_says(block);
    assert(blocks.push(block).map_values(word) =~= blocks.map_values(word).push(
        block_says(block),
    ));
    text::lemma_flatten_push(blocks.map_values(word), block_says(block));
    lemma_solid_of_joined(blocks_say(blocks), block_says(block));
}

proof fn lemma_solid_of_nothing()
    ensures
        solid(Seq::empty()) == Seq::<char>::empty(),
        plain_text(Seq::empty()) == Seq::<char>::empty(),
{
    lemma_solid_of_space(Seq::empty());
}

proof fn lemma_flush_says(w: WalkModel)
    requires
        is_plain(w),
    ensures
        is_plain(flushed(w)),
        held(flushed(w)) == held(w),
        flushed(w).current.len() == 0,
{
    let runs = trimmed_runs(w.current);
    law_trimmed_runs_hold_the_trimmed_text(w.current);
    lemma_solid_of_trimmed(plain_text(w.current));
    lemma_solid_of_nothing();
    let blocks = solid(blocks_say(w.blocks));
    let open = solid(plain_text(w.current));
    if runs.len() == 0 {
        assert(runs =~= Seq::<RunModel>::empty());
    } else {
        let block = block_for(w.kind, w.item_number, runs);
        assert(block_says(block) == plain_text(runs));
        lemma_blocks_say_push(w.blocks, block);
    }
    assert(held(flushed(w)) =~= held(w));
}

proof fn lemma_text_says(w: WalkModel, raw: Seq<char>)
    requires
        is_plain(w),
    ensures
        is_plain(with_text(w, raw)),
        held(with_text(w, raw)) == held(w) + solid(markup::decoded(raw)),
{
    let decoded = markup::decoded(raw);
    lemma_solid_of_nothing();
    if raw.len() == 0 {
        assert(decoded =~= Seq::<char>::empty());
        assert(held(w) + Seq::<char>::empty() =~= held(w));
    } else if w.pre_depth > 0 {
        lemma_solid_of_joined(w.code, decoded);
        assert(held(with_text(w, raw)) =~= held(w) + solid(decoded));
    } else {
        let s = collapsed(decoded, w.is_after_space);
        lemma_solid_of_collapsed(decoded, w.is_after_space);
        assert(w.code =~= Seq::<char>::empty());
        if s.len() == 0 {
            assert(s =~= Seq::<char>::empty());
            assert(held(w) + Seq::<char>::empty() =~= held(w));
        } else {
            lemma_run_says(WalkModel { is_after_space: s.last() == ' ', ..w }, s);
        }
    }
}

proof fn lemma_run_says(w: WalkModel, s: Seq<char>)
    requires
        is_plain(w),
        w.pre_depth == 0,
    ensures
        is_plain(with_run(w, s)),
        held(with_run(w, s)) == held(w) + solid(s),
{
    let run = RunModel {
        text: s,
        is_bold: w.bold_depth > 0,
        is_italic: w.italic_depth > 0,
        is_code: w.code_depth > 0,
    };
    lemma_solid_of_nothing();
    assert(w.code =~= Seq::<char>::empty());
    assert(w.current.push(run).drop_last() =~= w.current);
    assert(plain_text(w.current.push(run)) == plain_text(w.current) + s);
    lemma_solid_of_joined(plain_text(w.current), s);
    assert(held(with_run(w, s)) =~= held(w) + solid(s));
}

proof fn lemma_break_says(w: WalkModel)
    requires
        is_plain(w),
    ensures
        is_plain(with_break(w)),
        held(with_break(w)) == held(w),
{
    if w.pre_depth > 0 {
        lemma_solid_push(w.code, '\n');
    } else {
        lemma_run_says(w, seq!['\n']);
        lemma_solid_of_space(seq!['\n']);
        assert(held(w) + Seq::<char>::empty() =~= held(w));
    }
}

proof fn lemma_opening_says(w: WalkModel, name: Seq<char>, tag: Seq<char>)
    requires
        is_plain(w),
        name != "table"@,
    ensures
        is_plain(opened(w, name, tag)),
        held(opened(w, name, tag)) == held(w),
{
    let f = flushed(w);
    lemma_flush_says(w);
    lemma_break_says(w);
    lemma_solid_of_nothing();
    if let Some(src) = attribute_in(tag, "src"@) {
        lemma_blocks_say_push(f.blocks, BlockModel::Image(src));
        assert(solid(blocks_say(f.blocks)) + Seq::<char>::empty() =~= solid(blocks_say(f.blocks)));
    }
    lemma_blocks_say_push(f.blocks, BlockModel::Paragraph(Seq::empty()));
    assert(solid(blocks_say(f.blocks)) + Seq::<char>::empty() =~= solid(blocks_say(f.blocks)));
}

proof fn lemma_code_says(w: WalkModel)
    requires
        is_plain(w),
    ensures
        is_plain(pre_closed(w)),
        held(pre_closed(w)) == held(w),
{
    let code = without_newlines(w.code);
    lemma_solid_of_code(w.code);
    lemma_solid_of_nothing();
    if less_one(w.pre_depth) == 0 {
        if code.len() == 0 {
            assert(code =~= Seq::<char>::empty());
        } else {
            lemma_blocks_say_push(w.blocks, BlockModel::Code(code));
            if w.pre_depth == 0 {
                assert(w.code =~= Seq::<char>::empty());
            }
            assert(w.current =~= Seq::<RunModel>::empty());
        }
        assert(held(pre_closed(w)) =~= held(w));
    }
}

proof fn lemma_closing_says(w: WalkModel, name: Seq<char>)
    requires
        is_plain(w),
    ensures
        is_plain(closed(w, name)),
        held(closed(w, name)) == held(w),
{
    lemma_flush_says(w);
    lemma_code_says(w);
}

proof fn lemma_no_table_opens(s: Seq<char>, p: int, q: int)
    requires
        is_table_free(s),
        0 <= p < q < s.len(),
        s[p] == '<',
        !(q > p + 1 && s[p + 1] == '/'),
    ensures
        tag_name(s.subrange(p + 1, q)) != "table"@,
{
    let tag = s.subrange(p + 1, q);
    if tag_name(tag) == "table"@ {
        reveal_strlit("table");
        reveal_strlit("<table");
        let e = tag_name_end(tag, 0);
        if tag.len() > 0 {
            assert(tag[0] == s[p + 1]);
        }
        assert(skip_slashes(tag, 0) == 0);
        lemma_tag_name_end(tag, 0);
        let low = text::lower(tag.subrange(0, e));
        assert(low == "table"@);
        assert(low.len() == 5);
        let found = text::lower(s).subrange(p, p + 6);
        assert(found =~= "<table"@) by {
            assert(found[0] == text::lower_char(s[p]));
            assert forall|k: int| 0 <= k < 5 implies found[k + 1] == "table"@[k] by {
                assert(low[k] == text::lower_char(tag[k]));
                assert(tag[k] == s[p + 1 + k]);
            }
            assert(found[1] == "table"@[0]);
            assert(found[2] == "table"@[1]);
            assert(found[3] == "table"@[2]);
            assert(found[4] == "table"@[3]);
            assert(found[5] == "table"@[4]);
        }
        assert(dom::stands_in_any_case(s, "<table"@, p));
    }
}

proof fn lemma_tag_name_end(s: Seq<char>, i: int)
    requires
        0 <= i <= s.len(),
    ensures
        i <= tag_name_end(s, i) <= s.len(),
    decreases s.len() - i,
{
    if i < s.len() && !text::is_space(s[i]) && s[i] != '/' {
        lemma_tag_name_end(s, i + 1);
    }
}

proof fn lemma_walk_says(s: Seq<char>, i: int, w: WalkModel)
    requires
        is_plain(w),
        is_table_free(s),
        0 <= i,
    ensures
        is_plain(walked_from(s, i, w)),
        held(walked_from(s, i, w)) == held(w) + solid(page_says(s, i)),
    decreases s.len() - i,
{
    lemma_solid_of_nothing();
    assert(held(w) + Seq::<char>::empty() =~= held(w));
    if i < s.len() {
        text::lemma_find_char_from(s, '<', i);
        match text::find_char_from(s, '<', i) {
            None => {
                lemma_text_says(w, s.subrange(i, s.len() as int));
            },
            Some(p) => {
                let raw = s.subrange(i, p);
                let words = markup::decoded(raw);
                let before = with_text(w, raw);
                lemma_text_says(w, raw);
                text::lemma_find_char_from(s, '>', p);
                match text::find_char_from(s, '>', p) {
                    None => {
                        assert(words + Seq::<char>::empty() =~= words);
                    },
                    Some(q) => {
                        let tag = s.subrange(p + 1, q);
                        let name = tag_name(tag);
                        let is_closing = tag.len() > 0 && tag[0] == '/';
                        dom::lemma_svg_end(s, q + 1, 0);
                        lemma_no_slash(s, p, q);
                        if name == "svg"@ && !is_closing {
                            let next = dom::svg_end(s, q + 1, 0).1;
                            lemma_walk_says(s, next, before);
                            lemma_solid_of_joined(words, page_says(s, next));
                            assert(held(w) + solid(words) + solid(page_says(s, next)) =~= held(w)
                                + (solid(words) + solid(page_says(s, next))));
                        } else {
                            let after = if is_closing {
                                closed(before, name)
                            } else {
                                opened(before, name, tag)
                            };
                            if is_closing {
                                lemma_closing_says(before, name);
                            } else {
                                lemma_no_table_opens(s, p, q);
                                lemma_opening_says(before, name, tag);
                            }
                            lemma_walk_says(s, q + 1, after);
                            lemma_solid_of_joined(words, page_says(s, q + 1));
                            assert(held(w) + solid(words) + solid(page_says(s, q + 1)) =~= held(w)
                                + (solid(words) + solid(page_says(s, q + 1))));
                        }
                    },
                }
            },
        }
    }
}

/// A tag closes when it begins with a slash; one with a name does so only
/// inside the tag.
proof fn lemma_no_slash(s: Seq<char>, p: int, q: int)
    requires
        0 <= p < q < s.len(),
        s[q] == '>',
    ensures
        ({
            let tag = s.subrange(p + 1, q);
            &&& tag.len() > 0 ==> tag[0] == s[p + 1]
            &&& tag.len() == 0 ==> s[p + 1] == '>' && tag_name(tag) != "svg"@
        }),
{
    let tag = s.subrange(p + 1, q);
    if tag.len() == 0 {
        reveal_strlit("svg");
        assert(tag_name(tag).len() == 0);
    }
}

/// A page without a table keeps its text: its blocks say what stands between
/// the tags of the page, in order, but for white space. Text in a table but
/// outside its cells stands before the table, and a table in a table takes
/// its place, so a page with tables is left out.
pub proof fn law_a_page_keeps_its_text(s: Seq<char>)
    requires
        is_table_free(s),
    ensures
        solid(blocks_say(blocks_in(s))) == solid(page_says(s, 0)),
{
    let start = walk_start();
    let w = walked_from(s, 0, start);
    let word = |block: BlockModel| block_says(block);
    lemma_solid_of_nothing();
    lemma_walk_says(s, 0, start);
    assert(start.blocks.map_values(word) =~= Seq::<Seq<char>>::empty());
    assert(blocks_say(start.blocks) =~= Seq::<char>::empty());
    assert(held(start) =~= Seq::<char>::empty());
    assert(held(start) + solid(page_says(s, 0)) =~= solid(page_says(s, 0)));
    let p = if w.pre_depth > 0 {
        let last = WalkModel { pre_depth: 1, ..w };
        lemma_code_says(last);
        assert(held(last) == held(w));
        pre_closed(last)
    } else {
        w
    };
    lemma_flush_says(p);
    let f = flushed(p);
    assert(f.pre_depth == 0);
    assert(f.code =~= Seq::<char>::empty());
    assert(f.current =~= Seq::<RunModel>::empty());
    assert(held(f) =~= solid(blocks_say(f.blocks)));
}

} // verus!
