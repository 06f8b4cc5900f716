//! Continuations: writing the rest of a preview in chunks.
//!
//! Every chunk runs at the same time from the same preview. A board keeps
//! what each chunk has written so far, and the artifact shown meanwhile pads
//! the gaps before the last chunk with placeholders.

use vstd::prelude::*;

use crate::json;
use crate::json::{parse_json, Json, JsonModel};
use crate::markup;
use crate::markup::escape_html;
use crate::model;
use crate::model::{duplicate_list, Duplicate, Email, Page, Screen, Unit, UnitModel};
use crate::patch;
use crate::patch::json_object;
use crate::text;
use crate::text::{chars_of, decimal_of, owned, text_is_at};

verus! {

/// Units the engine asks for in one continuation request. Small chunks keep
/// each reply short, and the artifact grows on the canvas after every chunk.
pub const CONTINUE_CHUNK_SCREENS: usize = 3;

// -- Chunks -----------------------------------------------------------------

/// One continuation chunk: the zero-based outline index of its first title
/// and how many titles it covers.
#[derive(Clone, Copy, Debug, PartialEq, Eq, Structural)]
pub struct ContinueChunk {
    pub first: usize,
    pub count: usize,
}

/// How many chunks cover the titles `start..planned`.
pub open spec fn chunk_count(start: int, planned: int) -> int {
    if start < planned {
        (planned - start + CONTINUE_CHUNK_SCREENS - 1) / (CONTINUE_CHUNK_SCREENS as int)
    } else {
        0
    }
}

/// The `i`th chunk of the titles `start..planned`.
pub open spec fn chunk_at(start: int, planned: int, i: int) -> ContinueChunk {
    let first = start + i * CONTINUE_CHUNK_SCREENS;
    ContinueChunk {
        first: first as usize,
        count: if planned - first < CONTINUE_CHUNK_SCREENS {
            (planned - first) as usize
        } else {
            CONTINUE_CHUNK_SCREENS
        },
    }
}

/// The chunks that cover the titles `start..planned`.
pub open spec fn chunks_for(start: int, planned: int) -> Seq<ContinueChunk> {
    Seq::new(chunk_count(start, planned) as nat, |i: int| chunk_at(start, planned, i))
}

/// The chunks that cover outline titles `start..planned`, each at most
/// `CONTINUE_CHUNK_SCREENS` long.
pub fn continue_chunks(start: usize, planned: usize) -> (r: Vec<ContinueChunk>)
    ensures
        r@ == chunks_for(start as int, planned as int),
{
    let mut r: Vec<ContinueChunk> = Vec::new();
    if start >= planned {
        assert(r@ =~= chunks_for(start as int, planned as int));
        return r;
    }
    let mut first: usize = start;
    while planned - first > CONTINUE_CHUNK_SCREENS
        invariant
            start <= first < planned,
            first == start + r@.len() * CONTINUE_CHUNK_SCREENS,
            r@.len() < chunk_count(start as int, planned as int),
            forall|i: int|
                0 <= i < r@.len() ==> #[trigger] r@[i] == chunk_at(start as int, planned as int, i),
        decreases planned - first,
    {
        r.push(ContinueChunk { first, count: CONTINUE_CHUNK_SCREENS });
        first += CONTINUE_CHUNK_SCREENS;
    }
    r.push(ContinueChunk { first, count: planned - first });
    assert(r@ =~= chunks_for(start as int, planned as int));
    r
}

/// The chunks cover the titles without a gap and without an overlap: each
/// starts where the one before it ends, and the last ends with the outline.
pub proof fn law_chunks_cover_the_outline(start: int, planned: int, i: int)
    requires
        0 <= start < planned <= usize::MAX,
        0 <= i < chunks_for(start, planned).len(),
    ensures
        ({
            let chunks = chunks_for(start, planned);
            let end = chunks[i].first + chunks[i].count;
            &&& 1 <= chunks[i].count <= CONTINUE_CHUNK_SCREENS
            &&& chunks[0].first == start
            &&& i + 1 < chunks.len() ==> chunks[i + 1].first == end
            &&& i + 1 == chunks.len() ==> end == planned
        }),
{
}

// -- Placeholders -----------------------------------------------------------

/// The styles of a placeholder on a screen.
pub const PENDING_SCREEN_CSS: &'static str = "\
.pending { display: flex; flex-direction: column; align-items: center; \
justify-content: center; height: 100%; gap: 24px; opacity: 0.55; }\n\
.pending-label { margin: 0; font-size: 26px; letter-spacing: 0.3em; \
text-transform: uppercase; color: var(--muted); }\n\
.pending-title { margin: 0; max-width: 1400px; text-align: center; \
font-size: 64px; color: var(--text); }";

/// The styles of a placeholder on a page or in an email.
pub const PENDING_PAGE_CSS: &'static str = "\
.pending { display: flex; flex-direction: column; align-items: center; \
justify-content: center; height: 100%; gap: 16px; opacity: 0.55; }\n\
.pending-label { margin: 0; font-size: 14px; letter-spacing: 0.3em; \
text-transform: uppercase; color: var(--muted); }\n\
.pending-title { margin: 0; max-width: 600px; text-align: center; \
font-size: 32px; color: var(--text); }";

/// How the markup of a placeholder with this class starts.
pub open spec fn pending_start(class: Seq<char>) -> Seq<char> {
    "<div class=\""@ + class + " pending\">"@
}

/// The markup of a placeholder.
pub open spec fn pending_html(title: Seq<char>, class: Seq<char>) -> Seq<char> {
    pending_start(class)
        + "<p class=\"pending-label\">Writing</p><h2 class=\"pending-title\">"@
        + markup::html_escaped(title) + "</h2></div>"@
}

fn start_of_pending(class: &str) -> (r: String)
    ensures
        r@ == pending_start(class@),
{
    let mut r = owned("<div class=\"");
    r.append(class);
    r.append(" pending\">");
    r
}

fn html_of_pending(title: &str, class: &str) -> (r: String)
    ensures
        r@ == pending_html(title@, class@),
{
    let mut r = start_of_pending(class);
    r.append("<p class=\"pending-label\">Writing</p><h2 class=\"pending-title\">");
    r.append(escape_html(title).as_str());
    r.append("</h2></div>");
    r
}

/// A unit that can stand in for one the model has not written yet.
pub trait Placeholder: Unit + Duplicate {
    /// The placeholder for the unit with this title.
    spec fn pending(title: Seq<char>, class: Seq<char>) -> UnitModel;

    /// The placeholder for the unit with this title.
    fn placeholder(title: &str, class: &str) -> (r: Self)
        ensures
            r.model() == Self::pending(title@, class@),
    ;
}

impl Placeholder for Screen {
    open spec fn pending(title: Seq<char>, class: Seq<char>) -> UnitModel {
        UnitModel {
            name: title,
            html: pending_html(title, class),
            css: Some(PENDING_SCREEN_CSS@),
            notes: None,
        }
    }

    fn placeholder(title: &str, class: &str) -> (r: Self) {
        Screen {
            name: owned(title),
            html: html_of_pending(title, class),
            css: Some(owned(PENDING_SCREEN_CSS)),
            notes: None,
        }
    }
}

impl Placeholder for Page {
    open spec fn pending(title: Seq<char>, class: Seq<char>) -> UnitModel {
        UnitModel {
            name: Seq::empty(),
            html: pending_html(title, class),
            css: Some(PENDING_PAGE_CSS@),
            notes: None,
        }
    }

    fn placeholder(title: &str, class: &str) -> (r: Self) {
        Page {
            html: html_of_pending(title, class),
            css: Some(owned(PENDING_PAGE_CSS)),
            notes: None,
        }
    }
}

impl Placeholder for Email {
    open spec fn pending(title: Seq<char>, class: Seq<char>) -> UnitModel {
        UnitModel {
            name: Seq::empty(),
            html: pending_html(title, class),
            css: Some(PENDING_PAGE_CSS@),
            notes: None,
        }
    }

    fn placeholder(title: &str, class: &str) -> (r: Self) {
        Email {
            html: html_of_pending(title, class),
            css: Some(owned(PENDING_PAGE_CSS)),
            notes: None,
        }
    }
}

/// A screen that holds the place of one the model has not written yet.
pub fn placeholder_screen(title: &str, class: &str) -> (r: Screen)
    ensures
        r@ == Screen::pending(title@, class@),
{
    Screen::placeholder(title, class)
}

/// A page that holds the place of one the model has not written yet.
pub fn placeholder_page(title: &str, class: &str) -> (r: Page)
    ensures
        r@ == Page::pending(title@, class@),
{
    Page::placeholder(title, class)
}

/// An email that holds the place of one the model has not written yet.
pub fn placeholder_email(title: &str, class: &str) -> (r: Email)
    ensures
        r@ == Email::pending(title@, class@),
{
    Email::placeholder(title, class)
}

/// True for the markup of a placeholder with this class.
pub open spec fn is_pending(unit: UnitModel, class: Seq<char>) -> bool {
    text::starts_with(unit.html, pending_start(class))
}

/// The units that are not placeholders.
pub open spec fn without_pending<T: Placeholder>(units: Seq<T>, class: Seq<char>) -> Seq<T> {
    units.filter(|unit: T| !is_pending(unit.model(), class))
}

/// The units that are not placeholders. A run that stopped may have left
/// some behind: they hold no content, so they do not count as written.
pub fn written_units<T: Placeholder>(units: &[T], class: &str) -> (r: Vec<T>)
    ensures
        r@ == without_pending(units@, class@),
{
    let start = start_of_pending(class);
    let ghost is_written = |unit: T| !is_pending(unit.model(), class@);
    let mut r: Vec<T> = Vec::new();
    let mut k: usize = 0;
    proof {
        reveal(Seq::filter);
    }
    while k < units.len()
        invariant
            k <= units@.len(),
            start@ == pending_start(class@),
            is_written == (|unit: T| !is_pending(unit.model(), class@)),
            r@ == units@.take(k as int).filter(is_written),
        decreases units@.len() - k,
    {
        proof {
            reveal(Seq::filter);
            assert(units@.take(k + 1).drop_last() =~= units@.take(k as int));
        }
        if !text_is_at(&chars_of(units[k].html()), start.as_str(), 0) {
            r.push(units[k].duplicate());
        }
        k += 1;
    }
    assert(units@.take(k as int) =~= units@);
    r
}

/// Every placeholder is known as one.
pub proof fn law_a_placeholder_is_pending(title: Seq<char>, class: Seq<char>)
    ensures
        is_pending(Screen::pending(title, class), class),
        is_pending(Page::pending(title, class), class),
        is_pending(Email::pending(title, class), class),
{
    let html = pending_html(title, class);
    let start = pending_start(class);
    assert(html.subrange(0, start.len() as int) =~= start);
}

// -- The board --------------------------------------------------------------

/// What each chunk has written so far.
pub open spec fn board_of<T: Unit>(board: Seq<Vec<T>>) -> Seq<Seq<UnitModel>> {
    board.map_values(|units: Vec<T>| model::units_of(units@))
}

/// The last of the first `n` chunks that has units.
pub open spec fn last_written(board: Seq<Seq<UnitModel>>, n: int) -> Option<int>
    decreases n,
{
    if n <= 0 || n > board.len() {
        None
    } else if board[n - 1].len() > 0 {
        Some(n - 1)
    } else {
        last_written(board, n - 1)
    }
}

/// The title of outline slot `index`, empty past the end.
pub open spec fn title_at(outline: Seq<Seq<char>>, index: int) -> Seq<char> {
    if 0 <= index < outline.len() {
        outline[index]
    } else {
        Seq::empty()
    }
}

/// The placeholders for the slots `from..to` of a chunk that starts at
/// outline slot `first`.
pub open spec fn padding<T: Placeholder>(
    outline: Seq<Seq<char>>,
    first: int,
    from: int,
    to: int,
    class: Seq<char>,
) -> Seq<UnitModel> {
    Seq::new(
        if from < to {
            (to - from) as nat
        } else {
            0
        },
        |i: int| T::pending(title_at(outline, first + from + i), class),
    )
}

/// What the first `n` chunks show: what each has written, then one
/// placeholder per title it owes.
pub open spec fn shown_before<T: Placeholder>(
    outline: Seq<Seq<char>>,
    chunks: Seq<ContinueChunk>,
    board: Seq<Seq<UnitModel>>,
    class: Seq<char>,
    n: int,
) -> Seq<UnitModel>
    decreases n,
{
    if n <= 0 {
        Seq::empty()
    } else {
        shown_before::<T>(outline, chunks, board, class, n - 1) + board[n - 1] + padding::<T>(
            outline,
            chunks[n - 1].first as int,
            board[n - 1].len() as int,
            chunks[n - 1].count as int,
            class,
        )
    }
}

/// The units to show while the chunks run.
pub open spec fn shown<T: Placeholder>(
    units: Seq<UnitModel>,
    outline: Seq<Seq<char>>,
    chunks: Seq<ContinueChunk>,
    board: Seq<Seq<UnitModel>>,
    class: Seq<char>,
) -> Seq<UnitModel> {
    match last_written(board, board.len() as int) {
        Some(last) => {
            let padded = if last < chunks.len() {
                last
            } else {
                chunks.len() as int
            };
            units + shown_before::<T>(outline, chunks, board, class, padded) + board[last]
        },
        None => units,
    }
}

fn push_all<T: Placeholder>(out: &mut Vec<T>, units: &[T])
    ensures
        model::units_of(final(out)@) == model::units_of(old(out)@) + model::units_of(units@),
{
    let ghost before = model::units_of(out@);
    let ghost all = model::units_of(units@);
    let mut k: usize = 0;
    assert(before + all.take(0) =~= before);
    while k < units.len()
        invariant
            k <= units@.len(),
            all == model::units_of(units@),
            model::units_of(out@) == before + all.take(k as int),
        decreases units@.len() - k,
    {
        let ghost now = model::units_of(out@);
        out.push(units[k].duplicate());
        assert(model::units_of(out@) =~= now.push(all[k as int]));
        assert(before + all.take(k + 1) =~= (before + all.take(k as int)).push(all[k as int]));
        k += 1;
    }
    assert(all.take(k as int) =~= all);
}

fn push_padding<T: Placeholder>(
    out: &mut Vec<T>,
    outline: &[String],
    chunk: ContinueChunk,
    from: usize,
    class: &str,
)
    ensures
        model::units_of(final(out)@) == model::units_of(old(out)@) + padding::<T>(
            text::strings(outline@),
            chunk.first as int,
            from as int,
            chunk.count as int,
            class@,
        ),
{
    let ghost titles = text::strings(outline@);
    let ghost all = padding::<T>(
        titles,
        chunk.first as int,
        from as int,
        chunk.count as int,
        class@,
    );
    let ghost before = model::units_of(out@);
    let mut offset: usize = from;
    assert(before + all.take(0) =~= before);
    if from >= chunk.count {
        assert(before + all =~= before);
        return;
    }
    while offset < chunk.count
        invariant
            from <= offset <= chunk.count,
            titles == text::strings(outline@),
            all == padding::<T>(
                titles,
                chunk.first as int,
                from as int,
                chunk.count as int,
                class@,
            ),
            model::units_of(out@) == before + all.take(offset - from),
        decreases chunk.count - offset,
    {
        let ghost now = model::units_of(out@);
        let title: &str = if chunk.first < outline.len() && offset < outline.len() - chunk.first {
            outline[chunk.first + offset].as_str()
        } else {
            ""
        };
        proof {
            reveal_strlit("");
            assert(title@ =~= title_at(titles, chunk.first + offset));
        }
        out.push(T::placeholder(title, class));
        proof {
            let k = offset - from;
            assert(model::units_of(out@) =~= now.push(all[k]));
            assert(before + all.take(k + 1) =~= (before + all.take(k)).push(all[k]));
        }
        offset += 1;
    }
    assert(all.take(offset - from) =~= all);
}

fn find_last_written<T: Unit>(board: &[Vec<T>]) -> (r: Option<usize>)
    ensures
        text::position(r) == last_written(board_of(board@), board@.len() as int),
        r is Some ==> r->0 < board@.len(),
{
    let ghost rows = board_of(board@);
    let mut n: usize = board.len();
    while n > 0
        invariant
            n <= board@.len(),
            rows == board_of(board@),
            last_written(rows, board@.len() as int) == last_written(rows, n as int),
        decreases n,
    {
        assert(rows[n - 1].len() == board@[n - 1]@.len());
        if board[n - 1].len() > 0 {
            return Some(n - 1);
        }
        n -= 1;
    }
    None
}

/// The units to show while the chunks run: the preview, then every chunk up
/// to the last one that has units. A chunk with units still to come is
/// padded with one placeholder per outline title it owes, so the units of a
/// later chunk appear in their real place instead of waiting for the chunks
/// before them. Nothing is padded past the last chunk with units.
pub fn shown_units<T: Placeholder>(
    units: &[T],
    outline: &[String],
    chunks: &[ContinueChunk],
    board: &[Vec<T>],
    class: &str,
) -> (r: Vec<T>)
    ensures
        model::units_of(r@) == shown::<T>(
            model::units_of(units@),
            text::strings(outline@),
            chunks@,
            board_of(board@),
            class@,
        ),
{
    let ghost titles = text::strings(outline@);
    let ghost rows = board_of(board@);
    let mut r = duplicate_list(units);
    let last: usize = match find_last_written(board) {
        Some(last) => last,
        None => {
            return r;
        },
    };
    let padded: usize = if last < chunks.len() {
        last
    } else {
        chunks.len()
    };
    let ghost start = model::units_of(units@);
    let mut n: usize = 0;
    assert(start + shown_before::<T>(titles, chunks@, rows, class@, 0) =~= start);
    while n < padded
        invariant
            n <= padded <= chunks@.len(),
            padded <= last < board@.len(),
            titles == text::strings(outline@),
            rows == board_of(board@),
            model::units_of(r@) == start + shown_before::<T>(
                titles,
                chunks@,
                rows,
                class@,
                n as int,
            ),
        decreases padded - n,
    {
        let ghost before = shown_before::<T>(titles, chunks@, rows, class@, n as int);
        assert(rows[n as int] == model::units_of(board@[n as int]@));
        push_all(&mut r, &board[n]);
        push_padding(&mut r, outline, chunks[n], board[n].len(), class);
        proof {
            let pad = padding::<T>(
                titles,
                chunks@[n as int].first as int,
                rows[n as int].len() as int,
                chunks@[n as int].count as int,
                class@,
            );
            assert(start + (before + rows[n as int] + pad) =~= start + before + rows[n as int]
                + pad);
        }
        n += 1;
    }
    assert(rows[last as int] == model::units_of(board@[last as int]@));
    push_all(&mut r, &board[last]);
    r
}

/// True when the board has a row per chunk, and no chunk wrote more units
/// than it was asked for.
pub open spec fn fits(board: Seq<Seq<UnitModel>>, chunks: Seq<ContinueChunk>) -> bool {
    &&& board.len() == chunks.len()
    &&& forall|i: int|
        0 <= i < board.len() ==> (#[trigger] board[i]).len() <= chunks[i].count
}

proof fn lemma_shown_before<T: Placeholder>(
    start: int,
    planned: int,
    outline: Seq<Seq<char>>,
    board: Seq<Seq<UnitModel>>,
    class: Seq<char>,
    n: int,
)
    requires
        0 <= start < planned <= usize::MAX,
        fits(board, chunks_for(start, planned)),
        0 <= n < chunks_for(start, planned).len(),
    ensures
        start + shown_before::<T>(outline, chunks_for(start, planned), board, class, n).len()
            == chunks_for(start, planned)[n].first,
    decreases n,
{
    let chunks = chunks_for(start, planned);
    if n > 0 {
        lemma_shown_before::<T>(start, planned, outline, board, class, n - 1);
        law_chunks_cover_the_outline(start, planned, n - 1);
        assert(board[n - 1].len() <= chunks[n - 1].count);
    }
}

proof fn lemma_last_written(board: Seq<Seq<UnitModel>>, n: int)
    requires
        0 <= n <= board.len(),
    ensures
        last_written(board, n) matches Some(last) ==> 0 <= last < n && board[last].len() > 0,
    decreases n,
{
    if n > 0 && board[n - 1].len() == 0 {
        lemma_last_written(board, n - 1);
    }
}

/// The units of the last chunk that has any stand in their outline places,
/// and what is shown ends with them: it never runs past the outline, and it
/// is shorter than the outline while the last chunk is not complete, so a
/// run that dies then leaves an artifact the user can still continue.
pub proof fn law_shown_units_stand_in_their_places<T: Placeholder>(
    units: Seq<UnitModel>,
    outline: Seq<Seq<char>>,
    board: Seq<Seq<UnitModel>>,
    class: Seq<char>,
)
    requires
        units.len() < outline.len() <= usize::MAX,
        fits(board, chunks_for(units.len() as int, outline.len() as int)),
    ensures
        ({
            let chunks = chunks_for(units.len() as int, outline.len() as int);
            let all = shown::<T>(units, outline, chunks, board, class);
            &&& units.len() <= all.len() <= outline.len()
            &&& all.take(units.len() as int) == units
            &&& board.last().len() < chunks.last().count ==> all.len() < outline.len()
            &&& last_written(board, board.len() as int) matches Some(last) ==> all.skip(
                chunks[last].first as int,
            ) == board[last]
        }),
{
    let start = units.len() as int;
    let planned = outline.len() as int;
    let chunks = chunks_for(start, planned);
    let all = shown::<T>(units, outline, chunks, board, class);
    lemma_last_written(board, board.len() as int);
    if let Some(last) = last_written(board, board.len() as int) {
        lemma_shown_before::<T>(start, planned, outline, board, class, last);
        law_chunks_cover_the_outline(start, planned, last);
        law_chunks_cover_the_outline(start, planned, chunks.len() - 1);
        assert(board[last].len() <= chunks[last].count);
        assert(all.skip(chunks[last].first as int) =~= board[last]);
        assert(all.take(start) =~= units);
        if last < chunks.len() - 1 {
            assert(chunks[last].first + chunks[last].count < planned) by {
                assert(chunks[last + 1].first < planned);
            }
        }
    } else {
        assert(all.take(start) =~= units);
    }
}

// -- The end of a continuation ----------------------------------------------

/// The units of the first `n` chunks, in order.
pub open spec fn gathered(board: Seq<Seq<UnitModel>>, n: int) -> Seq<UnitModel>
    decreases n,
{
    if n <= 0 {
        Seq::empty()
    } else {
        gathered(board, n - 1) + board[n - 1]
    }
}

/// The preview with everything the chunks wrote.
pub fn continued_units<T: Placeholder>(units: &[T], board: &[Vec<T>]) -> (r: Vec<T>)
    ensures
        model::units_of(r@) == model::units_of(units@) + gathered(
            board_of(board@),
            board@.len() as int,
        ),
{
    let ghost rows = board_of(board@);
    let ghost start = model::units_of(units@);
    let mut r = duplicate_list(units);
    let mut n: usize = 0;
    assert(start + gathered(rows, 0) =~= start);
    while n < board.len()
        invariant
            n <= board@.len(),
            rows == board_of(board@),
            model::units_of(r@) == start + gathered(rows, n as int),
        decreases board@.len() - n,
    {
        assert(rows[n as int] == model::units_of(board@[n as int]@));
        push_all(&mut r, &board[n]);
        assert(start + gathered(rows, n + 1) =~= start + gathered(rows, n as int)
            + rows[n as int]);
        n += 1;
    }
    r
}

/// What a continuation leaves behind.
#[derive(Clone, Copy, Debug, PartialEq, Eq, Structural)]
pub enum ContinueEnd {
    /// No chunk added a unit: the preview is put back, and the run failed.
    Restored,
    /// The artifact grew by this many units but still misses some: the
    /// outline stays, so the artifact stays continuable.
    Grown(usize),
    /// Every title has a unit: the outline is cleared.
    Finished(usize),
}

/// What a continuation of `start` units leaves behind when the artifact then
/// has `total` of `planned` units.
pub fn end_of_continuation(start: usize, total: usize, planned: usize) -> (r: ContinueEnd)
    requires
        start <= total,
    ensures
        r == if total == start {
            ContinueEnd::Restored
        } else if total >= planned {
            ContinueEnd::Finished((total - start) as usize)
        } else {
            ContinueEnd::Grown((total - start) as usize)
        },
{
    if total == start {
        ContinueEnd::Restored
    } else if total >= planned {
        ContinueEnd::Finished(total - start)
    } else {
        ContinueEnd::Grown(total - start)
    }
}

/// Takes what a streaming chunk has written so far onto the board, when it
/// is more than before. Returns whether the artifact shown changes.
pub fn take_streamed<T>(row: &mut Vec<T>, units: Vec<T>) -> (r: bool)
    ensures
        r == (units@.len() > old(row)@.len()),
        *final(row) == if r {
            units
        } else {
            *old(row)
        },
{
    if units.len() > row.len() {
        *row = units;
        true
    } else {
        false
    }
}

/// How many units the chunks have written so far: the rank of what is shown.
pub fn units_written<T: Placeholder>(board: &[Vec<T>]) -> (r: usize)
    requires
        gathered(board_of(board@), board@.len() as int).len() <= usize::MAX,
    ensures
        r == gathered(board_of(board@), board@.len() as int).len(),
{
    let ghost rows = board_of(board@);
    let mut total: usize = 0;
    let mut n: usize = 0;
    while n < board.len()
        invariant
            n <= board@.len(),
            rows == board_of(board@),
            total == gathered(rows, n as int).len(),
            gathered(rows, board@.len() as int).len() <= usize::MAX,
        decreases board@.len() - n,
    {
        proof {
            assert(rows[n as int].len() == board@[n as int]@.len());
            lemma_gathered_grows(rows, n + 1, board@.len() as int);
        }
        total += board[n].len();
        n += 1;
    }
    total
}

proof fn lemma_gathered_grows(board: Seq<Seq<UnitModel>>, m: int, n: int)
    requires
        0 <= m <= n <= board.len(),
    ensures
        gathered(board, m).len() <= gathered(board, n).len(),
    decreases n - m,
{
    if m < n {
        lemma_gathered_grows(board, m, n - 1);
    }
}

// -- Live saves -------------------------------------------------------------

/// Decides which partial artifacts are saved while one streams in. A save
/// happens only when the rank grows, and none follows the final save.
#[derive(Debug)]
pub struct LiveSaver {
    saved_rank: Option<usize>,
    is_finished: bool,
}

impl LiveSaver {
    /// The highest rank taken so far.
    pub closed spec fn rank(&self) -> Option<usize> {
        self.saved_rank
    }

    /// True once the final artifact was saved.
    pub closed spec fn finished(&self) -> bool {
        self.is_finished
    }

    /// A saver that has saved nothing.
    pub fn new() -> (r: LiveSaver)
        ensures
            r.rank() is None,
            !r.finished(),
    {
        LiveSaver { saved_rank: None, is_finished: false }
    }

    /// Offers a partial artifact. It is taken when it is valid and its
    /// `rank` is above the last one taken. `rank` counts the real progress
    /// behind the artifact: placeholders must not raise it.
    pub fn offer(&mut self, is_valid: bool, rank: usize) -> (r: bool)
        ensures
            r == (is_valid && (old(self).rank() matches Some(saved) ==> rank > saved)),
            final(self).rank() == if r {
                Some(rank)
            } else {
                old(self).rank()
            },
            final(self).finished() == old(self).finished(),
    {
        if !is_valid {
            return false;
        }
        if let Some(saved) = self.saved_rank {
            if rank <= saved {
                return false;
            }
        }
        self.saved_rank = Some(rank);
        true
    }

    /// True when a partial artifact that was taken may still be written. One
    /// can wait for the write lock until the final artifact is saved, and it
    /// must not put a half-written draft back over that.
    pub fn may_write_partial(&self) -> (r: bool)
        ensures
            r == !self.finished(),
    {
        !self.is_finished
    }

    /// Records that the final artifact is saved.
    pub fn finish(&mut self)
        ensures
            final(self).finished(),
            final(self).rank() == old(self).rank(),
    {
        self.is_finished = true;
    }
}

// -- Replies ----------------------------------------------------------------

/// True when an item is an operation of a patch, not a unit itself.
pub open spec fn is_operation(item: JsonModel, unit: Seq<char>) -> bool {
    json::field_in(item, unit) is Some || json::field_in(item, "index"@) is Some
}

/// True when the items are the operations of a patch.
pub open spec fn is_patch(items: Seq<JsonModel>, unit: Seq<char>) -> bool {
    exists|i: int| 0 <= i < items.len() && is_operation(#[trigger] items[i], unit)
}

/// True when an operation does not name one of the `written` units.
pub open spec fn is_behind(item: JsonModel, written: nat) -> bool {
    match json::field_in(item, "index"@) {
        Some(index) => match json::whole_in(index) {
            Some(value) => value >= written,
            None => true,
        },
        None => true,
    }
}

/// The unit that an operation adds behind the `written` units.
pub open spec fn added_unit(item: JsonModel, written: nat, unit: Seq<char>) -> Option<JsonModel> {
    match json::field_in(item, unit) {
        Some(value) => if is_behind(item, written) && value is Record {
            Some(value)
        } else {
            None
        },
        None => None,
    }
}

/// The units that the first `n` operations add.
pub open spec fn added_units(
    items: Seq<JsonModel>,
    written: nat,
    unit: Seq<char>,
    n: int,
) -> Seq<JsonModel>
    decreases n,
{
    if n <= 0 {
        Seq::empty()
    } else {
        match added_unit(items[n - 1], written, unit) {
            Some(value) => added_units(items, written, unit, n - 1).push(value),
            None => added_units(items, written, unit, n - 1),
        }
    }
}

/// The new units among the items of a reply: those a patch adds behind the
/// `written` units, or the items past them when the reply is a whole
/// artifact.
pub open spec fn new_units(
    items: Seq<JsonModel>,
    written: nat,
    unit: Seq<char>,
) -> Seq<JsonModel> {
    if is_patch(items, unit) {
        added_units(items, written, unit, items.len() as int)
    } else if written <= items.len() {
        items.skip(written as int)
    } else {
        Seq::empty()
    }
}

/// What a list of values says.
pub open spec fn values_of(values: Seq<Json>) -> Seq<JsonModel> {
    values.map_values(|value: Json| json::model_of(value))
}

fn has_operation(items: &Vec<Json>, unit: &str) -> (r: bool)
    ensures
        r == is_patch(values_of(items@), unit@),
{
    let ghost all = values_of(items@);
    let mut i: usize = 0;
    while i < items.len()
        invariant
            i <= items@.len(),
            all == values_of(items@),
            forall|j: int| 0 <= j < i ==> !is_operation(#[trigger] all[j], unit@),
        decreases items@.len() - i,
    {
        assert(all[i as int] == json::model_of(items@[i as int]));
        if items[i].field(unit).is_some() || items[i].field("index").is_some() {
            return true;
        }
        i += 1;
    }
    false
}

fn unit_added(item: &Json, written: usize, unit: &str) -> (r: Option<Json>)
    ensures
        match r {
            Some(value) => added_unit(json::model_of(*item), written as nat, unit@) == Some(
                json::model_of(value),
            ),
            None => added_unit(json::model_of(*item), written as nat, unit@) is None,
        },
{
    if let Some(index) = item.field("index") {
        if let Some(value) = index.whole() {
            if value < written as u64 {
                return None;
            }
        }
    }
    match item.field(unit) {
        Some(value) => {
            if value.is_record() {
                Some(value.copy())
            } else {
                None
            }
        },
        None => None,
    }
}

/// The new units among the items of a reply, in order.
pub fn new_items(items: &Vec<Json>, written: usize, unit: &str) -> (r: Vec<Json>)
    ensures
        values_of(r@) == new_units(values_of(items@), written as nat, unit@),
{
    let ghost all = values_of(items@);
    let mut r: Vec<Json> = Vec::new();
    assert(values_of(r@) =~= Seq::<JsonModel>::empty());
    if has_operation(items, unit) {
        let mut i: usize = 0;
        while i < items.len()
            invariant
                i <= items@.len(),
                all == values_of(items@),
                values_of(r@) == added_units(all, written as nat, unit@, i as int),
            decreases items@.len() - i,
        {
            let ghost before = values_of(r@);
            assert(all[i as int] == json::model_of(items@[i as int]));
            if let Some(value) = unit_added(&items[i], written, unit) {
                r.push(value);
                assert(values_of(r@) =~= before.push(json::model_of(value)));
            }
            i += 1;
        }
    } else {
        let mut i: usize = written;
        while i < items.len()
            invariant
                written <= i,
                all == values_of(items@),
                written <= items@.len() ==> i <= items@.len() && values_of(r@) == all.subrange(
                    written as int,
                    i as int,
                ),
                written > items@.len() ==> r@.len() == 0,
            decreases items@.len() - i,
        {
            let ghost before = values_of(r@);
            let value = items[i].copy();
            r.push(value);
            assert(values_of(r@) =~= before.push(all[i as int]));
            assert(all.subrange(written as int, i + 1) =~= all.subrange(written as int, i as int).push(
                all[i as int],
            ));
            i += 1;
        }
        assert(written <= items@.len() ==> all.subrange(written as int, items@.len() as int)
            =~= all.skip(written as int));
        assert(values_of(r@) =~= new_units(all, written as nat, unit@));
    }
    r
}

/// What is read from a parsed reply: its new units, or why there are none.
pub open spec fn units_in_value(
    value: JsonModel,
    written: nat,
    plural: Seq<char>,
    unit: Seq<char>,
) -> Result<Seq<JsonModel>, Seq<char>> {
    let list = match json::field_in(value, plural) {
        Some(field) => json::items_in(field),
        None => None,
    };
    match list {
        Some(items) => Ok(new_units(items, written, unit)),
        None => Err("the reply has no "@ + plural + " array"@),
    }
}

/// The new units in a parsed continuation reply, in order. Accepts a patch
/// (the units of its operations at or past the existing units) and, as a
/// fallback, a whole artifact (its units past the existing ones). Existing
/// units are never touched.
pub fn continuation_values(value: &Json, written: usize, plural: &str, unit: &str) -> (r: Result<
    Vec<Json>,
    String,
>)
    ensures
        match r {
            Ok(values) => units_in_value(json::model_of(*value), written as nat, plural@, unit@)
                == Ok::<Seq<JsonModel>, Seq<char>>(values_of(values@)),
            Err(message) => units_in_value(json::model_of(*value), written as nat, plural@, unit@)
                == Err::<Seq<JsonModel>, Seq<char>>(message@),
        },
{
    if let Some(field) = value.field(plural) {
        if let Some(items) = field.items() {
            assert(json::models_of(items@) =~= values_of(items@));
            return Ok(new_items(items, written, unit));
        }
    }
    let mut message = owned("the reply has no ");
    message.append(plural);
    message.append(" array");
    Err(message)
}

/// What is read from a continuation reply.
pub open spec fn units_in_reply(
    reply: Seq<char>,
    written: nat,
    plural: Seq<char>,
    unit: Seq<char>,
) -> Result<Seq<JsonModel>, Seq<char>> {
    match patch::object_in(reply) {
        Some(object) => match json::json_reading(object) {
            Ok(value) => units_in_value(value, written, plural, unit),
            Err(message) => Err("invalid JSON: "@ + message),
        },
        None => Err(patch::NO_OBJECT@),
    }
}

/// The new units in a continuation reply, in order, as JSON values.
pub fn continuation_items(written: usize, content: &str, plural: &str, unit: &str) -> (r: Result<
    Vec<Json>,
    String,
>)
    ensures
        match r {
            Ok(values) => units_in_reply(content@, written as nat, plural@, unit@) == Ok::<
                Seq<JsonModel>,
                Seq<char>,
            >(values_of(values@)),
            Err(message) => units_in_reply(content@, written as nat, plural@, unit@) == Err::<
                Seq<JsonModel>,
                Seq<char>,
            >(message@),
        },
{
    let object = match json_object(content) {
        Ok(object) => object,
        Err(message) => {
            return Err(message);
        },
    };
    match parse_json(object.as_str()) {
        Ok(value) => continuation_values(&value, written, plural, unit),
        Err(error) => {
            let mut message = owned("invalid JSON: ");
            message.append(error.as_str());
            Err(message)
        },
    }
}

/// The first of the results from `k` on that is an error.
pub open spec fn first_invalid<T>(results: Seq<Result<T, String>>, k: int) -> Option<int>
    decreases results.len() - k,
{
    if k < 0 || k >= results.len() {
        None
    } else if results[k] is Err {
        Some(k)
    } else {
        first_invalid(results, k + 1)
    }
}

/// The message for a new unit that cannot be read.
pub open spec fn invalid_unit(unit: Seq<char>, position: nat, error: Seq<char>) -> Seq<char> {
    "new "@ + unit + " "@ + text::decimal(position + 1) + " is invalid: "@ + error
        + ": give it html, css, and notes"@
}

/// The units read from the values of a reply, or the message for the first
/// that could not be read.
pub fn read_units<T: Duplicate>(results: &[Result<T, String>], unit: &str) -> (r: Result<
    Vec<T>,
    String,
>)
    ensures
        match r {
            Ok(units) => first_invalid(results@, 0) is None && units@.len() == results@.len()
                && forall|i: int|
                0 <= i < units@.len() ==> results@[i] == Ok::<T, String>(#[trigger] units@[i]),
            Err(message) => match first_invalid(results@, 0) {
                Some(k) => message@ == invalid_unit(unit@, k as nat, results@[k]->Err_0@),
                None => false,
            },
        },
{
    let mut units: Vec<T> = Vec::new();
    let mut k: usize = 0;
    while k < results.len()
        invariant
            k <= results@.len(),
            units@.len() == k,
            first_invalid(results@, 0) == first_invalid(results@, k as int),
            forall|i: int|
                0 <= i < k ==> results@[i] == Ok::<T, String>(#[trigger] units@[i]),
        decreases results@.len() - k,
    {
        match &results[k] {
            Ok(value) => {
                units.push(value.duplicate());
            },
            Err(error) => {
                let mut message = owned("new ");
                message.append(unit);
                message.append(" ");
                message.append(decimal_of(k as u128 + 1).as_str());
                message.append(" is invalid: ");
                message.append(error.as_str());
                message.append(": give it html, css, and notes");
                return Err(message);
            },
        }
        k += 1;
    }
    Ok(units)
}

/// The message for a reply that adds nothing.
pub open spec fn nothing_added(plural: Seq<char>, unit: Seq<char>) -> Seq<char> {
    "the reply adds no "@ + plural + ": reply with a patch of inserts, one per new "@ + unit
}

/// The units with the new ones behind them. Fails when there are none.
pub fn append_units<T: Placeholder>(units: &[T], new: &[T], plural: &str, unit: &str) -> (r: Result<
    Vec<T>,
    String,
>)
    ensures
        match r {
            Ok(all) => new@.len() > 0 && model::units_of(all@) == model::units_of(units@)
                + model::units_of(new@) && all@.len() == units@.len() + new@.len(),
            Err(message) => new@.len() == 0 && message@ == nothing_added(plural@, unit@),
        },
{
    if new.len() == 0 {
        let mut message = owned("the reply adds no ");
        message.append(plural);
        message.append(": reply with a patch of inserts, one per new ");
        message.append(unit);
        return Err(message);
    }
    let mut all = duplicate_list(units);
    push_all(&mut all, new);
    assert(model::units_of(all@).len() == all@.len());
    Ok(all)
}

/// A patch cannot bring an existing unit back as a new one: an operation that
/// names a unit already written adds nothing.
pub proof fn law_existing_units_are_not_touched(
    item: JsonModel,
    index: u64,
    written: nat,
    unit: Seq<char>,
)
    requires
        json::field_in(item, "index"@) matches Some(value) && json::whole_in(value) == Some(index),
        index < written,
    ensures
        added_unit(item, written, unit) is None,
{
}

/// What the chunks wrote is gathered chunk by chunk, in order.
pub proof fn law_chunks_are_gathered_in_order(board: Seq<Seq<UnitModel>>, n: int)
    requires
        0 <= n <= board.len(),
    ensures
        gathered(board, n) == board.take(n).flatten(),
    decreases n,
{
    if n > 0 {
        law_chunks_are_gathered_in_order(board, n - 1);
        text::lemma_flatten_push(board.take(n - 1), board[n - 1]);
        assert(board.take(n - 1).push(board[n - 1]) =~= board.take(n));
    } else {
        assert(board.take(0) =~= Seq::<Seq<UnitModel>>::empty());
    }
}

proof fn lemma_added_of_prefix(
    a: Seq<JsonModel>,
    b: Seq<JsonModel>,
    written: nat,
    unit: Seq<char>,
    n: int,
)
    requires
        0 <= n <= a.len(),
    ensures
        added_units(a + b, written, unit, n) == added_units(a, written, unit, n),
    decreases n,
{
    if n > 0 {
        lemma_added_of_prefix(a, b, written, unit, n - 1);
        assert((a + b)[n - 1] == a[n - 1]);
    }
}

/// The units that a patch adds stand in the order of its operations, and each
/// operation adds the unit it carries when that is an object and its index is
/// behind the written units, or missing.
pub proof fn law_added_units_keep_their_order(
    a: Seq<JsonModel>,
    b: Seq<JsonModel>,
    written: nat,
    unit: Seq<char>,
)
    ensures
        added_units(a + b, written, unit, (a + b).len() as int) == added_units(
            a,
            written,
            unit,
            a.len() as int,
        ) + added_units(b, written, unit, b.len() as int),
        a.len() == 1 ==> {
            let index = json::field_in(a[0], "index"@);
            let value = json::field_in(a[0], unit);
            let names_written = index is Some && json::whole_in(index->0) is Some
                && json::whole_in(index->0)->0 < written;
            &&& value is Some && value->0 is Record && !names_written ==> added_units(
                a,
                written,
                unit,
                1,
            ) == seq![value->0]
            &&& value is None || !(value->0 is Record) || names_written ==> added_units(
                a,
                written,
                unit,
                1,
            ) == Seq::<JsonModel>::empty()
        },
    decreases b.len(),
{
    reveal_with_fuel(added_units, 2);
    if a.len() == 1 {
        if let Some(value) = added_unit(a[0], written, unit) {
            assert(added_units(a, written, unit, 1) =~= seq![value]);
        }
    }
    let first = added_units(a, written, unit, a.len() as int);
    if b.len() == 0 {
        assert(a + b =~= a);
        assert(first + Seq::<JsonModel>::empty() =~= first);
    } else {
        let rest = b.drop_last();
        let tail = seq![b.last()];
        law_added_units_keep_their_order(a, rest, written, unit);
        assert(a + b =~= (a + rest) + tail);
        assert(b =~= rest + tail);
        lemma_added_of_prefix(a + rest, tail, written, unit, (a + rest).len() as int);
        lemma_added_of_prefix(rest, tail, written, unit, rest.len() as int);
        let middle = added_units(rest, written, unit, rest.len() as int);
        if let Some(value) = added_unit(b.last(), written, unit) {
            assert((first + middle).push(value) =~= first + middle.push(value));
        }
    }
}

proof fn lemma_first_invalid<T>(results: Seq<Result<T, String>>, k: int)
    requires
        0 <= k,
    ensures
        match first_invalid(results, k) {
            Some(i) => k <= i < results.len() && results[i] is Err && forall|j: int|
                k <= j < i ==> (#[trigger] results[j]) is Ok,
            None => forall|j: int| k <= j < results.len() ==> (#[trigger] results[j]) is Ok,
        },
    decreases results.len() - k,
{
    if k < results.len() && results[k] is Ok {
        lemma_first_invalid(results, k + 1);
    }
}

/// A reply is refused for its first unit that cannot be read, and for no
/// other.
pub proof fn law_the_first_bad_unit_is_told<T>(results: Seq<Result<T, String>>)
    ensures
        match first_invalid(results, 0) {
            Some(i) => 0 <= i < results.len() && results[i] is Err && forall|j: int|
                0 <= j < i ==> (#[trigger] results[j]) is Ok,
            None => forall|j: int| 0 <= j < results.len() ==> (#[trigger] results[j]) is Ok,
        },
{
    lemma_first_invalid(results, 0);
}

/// Each chunk shows in its place what it has written and, for each title that
/// it still owes, the placeholder with that title of the outline.
pub proof fn law_each_slot_shows_its_unit_or_its_title<T: Placeholder>(
    outline: Seq<Seq<char>>,
    chunks: Seq<ContinueChunk>,
    board: Seq<Seq<UnitModel>>,
    class: Seq<char>,
    j: int,
    n: int,
    slot: int,
)
    requires
        0 <= j < n,
        n <= chunks.len(),
        n <= board.len(),
        0 <= slot,
        slot < board[j].len() || slot < chunks[j].count,
        chunks[j].first + slot < outline.len(),
    ensures
        ({
            let before = shown_before::<T>(outline, chunks, board, class, j);
            let all = shown_before::<T>(outline, chunks, board, class, n);
            let place = before.len() + slot;
            &&& place < all.len()
            &&& all[place] == if slot < board[j].len() {
                board[j][slot]
            } else {
                T::pending(outline[chunks[j].first + slot], class)
            }
        }),
    decreases n,
{
    let before = shown_before::<T>(outline, chunks, board, class, j);
    let all = shown_before::<T>(outline, chunks, board, class, n);
    let place = before.len() + slot;
    if j == n - 1 {
        let owed = padding::<T>(
            outline,
            chunks[j].first as int,
            board[j].len() as int,
            chunks[j].count as int,
            class,
        );
        assert(all == before + board[j] + owed);
        if slot >= board[j].len() {
            assert(all[place] == owed[slot - board[j].len()]);
        }
    } else {
        law_each_slot_shows_its_unit_or_its_title::<T>(
            outline,
            chunks,
            board,
            class,
            j,
            n - 1,
            slot,
        );
        let shorter = shown_before::<T>(outline, chunks, board, class, n - 1);
        assert(all[place] == shorter[place]);
    }
}

/// A reply that repeats the written units adds what stands behind them.
pub proof fn law_a_whole_artifact_adds_what_it_has_more(
    written: Seq<JsonModel>,
    more: Seq<JsonModel>,
    unit: Seq<char>,
)
    requires
        !is_patch(written + more, unit),
    ensures
        new_units(written + more, written.len(), unit) == more,
{
    assert((written + more).skip(written.len() as int) =~= more);
}

} // verus!
