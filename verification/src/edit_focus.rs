//! What an edit turn shows the model.
//!
//! A change that names units through references like
//! `[page 3, node 0/1 <h2>]` is about those units: the model gets only them,
//! with their measured layout problems. A change that names none is
//! systemic: the model gets the whole artifact.

use vstd::prelude::*;
use vstd::std_specs::cmp::PartialEqSpec;

use crate::model;
use crate::model::{duplicate_list, Duplicate, Unit, UnitModel};
use crate::order;
use crate::text;
use crate::text::{
    begins_with, chars_of, decimal_of, digit, find_text, joined_strings, owned, parse_usize, part,
};

verus! {

// -- Sorted indexes ---------------------------------------------------------

/// True when the indexes ascend without repeats.
pub open spec fn ascends(indexes: Seq<usize>) -> bool {
    forall|i: int, j: int|
        0 <= i < j < indexes.len() ==> #[trigger] indexes[i] < #[trigger] indexes[j]
}

/// True when `sorted` holds the indexes of `list`, ascending and each once.
pub open spec fn sorts(sorted: Seq<usize>, list: Seq<usize>) -> bool {
    &&& ascends(sorted)
    &&& forall|index: usize| #[trigger] sorted.contains(index) <==> list.contains(index)
}

/// A list has one sorted form.
pub proof fn law_one_sorted_form(a: Seq<usize>, b: Seq<usize>, list: Seq<usize>)
    requires
        sorts(a, list),
        sorts(b, list),
    ensures
        a == b,
    decreases a.len(),
{
    if a.len() == 0 {
        if b.len() > 0 {
            assert(b.contains(b[0]));
            assert(a.contains(b[0]));
        }
        assert(a =~= b);
    } else {
        let last = a.last();
        assert(a.contains(last));
        assert(b.contains(last));
        assert(b.contains(b.last()));
        assert(a.contains(b.last()));
        let i = choose|i: int| 0 <= i < a.len() && a[i] == b.last();
        let j = choose|j: int| 0 <= j < b.len() && b[j] == last;
        assert(last == b.last());
        let rest = a.drop_last();
        assert forall|index: usize| #[trigger] rest.contains(index) <==> b.drop_last().contains(
            index,
        ) by {
            if rest.contains(index) {
                let k = choose|k: int| 0 <= k < rest.len() && rest[k] == index;
                assert(a[k] == index);
                assert(a.contains(index));
                assert(b.contains(index));
                let m = choose|m: int| 0 <= m < b.len() && b[m] == index;
                assert(b.drop_last()[m] == index);
            }
            if b.drop_last().contains(index) {
                let k = choose|k: int| 0 <= k < b.drop_last().len() && b.drop_last()[k] == index;
                assert(b[k] == index);
                assert(b.contains(index));
                assert(a.contains(index));
                let m = choose|m: int| 0 <= m < a.len() && a[m] == index;
                assert(rest[m] == index);
            }
        }
        law_one_sorted_form(rest, b.drop_last(), rest);
        assert(a =~= rest.push(last));
        assert(b =~= b.drop_last().push(last));
    }
}

/// Puts `index` into its place, unless it is there.
fn put_index(sorted: &mut Vec<usize>, index: usize)
    requires
        ascends(old(sorted)@),
    ensures
        ascends(final(sorted)@),
        forall|other: usize| #[trigger]
            final(sorted)@.contains(other) <==> old(sorted)@.contains(other) || other == index,
{
    let ghost before = sorted@;
    let mut k: usize = 0;
    while k < sorted.len() && sorted[k] < index
        invariant
            k <= sorted@.len(),
            sorted@ == before,
            forall|i: int| 0 <= i < k ==> #[trigger] sorted@[i] < index,
        decreases sorted@.len() - k,
    {
        k += 1;
    }
    if k < sorted.len() && sorted[k] == index {
        return;
    }
    sorted.insert(k, index);
    assert(sorted@ == before.insert(k as int, index));
    assert(sorted@[k as int] == index);
    assert forall|other: usize| #[trigger] sorted@.contains(other) <==> before.contains(other)
        || other == index by {
        if sorted@.contains(other) {
            let i = choose|i: int| 0 <= i < sorted@.len() && sorted@[i] == other;
            if i < k {
                assert(before[i] == other);
            } else if i > k {
                assert(before[i - 1] == other);
            }
        }
        if before.contains(other) {
            let i = choose|i: int| 0 <= i < before.len() && before[i] == other;
            if i < k {
                assert(sorted@[i] == other);
            } else {
                assert(sorted@[i + 1] == other);
            }
        }
    }
}

// -- References -------------------------------------------------------------

/// The end of the digits from `from` on.
pub open spec fn digits_end(s: Seq<char>, from: int) -> int
    decreases s.len() - from,
{
    if 0 <= from < s.len() && text::is_digit(s[from]) {
        digits_end(s, from + 1)
    } else {
        from
    }
}

/// The zero-based index that the one-based number at `from` stands for.
pub open spec fn index_at(s: Seq<char>, from: int) -> Option<int> {
    match text::unsigned(s.subrange(from, digits_end(s, from)), usize::MAX as int) {
        Some(value) => if value >= 1 {
            Some(value - 1)
        } else {
            None
        },
        None => None,
    }
}

/// The indexes named behind each `marker` from `from` on, in order.
pub open spec fn named_from(s: Seq<char>, marker: Seq<char>, from: int) -> Seq<usize>
    decreases s.len() - from,
    via named_from_ends
{
    if marker.len() == 0 || from < 0 {
        Seq::empty()
    } else {
        match text::find_from(s, marker, from) {
            Some(start) => {
                let rest = named_from(s, marker, start + marker.len());
                match index_at(s, start + marker.len()) {
                    Some(index) => seq![index as usize] + rest,
                    None => rest,
                }
            },
            None => Seq::empty(),
        }
    }
}

#[via_fn]
proof fn named_from_ends(s: Seq<char>, marker: Seq<char>, from: int) {
    if from >= 0 {
        text::lemma_find_from(s, marker, from);
    }
}

/// How a reference to a unit starts.
pub open spec fn marker_of(unit: Seq<char>) -> Seq<char> {
    "["@ + unit + " "@
}

fn end_of_digits(chars: &[char], from: usize) -> (r: usize)
    requires
        from <= chars@.len(),
    ensures
        r == digits_end(chars@, from as int),
        from <= r <= chars@.len(),
{
    let mut i: usize = from;
    while i < chars.len() && digit(chars[i])
        invariant
            from <= i <= chars@.len(),
            digits_end(chars@, from as int) == digits_end(chars@, i as int),
        decreases chars@.len() - i,
    {
        i += 1;
    }
    i
}

/// The zero-based indexes named by references like `[{unit} 3, ...]`.
/// Sorted, without repeats.
pub fn referenced_indexes(instruction: &str, unit: &str) -> (r: Vec<usize>)
    ensures
        sorts(r@, named_from(instruction@, marker_of(unit@), 0)),
{
    let chars = chars_of(instruction);
    let length: usize = chars.len();
    let mut marker = owned("[");
    marker.append(unit);
    marker.append(" ");
    let ghost all = named_from(chars@, marker@, 0);
    let ghost mut done: Seq<usize> = Seq::empty();
    proof {
        reveal_strlit("[");
    }
    let mark = chars_of(marker.as_str());
    let size: usize = mark.len();
    let mut sorted: Vec<usize> = Vec::new();
    let mut cursor: usize = 0;
    assert(done + all =~= all);
    loop
        invariant
            length == chars@.len(),
            marker@ == mark@,
            size == mark@.len(),
            size > 0,
            cursor <= length,
            all == done + named_from(chars@, marker@, cursor as int),
            sorts(sorted@, done),
        ensures
            sorts(sorted@, all),
        decreases length - cursor,
    {
        let start: usize = match find_text(&chars, marker.as_str(), cursor) {
            Some(start) => start,
            None => {
                assert(done + Seq::<usize>::empty() =~= done);
                break;
            },
        };
        proof {
            text::lemma_find_from(chars@, marker@, cursor as int);
        }
        let ghost before = done;
        let from: usize = start + size;
        let end = end_of_digits(&chars, from);
        if let Some(value) = parse_usize(&part(&chars, from, end)) {
            if value >= 1 {
                let ghost old_sorted = sorted@;
                put_index(&mut sorted, value - 1);
                proof {
                    let index = (value - 1) as usize;
                    done = before.push(index);
                    assert forall|other: usize| #[trigger]
                        sorted@.contains(other) <==> done.contains(other) by {
                        assert(done[before.len() as int] == index);
                        if before.contains(other) {
                            let k = choose|k: int| 0 <= k < before.len() && before[k] == other;
                            assert(done[k] == other);
                        }
                        assert(sorted@.contains(other) <==> old_sorted.contains(other) || other
                            == index);
                    }
                    assert(before + (seq![index] + named_from(chars@, marker@, from as int))
                        =~= done + named_from(chars@, marker@, from as int));
                }
            }
        }
        cursor = from;
    }
    sorted
}

// -- Findings ---------------------------------------------------------------

/// How the findings of unit `index` start.
pub open spec fn prefix_of(plural: Seq<char>, index: usize) -> Seq<char> {
    plural + "["@ + text::decimal(index as nat) + "] "@
}

/// True when a finding is about one of the units.
pub open spec fn belongs(finding: Seq<char>, plural: Seq<char>, indexes: Seq<usize>) -> bool {
    exists|k: int|
        0 <= k < indexes.len() && text::starts_with(
            finding,
            prefix_of(plural, #[trigger] indexes[k]),
        )
}

fn is_about(finding: &str, plural: &str, indexes: &[usize]) -> (r: bool)
    ensures
        r == belongs(finding@, plural@, indexes@),
{
    let chars = chars_of(finding);
    let mut k: usize = 0;
    while k < indexes.len()
        invariant
            k <= indexes@.len(),
            chars@ == finding@,
            forall|j: int|
                0 <= j < k ==> !text::starts_with(
                    finding@,
                    prefix_of(plural@, #[trigger] indexes@[j]),
                ),
        decreases indexes@.len() - k,
    {
        let mut prefix = owned(plural);
        prefix.append("[");
        prefix.append(decimal_of(indexes[k] as u128).as_str());
        prefix.append("] ");
        if begins_with(&chars, prefix.as_str()) {
            return true;
        }
        k += 1;
    }
    false
}

/// The findings that belong to `indexes`, by their `{plural}[i]` prefix.
/// Every finding when `indexes` is empty: a systemic change sees the whole
/// audit.
pub fn findings_for(findings: &[String], plural: &str, indexes: &[usize]) -> (r: Vec<String>)
    ensures
        r@ == if indexes@.len() == 0 {
            findings@
        } else {
            findings@.filter(|finding: String| belongs(finding@, plural@, indexes@))
        },
{
    if indexes.len() == 0 {
        return duplicate_list(findings);
    }
    let ghost about = |finding: String| belongs(finding@, plural@, indexes@);
    let mut r: Vec<String> = Vec::new();
    let mut k: usize = 0;
    proof {
        reveal(Seq::filter);
    }
    while k < findings.len()
        invariant
            k <= findings@.len(),
            about == (|finding: String| belongs(finding@, plural@, indexes@)),
            r@ == findings@.take(k as int).filter(about),
        decreases findings@.len() - k,
    {
        proof {
            reveal(Seq::filter);
            assert(findings@.take(k + 1).drop_last() =~= findings@.take(k as int));
        }
        if is_about(findings[k].as_str(), plural, indexes) {
            r.push(findings[k].duplicate());
        }
        k += 1;
    }
    assert(findings@.take(k as int) =~= findings@);
    r
}

// -- Prompt blocks ----------------------------------------------------------

/// The one-based numbers of the units.
pub open spec fn ordinals(indexes: Seq<usize>) -> Seq<Seq<char>> {
    indexes.map_values(|index: usize| text::decimal((index + 1) as nat))
}

fn ordinals_of(indexes: &[usize]) -> (r: Vec<String>)
    ensures
        text::strings(r@) == ordinals(indexes@),
{
    let mut r: Vec<String> = Vec::new();
    let mut k: usize = 0;
    while k < indexes.len()
        invariant
            k <= indexes@.len(),
            text::strings(r@) == ordinals(indexes@).take(k as int),
        decreases indexes@.len() - k,
    {
        let ghost before = r@;
        r.push(decimal_of(indexes[k] as u128 + 1));
        assert(text::strings(r@) =~= text::strings(before).push(r@.last()@));
        assert(text::strings(r@) =~= ordinals(indexes@).take(k + 1));
        k += 1;
    }
    assert(ordinals(indexes@).take(k as int) =~= ordinals(indexes@));
    r
}

/// The prompt block that explains a focused view.
pub open spec fn focus_text(
    unit: Seq<char>,
    plural: Seq<char>,
    indexes: Seq<usize>,
    total: nat,
) -> Seq<char> {
    "The "@ + plural + " shown are "@ + unit + " "@ + text::join(ordinals(indexes), ", "@)
        + " of "@ + text::decimal(total) + ". Only the "@ + plural
        + " the change names are shown, each with its zero-based index in the whole set. \
Patch indexes refer to the whole set. Change only these "@ + plural
        + ". Do not replace, delete, or insert any other "@ + unit + ".\n"@
}

/// The prompt block that explains a focused view.
pub fn focus_note(unit: &str, plural: &str, indexes: &[usize], total: usize) -> (r: String)
    ensures
        r@ == focus_text(unit@, plural@, indexes@, total as nat),
{
    let shown = ordinals_of(indexes);
    let mut r = owned("The ");
    r.append(plural);
    r.append(" shown are ");
    r.append(unit);
    r.append(" ");
    r.append(joined_strings(&shown, ", ").as_str());
    r.append(" of ");
    r.append(decimal_of(total as u128).as_str());
    r.append(". Only the ");
    r.append(plural);
    r.append(
        " the change names are shown, each with its zero-based index in the whole set. \
Patch indexes refer to the whole set. Change only these ",
    );
    r.append(plural);
    r.append(". Do not replace, delete, or insert any other ");
    r.append(unit);
    r.append(".\n");
    r
}

/// The texts as items of a list.
pub open spec fn bullets(list: Seq<Seq<char>>) -> Seq<Seq<char>> {
    list.map_values(|item: Seq<char>| "- "@ + item)
}

/// The texts as items of a list.
pub fn bullets_of(list: &[String]) -> (r: Vec<String>)
    ensures
        text::strings(r@) == bullets(text::strings(list@)),
{
    let mut r: Vec<String> = Vec::new();
    let mut k: usize = 0;
    while k < list.len()
        invariant
            k <= list@.len(),
            text::strings(r@) == bullets(text::strings(list@)).take(k as int),
        decreases list@.len() - k,
    {
        let ghost before = r@;
        let mut item = owned("- ");
        item.append(list[k].as_str());
        r.push(item);
        assert(text::strings(r@) =~= text::strings(before).push(r@.last()@));
        assert(text::strings(r@) =~= bullets(text::strings(list@)).take(k + 1));
        k += 1;
    }
    assert(bullets(text::strings(list@)).take(k as int) =~= bullets(text::strings(list@)));
    r
}

/// The prompt block with the measured findings.
pub open spec fn findings_text(findings: Seq<Seq<char>>) -> Seq<char> {
    if findings.len() == 0 {
        Seq::empty()
    } else {
        "Chrome measured these layout problems before your change. Fix them where the change \
asks:\n"@ + text::join(bullets(findings), "\n"@) + "\n"@
    }
}

/// The prompt block with the measured findings. Empty when there are none.
pub fn findings_note(findings: &[String]) -> (r: String)
    ensures
        r@ == findings_text(text::strings(findings@)),
{
    if findings.len() == 0 {
        return String::new();
    }
    let lines = bullets_of(findings);
    let mut r = owned(
        "Chrome measured these layout problems before your change. Fix them where the change \
asks:\n",
    );
    r.append(joined_strings(&lines, "\n").as_str());
    r.append("\n");
    r
}

/// The change a fix round asks for.
pub open spec fn fix_text(plural: Seq<char>) -> Seq<char> {
    "Fix the measured layout problems in the "@ + plural
        + " shown. Keep the content and the design. Change only what the problems need."@
}

/// The change a fix round asks for.
pub fn fix_instruction(plural: &str) -> (r: String)
    ensures
        r@ == fix_text(plural@),
{
    let mut r = owned("Fix the measured layout problems in the ");
    r.append(plural);
    r.append(" shown. Keep the content and the design. Change only what the problems need.");
    r
}

// -- The focused view -------------------------------------------------------

/// How an edit shows the artifact.
#[derive(Clone, Copy, Debug, PartialEq, Eq, Structural)]
pub enum EditView {
    /// The whole artifact: the change names no unit.
    Whole,
    /// The named units with their markup.
    Focused,
    /// The named units without their markup, to be written anew.
    Fresh,
}

/// The units that an instruction names in an artifact of `count` units.
pub fn named_units(instruction: &str, unit: &str, count: usize) -> (r: Vec<usize>)
    ensures
        ascends(r@),
        forall|index: usize| #[trigger]
            r@.contains(index) <==> index < count && named_from(
                instruction@,
                marker_of(unit@),
                0,
            ).contains(index),
{
    let all = referenced_indexes(instruction, unit);
    let ghost listed = named_from(instruction@, marker_of(unit@), 0);
    let mut r: Vec<usize> = Vec::new();
    let mut k: usize = 0;
    while k < all.len()
        invariant
            k <= all@.len(),
            sorts(all@, listed),
            ascends(r@),
            forall|i: int, j: int|
                0 <= i < r@.len() && k <= j < all@.len() ==> #[trigger] r@[i] < #[trigger] all@[j],
            forall|index: usize| #[trigger]
                r@.contains(index) <==> index < count && all@.take(k as int).contains(index),
        decreases all@.len() - k,
    {
        let ghost before = r@;
        let ghost seen = all@.take(k as int);
        assert(all@.take(k + 1) =~= seen.push(all@[k as int]));
        if all[k] < count {
            r.push(all[k]);
        }
        proof {
            assert forall|index: usize| #[trigger] r@.contains(index) <==> index < count && all@.take(
                k + 1,
            ).contains(index) by {
                lemma_push_contains(seen, all@[k as int], index);
                if all@[k as int] < count {
                    lemma_push_contains(before, all@[k as int], index);
                }
                assert(before.contains(index) <==> index < count && seen.contains(index));
            }
        }
        k += 1;
    }
    assert(all@.take(k as int) =~= all@);
    r
}

proof fn lemma_push_contains(list: Seq<usize>, last: usize, index: usize)
    ensures
        list.push(last).contains(index) <==> list.contains(index) || index == last,
{
    let all = list.push(last);
    assert(all[list.len() as int] == last);
    if list.contains(index) {
        let k = choose|k: int| 0 <= k < list.len() && list[k] == index;
        assert(all[k] == index);
    }
    if all.contains(index) {
        let k = choose|k: int| 0 <= k < all.len() && all[k] == index;
        if k < list.len() {
            assert(list[k] == index);
        }
    }
}

/// How an edit shows the artifact: a change that names units is about those
/// units; a regenerate sees them without their markup.
pub fn edit_view(indexes: &[usize], is_fresh: bool) -> (r: EditView)
    ensures
        r == if indexes@.len() == 0 {
            EditView::Whole
        } else if is_fresh {
            EditView::Fresh
        } else {
            EditView::Focused
        },
{
    if indexes.len() == 0 {
        EditView::Whole
    } else if is_fresh {
        EditView::Fresh
    } else {
        EditView::Focused
    }
}

/// One unit of a focused view, with its index in the whole artifact.
#[derive(Debug)]
pub struct FocusedUnit<T> {
    pub index: usize,
    pub unit: T,
}

/// A unit as a regenerate shows it: its name and notes, without its markup.
pub open spec fn fresh(unit: UnitModel) -> UnitModel {
    UnitModel { html: Seq::empty(), css: None, ..unit }
}

/// The unit as a regenerate shows it: its name and notes, without its markup,
/// so the model writes it anew instead of tweaking it.
pub fn fresh_unit<T: Unit>(unit: &T) -> (r: T)
    ensures
        r.model() == fresh(unit.model()),
{
    let empty = String::new();
    let r = unit.with_content(empty, None);
    assert(r.model() == fresh(unit.model()));
    r
}

/// The units of a focused view, for the first `n` indexes.
pub open spec fn focused(
    units: Seq<UnitModel>,
    indexes: Seq<usize>,
    is_fresh: bool,
    n: int,
) -> Seq<(usize, UnitModel)>
    decreases n,
{
    if n <= 0 {
        Seq::empty()
    } else if indexes[n - 1] < units.len() {
        let unit = units[indexes[n - 1] as int];
        focused(units, indexes, is_fresh, n - 1).push(
            (
                indexes[n - 1],
                if is_fresh {
                    fresh(unit)
                } else {
                    unit
                },
            ),
        )
    } else {
        focused(units, indexes, is_fresh, n - 1)
    }
}

/// What a focused view shows.
pub open spec fn shown_in<T: Unit>(units: Seq<FocusedUnit<T>>) -> Seq<(usize, UnitModel)> {
    units.map_values(|shown: FocusedUnit<T>| (shown.index, shown.unit.model()))
}

/// Only the units at `indexes`, each with its index, without their markup
/// when `is_fresh`. An index past the end shows nothing.
pub fn focused_units<T: Unit + Duplicate>(
    units: &[T],
    indexes: &[usize],
    is_fresh: bool,
) -> (r: Vec<FocusedUnit<T>>)
    ensures
        shown_in(r@) == focused(
            model::units_of(units@),
            indexes@,
            is_fresh,
            indexes@.len() as int,
        ),
{
    let ghost all = model::units_of(units@);
    let mut r: Vec<FocusedUnit<T>> = Vec::new();
    let mut n: usize = 0;
    assert(shown_in(r@) =~= Seq::<(usize, UnitModel)>::empty());
    while n < indexes.len()
        invariant
            n <= indexes@.len(),
            all == model::units_of(units@),
            shown_in(r@) == focused(all, indexes@, is_fresh, n as int),
        decreases indexes@.len() - n,
    {
        let index: usize = indexes[n];
        if index < units.len() {
            let ghost before = shown_in(r@);
            let unit = if is_fresh {
                fresh_unit(&units[index])
            } else {
                units[index].duplicate()
            };
            let ghost new = (index, unit.model());
            r.push(FocusedUnit { index, unit });
            assert(shown_in(r@) =~= before.push(new));
            assert(all[index as int] == units@[index as int].model());
        }
        n += 1;
    }
    r
}

// -- Touched units ----------------------------------------------------------

/// True when unit `index` is not what it was.
pub open spec fn differs<T: PartialEq>(before: Seq<T>, after: Seq<T>, index: int) -> bool {
    index >= before.len() || !before[index].eq_spec(&after[index])
}

/// True when an edit touched unit `index`: the change named it, or its
/// content differs.
pub open spec fn touched<T: PartialEq>(
    before: Seq<T>,
    after: Seq<T>,
    named: Seq<usize>,
    index: usize,
) -> bool {
    index < after.len() && (named.contains(index) || differs(before, after, index as int))
}

fn is_listed(list: &[usize], index: usize) -> (r: bool)
    ensures
        r == list@.contains(index),
{
    let mut k: usize = 0;
    while k < list.len()
        invariant
            k <= list@.len(),
            forall|j: int| 0 <= j < k ==> #[trigger] list@[j] != index,
        decreases list@.len() - k,
    {
        if list[k] == index {
            return true;
        }
        k += 1;
    }
    false
}

/// The units an edit touched: the ones the change named, and every index
/// whose content differs after the edit. Sorted, without repeats, and within
/// `after`.
pub fn touched_indexes<T: PartialEq>(before: &[T], after: &[T], named: &[usize]) -> (r: Vec<usize>)
    requires
        T::obeys_eq_spec(),
    ensures
        ascends(r@),
        forall|index: usize| #[trigger]
            r@.contains(index) <==> touched(before@, after@, named@, index),
{
    let mut r: Vec<usize> = Vec::new();
    let mut k: usize = 0;
    while k < after.len()
        invariant
            T::obeys_eq_spec(),
            k <= after@.len(),
            ascends(r@),
            forall|j: int| 0 <= j < r@.len() ==> #[trigger] r@[j] < k,
            forall|index: usize| #[trigger]
                r@.contains(index) <==> index < k && touched(before@, after@, named@, index),
        decreases after@.len() - k,
    {
        let ghost found = r@;
        let changed = k >= before.len() || !(before[k] == after[k]);
        if changed || is_listed(named, k) {
            r.push(k);
            proof {
                assert(r@[found.len() as int] == k);
                assert forall|index: usize| #[trigger] r@.contains(index) <==> found.contains(index)
                    || index == k by {
                    if found.contains(index) {
                        let j = choose|j: int| 0 <= j < found.len() && found[j] == index;
                        assert(r@[j] == index);
                    }
                }
            }
        }
        k += 1;
    }
    r
}

/// An edit that names nothing and changes nothing touches nothing.
pub proof fn law_no_change_touches_nothing<T: PartialEq>(units: Seq<T>, index: usize)
    requires
        forall|unit: T| #[trigger] unit.eq_spec(&unit),
    ensures
        !touched(units, units, Seq::<usize>::empty(), index),
{
}

/// Every finding is told in the note, as an item of its list.
pub proof fn law_every_finding_is_told(findings: Seq<Seq<char>>, k: int)
    requires
        0 <= k < findings.len(),
    ensures
        text::holds(findings_text(findings), "- "@ + findings[k]),
{
    let list = bullets(findings);
    let label = "Chrome measured these layout problems before your change. Fix them where the change \
asks:\n"@;
    assert(list[k] == "- "@ + findings[k]);
    text::lemma_join_holds(list, "\n"@, k);
    text::lemma_holds_itself(label, text::join(list, "\n"@), "\n"@);
    text::lemma_holds_inside(findings_text(findings), text::join(list, "\n"@), "- "@ + findings[k]);
}

proof fn lemma_focused_of_prefix(
    units: Seq<UnitModel>,
    a: Seq<usize>,
    b: Seq<usize>,
    is_fresh: bool,
    n: int,
)
    requires
        0 <= n <= a.len(),
    ensures
        focused(units, a + b, is_fresh, n) == focused(units, a, is_fresh, n),
    decreases n,
{
    if n > 0 {
        lemma_focused_of_prefix(units, a, b, is_fresh, n - 1);
        assert((a + b)[n - 1] == a[n - 1]);
    }
}

/// A focused view shows the units that the indexes name, in their order, each
/// with its index in the whole artifact: as it is, or without its markup when
/// it is written anew. An index past the end shows nothing.
pub proof fn law_a_focused_view_shows_its_units(
    units: Seq<UnitModel>,
    a: Seq<usize>,
    b: Seq<usize>,
    is_fresh: bool,
)
    ensures
        focused(units, a + b, is_fresh, (a + b).len() as int) == focused(
            units,
            a,
            is_fresh,
            a.len() as int,
        ) + focused(units, b, is_fresh, b.len() as int),
        a.len() == 1 && a[0] >= units.len() ==> focused(units, a, is_fresh, 1) == Seq::<
            (usize, UnitModel),
        >::empty(),
        a.len() == 1 && a[0] < units.len() && !is_fresh ==> focused(units, a, is_fresh, 1)
            == seq![(a[0], units[a[0] as int])],
        a.len() == 1 && a[0] < units.len() && is_fresh ==> focused(units, a, is_fresh, 1) == seq![
            (
                a[0],
                UnitModel { html: Seq::empty(), css: None, ..units[a[0] as int] },
            ),
        ],
    decreases b.len(),
{
    reveal_with_fuel(focused, 2);
    if a.len() == 1 && a[0] < units.len() {
        let unit = units[a[0] as int];
        let shown = if is_fresh {
            fresh(unit)
        } else {
            unit
        };
        assert(focused(units, a, is_fresh, 1) =~= seq![(a[0], shown)]);
    }
    let first = focused(units, a, is_fresh, a.len() as int);
    if b.len() == 0 {
        assert(a + b =~= a);
        assert(first + Seq::<(usize, UnitModel)>::empty() =~= first);
    } else {
        let rest = b.drop_last();
        let tail = seq![b.last()];
        law_a_focused_view_shows_its_units(units, a, rest, is_fresh);
        assert(a + b =~= (a + rest) + tail);
        assert(b =~= rest + tail);
        lemma_focused_of_prefix(units, a + rest, tail, is_fresh, (a + rest).len() as int);
        lemma_focused_of_prefix(units, rest, tail, is_fresh, rest.len() as int);
        let middle = focused(units, rest, is_fresh, rest.len() as int);
        if b.last() < units.len() {
            let unit = units[b.last() as int];
            let shown = (
                b.last(),
                if is_fresh {
                    fresh(unit)
                } else {
                    unit
                },
            );
            assert((first + middle).push(shown) =~= first + middle.push(shown));
        }
    }
}

proof fn lemma_digits_end(s: Seq<char>, from: int, end: int)
    requires
        0 <= from <= end <= s.len(),
        forall|j: int| from <= j < end ==> text::is_digit(#[trigger] s[j]),
        end == s.len() || !text::is_digit(s[end]),
    ensures
        digits_end(s, from) == end,
    decreases end - from,
{
    if from < end {
        lemma_digits_end(s, from + 1, end);
    }
}

/// Where one marker stands, the next stands behind its end.
proof fn lemma_markers_apart(s: Seq<char>, marker: Seq<char>, i: int, j: int)
    requires
        text::stands_at(s, marker, i),
        text::stands_at(s, marker, j),
        i < j,
        marker.len() > 0,
        forall|k: int| 0 < k < marker.len() ==> #[trigger] marker[k] != marker[0],
    ensures
        i + marker.len() <= j,
{
    if j < i + marker.len() {
        assert(s.subrange(j, j + marker.len())[0] == s[j]);
        assert(s.subrange(i, i + marker.len())[j - i] == s[j]);
        assert(marker[j - i] == marker[0]);
    }
}

proof fn lemma_named(s: Seq<char>, marker: Seq<char>, from: int, at: int, index: usize)
    requires
        0 <= from <= at,
        text::stands_at(s, marker, at),
        index_at(s, at + marker.len()) == Some(index as int),
        marker.len() > 0,
        forall|k: int| 0 < k < marker.len() ==> #[trigger] marker[k] != marker[0],
    ensures
        named_from(s, marker, from).contains(index),
    decreases s.len() - from,
{
    text::lemma_find_from(s, marker, from);
    if let Some(start) = text::find_from(s, marker, from) {
        let rest = named_from(s, marker, start + marker.len());
        let all = named_from(s, marker, from);
        if start == at {
            assert(all[0] == index);
        } else {
            lemma_markers_apart(s, marker, start, at);
            lemma_named(s, marker, start + marker.len(), at, index);
            let k = choose|k: int| 0 <= k < rest.len() && rest[k] == index;
            if index_at(s, start + marker.len()) is Some {
                assert(all[k + 1] == index);
            }
        }
    }
}

/// A reference names its unit: where an instruction has `[unit N` with a
/// number from one on, the unit before that number, counted from zero, is
/// named.
pub proof fn law_a_reference_names_its_unit(
    instruction: Seq<char>,
    unit: Seq<char>,
    at: int,
    index: usize,
)
    requires
        !unit.contains('['),
        text::stands_at(
            instruction,
            marker_of(unit) + text::decimal((index + 1) as nat),
            at,
        ),
        index < usize::MAX,
        ({
            let end = at + marker_of(unit).len() + text::decimal((index + 1) as nat).len();
            end == instruction.len() || !text::is_digit(instruction[end])
        }),
    ensures
        named_from(instruction, marker_of(unit), 0).contains(index),
{
    let marker = marker_of(unit);
    let digits = text::decimal((index + 1) as nat);
    let start = at + marker.len();
    let end = start + digits.len();
    let whole = instruction.subrange(at, end);
    reveal_strlit("[");
    reveal_strlit(" ");
    text::law_a_number_reads_back((index + 1) as nat);
    assert(whole == marker + digits);
    assert(instruction.subrange(at, start) =~= marker) by {
        assert forall|k: int| 0 <= k < marker.len() implies instruction.subrange(at, start)[k]
            == marker[k] by {
            assert(whole[k] == marker[k]);
        }
    }
    assert(instruction.subrange(start, end) =~= digits) by {
        assert forall|k: int| 0 <= k < digits.len() implies instruction.subrange(start, end)[k]
            == digits[k] by {
            assert(whole[marker.len() + k] == digits[k]);
        }
    }
    assert forall|j: int| start <= j < end implies text::is_digit(#[trigger] instruction[j]) by {
        assert(instruction.subrange(start, end)[j - start] == digits[j - start]);
    }
    lemma_digits_end(instruction, start, end);
    assert forall|k: int| 0 < k < marker.len() implies #[trigger] marker[k] != marker[0] by {
        if k <= unit.len() {
            assert(marker[k] == unit[k - 1]);
            assert(unit.contains(unit[k - 1]));
        }
    }
    lemma_named(instruction, marker, 0, at, index);
}

/// The note on a focused view names each unit shown by its number, counted
/// from one, and the size of the whole set.
pub proof fn law_a_focus_note_names_its_units(
    unit: Seq<char>,
    plural: Seq<char>,
    indexes: Seq<usize>,
    total: nat,
    k: int,
)
    requires
        0 <= k < indexes.len(),
    ensures
        text::holds(
            focus_text(unit, plural, indexes, total),
            text::decimal((indexes[k] + 1) as nat),
        ),
        text::holds(focus_text(unit, plural, indexes, total), " of "@ + text::decimal(total)),
{
    let numbers = ordinals(indexes);
    let list = text::join(numbers, ", "@);
    text::lemma_join_holds(numbers, ", "@, k);
    assert(numbers[k] == text::decimal((indexes[k] + 1) as nat));
    let front = "The "@ + plural + " shown are "@ + unit + " "@;
    let count = " of "@ + text::decimal(total);
    let told = focus_text(unit, plural, indexes, total);
    let behind = ". Only the "@ + plural
        + " the change names are shown, each with its zero-based index in the whole set. \
Patch indexes refer to the whole set. Change only these "@ + plural
        + ". Do not replace, delete, or insert any other "@ + unit + ".\n"@;
    assert(told =~= front + list + (count + behind));
    text::lemma_holds_behind(front, list, count + behind, numbers[k]);
    assert(told =~= (front + list) + count + behind);
    text::lemma_holds_itself(front + list, count, behind);
}

/// A finding belongs to the unit whose index it begins with, and to no other.
pub proof fn law_a_finding_belongs_to_its_unit(
    plural: Seq<char>,
    index: usize,
    told: Seq<char>,
    indexes: Seq<usize>,
)
    ensures
        belongs(plural + "["@ + text::decimal(index as nat) + "] "@ + told, plural, indexes)
            <==> indexes.contains(index),
{
    reveal_strlit("] ");
    let finding = plural + "["@ + text::decimal(index as nat) + "] "@ + told;
    if indexes.contains(index) {
        let k = choose|k: int| 0 <= k < indexes.len() && indexes[k] == index;
        let prefix = prefix_of(plural, indexes[k]);
        assert(finding.subrange(0, prefix.len() as int) =~= prefix);
        assert(text::starts_with(finding, prefix_of(plural, indexes[k])));
    }
    if belongs(finding, plural, indexes) {
        let k = choose|k: int|
            0 <= k < indexes.len() && text::starts_with(
                finding,
                prefix_of(plural, #[trigger] indexes[k]),
            );
        let other = indexes[k];
        if other != index {
            let head = plural + "["@;
            let prefix = prefix_of(plural, other);
            let n = prefix.len() as int;
            let x = seq![' '] + told;
            let y = seq![' '] + finding.skip(n);
            assert("] "@ =~= seq![']', ' ']);
            assert(finding =~= head + (text::decimal(index as nat) + seq![']'] + x));
            assert(finding =~= prefix + finding.skip(n));
            assert(prefix + finding.skip(n) =~= head + (text::decimal(other as nat) + seq![']']
                + y));
            let a = text::decimal(index as nat) + seq![']'] + x;
            let b = text::decimal(other as nat) + seq![']'] + y;
            assert(finding.skip(head.len() as int) =~= a);
            assert(finding.skip(head.len() as int) =~= b);
            order::lemma_decimals_differ_before(index as nat, other as nat, ']', x, y);
        }
    }
}

} // verus!
