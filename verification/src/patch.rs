//! Patches: lists of operations on the units of an artifact.
//!
//! Every index in a patch refers to the artifact as it was before the
//! patch. An insert puts its unit before that index; an index equal to the
//! count appends. The last replacement of a unit wins.

use vstd::prelude::*;

use crate::model::Duplicate;
use crate::text;
use crate::text::{chars_of, decimal_of, find_char, owned, part, rfind_char, text_of};

verus! {

/// One operation on a unit.
#[derive(Debug)]
pub struct UnitPatch<T> {
    /// Zero-based index into the units before the patch.
    pub index: usize,
    /// True to insert at `index` instead of replacing.
    pub insert: bool,
    /// The unit. `None` without `insert` deletes.
    pub unit: Option<T>,
}

/// Why a patch cannot be applied, with the index of the operation.
#[derive(Clone, Copy, Debug, PartialEq, Eq, Structural)]
pub enum PatchError {
    /// An insert carries no unit.
    NoUnit(usize),
    /// An insert index is past the end.
    PastEnd(usize),
    /// The unit to replace or delete does not exist.
    NoSuchUnit(usize),
}

/// What is wrong with an operation on `count` units.
pub open spec fn error_of<T>(operation: UnitPatch<T>, count: int) -> Option<PatchError> {
    if operation.insert {
        if operation.unit is None {
            Some(PatchError::NoUnit(operation.index))
        } else if operation.index > count {
            Some(PatchError::PastEnd(operation.index))
        } else {
            None
        }
    } else if operation.index >= count {
        Some(PatchError::NoSuchUnit(operation.index))
    } else {
        None
    }
}

/// The first error among the operations from `k` on.
pub open spec fn first_error<T>(operations: Seq<UnitPatch<T>>, count: int, k: int) -> Option<
    PatchError,
>
    decreases operations.len() - k,
{
    if !(0 <= k < operations.len()) {
        None
    } else {
        match error_of(operations[k], count) {
            Some(error) => Some(error),
            None => first_error(operations, count, k + 1),
        }
    }
}

/// The units that the first `k` operations insert before `index`, in order.
pub open spec fn inserted<T>(operations: Seq<UnitPatch<T>>, index: int, k: int) -> Seq<T>
    decreases k,
{
    if k <= 0 || k > operations.len() {
        Seq::empty()
    } else {
        let before = inserted(operations, index, k - 1);
        let operation = operations[k - 1];
        if operation.insert && operation.index == index {
            match operation.unit {
                Some(unit) => before.push(unit),
                None => before,
            }
        } else {
            before
        }
    }
}

/// What the last of the first `k` operations that replaces unit `index`
/// makes of it: `Some(None)` deletes it, `None` leaves it.
pub open spec fn replacement<T>(operations: Seq<UnitPatch<T>>, index: int, k: int) -> Option<
    Option<T>,
>
    decreases k,
{
    if k <= 0 || k > operations.len() {
        None
    } else if !operations[k - 1].insert && operations[k - 1].index == index {
        Some(operations[k - 1].unit)
    } else {
        replacement(operations, index, k - 1)
    }
}

/// What becomes of unit `index` itself.
pub open spec fn kept<T>(units: Seq<T>, operations: Seq<UnitPatch<T>>, index: int) -> Seq<T> {
    match replacement(operations, index, operations.len() as int) {
        Some(Some(unit)) => seq![unit],
        Some(None) => Seq::empty(),
        None => seq![units[index]],
    }
}

/// What becomes of the units before index `n`, with what is inserted before
/// each.
pub open spec fn patched_before<T>(
    units: Seq<T>,
    operations: Seq<UnitPatch<T>>,
    n: int,
) -> Seq<T>
    decreases n,
{
    if n <= 0 {
        Seq::empty()
    } else {
        patched_before(units, operations, n - 1) + inserted(
            operations,
            n - 1,
            operations.len() as int,
        ) + kept(units, operations, n - 1)
    }
}

/// The units after the patch.
pub open spec fn patched<T>(units: Seq<T>, operations: Seq<UnitPatch<T>>) -> Seq<T> {
    patched_before(units, operations, units.len() as int) + inserted(
        operations,
        units.len() as int,
        operations.len() as int,
    )
}

fn check_operation<T>(operation: &UnitPatch<T>, count: usize) -> (r: Option<PatchError>)
    ensures
        r == error_of(*operation, count as int),
{
    if operation.insert {
        if operation.unit.is_none() {
            Some(PatchError::NoUnit(operation.index))
        } else if operation.index > count {
            Some(PatchError::PastEnd(operation.index))
        } else {
            None
        }
    } else if operation.index >= count {
        Some(PatchError::NoSuchUnit(operation.index))
    } else {
        None
    }
}

fn push_inserted<T: Duplicate>(out: &mut Vec<T>, operations: &[UnitPatch<T>], index: usize)
    ensures
        final(out)@ == old(out)@ + inserted(operations@, index as int, operations@.len() as int),
{
    let mut k: usize = 0;
    assert(out@ + inserted(operations@, index as int, 0) =~= out@);
    while k < operations.len()
        invariant
            k <= operations@.len(),
            out@ == old(out)@ + inserted(operations@, index as int, k as int),
        decreases operations@.len() - k,
    {
        if operations[k].insert && operations[k].index == index {
            if let Some(unit) = &operations[k].unit {
                out.push(unit.duplicate());
            }
        }
        assert(out@ =~= old(out)@ + inserted(operations@, index as int, k + 1));
        k += 1;
    }
}

fn push_kept<T: Duplicate>(
    out: &mut Vec<T>,
    units: &[T],
    operations: &[UnitPatch<T>],
    index: usize,
)
    requires
        index < units@.len(),
    ensures
        final(out)@ == old(out)@ + kept(units@, operations@, index as int),
{
    let mut k: usize = operations.len();
    while k > 0
        invariant
            k <= operations@.len(),
            index < units@.len(),
            *out == *old(out),
            replacement(operations@, index as int, operations@.len() as int) == replacement(
                operations@,
                index as int,
                k as int,
            ),
        decreases k,
    {
        let operation = &operations[k - 1];
        if !operation.insert && operation.index == index {
            match &operation.unit {
                Some(unit) => {
                    out.push(unit.duplicate());
                },
                None => {},
            }
            assert(out@ =~= old(out)@ + kept(units@, operations@, index as int));
            return;
        }
        k -= 1;
    }
    out.push(units[index].duplicate());
    assert(out@ =~= old(out)@ + kept(units@, operations@, index as int));
}

/// Applies the operations to a copy of the units. The first operation that
/// cannot be applied is the error.
pub fn apply_operations<T: Duplicate>(units: &[T], operations: &[UnitPatch<T>]) -> (r: Result<
    Vec<T>,
    PatchError,
>)
    ensures
        match r {
            Ok(result) => first_error(operations@, units@.len() as int, 0) is None && result@
                == patched(units@, operations@),
            Err(error) => first_error(operations@, units@.len() as int, 0) == Some(error),
        },
{
    let count: usize = units.len();
    let mut k: usize = 0;
    while k < operations.len()
        invariant
            k <= operations@.len(),
            count == units@.len(),
            first_error(operations@, count as int, 0) == first_error(
                operations@,
                count as int,
                k as int,
            ),
        decreases operations@.len() - k,
    {
        if let Some(error) = check_operation(&operations[k], count) {
            return Err(error);
        }
        k += 1;
    }
    let mut out: Vec<T> = Vec::new();
    let mut index: usize = 0;
    while index < count
        invariant
            index <= count,
            count == units@.len(),
            out@ == patched_before(units@, operations@, index as int),
        decreases count - index,
    {
        push_inserted(&mut out, operations, index);
        push_kept(&mut out, units, operations, index);
        index += 1;
    }
    push_inserted(&mut out, operations, count);
    Ok(out)
}

// -- Replies ----------------------------------------------------------------

/// The object that a reply holds: from the first opening brace to the last
/// closing one.
pub open spec fn object_in(reply: Seq<char>) -> Option<Seq<char>> {
    match (
        text::find_char_from(reply, '{', 0),
        text::rfind_char_before(reply, '}', reply.len() as int),
    ) {
        (Some(start), Some(end)) => if start <= end {
            Some(reply.subrange(start, end + 1))
        } else {
            None
        },
        _ => None,
    }
}

/// What a reply without an object is answered.
pub const NO_OBJECT: &'static str = "no JSON object in reply";

/// The JSON object in a model reply, without the prose around it.
pub fn json_object(content: &str) -> (r: Result<String, String>)
    ensures
        match r {
            Ok(object) => object_in(content@) == Some(object@),
            Err(message) => object_in(content@) is None && message@ == NO_OBJECT@,
        },
{
    let chars = chars_of(content);
    let length: usize = chars.len();
    match (find_char(&chars, '{', 0), rfind_char(&chars, '}')) {
        (Some(start), Some(end)) => {
            if start <= end {
                Ok(text_of(&part(&chars, start, end + 1)))
            } else {
                Err(owned(NO_OBJECT))
            }
        },
        _ => Err(owned(NO_OBJECT)),
    }
}

/// The message for a reply whose object is not a patch.
pub fn invalid_patch(error: &str) -> (r: String)
    ensures
        r@ == "invalid patch: "@ + error@,
{
    let mut r = owned("invalid patch: ");
    r.append(error);
    r
}

/// How a kind of artifact names itself and its units.
pub struct Wording<'a> {
    pub artifact: &'a str,
    pub unit: &'a str,
    pub plural: &'a str,
}

/// The place that a message starts with.
pub open spec fn place(plural: Seq<char>, index: usize) -> Seq<char> {
    plural + "["@ + text::decimal(index as nat) + "]"@
}

/// What the model reads about an error in its patch.
pub open spec fn message(error: PatchError, wording: Wording, count: nat) -> Seq<char> {
    match error {
        PatchError::NoUnit(index) => place(wording.plural@, index) + " has insert true but no "@
            + wording.unit@ + ": include the new "@ + wording.unit@,
        PatchError::PastEnd(index) => place(wording.plural@, index)
            + " insert index is past the end: use 0 to "@ + text::decimal(count),
        PatchError::NoSuchUnit(index) => place(wording.plural@, index) + " does not exist: the "@
            + wording.artifact@ + " has "@ + text::decimal(count) + " "@ + wording.plural@
            + ", use 0 to "@ + text::decimal(
            if count == 0 {
                0
            } else {
                (count - 1) as nat
            },
        ),
    }
}

fn place_of(plural: &str, index: usize) -> (r: String)
    ensures
        r@ == place(plural@, index),
{
    let mut r = owned(plural);
    r.append("[");
    r.append(decimal_of(index as u128).as_str());
    r.append("]");
    r
}

/// What the model reads about an error in its patch.
pub fn describe(error: PatchError, wording: &Wording, count: usize) -> (r: String)
    ensures
        r@ == message(error, *wording, count as nat),
{
    match error {
        PatchError::NoUnit(index) => {
            let mut r = place_of(wording.plural, index);
            r.append(" has insert true but no ");
            r.append(wording.unit);
            r.append(": include the new ");
            r.append(wording.unit);
            r
        },
        PatchError::PastEnd(index) => {
            let mut r = place_of(wording.plural, index);
            r.append(" insert index is past the end: use 0 to ");
            r.append(decimal_of(count as u128).as_str());
            r
        },
        PatchError::NoSuchUnit(index) => {
            let last: usize = if count == 0 {
                0
            } else {
                count - 1
            };
            let mut r = place_of(wording.plural, index);
            r.append(" does not exist: the ");
            r.append(wording.artifact);
            r.append(" has ");
            r.append(decimal_of(count as u128).as_str());
            r.append(" ");
            r.append(wording.plural);
            r.append(", use 0 to ");
            r.append(decimal_of(last as u128).as_str());
            r
        },
    }
}

// -- Laws -------------------------------------------------------------------

/// A patch without operations keeps every unit.
pub proof fn law_no_operations_keep_the_units<T>(units: Seq<T>)
    ensures
        first_error(Seq::<UnitPatch<T>>::empty(), units.len() as int, 0) is None,
        patched(units, Seq::<UnitPatch<T>>::empty()) == units,
{
    let none = Seq::<UnitPatch<T>>::empty();
    lemma_untouched_before(units, none, units.len() as int);
    assert(units.take(units.len() as int) =~= units);
    assert(units + Seq::<T>::empty() =~= units);
}

proof fn lemma_untouched_before<T>(units: Seq<T>, operations: Seq<UnitPatch<T>>, n: int)
    requires
        0 <= n <= units.len(),
        forall|k: int|
            0 <= k < operations.len() ==> (#[trigger] operations[k]).index >= n,
    ensures
        patched_before(units, operations, n) == units.take(n),
    decreases n,
{
    if n > 0 {
        lemma_untouched_before(units, operations, n - 1);
        lemma_nothing_at(operations, n - 1, operations.len() as int);
        assert(units.take(n - 1) + Seq::<T>::empty() + seq![units[n - 1]] =~= units.take(n));
    }
}

proof fn lemma_nothing_at<T>(operations: Seq<UnitPatch<T>>, index: int, k: int)
    requires
        0 <= k <= operations.len(),
        forall|j: int| 0 <= j < operations.len() ==> (#[trigger] operations[j]).index != index,
    ensures
        inserted(operations, index, k) == Seq::<T>::empty(),
        replacement(operations, index, k) is None,
    decreases k,
{
    if k > 0 {
        lemma_nothing_at(operations, index, k - 1);
    }
}

/// What becomes of the units from `from` up to `n` when no operation names
/// them.
proof fn lemma_untouched_behind<T>(
    units: Seq<T>,
    operations: Seq<UnitPatch<T>>,
    from: int,
    n: int,
)
    requires
        0 <= from <= n <= units.len(),
        forall|k: int|
            0 <= k < operations.len() ==> (#[trigger] operations[k]).index < from,
    ensures
        patched_before(units, operations, n) == patched_before(units, operations, from)
            + units.subrange(from, n),
    decreases n,
{
    if n > from {
        lemma_untouched_behind(units, operations, from, n - 1);
        lemma_nothing_at(operations, n - 1, operations.len() as int);
        assert(patched_before(units, operations, from) + units.subrange(from, n - 1) + Seq::<
            T,
        >::empty() + seq![units[n - 1]] =~= patched_before(units, operations, from)
            + units.subrange(from, n));
    } else {
        assert(patched_before(units, operations, from) + units.subrange(from, n)
            =~= patched_before(units, operations, from));
    }
}

proof fn lemma_one_operation<T>(units: Seq<T>, operation: UnitPatch<T>)
    requires
        operation.index < units.len(),
    ensures
        patched(units, seq![operation]) == units.take(operation.index as int) + inserted(
            seq![operation],
            operation.index as int,
            1,
        ) + kept(units, seq![operation], operation.index as int) + units.skip(operation.index + 1),
{
    let operations = seq![operation];
    let at = operation.index as int;
    lemma_untouched_before(units, operations, at);
    lemma_untouched_behind(units, operations, at + 1, units.len() as int);
    lemma_nothing_at(operations, units.len() as int, 1);
    assert(units.subrange(at + 1, units.len() as int) =~= units.skip(at + 1));
    assert(patched(units, operations) =~= patched_before(units, operations, at + 1) + units.skip(
        at + 1,
    ));
}

/// A replacement changes the unit it names and no other.
pub proof fn law_a_replacement_changes_one_unit<T>(units: Seq<T>, index: usize, unit: T)
    requires
        index < units.len(),
    ensures
        patched(units, seq![UnitPatch { index, insert: false, unit: Some(unit) }])
            == units.update(index as int, unit),
{
    let operation = UnitPatch { index, insert: false, unit: Some(unit) };
    lemma_one_operation(units, operation);
    reveal_with_fuel(inserted, 2);
    assert(inserted(seq![operation], index as int, 1) =~= Seq::<T>::empty());
    assert(kept(units, seq![operation], index as int) =~= seq![unit]);
    assert(units.take(index as int) + Seq::<T>::empty() + seq![unit] + units.skip(index + 1)
        =~= units.update(index as int, unit));
}

/// A deletion removes the unit it names and no other.
pub proof fn law_a_deletion_removes_one_unit<T>(units: Seq<T>, index: usize)
    requires
        index < units.len(),
    ensures
        patched(units, seq![UnitPatch { index, insert: false, unit: None::<T> }]) == units.remove(
            index as int,
        ),
{
    let operation = UnitPatch { index, insert: false, unit: None::<T> };
    lemma_one_operation(units, operation);
    reveal_with_fuel(inserted, 2);
    assert(inserted(seq![operation], index as int, 1) =~= Seq::<T>::empty());
    assert(kept(units, seq![operation], index as int) =~= Seq::<T>::empty());
    assert(units.take(index as int) + Seq::<T>::empty() + Seq::<T>::empty() + units.skip(index + 1)
        =~= units.remove(index as int));
}

/// An insert puts its unit before the one it names, and an index equal to
/// the count appends. Every other unit stays.
pub proof fn law_an_insert_adds_one_unit<T>(units: Seq<T>, index: usize, unit: T)
    requires
        index <= units.len(),
    ensures
        patched(units, seq![UnitPatch { index, insert: true, unit: Some(unit) }])
            == units.insert(index as int, unit),
{
    let operation = UnitPatch { index, insert: true, unit: Some(unit) };
    let operations = seq![operation];
    reveal_with_fuel(inserted, 2);
    assert(inserted(operations, index as int, 1) =~= seq![unit]);
    if index < units.len() {
        lemma_one_operation(units, operation);
        reveal_with_fuel(replacement, 2);
        assert(kept(units, operations, index as int) =~= seq![units[index as int]]);
        assert(units.take(index as int) + seq![unit] + seq![units[index as int]] + units.skip(
            index + 1,
        ) =~= units.insert(index as int, unit));
    } else {
        lemma_untouched_before(units, operations, units.len() as int);
        assert(units.take(index as int) + seq![unit] =~= units.insert(index as int, unit));
    }
}

/// The units that the operations insert before `index`, in the order of the
/// operations.
pub open spec fn inserts_at<T>(operations: Seq<UnitPatch<T>>, index: int) -> Seq<T> {
    operations.filter(|operation: UnitPatch<T>| operation.insert && operation.index == index)
        .map_values(|operation: UnitPatch<T>| operation.unit->0)
}

/// The operations on the units before `index`.
pub open spec fn operations_below<T>(operations: Seq<UnitPatch<T>>, index: int) -> Seq<
    UnitPatch<T>,
> {
    operations.filter(|operation: UnitPatch<T>| operation.index < index)
}

/// The operations on the units from `index` on, counted from there.
pub open spec fn operations_from<T>(operations: Seq<UnitPatch<T>>, index: int) -> Seq<
    UnitPatch<T>,
> {
    operations.filter(|operation: UnitPatch<T>| operation.index >= index).map_values(
        |operation: UnitPatch<T>|
            UnitPatch { index: (operation.index - index) as usize, ..operation },
    )
}

/// True when operation `k` is the last that replaces or deletes unit `index`.
pub open spec fn is_last_change<T>(operations: Seq<UnitPatch<T>>, index: int, k: int) -> bool {
    &&& 0 <= k < operations.len()
    &&& !operations[k].insert
    &&& operations[k].index == index
    &&& forall|j: int|
        k < j < operations.len() ==> (#[trigger] operations[j]).insert || operations[j].index
            != index
}

/// True when the last change of unit `index` deletes it.
pub open spec fn is_deleted<T>(operations: Seq<UnitPatch<T>>, index: int) -> bool {
    exists|k: int| #[trigger]
        is_last_change(operations, index, k) && operations[k].unit is None
}

/// How many of the first `n` units are deleted.
pub open spec fn deleted_count<T>(operations: Seq<UnitPatch<T>>, n: nat) -> nat {
    Seq::new(n, |i: int| i).filter(|i: int| is_deleted(operations, i)).len()
}

/// How many units are inserted.
pub open spec fn insert_count<T>(operations: Seq<UnitPatch<T>>) -> nat {
    operations.filter(|operation: UnitPatch<T>| operation.insert).len()
}

proof fn lemma_of_prefix<T>(operations: Seq<UnitPatch<T>>, shorter: Seq<UnitPatch<T>>, index: int, k: int)
    requires
        0 <= k <= shorter.len() <= operations.len(),
        forall|j: int| 0 <= j < k ==> operations[j] == #[trigger] shorter[j],
    ensures
        inserted(operations, index, k) == inserted(shorter, index, k),
        replacement(operations, index, k) == replacement(shorter, index, k),
    decreases k,
{
    if k > 0 {
        assert(operations[k - 1] == shorter[k - 1]);
        lemma_of_prefix(operations, shorter, index, k - 1);
    }
}

proof fn lemma_below<T>(operations: Seq<UnitPatch<T>>, bound: int, index: int)
    requires
        index < bound,
    ensures
        ({
            let below = operations_below(operations, bound);
            &&& inserted(below, index, below.len() as int) == inserted(
                operations,
                index,
                operations.len() as int,
            )
            &&& replacement(below, index, below.len() as int) == replacement(
                operations,
                index,
                operations.len() as int,
            )
        }),
    decreases operations.len(),
{
    reveal(Seq::filter);
    let below = operations_below(operations, bound);
    if operations.len() > 0 {
        let rest = operations.drop_last();
        let n = operations.len() as int;
        lemma_below(rest, bound, index);
        lemma_of_prefix(operations, rest, index, n - 1);
        if operations.last().index < bound {
            let less = operations_below(rest, bound);
            lemma_of_prefix(below, less, index, less.len() as int);
        }
    }
}

proof fn lemma_nothing_below<T>(operations: Seq<UnitPatch<T>>, bound: int)
    ensures
        ({
            let below = operations_below(operations, bound);
            inserted(below, bound, below.len() as int) == Seq::<T>::empty()
        }),
{
    let below = operations_below(operations, bound);
    assert forall|j: int| 0 <= j < below.len() implies (#[trigger] below[j]).index != bound by {
        operations.lemma_filter_pred(|operation: UnitPatch<T>| operation.index < bound, j);
    }
    lemma_nothing_at(below, bound, below.len() as int);
}

proof fn lemma_from<T>(operations: Seq<UnitPatch<T>>, bound: int, index: int)
    requires
        0 <= bound,
        0 <= index,
    ensures
        ({
            let from = operations_from(operations, bound);
            &&& inserted(from, index, from.len() as int) == inserted(
                operations,
                index + bound,
                operations.len() as int,
            )
            &&& replacement(from, index, from.len() as int) == replacement(
                operations,
                index + bound,
                operations.len() as int,
            )
        }),
    decreases operations.len(),
{
    reveal(Seq::filter);
    let from = operations_from(operations, bound);
    if operations.len() > 0 {
        let rest = operations.drop_last();
        let n = operations.len() as int;
        let last = operations.last();
        lemma_from(rest, bound, index);
        lemma_of_prefix(operations, rest, index + bound, n - 1);
        let less = operations_from(rest, bound);
        if last.index >= bound {
            assert(from =~= less.push(
                UnitPatch { index: (last.index - bound) as usize, ..last },
            ));
            lemma_of_prefix(from, less, index, less.len() as int);
        } else {
            assert(from =~= less);
        }
    }
}

proof fn lemma_head<T>(units: Seq<T>, operations: Seq<UnitPatch<T>>, bound: int, n: int)
    requires
        0 <= n <= bound <= units.len(),
    ensures
        patched_before(units.take(bound), operations_below(operations, bound), n)
            == patched_before(units, operations, n),
    decreases n,
{
    if n > 0 {
        lemma_head(units, operations, bound, n - 1);
        lemma_below(operations, bound, n - 1);
    }
}

proof fn lemma_tail<T>(units: Seq<T>, operations: Seq<UnitPatch<T>>, bound: int, n: int)
    requires
        0 <= n,
        0 <= bound,
        bound + n <= units.len(),
    ensures
        patched_before(units, operations, bound + n) == patched_before(units, operations, bound)
            + patched_before(units.skip(bound), operations_from(operations, bound), n),
    decreases n,
{
    let first = patched_before(units, operations, bound);
    let from = operations_from(operations, bound);
    if n > 0 {
        lemma_tail(units, operations, bound, n - 1);
        lemma_from(operations, bound, n - 1);
        assert(units.skip(bound)[n - 1] == units[bound + n - 1]);
        let ins = inserted(from, n - 1, from.len() as int);
        let own = kept(units.skip(bound), from, n - 1);
        assert(kept(units, operations, bound + n - 1) == own);
        let middle = patched_before(units.skip(bound), from, n - 1);
        assert(first + middle + ins + own =~= first + (middle + ins + own));
    } else {
        assert(first + patched_before(units.skip(bound), from, 0) =~= first);
    }
}

/// A patch acts on the units before any index and on those from it on alone:
/// the result is what the operations below the index make of the units
/// before it, followed by what the others make of the rest.
pub proof fn law_a_patch_acts_on_each_part_alone<T>(
    units: Seq<T>,
    operations: Seq<UnitPatch<T>>,
    index: int,
)
    requires
        0 <= index <= units.len(),
    ensures
        patched(units, operations) == patched(
            units.take(index),
            operations_below(operations, index),
        ) + patched(units.skip(index), operations_from(operations, index)),
{
    let count = units.len() as int;
    let below = operations_below(operations, index);
    let from = operations_from(operations, index);
    lemma_head(units, operations, index, index);
    lemma_nothing_below(operations, index);
    lemma_tail(units, operations, index, count - index);
    lemma_from(operations, index, count - index);
    let head = patched_before(units, operations, index);
    assert(head + Seq::<T>::empty() =~= head);
    let tail = patched_before(units.skip(index), from, count - index);
    let end = inserted(operations, count, operations.len() as int);
    assert((head + tail) + end =~= head + (tail + end));
}

proof fn lemma_inserts_in_order<T>(operations: Seq<UnitPatch<T>>, index: int)
    requires
        forall|k: int|
            0 <= k < operations.len() && (#[trigger] operations[k]).insert ==> operations[k].unit
                is Some,
    ensures
        inserted(operations, index, operations.len() as int) == inserts_at(operations, index),
    decreases operations.len(),
{
    reveal(Seq::filter);
    if operations.len() > 0 {
        let rest = operations.drop_last();
        assert forall|k: int| 0 <= k < rest.len() && (#[trigger] rest[k]).insert implies rest[k].unit
            is Some by {
            assert(rest[k] == operations[k]);
        }
        lemma_inserts_in_order(rest, index);
        lemma_of_prefix(operations, rest, index, operations.len() - 1);
        let last = operations.last();
        assert(last == operations[operations.len() - 1]);
        if last.insert && last.index == index {
            assert(inserts_at(operations, index) =~= inserts_at(rest, index).push(last.unit->0));
        } else {
            assert(inserts_at(operations, index) =~= inserts_at(rest, index));
        }
    } else {
        assert(inserts_at(operations, index) =~= Seq::<T>::empty());
    }
}

proof fn lemma_no_errors<T>(operations: Seq<UnitPatch<T>>, count: int, k: int)
    requires
        0 <= k <= operations.len(),
        first_error(operations, count, k) is None,
    ensures
        forall|j: int|
            k <= j < operations.len() ==> error_of(#[trigger] operations[j], count) is None,
    decreases operations.len() - k,
{
    if k < operations.len() {
        lemma_no_errors(operations, count, k + 1);
    }
}

proof fn lemma_last_change<T>(operations: Seq<UnitPatch<T>>, index: int, n: int)
    requires
        0 <= n <= operations.len(),
        forall|j: int|
            n <= j < operations.len() ==> (#[trigger] operations[j]).insert || operations[j].index
                != index,
    ensures
        match replacement(operations, index, n) {
            Some(unit) => exists|k: int| #[trigger]
                is_last_change(operations, index, k) && operations[k].unit == unit,
            None => forall|k: int| !#[trigger] is_last_change(operations, index, k),
        },
    decreases n,
{
    if n > 0 {
        if !operations[n - 1].insert && operations[n - 1].index == index {
            assert(is_last_change(operations, index, n - 1));
        } else {
            lemma_last_change(operations, index, n - 1);
        }
    }
}

proof fn lemma_one_last_change<T>(operations: Seq<UnitPatch<T>>, index: int, a: int, b: int)
    requires
        is_last_change(operations, index, a),
        is_last_change(operations, index, b),
    ensures
        a == b,
{
    if a < b {
        assert(operations[b].insert || operations[b].index != index);
    }
    if b < a {
        assert(operations[a].insert || operations[a].index != index);
    }
}

/// The units inserted before an index stand in the result, in the order of
/// the operations, right before what becomes of that index: the unit as it
/// was, what the last replacement made of it, or nothing when that deletes
/// it.
pub proof fn law_inserts_stand_before_their_unit<T>(
    units: Seq<T>,
    operations: Seq<UnitPatch<T>>,
    index: int,
)
    requires
        first_error(operations, units.len() as int, 0) is None,
        0 <= index < units.len(),
    ensures
        ({
            let before = patched(units.take(index), operations_below(operations, index))
                + inserts_at(operations, index);
            let behind = patched(units.skip(index + 1), operations_from(operations, index + 1));
            &&& forall|k: int| #[trigger]
                is_last_change(operations, index, k) ==> patched(units, operations) == before + (
                match operations[k].unit {
                    Some(unit) => seq![unit],
                    None => Seq::empty(),
                }) + behind
            &&& (forall|k: int| !#[trigger] is_last_change(operations, index, k)) ==> patched(
                units,
                operations,
            ) == before + seq![units[index]] + behind
        }),
{
    let n = operations.len() as int;
    law_a_patch_acts_on_each_part_alone(units, operations, index);
    law_a_patch_acts_on_each_part_alone(units, operations, index + 1);
    lemma_no_errors(operations, units.len() as int, 0);
    lemma_inserts_in_order(operations, index);
    lemma_last_change(operations, index, n);
    lemma_head(units, operations, index, index);
    lemma_head(units, operations, index + 1, index + 1);
    lemma_nothing_below(operations, index);
    lemma_nothing_below(operations, index + 1);
    let head = patched_before(units, operations, index);
    let ins = inserts_at(operations, index);
    let own = kept(units, operations, index);
    let behind = patched(units.skip(index + 1), operations_from(operations, index + 1));
    assert(patched(units.take(index), operations_below(operations, index)) =~= head);
    assert(patched(units.take(index + 1), operations_below(operations, index + 1)) =~= head + ins
        + own);
    assert forall|k: int| #[trigger] is_last_change(operations, index, k) implies patched(
        units,
        operations,
    ) == head + ins + (match operations[k].unit {
        Some(unit) => seq![unit],
        None => Seq::empty(),
    }) + behind by {
        let other = choose|k: int| #[trigger]
            is_last_change(operations, index, k) && operations[k].unit == replacement(
                operations,
                index,
                n,
            )->0;
        lemma_one_last_change(operations, index, k, other);
    }
}

/// A patch of no units is the units it inserts, in order.
pub proof fn law_an_empty_artifact_takes_the_inserts<T>(operations: Seq<UnitPatch<T>>)
    requires
        first_error(operations, 0, 0) is None,
    ensures
        patched(Seq::empty(), operations) == inserts_at(operations, 0),
{
    lemma_no_errors(operations, 0, 0);
    lemma_inserts_in_order(operations, 0);
    assert(Seq::<T>::empty() + inserts_at(operations, 0) =~= inserts_at(operations, 0));
}

proof fn lemma_count_inserts<T>(operations: Seq<UnitPatch<T>>, n: int)
    requires
        forall|k: int|
            0 <= k < operations.len() && (#[trigger] operations[k]).insert ==> operations[k].unit
                is Some,
    ensures
        operations.filter(|o: UnitPatch<T>| o.insert && o.index < n + 1).len()
            == operations.filter(|o: UnitPatch<T>| o.insert && o.index < n).len() + inserted(
            operations,
            n,
            operations.len() as int,
        ).len(),
    decreases operations.len(),
{
    reveal(Seq::filter);
    if operations.len() > 0 {
        let rest = operations.drop_last();
        assert forall|k: int| 0 <= k < rest.len() && (#[trigger] rest[k]).insert implies rest[k].unit
            is Some by {
            assert(rest[k] == operations[k]);
        }
        lemma_count_inserts(rest, n);
        lemma_of_prefix(operations, rest, n, operations.len() - 1);
        assert(operations.last() == operations[operations.len() - 1]);
    }
}

proof fn lemma_all_inserts<T>(operations: Seq<UnitPatch<T>>, n: int)
    requires
        forall|k: int|
            0 <= k < operations.len() && (#[trigger] operations[k]).insert ==> operations[k].index
                < n,
    ensures
        operations.filter(|o: UnitPatch<T>| o.insert && o.index < n).len() == insert_count(
            operations,
        ),
    decreases operations.len(),
{
    reveal(Seq::filter);
    if operations.len() > 0 {
        let rest = operations.drop_last();
        assert forall|k: int| 0 <= k < rest.len() && (#[trigger] rest[k]).insert implies rest[k].index
            < n by {
            assert(rest[k] == operations[k]);
        }
        lemma_all_inserts(rest, n);
        assert(operations.last() == operations[operations.len() - 1]);
    }
}

proof fn lemma_no_inserts_below<T>(operations: Seq<UnitPatch<T>>)
    ensures
        operations.filter(|o: UnitPatch<T>| o.insert && o.index < 0).len() == 0,
    decreases operations.len(),
{
    reveal(Seq::filter);
    if operations.len() > 0 {
        lemma_no_inserts_below(operations.drop_last());
    }
}

proof fn lemma_length_before<T>(units: Seq<T>, operations: Seq<UnitPatch<T>>, n: nat)
    requires
        n <= units.len(),
        forall|k: int|
            0 <= k < operations.len() && (#[trigger] operations[k]).insert ==> operations[k].unit
                is Some,
    ensures
        patched_before(units, operations, n as int).len() + deleted_count(operations, n) == n
            + operations.filter(|o: UnitPatch<T>| o.insert && o.index < n).len(),
    decreases n,
{
    reveal(Seq::filter);
    if n > 0 {
        let m = (n - 1) as nat;
        lemma_length_before(units, operations, m);
        lemma_count_inserts(operations, m as int);
        lemma_last_change(operations, m as int, operations.len() as int);
        let all = Seq::new(n, |i: int| i);
        assert(all.drop_last() =~= Seq::new(m, |i: int| i));
        assert(all.last() == m);
        match replacement(operations, m as int, operations.len() as int) {
            Some(unit) => {
                let k = choose|k: int| #[trigger]
                    is_last_change(operations, m as int, k) && operations[k].unit == unit;
                assert forall|j: int| #[trigger]
                    is_last_change(operations, m as int, j) implies operations[j].unit == unit by {
                    lemma_one_last_change(operations, m as int, j, k);
                }
                assert(is_deleted(operations, m as int) == (unit is None));
            },
            None => {
                assert(!is_deleted(operations, m as int));
            },
        }
    } else {
        lemma_no_inserts_below(operations);
        assert(Seq::new(0, |i: int| i) =~= Seq::<int>::empty());
    }
}

/// Every insert of an accepted patch is in the result, and every unit that is
/// not deleted: the result has as many units as there were, without the
/// deleted ones, plus one for each insert.
pub proof fn law_every_insert_is_in_the_result<T>(units: Seq<T>, operations: Seq<UnitPatch<T>>)
    requires
        first_error(operations, units.len() as int, 0) is None,
    ensures
        patched(units, operations).len() + deleted_count(operations, units.len()) == units.len()
            + insert_count(operations),
{
    let count = units.len();
    lemma_no_errors(operations, count as int, 0);
    lemma_length_before(units, operations, count);
    lemma_count_inserts(operations, count as int);
    lemma_all_inserts(operations, count as int + 1);
}

/// A patch is accepted when, and only when, each of its operations can be
/// applied to the artifact as it was: an insert has a unit and an index up to
/// the count, which appends; any other names a unit that exists.
pub proof fn law_a_patch_is_accepted_when_each_operation_fits<T>(
    operations: Seq<UnitPatch<T>>,
    count: int,
)
    ensures
        (first_error(operations, count, 0) is None) <==> (forall|k: int|
            0 <= k < operations.len() ==> if (#[trigger] operations[k]).insert {
                operations[k].unit is Some && operations[k].index <= count
            } else {
                operations[k].index < count
            }),
{
    if first_error(operations, count, 0) is None {
        lemma_no_errors(operations, count, 0);
    } else {
        lemma_first_error(operations, count, 0);
    }
}

proof fn lemma_first_error<T>(operations: Seq<UnitPatch<T>>, count: int, k: int)
    requires
        0 <= k,
        first_error(operations, count, k) is Some,
    ensures
        exists|j: int|
            k <= j < operations.len() && error_of(#[trigger] operations[j], count) == first_error(
                operations,
                count,
                k,
            ) && forall|i: int| k <= i < j ==> error_of(#[trigger] operations[i], count) is None,
    decreases operations.len() - k,
{
    if k < operations.len() {
        if error_of(operations[k], count) is None {
            lemma_first_error(operations, count, k + 1);
            let j = choose|j: int|
                k + 1 <= j < operations.len() && error_of(#[trigger] operations[j], count)
                    == first_error(operations, count, k + 1) && forall|i: int|
                    k + 1 <= i < j ==> error_of(#[trigger] operations[i], count) is None;
            assert(error_of(operations[j], count) == first_error(operations, count, k));
        } else {
            assert(error_of(operations[k], count) == first_error(operations, count, k));
        }
    }
}

/// A refused patch is answered by its first operation that cannot be applied.
pub proof fn law_the_first_bad_operation_is_the_error<T>(
    operations: Seq<UnitPatch<T>>,
    count: int,
)
    requires
        first_error(operations, count, 0) is Some,
    ensures
        exists|j: int|
            0 <= j < operations.len() && error_of(#[trigger] operations[j], count) == first_error(
                operations,
                count,
                0,
            ) && forall|i: int| 0 <= i < j ==> error_of(#[trigger] operations[i], count) is None,
{
    lemma_first_error(operations, count, 0);
}

} // verus!
