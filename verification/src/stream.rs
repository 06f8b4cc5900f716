//! Replies that stream in: the complete objects of an unfinished JSON text.

use vstd::prelude::*;

use crate::text;
use crate::text::{
    chars_of, find_char, find_text, joined, owned, part, push_chars, text_of, trimmed,
};

verus! {

/// Where the scan of an array stands.
#[derive(Clone, Copy, Debug, PartialEq, Eq, Structural)]
pub struct Scan {
    /// How many objects are open.
    pub depth: usize,
    /// True inside a string.
    pub quoted: bool,
    /// True behind a backslash in a string.
    pub escaped: bool,
    /// Where the open item starts.
    pub start: Option<usize>,
}

/// The scan behind an array's opening bracket.
pub open spec fn scan_start() -> Scan {
    Scan { depth: 0, quoted: false, escaped: false, start: None }
}

/// True when the array ends at `c`.
pub open spec fn ends_array(scan: Scan, c: char) -> bool {
    !scan.quoted && c == ']' && scan.depth == 0
}

/// The start of the item that `c` completes.
pub open spec fn completed(scan: Scan, c: char) -> Option<usize> {
    if !scan.quoted && c == '}' && scan.depth <= 1 {
        scan.start
    } else {
        None
    }
}

/// The scan behind the character `c` at `i`.
pub open spec fn scan_over(scan: Scan, c: char, i: int) -> Scan {
    if scan.quoted {
        if scan.escaped {
            Scan { escaped: false, ..scan }
        } else if c == '\\' {
            Scan { escaped: true, ..scan }
        } else if c == '"' {
            Scan { quoted: false, ..scan }
        } else {
            scan
        }
    } else if c == '"' {
        Scan { quoted: true, ..scan }
    } else if c == '{' {
        Scan {
            depth: (scan.depth + 1) as usize,
            start: if scan.depth == 0 {
                Some(i as usize)
            } else {
                scan.start
            },
            ..scan
        }
    } else if c == '}' {
        Scan {
            depth: if scan.depth == 0 {
                0
            } else {
                (scan.depth - 1) as usize
            },
            start: if scan.depth <= 1 {
                None
            } else {
                scan.start
            },
            ..scan
        }
    } else {
        scan
    }
}

/// The complete objects that end from `i` on, before the array ends.
pub open spec fn items_from(s: Seq<char>, i: int, scan: Scan) -> Seq<Seq<char>>
    decreases s.len() - i,
{
    if i < 0 || i >= s.len() || ends_array(scan, s[i]) {
        Seq::empty()
    } else {
        let rest = items_from(s, i + 1, scan_over(scan, s[i], i));
        match completed(scan, s[i]) {
            Some(start) => seq![s.subrange(start as int, i + 1)] + rest,
            None => rest,
        }
    }
}

/// `s` without the colons it starts with.
pub open spec fn without_colons(s: Seq<char>) -> Seq<char>
    decreases s.len(),
{
    if s.len() > 0 && s[0] == ':' {
        without_colons(s.drop_first())
    } else {
        s
    }
}

/// A key in quotes.
pub open spec fn quoted(key: Seq<char>) -> Seq<char> {
    "\""@ + key + "\""@
}

/// The position of the bracket that opens the array under `key`, at or after
/// `from`. Only a colon and spaces may sit between the key and its array: the
/// same text elsewhere, as a value, is no key.
pub open spec fn array_from(s: Seq<char>, key: Seq<char>, from: int) -> Option<int>
    decreases s.len() - from,
    via array_decreases
{
    match text::find_from(s, quoted(key), from) {
        Some(at) => {
            let behind = at + quoted(key).len();
            match text::find_char_from(s, '[', behind) {
                Some(bracket) => if text::trim(
                    without_colons(text::trim(s.subrange(behind, bracket))),
                ).len() == 0 {
                    Some(bracket)
                } else {
                    array_from(s, key, behind)
                },
                None => None,
            }
        },
        None => None,
    }
}

#[via_fn]
proof fn array_decreases(s: Seq<char>, key: Seq<char>, from: int) {
    reveal_strlit("\"");
    if from >= 0 {
        text::lemma_find_from(s, quoted(key), from);
    }
}

/// The position of the bracket that opens the array under `key`, once it has
/// started.
pub open spec fn array_start(s: Seq<char>, key: Seq<char>) -> Option<int> {
    array_from(s, key, 0)
}

/// The complete objects of the array that opens at `start`.
pub open spec fn items_at(s: Seq<char>, start: int) -> Seq<Seq<char>> {
    items_from(s, start + 1, scan_start())
}

fn skip_colons(chars: &[char]) -> (r: Vec<char>)
    ensures
        r@ == without_colons(chars@),
{
    let length: usize = chars.len();
    let mut i: usize = 0;
    assert(chars@.skip(0) =~= chars@);
    while i < chars.len() && chars[i] == ':'
        invariant
            i <= length,
            length == chars@.len(),
            without_colons(chars@) == without_colons(chars@.skip(i as int)),
        decreases length - i,
    {
        assert(chars@.skip(i as int).drop_first() =~= chars@.skip(i + 1));
        i += 1;
    }
    let r = part(chars, i, length);
    assert(r@ =~= chars@.skip(i as int));
    r
}

fn find_array(chars: &[char], key: &str) -> (r: Option<usize>)
    ensures
        text::position(r) == array_start(chars@, key@),
        r is Some ==> r->0 < chars@.len(),
{
    let mut name = owned("\"");
    name.append(key);
    name.append("\"");
    proof {
        reveal_strlit("\"");
    }
    let size: usize = chars_of(name.as_str()).len();
    let length: usize = chars.len();
    let mut from: usize = 0;
    loop
        invariant
            from <= length,
            length == chars@.len(),
            name@ == quoted(key@),
            size == name@.len(),
            size > 0,
            array_start(chars@, key@) == array_from(chars@, key@, from as int),
        decreases length - from,
    {
        let Some(at) = find_text(chars, name.as_str(), from) else {
            return None;
        };
        let behind: usize = at + size;
        let Some(bracket) = find_char(chars, '[', behind) else {
            return None;
        };
        let between = trimmed(&part(chars, behind, bracket));
        if trimmed(&skip_colons(&between)).len() == 0 {
            return Some(bracket);
        }
        from = behind;
    }
}

/// True when the scan of the characters before `i` can stand here.
spec fn is_sound(scan: Scan, s: Seq<char>, i: int) -> bool {
    &&& 0 <= scan.depth <= i
    &&& match scan.start {
        Some(start) => start < i && s[start as int] == '{',
        None => true,
    }
}

fn step(scan: Scan, c: char, i: usize) -> (r: Scan)
    requires
        scan.depth <= i < usize::MAX,
    ensures
        r == scan_over(scan, c, i as int),
{
    let mut r = scan;
    if scan.quoted {
        if scan.escaped {
            r.escaped = false;
        } else if c == '\\' {
            r.escaped = true;
        } else if c == '"' {
            r.quoted = false;
        }
    } else if c == '"' {
        r.quoted = true;
    } else if c == '{' {
        if scan.depth == 0 {
            r.start = Some(i);
        }
        r.depth = scan.depth + 1;
    } else if c == '}' {
        if scan.depth > 0 {
            r.depth = scan.depth - 1;
        }
        if scan.depth <= 1 {
            r.start = None;
        }
    }
    r
}

fn items_of(chars: &[char], start: usize) -> (r: Vec<Vec<char>>)
    requires
        start < chars@.len(),
    ensures
        text::texts(r@) == items_at(chars@, start as int),
{
    let ghost all = items_at(chars@, start as int);
    let length: usize = chars.len();
    let mut scan = Scan { depth: 0, quoted: false, escaped: false, start: None };
    let mut r: Vec<Vec<char>> = Vec::new();
    let mut i: usize = start + 1;
    assert(text::texts(r@) + all =~= all);
    while i < length
        invariant_except_break
            i <= length,
            length == chars@.len(),
            is_sound(scan, chars@, i as int),
            all == text::texts(r@) + items_from(chars@, i as int, scan),
        ensures
            all == text::texts(r@),
        decreases length - i,
    {
        let c = chars[i];
        if !scan.quoted && c == ']' && scan.depth == 0 {
            assert(text::texts(r@) + Seq::<Seq<char>>::empty() =~= text::texts(r@));
            break;
        }
        let ghost before = text::texts(r@);
        if !scan.quoted && c == '}' && scan.depth <= 1 {
            if let Some(from) = scan.start {
                r.push(part(chars, from, i + 1));
                proof {
                    let item = chars@.subrange(from as int, i + 1);
                    let rest = items_from(chars@, i + 1, scan_over(scan, c, i as int));
                    assert(text::texts(r@) =~= before.push(item));
                    assert(before + (seq![item] + rest) =~= text::texts(r@) + rest);
                }
            }
        }
        scan = step(scan, c, i);
        i += 1;
        if i == length {
            assert(text::texts(r@) + Seq::<Seq<char>>::empty() =~= text::texts(r@));
        }
    }
    r
}

/// The complete objects of the JSON array under `key` in a partial JSON text:
/// the position of the array's `[`, and each complete item. `None` until the
/// array has started.
pub fn complete_array_items(chars: &[char], key: &str) -> (r: Option<(usize, Vec<Vec<char>>)>)
    ensures
        match r {
            Some((start, items)) => array_start(chars@, key@) == Some(start as int)
                && start < chars@.len() && text::texts(items@) == items_at(chars@, start as int),
            None => array_start(chars@, key@) is None,
        },
{
    match find_array(chars, key) {
        Some(start) => Some((start, items_of(chars, start))),
        None => None,
    }
}

/// The artifact that an unfinished reply holds so far: everything before the
/// units, and every complete unit.
pub open spec fn partial_artifact(s: Seq<char>, key: Seq<char>) -> Option<Seq<char>> {
    match (text::find_char_from(s, '{', 0), array_start(s, key)) {
        (Some(start), Some(bracket)) => if items_at(s, bracket).len() == 0 || bracket < start {
            None
        } else {
            Some(
                s.subrange(start, bracket) + "["@ + text::join(items_at(s, bracket), ","@)
                    + "]}"@,
            )
        },
        _ => None,
    }
}

/// The JSON of the artifact a streaming reply has written so far: everything
/// before the array under `key` plus every complete item. `None` until the
/// first item is complete.
pub fn partial_json(reply: &str, key: &str) -> (r: Option<String>)
    ensures
        match r {
            Some(json) => partial_artifact(reply@, key@) == Some(json@),
            None => partial_artifact(reply@, key@) is None,
        },
{
    let chars = chars_of(reply);
    let start: usize = match find_char(&chars, '{', 0) {
        Some(start) => start,
        None => {
            return None;
        },
    };
    match complete_array_items(&chars, key) {
        Some((bracket, items)) => {
            assert(text::texts(items@).len() == items@.len());
            if items.len() == 0 || bracket < start {
                return None;
            }
            let mut json = text_of(&part(&chars, start, bracket));
            json.append("[");
            push_chars(&mut json, &joined(&items, ","));
            json.append("]}");
            Some(json)
        },
        None => None,
    }
}

/// The array of complete units that an unfinished continuation holds so far.
pub open spec fn partial_units(s: Seq<char>, key: Seq<char>) -> Option<Seq<char>> {
    match array_start(s, key) {
        Some(bracket) => if items_at(s, bracket).len() == 0 {
            None
        } else {
            Some(
                "{\""@ + key + "\":["@ + text::join(items_at(s, bracket), ","@) + "]}"@,
            )
        },
        None => None,
    }
}

/// The JSON of the complete items under `key` that a streaming continuation
/// has written so far. `None` until the first item is complete.
pub fn partial_units_json(reply: &str, key: &str) -> (r: Option<String>)
    ensures
        match r {
            Some(json) => partial_units(reply@, key@) == Some(json@),
            None => partial_units(reply@, key@) is None,
        },
{
    let chars = chars_of(reply);
    match complete_array_items(&chars, key) {
        Some((bracket, items)) => {
            assert(text::texts(items@).len() == items@.len());
            if items.len() == 0 {
                return None;
            }
            let mut json = owned("{\"");
            json.append(key);
            json.append("\":[");
            push_chars(&mut json, &joined(&items, ","));
            json.append("]}");
            Some(json)
        },
        None => None,
    }
}

/// Every item stands in braces: none is cut off.
pub proof fn law_items_are_whole_objects(s: Seq<char>, start: int, k: int)
    requires
        0 <= start,
        s.len() <= usize::MAX,
        0 <= k < items_at(s, start).len(),
    ensures
        items_at(s, start)[k].len() >= 2,
        items_at(s, start)[k].first() == '{',
        items_at(s, start)[k].last() == '}',
{
    lemma_items_are_whole(s, start + 1, scan_start(), k);
}

proof fn lemma_items_are_whole(s: Seq<char>, i: int, scan: Scan, k: int)
    requires
        0 <= i,
        s.len() <= usize::MAX,
        is_sound(scan, s, i),
        0 <= k < items_from(s, i, scan).len(),
    ensures
        items_from(s, i, scan)[k].len() >= 2,
        items_from(s, i, scan)[k].first() == '{',
        items_from(s, i, scan)[k].last() == '}',
    decreases s.len() - i,
{
    let next = scan_over(scan, s[i], i);
    match completed(scan, s[i]) {
        Some(start) => {
            if k > 0 {
                lemma_items_are_whole(s, i + 1, next, k - 1);
            }
        },
        None => {
            lemma_items_are_whole(s, i + 1, next, k);
        },
    }
}

proof fn lemma_items_of_prefix(s: Seq<char>, n: int, i: int, scan: Scan)
    requires
        0 <= i <= n <= s.len() <= usize::MAX,
        is_sound(scan, s, i),
    ensures
        items_from(s.take(n), i, scan).is_prefix_of(items_from(s, i, scan)),
    decreases n - i,
{
    let short = s.take(n);
    if i < n {
        assert(short[i] == s[i]);
        if !ends_array(scan, s[i]) {
            let next = scan_over(scan, s[i], i);
            lemma_items_of_prefix(s, n, i + 1, next);
            let less = items_from(short, i + 1, next);
            let more = items_from(s, i + 1, next);
            if let Some(start) = completed(scan, s[i]) {
                let item = s.subrange(start as int, i + 1);
                assert(short.subrange(start as int, i + 1) =~= item);
                assert((seq![item] + more).subrange(0, (seq![item] + less).len() as int)
                    =~= seq![item] + less);
            }
        }
    }
}

proof fn lemma_find_in_prefix(s: Seq<char>, pattern: Seq<char>, n: int, from: int)
    requires
        0 <= from,
        0 <= n <= s.len(),
    ensures
        text::find_from(s.take(n), pattern, from) matches Some(at) ==> text::find_from(
            s,
            pattern,
            from,
        ) == Some(at),
    decreases n + 1 - from,
{
    let short = s.take(n);
    if from + pattern.len() <= n {
        assert(short.subrange(from, from + pattern.len()) =~= s.subrange(
            from,
            from + pattern.len(),
        ));
        if !text::stands_at(short, pattern, from) {
            lemma_find_in_prefix(s, pattern, n, from + 1);
        }
    }
}

proof fn lemma_find_char_in_prefix(s: Seq<char>, c: char, n: int, from: int)
    requires
        0 <= from,
        0 <= n <= s.len(),
    ensures
        text::find_char_from(s.take(n), c, from) matches Some(at) ==> text::find_char_from(
            s,
            c,
            from,
        ) == Some(at),
    decreases n - from,
{
    let short = s.take(n);
    if from < n {
        assert(short[from] == s[from]);
        if s[from] != c {
            lemma_find_char_in_prefix(s, c, n, from + 1);
        }
    }
}

proof fn lemma_array_in_prefix(s: Seq<char>, key: Seq<char>, n: int, from: int)
    requires
        0 <= from,
        0 <= n <= s.len(),
    ensures
        array_from(s.take(n), key, from) matches Some(at) ==> array_from(s, key, from) == Some(at)
            && 0 <= at < n,
    decreases s.len() - from,
{
    let short = s.take(n);
    reveal_strlit("\"");
    text::lemma_find_from(short, quoted(key), from);
    lemma_find_in_prefix(s, quoted(key), n, from);
    if let Some(at) = text::find_from(short, quoted(key), from) {
        let behind = at + quoted(key).len();
        text::lemma_find_char_from(short, '[', behind);
        lemma_find_char_in_prefix(s, '[', n, behind);
        if let Some(bracket) = text::find_char_from(short, '[', behind) {
            assert(short.subrange(behind, bracket) =~= s.subrange(behind, bracket));
            lemma_array_in_prefix(s, key, n, behind);
        }
    }
}

/// A reply that goes on loses nothing of what was read: the array that was
/// found stays where it is, and the units that were complete stay, in order,
/// as the first of those that are complete later.
pub proof fn law_a_longer_reply_keeps_its_units(s: Seq<char>, key: Seq<char>, n: int)
    requires
        0 <= n <= s.len() <= usize::MAX,
    ensures
        array_start(s.take(n), key) matches Some(start) ==> array_start(s, key) == Some(start)
            && items_at(s.take(n), start).is_prefix_of(items_at(s, start)),
{
    lemma_array_in_prefix(s, key, n, 0);
    if let Some(start) = array_start(s.take(n), key) {
        lemma_items_of_prefix(s, n, start + 1, scan_start());
    }
}

// -- What an array holds ------------------------------------------------------

/// A unit with one text in it.
pub struct UnitText {
    /// What stands before the text: no quotes and no braces.
    pub before: Seq<char>,
    /// The text: no quotes and no backslashes.
    pub content: Seq<char>,
    /// What stands behind the text: no quotes and no braces.
    pub behind: Seq<char>,
}

/// True for a text without quotes and braces.
pub open spec fn is_bare(s: Seq<char>) -> bool {
    forall|k: int|
        0 <= k < s.len() ==> #[trigger] s[k] != '"' && s[k] != '{' && s[k] != '}'
}

/// True for a text that a JSON string holds as it is.
pub open spec fn is_string_text(s: Seq<char>) -> bool {
    forall|k: int| 0 <= k < s.len() ==> #[trigger] s[k] != '"' && s[k] != '\\'
}

/// A unit as it is written.
pub open spec fn unit_text(unit: UnitText) -> Seq<char> {
    seq!['{'] + unit.before + seq!['"'] + unit.content + seq!['"'] + unit.behind + seq!['}']
}

/// Units as an array holds them.
pub open spec fn units_text(units: Seq<UnitText>) -> Seq<char>
    decreases units.len(),
{
    if units.len() == 0 {
        Seq::empty()
    } else if units.len() == 1 {
        unit_text(units[0])
    } else {
        unit_text(units[0]) + (seq![','] + units_text(units.drop_first()))
    }
}

/// True for a unit that is written as it is.
pub open spec fn is_plain_unit(unit: UnitText) -> bool {
    is_bare(unit.before) && is_string_text(unit.content) && is_bare(unit.behind)
}

proof fn lemma_scan_bare(s: Seq<char>, i: int, j: int, scan: Scan)
    requires
        0 <= i <= j <= s.len(),
        !scan.quoted,
        scan.depth == 1,
        forall|k: int| i <= k < j ==> #[trigger] s[k] != '"' && s[k] != '{' && s[k] != '}',
    ensures
        items_from(s, i, scan) == items_from(s, j, scan),
    decreases j - i,
{
    if i < j {
        assert(s[i] != '"');
        lemma_scan_bare(s, i + 1, j, scan);
    }
}

proof fn lemma_scan_string(s: Seq<char>, i: int, j: int, scan: Scan)
    requires
        0 <= i <= j <= s.len(),
        scan.quoted,
        !scan.escaped,
        forall|k: int| i <= k < j ==> #[trigger] s[k] != '"' && s[k] != '\\',
    ensures
        items_from(s, i, scan) == items_from(s, j, scan),
    decreases j - i,
{
    if i < j {
        assert(s[i] != '"');
        lemma_scan_string(s, i + 1, j, scan);
    }
}

proof fn lemma_one_unit(s: Seq<char>, head: Seq<char>, unit: UnitText, rest: Seq<char>)
    requires
        s == head + unit_text(unit) + rest,
        is_plain_unit(unit),
        s.len() <= usize::MAX,
    ensures
        items_from(s, head.len() as int, scan_start()) == seq![unit_text(unit)] + items_from(
            s,
            (head.len() + unit_text(unit).len()) as int,
            scan_start(),
        ),
{
    let i = head.len() as int;
    let a = i + 1 + unit.before.len();
    let b = a + 1 + unit.content.len();
    let e = b + 1 + unit.behind.len();
    let inside = Scan { depth: 1, quoted: false, escaped: false, start: Some(i as usize) };
    let in_string = Scan { quoted: true, ..inside };
    assert(s[i] == '{');
    assert(s[a] == '"');
    assert(s[b] == '"');
    assert(s[e] == '}');
    assert(items_from(s, i, scan_start()) == items_from(s, i + 1, inside));
    assert forall|k: int| i + 1 <= k < a implies #[trigger] s[k] != '"' && s[k] != '{' && s[k]
        != '}' by {
        assert(s[k] == unit.before[k - i - 1]);
    }
    lemma_scan_bare(s, i + 1, a, inside);
    assert(items_from(s, a, inside) == items_from(s, a + 1, in_string));
    assert forall|k: int| a + 1 <= k < b implies #[trigger] s[k] != '"' && s[k] != '\\' by {
        assert(s[k] == unit.content[k - a - 1]);
    }
    lemma_scan_string(s, a + 1, b, in_string);
    assert(items_from(s, b, in_string) == items_from(s, b + 1, inside));
    assert forall|k: int| b + 1 <= k < e implies #[trigger] s[k] != '"' && s[k] != '{' && s[k]
        != '}' by {
        assert(s[k] == unit.behind[k - b - 1]);
    }
    lemma_scan_bare(s, b + 1, e, inside);
    assert(s.subrange(i, e + 1) =~= unit_text(unit));
    assert(scan_over(inside, s[e], e) == scan_start());
}

proof fn lemma_units(s: Seq<char>, head: Seq<char>, units: Seq<UnitText>, rest: Seq<char>)
    requires
        s == head + units_text(units) + seq![']'] + rest,
        forall|k: int| 0 <= k < units.len() ==> is_plain_unit(#[trigger] units[k]),
        s.len() <= usize::MAX,
    ensures
        items_from(s, head.len() as int, scan_start()) == units.map_values(
            |unit: UnitText| unit_text(unit),
        ),
    decreases units.len(),
{
    let found = units.map_values(|unit: UnitText| unit_text(unit));
    if units.len() == 0 {
        assert(s[head.len() as int] == ']');
        assert(found =~= Seq::<Seq<char>>::empty());
    } else {
        let first = units[0];
        let end = (head.len() + unit_text(first).len()) as int;
        if units.len() == 1 {
            assert(s =~= head + unit_text(first) + (seq![']'] + rest));
            lemma_one_unit(s, head, first, seq![']'] + rest);
            assert(s[end] == ']');
            assert(found =~= seq![unit_text(first)] + Seq::<Seq<char>>::empty());
        } else {
            let others = units.drop_first();
            let more = seq![','] + units_text(others) + seq![']'] + rest;
            assert(s =~= head + unit_text(first) + more);
            lemma_one_unit(s, head, first, more);
            assert(s[end] == ',');
            let next = head + unit_text(first) + seq![','];
            assert(s =~= next + units_text(others) + seq![']'] + rest);
            lemma_units(s, next, others, rest);
            assert(found =~= seq![unit_text(first)] + others.map_values(
                |unit: UnitText| unit_text(unit),
            ));
        }
    }
}

/// Every unit of an array is found, in order, and nothing else is: a brace or
/// a bracket in a text of a unit ends nothing.
pub proof fn law_every_unit_of_an_array_is_found(
    head: Seq<char>,
    units: Seq<UnitText>,
    rest: Seq<char>,
)
    requires
        forall|k: int| 0 <= k < units.len() ==> is_plain_unit(#[trigger] units[k]),
        (head + seq!['['] + units_text(units) + seq![']'] + rest).len() <= usize::MAX,
    ensures
        items_at(
            head + seq!['['] + units_text(units) + seq![']'] + rest,
            head.len() as int,
        ) == units.map_values(|unit: UnitText| unit_text(unit)),
{
    let s = head + seq!['['] + units_text(units) + seq![']'] + rest;
    lemma_units(s, head + seq!['['], units, rest);
}

/// What a reply holds so far shows every complete unit, and the reply before
/// the units stays as it was written.
pub proof fn law_a_partial_reply_shows_its_units(s: Seq<char>, key: Seq<char>, k: int)
    requires
        array_start(s, key) is Some,
        0 <= k < items_at(s, array_start(s, key)->0).len(),
    ensures
        ({
            let bracket = array_start(s, key)->0;
            let item = items_at(s, bracket)[k];
            &&& partial_units(s, key) matches Some(shown) && text::holds(shown, item)
                && text::starts_with(shown, "{\""@ + key + "\":["@)
            &&& partial_artifact(s, key) matches Some(shown) ==> text::holds(shown, item)
                && exists|start: int|
                    0 <= start <= bracket && text::starts_with(
                        shown,
                        #[trigger] s.subrange(start, bracket) + "["@,
                    )
        }),
{
    let bracket = array_start(s, key)->0;
    let items = items_at(s, bracket);
    let list = text::join(items, ","@);
    text::lemma_join_holds(items, ","@, k);
    let open = "{\""@ + key + "\":["@;
    text::lemma_holds_behind(open, list, "]}"@, items[k]);
    let shown = open + list + "]}"@;
    assert(partial_units(s, key) == Some(shown));
    assert(shown.subrange(0, open.len() as int) =~= open);
    if let Some(whole) = partial_artifact(s, key) {
        text::lemma_find_char_from(s, '{', 0);
        let start = text::find_char_from(s, '{', 0)->0;
        let front = s.subrange(start, bracket) + "["@;
        text::lemma_holds_behind(front, list, "]}"@, items[k]);
        assert(whole == front + list + "]}"@);
        assert(whole.subrange(0, front.len() as int) =~= front);
    }
}

/// The array under a key starts at the bracket behind the key and its colon.
pub proof fn law_an_array_starts_behind_its_key(before: Seq<char>, key: Seq<char>, rest: Seq<char>)
    requires
        text::find(before + quoted(key) + seq![':', '['] + rest, quoted(key)) == Some(
            before.len() as int,
        ),
    ensures
        array_start(before + quoted(key) + seq![':', '['] + rest, key) == Some(
            (before.len() + quoted(key).len() + 1) as int,
        ),
{
    let s = before + quoted(key) + seq![':', '['] + rest;
    let behind = (before.len() + quoted(key).len()) as int;
    assert(s[behind] == ':');
    assert(s[behind + 1] == '[');
    text::lemma_find_char_from(s, '[', behind);
    assert(text::find_char_from(s, '[', behind) == Some(behind + 1));
    let between = s.subrange(behind, behind + 1);
    assert(between =~= seq![':']);
    assert(!text::is_space(':'));
    assert(text::trim(between) == between);
    reveal_with_fuel(without_colons, 2);
    assert(between.drop_first() =~= Seq::<char>::empty());
    assert(without_colons(between) =~= Seq::<char>::empty());
    assert(text::trim(Seq::<char>::empty()) =~= Seq::<char>::empty());
}

} // verus!
