//! Text as sequences of characters.
//!
//! Every parser and writer of the library states what it does over
//! `Seq<char>`. This module holds the shared vocabulary: searching,
//! trimming, splitting, joining, and numbers in decimal.

use vstd::prelude::*;

verus! {

// -- Trusted facts about std's strings -------------------------------------

/// `String::push` appends one character and leaves the rest as it was.
pub assume_specification[ String::push ](s: &mut String, c: char)
    ensures
        final(s)@ == old(s)@.push(c),
;

/// Two string slices are equal exactly when they hold the same characters.
pub assume_specification[ <str as PartialEq>::eq ](a: &str, b: &str) -> (r: bool)
    ensures
        r == (a@ == b@),
;

// -- Positions --------------------------------------------------------------

/// A position as a mathematical integer.
pub open spec fn position(found: Option<usize>) -> Option<int> {
    match found {
        Some(i) => Some(i as int),
        None => None,
    }
}

/// True when `pattern` stands in `s` at position `i`.
pub open spec fn stands_at(s: Seq<char>, pattern: Seq<char>, i: int) -> bool {
    0 <= i && i + pattern.len() <= s.len() && s.subrange(i, i + pattern.len()) == pattern
}

/// The first position at or after `from` where `pattern` stands.
pub open spec fn find_from(s: Seq<char>, pattern: Seq<char>, from: int) -> Option<int>
    decreases s.len() + 1 - from,
{
    if from < 0 || from + pattern.len() > s.len() {
        None
    } else if stands_at(s, pattern, from) {
        Some(from)
    } else {
        find_from(s, pattern, from + 1)
    }
}

/// The first position where `pattern` stands in `s`.
pub open spec fn find(s: Seq<char>, pattern: Seq<char>) -> Option<int> {
    find_from(s, pattern, 0)
}

/// True when `s` begins with `pattern`.
pub open spec fn starts_with(s: Seq<char>, pattern: Seq<char>) -> bool {
    stands_at(s, pattern, 0)
}

/// True when `s` ends with `pattern`.
pub open spec fn ends_with(s: Seq<char>, pattern: Seq<char>) -> bool {
    stands_at(s, pattern, s.len() - pattern.len())
}

/// The position of the first `c` at or after `from`.
pub open spec fn find_char_from(s: Seq<char>, c: char, from: int) -> Option<int>
    decreases s.len() - from,
{
    if from < 0 || from >= s.len() {
        None
    } else if s[from] == c {
        Some(from)
    } else {
        find_char_from(s, c, from + 1)
    }
}

/// The position of the last `c` before `end`.
pub open spec fn rfind_char_before(s: Seq<char>, c: char, end: int) -> Option<int>
    decreases end,
{
    if end <= 0 || end > s.len() {
        None
    } else if s[end - 1] == c {
        Some(end - 1)
    } else {
        rfind_char_before(s, c, end - 1)
    }
}

/// A found position lies in the text, and nothing before it matches.
pub proof fn lemma_find_from(s: Seq<char>, pattern: Seq<char>, from: int)
    requires
        0 <= from,
    ensures
        match find_from(s, pattern, from) {
            Some(i) => from <= i && stands_at(s, pattern, i) && forall|j: int|
                from <= j < i ==> !stands_at(s, pattern, j),
            None => forall|j: int| from <= j ==> !stands_at(s, pattern, j),
        },
    decreases s.len() + 1 - from,
{
    if from + pattern.len() <= s.len() && !stands_at(s, pattern, from) {
        lemma_find_from(s, pattern, from + 1);
    }
}

/// A found character is the first one at or after the start.
pub proof fn lemma_find_char_from(s: Seq<char>, c: char, from: int)
    requires
        0 <= from,
    ensures
        match find_char_from(s, c, from) {
            Some(i) => from <= i < s.len() && s[i] == c && forall|j: int|
                from <= j < i ==> s[j] != c,
            None => forall|j: int| from <= j < s.len() ==> s[j] != c,
        },
    decreases s.len() - from,
{
    if from < s.len() && s[from] != c {
        lemma_find_char_from(s, c, from + 1);
    }
}

/// Appending twice is appending both at once.
pub proof fn lemma_append(a: Seq<char>, b: Seq<char>, c: Seq<char>)
    ensures
        a + b + c == a + (b + c),
{
    assert(a + b + c =~= a + (b + c));
}

/// Appending nothing changes nothing.
pub proof fn lemma_append_nothing(a: Seq<char>)
    ensures
        a + Seq::<char>::empty() == a,
{
    assert(a + Seq::<char>::empty() =~= a);
}

/// The characters of `s`, one by one.
pub fn chars_of(s: &str) -> (chars: Vec<char>)
    ensures
        chars@ == s@,
{
    let mut chars: Vec<char> = Vec::new();
    for c in it: s.chars()
        invariant
            chars@ == it.seq().take(it.index() as int),
            it.seq() == s@,
    {
        chars.push(c);
    }
    chars
}

/// Appends `chars` to `out`.
pub fn push_chars(out: &mut String, chars: &[char])
    ensures
        final(out)@ == old(out)@ + chars@,
{
    let mut i: usize = 0;
    while i < chars.len()
        invariant
            i <= chars@.len(),
            out@ == old(out)@ + chars@.take(i as int),
        decreases chars@.len() - i,
    {
        out.push(chars[i]);
        i += 1;
    }
    assert(chars@.take(i as int) == chars@);
}

/// The text made of `chars`.
pub fn text_of(chars: &[char]) -> (text: String)
    ensures
        text@ == chars@,
{
    let mut text = String::new();
    push_chars(&mut text, chars);
    text
}

/// The characters of `chars` from `start` up to `end`.
pub fn part(chars: &[char], start: usize, end: usize) -> (r: Vec<char>)
    requires
        start <= end <= chars@.len(),
    ensures
        r@ == chars@.subrange(start as int, end as int),
{
    let mut r: Vec<char> = Vec::new();
    let mut i: usize = start;
    while i < end
        invariant
            start <= i <= end <= chars@.len(),
            r@ == chars@.subrange(start as int, i as int),
        decreases end - i,
    {
        r.push(chars[i]);
        i += 1;
    }
    r
}

/// Appends `more` to `out`.
pub fn extend_chars(out: &mut Vec<char>, more: &[char])
    ensures
        final(out)@ == old(out)@ + more@,
{
    let mut i: usize = 0;
    while i < more.len()
        invariant
            i <= more@.len(),
            out@ == old(out)@ + more@.take(i as int),
        decreases more@.len() - i,
    {
        out.push(more[i]);
        i += 1;
    }
    assert(more@.take(i as int) == more@);
}

/// A copy of `text`.
pub fn owned(text: &str) -> (copy: String)
    ensures
        copy@ == text@,
{
    let mut copy = String::new();
    copy.append(text);
    copy
}

/// The bytes of `text` in UTF-8.
pub fn bytes_of(text: &str) -> (bytes: Vec<u8>)
    ensures
        bytes@ == vstd::utf8::encode_utf8(text@),
{
    copy_bytes(text.as_bytes())
}

/// A copy of `bytes`.
pub fn copy_bytes(bytes: &[u8]) -> (copy: Vec<u8>)
    ensures
        copy@ == bytes@,
{
    let mut copy: Vec<u8> = Vec::new();
    let mut i: usize = 0;
    while i < bytes.len()
        invariant
            i <= bytes@.len(),
            copy@ == bytes@.take(i as int),
        decreases bytes@.len() - i,
    {
        copy.push(bytes[i]);
        i += 1;
    }
    assert(bytes@.take(i as int) =~= bytes@);
    copy
}

/// True when `a` and `b` hold the same characters.
pub fn same_chars(a: &[char], b: &[char]) -> (r: bool)
    ensures
        r == (a@ == b@),
{
    if a.len() != b.len() {
        return false;
    }
    let mut i: usize = 0;
    while i < a.len()
        invariant
            i <= a@.len(),
            a@.len() == b@.len(),
            forall|j: int| 0 <= j < i ==> a@[j] == b@[j],
        decreases a@.len() - i,
    {
        if a[i] != b[i] {
            assert(a@[i as int] != b@[i as int]);
            return false;
        }
        i += 1;
    }
    assert(a@ =~= b@);
    true
}

/// True when `chars` spells `text`.
pub fn spells(chars: &[char], text: &str) -> (r: bool)
    ensures
        r == (chars@ == text@),
{
    let other = chars_of(text);
    same_chars(chars, &other)
}

/// True when `pattern` stands in `chars` at position `i`.
pub fn is_at(chars: &[char], pattern: &[char], i: usize) -> (r: bool)
    ensures
        r == stands_at(chars@, pattern@, i as int),
{
    let length: usize = chars.len();
    if pattern.len() > length || i > length - pattern.len() {
        return false;
    }
    let mut k: usize = 0;
    while k < pattern.len()
        invariant
            k <= pattern@.len(),
            length == chars@.len(),
            i + pattern@.len() <= chars@.len(),
            forall|j: int| 0 <= j < k ==> chars@[i + j] == pattern@[j],
        decreases pattern@.len() - k,
    {
        if chars[i + k] != pattern[k] {
            assert(chars@.subrange(i as int, i + pattern@.len())[k as int] != pattern@[k as int]);
            return false;
        }
        k += 1;
    }
    assert(chars@.subrange(i as int, i + pattern@.len()) =~= pattern@);
    true
}

/// True when `text` stands in `chars` at position `i`.
pub fn text_is_at(chars: &[char], text: &str, i: usize) -> (r: bool)
    ensures
        r == stands_at(chars@, text@, i as int),
{
    let pattern = chars_of(text);
    is_at(chars, &pattern, i)
}

/// True when `chars` begins with `text`.
pub fn begins_with(chars: &[char], text: &str) -> (r: bool)
    ensures
        r == starts_with(chars@, text@),
{
    text_is_at(chars, text, 0)
}

/// True when `chars` ends with `text`.
pub fn finishes_with(chars: &[char], text: &str) -> (r: bool)
    ensures
        r == ends_with(chars@, text@),
{
    let pattern = chars_of(text);
    if pattern.len() > chars.len() {
        return false;
    }
    is_at(chars, &pattern, chars.len() - pattern.len())
}

/// The first position at or after `from` where `pattern` stands.
pub fn find_chars(chars: &[char], pattern: &[char], from: usize) -> (r: Option<usize>)
    ensures
        position(r) == find_from(chars@, pattern@, from as int),
        r is Some ==> from <= r->0 && r->0 + pattern@.len() <= chars@.len() && stands_at(
            chars@,
            pattern@,
            r->0 as int,
        ),
{
    if pattern.len() > chars.len() {
        return None;
    }
    let last: usize = chars.len() - pattern.len();
    let mut i: usize = from;
    while i <= last
        invariant
            from <= i,
            last + pattern@.len() == chars@.len(),
            find_from(chars@, pattern@, from as int) == find_from(chars@, pattern@, i as int),
        decreases last + 1 - i,
    {
        if is_at(chars, pattern, i) {
            return Some(i);
        }
        if i == last {
            assert(find_from(chars@, pattern@, i + 1) is None);
            return None;
        }
        i += 1;
    }
    None
}

/// The first position at or after `from` where `text` stands.
pub fn find_text(chars: &[char], text: &str, from: usize) -> (r: Option<usize>)
    ensures
        position(r) == find_from(chars@, text@, from as int),
        r is Some ==> from <= r->0 && r->0 + text@.len() <= chars@.len() && stands_at(
            chars@,
            text@,
            r->0 as int,
        ),
{
    let pattern = chars_of(text);
    find_chars(chars, &pattern, from)
}

/// The position of the first `c` at or after `from`.
pub fn find_char(chars: &[char], c: char, from: usize) -> (r: Option<usize>)
    ensures
        position(r) == find_char_from(chars@, c, from as int),
        r is Some ==> from <= r->0 < chars@.len() && chars@[r->0 as int] == c,
{
    let mut i: usize = from;
    while i < chars.len()
        invariant
            from <= i,
            find_char_from(chars@, c, from as int) == find_char_from(chars@, c, i as int),
        decreases chars@.len() - i,
    {
        if chars[i] == c {
            return Some(i);
        }
        i += 1;
    }
    None
}

/// The position of the last `c` in `chars`.
pub fn rfind_char(chars: &[char], c: char) -> (r: Option<usize>)
    ensures
        position(r) == rfind_char_before(chars@, c, chars@.len() as int),
        r is Some ==> r->0 < chars@.len() && chars@[r->0 as int] == c,
{
    let mut end: usize = chars.len();
    while end > 0
        invariant
            end <= chars@.len(),
            rfind_char_before(chars@, c, chars@.len() as int) == rfind_char_before(
                chars@,
                c,
                end as int,
            ),
        decreases end,
    {
        if chars[end - 1] == c {
            return Some(end - 1);
        }
        end -= 1;
    }
    None
}

/// True when `c` occurs in `chars`.
pub fn contains_char(chars: &[char], c: char) -> (r: bool)
    ensures
        r == chars@.contains(c),
{
    proof {
        lemma_find_char_from(chars@, c, 0);
    }
    match find_char(chars, c, 0) {
        Some(i) => {
            assert(chars@[i as int] == c);
            true
        },
        None => false,
    }
}

// -- Classes of characters --------------------------------------------------

/// The characters with Unicode's White_Space property.
pub open spec fn is_space(c: char) -> bool {
    ||| '\u{9}' <= c <= '\u{d}'
    ||| c == ' '
    ||| c == '\u{85}'
    ||| c == '\u{a0}'
    ||| c == '\u{1680}'
    ||| '\u{2000}' <= c <= '\u{200a}'
    ||| c == '\u{2028}'
    ||| c == '\u{2029}'
    ||| c == '\u{202f}'
    ||| c == '\u{205f}'
    ||| c == '\u{3000}'
}

/// True when `c` is white space.
pub fn space(c: char) -> (r: bool)
    ensures
        r == is_space(c),
{
    ('\u{9}' <= c && c <= '\u{d}') || c == ' ' || c == '\u{85}' || c == '\u{a0}' || c == '\u{1680}'
        || ('\u{2000}' <= c && c <= '\u{200a}') || c == '\u{2028}' || c == '\u{2029}' || c
        == '\u{202f}' || c == '\u{205f}' || c == '\u{3000}'
}

/// The decimal digits.
pub open spec fn is_digit(c: char) -> bool {
    '0' <= c <= '9'
}

/// True when `c` is a decimal digit.
pub fn digit(c: char) -> (r: bool)
    ensures
        r == is_digit(c),
{
    '0' <= c && c <= '9'
}

/// The ASCII letters.
pub open spec fn is_letter(c: char) -> bool {
    'a' <= c <= 'z' || 'A' <= c <= 'Z'
}

/// True when `c` is an ASCII letter.
pub fn letter(c: char) -> (r: bool)
    ensures
        r == is_letter(c),
{
    ('a' <= c && c <= 'z') || ('A' <= c && c <= 'Z')
}

/// `c` in lower case, where it is an ASCII letter.
pub open spec fn lower_char(c: char) -> char {
    if 'A' <= c <= 'Z' {
        ((c as u32) + 32) as char
    } else {
        c
    }
}

/// `c` in lower case, where it is an ASCII letter.
pub fn to_lower_char(c: char) -> (r: char)
    ensures
        r == lower_char(c),
{
    if 'A' <= c && c <= 'Z' {
        ((c as u8) + 32u8) as char
    } else {
        c
    }
}

/// `s` with its ASCII letters in lower case.
pub open spec fn lower(s: Seq<char>) -> Seq<char> {
    Seq::new(s.len(), |i: int| lower_char(s[i]))
}

/// `chars` with its ASCII letters in lower case.
pub fn to_lower(chars: &[char]) -> (r: Vec<char>)
    ensures
        r@ == lower(chars@),
{
    let mut r: Vec<char> = Vec::new();
    let mut i: usize = 0;
    while i < chars.len()
        invariant
            i <= chars@.len(),
            r@ == lower(chars@.take(i as int)),
        decreases chars@.len() - i,
    {
        r.push(to_lower_char(chars[i]));
        i += 1;
        assert(r@ =~= lower(chars@.take(i as int)));
    }
    assert(chars@.take(i as int) == chars@);
    r
}

// -- Trimming ---------------------------------------------------------------

/// `s` without the white space it begins with.
pub open spec fn trim_start(s: Seq<char>) -> Seq<char>
    decreases s.len(),
{
    if s.len() > 0 && is_space(s.first()) {
        trim_start(s.drop_first())
    } else {
        s
    }
}

/// `s` without the white space it ends with.
pub open spec fn trim_end(s: Seq<char>) -> Seq<char>
    decreases s.len(),
{
    if s.len() > 0 && is_space(s.last()) {
        trim_end(s.drop_last())
    } else {
        s
    }
}

/// `s` without the white space around it.
pub open spec fn trim(s: Seq<char>) -> Seq<char> {
    trim_end(trim_start(s))
}

/// `chars` without the white space it begins with.
pub fn trimmed_start(chars: &[char]) -> (r: Vec<char>)
    ensures
        r@ == trim_start(chars@),
{
    let mut i: usize = 0;
    assert(chars@.skip(0) =~= chars@);
    while i < chars.len() && space(chars[i])
        invariant
            i <= chars@.len(),
            trim_start(chars@) == trim_start(chars@.skip(i as int)),
        decreases chars@.len() - i,
    {
        assert(chars@.skip(i as int).drop_first() =~= chars@.skip(i + 1));
        i += 1;
    }
    part(chars, i, chars.len())
}

/// `chars` without the white space it ends with.
pub fn trimmed_end(chars: &[char]) -> (r: Vec<char>)
    ensures
        r@ == trim_end(chars@),
{
    let mut end: usize = chars.len();
    assert(chars@.take(end as int) =~= chars@);
    while end > 0 && space(chars[end - 1])
        invariant
            end <= chars@.len(),
            trim_end(chars@) == trim_end(chars@.take(end as int)),
        decreases end,
    {
        assert(chars@.take(end as int).drop_last() =~= chars@.take(end - 1));
        end -= 1;
    }
    part(chars, 0, end)
}

/// `chars` without the white space around it.
pub fn trimmed(chars: &[char]) -> (r: Vec<char>)
    ensures
        r@ == trim(chars@),
{
    let start = trimmed_start(chars);
    trimmed_end(&start)
}

/// What a text begins with alone decides how its start is trimmed, unless it
/// is all white space.
pub proof fn lemma_trim_start_of_joined(a: Seq<char>, b: Seq<char>)
    ensures
        trim_start(a + b) == if trim_start(a).len() == 0 {
            trim_start(b)
        } else {
            trim_start(a) + b
        },
    decreases a.len(),
{
    if a.len() == 0 {
        assert(a + b =~= b);
    } else if is_space(a.first()) {
        assert((a + b).drop_first() =~= a.drop_first() + b);
        lemma_trim_start_of_joined(a.drop_first(), b);
    }
}

/// What a text ends with alone decides how its end is trimmed, unless it is
/// all white space.
pub proof fn lemma_trim_end_of_joined(a: Seq<char>, b: Seq<char>)
    ensures
        trim_end(a + b) == if trim_end(b).len() == 0 {
            trim_end(a)
        } else {
            a + trim_end(b)
        },
    decreases b.len(),
{
    if b.len() == 0 {
        assert(a + b =~= a);
    } else if is_space(b.last()) {
        assert((a + b).drop_last() =~= a + b.drop_last());
        lemma_trim_end_of_joined(a, b.drop_last());
    }
}

/// A trimmed text begins with no white space, and ends as the text does.
pub proof fn lemma_trim_start(s: Seq<char>)
    ensures
        trim_start(s).len() > 0 ==> !is_space(trim_start(s).first()) && trim_start(s).last()
            == s.last(),
    decreases s.len(),
{
    if s.len() > 0 && is_space(s.first()) {
        lemma_trim_start(s.drop_first());
    }
}

/// A trimmed text ends with no white space, and begins as the text does. A
/// text that does not begin with white space is not trimmed away.
pub proof fn lemma_trim_end(s: Seq<char>)
    ensures
        trim_end(s).len() > 0 ==> !is_space(trim_end(s).last()) && trim_end(s).first() == s.first(),
        s.len() > 0 && !is_space(s.first()) ==> trim_end(s).len() > 0,
    decreases s.len(),
{
    if s.len() > 0 && is_space(s.last()) {
        lemma_trim_end(s.drop_last());
    }
}

/// A text that is trimmed away from its end is trimmed away from its start.
pub proof fn lemma_blank(s: Seq<char>)
    requires
        trim_end(s).len() == 0,
    ensures
        trim_start(s).len() == 0,
    decreases s.len(),
{
    if s.len() > 0 {
        let tail = seq![s.last()];
        lemma_blank(s.drop_last());
        lemma_trim_start_of_joined(s.drop_last(), tail);
        assert(s.drop_last() + tail =~= s);
        assert(tail.drop_first() =~= Seq::<char>::empty());
        assert(trim_start(tail) == trim_start(tail.drop_first()));
    }
}

/// The first position at or after `from` that holds no white space.
pub open spec fn skip_space(s: Seq<char>, from: int) -> int
    decreases s.len() - from,
{
    if 0 <= from < s.len() && is_space(s[from]) {
        skip_space(s, from + 1)
    } else {
        from
    }
}

/// Skipping white space does not leave the text.
pub proof fn lemma_skip_space(s: Seq<char>, from: int)
    requires
        0 <= from <= s.len(),
    ensures
        from <= skip_space(s, from) <= s.len(),
    decreases s.len() - from,
{
    if from < s.len() && is_space(s[from]) {
        lemma_skip_space(s, from + 1);
    }
}

/// The first position at or after `from` that holds white space, or the end.
pub open spec fn next_space(s: Seq<char>, from: int) -> int
    decreases s.len() - from,
{
    if 0 <= from < s.len() && !is_space(s[from]) {
        next_space(s, from + 1)
    } else {
        from
    }
}

/// Both scans stay inside the text.
pub proof fn lemma_space_scans(s: Seq<char>, from: int)
    requires
        0 <= from <= s.len(),
    ensures
        from <= skip_space(s, from) <= s.len(),
        from <= next_space(s, from) <= s.len(),
        skip_space(s, from) < s.len() ==> !is_space(s[skip_space(s, from)]),
        from < s.len() && !is_space(s[from]) ==> from < next_space(s, from),
        forall|j: int| from <= j < next_space(s, from) ==> !is_space(s[j]),
    decreases s.len() - from,
{
    if from < s.len() {
        lemma_space_scans(s, from + 1);
    }
}

/// The first position at or after `from` that holds no white space.
pub fn after_space(chars: &[char], from: usize) -> (r: usize)
    requires
        from <= chars@.len(),
    ensures
        r == skip_space(chars@, from as int),
        from <= r <= chars@.len(),
{
    let mut i: usize = from;
    while i < chars.len() && space(chars[i])
        invariant
            from <= i <= chars@.len(),
            skip_space(chars@, from as int) == skip_space(chars@, i as int),
        decreases chars@.len() - i,
    {
        i += 1;
    }
    i
}

/// The first position at or after `from` that holds white space, or the end.
pub fn up_to_space(chars: &[char], from: usize) -> (r: usize)
    requires
        from <= chars@.len(),
    ensures
        r == next_space(chars@, from as int),
        from <= r <= chars@.len(),
{
    let mut i: usize = from;
    while i < chars.len() && !space(chars[i])
        invariant
            from <= i <= chars@.len(),
            next_space(chars@, from as int) == next_space(chars@, i as int),
        decreases chars@.len() - i,
    {
        i += 1;
    }
    i
}

// -- Words, parts, lists ----------------------------------------------------

/// The words of `s` from position `from`: the runs without white space.
pub open spec fn words_from(s: Seq<char>, from: int) -> Seq<Seq<char>>
    decreases s.len() - from,
{
    let start = skip_space(s, from);
    let end = next_space(s, start);
    if 0 <= from <= start < end <= s.len() {
        seq![s.subrange(start, end)] + words_from(s, end)
    } else {
        Seq::empty()
    }
}

/// The words of `s`.
pub open spec fn words(s: Seq<char>) -> Seq<Seq<char>> {
    words_from(s, 0)
}

/// The list of texts as a list of character sequences.
pub open spec fn texts(list: Seq<Vec<char>>) -> Seq<Seq<char>> {
    list.map_values(|text: Vec<char>| text@)
}

/// The list of strings as a list of character sequences.
pub open spec fn strings(list: Seq<String>) -> Seq<Seq<char>> {
    list.map_values(|text: String| text@)
}

/// The words of `chars`.
pub fn words_of(chars: &[char]) -> (r: Vec<Vec<char>>)
    ensures
        texts(r@) == words(chars@),
{
    let mut r: Vec<Vec<char>> = Vec::new();
    let mut i: usize = 0;
    loop
        invariant
            i <= chars@.len(),
            words(chars@) == texts(r@) + words_from(chars@, i as int),
        ensures
            texts(r@) == words(chars@),
        decreases chars@.len() - i,
    {
        proof {
            lemma_space_scans(chars@, i as int);
            lemma_space_scans(chars@, skip_space(chars@, i as int));
        }
        let start = after_space(chars, i);
        let end = up_to_space(chars, start);
        if start >= end {
            assert(words_from(chars@, i as int) =~= Seq::<Seq<char>>::empty());
            assert(texts(r@) + Seq::<Seq<char>>::empty() =~= texts(r@));
            break;
        }
        let ghost before = r@;
        let word = part(chars, start, end);
        r.push(word);
        proof {
            assert(texts(r@) =~= texts(before).push(word@));
            assert(texts(before) + (seq![word@] + words_from(chars@, end as int)) =~= texts(r@)
                + words_from(chars@, end as int));
        }
        i = end;
    }
    r
}

/// The texts of `list` with `separator` between each two.
pub open spec fn join(list: Seq<Seq<char>>, separator: Seq<char>) -> Seq<char>
    decreases list.len(),
{
    if list.len() == 0 {
        Seq::empty()
    } else if list.len() == 1 {
        list[0]
    } else {
        join(list.drop_last(), separator) + separator + list.last()
    }
}

/// The texts of `list` with `separator` between each two.
pub fn joined(list: &[Vec<char>], separator: &str) -> (r: Vec<char>)
    ensures
        r@ == join(texts(list@), separator@),
{
    let mut r: Vec<char> = Vec::new();
    let gap = chars_of(separator);
    let mut i: usize = 0;
    while i < list.len()
        invariant
            i <= list@.len(),
            gap@ == separator@,
            r@ == join(texts(list@.take(i as int)), separator@),
        decreases list@.len() - i,
    {
        let ghost now = texts(list@.take(i + 1));
        assert(now.drop_last() =~= texts(list@.take(i as int)));
        assert(now.last() == list@[i as int]@);
        if i > 0 {
            extend_chars(&mut r, &gap);
        }
        extend_chars(&mut r, &list[i]);
        i += 1;
    }
    assert(list@.take(i as int) =~= list@);
    r
}

/// The strings of `list` with `separator` between each two.
pub fn joined_strings(list: &[String], separator: &str) -> (r: String)
    ensures
        r@ == join(strings(list@), separator@),
{
    let mut r = String::new();
    let mut i: usize = 0;
    while i < list.len()
        invariant
            i <= list@.len(),
            r@ == join(strings(list@.take(i as int)), separator@),
        decreases list@.len() - i,
    {
        let ghost now = strings(list@.take(i + 1));
        assert(now.drop_last() =~= strings(list@.take(i as int)));
        assert(now.last() == list@[i as int]@);
        if i > 0 {
            r.append(separator);
        }
        r.append(list[i].as_str());
        i += 1;
    }
    assert(list@.take(i as int) =~= list@);
    r
}

/// Each character of `s` in turn, rewritten by `rewrite`.
pub open spec fn rewritten(s: Seq<char>, rewrite: spec_fn(char) -> Seq<char>) -> Seq<char>
    decreases s.len(),
{
    if s.len() == 0 {
        Seq::empty()
    } else {
        rewritten(s.drop_last(), rewrite) + rewrite(s.last())
    }
}

/// Rewriting a text of two parts rewrites each part.
pub proof fn lemma_rewritten_concat(
    a: Seq<char>,
    b: Seq<char>,
    rewrite: spec_fn(char) -> Seq<char>,
)
    ensures
        rewritten(a + b, rewrite) == rewritten(a, rewrite) + rewritten(b, rewrite),
    decreases b.len(),
{
    if b.len() == 0 {
        assert(a + b =~= a);
        assert(rewritten(a, rewrite) + Seq::<char>::empty() =~= rewritten(a, rewrite));
    } else {
        lemma_rewritten_concat(a, b.drop_last(), rewrite);
        assert((a + b).drop_last() =~= a + b.drop_last());
        assert(rewritten(a, rewrite) + (rewritten(b.drop_last(), rewrite) + rewrite(b.last()))
            =~= rewritten(a, rewrite) + rewritten(b.drop_last(), rewrite) + rewrite(b.last()));
    }
}

/// The pieces of `s` from position `from`, cut at each `c`.
pub open spec fn pieces_from(s: Seq<char>, c: char, from: int) -> Seq<Seq<char>>
    decreases s.len() - from,
    via pieces_decreases
{
    match find_char_from(s, c, from) {
        None => seq![s.subrange(from, s.len() as int)],
        Some(p) => seq![s.subrange(from, p)] + pieces_from(s, c, p + 1),
    }
}

#[via_fn]
proof fn pieces_decreases(s: Seq<char>, c: char, from: int) {
    if from >= 0 {
        lemma_find_char_from(s, c, from);
    }
}

/// The pieces of `s` between each two `c`.
pub open spec fn pieces(s: Seq<char>, c: char) -> Seq<Seq<char>> {
    pieces_from(s, c, 0)
}

/// Cuts `chars` at each `c`.
pub fn pieces_of(chars: &[char], c: char) -> (r: Vec<Vec<char>>)
    ensures
        texts(r@) == pieces(chars@, c),
        r@.len() > 0,
{
    let mut r: Vec<Vec<char>> = Vec::new();
    let mut from: usize = 0;
    let length: usize = chars.len();
    loop
        invariant_except_break
            from <= length,
            length == chars@.len(),
            pieces(chars@, c) == texts(r@) + pieces_from(chars@, c, from as int),
        ensures
            from <= length,
            length == chars@.len(),
            pieces(chars@, c) == texts(r@) + seq![chars@.subrange(from as int, length as int)],
        decreases length - from,
    {
        let Some(p) = find_char(chars, c, from) else {
            break;
        };
        let ghost before = r@;
        let piece = part(chars, from, p);
        r.push(piece);
        proof {
            let rest = pieces_from(chars@, c, p + 1);
            assert(texts(r@) =~= texts(before).push(piece@));
            assert(texts(before) + (seq![piece@] + rest) =~= texts(r@) + rest);
        }
        from = p + 1;
    }
    let ghost before = r@;
    let piece = part(chars, from, length);
    r.push(piece);
    assert(texts(r@) =~= texts(before) + seq![piece@]);
    r
}

/// How often `c` stands in `s`.
pub open spec fn count_char(s: Seq<char>, c: char) -> nat
    decreases s.len(),
{
    if s.len() == 0 {
        0
    } else if s.last() == c {
        count_char(s.drop_last(), c) + 1
    } else {
        count_char(s.drop_last(), c)
    }
}

/// How often `pattern` stands in `s`.
pub open spec fn occurrences(s: Seq<char>, pattern: Seq<char>) -> nat
    decreases s.len(),
{
    if s.len() == 0 {
        0
    } else if stands_at(s, pattern, 0) {
        occurrences(s.drop_first(), pattern) + 1
    } else {
        occurrences(s.drop_first(), pattern)
    }
}

/// Joined texts hold the characters of both.
pub proof fn lemma_count_of_joined(a: Seq<char>, b: Seq<char>, c: char)
    ensures
        count_char(a + b, c) == count_char(a, c) + count_char(b, c),
    decreases b.len(),
{
    if b.len() == 0 {
        assert(a + b =~= a);
    } else {
        assert((a + b).drop_last() =~= a + b.drop_last());
        lemma_count_of_joined(a, b.drop_last(), c);
    }
}

proof fn lemma_count_of_none(s: Seq<char>, c: char)
    requires
        !s.contains(c),
    ensures
        count_char(s, c) == 0,
    decreases s.len(),
{
    if s.len() > 0 {
        assert(s[s.len() - 1] == s.last());
        assert forall|k: int| 0 <= k < s.drop_last().len() implies s.drop_last()[k] != c by {
            assert(s[k] == s.drop_last()[k]);
        }
        lemma_count_of_none(s.drop_last(), c);
    }
}

/// A text has one piece more than it has cuts.
pub proof fn lemma_pieces_count(s: Seq<char>, c: char, from: int)
    requires
        0 <= from <= s.len(),
    ensures
        pieces_from(s, c, from).len() == count_char(s.skip(from), c) + 1,
    decreases s.len() - from,
{
    lemma_find_char_from(s, c, from);
    match find_char_from(s, c, from) {
        None => {
            lemma_count_of_none(s.skip(from), c);
        },
        Some(p) => {
            let head = s.subrange(from, p);
            let cut = seq![c];
            lemma_pieces_count(s, c, p + 1);
            lemma_count_of_none(head, c);
            assert(cut.drop_last() =~= Seq::<char>::empty());
            assert(count_char(cut.drop_last(), c) == 0);
            assert(count_char(cut, c) == 1);
            assert(s.skip(from) =~= head + (cut + s.skip(p + 1)));
            lemma_count_of_joined(head, cut + s.skip(p + 1), c);
            lemma_count_of_joined(cut, s.skip(p + 1), c);
        },
    }
}

/// `s` from position `from` with each `pattern` replaced by `with`, from the
/// left, without overlap.
pub open spec fn substituted_from(
    s: Seq<char>,
    pattern: Seq<char>,
    with: Seq<char>,
    from: int,
) -> Seq<char>
    decreases s.len() + 1 - from,
    via substituted_decreases
{
    if pattern.len() == 0 {
        s
    } else {
        match find_from(s, pattern, from) {
            None => s.subrange(from, s.len() as int),
            Some(at) => s.subrange(from, at) + with + substituted_from(
                s,
                pattern,
                with,
                at + pattern.len(),
            ),
        }
    }
}

#[via_fn]
proof fn substituted_decreases(s: Seq<char>, pattern: Seq<char>, with: Seq<char>, from: int) {
    if from >= 0 {
        lemma_find_from(s, pattern, from);
    }
}

/// `s` with each `pattern` replaced by `with`.
pub open spec fn substituted(s: Seq<char>, pattern: Seq<char>, with: Seq<char>) -> Seq<char> {
    substituted_from(s, pattern, with, 0)
}

/// Replaces each `pattern` in `chars` by `with`.
pub fn substitute(chars: &[char], pattern: &str, with: &str) -> (r: Vec<char>)
    requires
        pattern@.len() > 0,
    ensures
        r@ == substituted(chars@, pattern@, with@),
{
    let length: usize = chars.len();
    let needle = chars_of(pattern);
    let fresh = chars_of(with);
    let mut r: Vec<char> = Vec::new();
    let mut from: usize = 0;
    assert(r@ + substituted(chars@, pattern@, with@) =~= substituted(chars@, pattern@, with@));
    loop
        invariant_except_break
            from <= length,
            length == chars@.len(),
            needle@ == pattern@,
            fresh@ == with@,
            pattern@.len() > 0,
            substituted(chars@, pattern@, with@) == r@ + substituted_from(
                chars@,
                pattern@,
                with@,
                from as int,
            ),
        ensures
            from <= length,
            length == chars@.len(),
            substituted(chars@, pattern@, with@) == r@ + chars@.subrange(
                from as int,
                length as int,
            ),
        decreases length - from,
    {
        let Some(at) = find_chars(chars, &needle, from) else {
            break;
        };
        let ghost before = r@;
        let next: usize = at + needle.len();
        extend_chars(&mut r, &part(chars, from, at));
        extend_chars(&mut r, &fresh);
        proof {
            let rest = substituted_from(chars@, pattern@, with@, next as int);
            assert(before + (chars@.subrange(from as int, at as int) + with@ + rest) =~= r@
                + rest);
        }
        from = next;
    }
    extend_chars(&mut r, &part(chars, from, length));
    r
}

// -- Numbers ----------------------------------------------------------------

/// The digit for a number below ten.
pub open spec fn digit_char(n: nat) -> char {
    if n == 0 {
        '0'
    } else if n == 1 {
        '1'
    } else if n == 2 {
        '2'
    } else if n == 3 {
        '3'
    } else if n == 4 {
        '4'
    } else if n == 5 {
        '5'
    } else if n == 6 {
        '6'
    } else if n == 7 {
        '7'
    } else if n == 8 {
        '8'
    } else {
        '9'
    }
}

/// `n` in decimal.
pub open spec fn decimal(n: nat) -> Seq<char>
    decreases n,
{
    if n < 10 {
        seq![digit_char(n)]
    } else {
        decimal(n / 10).push(digit_char(n % 10))
    }
}

/// The digit for a number below ten.
pub fn digit_of(n: u128) -> (c: char)
    requires
        n < 10,
    ensures
        c == digit_char(n as nat),
{
    if n == 0 {
        '0'
    } else if n == 1 {
        '1'
    } else if n == 2 {
        '2'
    } else if n == 3 {
        '3'
    } else if n == 4 {
        '4'
    } else if n == 5 {
        '5'
    } else if n == 6 {
        '6'
    } else if n == 7 {
        '7'
    } else if n == 8 {
        '8'
    } else {
        '9'
    }
}

/// `n` in decimal.
pub fn decimal_of(n: u128) -> (text: String)
    ensures
        text@ == decimal(n as nat),
    decreases n,
{
    if n < 10 {
        let mut text = String::new();
        text.push(digit_of(n));
        assert(text@ =~= seq![digit_char(n as nat)]);
        text
    } else {
        let mut text = decimal_of(n / 10);
        text.push(digit_of(n % 10));
        text
    }
}

/// The number a digit stands for.
pub open spec fn digit_value(c: char) -> int {
    (c as u32) - ('0' as u32)
}

/// The number a text of digits stands for in decimal.
pub open spec fn number(s: Seq<char>) -> int
    decreases s.len(),
{
    if s.len() == 0 {
        0
    } else {
        number(s.drop_last()) * 10 + digit_value(s.last())
    }
}

/// True when every character of `s` is a decimal digit.
pub open spec fn all_digits(s: Seq<char>) -> bool {
    forall|i: int| 0 <= i < s.len() ==> is_digit(#[trigger] s[i])
}

/// The numbers grow with their digits.
pub proof fn lemma_number_grows(s: Seq<char>, k: int)
    requires
        all_digits(s),
        0 <= k <= s.len(),
    ensures
        0 <= number(s.take(k)) <= number(s),
    decreases s.len() - k,
{
    if k < s.len() {
        lemma_number_grows(s, k + 1);
        assert(s.take(k + 1).drop_last() =~= s.take(k));
        assert(s.take(k + 1).last() == s[k]);
        if k > 0 {
            lemma_number_nonnegative(s.take(k));
        }
    } else {
        assert(s.take(k) =~= s);
        lemma_number_nonnegative(s);
    }
}

proof fn lemma_number_nonnegative(s: Seq<char>)
    requires
        all_digits(s),
    ensures
        0 <= number(s),
    decreases s.len(),
{
    if s.len() > 0 {
        assert forall|i: int| 0 <= i < s.drop_last().len() implies is_digit(
            #[trigger] s.drop_last()[i],
        ) by {
            assert(s[i] == s.drop_last()[i]);
        }
        lemma_number_nonnegative(s.drop_last());
    }
}

/// The value of a text read as an unsigned integer of the given largest value:
/// an optional plus sign, then digits, and nothing too large.
pub open spec fn unsigned(s: Seq<char>, largest: int) -> Option<int> {
    let digits = if s.len() > 1 && s[0] == '+' {
        s.drop_first()
    } else {
        s
    };
    if digits.len() > 0 && all_digits(digits) && number(digits) <= largest {
        Some(number(digits))
    } else {
        None
    }
}

/// Reads `chars` as an unsigned integer: an optional plus sign, then digits.
pub fn parse_usize(chars: &[char]) -> (r: Option<usize>)
    ensures
        position(r) == unsigned(chars@, usize::MAX as int),
{
    let start: usize = if chars.len() > 1 && chars[0] == '+' {
        1
    } else {
        0
    };
    let ghost digits = chars@.skip(start as int);
    proof {
        assert(start == 1 ==> digits =~= chars@.drop_first());
        assert(start == 0 ==> digits =~= chars@);
    }
    if chars.len() == 0 {
        return None;
    }
    let mut value: usize = 0;
    let mut i: usize = start;
    while i < chars.len()
        invariant
            start <= i <= chars@.len(),
            start <= 1,
            digits == chars@.skip(start as int),
            value == number(digits.take(i - start)),
            all_digits(digits.take(i - start)),
            start == 1 ==> chars@.len() > 1 && chars@[0] == '+',
            start == 0 ==> !(chars@.len() > 1 && chars@[0] == '+'),
            start == 1 ==> digits == chars@.drop_first(),
            start == 0 ==> digits == chars@,
        decreases chars@.len() - i,
    {
        let c = chars[i];
        let ghost k = i - start;
        assert(digits[k] == c);
        if !digit(c) {
            assert(!all_digits(digits));
            return None;
        }
        assert(digits.take(k + 1).drop_last() =~= digits.take(k));
        assert(all_digits(digits.take(k + 1))) by {
            assert forall|j: int| 0 <= j < k + 1 implies is_digit(
                #[trigger] digits.take(k + 1)[j],
            ) by {
                if j < k {
                    assert(digits.take(k)[j] == digits.take(k + 1)[j]);
                }
            }
        }
        let d: usize = (c as u32 - 48) as usize;
        if value > (usize::MAX - d) / 10 {
            proof {
                assert(number(digits.take(k + 1)) == value * 10 + d);
                assert(value * 10 + d > usize::MAX);
                if all_digits(digits) {
                    lemma_number_grows(digits, k + 1);
                }
            }
            return None;
        }
        value = value * 10 + d;
        i += 1;
    }
    assert(digits.take(i - start) =~= digits);
    Some(value)
}

/// A list with one more behind it, in one piece.
pub proof fn lemma_flatten_push<A>(list: Seq<Seq<A>>, last: Seq<A>)
    ensures
        list.push(last).flatten() == list.flatten() + last,
    decreases list.len(),
{
    if list.len() == 0 {
        list.push(last).lemma_flatten_one_element();
        assert(list.push(last).flatten() =~= list.flatten() + last);
    } else {
        lemma_flatten_push(list.drop_first(), last);
        assert(list.push(last).drop_first() =~= list.drop_first().push(last));
        assert(list.push(last).flatten() =~= list.flatten() + last);
    }
}

/// Two lists behind each other, in one piece.
pub proof fn lemma_flatten_of_joined<A>(a: Seq<Seq<A>>, b: Seq<Seq<A>>)
    ensures
        (a + b).flatten() == a.flatten() + b.flatten(),
    decreases b.len(),
{
    if b.len() == 0 {
        assert(a + b =~= a);
        assert(a.flatten() + Seq::<A>::empty() =~= a.flatten());
    } else {
        let rest = b.drop_last();
        lemma_flatten_of_joined(a, rest);
        lemma_flatten_push(a + rest, b.last());
        lemma_flatten_push(rest, b.last());
        assert((a + rest).push(b.last()) =~= a + b);
        assert(rest.push(b.last()) =~= b);
        assert((a.flatten() + rest.flatten()) + b.last() =~= a.flatten() + (rest.flatten()
            + b.last()));
    }
}

/// True when `part` stands in `s`.
pub open spec fn holds(s: Seq<char>, part: Seq<char>) -> bool {
    exists|i: int| #[trigger] stands_at(s, part, i)
}

/// What stands in a text stands in every text around it.
pub proof fn lemma_holds_behind(a: Seq<char>, b: Seq<char>, c: Seq<char>, part: Seq<char>)
    requires
        holds(b, part),
    ensures
        holds(a + b + c, part),
{
    let i = choose|i: int| #[trigger] stands_at(b, part, i);
    let s = a + b + c;
    assert(s.subrange(a.len() + i, a.len() + i + part.len()) =~= b.subrange(i, i + part.len()));
    assert(stands_at(s, part, a.len() + i));
}

/// A text stands in itself, whatever is around it.
pub proof fn lemma_holds_itself(a: Seq<char>, part: Seq<char>, c: Seq<char>)
    ensures
        holds(a + part + c, part),
{
    assert(part.subrange(0, part.len() as int) =~= part);
    assert(stands_at(part, part, 0));
    lemma_holds_behind(a, part, c, part);
}

/// What stands in a text stands in it with more behind it.
pub proof fn lemma_holds_before(s: Seq<char>, more: Seq<char>, part: Seq<char>)
    requires
        holds(s, part),
    ensures
        holds(s + more, part),
{
    lemma_holds_behind(Seq::empty(), s, more, part);
    assert(Seq::<char>::empty() + s + more =~= s + more);
}

/// What stands in a part of a text stands in the text.
pub proof fn lemma_holds_inside(s: Seq<char>, middle: Seq<char>, part: Seq<char>)
    requires
        holds(s, middle),
        holds(middle, part),
    ensures
        holds(s, part),
{
    let i = choose|i: int| #[trigger] stands_at(s, middle, i);
    let end = i + middle.len();
    let whole = s.subrange(0, i) + middle + s.subrange(end, s.len() as int);
    assert(whole =~= s) by {
        assert(s.subrange(i, end) == middle);
        assert(s =~= s.subrange(0, i) + s.subrange(i, end) + s.subrange(end, s.len() as int));
    }
    lemma_holds_behind(s.subrange(0, i), middle, s.subrange(end, s.len() as int), part);
}

/// A text with more behind it holds both, and all that the text held.
pub proof fn lemma_holds_appended(a: Seq<char>, b: Seq<char>)
    ensures
        holds(a + b, b),
        holds(a + b, a),
        forall|part: Seq<char>| holds(a, part) ==> #[trigger] holds(a + b, part),
{
    lemma_holds_itself(a, b, Seq::empty());
    assert(a + b + Seq::<char>::empty() =~= a + b);
    lemma_holds_itself(Seq::empty(), a, b);
    assert(Seq::<char>::empty() + a + b =~= a + b);
    assert forall|part: Seq<char>| holds(a, part) implies #[trigger] holds(a + b, part) by {
        lemma_holds_before(a, b, part);
    }
}

/// A joined list holds each of its texts.
pub proof fn lemma_join_holds(list: Seq<Seq<char>>, separator: Seq<char>, k: int)
    requires
        0 <= k < list.len(),
    ensures
        holds(join(list, separator), list[k]),
    decreases list.len(),
{
    if list.len() == 1 {
        lemma_holds_itself(Seq::empty(), list[0], Seq::empty());
        assert(Seq::<char>::empty() + list[0] + Seq::<char>::empty() =~= list[0]);
    } else {
        let rest = list.drop_last();
        let before = join(rest, separator);
        lemma_holds_appended(before, separator);
        lemma_holds_appended(before + separator, list.last());
        if k < list.len() - 1 {
            lemma_join_holds(rest, separator, k);
            assert(holds(before + separator, list[k]));
        }
    }
}

/// Two lists joined are the one behind the other, with the separator between
/// them.
pub proof fn law_joined_lists_follow_each_other(
    a: Seq<Seq<char>>,
    b: Seq<Seq<char>>,
    separator: Seq<char>,
)
    requires
        a.len() > 0,
        b.len() > 0,
    ensures
        join(a + b, separator) == join(a, separator) + separator + join(b, separator),
    decreases b.len(),
{
    let all = a + b;
    assert(all.drop_last() =~= a + b.drop_last());
    assert(all.last() == b.last());
    let first = join(a, separator);
    if b.len() == 1 {
        assert(a + b.drop_last() =~= a);
    } else {
        law_joined_lists_follow_each_other(a, b.drop_last(), separator);
        let middle = join(b.drop_last(), separator);
        assert((first + separator + middle) + separator + b.last() =~= first + separator + (middle
            + separator + b.last()));
    }
}

/// A text cut at a character and joined with it again is the text.
pub proof fn law_pieces_join_to_the_text(s: Seq<char>, c: char)
    ensures
        join(pieces(s, c), seq![c]) == s,
        forall|k: int| 0 <= k < pieces(s, c).len() ==> !(#[trigger] pieces(s, c)[k]).contains(c),
{
    lemma_pieces_join(s, c, 0);
    assert(s.skip(0) =~= s);
}

proof fn lemma_pieces_join(s: Seq<char>, c: char, from: int)
    requires
        0 <= from <= s.len(),
    ensures
        pieces_from(s, c, from).len() > 0,
        join(pieces_from(s, c, from), seq![c]) == s.skip(from),
        forall|k: int|
            0 <= k < pieces_from(s, c, from).len() ==> !(#[trigger] pieces_from(
                s,
                c,
                from,
            )[k]).contains(c),
    decreases s.len() - from,
{
    lemma_find_char_from(s, c, from);
    match find_char_from(s, c, from) {
        None => {
            assert(s.subrange(from, s.len() as int) =~= s.skip(from));
        },
        Some(p) => {
            lemma_pieces_join(s, c, p + 1);
            let first = s.subrange(from, p);
            let rest = pieces_from(s, c, p + 1);
            law_joined_lists_follow_each_other(seq![first], rest, seq![c]);
            assert(s.skip(from) =~= first + seq![c] + s.skip(p + 1));
            let all = seq![first] + rest;
            assert forall|k: int| 0 <= k < all.len() implies !(#[trigger] all[k]).contains(c) by {
                if k > 0 {
                    assert(all[k] == rest[k - 1]);
                }
            }
        },
    }
}

/// A trimmed text is the text without white space around it, and nothing else
/// is taken: what stands before and behind it is white space alone.
pub proof fn law_trimming_takes_white_space_alone(s: Seq<char>)
    ensures
        trim(s).len() > 0 ==> !is_space(trim(s).first()) && !is_space(trim(s).last()),
        exists|i: int|
            #![trigger stands_at(s, trim(s), i)]
            stands_at(s, trim(s), i) && (forall|j: int| 0 <= j < i ==> is_space(#[trigger] s[j]))
                && (forall|j: int|
                i + trim(s).len() <= j < s.len() ==> is_space(#[trigger] s[j])),
{
    let start = trim_start(s);
    let all = trim(s);
    lemma_trim_start(s);
    lemma_trim_end(start);
    lemma_trimmed_start(s);
    lemma_trimmed_end(start);
    let i = s.len() - start.len();
    assert(s.subrange(i, i + all.len()) =~= start.subrange(0, all.len() as int));
    assert(stands_at(s, all, i));
    assert forall|j: int| i + all.len() <= j < s.len() implies is_space(#[trigger] s[j]) by {
        assert(start[j - i] == s[j]);
    }
}

proof fn lemma_trimmed_start(s: Seq<char>)
    ensures
        trim_start(s).len() <= s.len(),
        trim_start(s) == s.skip(s.len() - trim_start(s).len()),
        forall|j: int| 0 <= j < s.len() - trim_start(s).len() ==> is_space(#[trigger] s[j]),
    decreases s.len(),
{
    if s.len() > 0 && is_space(s.first()) {
        let rest = s.drop_first();
        lemma_trimmed_start(rest);
        let n = s.len() - trim_start(s).len();
        assert(rest.skip(n - 1) =~= s.skip(n));
        assert forall|j: int| 0 <= j < n implies is_space(#[trigger] s[j]) by {
            if j > 0 {
                assert(rest[j - 1] == s[j]);
            }
        }
    } else {
        assert(s.skip(0) =~= s);
    }
}

proof fn lemma_trimmed_end(s: Seq<char>)
    ensures
        trim_end(s).len() <= s.len(),
        trim_end(s) == s.subrange(0, trim_end(s).len() as int),
        forall|j: int| trim_end(s).len() <= j < s.len() ==> is_space(#[trigger] s[j]),
    decreases s.len(),
{
    if s.len() > 0 && is_space(s.last()) {
        let rest = s.drop_last();
        lemma_trimmed_end(rest);
        let n = trim_end(s).len() as int;
        assert(rest.subrange(0, n) =~= s.subrange(0, n));
        assert forall|j: int| n <= j < s.len() implies is_space(#[trigger] s[j]) by {
            if j < s.len() - 1 {
                assert(rest[j] == s[j]);
            }
        }
    } else {
        assert(s.subrange(0, s.len() as int) =~= s);
    }
}

/// A number reads back from its digits.
pub proof fn law_a_number_reads_back(n: nat)
    ensures
        number(decimal(n)) == n,
        all_digits(decimal(n)),
        unsigned(decimal(n), n as int) == Some(n as int),
    decreases n,
{
    let digits = decimal(n);
    if n >= 10 {
        law_a_number_reads_back(n / 10);
        assert(digits.drop_last() =~= decimal(n / 10));
        assert(digits.last() == digit_char(n % 10));
        assert forall|i: int| 0 <= i < digits.len() implies is_digit(#[trigger] digits[i]) by {
            if i < digits.len() - 1 {
                assert(digits[i] == decimal(n / 10)[i]);
            }
        }
    } else {
        assert(digits.drop_last() =~= Seq::<char>::empty());
        reveal_with_fuel(number, 2);
    }
    assert(is_digit(digits[0]));
}

/// A word and the white space behind it are split off from the other words.
pub proof fn law_a_word_is_split_off(word: Seq<char>, space: char, rest: Seq<char>)
    requires
        word.len() > 0,
        forall|k: int| 0 <= k < word.len() ==> !is_space(#[trigger] word[k]),
        is_space(space),
    ensures
        words(word) == seq![word],
        words(word + seq![space] + rest) == seq![word] + words(rest),
        words(seq![space] + rest) == words(rest),
{
    let n = word.len() as int;
    lemma_next_space_at(word, 0, n);
    assert(word.subrange(0, n) =~= word);
    assert(words_from(word, n) == Seq::<Seq<char>>::empty());
    assert(words(word) =~= seq![word]);
    let s = word + seq![space] + rest;
    assert forall|k: int| 0 <= k < n implies !is_space(#[trigger] s[k]) by {
        assert(s[k] == word[k]);
    }
    assert(s[n] == space);
    lemma_next_space_at(s, 0, n);
    assert(s.subrange(0, n) =~= word);
    assert(s.skip(n + 1) =~= rest);
    lemma_words_moved(s, rest, 0);
    lemma_words_behind_space(s, n);
    let t = seq![space] + rest;
    assert(t.skip(1) =~= rest);
    assert(t[0] == space);
    lemma_words_moved(t, rest, 0);
    lemma_words_behind_space(t, 0);
}

proof fn lemma_next_space_at(s: Seq<char>, i: int, e: int)
    requires
        0 <= i <= e <= s.len(),
        forall|k: int| i <= k < e ==> !is_space(#[trigger] s[k]),
        e < s.len() ==> is_space(s[e]),
    ensures
        next_space(s, i) == e,
    decreases e - i,
{
    if i < e {
        lemma_next_space_at(s, i + 1, e);
    }
}

proof fn lemma_words_behind_space(s: Seq<char>, i: int)
    requires
        0 <= i < s.len(),
        is_space(s[i]),
    ensures
        words_from(s, i) == words_from(s, i + 1),
{
    assert(skip_space(s, i) == skip_space(s, i + 1));
    lemma_skip_space(s, i + 1);
}

proof fn lemma_words_moved(s: Seq<char>, rest: Seq<char>, i: int)
    requires
        0 <= i <= rest.len(),
        rest.len() <= s.len(),
        s.skip(s.len() - rest.len()) == rest,
    ensures
        words_from(s, s.len() - rest.len() + i) == words_from(rest, i),
    decreases rest.len() - i,
{
    let d = s.len() - rest.len();
    lemma_scans_moved(s, rest, i);
    let start = skip_space(rest, i);
    let end = next_space(rest, start);
    lemma_skip_space(rest, i);
    if start < end && end <= rest.len() {
        lemma_scans_moved(s, rest, start);
        assert(s.subrange(d + start, d + end) =~= rest.subrange(start, end));
        lemma_words_moved(s, rest, end);
    } else if start <= rest.len() {
        lemma_scans_moved(s, rest, start);
    }
}

proof fn lemma_scans_moved(s: Seq<char>, rest: Seq<char>, i: int)
    requires
        0 <= i <= rest.len(),
        rest.len() <= s.len(),
        s.skip(s.len() - rest.len()) == rest,
    ensures
        skip_space(s, s.len() - rest.len() + i) == s.len() - rest.len() + skip_space(rest, i),
        next_space(s, s.len() - rest.len() + i) == s.len() - rest.len() + next_space(rest, i),
    decreases rest.len() - i,
{
    if i < rest.len() {
        assert(s[s.len() - rest.len() + i] == rest[i]);
        lemma_scans_moved(s, rest, i + 1);
    }
}

/// The first occurrence of a pattern is replaced, with the text before it
/// kept, and the rest is done alike. Without an occurrence the text stays.
pub proof fn law_a_pattern_is_replaced(
    before: Seq<char>,
    pattern: Seq<char>,
    rest: Seq<char>,
    with: Seq<char>,
)
    requires
        pattern.len() > 0,
        find(before + pattern + rest, pattern) == Some(before.len() as int),
    ensures
        substituted(before + pattern + rest, pattern, with) == before + with + substituted(
            rest,
            pattern,
            with,
        ),
        find(rest, pattern) is None ==> substituted(rest, pattern, with) == rest,
{
    let s = before + pattern + rest;
    let n = (before.len() + pattern.len()) as int;
    assert(s.subrange(0, before.len() as int) =~= before);
    assert(s.skip(n) =~= rest);
    lemma_substituted_moved(s, rest, pattern, with, 0);
    assert(rest.subrange(0, rest.len() as int) =~= rest);
}

proof fn lemma_found_behind(s: Seq<char>, rest: Seq<char>, pattern: Seq<char>, i: int)
    requires
        0 <= i,
        rest.len() <= s.len(),
        s.skip(s.len() - rest.len()) == rest,
    ensures
        find_from(s, pattern, s.len() - rest.len() + i) == match find_from(rest, pattern, i) {
            Some(at) => Some(s.len() - rest.len() + at),
            None => None,
        },
    decreases rest.len() + 1 - i,
{
    let d = s.len() - rest.len();
    if i + pattern.len() <= rest.len() {
        assert(s.subrange(d + i, d + i + pattern.len()) =~= rest.subrange(i, i + pattern.len()));
        if !stands_at(rest, pattern, i) {
            lemma_found_behind(s, rest, pattern, i + 1);
        }
    }
}

proof fn lemma_substituted_moved(
    s: Seq<char>,
    rest: Seq<char>,
    pattern: Seq<char>,
    with: Seq<char>,
    i: int,
)
    requires
        0 <= i <= rest.len(),
        pattern.len() > 0,
        rest.len() <= s.len(),
        s.skip(s.len() - rest.len()) == rest,
    ensures
        substituted_from(s, pattern, with, s.len() - rest.len() + i) == substituted_from(
            rest,
            pattern,
            with,
            i,
        ),
    decreases rest.len() - i,
{
    let d = s.len() - rest.len();
    lemma_found_behind(s, rest, pattern, i);
    lemma_find_from(rest, pattern, i);
    match find_from(rest, pattern, i) {
        None => {
            assert(s.subrange(d + i, s.len() as int) =~= rest.subrange(i, rest.len() as int));
        },
        Some(at) => {
            assert(s.subrange(d + i, d + at) =~= rest.subrange(i, at));
            lemma_substituted_moved(s, rest, pattern, with, at + pattern.len());
        },
    }
}

} // verus!
