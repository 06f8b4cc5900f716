//! The CSS scanner: comments, preludes, blocks, and top-level lists.
//!
//! The scanner knows strings and brackets, so a separator inside
//! `url(...)`, `[...]`, or quotes does not split anything.

use vstd::prelude::*;

use crate::text;
use crate::text::{part, text_is_at};

verus! {

// -- Comments ---------------------------------------------------------------

/// The position after the comment that opens at `from`: behind its closing
/// mark, or the end of the text when it never closes.
pub open spec fn comment_end(s: Seq<char>, from: int) -> int {
    match text::find_from(s, "*/"@, from + 2) {
        Some(i) => i + 2,
        None => s.len() as int,
    }
}

/// What remains of `s` from position `from` without its comments.
pub open spec fn uncommented_from(s: Seq<char>, from: int) -> Seq<char>
    decreases s.len() - from,
    via uncommented_decreases
{
    if from < 0 || from >= s.len() {
        Seq::empty()
    } else if text::stands_at(s, "/*"@, from) {
        uncommented_from(s, comment_end(s, from))
    } else {
        seq![s[from]] + uncommented_from(s, from + 1)
    }
}

#[via_fn]
proof fn uncommented_decreases(s: Seq<char>, from: int) {
    reveal_strlit("/*");
    reveal_strlit("*/");
    if 0 <= from < s.len() {
        text::lemma_find_from(s, "*/"@, from + 2);
    }
}

/// `s` without its comments.
pub open spec fn uncommented(s: Seq<char>) -> Seq<char> {
    uncommented_from(s, 0)
}

/// Removes the comments. A comment that never closes runs to the end.
pub fn strip_comments(css: &[char]) -> (r: Vec<char>)
    ensures
        r@ == uncommented(css@),
{
    let mut r: Vec<char> = Vec::new();
    let mut i: usize = 0;
    while i < css.len()
        invariant
            i <= css@.len(),
            uncommented(css@) == r@ + uncommented_from(css@, i as int),
        decreases css@.len() - i,
    {
        proof {
            reveal_strlit("/*");
            reveal_strlit("*/");
            text::lemma_find_from(css@, "*/"@, i + 2);
        }
        if text_is_at(css, "/*", i) {
            let found = text::find_text(css, "*/", i + 2);
            i = match found {
                Some(end) => end + 2,
                None => css.len(),
            };
        } else {
            let ghost before = r@;
            r.push(css[i]);
            assert(before + (seq![css@[i as int]] + uncommented_from(css@, i + 1)) =~= r@
                + uncommented_from(css@, i + 1));
            i += 1;
        }
    }
    assert(r@ + Seq::<char>::empty() =~= r@);
    r
}

// -- The scanner state ------------------------------------------------------

/// Where the scanner stands: how many brackets are open, and which quote.
pub struct Nesting {
    pub depth: int,
    pub quote: Option<char>,
}

/// Outside every bracket and every string.
pub open spec fn top_level() -> Nesting {
    Nesting { depth: 0, quote: None }
}

/// The nesting after `c`.
pub open spec fn nest(n: Nesting, c: char) -> Nesting {
    match n.quote {
        Some(q) => if c == q {
            Nesting { depth: n.depth, quote: None }
        } else {
            n
        },
        None => if c == '"' || c == '\'' {
            Nesting { depth: n.depth, quote: Some(c) }
        } else if c == '(' || c == '[' {
            Nesting { depth: n.depth + 1, quote: None }
        } else if (c == ')' || c == ']') && n.depth > 0 {
            Nesting { depth: n.depth - 1, quote: None }
        } else {
            n
        },
    }
}

/// The scanner's state while it runs.
#[derive(Clone, Copy)]
pub struct Scanner {
    pub depth: usize,
    pub quote: Option<char>,
}

impl View for Scanner {
    type V = Nesting;

    open spec fn view(&self) -> Nesting {
        Nesting { depth: self.depth as int, quote: self.quote }
    }
}

impl Scanner {
    /// A scanner outside every bracket and every string.
    pub fn new() -> (r: Scanner)
        ensures
            r@ == top_level(),
    {
        Scanner { depth: 0, quote: None }
    }

    /// True outside every bracket and every string.
    pub fn at_top(&self) -> (r: bool)
        ensures
            r == (self@ == top_level()),
    {
        self.depth == 0 && self.quote.is_none()
    }

    /// The scanner after `c`.
    pub fn step(self, c: char) -> (r: Scanner)
        requires
            self.depth < usize::MAX,
        ensures
            r@ == nest(self@, c),
            r.depth <= self.depth + 1,
    {
        match self.quote {
            Some(q) => if c == q {
                Scanner { depth: self.depth, quote: None }
            } else {
                self
            },
            None => if c == '"' || c == '\'' {
                Scanner { depth: self.depth, quote: Some(c) }
            } else if c == '(' || c == '[' {
                Scanner { depth: self.depth + 1, quote: None }
            } else if (c == ')' || c == ']') && self.depth > 0 {
                Scanner { depth: self.depth - 1, quote: None }
            } else {
                self
            },
        }
    }
}

// -- Top-level lists --------------------------------------------------------

/// The parts of `s` from position `i` on, cut at each top-level `separator`.
/// The part in progress began at `start`.
pub open spec fn split_from(
    s: Seq<char>,
    separator: char,
    start: int,
    i: int,
    n: Nesting,
) -> Seq<Seq<char>>
    decreases s.len() - i,
{
    if i < 0 || i >= s.len() {
        seq![s.subrange(start, s.len() as int)]
    } else if n == top_level() && s[i] == separator {
        seq![s.subrange(start, i)] + split_from(s, separator, i + 1, i + 1, top_level())
    } else {
        split_from(s, separator, start, i + 1, nest(n, s[i]))
    }
}

/// The parts of `s` between its top-level separators.
pub open spec fn split(s: Seq<char>, separator: char) -> Seq<Seq<char>> {
    split_from(s, separator, 0, 0, top_level())
}

/// Splits `chars` at each `separator` outside brackets and strings.
pub fn split_top_level(chars: &[char], separator: char) -> (r: Vec<Vec<char>>)
    ensures
        text::texts(r@) == split(chars@, separator),
        r@.len() > 0,
{
    let mut r: Vec<Vec<char>> = Vec::new();
    let mut start: usize = 0;
    let mut i: usize = 0;
    let mut scanner = Scanner::new();
    while i < chars.len()
        invariant
            start <= i <= chars@.len(),
            scanner.depth <= i,
            split(chars@, separator) == text::texts(r@) + split_from(
                chars@,
                separator,
                start as int,
                i as int,
                scanner@,
            ),
        decreases chars@.len() - i,
    {
        let c = chars[i];
        if scanner.at_top() && c == separator {
            let ghost before = r@;
            let piece = part(chars, start, i);
            r.push(piece);
            proof {
                let rest = split_from(chars@, separator, i + 1, i + 1, top_level());
                assert(text::texts(r@) =~= text::texts(before).push(piece@));
                assert(text::texts(before) + (seq![piece@] + rest) =~= text::texts(
                    r@,
                ) + rest);
            }
            i += 1;
            start = i;
            scanner = Scanner::new();
        } else {
            scanner = scanner.step(c);
            i += 1;
        }
    }
    let ghost before = r@;
    let piece = part(chars, start, chars.len());
    r.push(piece);
    assert(text::texts(r@) =~= text::texts(before) + seq![piece@]);
    r
}

/// Splitting loses nothing: the parts with the separator between them are
/// the text again.
pub proof fn law_split_then_join(s: Seq<char>, separator: char)
    ensures
        text::join(split(s, separator), seq![separator]) == s,
{
    lemma_split_from(s, separator, 0, 0, top_level());
    assert(s.subrange(0, s.len() as int) =~= s);
}

proof fn lemma_split_from(s: Seq<char>, separator: char, start: int, i: int, n: Nesting)
    requires
        0 <= start <= i <= s.len(),
    ensures
        split_from(s, separator, start, i, n).len() > 0,
        text::join(split_from(s, separator, start, i, n), seq![separator]) == s.subrange(
            start,
            s.len() as int,
        ),
    decreases s.len() - i,
{
    if i < s.len() {
        if n == top_level() && s[i] == separator {
            let rest = split_from(s, separator, i + 1, i + 1, top_level());
            lemma_split_from(s, separator, i + 1, i + 1, top_level());
            lemma_join_first(s.subrange(start, i), rest, seq![separator]);
            assert(s.subrange(start, i) + seq![separator] + s.subrange(i + 1, s.len() as int)
                =~= s.subrange(start, s.len() as int));
        } else {
            lemma_split_from(s, separator, start, i + 1, nest(n, s[i]));
        }
    }
}

/// Joining a list is its first text, the separator, and the joined rest.
pub proof fn lemma_join_first(first: Seq<char>, rest: Seq<Seq<char>>, separator: Seq<char>)
    requires
        rest.len() > 0,
    ensures
        text::join(seq![first] + rest, separator) == first + separator + text::join(
            rest,
            separator,
        ),
    decreases rest.len(),
{
    let all = seq![first] + rest;
    assert(all.last() == rest.last());
    if rest.len() == 1 {
        assert(all.drop_last() =~= seq![first]);
        assert(text::join(seq![first], separator) == first);
    } else {
        assert(all.drop_last() =~= seq![first] + rest.drop_last());
        lemma_join_first(first, rest.drop_last(), separator);
        let inner = text::join(rest.drop_last(), separator);
        assert(first + separator + inner + separator + rest.last() =~= first + separator + (inner
            + separator + rest.last()));
    }
}

// -- Preludes and blocks ----------------------------------------------------

/// Where the prelude that begins before `i` ends: at the first top-level `{`
/// or `;`.
pub open spec fn prelude_end_from(s: Seq<char>, i: int, n: Nesting) -> Option<int>
    decreases s.len() - i,
{
    if i < 0 || i >= s.len() {
        None
    } else if n == top_level() && (s[i] == '{' || s[i] == ';') {
        Some(i)
    } else {
        prelude_end_from(s, i + 1, nest(n, s[i]))
    }
}

/// Where the prelude that begins at `from` ends.
pub open spec fn prelude_end(s: Seq<char>, from: int) -> Option<int> {
    prelude_end_from(s, from, top_level())
}

/// A prelude ends inside the text, at a `{` or a `;`.
pub proof fn lemma_prelude_end(s: Seq<char>, i: int, n: Nesting)
    requires
        0 <= i,
    ensures
        prelude_end_from(s, i, n) matches Some(e) ==> i <= e < s.len() && (s[e] == '{' || s[e]
            == ';'),
    decreases s.len() - i,
{
    if i < s.len() && !(n == top_level() && (s[i] == '{' || s[i] == ';')) {
        lemma_prelude_end(s, i + 1, nest(n, s[i]));
    }
}

/// The position of the `{` or `;` that ends the prelude at `from`.
pub fn find_prelude_end(chars: &[char], from: usize) -> (r: Option<usize>)
    requires
        from <= chars@.len(),
    ensures
        text::position(r) == prelude_end(chars@, from as int),
        r matches Some(e) ==> from <= e < chars@.len() && (chars@[e as int] == '{'
            || chars@[e as int] == ';'),
{
    let mut i: usize = from;
    let mut scanner = Scanner::new();
    while i < chars.len()
        invariant
            from <= i <= chars@.len(),
            scanner.depth <= i - from,
            prelude_end(chars@, from as int) == prelude_end_from(chars@, i as int, scanner@),
        decreases chars@.len() - i,
    {
        let c = chars[i];
        if scanner.at_top() && (c == '{' || c == ';') {
            return Some(i);
        }
        scanner = scanner.step(c);
        i += 1;
    }
    None
}

/// Where the block ends whose `{` was already read: at the `}` that closes
/// it, with `open` inner blocks open before `i`.
pub open spec fn block_end_from(s: Seq<char>, i: int, open: int, quote: Option<char>) -> Option<
    int,
>
    decreases s.len() - i,
{
    if i < 0 || i >= s.len() {
        None
    } else {
        match quote {
            Some(q) => block_end_from(
                s,
                i + 1,
                open,
                if s[i] == q {
                    None
                } else {
                    quote
                },
            ),
            None => if s[i] == '"' || s[i] == '\'' {
                block_end_from(s, i + 1, open, Some(s[i]))
            } else if s[i] == '{' {
                block_end_from(s, i + 1, open + 1, None)
            } else if s[i] == '}' && open <= 0 {
                Some(i)
            } else if s[i] == '}' {
                block_end_from(s, i + 1, open - 1, None)
            } else {
                block_end_from(s, i + 1, open, None)
            },
        }
    }
}

/// Where the block ends whose first character is at `from`.
pub open spec fn block_end(s: Seq<char>, from: int) -> Option<int> {
    block_end_from(s, from, 0, None)
}

/// A block ends inside the text, at a `}`.
pub proof fn lemma_block_end(s: Seq<char>, i: int, open: int, quote: Option<char>)
    requires
        0 <= i,
    ensures
        block_end_from(s, i, open, quote) matches Some(e) ==> i <= e < s.len() && s[e] == '}',
    decreases s.len() - i,
{
    if i < s.len() {
        match quote {
            Some(q) => {
                lemma_block_end(
                    s,
                    i + 1,
                    open,
                    if s[i] == q {
                        None
                    } else {
                        quote
                    },
                );
            },
            None => {
                if s[i] == '"' || s[i] == '\'' {
                    lemma_block_end(s, i + 1, open, Some(s[i]));
                } else if s[i] == '{' {
                    lemma_block_end(s, i + 1, open + 1, None);
                } else if s[i] == '}' && open <= 0 {
                } else if s[i] == '}' {
                    lemma_block_end(s, i + 1, open - 1, None);
                } else {
                    lemma_block_end(s, i + 1, open, None);
                }
            },
        }
    }
}

/// The position of the `}` that closes the block whose content begins at
/// `from`.
pub fn find_block_end(chars: &[char], from: usize) -> (r: Option<usize>)
    requires
        from <= chars@.len(),
    ensures
        text::position(r) == block_end(chars@, from as int),
        r matches Some(e) ==> from <= e < chars@.len() && chars@[e as int] == '}',
{
    let mut i: usize = from;
    let mut open: usize = 0;
    let mut quote: Option<char> = None;
    while i < chars.len()
        invariant
            from <= i <= chars@.len(),
            open <= i - from,
            block_end(chars@, from as int) == block_end_from(chars@, i as int, open as int, quote),
        decreases chars@.len() - i,
    {
        let c = chars[i];
        match quote {
            Some(q) => {
                if c == q {
                    quote = None;
                }
            },
            None => {
                if c == '"' || c == '\'' {
                    quote = Some(c);
                } else if c == '{' {
                    open += 1;
                } else if c == '}' {
                    if open == 0 {
                        return Some(i);
                    }
                    open -= 1;
                }
            },
        }
        i += 1;
    }
    None
}

// -- What splitting means -----------------------------------------------------

/// True for a text without quotes and brackets.
pub open spec fn is_flat(s: Seq<char>) -> bool {
    forall|k: int|
        0 <= k < s.len() ==> {
            let c = #[trigger] s[k];
            c != '"' && c != '\'' && c != '(' && c != ')' && c != '[' && c != ']'
        }
}

/// The nesting behind the first `k` characters of a text.
pub open spec fn nesting_behind(s: Seq<char>, k: int) -> Nesting
    decreases k,
{
    if k <= 0 {
        top_level()
    } else {
        nest(nesting_behind(s, k - 1), s[k - 1])
    }
}

/// True for a text that closes what it opens and holds the separator only
/// inside brackets and strings.
pub open spec fn is_one_part(s: Seq<char>, separator: char) -> bool {
    &&& nesting_behind(s, s.len() as int) == top_level()
    &&& forall|k: int|
        0 <= k < s.len() && #[trigger] s[k] == separator ==> nesting_behind(s, k) != top_level()
}

proof fn lemma_nesting_of_prefix(s: Seq<char>, more: Seq<char>, k: int)
    requires
        k <= s.len(),
    ensures
        nesting_behind(s + more, k) == nesting_behind(s, k),
    decreases k,
{
    if k > 0 {
        lemma_nesting_of_prefix(s, more, k - 1);
        assert((s + more)[k - 1] == s[k - 1]);
    }
}

proof fn lemma_scan_on(s: Seq<char>, separator: char, i: int, j: int)
    requires
        0 <= i <= j <= s.len(),
        forall|k: int|
            i <= k < j && #[trigger] s[k] == separator ==> nesting_behind(s, k) != top_level(),
    ensures
        split_from(s, separator, 0, i, nesting_behind(s, i)) == split_from(
            s,
            separator,
            0,
            j,
            nesting_behind(s, j),
        ),
    decreases j - i,
{
    if i < j {
        assert(s[i] == separator ==> nesting_behind(s, i) != top_level());
        assert(nesting_behind(s, i + 1) == nest(nesting_behind(s, i), s[i]));
        lemma_scan_on(s, separator, i + 1, j);
    }
}

proof fn lemma_split_moves(
    s: Seq<char>,
    rest: Seq<char>,
    separator: char,
    start: int,
    i: int,
    n: Nesting,
)
    requires
        0 <= start <= i <= rest.len(),
        rest.len() <= s.len(),
        s.skip(s.len() - rest.len()) == rest,
    ensures
        split_from(s, separator, s.len() - rest.len() + start, s.len() - rest.len() + i, n)
            == split_from(rest, separator, start, i, n),
    decreases rest.len() - i,
{
    let d = s.len() - rest.len();
    assert(s.subrange(d + start, s.len() as int) =~= rest.subrange(start, rest.len() as int));
    if i < rest.len() {
        assert(s[d + i] == rest[i]);
        assert(s.subrange(d + start, d + i) =~= rest.subrange(start, i));
        if n == top_level() && rest[i] == separator {
            lemma_split_moves(s, rest, separator, i + 1, i + 1, top_level());
        } else {
            lemma_split_moves(s, rest, separator, start, i + 1, nest(n, rest[i]));
        }
    }
}

/// A text is split at each separator outside brackets and strings, and
/// nowhere else: one part stays whole, and one before a separator is split
/// off from the rest.
pub proof fn law_a_part_is_split_off(part: Seq<char>, separator: char, rest: Seq<char>)
    requires
        is_one_part(part, separator),
    ensures
        split(part, separator) == seq![part],
        split(part + seq![separator] + rest, separator) == seq![part] + split(rest, separator),
{
    let n = part.len() as int;
    lemma_scan_on(part, separator, 0, n);
    assert(part.subrange(0, n) =~= part);
    let s = part + seq![separator] + rest;
    let more = seq![separator] + rest;
    assert(s =~= part + more);
    lemma_nesting_of_prefix(part, more, n);
    assert forall|k: int| 0 <= k < n && #[trigger] s[k] == separator implies nesting_behind(s, k)
        != top_level() by {
        assert(s[k] == part[k]);
        lemma_nesting_of_prefix(part, more, k);
    }
    lemma_scan_on(s, separator, 0, n);
    assert(s[n] == separator);
    assert(s.subrange(0, n) =~= part);
    assert(s.skip(n + 1) =~= rest);
    lemma_split_moves(s, rest, separator, 0, 0, top_level());
}

proof fn lemma_flat_nesting(s: Seq<char>, from: int, to: int)
    requires
        0 <= from <= to <= s.len(),
        is_flat(s.subrange(from, to)),
        nesting_behind(s, from).quote is None,
    ensures
        forall|k: int| from <= k <= to ==> #[trigger] nesting_behind(s, k) == nesting_behind(s, from),
    decreases to - from,
{
    if from < to {
        let shorter = s.subrange(from, to - 1);
        assert forall|k: int| 0 <= k < shorter.len() implies {
            let c = #[trigger] shorter[k];
            c != '"' && c != '\'' && c != '(' && c != ')' && c != '[' && c != ']'
        } by {
            assert(shorter[k] == s.subrange(from, to)[k]);
        }
        lemma_flat_nesting(s, from, to - 1);
        assert(s.subrange(from, to)[to - 1 - from] == s[to - 1]);
        assert forall|k: int| from <= k <= to implies #[trigger] nesting_behind(s, k)
            == nesting_behind(s, from) by {
            if k == to {
                assert(nesting_behind(s, to - 1) == nesting_behind(s, from));
            }
        }
    }
}

/// A flat text without the separator is one part, and so is a flat text in
/// round brackets, whatever it holds.
pub proof fn law_brackets_hold_a_part_together(name: Seq<char>, inner: Seq<char>, separator: char)
    requires
        is_flat(name),
        !name.contains(separator),
        is_flat(inner),
        separator != '(',
        separator != ')',
    ensures
        is_one_part(name, separator),
        is_one_part(name + seq!['('] + inner + seq![')'], separator),
{
    let n = name.len() as int;
    assert(name.subrange(0, n) =~= name);
    lemma_flat_nesting(name, 0, n);
    assert(nesting_behind(name, n) == nesting_behind(name, 0));
    let s = name + seq!['('] + inner + seq![')'];
    let end = n + 1 + inner.len();
    assert(s.subrange(0, n) =~= name);
    lemma_flat_nesting(s, 0, n);
    assert(nesting_behind(s, n) == nesting_behind(s, 0));
    assert(s[n] == '(');
    assert(nesting_behind(s, n + 1) == nest(nesting_behind(s, n), s[n]));
    assert(nesting_behind(s, n + 1) == Nesting { depth: 1, quote: None });
    assert(s.subrange(n + 1, end) =~= inner);
    lemma_flat_nesting(s, n + 1, end);
    assert(nesting_behind(s, end) == nesting_behind(s, n + 1));
    assert(s[end] == ')');
    assert(nesting_behind(s, end + 1) == nest(nesting_behind(s, end), s[end]));
    assert forall|k: int| 0 <= k < s.len() && #[trigger] s[k] == separator implies nesting_behind(
        s,
        k,
    ) != top_level() by {
        if k < n {
            assert(name[k] == separator);
        } else if k < end && k > n {
            assert(nesting_behind(s, k) == nesting_behind(s, n + 1));
        }
    }
}

/// A string is one part with everything that stands in it.
pub proof fn law_quotes_hold_a_part_together(inner: Seq<char>, separator: char)
    requires
        !inner.contains('"'),
        separator != '"',
    ensures
        is_one_part(seq!['"'] + inner + seq!['"'], separator),
{
    let s = seq!['"'] + inner + seq!['"'];
    let end = 1 + inner.len() as int;
    let quoted = Nesting { depth: 0, quote: Some('"') };
    reveal_with_fuel(nesting_behind, 2);
    assert(s[0] == '"');
    assert(nesting_behind(s, 1) == quoted);
    lemma_quoted_nesting(s, 1, end);
    assert(s[end] == '"');
    assert(nesting_behind(s, end) == quoted);
    assert(nesting_behind(s, end + 1) == nest(nesting_behind(s, end), s[end]));
    assert forall|k: int| 0 <= k < s.len() && #[trigger] s[k] == separator implies nesting_behind(
        s,
        k,
    ) != top_level() by {
        assert(1 <= k <= end);
        assert(nesting_behind(s, k) == quoted);
    }
}

proof fn lemma_quoted_nesting(s: Seq<char>, from: int, to: int)
    requires
        0 <= from <= to <= s.len(),
        nesting_behind(s, from).quote == Some('"'),
        forall|k: int| from <= k < to ==> s[k] != '"',
    ensures
        forall|k: int| from <= k <= to ==> #[trigger] nesting_behind(s, k) == nesting_behind(s, from),
    decreases to - from,
{
    if from < to {
        lemma_quoted_nesting(s, from, to - 1);
        assert forall|k: int| from <= k <= to implies #[trigger] nesting_behind(s, k)
            == nesting_behind(s, from) by {
            if k == to {
                assert(nesting_behind(s, to - 1) == nesting_behind(s, from));
            }
        }
    }
}

/// A plain rule is read as it is written: its prelude ends at the `{`, and
/// its body at the `}`, wherever in the stylesheet it stands.
pub proof fn law_a_rule_is_read_as_written(
    before: Seq<char>,
    prelude: Seq<char>,
    body: Seq<char>,
    rest: Seq<char>,
)
    requires
        is_flat(prelude),
        !prelude.contains('{'),
        !prelude.contains(';'),
        is_flat(body),
        !body.contains('{'),
        !body.contains('}'),
    ensures
        ({
            let s = before + prelude + seq!['{'] + body + seq!['}'] + rest;
            let from = before.len() as int;
            let open = from + prelude.len();
            let close = open + 1 + body.len();
            &&& prelude_end(s, from) == Some(open)
            &&& block_end(s, open + 1) == Some(close)
            &&& s.subrange(from, open) == prelude
            &&& s.subrange(open + 1, close) == body
        }),
{
    let s = before + prelude + seq!['{'] + body + seq!['}'] + rest;
    let from = before.len() as int;
    let open = from + prelude.len();
    let close = open + 1 + body.len();
    assert(s.subrange(from, open) =~= prelude);
    assert(s.subrange(open + 1, close) =~= body);
    assert(s[open] == '{');
    assert(s[close] == '}');
    assert forall|k: int| from <= k < open implies {
        let c = #[trigger] s[k];
        c != '"' && c != '\'' && c != '(' && c != ')' && c != '[' && c != ']' && c != '{' && c
            != ';'
    } by {
        assert(s[k] == prelude[k - from]);
    }
    lemma_prelude_ends_at(s, from, open);
    assert forall|k: int| open + 1 <= k < close implies {
        let c = #[trigger] s[k];
        c != '"' && c != '\'' && c != '{' && c != '}'
    } by {
        assert(s[k] == body[k - open - 1]);
    }
    lemma_block_ends_at(s, open + 1, close);
}

proof fn lemma_prelude_ends_at(s: Seq<char>, i: int, e: int)
    requires
        0 <= i <= e < s.len(),
        s[e] == '{',
        forall|k: int|
            i <= k < e ==> {
                let c = #[trigger] s[k];
                c != '"' && c != '\'' && c != '(' && c != ')' && c != '[' && c != ']' && c != '{'
                    && c != ';'
            },
    ensures
        prelude_end_from(s, i, top_level()) == Some(e),
    decreases e - i,
{
    if i < e {
        assert(s[i] != '{');
        assert(nest(top_level(), s[i]) == top_level());
        lemma_prelude_ends_at(s, i + 1, e);
    }
}

proof fn lemma_block_ends_at(s: Seq<char>, i: int, e: int)
    requires
        0 <= i <= e < s.len(),
        s[e] == '}',
        forall|k: int|
            i <= k < e ==> {
                let c = #[trigger] s[k];
                c != '"' && c != '\'' && c != '{' && c != '}'
            },
    ensures
        block_end_from(s, i, 0, None) == Some(e),
    decreases e - i,
{
    if i < e {
        assert(s[i] != '{');
        lemma_block_ends_at(s, i + 1, e);
    }
}

/// A comment is taken out, and the text before and behind it stays.
pub proof fn law_a_comment_is_taken_out(before: Seq<char>, comment: Seq<char>, rest: Seq<char>)
    requires
        text::find(before, "/*"@) is None,
        text::find(comment + "*"@, "*/"@) is None,
    ensures
        uncommented(before) == before,
        uncommented(before + "/*"@ + comment + "*/"@ + rest) == before + uncommented(rest),
{
    reveal_strlit("/*");
    reveal_strlit("*/");
    reveal_strlit("*");
    let s = before + "/*"@ + comment + "*/"@ + rest;
    let n = before.len() as int;
    let inner = n + 2;
    let close = inner + comment.len();
    let nothing = Seq::<char>::empty();
    text::lemma_find_from(before, "/*"@, 0);
    lemma_kept_up_to(before, 0, n);
    assert(before.subrange(0, n) =~= before);
    assert(uncommented(before) =~= before);
    assert forall|k: int| 0 <= k < n implies !#[trigger] text::stands_at(s, "/*"@, k) by {
        if text::stands_at(s, "/*"@, k) {
            assert(s.subrange(k, k + 2)[1] == s[k + 1]);
            if k + 2 <= n {
                assert(before.subrange(k, k + 2) =~= s.subrange(k, k + 2));
                assert(text::stands_at(before, "/*"@, k));
            } else {
                assert(s[n] == '/');
            }
        }
    }
    lemma_kept_up_to(s, 0, n);
    assert(s.subrange(0, n) =~= before);
    assert(s.subrange(n, n + 2) =~= "/*"@);
    assert(text::stands_at(s, "/*"@, n));
    assert(s.subrange(close, close + 2) =~= "*/"@);
    assert(text::stands_at(s, "*/"@, close));
    assert forall|k: int| inner <= k < close implies !#[trigger] text::stands_at(s, "*/"@, k) by {
        if text::stands_at(s, "*/"@, k) {
            let c = comment + "*"@;
            let j = k - inner;
            assert(c.subrange(j, j + 2) =~= s.subrange(k, k + 2));
            assert(text::stands_at(c, "*/"@, j));
            text::lemma_find_from(c, "*/"@, 0);
        }
    }
    text::lemma_find_from(s, "*/"@, inner);
    assert(text::find_from(s, "*/"@, inner) == Some(close));
    assert(comment_end(s, n) == close + 2);
    assert(s.skip(close + 2) =~= rest);
    lemma_uncommented_moves(s, rest, 0);
    assert(uncommented_from(s, n) == uncommented_from(s, close + 2));
}

proof fn lemma_kept_up_to(s: Seq<char>, i: int, e: int)
    requires
        0 <= i <= e <= s.len(),
        forall|k: int| i <= k < e ==> !#[trigger] text::stands_at(s, "/*"@, k),
    ensures
        uncommented_from(s, i) == s.subrange(i, e) + uncommented_from(s, e),
    decreases e - i,
{
    if i < e {
        lemma_kept_up_to(s, i + 1, e);
        assert(!text::stands_at(s, "/*"@, i));
        assert(seq![s[i]] + (s.subrange(i + 1, e) + uncommented_from(s, e)) =~= s.subrange(i, e)
            + uncommented_from(s, e));
    } else {
        assert(s.subrange(i, e) + uncommented_from(s, e) =~= uncommented_from(s, e));
    }
}

proof fn lemma_uncommented_moves(s: Seq<char>, rest: Seq<char>, i: int)
    requires
        0 <= i,
        rest.len() <= s.len(),
        s.skip(s.len() - rest.len()) == rest,
    ensures
        uncommented_from(s, s.len() - rest.len() + i) == uncommented_from(rest, i),
    decreases rest.len() - i,
{
    reveal_strlit("/*");
    reveal_strlit("*/");
    let d = s.len() - rest.len();
    if i < rest.len() {
        assert(s[d + i] == rest[i]);
        lemma_stands_moved(s, rest, "/*"@, i);
        if text::stands_at(rest, "/*"@, i) {
            lemma_found_moved(s, rest, "*/"@, i + 2);
            text::lemma_find_from(rest, "*/"@, i + 2);
            lemma_uncommented_moves(s, rest, comment_end(rest, i));
        } else {
            lemma_uncommented_moves(s, rest, i + 1);
        }
    }
}

proof fn lemma_stands_moved(s: Seq<char>, rest: Seq<char>, pattern: Seq<char>, i: int)
    requires
        0 <= i,
        rest.len() <= s.len(),
        s.skip(s.len() - rest.len()) == rest,
    ensures
        text::stands_at(s, pattern, s.len() - rest.len() + i) == text::stands_at(rest, pattern, i),
{
    let d = s.len() - rest.len();
    if i + pattern.len() <= rest.len() {
        assert(s.subrange(d + i, d + i + pattern.len()) =~= rest.subrange(i, i + pattern.len()));
    }
}

proof fn lemma_found_moved(s: Seq<char>, rest: Seq<char>, pattern: Seq<char>, i: int)
    requires
        0 <= i,
        rest.len() <= s.len(),
        s.skip(s.len() - rest.len()) == rest,
    ensures
        text::find_from(s, pattern, s.len() - rest.len() + i) == match text::find_from(
            rest,
            pattern,
            i,
        ) {
            Some(at) => Some(s.len() - rest.len() + at),
            None => None,
        },
    decreases rest.len() + 1 - i,
{
    lemma_stands_moved(s, rest, pattern, i);
    if i + pattern.len() <= rest.len() && !text::stands_at(rest, pattern, i) {
        lemma_found_moved(s, rest, pattern, i + 1);
    }
}

} // verus!
