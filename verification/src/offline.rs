//! What makes an exported page open offline: once its font link is swapped
//! for the stylesheet itself, it names no font host any more.

use vstd::prelude::*;

use crate::encoding;
use crate::export;
use crate::export::{ONLINE_FONTS, ONLINE_STYLES, PRECONNECT_FONTS, PRECONNECT_STYLES};
use crate::export::{OFFLINE_FONTS, OFFLINE_STYLES};
use crate::text;

verus! {

/// The host of the online stylesheets.
pub const STYLE_HOST: &'static str = "fonts.googleapis.com";

/// The host of the online font files.
pub const FONT_HOST: &'static str = "fonts.gstatic.com";

/// True when `s` names the host.
pub open spec fn names(s: Seq<char>, host: Seq<char>) -> bool {
    exists|i: int| text::stands_at(s, host, i)
}

/// The parts of a page that name a font host besides its font link: the two
/// hints and the two sources of the policy.
pub open spec fn online_parts() -> Seq<Seq<char>> {
    seq![PRECONNECT_STYLES@, PRECONNECT_FONTS@, ONLINE_STYLES@, ONLINE_FONTS@]
}

/// True when the `n` characters at `i` lie inside one of the parts.
pub open spec fn lies_in(s: Seq<char>, parts: Seq<Seq<char>>, i: int, n: int) -> bool {
    exists|m: int, j: int|
        0 <= m < parts.len() && #[trigger] text::stands_at(s, parts[m], j) && j <= i && i + n <= j
            + parts[m].len()
}

/// True when `s` names the host nowhere but in one of the parts.
pub open spec fn is_covered(s: Seq<char>, host: Seq<char>, parts: Seq<Seq<char>>) -> bool {
    forall|i: int| #[trigger]
        text::stands_at(s, host, i) ==> lies_in(s, parts, i, host.len() as int)
}

/// True when the page has a font link and names the host nowhere but in the
/// link, in the hints and in the policy.
pub open spec fn names_only_there(s: Seq<char>, host: Seq<char>) -> bool {
    match export::link_span(s) {
        Some(span) => forall|i: int| #[trigger]
            text::stands_at(s, host, i) ==> (span.start <= i && i + host.len() <= span.end)
                || lies_in(s, online_parts(), i, host.len() as int),
        None => false,
    }
}

/// True for a character of a font host: a small letter or a dot.
pub open spec fn is_host_char(c: char) -> bool {
    c == '.' || 'a' <= c && c <= 'z'
}

/// True when no `part` stands right behind what could be a piece of a host.
pub open spec fn stands_apart(s: Seq<char>, part: Seq<char>) -> bool {
    forall|i: int| 0 < i && #[trigger] text::stands_at(s, part, i) ==> !is_host_char(s[i - 1])
}

// -- Positions --------------------------------------------------------------

proof fn lemma_char_at(s: Seq<char>, pattern: Seq<char>, i: int, k: int)
    requires
        text::stands_at(s, pattern, i),
        0 <= k < pattern.len(),
    ensures
        s[i + k] == pattern[k],
{
    assert(s.subrange(i, i + pattern.len())[k] == s[i + k]);
}

/// What stands in a part of a text stands in the text, and the other way
/// round.
proof fn lemma_stands_within(
    whole: Seq<char>,
    before: int,
    inner: Seq<char>,
    pattern: Seq<char>,
    i: int,
)
    requires
        0 <= before,
        before + inner.len() <= whole.len(),
        inner == whole.subrange(before, before + inner.len()),
        0 <= i,
        i + pattern.len() <= inner.len(),
    ensures
        text::stands_at(inner, pattern, i) == text::stands_at(whole, pattern, before + i),
{
    assert(inner.subrange(i, i + pattern.len()) =~= whole.subrange(
        before + i,
        before + i + pattern.len(),
    ));
}

proof fn lemma_find_in_rest(s: Seq<char>, pattern: Seq<char>, from: int, k: int)
    requires
        0 <= from <= s.len(),
        0 <= k,
    ensures
        text::find_from(s.skip(from), pattern, k) == (match text::find_from(s, pattern, from + k) {
            Some(at) => Some(at - from),
            None => None,
        }),
    decreases s.len() + 1 - from - k,
{
    let rest = s.skip(from);
    if k + pattern.len() <= rest.len() {
        assert(rest =~= s.subrange(from, from + rest.len()));
        lemma_stands_within(s, from, rest, pattern, k);
        if !text::stands_at(rest, pattern, k) {
            lemma_find_in_rest(s, pattern, from, k + 1);
        }
    }
}

proof fn lemma_substituted_in_rest(
    s: Seq<char>,
    pattern: Seq<char>,
    with: Seq<char>,
    from: int,
    k: int,
)
    requires
        0 <= from,
        0 <= k,
        from + k <= s.len(),
        pattern.len() > 0,
    ensures
        text::substituted_from(s.skip(from), pattern, with, k) == text::substituted_from(
            s,
            pattern,
            with,
            from + k,
        ),
    decreases s.len() - from - k,
{
    let rest = s.skip(from);
    lemma_find_in_rest(s, pattern, from, k);
    text::lemma_find_from(s, pattern, from + k);
    match text::find_from(s, pattern, from + k) {
        None => {
            assert(rest.subrange(k, rest.len() as int) =~= s.subrange(from + k, s.len() as int));
        },
        Some(at) => {
            lemma_substituted_in_rest(s, pattern, with, from, at - from + pattern.len());
            assert(rest.subrange(k, at - from) =~= s.subrange(from + k, at));
        },
    }
}

/// A replacement, step by step: what stands before the first pattern, the
/// replacement, and what the rest becomes.
proof fn lemma_substituted_step(s: Seq<char>, pattern: Seq<char>, with: Seq<char>)
    requires
        pattern.len() > 0,
    ensures
        match text::find(s, pattern) {
            None => text::substituted(s, pattern, with) == s,
            Some(at) => text::substituted(s, pattern, with) == s.take(at) + with
                + text::substituted(s.skip(at + pattern.len()), pattern, with),
        },
{
    text::lemma_find_from(s, pattern, 0);
    match text::find(s, pattern) {
        None => {
            assert(s.subrange(0, s.len() as int) =~= s);
        },
        Some(at) => {
            lemma_substituted_in_rest(s, pattern, with, at + pattern.len(), 0);
            assert(s.subrange(0, at) =~= s.take(at));
        },
    }
}

// -- Parts ------------------------------------------------------------------

/// True for a part that ends at a line end or a semicolon and holds neither
/// before.
spec fn is_part(part: Seq<char>) -> bool {
    &&& part.len() > 0
    &&& part.last() == '\n' || part.last() == ';'
    &&& forall|k: int|
        0 <= k < part.len() - 1 ==> (#[trigger] part[k]) != '\n' && part[k] != ';'
}

/// True for a host name of small letters and dots.
spec fn is_host(host: Seq<char>) -> bool {
    host.len() > 8 && forall|k: int| 0 <= k < host.len() ==> is_host_char(#[trigger] host[k])
}

/// Parts that overlap end together.
proof fn lemma_parts_end_together(s: Seq<char>, x: Seq<char>, j: int, p: Seq<char>, at: int)
    requires
        is_part(x),
        is_part(p),
        text::stands_at(s, x, j),
        text::stands_at(s, p, at),
        j < at + p.len(),
        at < j + x.len(),
    ensures
        j + x.len() == at + p.len(),
{
    if j + x.len() < at + p.len() {
        let k = j + x.len() - 1 - at;
        lemma_char_at(s, x, j, x.len() - 1);
        lemma_char_at(s, p, at, k);
        assert(p[k] == x.last());
    } else if at + p.len() < j + x.len() {
        let k = at + p.len() - 1 - j;
        lemma_char_at(s, p, at, p.len() - 1);
        lemma_char_at(s, x, j, k);
        assert(x[k] == p.last());
    }
}

/// True when the first part can be told from the others: none of them ends
/// with it.
spec fn are_parts(parts: Seq<Seq<char>>) -> bool {
    &&& parts.len() > 0
    &&& forall|m: int| 0 <= m < parts.len() ==> is_part(#[trigger] parts[m])
    &&& forall|m: int| 1 <= m < parts.len() ==> !text::ends_with(#[trigger] parts[m], parts[0])
}

/// A part that overlaps the first part does not begin before it.
proof fn lemma_no_part_begins_before(
    s: Seq<char>,
    parts: Seq<Seq<char>>,
    m: int,
    j: int,
    at: int,
)
    requires
        are_parts(parts),
        0 <= m < parts.len(),
        text::stands_at(s, parts[m], j),
        text::stands_at(s, parts[0], at),
        j < at + parts[0].len(),
        at < j + parts[m].len(),
    ensures
        at <= j,
{
    let x = parts[m];
    let p = parts[0];
    lemma_parts_end_together(s, x, j, p, at);
    if j < at {
        let tail = x.len() - p.len();
        let end = x.subrange(tail, tail + p.len());
        assert forall|k: int| 0 <= k < p.len() implies #[trigger] end[k] == p[k] by {
            lemma_char_at(s, x, j, tail + k);
            lemma_char_at(s, p, at, k);
        }
        assert(end =~= p);
        assert(text::ends_with(x, p));
    }
}

/// How the first part is replaced: by nothing, where it stands apart; or by a text that begins as the part does, up to a space, that
/// ends with a semicolon, and that does not name the host.
spec fn is_replacement(s: Seq<char>, host: Seq<char>, p: Seq<char>, with: Seq<char>, c: int) -> bool {
    if with.len() == 0 {
        stands_apart(s, p)
    } else {
        &&& 0 < c <= with.len()
        &&& c <= p.len()
        &&& with.take(c) == p.take(c)
        &&& with[c - 1] == ' '
        &&& with.last() == ';'
        &&& !names(with, host)
    }
}

proof fn lemma_rest_is_covered(s: Seq<char>, host: Seq<char>, parts: Seq<Seq<char>>, at: int)
    requires
        is_host(host),
        are_parts(parts),
        is_covered(s, host, parts),
        text::stands_at(s, parts[0], at),
    ensures
        is_covered(s.skip(at + parts[0].len()), host, parts),
{
    let p = parts[0];
    let e = at + p.len();
    let rest = s.skip(e);
    let n = host.len() as int;
    assert(rest =~= s.subrange(e, e + rest.len()));
    assert forall|i: int| #[trigger] text::stands_at(rest, host, i) implies lies_in(
        rest,
        parts,
        i,
        n,
    ) by {
        lemma_stands_within(s, e, rest, host, i);
        assert(text::stands_at(s, host, e + i));
        let (m, j) = choose|m: int, j: int|
            0 <= m < parts.len() && #[trigger] text::stands_at(s, parts[m], j) && j <= e + i && e
                + i + n <= j + parts[m].len();
        if j < e {
            lemma_parts_end_together(s, parts[m], j, p, at);
        }
        lemma_stands_within(s, e, rest, parts[m], j - e);
        assert(text::stands_at(rest, parts[m], j - e));
    }
}

/// Replacing every first part leaves the host only in the other parts.
proof fn lemma_replacement_uncovers_nothing(
    s: Seq<char>,
    host: Seq<char>,
    parts: Seq<Seq<char>>,
    with: Seq<char>,
    c: int,
)
    requires
        is_host(host),
        are_parts(parts),
        is_covered(s, host, parts),
        is_replacement(s, host, parts[0], with, c),
    ensures
        is_covered(text::substituted(s, parts[0], with), host, parts.skip(1)),
    decreases s.len(),
{
    let p = parts[0];
    let others = parts.skip(1);
    let n = host.len() as int;
    let r = text::substituted(s, p, with);
    lemma_substituted_step(s, p, with);
    text::lemma_find_from(s, p, 0);
    match text::find(s, p) {
        None => {
            assert forall|i: int| #[trigger] text::stands_at(r, host, i) implies lies_in(
                r,
                others,
                i,
                n,
            ) by {
                let (m, j) = choose|m: int, j: int|
                    0 <= m < parts.len() && #[trigger] text::stands_at(s, parts[m], j) && j <= i
                        && i + n <= j + parts[m].len();
                assert(m != 0);
                assert(others[m - 1] == parts[m]);
                assert(text::stands_at(r, others[m - 1], j));
            }
        },
        Some(at) => {
            let e = at + p.len();
            let head = s.take(at);
            let rest = s.skip(e);
            let done = text::substituted(rest, p, with);
            lemma_rest_is_covered(s, host, parts, at);
            assert(is_replacement(rest, host, p, with, c)) by {
                if with.len() == 0 {
                    assert forall|i: int| 0 < i && #[trigger] text::stands_at(
                        rest,
                        p,
                        i,
                    ) implies !is_host_char(rest[i - 1]) by {
                        assert(rest =~= s.subrange(e, e + rest.len()));
                        lemma_stands_within(s, e, rest, p, i);
                        assert(text::stands_at(s, p, e + i));
                    }
                }
            }
            lemma_replacement_uncovers_nothing(rest, host, parts, with, c);
            assert forall|i: int| #[trigger] text::stands_at(r, host, i) implies lies_in(
                r,
                others,
                i,
                n,
            ) by {
                lemma_where_it_stands(s, host, parts, with, c, at, i);
            }
        },
    }
}

/// Where the host stands after the first part was replaced once: in another
/// part before it, or in what the rest became.
#[verifier::rlimit(30)]
proof fn lemma_where_it_stands(
    s: Seq<char>,
    host: Seq<char>,
    parts: Seq<Seq<char>>,
    with: Seq<char>,
    c: int,
    at: int,
    i: int,
)
    requires
        is_host(host),
        are_parts(parts),
        is_covered(s, host, parts),
        is_replacement(s, host, parts[0], with, c),
        text::find(s, parts[0]) == Some(at),
        text::stands_at(text::substituted(s, parts[0], with), host, i),
        is_covered(
            text::substituted(s.skip(at + parts[0].len()), parts[0], with),
            host,
            parts.skip(1),
        ),
    ensures
        lies_in(
            text::substituted(s, parts[0], with),
            parts.skip(1),
            i,
            host.len() as int,
        ),
{
    let p = parts[0];
    let others = parts.skip(1);
    let n = host.len() as int;
    let head = s.take(at);
    let done = text::substituted(s.skip(at + p.len()), p, with);
    let r = text::substituted(s, p, with);
    lemma_substituted_step(s, p, with);
    text::lemma_find_from(s, p, 0);
    assert(r == head + with + done);
    let start = at + with.len();
    assert(done =~= r.subrange(start, start + done.len()));
    assert(head =~= r.subrange(0, head.len() as int));
    assert(head =~= s.subrange(0, head.len() as int));
    if i >= start {
        lemma_stands_within(r, start, done, host, i - start);
        let (m, j) = choose|m: int, j: int|
            0 <= m < others.len() && #[trigger] text::stands_at(done, others[m], j) && j <= i
                - start && i - start + n <= j + others[m].len();
        lemma_stands_within(r, start, done, others[m], j);
        assert(text::stands_at(r, others[m], start + j));
    } else if i + n <= at {
        lemma_stands_within(r, 0, head, host, i);
        lemma_stands_within(s, 0, head, host, i);
        assert(text::stands_at(s, host, i));
        let (m, j) = choose|m: int, j: int|
            0 <= m < parts.len() && #[trigger] text::stands_at(s, parts[m], j) && j <= i && i + n
                <= j + parts[m].len();
        if at < j + parts[m].len() {
            lemma_no_part_begins_before(s, parts, m, j, at);
        }
        assert(m != 0);
        assert(others[m - 1] == parts[m]);
        lemma_stands_within(r, 0, head, parts[m], j);
        lemma_stands_within(s, 0, head, parts[m], j);
        assert(text::stands_at(r, others[m - 1], j));
    } else if with.len() == 0 {
        // The host would hold the character before the part.
        lemma_char_at(r, host, i, at - 1 - i);
        assert(text::stands_at(s, p, at));
        assert(r[at - 1] == s[at - 1]);
    } else if i + n > start {
        // The host would hold the semicolon of the replacement.
        lemma_char_at(r, host, i, start - 1 - i);
        assert(r[start - 1] == with.last());
    } else if i >= at {
        assert(with =~= r.subrange(at, at + with.len()));
        lemma_stands_within(r, at, with, host, i - at);
        assert(text::stands_at(with, host, i - at));
    } else if i + n >= at + c {
        // The host would hold the space in the replacement.
        lemma_char_at(r, host, i, at + c - 1 - i);
        assert(r[at + c - 1] == with[c - 1]);
    } else {
        // The host would stand there before the replacement.
        let same = s.take(at + c);
        assert(same =~= r.subrange(0, at + c)) by {
            assert forall|k: int| 0 <= k < at + c implies #[trigger] same[k] == r.subrange(0, at + c)[k] by {
                if k >= at {
                    assert(with.take(c)[k - at] == p.take(c)[k - at]);
                    lemma_char_at(s, p, at, k - at);
                }
            }
        }
        assert(same =~= s.subrange(0, at + c));
        lemma_stands_within(r, 0, same, host, i);
        lemma_stands_within(s, 0, same, host, i);
        assert(text::stands_at(s, host, i));
        let (m, j) = choose|m: int, j: int|
            0 <= m < parts.len() && #[trigger] text::stands_at(s, parts[m], j) && j <= i && i + n
                <= j + parts[m].len();
        lemma_no_part_begins_before(s, parts, m, j, at);
    }
}

/// Taking out the first part leaves the second part apart: nothing grows
/// together to it.
#[verifier::rlimit(30)]
proof fn lemma_removal_keeps_apart(s: Seq<char>, host: Seq<char>, parts: Seq<Seq<char>>, k: int)
    requires
        is_host(host),
        are_parts(parts),
        parts.len() > 1,
        are_parts(parts.skip(1)),
        is_covered(s, host, parts),
        stands_apart(s, parts[0]),
        stands_apart(s, parts[1]),
        text::stands_at(parts[1], host, k),
        forall|m: int| 2 <= m < parts.len() ==> (#[trigger] parts[m]).last() != parts[1].last(),
    ensures
        stands_apart(text::substituted(s, parts[0], Seq::empty()), parts[1]),
    decreases s.len(),
{
    let none = Seq::<char>::empty();
    let p = parts[0];
    let x = parts[1];
    let r = text::substituted(s, p, none);
    lemma_substituted_step(s, p, none);
    text::lemma_find_from(s, p, 0);
    if let Some(at) = text::find(s, p) {
        let e = at + p.len();
        let head = s.take(at);
        let rest = s.skip(e);
        let done = text::substituted(rest, p, none);
        assert(r =~= head + done);
        assert(rest =~= s.subrange(e, e + rest.len()));
        assert forall|i: int| 0 < i && #[trigger] text::stands_at(
            rest,
            p,
            i,
        ) implies !is_host_char(rest[i - 1]) by {
            lemma_stands_within(s, e, rest, p, i);
            assert(text::stands_at(s, p, e + i));
        }
        assert forall|i: int| 0 < i && #[trigger] text::stands_at(
            rest,
            x,
            i,
        ) implies !is_host_char(rest[i - 1]) by {
            lemma_stands_within(s, e, rest, x, i);
            assert(text::stands_at(s, x, e + i));
        }
        lemma_rest_is_covered(s, host, parts, at);
        lemma_removal_keeps_apart(rest, host, parts, k);
        lemma_replacement_uncovers_nothing(rest, host, parts, none, 0);
        assert(done =~= r.subrange(at, at + done.len()));
        assert(head =~= r.subrange(0, head.len() as int));
        assert(head =~= s.subrange(0, head.len() as int));
        assert(text::stands_at(s, p, at));
        assert forall|i: int| 0 < i && #[trigger] text::stands_at(r, x, i) implies !is_host_char(
            r[i - 1],
        ) by {
            if i >= at {
                lemma_stands_within(r, at, done, x, i - at);
                assert(text::stands_at(done, x, i - at));
                if i > at {
                    assert(done[i - at - 1] == r[i - 1]);
                } else {
                    assert(r[at - 1] == s[at - 1]);
                }
            } else if i + x.len() <= at {
                lemma_stands_within(r, 0, head, x, i);
                lemma_stands_within(s, 0, head, x, i);
                assert(text::stands_at(s, x, i));
            } else {
                lemma_nothing_grows_together(s, host, parts, k, at, i);
            }
        }
    }
}

/// Where the first part is taken out, what stood around it does not make the
/// second part.
#[verifier::rlimit(30)]
proof fn lemma_nothing_grows_together(
    s: Seq<char>,
    host: Seq<char>,
    parts: Seq<Seq<char>>,
    k: int,
    at: int,
    i: int,
)
    requires
        is_host(host),
        are_parts(parts),
        parts.len() > 1,
        are_parts(parts.skip(1)),
        is_covered(s, host, parts),
        stands_apart(s, parts[0]),
        text::stands_at(parts[1], host, k),
        forall|m: int| 2 <= m < parts.len() ==> (#[trigger] parts[m]).last() != parts[1].last(),
        text::stands_at(s, parts[0], at),
        is_covered(
            text::substituted(s.skip(at + parts[0].len()), parts[0], Seq::empty()),
            host,
            parts.skip(1),
        ),
        0 <= i < at,
    ensures
        ({
            let done = text::substituted(s.skip(at + parts[0].len()), parts[0], Seq::empty());
            text::stands_at(s.take(at) + done, parts[1], i) ==> i + parts[1].len() <= at
        }),
{
    let p = parts[0];
    let x = parts[1];
    let n = host.len() as int;
    let head = s.take(at);
    let done = text::substituted(s.skip(at + p.len()), p, Seq::empty());
    let r = head + done;
    if text::stands_at(r, x, i) && i + x.len() > at {
        let d = at - 1 - i;
        lemma_char_at(r, x, i, d);
        assert(r[at - 1] == s[at - 1]);
        if k <= d < k + n {
            lemma_char_at(x, host, k, d - k);
        }
        assert(x =~= r.subrange(i, i + x.len()));
        lemma_stands_within(r, i, x, host, k);
        assert(done =~= r.subrange(at, at + done.len()));
        assert(head =~= r.subrange(0, head.len() as int));
        assert(head =~= s.subrange(0, head.len() as int));
        assert(x == parts.skip(1)[0]);
        if d < k {
            lemma_stands_within(r, at, done, host, i + k - at);
            assert(text::stands_at(done, host, i + k - at));
            let others = parts.skip(1);
            let (m, j) = choose|m: int, j: int|
                0 <= m < others.len() && #[trigger] text::stands_at(done, others[m], j) && j <= i
                    + k - at && i + k - at + n <= j + others[m].len();
            lemma_stands_within(r, at, done, others[m], j);
            lemma_parts_end_together(r, x, i, others[m], at + j);
            lemma_char_at(r, x, i, x.len() - 1);
            lemma_char_at(r, others[m], at + j, others[m].len() - 1);
            assert(others[m] == parts[m + 1]);
        } else {
            lemma_stands_within(r, 0, head, host, i + k);
            lemma_stands_within(s, 0, head, host, i + k);
            assert(text::stands_at(s, host, i + k));
            let (m, j) = choose|m: int, j: int|
                0 <= m < parts.len() && #[trigger] text::stands_at(s, parts[m], j) && j <= i + k
                    && i + k + n <= j + parts[m].len();
            if j + parts[m].len() > at {
                lemma_no_part_begins_before(s, parts, m, j, at);
            }
            lemma_stands_within(s, 0, head, parts[m], j);
            lemma_stands_within(r, 0, head, parts[m], j);
            lemma_parts_end_together(r, x, i, parts[m], j);
        }
    }
}

// -- The link ---------------------------------------------------------------

/// True for a part that opens a tag nowhere but at its start and closes one
/// nowhere but at its end.
spec fn is_one_tag(part: Seq<char>) -> bool {
    &&& is_part(part)
    &&& forall|k: int| 0 < k < part.len() ==> (#[trigger] part[k]) != '<'
    &&& forall|k: int| 0 <= k < part.len() - 2 ==> (#[trigger] part[k]) != '>'
}

/// True for a hint: a link that names one of the hosts before its end.
spec fn is_hint(part: Seq<char>) -> bool {
    &&& is_one_tag(part)
    &&& part.len() > 1 && part[0] == '<' && part[1] == 'l' && part.last() == '\n'
    &&& names(part.drop_last(), STYLE_HOST@) || names(part.drop_last(), FONT_HOST@)
}

/// The style element that takes the place of a font link.
spec fn style_element(css: Seq<char>) -> Seq<char> {
    "<style>\n"@ + css + "\n</style>"@
}

/// The page with the style element in place of its font link.
spec fn swapped(s: Seq<char>, span: export::LinkSpan, css: Seq<char>) -> Seq<char> {
    s.take(span.start) + style_element(css) + s.skip(span.end)
}

/// A font link begins and ends with its tag.
proof fn lemma_link_span(s: Seq<char>)
    ensures
        export::link_span(s) matches Some(span) ==> 0 <= span.start < span.end <= s.len()
            && s[span.start] == '<' && s[span.end - 1] == '>',
{
    reveal_strlit("<link rel=\"stylesheet\" href=\"https://fonts.googleapis.com/");
    text::lemma_find_from(s, export::FONT_LINK_PREFIX@, 0);
    if let Some(start) = text::find(s, export::FONT_LINK_PREFIX@) {
        lemma_char_at(s, export::FONT_LINK_PREFIX@, start, 0);
        text::lemma_find_char_from(s, '"', start + 29);
        if let Some(url_end) = text::find_char_from(s, '"', start + 29) {
            text::lemma_find_char_from(s, '>', url_end);
        }
    }
}

proof fn lemma_style_element(css: Seq<char>)
    ensures
        ({
            let m = style_element(css);
            let n = css.len() as int;
            &&& m.len() == n + 17
            &&& m[0] == '<' && m[1] == 's' && m[7] == '\n'
            &&& forall|k: int| 1 <= k < 8 ==> (#[trigger] m[k]) != '<'
            &&& css == m.subrange(8, 8 + n)
            &&& m[8 + n] == '\n' && m[9 + n] == '<' && m[10 + n] == '/' && m[16 + n] == '>'
            &&& forall|k: int| 10 + n <= k < 17 + n ==> (#[trigger] m[k]) != '<'
        }),
{
    reveal_strlit("<style>\n");
    reveal_strlit("\n</style>");
    let m = style_element(css);
    assert(css =~= m.subrange(8, 8 + css.len() as int));
}

/// A page with the style element in place of its link names the host only in
/// the hints and the policy.
#[verifier::rlimit(30)]
proof fn lemma_swap_covers(s: Seq<char>, css: Seq<char>, host: Seq<char>)
    requires
        is_host(host),
        names_only_there(s, host),
        !names(css, host),
        forall|m: int| 0 <= m < online_parts().len() ==> is_one_tag(#[trigger] online_parts()[m]),
    ensures
        is_covered(swapped(s, export::link_span(s)->0, css), host, online_parts()),
{
    let span = export::link_span(s)->0;
    let parts = online_parts();
    let n = host.len() as int;
    let head = s.take(span.start);
    let element = style_element(css);
    let rest = s.skip(span.end);
    let t = swapped(s, span, css);
    let a = head.len() as int;
    let b = a + element.len();
    lemma_link_span(s);
    lemma_style_element(css);
    assert(head =~= t.subrange(0, a));
    assert(head =~= s.subrange(0, a));
    assert(element =~= t.subrange(a, a + element.len()));
    assert(rest =~= t.subrange(b, b + rest.len()));
    assert(rest =~= s.subrange(span.end, span.end + rest.len()));
    assert forall|i: int| #[trigger] text::stands_at(t, host, i) implies lies_in(t, parts, i, n) by {
        if i + n <= a {
            lemma_stands_within(t, 0, head, host, i);
            lemma_stands_within(s, 0, head, host, i);
            assert(text::stands_at(s, host, i));
            let (m, j) = choose|m: int, j: int|
                0 <= m < parts.len() && #[trigger] text::stands_at(s, parts[m], j) && j <= i && i
                    + n <= j + parts[m].len();
            if j + parts[m].len() > a {
                lemma_char_at(s, parts[m], j, a - j);
            }
            lemma_stands_within(s, 0, head, parts[m], j);
            lemma_stands_within(t, 0, head, parts[m], j);
            assert(text::stands_at(t, parts[m], j));
        } else if i >= b {
            let was = i - b + span.end;
            lemma_stands_within(t, b, rest, host, i - b);
            lemma_stands_within(s, span.end, rest, host, i - b);
            assert(text::stands_at(s, host, was));
            let (m, j) = choose|m: int, j: int|
                0 <= m < parts.len() && #[trigger] text::stands_at(s, parts[m], j) && j <= was
                    && was + n <= j + parts[m].len();
            if j < span.end {
                lemma_char_at(s, parts[m], j, span.end - 1 - j);
            }
            lemma_stands_within(s, span.end, rest, parts[m], j - span.end);
            lemma_stands_within(t, b, rest, parts[m], j - span.end);
            assert(text::stands_at(t, parts[m], b + (j - span.end)));
        } else {
            let css_start = a + 8;
            let css_end = css_start + css.len();
            assert(t[a] == element[0]);
            assert(t[a + 7] == element[7]);
            assert(t[css_end] == element[8 + css.len() as int]);
            assert(t[b - 1] == element[16 + css.len() as int]);
            if i <= a {
                lemma_char_at(t, host, i, a - i);
            } else if i <= a + 7 {
                lemma_char_at(t, host, i, a + 7 - i);
            } else if i + n <= css_end {
                assert(css =~= t.subrange(css_start, css_start + css.len()));
                lemma_stands_within(t, css_start, css, host, i - css_start);
                assert(text::stands_at(css, host, i - css_start));
            } else if i <= css_end {
                lemma_char_at(t, host, i, css_end - i);
            } else {
                lemma_char_at(t, host, i, b - 1 - i);
            }
        }
    }
}

/// A page with the style element in place of its link has its hints apart,
/// as before.
#[verifier::rlimit(30)]
proof fn lemma_swap_keeps_apart(s: Seq<char>, css: Seq<char>, hint: Seq<char>)
    requires
        export::link_span(s) is Some,
        is_hint(hint),
        stands_apart(s, hint),
        !names(css, STYLE_HOST@),
        !names(css, FONT_HOST@),
    ensures
        stands_apart(swapped(s, export::link_span(s)->0, css), hint),
{
    let span = export::link_span(s)->0;
    let head = s.take(span.start);
    let element = style_element(css);
    let rest = s.skip(span.end);
    let t = swapped(s, span, css);
    let a = head.len() as int;
    let b = a + element.len();
    let n = hint.len() as int;
    lemma_link_span(s);
    lemma_style_element(css);
    assert(head =~= t.subrange(0, a));
    assert(head =~= s.subrange(0, a));
    assert(element =~= t.subrange(a, a + element.len()));
    assert(rest =~= t.subrange(b, b + rest.len()));
    assert(rest =~= s.subrange(span.end, span.end + rest.len()));
    assert(t[b - 1] == element[element.len() - 1]);
    assert forall|i: int| 0 < i && #[trigger] text::stands_at(t, hint, i) implies !is_host_char(
        t[i - 1],
    ) by {
        lemma_char_at(t, hint, i, 0);
        lemma_char_at(t, hint, i, 1);
        if i + n <= a {
            lemma_stands_within(t, 0, head, hint, i);
            lemma_stands_within(s, 0, head, hint, i);
            assert(text::stands_at(s, hint, i));
        } else if i < a {
            lemma_char_at(t, hint, i, a - i);
            assert(t[a] == element[0]);
        } else if i >= b {
            lemma_stands_within(t, b, rest, hint, i - b);
            lemma_stands_within(s, span.end, rest, hint, i - b);
            assert(text::stands_at(s, hint, span.end + (i - b)));
            assert(i > b ==> t[i - 1] == s[span.end + (i - b) - 1]);
        } else {
            lemma_no_hint_in_element(t, a, css, hint, i);
        }
    }
}

/// No hint begins inside the style element.
proof fn lemma_no_hint_in_element(t: Seq<char>, a: int, css: Seq<char>, hint: Seq<char>, i: int)
    requires
        is_hint(hint),
        0 <= a,
        a + style_element(css).len() <= t.len(),
        style_element(css) == t.subrange(a, a + style_element(css).len()),
        !names(css, STYLE_HOST@),
        !names(css, FONT_HOST@),
        a <= i < a + style_element(css).len(),
    ensures
        !text::stands_at(t, hint, i),
{
    let element = style_element(css);
    let n = css.len() as int;
    let k = i - a;
    lemma_style_element(css);
    assert(element[k] == t[i]);
    if text::stands_at(t, hint, i) {
        lemma_char_at(t, hint, i, 0);
        lemma_char_at(t, hint, i, 1);
        if k == 0 {
            assert(element[1] == t[i + 1]);
        } else if k >= 8 + n {
            assert(k == 9 + n);
            assert(element[10 + n] == t[i + 1]);
        } else if k >= 8 {
            let css_start = a + 8;
            let css_end = css_start + n;
            assert(element[8 + n] == t[css_end]);
            if i + hint.len() - 1 > css_end {
                lemma_char_at(t, hint, i, css_end - i);
                assert(hint[css_end - i] == '\n');
            } else {
                assert(css =~= t.subrange(css_start, css_start + css.len()));
                lemma_hint_in(t, css, css_start, hint, i);
            }
        }
    }
}

/// A text that a hint stands in, but for its line end, names its host.
proof fn lemma_hint_in(t: Seq<char>, css: Seq<char>, start: int, hint: Seq<char>, i: int)
    requires
        is_hint(hint),
        text::stands_at(t, hint, i),
        0 <= start <= i,
        start + css.len() <= t.len(),
        css == t.subrange(start, start + css.len()),
        i + hint.len() - 1 <= start + css.len(),
    ensures
        names(css, STYLE_HOST@) || names(css, FONT_HOST@),
{
    let short = hint.drop_last();
    let host = if names(short, STYLE_HOST@) {
        STYLE_HOST@
    } else {
        FONT_HOST@
    };
    let k = choose|k: int| text::stands_at(short, host, k);
    assert(t.subrange(i, i + hint.len()) == hint);
    assert(short =~= t.subrange(i, i + short.len()));
    lemma_stands_within(t, i, short, host, k);
    lemma_stands_within(t, start, css, host, i + k - start);
    assert(text::stands_at(css, host, i + k - start));
}

// -- The law ----------------------------------------------------------------

proof fn lemma_hosts()
    ensures
        is_host(STYLE_HOST@),
        is_host(FONT_HOST@),
        STYLE_HOST@[5] == '.',
        FONT_HOST@[5] == '.',
{
    reveal_strlit("fonts.googleapis.com");
    reveal_strlit("fonts.gstatic.com");
}

proof fn lemma_style_hint()
    ensures
        is_hint(PRECONNECT_STYLES@),
        PRECONNECT_STYLES@.len() > 3,
        PRECONNECT_STYLES@[PRECONNECT_STYLES@.len() - 3] == '"',
{
    reveal_strlit("<link rel=\"preconnect\" href=\"https://fonts.googleapis.com\">\n");
    reveal_strlit("fonts.googleapis.com");
    let short = PRECONNECT_STYLES@.drop_last();
    assert(short.subrange(37, 57) =~= STYLE_HOST@);
    assert(text::stands_at(short, STYLE_HOST@, 37));
}

proof fn lemma_font_hint()
    ensures
        is_hint(PRECONNECT_FONTS@),
        PRECONNECT_FONTS@.len() > 3,
        PRECONNECT_FONTS@[PRECONNECT_FONTS@.len() - 3] == 'n',
        text::stands_at(PRECONNECT_FONTS@, FONT_HOST@, 37),
{
    reveal_strlit("<link rel=\"preconnect\" href=\"https://fonts.gstatic.com\" crossorigin>\n");
    reveal_strlit("fonts.gstatic.com");
    let short = PRECONNECT_FONTS@.drop_last();
    assert(short.subrange(37, 54) =~= FONT_HOST@);
    assert(text::stands_at(short, FONT_HOST@, 37));
    assert(PRECONNECT_FONTS@.subrange(37, 54) =~= FONT_HOST@);
}

proof fn lemma_style_sources(host: Seq<char>)
    requires
        is_host(host),
        host[5] == '.',
    ensures
        is_one_tag(ONLINE_STYLES@),
        ONLINE_STYLES@.last() == ';',
        ONLINE_STYLES@.len() > 6,
        ONLINE_STYLES@[ONLINE_STYLES@.len() - 6] == 's',
        forall|s: Seq<char>| #[trigger]
            is_replacement(s, host, ONLINE_STYLES@, OFFLINE_STYLES@, 10),
{
    reveal_strlit("style-src 'unsafe-inline' https://fonts.googleapis.com;");
    reveal_strlit("style-src 'unsafe-inline';");
    assert(OFFLINE_STYLES@.take(10) =~= ONLINE_STYLES@.take(10));
    assert forall|i: int| !#[trigger] text::stands_at(OFFLINE_STYLES@, host, i) by {
        if text::stands_at(OFFLINE_STYLES@, host, i) {
            lemma_char_at(OFFLINE_STYLES@, host, i, 5);
        }
    }
}

proof fn lemma_font_sources(host: Seq<char>)
    requires
        is_host(host),
        host[5] == '.',
    ensures
        is_one_tag(ONLINE_FONTS@),
        ONLINE_FONTS@.last() == ';',
        ONLINE_FONTS@.len() > 6,
        ONLINE_FONTS@[ONLINE_FONTS@.len() - 6] == 'c',
        forall|s: Seq<char>| #[trigger]
            is_replacement(s, host, ONLINE_FONTS@, OFFLINE_FONTS@, 9),
{
    reveal_strlit("font-src 'self' https://fonts.gstatic.com;");
    reveal_strlit("font-src 'self' data:;");
    assert(OFFLINE_FONTS@.take(9) =~= ONLINE_FONTS@.take(9));
    assert forall|i: int| !#[trigger] text::stands_at(OFFLINE_FONTS@, host, i) by {
        if text::stands_at(OFFLINE_FONTS@, host, i) {
            lemma_char_at(OFFLINE_FONTS@, host, i, 5);
        }
    }
}

/// A part does not end with another whose character so far from the end
/// differs.
proof fn lemma_ends_otherwise(x: Seq<char>, p: Seq<char>, k: int)
    requires
        0 < k <= x.len(),
        k <= p.len(),
        x[x.len() - k] != p[p.len() - k],
    ensures
        !text::ends_with(x, p),
{
    if text::ends_with(x, p) {
        lemma_char_at(x, p, x.len() - p.len(), p.len() - k);
    }
}

/// None of the parts ends with one before it.
proof fn lemma_online_parts(host: Seq<char>)
    requires
        is_host(host),
        host[5] == '.',
    ensures
        are_parts(online_parts()),
        are_parts(online_parts().skip(1)),
        are_parts(online_parts().skip(2)),
        are_parts(online_parts().skip(3)),
        forall|m: int| 0 <= m < online_parts().len() ==> is_one_tag(#[trigger] online_parts()[m]),
{
    lemma_style_hint();
    lemma_font_hint();
    lemma_style_sources(host);
    lemma_font_sources(host);
    lemma_ends_otherwise(PRECONNECT_FONTS@, PRECONNECT_STYLES@, 3);
    lemma_ends_otherwise(ONLINE_STYLES@, PRECONNECT_STYLES@, 1);
    lemma_ends_otherwise(ONLINE_FONTS@, PRECONNECT_STYLES@, 1);
    lemma_ends_otherwise(ONLINE_STYLES@, PRECONNECT_FONTS@, 1);
    lemma_ends_otherwise(ONLINE_FONTS@, PRECONNECT_FONTS@, 1);
    lemma_ends_otherwise(ONLINE_FONTS@, ONLINE_STYLES@, 6);
}

/// Once the hint of the stylesheets is taken out, the hint of the font files
/// still stands apart.
#[verifier::rlimit(30)]
proof fn lemma_font_hint_stays_apart(s: Seq<char>, css: Seq<char>)
    requires
        names_only_there(s, FONT_HOST@),
        stands_apart(s, PRECONNECT_STYLES@),
        stands_apart(s, PRECONNECT_FONTS@),
        !names(css, STYLE_HOST@),
        !names(css, FONT_HOST@),
    ensures
        stands_apart(
            text::substituted(
                swapped(s, export::link_span(s)->0, css),
                PRECONNECT_STYLES@,
                Seq::empty(),
            ),
            PRECONNECT_FONTS@,
        ),
{
    let host = FONT_HOST@;
    let page = swapped(s, export::link_span(s)->0, css);
    lemma_hosts();
    lemma_online_parts(host);
    lemma_style_hint();
    lemma_font_hint();
    lemma_style_sources(host);
    lemma_font_sources(host);
    lemma_swap_covers(s, css, host);
    lemma_swap_keeps_apart(s, css, PRECONNECT_STYLES@);
    lemma_swap_keeps_apart(s, css, PRECONNECT_FONTS@);
    lemma_removal_keeps_apart(page, host, online_parts(), 37);
}

/// One host is named nowhere in the page.
#[verifier::rlimit(30)]
proof fn lemma_host_is_gone(s: Seq<char>, css: Seq<char>, host: Seq<char>)
    requires
        is_host(host),
        host[5] == '.',
        names_only_there(s, host),
        names_only_there(s, FONT_HOST@),
        stands_apart(s, PRECONNECT_STYLES@),
        stands_apart(s, PRECONNECT_FONTS@),
        !names(css, STYLE_HOST@),
        !names(css, FONT_HOST@),
        !names(css, host),
    ensures
        !names(export::with_inline_fonts(s, css), host),
{
    let parts = online_parts();
    let none = Seq::<char>::empty();
    let span = export::link_span(s)->0;
    let page = swapped(s, span, css);
    lemma_online_parts(host);
    lemma_style_hint();
    lemma_font_hint();
    lemma_style_sources(host);
    lemma_font_sources(host);
    lemma_swap_covers(s, css, host);
    lemma_swap_keeps_apart(s, css, PRECONNECT_STYLES@);
    lemma_font_hint_stays_apart(s, css);
    assert(page =~= s.take(span.start) + "<style>\n"@ + css + "\n</style>"@ + s.skip(span.end));
    let first = text::substituted(page, PRECONNECT_STYLES@, none);
    lemma_replacement_uncovers_nothing(page, host, parts, none, 0);
    let second = text::substituted(first, PRECONNECT_FONTS@, none);
    lemma_replacement_uncovers_nothing(first, host, parts.skip(1), none, 0);
    assert(parts.skip(1).skip(1) =~= parts.skip(2));
    let third = text::substituted(second, ONLINE_STYLES@, OFFLINE_STYLES@);
    assert(is_replacement(second, host, ONLINE_STYLES@, OFFLINE_STYLES@, 10));
    lemma_replacement_uncovers_nothing(second, host, parts.skip(2), OFFLINE_STYLES@, 10);
    assert(parts.skip(2).skip(1) =~= parts.skip(3));
    let last = text::substituted(third, ONLINE_FONTS@, OFFLINE_FONTS@);
    assert(is_replacement(third, host, ONLINE_FONTS@, OFFLINE_FONTS@, 9));
    lemma_replacement_uncovers_nothing(third, host, parts.skip(3), OFFLINE_FONTS@, 9);
    assert(parts.skip(3).skip(1) =~= Seq::<Seq<char>>::empty());
    assert(export::with_inline_fonts(s, css) == last);
    assert forall|i: int| !#[trigger] text::stands_at(last, host, i) by {
        if text::stands_at(last, host, i) {
            assert(lies_in(last, parts.skip(3).skip(1), i, host.len() as int));
        }
    }
}

/// An exported page opens offline. Where a page names the font hosts only in
/// its font link, in the hints and in its policy, no hint stands right behind
/// what could be a piece of a host, and the stylesheet names neither host, the
/// page with the stylesheet in place of the link names neither.
pub proof fn law_an_exported_page_names_no_font_host(s: Seq<char>, css: Seq<char>)
    requires
        names_only_there(s, STYLE_HOST@),
        names_only_there(s, FONT_HOST@),
        stands_apart(s, PRECONNECT_STYLES@),
        stands_apart(s, PRECONNECT_FONTS@),
        !names(css, STYLE_HOST@),
        !names(css, FONT_HOST@),
    ensures
        !names(export::with_inline_fonts(s, css), STYLE_HOST@),
        !names(export::with_inline_fonts(s, css), FONT_HOST@),
{
    lemma_hosts();
    lemma_host_is_gone(s, css, STYLE_HOST@);
    lemma_host_is_gone(s, css, FONT_HOST@);
}

// -- The stylesheet ---------------------------------------------------------

/// True when the stylesheet `s`, from `cursor` on, names the host nowhere but
/// in the URLs of its font files.
pub open spec fn names_only_in_urls(s: Seq<char>, host: Seq<char>, cursor: int) -> bool
    decreases s.len() - cursor,
    via names_only_in_urls_decreases
{
    match export::next_url(s, cursor) {
        None => forall|i: int| cursor <= i ==> !#[trigger] text::stands_at(s, host, i),
        Some((start, end)) => {
            &&& forall|i: int| cursor <= i < start ==> !#[trigger] text::stands_at(s, host, i)
            &&& names_only_in_urls(s, host, end)
        },
    }
}

#[via_fn]
proof fn names_only_in_urls_decreases(s: Seq<char>, host: Seq<char>, cursor: int) {
    if cursor >= 0 {
        export::lemma_next_url(s, cursor);
    }
}

/// The URL of a font file stands between round brackets.
proof fn lemma_url_in_brackets(s: Seq<char>, cursor: int)
    requires
        0 <= cursor,
    ensures
        export::next_url(s, cursor) matches Some((start, end)) ==> cursor + 4 <= start <= end
            < s.len() && s[start - 1] == '(' && s[end] == ')',
{
    reveal_strlit("url(https://fonts.gstatic.com/");
    text::lemma_find_from(s, export::FONT_URL_PREFIX@, cursor);
    if let Some(found) = text::find_from(s, export::FONT_URL_PREFIX@, cursor) {
        lemma_char_at(s, export::FONT_URL_PREFIX@, found, 3);
        text::lemma_find_char_from(s, ')', found + 4);
    }
}

/// A text without a dot names no host.
proof fn lemma_no_dot_no_host(s: Seq<char>, host: Seq<char>, i: int)
    requires
        is_host(host),
        host[5] == '.',
        !s.contains('.'),
    ensures
        !text::stands_at(s, host, i),
{
    if text::stands_at(s, host, i) {
        lemma_char_at(s, host, i, 5);
        assert(s.contains(s[i + 5]));
    }
}

proof fn lemma_inlined_names_no_host(
    s: Seq<char>,
    host: Seq<char>,
    cursor: int,
    fonts: Seq<Vec<u8>>,
    k: int,
)
    requires
        is_host(host),
        host[5] == '.',
        0 <= cursor <= s.len(),
        names_only_in_urls(s, host, cursor),
    ensures
        !names(export::inlined_from(s, cursor, fonts, k), host),
        cursor < s.len() ==> export::inlined_from(s, cursor, fonts, k).len() > 0
            && export::inlined_from(s, cursor, fonts, k)[0] == s[cursor],
    decreases s.len() - cursor,
{
    let r = export::inlined_from(s, cursor, fonts, k);
    lemma_url_in_brackets(s, cursor);
    match export::next_url(s, cursor) {
        None => {
            assert(r =~= s.subrange(cursor, cursor + r.len()));
            assert forall|i: int| !#[trigger] text::stands_at(r, host, i) by {
                if text::stands_at(r, host, i) {
                    lemma_stands_within(s, cursor, r, host, i);
                    assert(text::stands_at(s, host, cursor + i));
                }
            }
        },
        Some((start, end)) => {
            let head = s.subrange(cursor, start);
            let data = "data:font/woff2;base64,"@ + encoding::base64_of(fonts[k]@);
            let rest = export::inlined_from(s, end, fonts, k + 1);
            lemma_inlined_names_no_host(s, host, end, fonts, k + 1);
            assert(r =~= head + data + rest);
            let a = head.len() as int;
            let b = a + data.len();
            assert(!data.contains('.')) by {
                reveal_strlit("data:font/woff2;base64,");
                encoding::lemma_no_dot(fonts[k]@);
                let fixed = "data:font/woff2;base64,"@;
                assert forall|j: int| 0 <= j < data.len() implies data[j] != '.' by {
                    if j < fixed.len() {
                        assert(data[j] == fixed[j]);
                    } else {
                        assert(data[j] == encoding::base64_of(fonts[k]@)[j - fixed.len()]);
                    }
                }
            }
            assert(data.len() > 0) by {
                reveal_strlit("data:font/woff2;base64,");
            }
            assert(head =~= s.subrange(cursor, cursor + a));
            assert(head =~= r.subrange(0, a));
            assert(data =~= r.subrange(a, a + data.len()));
            assert(rest =~= r.subrange(b, b + rest.len()));
            assert(r[a - 1] == s[start - 1]);
            assert(r[b] == rest[0]);
            assert forall|i: int| !#[trigger] text::stands_at(r, host, i) by {
                if text::stands_at(r, host, i) {
                    let n = host.len() as int;
                    if i + n <= a {
                        lemma_stands_within(r, 0, head, host, i);
                        lemma_stands_within(s, cursor, head, host, i);
                        assert(text::stands_at(s, host, cursor + i));
                    } else if i < a {
                        lemma_char_at(r, host, i, a - 1 - i);
                    } else if i >= b {
                        lemma_stands_within(r, b, rest, host, i - b);
                        assert(text::stands_at(rest, host, i - b));
                    } else if i + n > b {
                        lemma_char_at(r, host, i, b - i);
                    } else {
                        lemma_stands_within(r, a, data, host, i - a);
                        lemma_no_dot_no_host(data, host, i - a);
                    }
                }
            }
        },
    }
}

/// A stylesheet that names the font hosts only in the URLs of its font files
/// names neither once the files are inline.
pub proof fn law_inline_fonts_name_no_font_host(css: Seq<char>, fonts: Seq<Vec<u8>>)
    requires
        names_only_in_urls(css, STYLE_HOST@, 0),
        names_only_in_urls(css, FONT_HOST@, 0),
    ensures
        !names(export::inlined_from(css, 0, fonts, 0), STYLE_HOST@),
        !names(export::inlined_from(css, 0, fonts, 0), FONT_HOST@),
{
    lemma_hosts();
    lemma_inlined_names_no_host(css, STYLE_HOST@, 0, fonts, 0);
    lemma_inlined_names_no_host(css, FONT_HOST@, 0, fonts, 0);
}

} // verus!
