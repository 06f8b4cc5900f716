//! Escaping and unescaping of text in HTML and XML, and CSS-safe values.

use vstd::prelude::*;

use crate::text;
use crate::text::chars_of;

verus! {

/// `char::from_u32` gives the character of a code point, when it has one.
pub assume_specification[ char::from_u32 ](i: u32) -> (r: Option<char>)
    ensures
        match r {
            Some(c) => is_scalar(i as int) && c == i as char,
            None => !is_scalar(i as int),
        },
;

/// The code points that are characters: all but the surrogates.
pub open spec fn is_scalar(n: int) -> bool {
    0 <= n < 0xd800 || 0xe000 <= n <= 0x10ffff
}

// -- Escaping ---------------------------------------------------------------

/// One character as HTML text or a quoted HTML attribute holds it.
pub open spec fn html_char(c: char) -> Seq<char> {
    if c == '&' {
        "&amp;"@
    } else if c == '<' {
        "&lt;"@
    } else if c == '>' {
        "&gt;"@
    } else if c == '"' {
        "&quot;"@
    } else if c == '\'' {
        "&#39;"@
    } else {
        seq![c]
    }
}

/// `s` as HTML text or a quoted HTML attribute holds it.
pub open spec fn html_escaped(s: Seq<char>) -> Seq<char> {
    text::rewritten(s, |c: char| html_char(c))
}

/// One character as XML text or a quoted XML attribute holds it.
pub open spec fn xml_char(c: char) -> Seq<char> {
    if c == '&' {
        "&amp;"@
    } else if c == '<' {
        "&lt;"@
    } else if c == '>' {
        "&gt;"@
    } else if c == '"' {
        "&quot;"@
    } else if c == '\'' {
        "&apos;"@
    } else {
        seq![c]
    }
}

/// `s` as XML text or a quoted XML attribute holds it.
pub open spec fn xml_escaped(s: Seq<char>) -> Seq<char> {
    text::rewritten(s, |c: char| xml_char(c))
}

/// Escapes `text` for HTML text and quoted attributes.
pub fn escape_html(text: &str) -> (r: String)
    ensures
        r@ == html_escaped(text@),
{
    let chars = chars_of(text);
    let mut r = String::new();
    let mut i: usize = 0;
    while i < chars.len()
        invariant
            i <= chars@.len(),
            r@ == html_escaped(chars@.take(i as int)),
        decreases chars@.len() - i,
    {
        let c = chars[i];
        assert(chars@.take(i + 1).drop_last() =~= chars@.take(i as int));
        if c == '&' {
            r.append("&amp;");
        } else if c == '<' {
            r.append("&lt;");
        } else if c == '>' {
            r.append("&gt;");
        } else if c == '"' {
            r.append("&quot;");
        } else if c == '\'' {
            r.append("&#39;");
        } else {
            r.push(c);
            assert(r@ =~= html_escaped(chars@.take(i as int)) + seq![c]);
        }
        i += 1;
    }
    assert(chars@.take(i as int) =~= chars@);
    r
}

/// Escapes `text` for XML text and quoted attributes.
pub fn escape_xml(text: &str) -> (r: String)
    ensures
        r@ == xml_escaped(text@),
{
    let chars = chars_of(text);
    let mut r = String::new();
    let mut i: usize = 0;
    while i < chars.len()
        invariant
            i <= chars@.len(),
            r@ == xml_escaped(chars@.take(i as int)),
        decreases chars@.len() - i,
    {
        let c = chars[i];
        assert(chars@.take(i + 1).drop_last() =~= chars@.take(i as int));
        if c == '&' {
            r.append("&amp;");
        } else if c == '<' {
            r.append("&lt;");
        } else if c == '>' {
            r.append("&gt;");
        } else if c == '"' {
            r.append("&quot;");
        } else if c == '\'' {
            r.append("&apos;");
        } else {
            r.push(c);
            assert(r@ =~= xml_escaped(chars@.take(i as int)) + seq![c]);
        }
        i += 1;
    }
    assert(chars@.take(i as int) =~= chars@);
    r
}

/// True when `s` holds no character that could open or close a tag or end a
/// quoted attribute.
pub open spec fn is_inert(s: Seq<char>) -> bool {
    !s.contains('<') && !s.contains('>') && !s.contains('"') && !s.contains('\'')
}

/// Escaped text holds no tag and ends no quoted attribute.
pub proof fn law_escaped_text_is_inert(s: Seq<char>)
    ensures
        is_inert(html_escaped(s)),
        is_inert(xml_escaped(s)),
    decreases s.len(),
{
    if s.len() > 0 {
        law_escaped_text_is_inert(s.drop_last());
        let c = s.last();
        reveal_strlit("&amp;");
        reveal_strlit("&lt;");
        reveal_strlit("&gt;");
        reveal_strlit("&quot;");
        reveal_strlit("&#39;");
        reveal_strlit("&apos;");
        assert(is_inert(html_char(c)));
        assert(is_inert(xml_char(c)));
        assert forall|d: char|
            html_escaped(s).contains(d) == (html_escaped(s.drop_last()).contains(d) || html_char(
                c,
            ).contains(d)) by {
            lemma_contains_concat(html_escaped(s.drop_last()), html_char(c), d);
        }
        assert forall|d: char|
            xml_escaped(s).contains(d) == (xml_escaped(s.drop_last()).contains(d) || xml_char(
                c,
            ).contains(d)) by {
            lemma_contains_concat(xml_escaped(s.drop_last()), xml_char(c), d);
        }
    }
}

proof fn lemma_contains_concat(a: Seq<char>, b: Seq<char>, d: char)
    ensures
        (a + b).contains(d) == (a.contains(d) || b.contains(d)),
{
    if a.contains(d) {
        let i = choose|i: int| 0 <= i < a.len() && a[i] == d;
        assert((a + b)[i] == d);
    }
    if b.contains(d) {
        let i = choose|i: int| 0 <= i < b.len() && b[i] == d;
        assert((a + b)[a.len() + i] == d);
    }
}

// -- Entities ---------------------------------------------------------------

/// The value of a hexadecimal digit.
pub open spec fn hex_value(c: char) -> Option<int> {
    if '0' <= c <= '9' {
        Some((c as u32) - 48)
    } else if 'a' <= c <= 'f' {
        Some((c as u32) - 87)
    } else if 'A' <= c <= 'F' {
        Some((c as u32) - 55)
    } else {
        None
    }
}

/// The value of a text of digits, decimal or hexadecimal, `None` when it is
/// empty or holds anything else.
pub open spec fn based(s: Seq<char>, hex: bool) -> Option<int>
    decreases s.len(),
{
    if s.len() == 0 {
        None
    } else {
        match hex_value(s.last()) {
            Some(d) => if !hex && d >= 10 {
                None
            } else if s.len() == 1 {
                Some(d)
            } else {
                match based(s.drop_last(), hex) {
                    Some(n) => Some(
                        if hex {
                            n * 16 + d
                        } else {
                            n * 10 + d
                        },
                    ),
                    None => None,
                }
            },
            None => None,
        }
    }
}

/// The character an entity name stands for, without its `&` and `;`.
pub open spec fn entity(name: Seq<char>) -> Option<char> {
    if name == "amp"@ {
        Some('&')
    } else if name == "lt"@ {
        Some('<')
    } else if name == "gt"@ {
        Some('>')
    } else if name == "quot"@ {
        Some('"')
    } else if name == "apos"@ {
        Some('\'')
    } else if name == "nbsp"@ {
        Some('\u{a0}')
    } else if name.len() > 0 && name[0] == '#' {
        let code = if name.len() > 1 && (name[1] == 'x' || name[1] == 'X') {
            based(name.skip(2), true)
        } else {
            based(name.skip(1), false)
        };
        match code {
            Some(n) => if is_scalar(n) {
                Some(n as u32 as char)
            } else {
                None
            },
            None => None,
        }
    } else {
        None
    }
}

/// The entity that stands at `i`: its character and the position behind it.
pub open spec fn entity_at(s: Seq<char>, i: int) -> Option<(char, int)> {
    if 0 <= i < s.len() && s[i] == '&' {
        match text::find_char_from(s, ';', i) {
            Some(end) => match entity(s.subrange(i + 1, end)) {
                Some(c) => Some((c, end + 1)),
                None => None,
            },
            None => None,
        }
    } else {
        None
    }
}

/// `s` from position `i` with its entities decoded. Anything that is no
/// known entity stays as it is.
pub open spec fn decoded_from(s: Seq<char>, i: int) -> Seq<char>
    decreases s.len() - i,
{
    if i < 0 || i >= s.len() {
        Seq::empty()
    } else {
        match entity_at(s, i) {
            Some((c, next)) => if i < next <= s.len() {
                seq![c] + decoded_from(s, next)
            } else {
                Seq::empty()
            },
            None => seq![s[i]] + decoded_from(s, i + 1),
        }
    }
}

/// `s` with its entities decoded.
pub open spec fn decoded(s: Seq<char>) -> Seq<char> {
    decoded_from(s, 0)
}

/// True when there is a number and it exceeds `largest`.
spec fn exceeds(n: Option<int>, largest: int) -> bool {
    n matches Some(m) && m > largest
}

/// Reads `chars` from `from` to `end` as a number, up to the largest code
/// point.
fn read_based(chars: &[char], from: usize, end: usize, hex: bool) -> (r: Option<u32>)
    requires
        from <= end <= chars@.len(),
    ensures
        match r {
            Some(n) => based(chars@.subrange(from as int, end as int), hex) == Some(n as int) && n
                <= 0x10ffff,
            None => based(chars@.subrange(from as int, end as int), hex) matches Some(n) ==> n
                > 0x10ffff,
        },
{
    let ghost s = chars@.subrange(from as int, end as int);
    if from == end {
        return None;
    }
    let mut value: u32 = 0;
    let mut too_large = false;
    let mut i: usize = from;
    while i < end
        invariant
            from <= i <= end <= chars@.len(),
            from < end,
            s == chars@.subrange(from as int, end as int),
            i > from && !too_large ==> based(s.take(i - from), hex) == Some(value as int),
            i > from && too_large ==> exceeds(based(s.take(i - from), hex), 0x10ffff),
            i == from ==> value == 0 && !too_large,
            value <= 0x10ffff,
        decreases end - i,
    {
        let c = chars[i];
        let ghost k = i - from;
        assert(s[k] == c);
        assert(s.take(k + 1).drop_last() =~= s.take(k));
        assert(s.take(k + 1).last() == c);
        let d: u32 = if '0' <= c && c <= '9' {
            c as u32 - 48
        } else if 'a' <= c && c <= 'f' {
            c as u32 - 87
        } else if 'A' <= c && c <= 'F' {
            c as u32 - 55
        } else {
            16
        };
        if d == 16 || (!hex && d >= 10) {
            proof {
                lemma_based_needs_digits(s, k, hex);
            }
            return None;
        }
        if !too_large {
            let next: u32 = if hex {
                value * 16 + d
            } else {
                value * 10 + d
            };
            if next > 0x10ffff {
                too_large = true;
            } else {
                value = next;
            }
        }
        i += 1;
    }
    assert(s.take(end - from) =~= s);
    if too_large {
        None
    } else {
        Some(value)
    }
}

proof fn lemma_based_needs_digits(s: Seq<char>, k: int, hex: bool)
    requires
        0 <= k < s.len(),
        !(hex_value(s[k]) matches Some(d) && (hex || d < 10)),
    ensures
        based(s, hex) is None,
    decreases s.len(),
{
    if k < s.len() - 1 {
        lemma_based_needs_digits(s.drop_last(), k, hex);
    }
}

/// The character the entity name in `chars` from `from` to `end` stands for.
fn read_entity(chars: &[char], from: usize, end: usize) -> (r: Option<char>)
    requires
        from <= end <= chars@.len(),
    ensures
        r == entity(chars@.subrange(from as int, end as int)),
{
    let name = text::part(chars, from, end);
    if text::spells(&name, "amp") {
        return Some('&');
    }
    if text::spells(&name, "lt") {
        return Some('<');
    }
    if text::spells(&name, "gt") {
        return Some('>');
    }
    if text::spells(&name, "quot") {
        return Some('"');
    }
    if text::spells(&name, "apos") {
        return Some('\'');
    }
    if text::spells(&name, "nbsp") {
        return Some('\u{a0}');
    }
    if name.len() == 0 || name[0] != '#' {
        return None;
    }
    let code = if name.len() > 1 && (name[1] == 'x' || name[1] == 'X') {
        assert(name@.skip(2) =~= name@.subrange(2, name@.len() as int));
        read_based(&name, 2, name.len(), true)
    } else {
        assert(name@.skip(1) =~= name@.subrange(1, name@.len() as int));
        read_based(&name, 1, name.len(), false)
    };
    match code {
        Some(n) => char::from_u32(n),
        None => None,
    }
}

/// Decodes the HTML entities in `chars`.
pub fn decode_entities(chars: &[char]) -> (r: Vec<char>)
    ensures
        r@ == decoded(chars@),
{
    let mut r: Vec<char> = Vec::new();
    let mut i: usize = 0;
    while i < chars.len()
        invariant
            i <= chars@.len(),
            decoded(chars@) == r@ + decoded_from(chars@, i as int),
        decreases chars@.len() - i,
    {
        let ghost before = r@;
        let mut c = chars[i];
        let mut next: usize = i + 1;
        if c == '&' {
            if let Some(end) = text::find_char(chars, ';', i) {
                if let Some(known) = read_entity(chars, i + 1, end) {
                    c = known;
                    next = end + 1;
                }
            }
        }
        r.push(c);
        assert(before + (seq![c] + decoded_from(chars@, next as int)) =~= r@ + decoded_from(
            chars@,
            next as int,
        ));
        i = next;
    }
    assert(r@ + Seq::<char>::empty() =~= r@);
    r
}

// -- CSS values -------------------------------------------------------------

/// The characters a value may hold without ending its declaration, its
/// string, or its rule.
pub open spec fn is_css_safe(c: char) -> bool {
    c != '<' && c != '>' && c != '{' && c != '}' && c != ';' && c != '"' && c != '\'' && c != '\\'
}

/// `s` without the characters that could end a declaration, a string, or a
/// rule.
pub open spec fn css_safe_text(s: Seq<char>) -> Seq<char> {
    s.filter(|c: char| is_css_safe(c))
}

/// Keeps what is safe inside a CSS value.
pub fn css_safe(value: &str) -> (r: String)
    ensures
        r@ == css_safe_text(value@),
{
    let chars = chars_of(value);
    let mut r = String::new();
    let mut i: usize = 0;
    while i < chars.len()
        invariant
            i <= chars@.len(),
            r@ == css_safe_text(chars@.take(i as int)),
        decreases chars@.len() - i,
    {
        let c = chars[i];
        proof {
            reveal(Seq::filter);
            assert(chars@.take(i + 1).drop_last() =~= chars@.take(i as int));
        }
        if c != '<' && c != '>' && c != '{' && c != '}' && c != ';' && c != '"' && c != '\'' && c
            != '\\' {
            r.push(c);
        }
        i += 1;
    }
    assert(chars@.take(i as int) =~= chars@);
    r
}

// -- Escaping and decoding --------------------------------------------------

/// Decoding undoes escaping: a text escaped for HTML reads back as it was.
pub proof fn law_decoding_undoes_escaping(s: Seq<char>)
    ensures
        decoded(html_escaped(s)) == s,
{
    lemma_decode_escaped_from(s, 0);
    assert(s.take(0) =~= Seq::<char>::empty());
    assert(s.skip(0) =~= s);
}

/// The names of the escapes decode to their characters.
proof fn lemma_entity_names()
    ensures
        entity("amp"@) == Some('&'),
        entity("lt"@) == Some('<'),
        entity("gt"@) == Some('>'),
        entity("quot"@) == Some('"'),
        entity("#39"@) == Some('\''),
{
    reveal_strlit("amp");
    reveal_strlit("lt");
    reveal_strlit("gt");
    reveal_strlit("quot");
    reveal_strlit("apos");
    reveal_strlit("nbsp");
    reveal_strlit("#39");
    let gt = "gt"@;
    let quot = "quot"@;
    let code = "#39"@;
    assert(gt[0] == 'g' && "lt"@[0] == 'l');
    assert(code[0] == '#' && "amp"@[0] == 'a');
    let digits = code.skip(1);
    assert(digits =~= seq!['3', '9']);
    assert(digits.drop_last() =~= seq!['3']);
    assert(based(seq!['3'], false) == Some(3int));
    assert(based(digits, false) == Some(39int));
    assert(39u32 as char == '\'');
}

/// An escaped character decodes to the character, wherever it stands.
proof fn lemma_entity_of_escape(c: char, head: Seq<char>, tail: Seq<char>)
    ensures
        ({
            let whole = head + (html_char(c) + tail);
            let i = head.len() as int;
            if html_char(c) == seq![c] {
                entity_at(whole, i) is None && whole[i] == c
            } else {
                entity_at(whole, i) == Some((c, i + html_char(c).len()))
            }
        }),
        html_char(c).len() > 0,
{
    let piece = html_char(c);
    let whole = head + (piece + tail);
    let i = head.len() as int;
    reveal_strlit("&amp;");
    reveal_strlit("&lt;");
    reveal_strlit("&gt;");
    reveal_strlit("&quot;");
    reveal_strlit("&#39;");
    assert(forall|j: int| 0 <= j < piece.len() ==> whole[i + j] == piece[j]);
    if c == '&' || c == '<' || c == '>' || c == '"' || c == '\'' {
        let end = i + piece.len() - 1;
        assert(piece.len() > 1);
        text::lemma_find_char_from(whole, ';', i);
        assert(whole[end] == ';') by {
            assert(whole[i + (piece.len() - 1)] == piece[piece.len() - 1]);
        }
        assert forall|j: int| i <= j < end implies whole[j] != ';' by {
            assert(whole[i + (j - i)] == piece[j - i]);
        }
        assert(text::find_char_from(whole, ';', i) == Some(end));
        let name = whole.subrange(i + 1, end);
        assert(name =~= piece.subrange(1, piece.len() - 1));
        assert(whole[i + 0] == '&');
        lemma_entity_names();
        reveal_strlit("amp");
        reveal_strlit("lt");
        reveal_strlit("gt");
        reveal_strlit("quot");
        reveal_strlit("#39");
        if c == '&' {
            assert(name =~= "amp"@);
        } else if c == '<' {
            assert(name =~= "lt"@);
        } else if c == '>' {
            assert(name =~= "gt"@);
        } else if c == '"' {
            assert(name =~= "quot"@);
        } else {
            assert(name =~= "#39"@);
        }
    } else {
        assert(whole[i + 0] == piece[0]);
    }
}

/// Decoding the escaped text from where its first `k` characters end gives
/// the other characters.
proof fn lemma_decode_escaped_from(s: Seq<char>, k: int)
    requires
        0 <= k <= s.len(),
    ensures
        decoded_from(html_escaped(s), html_escaped(s.take(k)).len() as int) == s.skip(k),
    decreases s.len() - k,
{
    let f = |c: char| html_char(c);
    let whole = html_escaped(s);
    let head = html_escaped(s.take(k));
    text::lemma_rewritten_concat(s.take(k), s.skip(k), f);
    assert(s.take(k) + s.skip(k) =~= s);
    if k == s.len() {
        assert(s.skip(k) =~= Seq::<char>::empty());
        assert(whole.len() == head.len());
    } else {
        let c = s[k];
        let piece = html_char(c);
        let tail = html_escaped(s.skip(k + 1));
        lemma_decode_escaped_from(s, k + 1);
        assert(s.take(k + 1).drop_last() =~= s.take(k));
        assert(html_escaped(s.take(k + 1)) == head + piece);
        text::lemma_rewritten_concat(seq![c], s.skip(k + 1), f);
        assert(seq![c] + s.skip(k + 1) =~= s.skip(k));
        assert(text::rewritten(seq![c], f) =~= piece) by {
            assert(seq![c].drop_last() =~= Seq::<char>::empty());
            assert(text::rewritten(seq![c].drop_last(), f) =~= Seq::<char>::empty());
        }
        assert(whole =~= head + piece + tail);
        let i = head.len() as int;
        lemma_entity_of_escape(c, head, tail);
        assert(head + (piece + tail) =~= whole);
        assert(seq![c] + s.skip(k + 1) =~= s.skip(k));
    }
}

// -- What a reader sees -----------------------------------------------------

/// True when a tag is open behind `s`, given whether one is open before it.
pub open spec fn in_tag(s: Seq<char>, open: bool) -> bool
    decreases s.len(),
{
    if s.len() == 0 {
        open
    } else if s.last() == '<' {
        true
    } else if s.last() == '>' {
        false
    } else {
        in_tag(s.drop_last(), open)
    }
}

/// What a reader sees of `s`: the characters outside its tags, as they are
/// written. `open` says whether a tag is open before `s`.
pub open spec fn shown(s: Seq<char>, open: bool) -> Seq<char>
    decreases s.len(),
{
    if s.len() == 0 {
        Seq::empty()
    } else if s.last() == '<' || in_tag(s.drop_last(), open) {
        shown(s.drop_last(), open)
    } else {
        shown(s.drop_last(), open).push(s.last())
    }
}

/// What a reader sees of two texts is what they see of the first, followed by
/// what they see of the second behind it.
pub proof fn lemma_shown_of_joined(a: Seq<char>, b: Seq<char>, open: bool)
    ensures
        in_tag(a + b, open) == in_tag(b, in_tag(a, open)),
        shown(a + b, open) == shown(a, open) + shown(b, in_tag(a, open)),
    decreases b.len(),
{
    if b.len() == 0 {
        assert(a + b =~= a);
        assert(shown(a, open) + Seq::<char>::empty() =~= shown(a, open));
    } else {
        lemma_shown_of_joined(a, b.drop_last(), open);
        assert((a + b).drop_last() =~= a + b.drop_last());
        assert((a + b).last() == b.last());
        assert((shown(a, open) + shown(b.drop_last(), in_tag(a, open))).push(b.last()) =~= shown(
            a,
            open,
        ) + shown(b.drop_last(), in_tag(a, open)).push(b.last()));
    }
}

/// Text without tag characters is shown outside a tag and hidden inside one.
pub proof fn lemma_shown_of_plain(s: Seq<char>, open: bool)
    requires
        forall|i: int| 0 <= i < s.len() ==> #[trigger] s[i] != '<' && s[i] != '>',
    ensures
        in_tag(s, open) == open,
        shown(s, open) == if open {
            Seq::empty()
        } else {
            s
        },
    decreases s.len(),
{
    if s.len() > 0 {
        lemma_shown_of_plain(s.drop_last(), open);
        assert(s.drop_last().push(s.last()) =~= s);
    }
}

/// True when a reader sees nothing of `s`, with a tag open before it as
/// `open` says and behind it as `after` says.
pub open spec fn hides(s: Seq<char>, open: bool, after: bool) -> bool {
    shown(s, open) == Seq::<char>::empty() && in_tag(s, open) == after
}

/// True when a reader sees `words` of `s`, which leaves no tag open.
pub open spec fn reads_as(s: Seq<char>, words: Seq<char>) -> bool {
    shown(s, false) == words && !in_tag(s, false)
}

/// Hidden text behind hidden text is hidden.
pub proof fn lemma_hides_joined(a: Seq<char>, b: Seq<char>, open: bool, middle: bool, after: bool)
    requires
        hides(a, open, middle),
        hides(b, middle, after),
    ensures
        hides(a + b, open, after),
{
    lemma_shown_of_joined(a, b, open);
    assert(Seq::<char>::empty() + Seq::<char>::empty() =~= Seq::<char>::empty());
}

/// Two texts read as the words of the one behind the words of the other.
pub proof fn lemma_reads_joined(a: Seq<char>, b: Seq<char>, x: Seq<char>, y: Seq<char>)
    requires
        reads_as(a, x),
        reads_as(b, y),
    ensures
        reads_as(a + b, x + y),
{
    lemma_shown_of_joined(a, b, false);
}

/// True when nothing of `s` stands outside a tag, given whether one is open
/// before it.
pub open spec fn is_hidden(s: Seq<char>, open: bool) -> bool {
    &&& !open && s.len() > 0 ==> s.first() == '<'
    &&& forall|i: int| 0 < i < s.len() && s[i - 1] == '>' ==> #[trigger] s[i] == '<'
}

/// A reader sees nothing of what stands in tags.
pub proof fn lemma_hides(s: Seq<char>, open: bool)
    requires
        is_hidden(s, open),
    ensures
        hides(
            s,
            open,
            if s.len() == 0 {
                open
            } else {
                s.last() != '>'
            },
        ),
{
    lemma_hides_up_to(s, open, s.len() as int);
    assert(s.take(s.len() as int) =~= s);
}

proof fn lemma_hides_up_to(s: Seq<char>, open: bool, n: int)
    requires
        is_hidden(s, open),
        0 <= n <= s.len(),
    ensures
        shown(s.take(n), open) == Seq::<char>::empty(),
        in_tag(s.take(n), open) == if n == 0 {
            open
        } else {
            s[n - 1] != '>'
        },
    decreases n,
{
    if n > 0 {
        lemma_hides_up_to(s, open, n - 1);
        assert(s.take(n).drop_last() =~= s.take(n - 1));
        assert(s.take(n).last() == s[n - 1]);
    }
}

/// Escaped text is read as it is written outside a tag, and hidden inside
/// one.
pub proof fn lemma_shown_of_inert(s: Seq<char>)
    requires
        is_inert(s),
    ensures
        reads_as(s, s),
        hides(s, true, true),
{
    assert forall|i: int| 0 <= i < s.len() implies #[trigger] s[i] != '<' && s[i] != '>' by {
        assert(s.contains(s[i]));
    }
    lemma_shown_of_plain(s, false);
    lemma_shown_of_plain(s, true);
}

/// Escaping goes character by character.
pub proof fn lemma_xml_escaped_of_joined(a: Seq<char>, b: Seq<char>)
    ensures
        xml_escaped(a + b) == xml_escaped(a) + xml_escaped(b),
{
    text::lemma_rewritten_concat(a, b, |c: char| xml_char(c));
}

/// Escaping goes character by character.
pub proof fn lemma_html_escaped_of_joined(a: Seq<char>, b: Seq<char>)
    ensures
        html_escaped(a + b) == html_escaped(a) + html_escaped(b),
{
    text::lemma_rewritten_concat(a, b, |c: char| html_char(c));
}

/// A value made safe ends no declaration, no string and no rule, and a value
/// that ends none is kept as it is.
pub proof fn law_a_safe_value_ends_nothing(s: Seq<char>)
    ensures
        is_inert(css_safe_text(s)),
        !css_safe_text(s).contains(';'),
        !css_safe_text(s).contains('{'),
        !css_safe_text(s).contains('}'),
        !css_safe_text(s).contains('\\'),
        is_inert(s) && !s.contains(';') && !s.contains('{') && !s.contains('}') && !s.contains(
            '\\',
        ) ==> css_safe_text(s) == s,
    decreases s.len(),
{
    reveal(Seq::filter);
    if s.len() > 0 {
        let less = s.drop_last();
        law_a_safe_value_ends_nothing(less);
        let safe = css_safe_text(less);
        let c = s.last();
        assert(s.contains(c));
        assert forall|d: char| less.contains(d) implies #[trigger] s.contains(d) by {
            let k = choose|k: int| 0 <= k < less.len() && less[k] == d;
            assert(s[k] == d);
        }
        if is_css_safe(c) {
            assert(css_safe_text(s) == safe.push(c));
            assert forall|d: char| #[trigger] safe.push(c).contains(d) implies safe.contains(d) || d
                == c by {
                let k = choose|k: int| 0 <= k < safe.push(c).len() && safe.push(c)[k] == d;
                if k < safe.len() {
                    assert(safe[k] == d);
                }
            }
            assert(less.push(c) =~= s);
        } else {
            assert(css_safe_text(s) == safe);
        }
    } else {
        assert(css_safe_text(s) =~= s);
    }
}

} // verus!
