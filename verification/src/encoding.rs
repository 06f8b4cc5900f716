//! Standard base64 with padding.

use vstd::prelude::*;

use base64::engine::general_purpose::STANDARD;
use base64::Engine;

verus! {

/// The character for a six-bit number.
pub open spec fn symbol(n: int) -> char {
    if n < 26 {
        (n + 65) as u32 as char
    } else if n < 52 {
        (n + 71) as u32 as char
    } else if n < 62 {
        (n - 4) as u32 as char
    } else if n == 62 {
        '+'
    } else {
        '/'
    }
}

/// The text of `bytes` in base64: four characters for each three bytes, the
/// last group padded.
pub open spec fn base64_of(bytes: Seq<u8>) -> Seq<char>
    decreases bytes.len(),
{
    if bytes.len() == 0 {
        Seq::empty()
    } else if bytes.len() == 1 {
        let a = bytes[0] as int;
        seq![symbol(a / 4), symbol(a % 4 * 16), '=', '=']
    } else if bytes.len() == 2 {
        let a = bytes[0] as int;
        let b = bytes[1] as int;
        seq![symbol(a / 4), symbol(a % 4 * 16 + b / 16), symbol(b % 16 * 4), '=']
    } else {
        let a = bytes[0] as int;
        let b = bytes[1] as int;
        let c = bytes[2] as int;
        seq![
            symbol(a / 4),
            symbol(a % 4 * 16 + b / 16),
            symbol(b % 16 * 4 + c / 64),
            symbol(c % 64),
        ] + base64_of(bytes.skip(3))
    }
}

fn symbol_for(n: u8) -> (c: char)
    requires
        n < 64,
    ensures
        c == symbol(n as int),
{
    if n < 26 {
        (n + 65) as char
    } else if n < 52 {
        (n + 71) as char
    } else if n < 62 {
        (n - 4) as char
    } else if n == 62 {
        '+'
    } else {
        '/'
    }
}

/// Standard base64 with padding.
pub fn base64_encode(bytes: &[u8]) -> (r: String)
    ensures
        r@ == base64_of(bytes@),
{
    let length: usize = bytes.len();
    let mut r = String::new();
    let mut i: usize = 0;
    assert(bytes@.skip(0) =~= bytes@);
    assert(r@ + base64_of(bytes@) =~= base64_of(bytes@));
    while length - i >= 3
        invariant
            i <= length,
            length == bytes@.len(),
            base64_of(bytes@) == r@ + base64_of(bytes@.skip(i as int)),
        decreases length - i,
    {
        let a = bytes[i];
        let b = bytes[i + 1];
        let c = bytes[i + 2];
        let ghost before = r@;
        r.push(symbol_for(a / 4));
        r.push(symbol_for(a % 4 * 16 + b / 16));
        r.push(symbol_for(b % 16 * 4 + c / 64));
        r.push(symbol_for(c % 64));
        proof {
            let rest = bytes@.skip(i as int);
            assert(rest.skip(3) =~= bytes@.skip(i + 3));
            assert(before + base64_of(rest) =~= r@ + base64_of(bytes@.skip(i + 3)));
        }
        i += 3;
    }
    let ghost rest = bytes@.skip(i as int);
    let ghost before = r@;
    if length - i == 1 {
        let a = bytes[i];
        r.push(symbol_for(a / 4));
        r.push(symbol_for(a % 4 * 16));
        r.push('=');
        r.push('=');
    } else if length - i == 2 {
        let a = bytes[i];
        let b = bytes[i + 1];
        r.push(symbol_for(a / 4));
        r.push(symbol_for(a % 4 * 16 + b / 16));
        r.push(symbol_for(b % 16 * 4));
        r.push('=');
    }
    assert(r@ =~= before + base64_of(rest));
    r
}

/// The largest input of `base64::Engine::encode`: the text of a larger one
/// may be longer than any allocation.
pub const LARGEST_INPUT: usize = usize::MAX / 8 * 3;

/// `base64::Engine::encode` of the `STANDARD` engine: the standard alphabet
/// with padding. It panics where the text is longer than any allocation.
#[verifier::external_body]
pub(crate) fn standard_base64(bytes: &[u8]) -> (r: String)
    requires
        bytes@.len() <= LARGEST_INPUT,
    ensures
        r@ == base64_of(bytes@),
{
    STANDARD.encode(bytes)
}

/// The length of a base64 text: four characters for each three bytes begun.
pub proof fn law_base64_length(bytes: Seq<u8>)
    ensures
        base64_of(bytes).len() == (bytes.len() + 2) / 3 * 4,
    decreases bytes.len(),
{
    if bytes.len() >= 3 {
        law_base64_length(bytes.skip(3));
    }
}

proof fn lemma_symbol_tells_apart(m: int, n: int)
    requires
        0 <= m < 64,
        0 <= n < 64,
        symbol(m) == symbol(n),
    ensures
        m == n,
{
    assert(symbol(m) as u32 == symbol(n) as u32);
}

proof fn lemma_symbol_is_no_padding(n: int)
    requires
        0 <= n < 64,
    ensures
        symbol(n) != '=',
{
    assert(symbol(n) as u32 != 61);
}

/// Base64 loses nothing: different bytes have different texts.
pub proof fn law_base64_tells_bytes_apart(x: Seq<u8>, y: Seq<u8>)
    requires
        base64_of(x) == base64_of(y),
    ensures
        x == y,
    decreases x.len(),
{
    let s = base64_of(x);
    law_base64_length(x);
    law_base64_length(y);
    if x.len() == 0 {
        assert(x =~= y);
    } else {
        let (xa, xb, xc) = group(x);
        let (ya, yb, yc) = group(y);
        assert(y.len() > 0);
        assert(s[0] == symbol(xa / 4) && s[0] == symbol(ya / 4));
        assert(s[1] == symbol(xa % 4 * 16 + xb / 16) && s[1] == symbol(ya % 4 * 16 + yb / 16));
        lemma_symbol_tells_apart(xa / 4, ya / 4);
        lemma_symbol_tells_apart(xa % 4 * 16 + xb / 16, ya % 4 * 16 + yb / 16);
        assert(xa == ya);
        lemma_symbol_is_no_padding(xb % 16 * 4 + xc / 64);
        lemma_symbol_is_no_padding(yb % 16 * 4 + yc / 64);
        lemma_symbol_is_no_padding(xc % 64);
        lemma_symbol_is_no_padding(yc % 64);
        if x.len() >= 2 {
            assert(s[2] == symbol(xb % 16 * 4 + xc / 64));
            assert(y.len() >= 2);
            assert(s[2] == symbol(yb % 16 * 4 + yc / 64));
            lemma_symbol_tells_apart(xb % 16 * 4 + xc / 64, yb % 16 * 4 + yc / 64);
            assert(xb == yb);
        } else {
            assert(s[2] == '=');
            assert(y.len() == 1);
        }
        if x.len() >= 3 {
            assert(s[3] == symbol(xc % 64));
            assert(y.len() >= 3);
            assert(s[3] == symbol(yc % 64));
            lemma_symbol_tells_apart(xc % 64, yc % 64);
            assert(xc == yc);
            assert(base64_of(x.skip(3)) =~= s.skip(4));
            assert(base64_of(y.skip(3)) =~= s.skip(4));
            law_base64_tells_bytes_apart(x.skip(3), y.skip(3));
            assert forall|k: int| 0 <= k < x.len() implies x[k] == y[k] by {
                if k >= 3 {
                    assert(x[k] == x.skip(3)[k - 3]);
                    assert(y[k] == y.skip(3)[k - 3]);
                }
            }
            assert(x.len() == x.skip(3).len() + 3);
            assert(y.len() == y.skip(3).len() + 3);
            assert(x =~= y);
        } else {
            if x.len() == 2 {
                assert(s[3] == '=');
                assert(y.len() == 2);
            }
            assert(x =~= y);
        }
    }
}

/// The first three bytes, with zero for those that are not there.
spec fn group(bytes: Seq<u8>) -> (int, int, int) {
    (
        bytes[0] as int,
        if bytes.len() >= 2 {
            bytes[1] as int
        } else {
            0
        },
        if bytes.len() >= 3 {
            bytes[2] as int
        } else {
            0
        },
    )
}

/// A base64 text holds no dot.
pub proof fn lemma_no_dot(bytes: Seq<u8>)
    ensures
        forall|k: int| 0 <= k < base64_of(bytes).len() ==> (#[trigger] base64_of(bytes)[k]) != '.',
    decreases bytes.len(),
{
    if bytes.len() >= 3 {
        lemma_no_dot(bytes.skip(3));
        let rest = base64_of(bytes.skip(3));
        assert forall|k: int| 0 <= k < base64_of(bytes).len() implies (#[trigger] base64_of(
            bytes,
        )[k]) != '.' by {
            if k >= 4 {
                assert(base64_of(bytes)[k] == rest[k - 4]);
            }
        }
    }
}

} // verus!
