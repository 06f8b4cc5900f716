//! The order of texts, by their length and then by their characters.

use vstd::prelude::*;

use crate::text;

verus! {

/// True when two texts agree before `k` and the first has the smaller
/// character there.
pub open spec fn smaller_at(a: Seq<char>, b: Seq<char>, k: int) -> bool {
    &&& 0 <= k < a.len()
    &&& k < b.len()
    &&& a.take(k) == b.take(k)
    &&& a[k] < b[k]
}

/// True when `a` is shorter than `b`, or as long and smaller where they
/// first differ.
pub open spec fn precedes(a: Seq<char>, b: Seq<char>) -> bool {
    a.len() < b.len() || (a.len() == b.len() && exists|k: int| smaller_at(a, b, k))
}

/// Nothing precedes itself.
pub proof fn lemma_precedes_is_strict(a: Seq<char>)
    ensures
        !precedes(a, a),
{
}

/// The order is transitive.
pub proof fn lemma_precedes_is_transitive(a: Seq<char>, b: Seq<char>, c: Seq<char>)
    requires
        precedes(a, b),
        precedes(b, c),
    ensures
        precedes(a, c),
{
    if a.len() == c.len() {
        let j = choose|j: int| smaller_at(a, b, j);
        let k = choose|k: int| smaller_at(b, c, k);
        let least = if j < k {
            j
        } else {
            k
        };
        assert(a.take(least) =~= c.take(least)) by {
            assert forall|i: int| 0 <= i < least implies a[i] == c[i] by {
                assert(a.take(j)[i] == b.take(j)[i]);
                assert(b.take(k)[i] == c.take(k)[i]);
            }
        }
        if j < k {
            assert(b.take(k)[j] == c.take(k)[j]);
        } else if k < j {
            assert(a.take(j)[k] == b.take(j)[k]);
        }
        assert(smaller_at(a, c, least));
    }
}

/// Of two different texts one precedes the other.
pub proof fn lemma_precedes_is_total(a: Seq<char>, b: Seq<char>)
    ensures
        a == b || precedes(a, b) || precedes(b, a),
{
    if a.len() == b.len() && a != b {
        assert(a.take(0) =~= b.take(0));
        lemma_first_difference(a, b, 0);
    }
}

proof fn lemma_first_difference(a: Seq<char>, b: Seq<char>, from: int)
    requires
        0 <= from <= a.len(),
        a.len() == b.len(),
        a != b,
        a.take(from) == b.take(from),
    ensures
        exists|k: int| smaller_at(a, b, k) || smaller_at(b, a, k),
    decreases a.len() - from,
{
    if from == a.len() {
        assert(a.take(from) =~= a);
        assert(b.take(from) =~= b);
    } else if a[from] != b[from] {
        assert(smaller_at(a, b, from) || smaller_at(b, a, from));
    } else {
        assert(a.take(from + 1) =~= a.take(from).push(a[from]));
        assert(b.take(from + 1) =~= b.take(from).push(b[from]));
        lemma_first_difference(a, b, from + 1);
    }
}

/// What follows a difference does not matter.
pub proof fn lemma_precedes_with_tails(a: Seq<char>, b: Seq<char>, x: Seq<char>, y: Seq<char>)
    requires
        precedes(a, b),
        x.len() == y.len(),
    ensures
        precedes(a + x, b + y),
{
    if a.len() == b.len() {
        let k = choose|k: int| smaller_at(a, b, k);
        assert((a + x).take(k) =~= a.take(k));
        assert((b + y).take(k) =~= b.take(k));
        assert(smaller_at(a + x, b + y, k));
    }
}

/// What comes before a difference does not matter.
pub proof fn lemma_precedes_behind(a: Seq<char>, x: Seq<char>, y: Seq<char>)
    requires
        precedes(x, y),
    ensures
        precedes(a + x, a + y),
{
    if x.len() == y.len() {
        let k = choose|k: int| smaller_at(x, y, k);
        assert((a + x).take(a.len() + k) =~= a + x.take(k));
        assert((a + y).take(a.len() + k) =~= a + y.take(k));
        assert(smaller_at(a + x, a + y, a.len() + k));
    }
}

/// A smaller number comes before a larger one in decimal.
pub proof fn lemma_decimals_ascend(a: nat, b: nat)
    requires
        a < b,
    ensures
        precedes(text::decimal(a), text::decimal(b)),
        text::decimal(a) != text::decimal(b),
    decreases b,
{
    let x = text::decimal(a);
    let y = text::decimal(b);
    if b < 10 {
        assert(x.take(0) =~= y.take(0));
        assert(smaller_at(x, y, 0));
    } else if a < 10 {
        lemma_decimal_is_not_empty(b / 10);
    } else if a / 10 < b / 10 {
        lemma_decimals_ascend(a / 10, b / 10);
        let p = seq![text::digit_char(a % 10)];
        let q = seq![text::digit_char(b % 10)];
        lemma_precedes_with_tails(text::decimal(a / 10), text::decimal(b / 10), p, q);
        assert(x =~= text::decimal(a / 10) + p);
        assert(y =~= text::decimal(b / 10) + q);
    } else {
        let k = text::decimal(a / 10).len() as int;
        assert(a / 10 == b / 10);
        assert(x.take(k) =~= text::decimal(a / 10));
        assert(y.take(k) =~= text::decimal(a / 10));
        assert(smaller_at(x, y, k));
    }
    lemma_precedes_is_strict(x);
}

/// A number is written in digits.
pub proof fn lemma_decimal_holds_digits(n: nat)
    ensures
        text::all_digits(text::decimal(n)),
    decreases n,
{
    if n >= 10 {
        lemma_decimal_holds_digits(n / 10);
    }
}

/// Different numbers are written differently.
pub proof fn lemma_decimals_differ(a: nat, b: nat)
    requires
        a != b,
    ensures
        text::decimal(a) != text::decimal(b),
{
    if a < b {
        lemma_decimals_ascend(a, b);
    } else {
        lemma_decimals_ascend(b, a);
    }
}

/// Different numbers stay different before something that is no digit.
pub proof fn lemma_decimals_differ_before(a: nat, b: nat, c: char, x: Seq<char>, y: Seq<char>)
    requires
        a != b,
        !text::is_digit(c),
    ensures
        text::decimal(a) + seq![c] + x != text::decimal(b) + seq![c] + y,
{
    let p = text::decimal(a);
    let q = text::decimal(b);
    let left = p + seq![c] + x;
    let right = q + seq![c] + y;
    lemma_decimals_differ(a, b);
    lemma_decimal_holds_digits(a);
    lemma_decimal_holds_digits(b);
    if left == right {
        assert(left[p.len() as int] == c);
        assert(right[q.len() as int] == c);
        if p.len() < q.len() {
            assert(right[p.len() as int] == q[p.len() as int]);
        } else if q.len() < p.len() {
            assert(left[q.len() as int] == p[q.len() as int]);
        } else {
            assert(left.take(p.len() as int) =~= p);
            assert(right.take(q.len() as int) =~= q);
        }
    }
}

/// A number has a digit.
pub proof fn lemma_decimal_is_not_empty(n: nat)
    ensures
        text::decimal(n).len() > 0,
{
}

/// True when `a` precedes `b`.
pub fn comes_before(a: &[char], b: &[char]) -> (r: bool)
    ensures
        r == precedes(a@, b@),
{
    if a.len() != b.len() {
        return a.len() < b.len();
    }
    let mut k: usize = 0;
    while k < a.len()
        invariant
            k <= a@.len(),
            a@.len() == b@.len(),
            a@.take(k as int) == b@.take(k as int),
        decreases a@.len() - k,
    {
        if a[k] != b[k] {
            proof {
                if a@[k as int] < b@[k as int] {
                    assert(smaller_at(a@, b@, k as int));
                } else {
                    assert(smaller_at(b@, a@, k as int));
                    if precedes(a@, b@) {
                        lemma_precedes_is_transitive(a@, b@, a@);
                        lemma_precedes_is_strict(a@);
                    }
                }
            }
            return a[k] < b[k];
        }
        assert(a@.take(k + 1) =~= a@.take(k as int).push(a@[k as int]));
        assert(b@.take(k + 1) =~= b@.take(k as int).push(b@[k as int]));
        k += 1;
    }
    assert(a@.take(k as int) =~= a@);
    assert(b@.take(k as int) =~= b@);
    proof {
        lemma_precedes_is_strict(a@);
    }
    false
}

// -- The order of a dictionary ----------------------------------------------

/// True when `a` stands before `b` in a dictionary: it is the beginning of
/// `b`, or smaller where they first differ.
pub open spec fn listed_before(a: Seq<char>, b: Seq<char>) -> bool {
    (a.len() < b.len() && a == b.take(a.len() as int)) || exists|k: int| smaller_at(a, b, k)
}

/// True when `a` stands before `b` in a dictionary.
pub fn stands_before(a: &[char], b: &[char]) -> (r: bool)
    ensures
        r == listed_before(a@, b@),
{
    let mut k: usize = 0;
    while k < a.len() && k < b.len()
        invariant
            k <= a@.len(),
            k <= b@.len(),
            a@.take(k as int) == b@.take(k as int),
        decreases a@.len() - k,
    {
        if a[k] != b[k] {
            proof {
                lemma_difference_decides(a@, b@, k as int);
            }
            return a[k] < b[k];
        }
        assert(a@.take(k + 1) =~= a@.take(k as int).push(a@[k as int]));
        assert(b@.take(k + 1) =~= b@.take(k as int).push(b@[k as int]));
        k += 1;
    }
    proof {
        if exists|j: int| smaller_at(a@, b@, j) {
            let j = choose|j: int| smaller_at(a@, b@, j);
            assert(a@.take(k as int)[j] == b@.take(k as int)[j]);
        }
        if k == a@.len() {
            assert(a@.take(k as int) =~= a@);
        }
    }
    a.len() < b.len()
}

proof fn lemma_difference_decides(a: Seq<char>, b: Seq<char>, k: int)
    requires
        0 <= k < a.len(),
        k < b.len(),
        a.take(k) == b.take(k),
        a[k] != b[k],
    ensures
        listed_before(a, b) == (a[k] < b[k]),
{
    if a[k] < b[k] {
        assert(smaller_at(a, b, k));
    } else {
        assert forall|j: int| !smaller_at(a, b, j) by {
            if smaller_at(a, b, j) {
                if j < k {
                    assert(a.take(k)[j] == a[j]);
                    assert(b.take(k)[j] == b[j]);
                } else if j > k {
                    assert(a.take(j)[k] == a[k]);
                    assert(b.take(j)[k] == b[k]);
                }
            }
        }
        assert(a.len() < b.len() ==> b.take(a.len() as int)[k] == b[k]);
    }
}

} // verus!
