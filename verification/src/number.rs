//! The text of a single-precision number.
//!
//! A field is numeric when it is text that the standard library reads as a
//! single-precision number. With capital letters read as small ones, that
//! is:
//!
//! ```text
//! Float  ::= Sign? ( 'inf' | 'infinity' | 'nan' | Number )
//! Number ::= ( Digit+ | Digit+ '.' Digit* | Digit* '.' Digit+ ) Exp?
//! Exp    ::= 'e' Sign? Digit+
//! Sign   ::= [+-]
//! Digit  ::= [0-9]
//! ```
//!
//! Which number a text stands for is not decided here.

use vstd::prelude::*;

verus! {

/// A decimal digit.
pub open spec fn is_digit(b: u8) -> bool {
    48 <= b <= 57
}

/// A plus or a minus sign.
pub open spec fn is_sign(b: u8) -> bool {
    b == 43 || b == 45
}

/// The byte with a capital letter made small.
pub open spec fn lower(b: u8) -> u8 {
    if 65 <= b <= 90 {
        (b + 32) as u8
    } else {
        b
    }
}

/// The text with every capital letter made small.
pub open spec fn lowered(s: Seq<u8>) -> Seq<u8> {
    Seq::new(s.len(), |i: int| lower(s[i]))
}

/// The text without its sign, if it starts with one.
pub open spec fn unsigned_part(s: Seq<u8>) -> Seq<u8> {
    if s.len() > 0 && is_sign(s[0]) {
        s.subrange(1, s.len() as int)
    } else {
        s
    }
}

/// Nothing but digits: `Digit*`.
pub open spec fn digits_only(s: Seq<u8>) -> bool {
    forall|i: int| 0 <= i < s.len() ==> is_digit(#[trigger] s[i])
}

/// Digits with at most one point among them, and one digit at least:
/// `Digit+ | Digit+ '.' Digit* | Digit* '.' Digit+`.
pub open spec fn is_mantissa(s: Seq<u8>) -> bool {
    (s.len() >= 1 && digits_only(s)) || exists|k: int|
        0 <= k < s.len() && s.len() >= 2 && #[trigger] s[k] == 46 && digits_only(s.subrange(0, k))
            && digits_only(s.subrange(k + 1, s.len() as int))
}

/// An exponent: `'e' Sign? Digit+`.
pub open spec fn is_exponent(s: Seq<u8>) -> bool {
    &&& s.len() >= 2
    &&& s[0] == 101
    &&& unsigned_part(s.subrange(1, s.len() as int)).len() >= 1
    &&& digits_only(unsigned_part(s.subrange(1, s.len() as int)))
}

/// A number: a mantissa, and optionally an exponent behind it.
pub open spec fn is_number(s: Seq<u8>) -> bool {
    is_mantissa(s) || exists|m: int|
        0 < m < s.len() && #[trigger] is_mantissa(s.subrange(0, m)) && is_exponent(
            s.subrange(m, s.len() as int),
        )
}

/// `inf`.
pub open spec fn inf_text() -> Seq<u8> {
    seq![105u8, 110u8, 102u8]
}

/// `infinity`.
pub open spec fn infinity_text() -> Seq<u8> {
    seq![105u8, 110u8, 102u8, 105u8, 110u8, 105u8, 116u8, 121u8]
}

/// `nan`.
pub open spec fn nan_text() -> Seq<u8> {
    seq![110u8, 97u8, 110u8]
}

/// A numeric field: `Float` of the grammar, capital letters read as small.
pub open spec fn is_numeric(s: Seq<u8>) -> bool {
    let body = unsigned_part(lowered(s));
    body == inf_text() || body == infinity_text() || body == nan_text() || is_number(body)
}

/// What a scan from the left finds: digits up to `a`; if a point stands
/// at `a`, digits behind it up to `b`, and `b` is `a` otherwise.
pub open spec fn scanned(t: Seq<u8>, a: int, b: int) -> bool {
    &&& 0 <= a <= b <= t.len()
    &&& forall|i: int| 0 <= i < a ==> is_digit(#[trigger] t[i])
    &&& (a < t.len() ==> !is_digit(t[a]))
    &&& if a < t.len() && t[a] == 46 {
        &&& b > a
        &&& forall|i: int| a < i < b ==> is_digit(#[trigger] t[i])
        &&& (b < t.len() ==> !is_digit(t[b]))
    } else {
        b == a
    }
}

/// The number of digits that the scan passed.
pub open spec fn digit_count(t: Seq<u8>, a: int, b: int) -> int {
    if a < t.len() && t[a] == 46 {
        b - 1
    } else {
        a
    }
}

/// A mantissa that ends where the text ends, or before a byte that is
/// neither digit nor point, ends where the scan ends.
proof fn lemma_mantissa_ends(t: Seq<u8>, a: int, b: int, m: int)
    requires
        scanned(t, a, b),
        0 < m <= t.len(),
        is_mantissa(t.subrange(0, m)),
        m < t.len() ==> !is_digit(t[m]) && t[m] != 46,
    ensures
        m == b,
        digit_count(t, a, b) >= 1,
{
    let u = t.subrange(0, m);
    if u.len() >= 1 && digits_only(u) {
        assert forall|i: int| 0 <= i < m implies is_digit(t[i]) by {
            assert(u[i] == t[i]);
        }
        if a < m {
            assert(is_digit(t[a]));
        }
    } else {
        let k = choose|k: int|
            0 <= k < u.len() && u.len() >= 2 && #[trigger] u[k] == 46 && digits_only(
                u.subrange(0, k),
            ) && digits_only(u.subrange(k + 1, u.len() as int));
        assert(t[k] == 46);
        assert forall|i: int| 0 <= i < k implies is_digit(t[i]) by {
            assert(u.subrange(0, k)[i] == t[i]);
        }
        assert forall|i: int| k < i < m implies is_digit(t[i]) by {
            assert(u.subrange(k + 1, u.len() as int)[i - k - 1] == t[i]);
        }
        if a < k {
            assert(is_digit(t[a]));
        }
        if a > k {
            assert(is_digit(t[k]));
        }
        assert(a == k);
        if b < m {
            assert(is_digit(t[b]));
        }
        if b > m {
            assert(is_digit(t[m]));
        }
    }
}

/// Where the scan passed a digit, what it passed is a mantissa.
proof fn lemma_mantissa_found(t: Seq<u8>, a: int, b: int)
    requires
        scanned(t, a, b),
        digit_count(t, a, b) >= 1,
    ensures
        is_mantissa(t.subrange(0, b)),
        0 < b,
{
    let u = t.subrange(0, b);
    if a < t.len() && t[a] == 46 {
        assert(u[a] == 46);
        assert forall|i: int| 0 <= i < a implies is_digit(#[trigger] u.subrange(0, a)[i]) by {
            assert(u.subrange(0, a)[i] == t[i]);
        }
        assert forall|i: int| 0 <= i < u.len() - a - 1 implies is_digit(
            #[trigger] u.subrange(a + 1, u.len() as int)[i],
        ) by {
            assert(u.subrange(a + 1, u.len() as int)[i] == t[a + 1 + i]);
        }
    } else {
        assert forall|i: int| 0 <= i < u.len() implies is_digit(#[trigger] u[i]) by {
            assert(u[i] == t[i]);
        }
    }
}

/// A text is a number exactly when the scan passes a digit and ends at
/// the end of the text or before an exponent.
pub proof fn lemma_number_scan(t: Seq<u8>, a: int, b: int)
    requires
        scanned(t, a, b),
    ensures
        is_number(t) <==> (digit_count(t, a, b) >= 1 && (b == t.len() || is_exponent(
            t.subrange(b, t.len() as int),
        ))),
{
    let len = t.len() as int;
    if is_number(t) {
        if is_mantissa(t) {
            assert(t.subrange(0, len) =~= t);
            lemma_mantissa_ends(t, a, b, len);
        } else {
            let m = choose|m: int|
                0 < m < t.len() && #[trigger] is_mantissa(t.subrange(0, m)) && is_exponent(
                    t.subrange(m, t.len() as int),
                );
            assert(t.subrange(m, len)[0] == t[m]);
            lemma_mantissa_ends(t, a, b, m);
        }
    }
    if digit_count(t, a, b) >= 1 && (b == len || is_exponent(t.subrange(b, len))) {
        lemma_mantissa_found(t, a, b);
        if b == len {
            assert(t.subrange(0, len) =~= t);
        }
    }
}

/// A number is not empty, and holds digits, points, signs and the letter
/// `e` only.
proof fn lemma_number_bytes(t: Seq<u8>, j: int)
    requires
        is_number(t),
        0 <= j < t.len(),
    ensures
        is_digit(t[j]) || t[j] == 46 || t[j] == 101 || is_sign(t[j]),
{
    if is_mantissa(t) {
        lemma_mantissa_bytes(t, j);
    } else {
        let m = choose|m: int|
            0 < m < t.len() && #[trigger] is_mantissa(t.subrange(0, m)) && is_exponent(
                t.subrange(m, t.len() as int),
            );
        if j < m {
            lemma_mantissa_bytes(t.subrange(0, m), j);
        } else {
            let e = t.subrange(m, t.len() as int);
            let tail = e.subrange(1, e.len() as int);
            assert(e[j - m] == t[j]);
            if j > m {
                assert(tail[j - m - 1] == t[j]);
                if !(tail.len() > 0 && is_sign(tail[0])) {
                    assert(is_digit(tail[j - m - 1]));
                } else if j - m - 1 > 0 {
                    assert(unsigned_part(tail)[j - m - 2] == tail[j - m - 1]);
                }
            }
        }
    }
}

/// A mantissa holds digits and points only.
proof fn lemma_mantissa_bytes(u: Seq<u8>, j: int)
    requires
        is_mantissa(u),
        0 <= j < u.len(),
    ensures
        is_digit(u[j]) || u[j] == 46,
{
    if !(u.len() >= 1 && digits_only(u)) {
        let k = choose|k: int|
            0 <= k < u.len() && u.len() >= 2 && #[trigger] u[k] == 46 && digits_only(
                u.subrange(0, k),
            ) && digits_only(u.subrange(k + 1, u.len() as int));
        if j < k {
            assert(u.subrange(0, k)[j] == u[j]);
        } else if j > k {
            assert(u.subrange(k + 1, u.len() as int)[j - k - 1] == u[j]);
        }
    }
}

/// A numeric field is not empty and holds no byte below the plus sign:
/// no blank, and no control character.
pub proof fn lemma_numeric_bytes(s: Seq<u8>)
    requires
        is_numeric(s),
    ensures
        s.len() >= 1,
        forall|i: int| 0 <= i < s.len() ==> #[trigger] s[i] >= 43,
{
    let low = lowered(s);
    let body = unsigned_part(low);
    assert(body.len() >= 1) by {
        if is_number(body) && !is_mantissa(body) {
        } else if is_number(body) {
            if !(body.len() >= 1 && digits_only(body)) {
                let k = choose|k: int|
                    0 <= k < body.len() && body.len() >= 2 && #[trigger] body[k] == 46
                        && digits_only(body.subrange(0, k)) && digits_only(
                        body.subrange(k + 1, body.len() as int),
                    );
            }
        }
    }
    assert forall|i: int| 0 <= i < s.len() implies #[trigger] s[i] >= 43 by {
        let off = low.len() - body.len();
        if i < off {
            assert(is_sign(low[0]));
        } else {
            assert(body[i - off] == low[i]);
            if is_number(body) {
                lemma_number_bytes(body, i - off);
            }
        }
    }
}

/// Makes a capital letter small.
fn lower_byte(b: u8) -> (out: u8)
    ensures
        out == lower(b),
{
    if b >= 65 && b <= 90 {
        b + 32
    } else {
        b
    }
}

/// The field in small letters and without its sign.
fn body_of(field: &Vec<u8>) -> (t: Vec<u8>)
    ensures
        t@ == unsigned_part(lowered(field@)),
{
    let len = field.len();
    let from: usize = if len > 0 && (field[0] == 43 || field[0] == 45) {
        1
    } else {
        0
    };
    let ghost low = lowered(field@);
    let mut t: Vec<u8> = Vec::new();
    let mut i: usize = from;
    while i < len
        invariant
            from <= i <= len,
            len == field@.len(),
            low == lowered(field@),
            t@ == low.subrange(from as int, i as int),
        decreases len - i,
    {
        t.push(lower_byte(field[i]));
        assert(low.subrange(from as int, i + 1) =~= low.subrange(from as int, i as int).push(
            low[i as int],
        ));
        i += 1;
    }
    assert(low.subrange(from as int, len as int) =~= unsigned_part(low));
    t
}

/// The first place at or behind `from` where no digit stands.
fn skip_digits(t: &Vec<u8>, from: usize) -> (to: usize)
    requires
        from <= t@.len(),
    ensures
        from <= to <= t@.len(),
        forall|i: int| from <= i < to ==> is_digit(#[trigger] t@[i]),
        to < t@.len() ==> !is_digit(t@[to as int]),
{
    let mut to: usize = from;
    while to < t.len() && t[to] >= 48 && t[to] <= 57
        invariant
            from <= to <= t@.len(),
            forall|i: int| from <= i < to ==> is_digit(#[trigger] t@[i]),
        decreases t@.len() - to,
    {
        to += 1;
    }
    to
}

/// Whether an exponent stands from `b` to the end.
fn exponent_at(t: &Vec<u8>, b: usize) -> (yes: bool)
    requires
        b < t@.len(),
    ensures
        yes == is_exponent(t@.subrange(b as int, t@.len() as int)),
{
    let len = t.len();
    let ghost e = t@.subrange(b as int, len as int);
    let ghost tail = e.subrange(1, e.len() as int);
    assert(e[0] == t@[b as int]);
    if t[b] != 101 || len - b < 2 {
        return false;
    }
    assert(tail[0] == t@[b + 1]);
    let d: usize = if t[b + 1] == 43 || t[b + 1] == 45 {
        b + 2
    } else {
        b + 1
    };
    assert(unsigned_part(tail) =~= t@.subrange(d as int, len as int));
    if d == len {
        return false;
    }
    let end = skip_digits(t, d);
    proof {
        let digits = t@.subrange(d as int, len as int);
        if end == len {
            assert forall|i: int| 0 <= i < digits.len() implies is_digit(#[trigger] digits[i]) by {
                assert(digits[i] == t@[d + i]);
            }
        } else {
            assert(digits[end - d] == t@[end as int]);
        }
    }
    end == len
}

/// Whether a field is numeric.
pub fn numeric(field: &Vec<u8>) -> (yes: bool)
    ensures
        yes == is_numeric(field@),
{
    let t = body_of(field);
    let len = t.len();
    if len == 3 && t[0] == 105 && t[1] == 110 && t[2] == 102 {
        assert(t@ =~= inf_text());
        return true;
    }
    if len == 3 && t[0] == 110 && t[1] == 97 && t[2] == 110 {
        assert(t@ =~= nan_text());
        return true;
    }
    if len == 8 && t[0] == 105 && t[1] == 110 && t[2] == 102 && t[3] == 105 && t[4] == 110 && t[5]
        == 105 && t[6] == 116 && t[7] == 121 {
        assert(t@ =~= infinity_text());
        return true;
    }
    proof {
        if t@ == inf_text() {
            assert(t@.len() == 3 && t@[0] == 105 && t@[1] == 110 && t@[2] == 102);
        }
        if t@ == nan_text() {
            assert(t@.len() == 3 && t@[0] == 110 && t@[1] == 97 && t@[2] == 110);
        }
        if t@ == infinity_text() {
            assert(t@.len() == 8 && t@[0] == 105 && t@[1] == 110 && t@[2] == 102 && t@[3] == 105
                && t@[4] == 110 && t@[5] == 105 && t@[6] == 116 && t@[7] == 121);
        }
    }
    let a = skip_digits(&t, 0);
    let pointed: bool = a < len && t[a] == 46;
    let b: usize = if pointed {
        skip_digits(&t, a + 1)
    } else {
        a
    };
    proof {
        lemma_number_scan(t@, a as int, b as int);
    }
    let count: usize = if pointed {
        b - 1
    } else {
        a
    };
    if count == 0 {
        return false;
    }
    if b == len {
        return true;
    }
    exponent_at(&t, b)
}

} // verus!
