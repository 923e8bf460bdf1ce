//! Decimal numerals as they appear on the wire: ASCII digits with an optional
//! sign. Formatting and parsing are inverse to each other, which the codec's
//! round trip rests on.

use vstd::prelude::*;

verus! {

/// ASCII `0` to `9`.
pub open spec fn is_digit(b: u8) -> bool {
    48 <= b <= 57
}

/// Every byte of `s` is an ASCII digit.
pub open spec fn all_digits(s: Seq<u8>) -> bool {
    forall|i: int| 0 <= i < s.len() ==> is_digit(#[trigger] s[i])
}

/// The number that a run of digits denotes, most significant digit first.
/// The empty run denotes zero.
pub open spec fn digits_value(s: Seq<u8>) -> nat
    decreases s.len(),
{
    if s.len() == 0 {
        0
    } else {
        digits_value(s.drop_last()) * 10 + (s.last() - 48) as nat
    }
}

/// The shortest run of digits that denotes `n`.
pub open spec fn digits_text(n: nat) -> Seq<u8>
    decreases n,
{
    if n < 10 {
        seq![(48 + n) as u8]
    } else {
        digits_text(n / 10).push((48 + n % 10) as u8)
    }
}

/// The numeral of an integer: a minus sign for a negative one, then the digits
/// of its magnitude.
pub open spec fn decimal_text(v: int) -> Seq<u8> {
    if v < 0 {
        seq![45u8] + digits_text((-v) as nat)
    } else {
        digits_text(v as nat)
    }
}

/// The integer that a signed numeral denotes: an optional `+` or `-`, then at
/// least one digit. Anything else denotes nothing.
pub open spec fn decimal_value(s: Seq<u8>) -> Option<int> {
    if s.len() > 0 && (s[0] == 45 || s[0] == 43) {
        let body = s.subrange(1, s.len() as int);
        if body.len() > 0 && all_digits(body) {
            if s[0] == 45 {
                Some(-(digits_value(body) as int))
            } else {
                Some(digits_value(body) as int)
            }
        } else {
            None
        }
    } else if s.len() > 0 && all_digits(s) {
        Some(digits_value(s) as int)
    } else {
        None
    }
}

/// A signed numeral read as an `i64`: nothing when it is malformed or out of
/// range.
pub open spec fn decimal_i64(s: Seq<u8>) -> Option<i64> {
    match decimal_value(s) {
        Some(v) => if i64::MIN <= v <= i64::MAX {
            Some(v as i64)
        } else {
            None
        },
        None => None,
    }
}

/// An unsigned numeral read as a `u64`: an optional `+`, then at least one
/// digit; nothing when it is malformed, carries a minus sign or is out of range.
pub open spec fn decimal_u64(s: Seq<u8>) -> Option<u64> {
    if s.len() > 0 && s[0] == 45 {
        None
    } else {
        match decimal_value(s) {
            Some(v) => if 0 <= v <= u64::MAX {
                Some(v as u64)
            } else {
                None
            },
            None => None,
        }
    }
}

/// A run of digits is never empty, holds digits only, and denotes the number it
/// was made from.
pub proof fn lemma_digits_text(n: nat)
    ensures
        digits_text(n).len() >= 1,
        all_digits(digits_text(n)),
        digits_value(digits_text(n)) == n,
    decreases n,
{
    if n < 10 {
        let s = digits_text(n);
        assert(s.drop_last() =~= Seq::<u8>::empty());
        assert(digits_value(s.drop_last()) == 0);
    } else {
        lemma_digits_text(n / 10);
        let head = digits_text(n / 10);
        let s = digits_text(n);
        assert(s.drop_last() =~= head);
        assert(s.last() == (48 + n % 10) as u8);
    }
}

/// Reading the numeral of an integer gives the integer back.
pub proof fn lemma_decimal_round_trip(v: int)
    ensures
        decimal_value(decimal_text(v)) == Some(v),
        decimal_text(v).len() >= 1,
{
    if v < 0 {
        let body = digits_text((-v) as nat);
        lemma_digits_text((-v) as nat);
        let s = decimal_text(v);
        assert(s.subrange(1, s.len() as int) =~= body);
    } else {
        lemma_digits_text(v as nat);
        let s = decimal_text(v);
        assert(is_digit(s[0]));
    }
}

/// A numeral holds digits and at most a leading minus sign: no carriage return
/// and no line feed.
pub proof fn lemma_decimal_text_bytes(v: int)
    ensures
        forall|i: int|
            0 <= i < decimal_text(v).len() ==> is_digit(#[trigger] decimal_text(v)[i])
                || decimal_text(v)[i] == 45,
{
    if v < 0 {
        lemma_digits_text((-v) as nat);
    } else {
        lemma_digits_text(v as nat);
    }
}

/// Ten to the power of `k`.
pub open spec fn pow10(k: nat) -> nat
    decreases k,
{
    if k == 0 {
        1
    } else {
        10 * pow10((k - 1) as nat)
    }
}

/// A number below ten to the power of `k` has at most `k` digits.
pub proof fn lemma_digits_text_len(n: nat, k: nat)
    requires
        k >= 1,
        n < pow10(k),
    ensures
        digits_text(n).len() <= k,
    decreases k,
{
    if n >= 10 {
        assert(pow10(1) == 10) by {
            reveal_with_fuel(pow10, 2);
        }
        assert(k >= 2);
        lemma_digits_text_len(n / 10, (k - 1) as nat);
    }
}

/// The numeral of a 64-bit integer, signed or unsigned, is at most 20 bytes
/// long.
pub proof fn lemma_decimal_text_len(v: int)
    requires
        i64::MIN <= v <= u64::MAX,
    ensures
        1 <= decimal_text(v).len() <= 20,
{
    assert(pow10(20) == 100000000000000000000) by {
        reveal_with_fuel(pow10, 21);
    }
    if v < 0 {
        assert(pow10(19) == 10000000000000000000) by {
            reveal_with_fuel(pow10, 20);
        }
        lemma_digits_text_len((-v) as nat, 19);
        lemma_digits_text((-v) as nat);
    } else {
        lemma_digits_text_len(v as nat, 20);
        lemma_digits_text(v as nat);
    }
}

/// A longer prefix of a run of digits denotes at least as much as a shorter one.
pub proof fn lemma_digits_value_prefix(s: Seq<u8>, k: int)
    requires
        0 <= k <= s.len(),
    ensures
        digits_value(s.subrange(0, k)) <= digits_value(s),
    decreases s.len() - k,
{
    if k == s.len() {
        assert(s.subrange(0, k) =~= s);
    } else {
        lemma_digits_value_prefix(s, k + 1);
        let longer = s.subrange(0, k + 1);
        assert(longer.drop_last() =~= s.subrange(0, k));
    }
}

/// Appends the digits of `n` to `out`.
pub fn push_digits(n: u64, out: &mut Vec<u8>)
    ensures
        final(out)@ == old(out)@ + digits_text(n as nat),
    decreases n,
{
    if n >= 10 {
        push_digits(n / 10, out);
    }
    let digit: u8 = (48 + n % 10) as u8;
    out.push(digit);
    assert(final(out)@ =~= old(out)@ + digits_text(n as nat));
}

/// The numeral of an unsigned integer.
pub fn format_u64(n: u64) -> (out: Vec<u8>)
    ensures
        out@ == decimal_text(n as int),
{
    let mut out: Vec<u8> = Vec::new();
    push_digits(n, &mut out);
    assert(out@ =~= decimal_text(n as int));
    out
}

/// The numeral of a signed integer.
pub fn format_i64(n: i64) -> (out: Vec<u8>)
    ensures
        out@ == decimal_text(n as int),
{
    let mut out: Vec<u8> = Vec::new();
    if n < 0 {
        out.push(45u8);
        let magnitude: u64 = ((-(n + 1)) as u64) + 1;
        push_digits(magnitude, &mut out);
        assert(out@ =~= decimal_text(n as int));
    } else {
        push_digits(n as u64, &mut out);
        assert(out@ =~= decimal_text(n as int));
    }
    out
}

/// Reads a run of digits `s[from..]` as a number no larger than `limit`.
/// Nothing comes back when the run is empty, holds another byte or denotes
/// more than `limit`.
fn parse_digits(s: &[u8], from: usize, limit: u64) -> (r: Option<u64>)
    requires
        from <= s@.len(),
    ensures
        r == (if s@.len() > from && all_digits(s@.subrange(from as int, s@.len() as int))
            && digits_value(s@.subrange(from as int, s@.len() as int)) <= limit {
            Some(digits_value(s@.subrange(from as int, s@.len() as int)) as u64)
        } else {
            None
        }),
{
    let n = s.len();
    if from >= n {
        return None;
    }
    let ghost body = s@.subrange(from as int, n as int);
    let mut acc: u64 = 0;
    let mut i: usize = from;
    while i < n
        invariant
            from <= i <= n,
            n == s@.len(),
            body == s@.subrange(from as int, n as int),
            all_digits(body.subrange(0, i - from)),
            acc == digits_value(body.subrange(0, i - from)),
            acc <= limit,
        decreases n - i,
    {
        let b = s[i];
        if b < 48 || b > 57 {
            assert(body[i - from] == b);
            assert(!all_digits(body));
            return None;
        }
        let d: u64 = (b - 48) as u64;
        let ghost next = body.subrange(0, i - from + 1);
        proof {
            assert(next.drop_last() =~= body.subrange(0, i - from));
            assert(next.last() == b);
            assert(digits_value(next) == acc * 10 + d);
            lemma_digits_value_prefix(body, i - from + 1);
        }
        if limit < d || acc > (limit - d) / 10 {
            assert(acc * 10 + d > limit);
            return None;
        }
        acc = acc * 10 + d;
        i = i + 1;
        proof {
            assert forall|j: int| 0 <= j < next.len() implies is_digit(#[trigger] next[j]) by {
                if j < next.len() - 1 {
                    assert(body.subrange(0, i - from - 1)[j] == next[j]);
                }
            }
        }
    }
    proof {
        assert(body.subrange(0, n - from) =~= body);
    }
    Some(acc)
}

/// Reads a signed numeral as an `i64`.
pub fn parse_i64(s: &[u8]) -> (r: Option<i64>)
    ensures
        r == decimal_i64(s@),
{
    let n = s.len();
    if n == 0 {
        return None;
    }
    let first = s[0];
    if first == 45 {
        match parse_digits(s, 1, 9223372036854775808u64) {
            Some(m) => {
                if m == 9223372036854775808u64 {
                    Some(i64::MIN)
                } else {
                    Some(-(m as i64))
                }
            },
            None => None,
        }
    } else if first == 43 {
        match parse_digits(s, 1, 9223372036854775807u64) {
            Some(m) => Some(m as i64),
            None => None,
        }
    } else {
        proof {
            assert(s@.subrange(0, n as int) =~= s@);
        }
        match parse_digits(s, 0, 9223372036854775807u64) {
            Some(m) => Some(m as i64),
            None => None,
        }
    }
}

/// Reads an unsigned numeral as a `u64`.
pub fn parse_u64(s: &[u8]) -> (r: Option<u64>)
    ensures
        r == decimal_u64(s@),
{
    let n = s.len();
    if n == 0 {
        return None;
    }
    let first = s[0];
    if first == 45 {
        None
    } else if first == 43 {
        parse_digits(s, 1, u64::MAX)
    } else {
        proof {
            assert(s@.subrange(0, n as int) =~= s@);
        }
        parse_digits(s, 0, u64::MAX)
    }
}

/// `+` or `-`.
pub open spec fn is_sign(b: u8) -> bool {
    b == 43 || b == 45
}

/// An ASCII capital letter as its small letter; any other byte unchanged.
pub open spec fn lower(b: u8) -> u8 {
    if 65 <= b <= 90 {
        (b + 32) as u8
    } else {
        b
    }
}

/// Where the run of digits that starts at `from` ends: the first position at
/// or after `from` that holds no digit.
pub open spec fn digit_run_end(s: Seq<u8>, from: int) -> int
    decreases s.len() - from,
{
    if 0 <= from < s.len() && is_digit(s[from]) {
        digit_run_end(s, from + 1)
    } else {
        from
    }
}

/// From `from` to its end, `s` spells `word` when capitals are read as small
/// letters.
pub open spec fn is_word_at(s: Seq<u8>, from: int, word: Seq<u8>) -> bool {
    &&& from + word.len() == s.len()
    &&& forall|i: int| 0 <= i < word.len() ==> lower(#[trigger] s[from + i]) == word[i]
}

/// An exponent starts at `at` and runs to the end: `e` or `E`, an optional
/// sign, at least one digit.
pub open spec fn is_exponent_at(s: Seq<u8>, at: int) -> bool {
    &&& 0 <= at < s.len()
    &&& lower(s[at]) == 101
    &&& {
        let digits = if at + 1 < s.len() && is_sign(s[at + 1]) {
            at + 2
        } else {
            at + 1
        };
        digit_run_end(s, digits) > digits && digit_run_end(s, digits) == s.len()
    }
}

/// A decimal number starts at `from` and runs to the end: digits with at most
/// one point among them, at least one digit in all, then an optional exponent.
pub open spec fn is_number_at(s: Seq<u8>, from: int) -> bool {
    let whole_end = digit_run_end(s, from);
    let has_point = whole_end < s.len() && s[whole_end] == 46;
    let mantissa_end = if has_point {
        digit_run_end(s, whole_end + 1)
    } else {
        whole_end
    };
    let digits = if has_point {
        mantissa_end - from - 1
    } else {
        mantissa_end - from
    };
    &&& digits >= 1
    &&& (mantissa_end == s.len() || is_exponent_at(s, mantissa_end))
}

/// The word `inf`.
pub open spec fn word_inf() -> Seq<u8> {
    seq![105u8, 110u8, 102u8]
}

/// The word `infinity`.
pub open spec fn word_infinity() -> Seq<u8> {
    seq![105u8, 110u8, 102u8, 105u8, 110u8, 105u8, 116u8, 121u8]
}

/// The word `nan`.
pub open spec fn word_nan() -> Seq<u8> {
    seq![110u8, 97u8, 110u8]
}

/// The text is a floating-point literal: an optional sign, then `inf`,
/// `infinity` or `nan` in any mix of capitals, or a decimal number.
pub open spec fn is_float_literal(s: Seq<u8>) -> bool {
    let from: int = if s.len() > 0 && is_sign(s[0]) {
        1
    } else {
        0
    };
    ||| is_word_at(s, from, word_inf())
    ||| is_word_at(s, from, word_infinity())
    ||| is_word_at(s, from, word_nan())
    ||| is_number_at(s, from)
}

/// A run of digits holds digits, and ends inside the text or at its end.
pub proof fn lemma_digit_run(s: Seq<u8>, from: int)
    requires
        0 <= from <= s.len(),
    ensures
        from <= digit_run_end(s, from) <= s.len(),
        forall|i: int| from <= i < digit_run_end(s, from) ==> is_digit(#[trigger] s[i]),
    decreases s.len() - from,
{
    if from < s.len() && is_digit(s[from]) {
        lemma_digit_run(s, from + 1);
    }
}

/// A floating-point literal holds no carriage return.
pub proof fn lemma_float_literal_bytes(s: Seq<u8>)
    requires
        is_float_literal(s),
    ensures
        forall|i: int| 0 <= i < s.len() ==> (#[trigger] s[i]) != 13,
{
    let from: int = if s.len() > 0 && is_sign(s[0]) {
        1
    } else {
        0
    };
    assert forall|i: int| 0 <= i < s.len() implies (#[trigger] s[i]) != 13 by {
        if i < from {
        } else if is_word_at(s, from, word_inf()) {
            assert(lower(s[from + (i - from)]) == word_inf()[i - from]);
        } else if is_word_at(s, from, word_infinity()) {
            assert(lower(s[from + (i - from)]) == word_infinity()[i - from]);
        } else if is_word_at(s, from, word_nan()) {
            assert(lower(s[from + (i - from)]) == word_nan()[i - from]);
        } else {
            let whole_end = digit_run_end(s, from);
            lemma_digit_run(s, from);
            let has_point = whole_end < s.len() && s[whole_end] == 46;
            if has_point {
                lemma_digit_run(s, whole_end + 1);
            }
            let mantissa_end = if has_point {
                digit_run_end(s, whole_end + 1)
            } else {
                whole_end
            };
            if mantissa_end < s.len() {
                let digits = if mantissa_end + 1 < s.len() && is_sign(s[mantissa_end + 1]) {
                    mantissa_end + 2
                } else {
                    mantissa_end + 1
                };
                lemma_digit_run(s, digits);
            }
        }
    }
}

/// Skips the digits that start at `from`.
fn skip_digits(s: &[u8], from: usize) -> (end: usize)
    requires
        from <= s@.len(),
    ensures
        end == digit_run_end(s@, from as int),
        from <= end <= s@.len(),
{
    let n = s.len();
    let mut i: usize = from;
    while i < n && 48 <= s[i] && s[i] <= 57
        invariant
            from <= i <= n,
            n == s@.len(),
            digit_run_end(s@, from as int) == digit_run_end(s@, i as int),
        decreases n - i,
    {
        i = i + 1;
    }
    i
}

/// The byte at `i` with a capital read as its small letter.
fn lower_at(s: &[u8], i: usize) -> (b: u8)
    requires
        i < s@.len(),
    ensures
        b == lower(s@[i as int]),
{
    let b = s[i];
    if 65 <= b && b <= 90 {
        b + 32
    } else {
        b
    }
}

/// Tells whether bytes are a floating-point literal.
pub fn is_float_text(s: &[u8]) -> (b: bool)
    ensures
        b == is_float_literal(s@),
{
    let n = s.len();
    let from: usize = if n > 0 && (s[0] == 43 || s[0] == 45) {
        1
    } else {
        0
    };
    let rest = n - from;
    if rest == 3 && lower_at(s, from) == 105 && lower_at(s, from + 1) == 110 && lower_at(
        s,
        from + 2,
    ) == 102 {
        assert(is_word_at(s@, from as int, word_inf()));
        return true;
    }
    if rest == 3 && lower_at(s, from) == 110 && lower_at(s, from + 1) == 97 && lower_at(
        s,
        from + 2,
    ) == 110 {
        assert(is_word_at(s@, from as int, word_nan()));
        return true;
    }
    if rest == 8 && lower_at(s, from) == 105 && lower_at(s, from + 1) == 110 && lower_at(
        s,
        from + 2,
    ) == 102 && lower_at(s, from + 3) == 105 && lower_at(s, from + 4) == 110 && lower_at(
        s,
        from + 5,
    ) == 105 && lower_at(s, from + 6) == 116 && lower_at(s, from + 7) == 121 {
        assert(is_word_at(s@, from as int, word_infinity()));
        return true;
    }
    proof {
        if is_word_at(s@, from as int, word_inf()) {
            assert(lower(s@[from + 0]) == word_inf()[0]);
            assert(lower(s@[from + 1]) == word_inf()[1]);
            assert(lower(s@[from + 2]) == word_inf()[2]);
        }
        if is_word_at(s@, from as int, word_nan()) {
            assert(lower(s@[from + 0]) == word_nan()[0]);
            assert(lower(s@[from + 1]) == word_nan()[1]);
            assert(lower(s@[from + 2]) == word_nan()[2]);
        }
        if is_word_at(s@, from as int, word_infinity()) {
            assert(lower(s@[from + 0]) == word_infinity()[0]);
            assert(lower(s@[from + 1]) == word_infinity()[1]);
            assert(lower(s@[from + 2]) == word_infinity()[2]);
            assert(lower(s@[from + 3]) == word_infinity()[3]);
            assert(lower(s@[from + 4]) == word_infinity()[4]);
            assert(lower(s@[from + 5]) == word_infinity()[5]);
            assert(lower(s@[from + 6]) == word_infinity()[6]);
            assert(lower(s@[from + 7]) == word_infinity()[7]);
        }
    }
    let whole_end = skip_digits(s, from);
    let has_point = whole_end < n && s[whole_end] == 46;
    let mantissa_end = if has_point {
        skip_digits(s, whole_end + 1)
    } else {
        whole_end
    };
    let digits = if has_point {
        mantissa_end - from - 1
    } else {
        mantissa_end - from
    };
    if digits < 1 {
        return false;
    }
    if mantissa_end == n {
        return true;
    }
    if lower_at(s, mantissa_end) != 101 {
        return false;
    }
    let start = if mantissa_end + 1 < n && (s[mantissa_end + 1] == 43 || s[mantissa_end + 1]
        == 45) {
        mantissa_end + 2
    } else {
        mantissa_end + 1
    };
    let end = skip_digits(s, start);
    end > start && end == n
}

} // verus!
