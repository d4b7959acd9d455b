//! Reading and writing decimal integers, with exact specifications.

use vstd::prelude::*;
use vstd::string::StrSliceExecFns;
use vstd::string::StringExecFns;

verus! {

/// Whether `c` is one of the decimal digits `'0'..='9'`.
pub open spec fn is_dec_digit(c: char) -> bool {
    48 <= c as int && c as int <= 57
}

/// Numeric value of a decimal digit.
pub open spec fn digit_val(c: char) -> int {
    c as int - 48
}

/// Whether every character of `s` is a decimal digit.
pub open spec fn all_dec_digits(s: Seq<char>) -> bool {
    forall|i: int| 0 <= i < s.len() ==> is_dec_digit(#[trigger] s[i])
}

/// Value of a string of decimal digits, most significant first.
pub open spec fn dec_value(s: Seq<char>) -> int
    decreases s.len(),
{
    if s.len() == 0 {
        0
    } else {
        dec_value(s.drop_last()) * 10 + digit_val(s.last())
    }
}

pub proof fn lemma_dec_value_nonneg(s: Seq<char>)
    requires
        all_dec_digits(s),
    ensures
        dec_value(s) >= 0,
    decreases s.len(),
{
    if s.len() > 0 {
        assert(forall|i: int| 0 <= i < s.len() - 1 ==> is_dec_digit(#[trigger] s.drop_last()[i]));
        lemma_dec_value_nonneg(s.drop_last());
    }
}

/// The value of a prefix of a digit string never exceeds the value of the whole.
pub proof fn lemma_dec_value_prefix(s: Seq<char>, i: int)
    requires
        all_dec_digits(s),
        0 <= i <= s.len(),
    ensures
        dec_value(s.take(i)) <= dec_value(s),
    decreases s.len() - i,
{
    if i < s.len() {
        lemma_dec_value_prefix(s, i + 1);
        assert(s.take(i + 1).drop_last() =~= s.take(i));
        assert(s.take(i + 1).last() == s[i]);
        assert(forall|j: int| 0 <= j < i ==> is_dec_digit(#[trigger] s.take(i)[j]));
        lemma_dec_value_nonneg(s.take(i));
        assert(dec_value(s.take(i + 1)) == dec_value(s.take(i)) * 10 + digit_val(s[i]));
    } else {
        assert(s.take(i) =~= s);
    }
}

/// The digits of a signed decimal string: everything after the optional sign.
pub open spec fn int_text_body(s: Seq<char>) -> Seq<char> {
    if s.len() > 0 && (s[0] == '+' || s[0] == '-') {
        s.drop_first()
    } else {
        s
    }
}

/// Result of reading a decimal integer with an optional leading sign, as
/// `parse_i32` returns it: the value on success, a message otherwise.
pub open spec fn i32_from_text(s: Seq<char>) -> Result<int, Seq<char>> {
    if s.len() == 0 {
        Err("cannot parse integer from empty string"@)
    } else if int_text_body(s).len() == 0 || !all_dec_digits(int_text_body(s)) {
        Err("invalid digit found in string"@)
    } else {
        let v = if s[0] == '-' {
            -dec_value(int_text_body(s))
        } else {
            dec_value(int_text_body(s))
        };
        if v > i32::MAX {
            Err("number too large to fit in target type"@)
        } else if v < i32::MIN {
            Err("number too small to fit in target type"@)
        } else {
            Ok(v)
        }
    }
}

/// Reads a decimal integer with an optional leading `+` or `-` sign.
pub fn parse_i32(s: &str) -> (r: Result<i32, String>)
    ensures
        match r {
            Ok(v) => i32_from_text(s@) == Ok::<int, Seq<char>>(v as int),
            Err(e) => i32_from_text(s@) == Err::<int, Seq<char>>(e@),
        },
{
    let n = s.unicode_len();
    if n == 0 {
        return Err("cannot parse integer from empty string".to_owned());
    }
    let c0 = s.get_char(0);
    let neg = c0 == '-';
    let start: usize = if c0 == '+' || c0 == '-' {
        1
    } else {
        0
    };
    let ghost body: Seq<char> = int_text_body(s@);
    assert(body =~= s@.skip(start as int));
    if start == n {
        return Err("invalid digit found in string".to_owned());
    }
    let mut i: usize = start;
    while i < n
        invariant
            start <= i <= n,
            1 <= n == s@.len(),
            start < n,
            start == 0 || start == 1,
            (start == 1) == (s@[0] == '+' || s@[0] == '-'),
            body == int_text_body(s@),
            body =~= s@.skip(start as int),
            forall|j: int| 0 <= j < i - start ==> is_dec_digit(#[trigger] body[j]),
        decreases n - i,
    {
        let c = s.get_char(i);
        let u = c as u32;
        if u < 48 || u > 57 {
            proof {
                assert(body[i - start as int] == c);
                assert(!is_dec_digit(body[i - start as int]));
                assert(!all_dec_digits(body));
            }
            return Err("invalid digit found in string".to_owned());
        }
        assert(is_dec_digit(body[i - start as int]));
        i = i + 1;
    }
    assert(all_dec_digits(body));
    proof {
        lemma_dec_value_nonneg(body);
    }
    // Accumulate the magnitude; stop as soon as it can no longer fit.
    let mut acc: u64 = 0;
    let mut k: usize = start;
    while k < n
        invariant
            start <= k <= n,
            1 <= n == s@.len(),
            start == 0 || start == 1,
            start < n,
            (start == 1) == (s@[0] == '+' || s@[0] == '-'),
            body == int_text_body(s@),
            body =~= s@.skip(start as int),
            all_dec_digits(body),
            acc == dec_value(body.take(k - start as int)),
            acc <= 2147483648,
            !neg ==> acc <= 2147483647,
            neg == (s@[0] == '-'),
        decreases n - k,
    {
        let c = s.get_char(k);
        proof {
            assert(body[k - start as int] == c);
            assert(is_dec_digit(body[k - start as int]));
        }
        let d: u64 = (c as u32 - 48) as u64;
        assert(d == digit_val(body[k - start as int]));
        acc = acc * 10 + d;
        proof {
            assert(body.take(k - start as int + 1).drop_last() =~= body.take(k - start as int));
            assert(body.take(k - start as int + 1).last() == body[k - start as int]);
        }
        k = k + 1;
        if acc > 2147483648 {
            proof {
                lemma_dec_value_prefix(body, k - start as int);
            }
            if neg {
                return Err("number too small to fit in target type".to_owned());
            } else {
                return Err("number too large to fit in target type".to_owned());
            }
        }
        if !neg && acc > 2147483647 {
            proof {
                lemma_dec_value_prefix(body, k - start as int);
            }
            return Err("number too large to fit in target type".to_owned());
        }
    }
    assert(body.take(n - start as int) =~= body);
    if neg {
        let v: i32 = (-(acc as i64)) as i32;
        Ok(v)
    } else {
        let v: i32 = acc as i32;
        Ok(v)
    }
}

/// Case-blind match of `s` against a lower-case word `t`: equal up to the
/// ASCII distance between a capital and a small letter.
pub open spec fn matches_lower(s: Seq<char>, t: Seq<char>) -> bool {
    s.len() == t.len() && forall|i: int|
        0 <= i < s.len() ==> (s[i] == t[i] || #[trigger] (s[i] as int) == t[i] as int - 32)
}

/// Case-blind comparison of `s` against a lower-case word `t`.
pub fn eq_ignore_case(s: &str, t: &str) -> (r: bool)
    ensures
        r == matches_lower(s@, t@),
{
    let n = s.unicode_len();
    if n != t.unicode_len() {
        return false;
    }
    let mut i: usize = 0;
    while i < n
        invariant
            0 <= i <= n,
            n == s@.len(),
            n == t@.len(),
            forall|j: int|
                0 <= j < i ==> (s@[j] == t@[j] || #[trigger] (s@[j] as int) == t@[j] as int - 32),
        decreases n - i,
    {
        let a = s.get_char(i) as u32;
        let b = t.get_char(i) as u32;
        if !(a == b || (b >= 32 && a == b - 32)) {
            return false;
        }
        i = i + 1;
    }
    true
}

/// One step of the float-text automaton. The states: 0 before any mantissa
/// character, 1 among the integer digits, 2 after a leading dot with no digit
/// yet, 3 among the fraction digits, 4 right after the exponent mark, 5 after
/// the exponent's sign, 6 among the exponent digits; -1 once rejected.
pub open spec fn float_step(q: int, c: char) -> int {
    if q == 0 {
        if is_dec_digit(c) {
            1
        } else if c == '.' {
            2
        } else {
            -1
        }
    } else if q == 1 {
        if is_dec_digit(c) {
            1
        } else if c == '.' {
            3
        } else if c == 'e' || c == 'E' {
            4
        } else {
            -1
        }
    } else if q == 2 {
        if is_dec_digit(c) {
            3
        } else {
            -1
        }
    } else if q == 3 {
        if is_dec_digit(c) {
            3
        } else if c == 'e' || c == 'E' {
            4
        } else {
            -1
        }
    } else if q == 4 {
        if is_dec_digit(c) {
            6
        } else if c == '+' || c == '-' {
            5
        } else {
            -1
        }
    } else if q == 5 || q == 6 {
        if is_dec_digit(c) {
            6
        } else {
            -1
        }
    } else {
        -1
    }
}

/// The automaton run over `s` from state `q`.
pub open spec fn float_run(q: int, s: Seq<char>) -> int
    decreases s.len(),
{
    if s.len() == 0 {
        q
    } else {
        float_run(float_step(q, s[0]), s.drop_first())
    }
}

/// Whether `s` is a plain decimal number text: digits with at most one dot
/// and at least one digit, then an optional exponent part.
pub open spec fn is_number_text(s: Seq<char>) -> bool {
    float_run(0, s) == 1 || float_run(0, s) == 3 || float_run(0, s) == 6
}

/// Whether `s` is a well-formed float text: an optional sign, then `inf`,
/// `infinity` or `nan` in any case, or a decimal number with an optional
/// exponent. This is the acceptance grammar Rust documents for reading an
/// `f32` value, which rejects only malformed text, never a value's size.
pub open spec fn is_float_text(s: Seq<char>) -> bool {
    s.len() > 0 && {
        let body = int_text_body(s);
        matches_lower(body, "inf"@) || matches_lower(body, "infinity"@) || matches_lower(
            body,
            "nan"@,
        ) || is_number_text(body)
    }
}

/// Whether `s` reads as a 32-bit float.
pub fn float_text_ok(s: &str) -> (r: bool)
    ensures
        r == is_float_text(s@),
{
    let n = s.unicode_len();
    if n == 0 {
        return false;
    }
    let c0 = s.get_char(0);
    let start: usize = if c0 == '+' || c0 == '-' {
        1
    } else {
        0
    };
    let ghost body: Seq<char> = int_text_body(s@);
    proof {
        assert(body =~= s@.skip(start as int));
    }
    let rest = s.substring_char(start, n);
    proof {
        assert(rest@ =~= body);
    }
    if eq_ignore_case(rest, "inf") || eq_ignore_case(rest, "infinity") || eq_ignore_case(
        rest,
        "nan",
    ) {
        return true;
    }
    let m = rest.unicode_len();
    let mut q: i8 = 0;
    let mut i: usize = 0;
    proof {
        assert(rest@.skip(0) =~= rest@);
    }
    while i < m
        invariant
            0 <= i <= m,
            m == rest@.len(),
            n == s@.len(),
            start + m == n,
            rest@ == s@.subrange(start as int, n as int),
            -1 <= q <= 6,
            float_run(0, rest@) == float_run(q as int, rest@.skip(i as int)),
        decreases m - i,
    {
        let c = s.get_char(start + i);
        proof {
            assert(rest@[i as int] == c);
            assert(rest@.skip(i as int)[0] == c);
            assert(rest@.skip(i as int).drop_first() =~= rest@.skip(i as int + 1));
        }
        let u = c as u32;
        let digit = u >= 48 && u <= 57;
        q = if q == 0 {
            if digit {
                1
            } else if c == '.' {
                2
            } else {
                -1
            }
        } else if q == 1 {
            if digit {
                1
            } else if c == '.' {
                3
            } else if c == 'e' || c == 'E' {
                4
            } else {
                -1
            }
        } else if q == 2 {
            if digit {
                3
            } else {
                -1
            }
        } else if q == 3 {
            if digit {
                3
            } else if c == 'e' || c == 'E' {
                4
            } else {
                -1
            }
        } else if q == 4 {
            if digit {
                6
            } else if c == '+' || c == '-' {
                5
            } else {
                -1
            }
        } else if q == 5 || q == 6 {
            if digit {
                6
            } else {
                -1
            }
        } else {
            -1
        };
        i = i + 1;
    }
    q == 1 || q == 3 || q == 6
}

/// Decimal digits of `n`, most significant first.
pub open spec fn dec_digits_of(n: nat) -> Seq<char>
    decreases n,
{
    if n < 10 {
        seq![dec_digit_char(n)]
    } else {
        dec_digits_of(n / 10).push(dec_digit_char(n % 10))
    }
}

/// The digit character for a value below ten.
pub open spec fn dec_digit_char(d: nat) -> char {
    if d == 0 {
        '0'
    } else if d == 1 {
        '1'
    } else if d == 2 {
        '2'
    } else if d == 3 {
        '3'
    } else if d == 4 {
        '4'
    } else if d == 5 {
        '5'
    } else if d == 6 {
        '6'
    } else if d == 7 {
        '7'
    } else if d == 8 {
        '8'
    } else {
        '9'
    }
}

fn dec_digit_str(d: u64) -> (r: &'static str)
    requires
        d < 10,
    ensures
        r@ =~= seq![dec_digit_char(d as nat)],
{
    proof {
        reveal_strlit("0");
        reveal_strlit("1");
        reveal_strlit("2");
        reveal_strlit("3");
        reveal_strlit("4");
        reveal_strlit("5");
        reveal_strlit("6");
        reveal_strlit("7");
        reveal_strlit("8");
        reveal_strlit("9");
    }
    if d == 0 {
        "0"
    } else if d == 1 {
        "1"
    } else if d == 2 {
        "2"
    } else if d == 3 {
        "3"
    } else if d == 4 {
        "4"
    } else if d == 5 {
        "5"
    } else if d == 6 {
        "6"
    } else if d == 7 {
        "7"
    } else if d == 8 {
        "8"
    } else {
        "9"
    }
}

/// Writes `n` in decimal.
pub fn u64_to_string(n: u64) -> (r: String)
    ensures
        r@ == dec_digits_of(n as nat),
    decreases n,
{
    if n < 10 {
        dec_digit_str(n).to_owned()
    } else {
        let mut s = u64_to_string(n / 10);
        s.append(dec_digit_str(n % 10));
        assert(s@ =~= dec_digits_of((n / 10) as nat).push(dec_digit_char((n % 10) as nat)));
        s
    }
}

} // verus!
