//! Which raw cell texts a column of a given type accepts.
//!
//! A cell is accepted when it parses as a value of the column's type: `NULL` (in any ASCII
//! case) for every type, a decimal integer within range for `INT` and `BIGINT`, the standard
//! floating-point literal syntax for `FLOAT`, any text for `TEXT`, and one of the boolean
//! words for `BOOLEAN`.
use crate::sql::types::DataType;
use crate::text::{
    all_digits, chars_of, digits_part, digits_value, is_digit, lower, to_lower, to_unicode_lower, unicode_lower, trim, trim_chars,
};
use vstd::prelude::*;

verus! {

/// The text without one leading `+` or `-`.
pub open spec fn unsigned_part(s: Seq<char>) -> Seq<char> {
    if s.len() > 0 && (s[0] == '+' || s[0] == '-') {
        s.drop_first()
    } else {
        s
    }
}

/// A decimal integer (an optional sign, then at least one digit) whose magnitude is at most
/// `neg_bound` when negative and `pos_bound` otherwise.
pub open spec fn int_literal_within(s: Seq<char>, neg_bound: nat, pos_bound: nat) -> bool {
    if s.len() > 0 && s[0] == '-' {
        let d = s.drop_first();
        d.len() > 0 && all_digits(d) && digits_value(d) <= neg_bound
    } else {
        let d = digits_part(s);
        d.len() > 0 && all_digits(d) && digits_value(d) <= pos_bound
    }
}

pub open spec fn is_exp_mark(c: char) -> bool {
    c == 'e' || c == 'E'
}

/// Digits with at most one `.` among them, and at least one digit.
pub open spec fn mantissa_ok(m: Seq<char>) -> bool {
    &&& forall|j: int| 0 <= j < m.len() ==> is_digit(#[trigger] m[j]) || m[j] == '.'
    &&& forall|i: int, j: int| 0 <= i < j < m.len() ==> !(#[trigger] m[i] == '.' && #[trigger] m[j] == '.')
    &&& exists|j: int| 0 <= j < m.len() && is_digit(#[trigger] m[j])
}

/// An optional sign followed by at least one digit.
pub open spec fn exponent_ok(e: Seq<char>) -> bool {
    let d = unsigned_part(e);
    d.len() > 0 && all_digits(d)
}

/// A decimal number: a mantissa, optionally followed by `e` or `E` and an exponent.
pub open spec fn decimal_number(b: Seq<char>) -> bool {
    ||| (forall|j: int| 0 <= j < b.len() ==> !is_exp_mark(#[trigger] b[j])) && mantissa_ok(b)
    ||| exists|i: int|
        0 <= i < b.len() && is_exp_mark(#[trigger] b[i]) && mantissa_ok(b.take(i)) && exponent_ok(b.skip(i + 1))
}

/// The floating-point literal syntax: an optional sign, then `inf`, `infinity`, `nan` (in
/// any case) or a decimal number.
pub open spec fn float_literal(s: Seq<char>) -> bool {
    let b = unsigned_part(s);
    let w = lower(b);
    w == "inf"@ || w == "infinity"@ || w == "nan"@ || decimal_number(b)
}

/// Whether a trimmed cell is `NULL`, in any ASCII case.
pub open spec fn is_null_text(t: Seq<char>) -> bool {
    lower(t) == "null"@
}

/// Whether a trimmed, non-`NULL` cell parses as a value of `dt`.
pub open spec fn parses_as(t: Seq<char>, dt: DataType) -> bool {
    match dt {
        DataType::Int => int_literal_within(t, 0x8000_0000, 0x7fff_ffff),
        DataType::BigInt => int_literal_within(t, 0x8000_0000_0000_0000, 0x7fff_ffff_ffff_ffff),
        DataType::Float => float_literal(t),
        DataType::Text => true,
        DataType::Boolean => is_bool_word(unicode_lower(t)),
    }
}

/// Whether the digits of `d` (all of them digits, at least one) have a value of at most
/// `bound`.
fn digits_within(d: &[char], from: usize, bound: u64) -> (r: bool)
    requires
        from <= d@.len(),
    ensures
        r == (d@.skip(from as int).len() > 0 && all_digits(d@.skip(from as int)) && digits_value(d@.skip(from as int)) <= bound),
{
    let ghost ds = d@.skip(from as int);
    if from >= d.len() {
        return false;
    }
    let mut v: u64 = 0;
    let mut i = from;
    let mut over = false;
    while i < d.len()
        invariant
            from <= i <= d@.len(),
            ds == d@.skip(from as int),
            ds.len() > 0,
            forall|j: int| from <= j < i ==> is_digit(#[trigger] d@[j]),
            !over ==> v == digits_value(ds.take(i - from)) && v <= bound,
            over ==> digits_value(ds.take(i - from)) > bound,
        decreases d@.len() - i,
    {
        let c = d[i];
        if !('0' <= c && c <= '9') {
            assert(!is_digit(ds[i - from]));
            return false;
        }
        let digit = (c as u32 - '0' as u32) as u64;
        assert(ds.take(i + 1 - from).drop_last() =~= ds.take(i - from));
        assert(ds.take(i + 1 - from).last() == c);
        proof {
            lemma_digits_step(ds.take(i + 1 - from));
        }
        if !over {
            if digit > bound || v > (bound - digit) / 10 {
                assert(v * 10 + digit > bound) by (nonlinear_arith)
                    requires
                        digit > bound || v > (bound - digit) / 10,
                        digit <= 9,
                ;
                over = true;
            } else {
                assert(v * 10 + digit <= bound) by (nonlinear_arith)
                    requires
                        v <= (bound - digit) / 10,
                        digit <= bound,
                ;
                v = v * 10 + digit;
            }
        } else {
            assert(digits_value(ds.take(i + 1 - from)) >= digits_value(ds.take(i - from)) * 10) by (nonlinear_arith)
                requires
                    digits_value(ds.take(i + 1 - from)) == digits_value(ds.take(i - from)) * 10 + digit,
            ;
        }
        i += 1;
    }
    assert(ds.take(i - from) =~= ds);
    !over
}

proof fn lemma_digits_step(d: Seq<char>)
    requires
        d.len() > 0,
    ensures
        digits_value(d) == digits_value(d.drop_last()) * 10 + ((d.last() as u32) - ('0' as u32)) as nat,
{
}

fn int_within(t: &[char], neg_bound: u64, pos_bound: u64) -> (r: bool)
    ensures
        r == int_literal_within(t@, neg_bound as nat, pos_bound as nat),
{
    if t.len() > 0 && t[0] == '-' {
        assert(t@.drop_first() =~= t@.skip(1));
        digits_within(t, 1, neg_bound)
    } else if t.len() > 0 && t[0] == '+' {
        assert(digits_part(t@) =~= t@.skip(1));
        digits_within(t, 1, pos_bound)
    } else {
        assert(digits_part(t@) =~= t@.skip(0));
        digits_within(t, 0, pos_bound)
    }
}

fn mantissa_check(m: &[char], from: usize, to: usize) -> (r: bool)
    requires
        from <= to <= m@.len(),
    ensures
        r == mantissa_ok(m@.subrange(from as int, to as int)),
{
    let ghost s = m@.subrange(from as int, to as int);
    let mut i = from;
    let mut dot = false;
    let mut digit = false;
    let mut dot_at: usize = 0;
    while i < to
        invariant
            from <= i <= to <= m@.len(),
            s == m@.subrange(from as int, to as int),
            forall|j: int| 0 <= j < i - from ==> is_digit(#[trigger] s[j]) || s[j] == '.',
            dot <==> exists|j: int| 0 <= j < i - from && #[trigger] s[j] == '.',
            dot ==> from <= dot_at < i && s[dot_at - from] == '.',
            forall|a: int, b: int| 0 <= a < b < i - from ==> !(#[trigger] s[a] == '.' && #[trigger] s[b] == '.'),
            digit <==> exists|j: int| 0 <= j < i - from && is_digit(#[trigger] s[j]),
        decreases to - i,
    {
        let c = m[i];
        assert(s[i - from] == c);
        if c == '.' {
            if dot {
                assert(s[dot_at - from] == '.' && s[i - from] == '.');
                return false;
            }
            dot = true;
            dot_at = i;
        } else if '0' <= c && c <= '9' {
            digit = true;
        } else {
            return false;
        }
        i += 1;
    }
    digit
}

fn exponent_check(m: &[char], from: usize) -> (r: bool)
    requires
        from <= m@.len(),
    ensures
        r == exponent_ok(m@.skip(from as int)),
{
    let ghost e = m@.skip(from as int);
    if from < m.len() && (m[from] == '+' || m[from] == '-') {
        assert(unsigned_part(e) =~= m@.skip(from + 1));
        digits_within_any(m, from + 1)
    } else {
        assert(unsigned_part(e) =~= e);
        digits_within_any(m, from)
    }
}

/// Whether everything from `from` on is a digit, and there is at least one.
fn digits_within_any(d: &[char], from: usize) -> (r: bool)
    requires
        from <= d@.len(),
    ensures
        r == (d@.skip(from as int).len() > 0 && all_digits(d@.skip(from as int))),
{
    if from >= d.len() {
        return false;
    }
    let mut i = from;
    while i < d.len()
        invariant
            from <= i <= d@.len(),
            forall|j: int| from <= j < i ==> is_digit(#[trigger] d@[j]),
        decreases d@.len() - i,
    {
        if !('0' <= d[i] && d[i] <= '9') {
            assert(!is_digit(d@.skip(from as int)[i - from]));
            return false;
        }
        i += 1;
    }
    assert forall|j: int| 0 <= j < d@.skip(from as int).len() implies is_digit(#[trigger] d@.skip(from as int)[j]) by {
        assert(d@.skip(from as int)[j] == d@[from + j]);
    }
    true
}

fn word_is(w: &Vec<char>, lit: &str) -> (r: bool)
    ensures
        r == (w@ == lit@),
{
    crate::text::chars_eq(w.as_slice(), chars_of(lit).as_slice())
}

fn float_check(t: &[char]) -> (r: bool)
    ensures
        r == float_literal(t@),
{
    let start: usize = if t.len() > 0 && (t[0] == '+' || t[0] == '-') {
        1
    } else {
        0
    };
    let ghost b = unsigned_part(t@);
    assert(b =~= t@.skip(start as int));
    let body = crate::text::subseq(t, start, t.len());
    assert(body@ =~= b);
    let w = to_lower(body.as_slice());
    if word_is(&w, "inf") || word_is(&w, "infinity") || word_is(&w, "nan") {
        return true;
    }
    let n = body.len();
    let mut i: usize = 0;
    while i < n && body[i] != 'e' && body[i] != 'E'
        invariant
            n == body@.len(),
            i <= n,
            forall|j: int| 0 <= j < i ==> !is_exp_mark(#[trigger] body@[j]),
        decreases n - i,
    {
        i += 1;
    }
    if i == n {
        assert(body@.subrange(0, n as int) =~= body@);
        let ok = mantissa_check(body.as_slice(), 0, n);
        proof {
            if decimal_number(b) && !ok {
                let k = choose|k: int|
                    0 <= k < b.len() && is_exp_mark(#[trigger] b[k]) && mantissa_ok(b.take(k)) && exponent_ok(b.skip(k + 1));
                assert(!is_exp_mark(body@[k]));
            }
        }
        ok
    } else {
        assert(is_exp_mark(body@[i as int]));
        assert(body@.subrange(0, i as int) =~= body@.take(i as int));
        let m_ok = mantissa_check(body.as_slice(), 0, i);
        let e_ok = exponent_check(body.as_slice(), i + 1);
        proof {
            if m_ok && e_ok {
                assert(is_exp_mark(b[i as int]) && mantissa_ok(b.take(i as int)) && exponent_ok(b.skip(i + 1)));
            }
            if decimal_number(b) && !(m_ok && e_ok) {
                assert(!(forall|j: int| 0 <= j < b.len() ==> !is_exp_mark(#[trigger] b[j]))) by {
                    assert(is_exp_mark(b[i as int]));
                }
                let k = choose|k: int|
                    0 <= k < b.len() && is_exp_mark(#[trigger] b[k]) && mantissa_ok(b.take(k)) && exponent_ok(b.skip(k + 1));
                if k < i {
                    assert(!is_exp_mark(body@[k]));
                } else if k > i {
                    let m = b.take(k);
                    assert(m[i as int] == b[i as int]);
                    assert(is_digit(m[i as int]) || m[i as int] == '.');
                } else {
                }
            }
        }
        m_ok && e_ok
    }
}

/// Whether lower-cased text `w` is one of the words a BOOLEAN cell may hold.
pub open spec fn is_bool_word(w: Seq<char>) -> bool {
    w == "true"@ || w == "t"@ || w == "1"@ || w == "false"@ || w == "f"@ || w == "0"@
}

/// The word, the initial and the digit of a truth value.
pub open spec fn truth_spellings(b: bool) -> Set<Seq<char>> {
    if b {
        set!["true"@, "t"@, "1"@]
    } else {
        set!["false"@, "f"@, "0"@]
    }
}

/// Both truth values can be stored in a BOOLEAN cell, each written as its word, its initial
/// or its digit in any letter case: a cell parses as a BOOLEAN value exactly when its
/// lower-cased text spells one of the two truth values.
pub proof fn lemma_boolean_cells(t: Seq<char>)
    ensures
        parses_as(t, DataType::Boolean) <==> exists|b: bool| #[trigger] truth_spellings(b).contains(unicode_lower(t)),
        truth_spellings(true).contains(unicode_lower(t)) ==> parses_as(t, DataType::Boolean),
        truth_spellings(false).contains(unicode_lower(t)) ==> parses_as(t, DataType::Boolean),
{
    let w = unicode_lower(t);
    if is_bool_word(w) {
        if truth_spellings(true).contains(w) {
            assert(truth_spellings(true).contains(w));
        } else {
            assert(truth_spellings(false).contains(w));
        }
    }
    if truth_spellings(true).contains(w) || truth_spellings(false).contains(w) {
        assert(is_bool_word(w));
    }
}

/// Whether lower-cased text `w` is one of the words a BOOLEAN cell may hold.
pub fn bool_word(w: &Vec<char>) -> (r: bool)
    ensures
        r == is_bool_word(w@),
{
    word_is(w, "true") || word_is(w, "t") || word_is(w, "1") || word_is(w, "false") || word_is(w, "f") || word_is(w, "0")
}

/// Checks a raw cell against a column type. `Ok(true)` is a `NULL`, `Ok(false)` a value of
/// the type, and `Err(())` text that does not parse as one.
pub fn check_value(raw: &str, data_type: &DataType) -> (r: Result<bool, ()>)
    ensures
        is_null_text(trim(raw@)) ==> r == Ok::<bool, ()>(true),
        !is_null_text(trim(raw@)) && parses_as(trim(raw@), *data_type) ==> r == Ok::<bool, ()>(false),
        !is_null_text(trim(raw@)) && !parses_as(trim(raw@), *data_type) ==> r == Err::<bool, ()>(()),
{
    let t = trim_chars(chars_of(raw).as_slice());
    let w = to_lower(t.as_slice());
    if word_is(&w, "null") {
        return Ok(true);
    }
    let ok = match data_type {
        DataType::Int => int_within(t.as_slice(), 0x8000_0000, 0x7fff_ffff),
        DataType::BigInt => int_within(t.as_slice(), 0x8000_0000_0000_0000, 0x7fff_ffff_ffff_ffff),
        DataType::Float => float_check(t.as_slice()),
        DataType::Text => true,
        DataType::Boolean => {
            let wl = to_unicode_lower(t.as_slice());
            bool_word(&wl)
        },
    };
    if ok {
        Ok(false)
    } else {
        Err(())
    }
}

} // verus!
