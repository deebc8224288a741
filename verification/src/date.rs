use crate::text::{chars_of, digit_char, digit_of, text_of_chars};
use crate::views::{lemma_take_all, lemma_take_step};
use vstd::prelude::*;

verus! {

/// Whether `c` is one of the ten digits.
pub open spec fn is_digit(c: char) -> bool {
    '0' <= c <= '9'
}

/// The number that a digit stands for.
pub open spec fn digit_value(c: char) -> int {
    c as int - '0' as int
}

/// The number that a row of digits stands for.
pub open spec fn digits_value(s: Seq<char>) -> int
    decreases s.len(),
{
    if s.len() == 0 {
        0
    } else {
        digits_value(s.drop_last()) * 10 + digit_value(s.last())
    }
}

/// Whether `s` holds digits only.
pub open spec fn all_digits(s: Seq<char>) -> bool {
    forall|i: int| 0 <= i < s.len() ==> is_digit(#[trigger] s[i])
}

/// `s` without a plus sign at its head.
pub open spec fn unsigned_part(s: Seq<char>) -> Seq<char> {
    if s.len() > 0 && s[0] == '+' {
        s.drop_first()
    } else {
        s
    }
}

/// The number that `s` is the decimal notation of, if it is at most `max`:
/// one digit or more, with or without a plus sign before them.
pub open spec fn number_of(s: Seq<char>, max: int) -> Option<int> {
    let body = unsigned_part(s);
    if body.len() > 0 && all_digits(body) && digits_value(body) <= max {
        Some(digits_value(body))
    } else {
        None
    }
}

/// The parts of `s` between the occurrences of `sep`.
pub open spec fn parts_of(s: Seq<char>, sep: char) -> Seq<Seq<char>>
    decreases s.len(),
{
    if s.len() == 0 {
        seq![Seq::empty()]
    } else {
        let init = parts_of(s.drop_last(), sep);
        if s.last() == sep {
            init.push(Seq::empty())
        } else {
            init.drop_last().push(init.last().push(s.last()))
        }
    }
}

/// The decimal notation of a number.
pub open spec fn decimal(n: nat) -> Seq<char>
    decreases n,
{
    if n < 10 {
        seq![digit_of(n as u64)]
    } else {
        decimal(n / 10).push(digit_of((n % 10) as u64))
    }
}

/// `count` zeros.
pub open spec fn zeros(count: nat) -> Seq<char> {
    Seq::new(count, |i: int| '0')
}

/// The decimal notation of `n`, with zeros before it up to `width` characters.
pub open spec fn zero_padded(n: nat, width: nat) -> Seq<char> {
    let d = decimal(n);
    if d.len() >= width {
        d
    } else {
        zeros((width - d.len()) as nat) + d
    }
}

/// A year in four characters or more: zeros stand before a short one, and a
/// minus sign counts as one of the four.
pub open spec fn year_text(y: int) -> Seq<char> {
    if y < 0 {
        seq!['-'] + zero_padded((-y) as nat, 3)
    } else {
        zero_padded(y as nat, 4)
    }
}

/// A date as `YYYY-MM-DD`.
pub open spec fn date_text(y: int, m: int, d: int) -> Seq<char> {
    year_text(y) + seq!['-'] + zero_padded(m as nat, 2) + seq!['-'] + zero_padded(d as nat, 2)
}

/// Whether `y` is a leap year.
pub open spec fn is_leap(y: int) -> bool {
    (y % 4 == 0 && y % 100 != 0) || y % 400 == 0
}

/// The number of days of month `m` of year `y`.
pub open spec fn month_days(y: int, m: int) -> Option<int> {
    if m == 1 || m == 3 || m == 5 || m == 7 || m == 8 || m == 10 || m == 12 {
        Some(31)
    } else if m == 4 || m == 6 || m == 9 || m == 11 {
        Some(30)
    } else if m == 2 {
        if is_leap(y) {
            Some(29)
        } else {
            Some(28)
        }
    } else {
        None
    }
}

/// The day before the date `s`, which is written `YYYY-MM-DD`: the same
/// month with the day before where the day is past the first, else the last
/// day of the month before. Nothing where `s` is not three numbers between
/// hyphens, or the month before is none of the twelve.
pub open spec fn day_before(s: Seq<char>) -> Option<Seq<char>> {
    let parts = parts_of(s, '-');
    if parts.len() != 3 {
        None
    } else {
        match (
            number_of(parts[0], i32::MAX as int),
            number_of(parts[1], u32::MAX as int),
            number_of(parts[2], u32::MAX as int),
        ) {
            (Some(y), Some(m), Some(d)) => {
                if d > 1 {
                    Some(date_text(y, m, d - 1))
                } else {
                    let ny = if m > 1 {
                        y
                    } else {
                        y - 1
                    };
                    let nm = if m > 1 {
                        m - 1
                    } else {
                        12
                    };
                    match month_days(ny, nm) {
                        Some(days) => Some(date_text(ny, nm, days)),
                        None => None,
                    }
                }
            },
            _ => None,
        }
    }
}

/// A row of digits that goes on stands for no smaller number.
proof fn lemma_digits_grow(s: Seq<char>, k: int)
    requires
        0 <= k <= s.len(),
        all_digits(s),
    ensures
        0 <= digits_value(s.take(k)) <= digits_value(s),
    decreases s.len() - k,
{
    if k == 0 {
        assert(s.take(0) =~= Seq::empty());
        lemma_digits_nonneg(s);
    } else {
        lemma_digits_nonneg(s.take(k));
        assert forall|i: int| 0 <= i < s.take(k).len() implies is_digit(#[trigger] s.take(k)[i]) by {
            assert(s.take(k)[i] == s[i]);
        }
    }
    if k < s.len() {
        lemma_take_step(s, k);
        lemma_digits_grow(s, k + 1);
        assert(is_digit(s[k]));
    } else {
        lemma_take_all(s);
    }
}

proof fn lemma_digits_nonneg(s: Seq<char>)
    requires
        all_digits(s),
    ensures
        digits_value(s) >= 0,
    decreases s.len(),
{
    if s.len() > 0 {
        assert forall|i: int| 0 <= i < s.drop_last().len() implies is_digit(
            #[trigger] s.drop_last()[i],
        ) by {
            assert(s.drop_last()[i] == s[i]);
        }
        lemma_digits_nonneg(s.drop_last());
        assert(is_digit(s.last()));
    }
}

/// The value of a digit.
fn value_of_digit(c: char) -> (r: Option<u64>)
    ensures
        r is Some == is_digit(c),
        r is Some ==> r->0 == digit_value(c) && r->0 < 10,
{
    if c == '0' {
        Some(0)
    } else if c == '1' {
        Some(1)
    } else if c == '2' {
        Some(2)
    } else if c == '3' {
        Some(3)
    } else if c == '4' {
        Some(4)
    } else if c == '5' {
        Some(5)
    } else if c == '6' {
        Some(6)
    } else if c == '7' {
        Some(7)
    } else if c == '8' {
        Some(8)
    } else if c == '9' {
        Some(9)
    } else {
        None
    }
}

/// Reads a number in decimal notation that is at most `max`.
pub fn parse_number(s: &Vec<char>, max: u64) -> (r: Option<u64>)
    ensures
        match r {
            Some(v) => number_of(s@, max as int) == Some(v as int),
            None => number_of(s@, max as int) is None,
        },
{
    let start: usize = if s.len() > 0 && s[0] == '+' {
        1
    } else {
        0
    };
    let ghost body = unsigned_part(s@);
    assert(body =~= s@.skip(start as int));
    if start >= s.len() {
        return None;
    }
    let mut acc: u64 = 0;
    let mut i: usize = start;
    assert(body.take(0) =~= Seq::empty());
    while i < s.len()
        invariant
            start <= i <= s.len(),
            body == s@.skip(start as int),
            body == unsigned_part(s@),
            all_digits(body.take(i - start)),
            acc == digits_value(body.take(i - start)),
            acc <= max,
        decreases s.len() - i,
    {
        let ghost k = i - start;
        proof {
            lemma_take_step(body, k);
            assert(body[k] == s@[i as int]);
        }
        match value_of_digit(s[i]) {
            Some(d) => {
                let next: u128 = acc as u128 * 10 + d as u128;
                assert forall|j: int| 0 <= j < body.take(k + 1).len() implies is_digit(
                    #[trigger] body.take(k + 1)[j],
                ) by {
                    if j < k {
                        assert(body.take(k)[j] == body.take(k + 1)[j]);
                    }
                }
                if next > max as u128 {
                    proof {
                        if all_digits(body) {
                            lemma_digits_grow(body, k + 1);
                        }
                        assert(digits_value(body.take(k + 1)) == next);
                    }
                    return None;
                }
                acc = next as u64;
            },
            None => {
                assert(!is_digit(body[k]));
                assert(!all_digits(body));
                return None;
            },
        }
        i += 1;
    }
    proof {
        lemma_take_all(body);
    }
    Some(acc)
}

/// Cuts `s` at each occurrence of `sep`.
pub fn split_at_char(s: &Vec<char>, sep: char) -> (parts: Vec<Vec<char>>)
    ensures
        parts.deep_view() == parts_of(s@, sep),
{
    let mut parts: Vec<Vec<char>> = Vec::new();
    let mut current: Vec<char> = Vec::new();
    let mut i: usize = 0;
    let ghost mut done: Seq<Seq<char>> = Seq::empty();
    assert(parts.deep_view() =~= done);
    assert(s@.take(0) =~= Seq::empty());
    while i < s.len()
        invariant
            i <= s.len(),
            parts.deep_view() == done,
            parts_of(s@.take(i as int), sep) == done.push(current@),
        decreases s.len() - i,
    {
        proof {
            lemma_take_step(s@, i as int);
        }
        let ghost init = parts_of(s@.take(i as int), sep);
        if s[i] == sep {
            let ghost before_vec = parts;
            let mut finished: Vec<char> = Vec::new();
            std::mem::swap(&mut current, &mut finished);
            parts.push(finished);
            proof {
                assert(finished.deep_view() =~= finished@);
                assert(parts.deep_view() =~= done.push(finished@));
                done = done.push(finished@);
                assert(current@ =~= Seq::empty());
            }
        } else {
            current.push(s[i]);
            proof {
                assert(init.drop_last() =~= done);
            }
        }
        i += 1;
    }
    proof {
        lemma_take_all(s@);
    }
    let ghost before_vec = parts;
    parts.push(current);
    assert(current.deep_view() =~= current@);
    assert(parts.deep_view() =~= done.push(current@));
    parts
}

/// The decimal notation of a number.
pub fn decimal_chars(n: u64) -> (out: Vec<char>)
    ensures
        out@ == decimal(n as nat),
    decreases n,
{
    if n < 10 {
        let mut out: Vec<char> = Vec::new();
        out.push(digit_char(n));
        assert(out@ =~= seq![digit_of(n)]);
        out
    } else {
        let mut out = decimal_chars(n / 10);
        out.push(digit_char(n % 10));
        out
    }
}

/// Appends the decimal notation of `n` to `out`, with zeros before it up to
/// `width` characters.
fn push_padded(out: &mut Vec<char>, n: u64, width: usize)
    ensures
        final(out)@ == old(out)@ + zero_padded(n as nat, width as nat),
{
    let digits = decimal_chars(n);
    let ghost start = out@;
    let mut k: usize = digits.len();
    assert(out@ =~= start + zeros(0));
    while k < width
        invariant
            digits.len() <= k,
            k <= width || k == digits.len(),
            out@ == start + zeros((k - digits.len()) as nat),
        decreases width - k,
    {
        out.push('0');
        assert(out@ =~= start + zeros((k + 1 - digits.len()) as nat));
        k += 1;
    }
    let ghost padded_start = out@;
    let mut i: usize = 0;
    assert(out@ =~= padded_start + digits@.take(0));
    while i < digits.len()
        invariant
            i <= digits.len(),
            out@ == padded_start + digits@.take(i as int),
        decreases digits.len() - i,
    {
        out.push(digits[i]);
        assert(out@ =~= padded_start + digits@.take(i + 1));
        i += 1;
    }
    proof {
        lemma_take_all(digits@);
        if digits@.len() >= width {
            assert(padded_start =~= start);
        } else {
            assert(out@ =~= start + (zeros((width - digits@.len()) as nat) + digits@));
        }
    }
}

/// A date as `YYYY-MM-DD`.
fn date_chars(y: i64, m: u64, d: u64) -> (out: Vec<char>)
    requires
        -1 <= y <= i32::MAX,
    ensures
        out@ == date_text(y as int, m as int, d as int),
{
    let mut out: Vec<char> = Vec::new();
    if y < 0 {
        out.push('-');
        push_padded(&mut out, 1, 3);
        assert(out@ =~= year_text(y as int));
    } else {
        push_padded(&mut out, y as u64, 4);
        assert(out@ =~= year_text(y as int));
    }
    out.push('-');
    push_padded(&mut out, m, 2);
    out.push('-');
    push_padded(&mut out, d, 2);
    assert(out@ =~= date_text(y as int, m as int, d as int));
    out
}

/// The day before a date that is written `YYYY-MM-DD`.
pub fn date_minus_one(date_str: &str) -> (r: Option<String>)
    ensures
        r.deep_view() == day_before(date_str@),
{
    let chars = chars_of(date_str);
    let parts = split_at_char(&chars, '-');
    if parts.len() != 3 {
        return None;
    }
    proof {
        assert(parts.deep_view()[0] == parts@[0]@);
        assert(parts.deep_view()[1] == parts@[1]@);
        assert(parts.deep_view()[2] == parts@[2]@);
    }
    let y = match parse_number(&parts[0], 0x7fff_ffff) {
        Some(v) => v,
        None => {
            return None;
        },
    };
    let m = match parse_number(&parts[1], 0xffff_ffff) {
        Some(v) => v,
        None => {
            return None;
        },
    };
    let d = match parse_number(&parts[2], 0xffff_ffff) {
        Some(v) => v,
        None => {
            return None;
        },
    };
    if d > 1 {
        let out = date_chars(y as i64, m, d - 1);
        return Some(text_of_chars(&out));
    }
    let ny: i64 = if m > 1 {
        y as i64
    } else {
        y as i64 - 1
    };
    let nm: u64 = if m > 1 {
        m - 1
    } else {
        12
    };
    let days: u64 = if nm == 1 || nm == 3 || nm == 5 || nm == 7 || nm == 8 || nm == 10 || nm == 12 {
        31
    } else if nm == 4 || nm == 6 || nm == 9 || nm == 11 {
        30
    } else if nm == 2 {
        if (ny % 4 == 0 && ny % 100 != 0) || ny % 400 == 0 {
            29
        } else {
            28
        }
    } else {
        return None;
    };
    let out = date_chars(ny, nm, days);
    Some(text_of_chars(&out))
}

/// The whole number that `s` is the decimal notation of, if it is one that
/// fits 64 bits: digits, with or without a sign before them.
pub open spec fn integer_of(s: Seq<char>) -> Option<int> {
    if s.len() > 0 && s[0] == '-' {
        let digits = s.drop_first();
        if digits.len() > 0 && all_digits(digits) && digits_value(digits) <= 0x8000_0000_0000_0000 {
            Some(-digits_value(digits))
        } else {
            None
        }
    } else {
        number_of(s, i64::MAX as int)
    }
}

/// The whole number before the one that `s` is the notation of, where
/// there is one that fits 64 bits.
pub open spec fn number_before(s: Seq<char>) -> Option<Seq<char>> {
    match integer_of(s) {
        Some(v) => if v > i64::MIN {
            Some(signed_number(v - 1))
        } else {
            None
        },
        None => None,
    }
}

/// A whole number in decimal notation, with a minus sign if it is negative.
pub open spec fn signed_number(n: int) -> Seq<char> {
    if n < 0 {
        seq!['-'] + decimal((-n) as nat)
    } else {
        decimal(n as nat)
    }
}

/// Reads a whole number in decimal notation.
pub fn parse_integer(s: &str) -> (r: Option<i64>)
    ensures
        match r {
            Some(v) => integer_of(s@) == Some(v as int),
            None => integer_of(s@) is None,
        },
{
    let chars = chars_of(s);
    if chars.len() > 0 && chars[0] == '-' {
        let mut digits: Vec<char> = Vec::new();
        let mut i: usize = 1;
        assert(digits@ =~= chars@.drop_first().take(0));
        while i < chars.len()
            invariant
                1 <= i <= chars.len(),
                digits@ == chars@.drop_first().take(i - 1),
            decreases chars.len() - i,
        {
            digits.push(chars[i]);
            assert(digits@ =~= chars@.drop_first().take(i as int));
            i += 1;
        }
        proof {
            lemma_take_all(chars@.drop_first());
        }
        if digits.len() == 0 || digits[0] == '+' {
            proof {
                if digits.len() > 0 {
                    assert(!is_digit(digits@[0]));
                }
            }
            return None;
        }
        assert(unsigned_part(digits@) == digits@);
        match parse_number(&digits, 0x8000_0000_0000_0000) {
            Some(v) => {
                if v == 0x8000_0000_0000_0000 {
                    Some(-0x8000_0000_0000_0000)
                } else {
                    Some(-(v as i64))
                }
            },
            None => None,
        }
    } else {
        match parse_number(&chars, 0x7fff_ffff_ffff_ffff) {
            Some(v) => Some(v as i64),
            None => None,
        }
    }
}

/// Writes a whole number in decimal notation.
pub fn integer_text(n: i64) -> (out: String)
    ensures
        out@ == signed_number(n as int),
{
    if n < 0 {
        let magnitude: u64 = ((-(n + 1)) as u64) + 1;
        let mut chars: Vec<char> = Vec::new();
        chars.push('-');
        let digits = decimal_chars(magnitude);
        let mut i: usize = 0;
        assert(chars@ =~= seq!['-'] + digits@.take(0));
        while i < digits.len()
            invariant
                i <= digits.len(),
                chars@ == seq!['-'] + digits@.take(i as int),
            decreases digits.len() - i,
        {
            chars.push(digits[i]);
            assert(chars@ =~= seq!['-'] + digits@.take(i + 1));
            i += 1;
        }
        proof {
            lemma_take_all(digits@);
        }
        text_of_chars(&chars)
    } else {
        let digits = decimal_chars(n as u64);
        text_of_chars(&digits)
    }
}

/// The whole number before the one that `s` is the notation of.
pub fn number_minus_one(s: &str) -> (r: Option<String>)
    ensures
        r.deep_view() == number_before(s@),
{
    match parse_integer(s) {
        Some(v) => {
            if v > -0x8000_0000_0000_0000 {
                Some(integer_text(v - 1))
            } else {
                None
            }
        },
        None => None,
    }
}

} // verus!
