//! Decimal text of integers: formatting and parsing.

use vstd::prelude::*;

verus! {

/// Whether `c` is an ASCII decimal digit.
pub open spec fn is_digit(c: char) -> bool {
    48 <= c as int && c as int <= 57
}

/// The value of the decimal digit `c`.
pub open spec fn digit_val(c: char) -> int {
    c as int - 48
}

/// The character of the decimal digit `d` (`d < 10`).
pub open spec fn digit_char(d: int) -> char {
    (d + 48) as char
}

/// A non-empty run of decimal digits.
pub open spec fn all_digits(s: Seq<char>) -> bool {
    &&& s.len() > 0
    &&& forall|i: int| 0 <= i < s.len() ==> is_digit(#[trigger] s[i])
}

/// The value of a run of decimal digits, most significant first.
pub open spec fn digits_value(s: Seq<char>) -> int
    decreases s.len(),
{
    if s.len() == 0 {
        0
    } else {
        10 * digits_value(s.drop_last()) + digit_val(s.last())
    }
}

/// What parsing `s` as an integer in `lo..=hi` gives: an optional sign
/// (`-` only when `signed`), then at least one decimal digit and nothing
/// else; the value must lie in the range.
pub open spec fn parse_int_spec(s: Seq<char>, signed: bool, lo: int, hi: int) -> Option<int> {
    let has_sign = s.len() > 0 && (s[0] == '+' || (signed && s[0] == '-'));
    let neg = s.len() > 0 && signed && s[0] == '-';
    let body = if has_sign { s.skip(1) } else { s };
    if !all_digits(body) {
        None
    } else {
        let v = if neg { -digits_value(body) } else { digits_value(body) };
        if lo <= v && v <= hi { Some(v) } else { None }
    }
}

/// What parsing `s` as an `i32` gives.
pub open spec fn parse_i32_spec(s: Seq<char>) -> Option<int> {
    parse_int_spec(s, true, i32::MIN as int, i32::MAX as int)
}

/// What parsing `s` as a `usize` gives.
pub open spec fn parse_usize_spec(s: Seq<char>) -> Option<int> {
    parse_int_spec(s, false, 0, usize::MAX as int)
}

/// Decimal text of a natural number, without leading zeros.
pub open spec fn nat_text(n: nat) -> Seq<char>
    decreases n,
{
    if n < 10 {
        seq![digit_char(n as int)]
    } else {
        nat_text(n / 10).push(digit_char((n % 10) as int))
    }
}

/// Decimal text of an integer, with a leading `-` when negative.
pub open spec fn int_text(v: int) -> Seq<char> {
    if v < 0 {
        seq!['-'] + nat_text((-v) as nat)
    } else {
        nat_text(v as nat)
    }
}

/// A prefix of a run of digits has no larger value than the whole run.
pub proof fn lemma_digits_prefix_le(s: Seq<char>, k: int)
    requires
        0 <= k <= s.len(),
        forall|i: int| 0 <= i < s.len() ==> is_digit(#[trigger] s[i]),
    ensures
        digits_value(s.take(k)) <= digits_value(s),
        0 <= digits_value(s),
    decreases s.len(),
{
    if s.len() > 0 {
        let t = s.drop_last();
        assert forall|i: int| 0 <= i < t.len() implies is_digit(#[trigger] t[i]) by {
            assert(t[i] == s[i]);
        }
        assert(is_digit(s[s.len() - 1]));
        if k == s.len() {
            assert(s.take(k) =~= s);
            lemma_digits_prefix_le(t, 0);
        } else {
            assert(s.take(k) =~= t.take(k));
            lemma_digits_prefix_le(t, k);
        }
    } else {
        assert(s.take(k) =~= s);
    }
}

/// The one-character text of a decimal digit.
fn digit_str(d: u64) -> (r: &'static str)
    requires
        d < 10,
    ensures
        r@ == seq![digit_char(d as int)],
{
    if d == 0 {
        proof { reveal_strlit("0"); }
        "0"
    } else if d == 1 {
        proof { reveal_strlit("1"); }
        "1"
    } else if d == 2 {
        proof { reveal_strlit("2"); }
        "2"
    } else if d == 3 {
        proof { reveal_strlit("3"); }
        "3"
    } else if d == 4 {
        proof { reveal_strlit("4"); }
        "4"
    } else if d == 5 {
        proof { reveal_strlit("5"); }
        "5"
    } else if d == 6 {
        proof { reveal_strlit("6"); }
        "6"
    } else if d == 7 {
        proof { reveal_strlit("7"); }
        "7"
    } else if d == 8 {
        proof { reveal_strlit("8"); }
        "8"
    } else {
        proof { reveal_strlit("9"); }
        "9"
    }
}

/// Appends the decimal text of `n` to `out`.
fn push_nat(out: &mut String, n: u64)
    ensures
        final(out)@ == old(out)@ + nat_text(n as nat),
    decreases n,
{
    if n >= 10 {
        push_nat(out, n / 10);
    }
    out.append(digit_str(n % 10));
    proof {
        if n >= 10 {
            assert(old(out)@ + nat_text(n as nat) =~= old(out)@ + nat_text((n / 10) as nat) + seq![digit_char((n % 10) as int)]);
        } else {
            assert(nat_text(n as nat) =~= seq![digit_char((n % 10) as int)]);
        }
    }
}

/// Appends the decimal text of `v` to `out`, as `{}` formats an `i32`.
pub fn push_i32(out: &mut String, v: i32)
    ensures
        final(out)@ == old(out)@ + int_text(v as int),
{
    if v < 0 {
        proof { reveal_strlit("-"); }
        out.append("-");
        let m: i64 = v as i64;
        let mag: u64 = (-m) as u64;
        push_nat(out, mag);
        proof {
            assert(old(out)@ + int_text(v as int) =~= old(out)@ + seq!['-'] + nat_text(mag as nat));
        }
    } else {
        push_nat(out, v as u64);
    }
}

/// Reads the digits of `s` from `start` on as a number no larger than
/// `limit`; `None` when one of them is not a digit, when there are none,
/// or when the number exceeds `limit`.
fn parse_magnitude(s: &str, start: usize, limit: u64) -> (r: Option<u64>)
    requires
        start <= s@.len(),
    ensures
        ({
            let body = s@.skip(start as int);
            match r {
                Some(v) => all_digits(body) && v == digits_value(body) && v <= limit,
                None => !all_digits(body) || digits_value(body) > limit,
            }
        }),
{
    let n = s.unicode_len();
    let ghost body = s@.skip(start as int);
    if start >= n {
        return None;
    }
    let mut acc: u64 = 0;
    let mut i = start;
    while i < n
        invariant
            start <= i <= n,
            n == s@.len(),
            body == s@.skip(start as int),
            forall|j: int| 0 <= j < i - start ==> is_digit(#[trigger] body[j]),
            acc as int == digits_value(body.take(i - start)),
            acc <= limit,
        decreases n - i,
    {
        let c = s.get_char(i);
        assert(c == body[i - start]);
        if !('0' <= c && c <= '9') {
            return None;
        }
        let d = (c as u32 - '0' as u32) as u64;
        assert(body.take(i - start + 1).drop_last() =~= body.take(i - start));
        assert(body.take(i - start + 1).last() == c);
        let next = match acc.checked_mul(10) {
            Some(t) => t.checked_add(d),
            None => None,
        };
        match next {
            Some(t) => {
                if t > limit {
                    proof { lemma_exceeds(body, i - start + 1); }
                    return None;
                }
                acc = t;
            },
            None => {
                proof { lemma_exceeds(body, i - start + 1); }
                return None;
            },
        }
        i = i + 1;
    }
    assert(body.take(n - start) =~= body);
    Some(acc)
}

/// If a prefix of `body` is a run of digits whose value is `v`, then a
/// digit run `body` has value at least `v`.
proof fn lemma_exceeds(body: Seq<char>, k: int)
    requires
        0 < k <= body.len(),
        forall|j: int| 0 <= j < k ==> is_digit(#[trigger] body[j]),
    ensures
        all_digits(body) ==> digits_value(body) >= digits_value(body.take(k)),
{
    if all_digits(body) {
        lemma_digits_prefix_le(body, k);
    }
}

/// Parses `s` as `str::parse::<i32>` does.
pub fn parse_i32(s: &str) -> (r: Option<i32>)
    ensures
        match r {
            Some(v) => parse_i32_spec(s@) == Some(v as int),
            None => parse_i32_spec(s@) is None,
        },
{
    let n = s.unicode_len();
    if n == 0 {
        return None;
    }
    let first = s.get_char(0);
    let neg = first == '-';
    let start: usize = if first == '+' || first == '-' { 1 } else { 0 };
    let limit: u64 = if neg { 2147483648 } else { 2147483647 };
    assert(start == 1 ==> s@.skip(start as int) == s@.skip(1));
    assert(start == 0 ==> s@.skip(0) =~= s@);
    match parse_magnitude(s, start, limit) {
        Some(m) => {
            if neg {
                let v: i64 = -(m as i64);
                Some(v as i32)
            } else {
                Some(m as i32)
            }
        },
        None => None,
    }
}

/// Parses `s` as `str::parse::<usize>` does.
pub fn parse_usize(s: &str) -> (r: Option<usize>)
    ensures
        match r {
            Some(v) => parse_usize_spec(s@) == Some(v as int),
            None => parse_usize_spec(s@) is None,
        },
{
    let n = s.unicode_len();
    if n == 0 {
        return None;
    }
    let first = s.get_char(0);
    let start: usize = if first == '+' { 1 } else { 0 };
    assert(start == 0 ==> s@.skip(0) =~= s@);
    match parse_magnitude(s, start, usize::MAX as u64) {
        Some(m) => Some(m as usize),
        None => None,
    }
}

/// The decimal text of a natural number is a run of digits worth that
/// number.
pub(crate) proof fn lemma_nat_text_digits(n: nat)
    ensures
        all_digits(nat_text(n)),
        digits_value(nat_text(n)) == n,
    decreases n,
{
    if n >= 10 {
        lemma_nat_text_digits(n / 10);
        let t = nat_text(n);
        assert(t.drop_last() =~= nat_text(n / 10));
        assert(digit_val(digit_char((n % 10) as int)) == n % 10);
        assert(t.last() == digit_char((n % 10) as int));
        assert(digits_value(t) == 10 * digits_value(nat_text(n / 10)) + n % 10);
        assert(10 * (n / 10) + n % 10 == n);
        assert forall|i: int| 0 <= i < t.len() implies is_digit(#[trigger] t[i]) by {
            if i < t.len() - 1 {
                assert(t[i] == nat_text(n / 10)[i]);
            }
        }
    } else {
        let t = nat_text(n);
        assert(t.drop_last() =~= Seq::<char>::empty());
        assert(digit_val(digit_char(n as int)) == n);
        assert(t.last() == digit_char(n as int));
        assert(digits_value(t) == 10 * digits_value(t.drop_last()) + digit_val(t.last()));
    }
}

/// Law: the text that `push_i32` writes for a number (as in a drawn line)
/// reads back as the same number through `parse_i32` (as in `-p pid`).
pub proof fn lemma_int_text_parses(v: i32)
    ensures
        parse_i32_spec(int_text(v as int)) == Some(v as int),
{
    if v < 0 {
        let m = (-(v as int)) as nat;
        lemma_nat_text_digits(m);
        let s = int_text(v as int);
        assert(s[0] == '-');
        assert(s.skip(1) =~= nat_text(m));
    } else {
        lemma_nat_text_digits(v as nat);
        let s = int_text(v as int);
        assert(is_digit(s[0]));
    }
}

} // verus!
