//! Canonical text forms of the scalar leaf values: decimal rendering and
//! parsing of integers, with proofs that parsing inverts rendering.

use vstd::prelude::*;

verus! {

/// The decimal digit character for `d` (meaningful for `d < 10`).
pub open spec fn spec_digit(d: nat) -> char {
    if d == 0 {
        '0'
    } else if d == 1 {
        '1'
    } else if d == 2 {
        '2'
    } else if d == 3 {
        '3'
    } else if d == 4 {
        '4'
    } else if d == 5 {
        '5'
    } else if d == 6 {
        '6'
    } else if d == 7 {
        '7'
    } else if d == 8 {
        '8'
    } else {
        '9'
    }
}

/// Whether `c` is a decimal digit character.
pub open spec fn is_digit(c: char) -> bool {
    c == '0' || c == '1' || c == '2' || c == '3' || c == '4' || c == '5' || c == '6' || c == '7'
        || c == '8' || c == '9'
}

/// The numeric value of a digit character (0 for non-digits).
pub open spec fn digit_of(c: char) -> nat {
    if c == '1' {
        1
    } else if c == '2' {
        2
    } else if c == '3' {
        3
    } else if c == '4' {
        4
    } else if c == '5' {
        5
    } else if c == '6' {
        6
    } else if c == '7' {
        7
    } else if c == '8' {
        8
    } else if c == '9' {
        9
    } else {
        0
    }
}

/// The canonical decimal rendering of `n`: no sign, no leading zeros
/// (except for `n == 0`, which renders as `"0"`).
pub open spec fn dec_digits(n: nat) -> Seq<char>
    decreases n,
{
    if n < 10 {
        seq![spec_digit(n)]
    } else {
        dec_digits(n / 10).push(spec_digit(n % 10))
    }
}

/// The numeric value of a digit string (most significant digit first).
pub open spec fn digits_val(s: Seq<char>) -> nat
    decreases s.len(),
{
    if s.len() == 0 {
        0
    } else {
        digits_val(s.drop_last()) * 10 + digit_of(s.last())
    }
}

/// Whether every character of `s` is a decimal digit.
pub open spec fn all_digits(s: Seq<char>) -> bool {
    forall|i: int| 0 <= i < s.len() ==> is_digit(#[trigger] s[i])
}

/// The value read back from a canonical rendering is the number rendered.
pub proof fn lemma_dec_digits_val(n: nat)
    ensures
        digits_val(dec_digits(n)) == n,
        all_digits(dec_digits(n)),
        dec_digits(n).len() >= 1,
    decreases n,
{
    if n < 10 {
        let s = dec_digits(n);
        assert(s =~= seq![spec_digit(n)]);
        assert(s.drop_last() =~= Seq::<char>::empty());
        assert(digits_val(s.drop_last()) == 0);
        assert(digit_of(spec_digit(n)) == n);
        assert(digits_val(s) == digits_val(s.drop_last()) * 10 + digit_of(s.last()));
        assert(s.last() == spec_digit(n));
        assert(digits_val(s) == n);
    } else {
        lemma_dec_digits_val(n / 10);
        let hd = dec_digits(n / 10);
        let s = dec_digits(n);
        assert(s == hd.push(spec_digit(n % 10)));
        assert(s.drop_last() =~= hd);
        assert(s.last() == spec_digit(n % 10));
        assert(digit_of(spec_digit(n % 10)) == n % 10);
        assert(digits_val(s) == (n / 10) * 10 + n % 10);
        assert((n / 10) * 10 + n % 10 == n) by {
            vstd::arithmetic::div_mod::lemma_fundamental_div_mod(n as int, 10);
        }
        assert forall|i: int| 0 <= i < s.len() implies is_digit(#[trigger] s[i]) by {
            if i < hd.len() {
                assert(s[i] == hd[i]);
            }
        }
    }
}

/// A prefix of a digit string never has a larger value than the whole.
pub proof fn lemma_digits_val_prefix(s: Seq<char>, i: int)
    requires
        0 <= i <= s.len(),
    ensures
        digits_val(s.take(i)) <= digits_val(s),
    decreases s.len(),
{
    if i == s.len() {
        assert(s.take(i) =~= s);
    } else {
        assert(s.len() > 0);
        lemma_digits_val_prefix(s.drop_last(), i);
        assert(s.take(i) =~= s.drop_last().take(i));
        assert(digits_val(s) == digits_val(s.drop_last()) * 10 + digit_of(s.last()));
        assert(digits_val(s.drop_last()) * 10 >= digits_val(s.drop_last()));
    }
}

/// The parse of a raw text as an unsigned number: defined exactly when the
/// text is a nonempty digit string whose value fits in a `u64`.
pub open spec fn spec_parse_u64(s: Seq<char>) -> Option<u64> {
    if s.len() > 0 && all_digits(s) && digits_val(s) <= u64::MAX {
        Some(digits_val(s) as u64)
    } else {
        None
    }
}

/// The parse of a raw text as a signed number: an optional leading minus
/// sign followed by a nonempty digit string, the value in `i64` range.
pub open spec fn spec_parse_i64(s: Seq<char>) -> Option<i64> {
    if s.len() > 0 && s[0] == '-' {
        let t = s.drop_first();
        if t.len() > 0 && all_digits(t) && digits_val(t) <= 0x8000000000000000 {
            Some((0 - digits_val(t) as int) as i64)
        } else {
            None
        }
    } else {
        if s.len() > 0 && all_digits(s) && digits_val(s) <= i64::MAX {
            Some(digits_val(s) as i64)
        } else {
            None
        }
    }
}

/// The canonical text of a signed number: a minus sign for negative values,
/// then the decimal digits of the magnitude.
pub open spec fn spec_i64_text(v: i64) -> Seq<char> {
    if v >= 0 {
        dec_digits(v as nat)
    } else {
        seq!['-'] + dec_digits((0 - v as int) as nat)
    }
}

fn digit_char(d: u64) -> (r: char)
    requires
        d < 10,
    ensures
        r == spec_digit(d as nat),
{
    if d == 0 {
        '0'
    } else if d == 1 {
        '1'
    } else if d == 2 {
        '2'
    } else if d == 3 {
        '3'
    } else if d == 4 {
        '4'
    } else if d == 5 {
        '5'
    } else if d == 6 {
        '6'
    } else if d == 7 {
        '7'
    } else if d == 8 {
        '8'
    } else {
        '9'
    }
}

fn digit_value(c: char) -> (r: Option<u64>)
    ensures
        match r {
            Some(d) => is_digit(c) && d < 10 && d as nat == digit_of(c),
            None => !is_digit(c),
        },
{
    match c {
        '0' => Some(0),
        '1' => Some(1),
        '2' => Some(2),
        '3' => Some(3),
        '4' => Some(4),
        '5' => Some(5),
        '6' => Some(6),
        '7' => Some(7),
        '8' => Some(8),
        '9' => Some(9),
        _ => None,
    }
}

/// The numeric value of a digit character, as an index-sized integer.
pub fn digit_value_usize(c: char) -> (r: Option<usize>)
    ensures
        match r {
            Some(d) => is_digit(c) && d < 10 && d as nat == digit_of(c),
            None => !is_digit(c),
        },
{
    match c {
        '0' => Some(0),
        '1' => Some(1),
        '2' => Some(2),
        '3' => Some(3),
        '4' => Some(4),
        '5' => Some(5),
        '6' => Some(6),
        '7' => Some(7),
        '8' => Some(8),
        '9' => Some(9),
        _ => None,
    }
}

/// Append the canonical decimal rendering of `n` to `s`.
pub fn push_u64_digits(s: &mut String, n: u64)
    ensures
        final(s)@ == old(s)@ + dec_digits(n as nat),
    decreases n,
{
    if n < 10 {
        s.push(digit_char(n));
        proof {
            assert(final(s)@ =~= old(s)@ + seq![spec_digit(n as nat)]);
        }
    } else {
        push_u64_digits(s, n / 10);
        s.push(digit_char(n % 10));
        proof {
            assert(final(s)@ =~= old(s)@ + dec_digits((n / 10) as nat).push(
                spec_digit((n % 10) as nat),
            ));
        }
    }
}

/// Append the canonical decimal rendering of the index `n` to `s`.
pub fn push_usize_digits(s: &mut String, n: usize)
    ensures
        final(s)@ == old(s)@ + dec_digits(n as nat),
    decreases n,
{
    if n < 10 {
        s.push(digit_char(n as u64));
        proof {
            assert(final(s)@ =~= old(s)@ + seq![spec_digit(n as nat)]);
        }
    } else {
        push_usize_digits(s, n / 10);
        s.push(digit_char((n % 10) as u64));
        proof {
            assert(final(s)@ =~= old(s)@ + dec_digits((n / 10) as nat).push(
                spec_digit((n % 10) as nat),
            ));
        }
    }
}

/// Append the canonical text of the signed number `v` to `s`.
pub fn push_i64_text(s: &mut String, v: i64)
    ensures
        final(s)@ == old(s)@ + spec_i64_text(v),
{
    if v >= 0 {
        push_u64_digits(s, v as u64);
    } else {
        let ghost pre = s@;
        s.push('-');
        let m: u64 = if v == i64::MIN {
            9223372036854775808u64
        } else {
            (0 - v) as u64
        };
        proof {
            assert(m as nat == (0 - v as int) as nat);
        }
        push_u64_digits(s, m);
        proof {
            assert(final(s)@ =~= pre + spec_i64_text(v));
        }
    }
}

/// Parse a raw text as an unsigned decimal number.
pub fn parse_u64(s: &str) -> (r: Option<u64>)
    ensures
        r == spec_parse_u64(s@),
{
    let n = s.unicode_len();
    if n == 0 {
        return None;
    }
    let mut acc: u64 = 0;
    let mut i: usize = 0;
    while i < n
        invariant
            n == s@.len(),
            0 < n,
            i <= n,
            all_digits(s@.take(i as int)),
            acc as nat == digits_val(s@.take(i as int)),
        decreases n - i,
    {
        let c = s.get_char(i);
        let ghost pre = s@.take(i as int);
        proof {
            assert(s@.take(i + 1).drop_last() =~= pre);
            assert(s@.take(i + 1).last() == s@[i as int]);
        }
        match digit_value(c) {
            None => {
                proof {
                    assert(s@[i as int] == c);
                    assert(!all_digits(s@));
                }
                return None;
            },
            Some(d) => {
                if acc > (u64::MAX - d) / 10 {
                    proof {
                        assert(digits_val(s@.take(i + 1)) == acc as nat * 10 + d);
                        assert(acc as nat * 10 + d > u64::MAX) by {
                            vstd::arithmetic::div_mod::lemma_fundamental_div_mod(
                                (u64::MAX - d) as int,
                                10,
                            );
                        }
                        lemma_digits_val_prefix(s@, i + 1);
                        assert(digits_val(s@) > u64::MAX);
                    }
                    return None;
                }
                proof {
                    assert(acc as nat * 10 + d <= u64::MAX) by {
                        vstd::arithmetic::div_mod::lemma_fundamental_div_mod(
                            (u64::MAX - d) as int,
                            10,
                        );
                    }
                }
                acc = acc * 10 + d;
            },
        }
        i = i + 1;
    }
    proof {
        assert(s@.take(n as int) =~= s@);
    }
    Some(acc)
}

/// Parse a raw text as a signed decimal number.
pub fn parse_i64(s: &str) -> (r: Option<i64>)
    ensures
        r == spec_parse_i64(s@),
{
    let n = s.unicode_len();
    if n > 0 && s.get_char(0) == '-' {
        let t = s.substring_char(1, n);
        proof {
            assert(t@ =~= s@.drop_first());
        }
        match parse_u64(t) {
            Some(m) => {
                if m <= 9223372036854775807u64 {
                    Some(0 - (m as i64))
                } else if m == 9223372036854775808u64 {
                    Some(i64::MIN)
                } else {
                    proof {
                        assert(digits_val(t@) == m as nat);
                    }
                    None
                }
            },
            None => {
                proof {
                    if t@.len() > 0 && all_digits(t@) && digits_val(t@) <= 0x8000000000000000 {
                        assert(digits_val(t@) <= u64::MAX);
                        assert(spec_parse_u64(t@) is Some);
                    }
                }
                None
            },
        }
    } else {
        match parse_u64(s) {
            Some(m) => {
                if m <= i64::MAX as u64 {
                    Some(m as i64)
                } else {
                    None
                }
            },
            None => None,
        }
    }
}

/// Parsing the canonical unsigned rendering gives back the number.
pub proof fn lemma_parse_u64_round(n: u64)
    ensures
        spec_parse_u64(dec_digits(n as nat)) == Some(n),
{
    lemma_dec_digits_val(n as nat);
}

/// Parsing the canonical signed text gives back the number.
pub proof fn lemma_parse_i64_round(v: i64)
    ensures
        spec_parse_i64(spec_i64_text(v)) == Some(v),
{
    if v >= 0 {
        lemma_dec_digits_val(v as nat);
        let s = dec_digits(v as nat);
        assert(is_digit(s[0]));
        assert(s[0] != '-');
    } else {
        let m = (0 - v as int) as nat;
        lemma_dec_digits_val(m);
        let s = spec_i64_text(v);
        assert(s[0] == '-');
        assert(s.drop_first() =~= dec_digits(m));
        assert(m <= 0x8000000000000000);
        assert((0 - digits_val(dec_digits(m)) as int) as i64 == v);
    }
}

} // verus!
