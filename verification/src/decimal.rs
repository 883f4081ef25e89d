//! Decimal numerals: reading a run of digits as a number, and writing a
//! number with leading zeros.

use crate::text::{is_ascii_digit, is_digit};
use vstd::prelude::*;

verus! {

/// The number that the digit `c` stands for.
pub open spec fn digit_value(c: char) -> nat {
    (c as u32 - 0x30) as nat
}

/// The digit that stands for `d`, where `d` is below ten.
pub open spec fn digit_char(d: nat) -> char {
    ((d + 0x30) as u8) as char
}

/// Whether `s` holds digits only.
pub open spec fn all_digits(s: Seq<char>) -> bool {
    forall|i: int| 0 <= i < s.len() ==> is_digit(#[trigger] s[i])
}

/// The number that the digits `s` denote in base ten; 0 for no digits.
pub open spec fn decimal_value(s: Seq<char>) -> nat
    decreases s.len(),
{
    if s.len() == 0 {
        0
    } else {
        decimal_value(s.drop_last()) * 10 + digit_value(s.last())
    }
}

/// The shortest numeral of `n` in base ten.
pub open spec fn decimal(n: nat) -> Seq<char>
    decreases n,
{
    if n < 10 {
        seq![digit_char(n)]
    } else {
        decimal(n / 10).push(digit_char(n % 10))
    }
}

/// `k` zeros.
pub open spec fn zeros(k: nat) -> Seq<char> {
    Seq::new(k, |i: int| '0')
}

/// The numeral of `n` in base ten, with zeros in front of it until it is
/// `width` characters long. A numeral that is longer than `width` stays as it
/// is.
pub open spec fn zero_padded(n: nat, width: nat) -> Seq<char> {
    let d = decimal(n);
    if d.len() >= width {
        d
    } else {
        zeros((width - d.len()) as nat) + d
    }
}

/// A longer run of digits denotes no smaller number than its start does.
pub proof fn lemma_value_grows(s: Seq<char>, k: int)
    requires
        0 <= k <= s.len(),
        all_digits(s),
    ensures
        decimal_value(s.take(k)) <= decimal_value(s),
    decreases s.len() - k,
{
    if k < s.len() {
        let t = s.drop_last();
        assert(all_digits(t)) by {
            assert forall|i: int| 0 <= i < t.len() implies is_digit(#[trigger] t[i]) by {
                assert(t[i] == s[i]);
            }
        }
        assert(t.take(k) == s.take(k));
        lemma_value_grows(t, k);
    } else {
        assert(s.take(k) == s);
    }
}

/// The shortest numeral holds digits only, starts with no zero unless it is
/// `0` itself, and denotes the number it was made from.
pub proof fn lemma_decimal(n: nat)
    ensures
        decimal(n).len() >= 1,
        all_digits(decimal(n)),
        decimal_value(decimal(n)) == n,
        n > 0 ==> decimal(n)[0] != '0',
        n == 0 ==> decimal(n) == seq!['0'],
    decreases n,
{
    if n < 10 {
        assert(decimal(n).drop_last() == Seq::<char>::empty());
        assert(decimal_value(decimal(n).drop_last()) == 0);
    } else {
        lemma_decimal(n / 10);
        let d = decimal(n);
        assert(d.drop_last() == decimal(n / 10));
        assert(d[0] == decimal(n / 10)[0]);
        assert forall|i: int| 0 <= i < d.len() implies is_digit(#[trigger] d[i]) by {
            if i < d.len() - 1 {
                assert(d[i] == decimal(n / 10)[i]);
            }
        }
    }
}

/// Zeros in front of a run of digits do not change the number it denotes.
pub proof fn lemma_zeros_in_front(k: nat, s: Seq<char>)
    ensures
        decimal_value(zeros(k) + s) == decimal_value(s),
    decreases s.len(), k,
{
    let z = zeros(k) + s;
    if s.len() > 0 {
        assert(z.drop_last() == zeros(k) + s.drop_last());
        assert(z.last() == s.last());
        lemma_zeros_in_front(k, s.drop_last());
    } else if k > 0 {
        assert(z.drop_last() == zeros((k - 1) as nat) + s);
        lemma_zeros_in_front((k - 1) as nat, s);
    }
}

/// A padded numeral holds digits only, is as long as the longer of `width`
/// and the shortest numeral, ends with the shortest numeral, has only zeros
/// before it, and denotes `n`.
pub proof fn lemma_zero_padded(n: nat, width: nat)
    ensures
        all_digits(zero_padded(n, width)),
        zero_padded(n, width).len() >= width,
        zero_padded(n, width).len() == if decimal(n).len() >= width {
            decimal(n).len()
        } else {
            width
        },
        zero_padded(n, width).skip(zero_padded(n, width).len() - decimal(n).len()) == decimal(n),
        forall|i: int|
            0 <= i < zero_padded(n, width).len() - decimal(n).len() ==> #[trigger] zero_padded(
                n,
                width,
            )[i] == '0',
        decimal_value(zero_padded(n, width)) == n,
{
    lemma_decimal(n);
    let d = decimal(n);
    if d.len() < width {
        lemma_zeros_in_front((width - d.len()) as nat, d);
    }
}

/// The one-character text of the digit for `d`.
fn digit_str(d: u64) -> (r: &'static str)
    requires
        d < 10,
    ensures
        r@ == seq![digit_char(d as nat)],
{
    proof {
        reveal_strlit("0");
        reveal_strlit("1");
        reveal_strlit("2");
        reveal_strlit("3");
        reveal_strlit("4");
        reveal_strlit("5");
        reveal_strlit("6");
        reveal_strlit("7");
        reveal_strlit("8");
        reveal_strlit("9");
    }
    let r = if d == 0 {
        "0"
    } else if d == 1 {
        "1"
    } else if d == 2 {
        "2"
    } else if d == 3 {
        "3"
    } else if d == 4 {
        "4"
    } else if d == 5 {
        "5"
    } else if d == 6 {
        "6"
    } else if d == 7 {
        "7"
    } else if d == 8 {
        "8"
    } else {
        "9"
    };
    assert(r@ =~= seq![digit_char(d as nat)]);
    r
}

/// Reads the characters of `chars` between `from` and `to` as a number in
/// base ten. `None` where one of them is no digit, or the number is above
/// `max`. No characters at all read as 0.
pub fn parse_digits(chars: &Vec<char>, from: usize, to: usize, max: u64) -> (r: Option<u64>)
    requires
        from <= to <= chars.len(),
    ensures
        r == if all_digits(chars@.subrange(from as int, to as int)) && decimal_value(
            chars@.subrange(from as int, to as int),
        ) <= max {
            Some(decimal_value(chars@.subrange(from as int, to as int)) as u64)
        } else {
            None
        },
{
    let ghost s = chars@.subrange(from as int, to as int);
    let mut acc: u64 = 0;
    let mut i: usize = from;
    proof {
        assert(s.take(0) == Seq::<char>::empty());
    }
    while i < to
        invariant
            from <= i <= to <= chars.len(),
            s == chars@.subrange(from as int, to as int),
            all_digits(s.take(i - from)),
            acc == decimal_value(s.take(i - from)),
            acc <= max,
        decreases to - i,
    {
        let c = chars[i];
        assert(c == s[i - from]);
        if !is_ascii_digit(c) {
            return None;
        }
        let d: u64 = (c as u32 - 0x30) as u64;
        proof {
            let t = s.take(i - from + 1);
            assert(t.drop_last() == s.take(i - from));
            assert(t.last() == c);
            assert(decimal_value(t) == acc * 10 + d);
            assert(all_digits(t)) by {
                assert forall|j: int| 0 <= j < t.len() implies is_digit(#[trigger] t[j]) by {
                    if j < t.len() - 1 {
                        assert(t[j] == s.take(i - from)[j]);
                    }
                }
            }
            if all_digits(s) {
                lemma_value_grows(s, i - from + 1);
            }
        }
        if d > max || acc > (max - d) / 10 {
            return None;
        }
        acc = acc * 10 + d;
        i += 1;
    }
    proof {
        assert(s.take(to - from) == s);
    }
    Some(acc)
}

/// Appends the shortest numeral of `n` to `out`.
pub fn push_decimal(out: &mut String, n: u64)
    ensures
        final(out)@ == old(out)@ + decimal(n as nat),
    decreases n,
{
    if n >= 10 {
        push_decimal(out, n / 10);
    }
    out.append(digit_str(n % 10));
    proof {
        if n >= 10 {
            assert(old(out)@ + decimal((n / 10) as nat) + seq![digit_char((n % 10) as nat)] == old(
                out,
            )@ + decimal(n as nat));
        }
    }
}

/// Appends `k` zeros to `out`.
pub fn push_zeros(out: &mut String, k: usize)
    ensures
        final(out)@ == old(out)@ + zeros(k as nat),
{
    let mut i: usize = 0;
    proof {
        reveal_strlit("0");
        assert(old(out)@ + zeros(0) == old(out)@);
    }
    while i < k
        invariant
            i <= k,
            out@ == old(out)@ + zeros(i as nat),
            "0"@ == seq!['0'],
        decreases k - i,
    {
        out.append("0");
        proof {
            assert(old(out)@ + zeros(i as nat) + seq!['0'] == old(out)@ + zeros((i + 1) as nat));
        }
        i += 1;
    }
}

/// Writes `n` in base ten with zeros in front until it is `width` characters
/// long.
pub fn zero_pad(n: u64, width: usize) -> (r: String)
    ensures
        r@ == zero_padded(n as nat, width as nat),
{
    let mut digits = String::new();
    push_decimal(&mut digits, n);
    let len = digits.as_str().unicode_len();
    let mut out = String::new();
    if len < width {
        push_zeros(&mut out, width - len);
    }
    out.append(digits.as_str());
    proof {
        assert(Seq::<char>::empty() + decimal(n as nat) == decimal(n as nat));
        assert(Seq::<char>::empty() + zeros((width - len) as nat) == zeros((width - len) as nat));
    }
    out
}

} // verus!
