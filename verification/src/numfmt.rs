//! Decimal text of integers: what `Display` writes and what `str::parse`
//! reads, stated over character sequences.

use vstd::prelude::*;

verus! {

/// The ASCII digit for `d` (below ten).
pub open spec fn digit_char(d: int) -> char {
    if d == 0 {
        '0'
    } else if d == 1 {
        '1'
    } else if d == 2 {
        '2'
    } else if d == 3 {
        '3'
    } else if d == 4 {
        '4'
    } else if d == 5 {
        '5'
    } else if d == 6 {
        '6'
    } else if d == 7 {
        '7'
    } else if d == 8 {
        '8'
    } else {
        '9'
    }
}

pub open spec fn is_digit(c: char) -> bool {
    '0' <= c && c <= '9'
}

/// The value of an ASCII digit.
pub open spec fn digit_value(c: char) -> int {
    (c as u32) - ('0' as u32)
}

/// The decimal text of a natural number, without leading zeros.
pub open spec fn dec(n: nat) -> Seq<char>
    decreases n,
{
    if n < 10 {
        seq![digit_char(n as int)]
    } else {
        dec(n / 10).push(digit_char((n % 10) as int))
    }
}

/// The decimal text of a signed number (`i32` and `i64` `Display`).
pub open spec fn dec_int(n: int) -> Seq<char> {
    if n < 0 {
        seq!['-'] + dec((-n) as nat)
    } else {
        dec(n as nat)
    }
}

/// `dec(n)` padded on the left with zeros to at least `width` characters
/// (`{n:0>width}`).
pub open spec fn dec_padded(n: nat, width: nat) -> Seq<char> {
    let d = dec(n);
    if d.len() >= width {
        d
    } else {
        Seq::new((width - d.len()) as nat, |i: int| '0') + d
    }
}

pub fn digit(d: u64) -> (c: char)
    requires
        d < 10,
    ensures
        c == digit_char(d as int),
{
    if d == 0 {
        '0'
    } else if d == 1 {
        '1'
    } else if d == 2 {
        '2'
    } else if d == 3 {
        '3'
    } else if d == 4 {
        '4'
    } else if d == 5 {
        '5'
    } else if d == 6 {
        '6'
    } else if d == 7 {
        '7'
    } else if d == 8 {
        '8'
    } else {
        '9'
    }
}

fn push_dec(n: u64, out: &mut Vec<char>)
    ensures
        final(out)@ == old(out)@ + dec(n as nat),
    decreases n,
{
    if n >= 10 {
        push_dec(n / 10, out);
    }
    out.push(digit(n % 10));
    proof {
        if n >= 10 {
            assert(old(out)@ + dec(n as nat) =~= (old(out)@ + dec((n / 10) as nat)).push(
                digit_char((n % 10) as int),
            ));
        } else {
            assert(old(out)@ + dec(n as nat) =~= old(out)@.push(digit_char((n % 10) as int)));
        }
    }
}

/// The decimal text of `n`.
pub fn u64_to_string(n: u64) -> (s: String)
    ensures
        s@ == dec(n as nat),
{
    let mut v: Vec<char> = Vec::new();
    push_dec(n, &mut v);
    assert(v@ =~= dec(n as nat));
    crate::text::string_of(v.as_slice())
}

/// The decimal text of `n`.
pub fn usize_to_string(n: usize) -> (s: String)
    ensures
        s@ == dec(n as nat),
{
    u64_to_string(n as u64)
}

/// The decimal text of a signed `n`.
pub fn i64_to_string(n: i64) -> (s: String)
    ensures
        s@ == dec_int(n as int),
{
    let mut v: Vec<char> = Vec::new();
    if n < 0 {
        v.push('-');
        let m: u64 = if n == i64::MIN {
            9223372036854775808u64
        } else {
            (-n) as u64
        };
        push_dec(m, &mut v);
        assert(v@ =~= seq!['-'] + dec((-n) as nat));
    } else {
        push_dec(n as u64, &mut v);
        assert(v@ =~= dec(n as nat));
    }
    crate::text::string_of(v.as_slice())
}

/// The decimal text of a signed `n`.
pub fn i32_to_string(n: i32) -> (s: String)
    ensures
        s@ == dec_int(n as int),
{
    i64_to_string(n as i64)
}

/// `n` written with at least `width` digits, zero-padded on the left.
pub fn u64_to_padded(n: u64, width: usize) -> (s: String)
    ensures
        s@ == dec_padded(n as nat, width as nat),
{
    let mut d: Vec<char> = Vec::new();
    push_dec(n, &mut d);
    assert(d@ =~= dec(n as nat));
    if d.len() >= width {
        return crate::text::string_of(d.as_slice());
    }
    let pad = width - d.len();
    let mut v: Vec<char> = Vec::new();
    let mut i: usize = 0;
    while i < pad
        invariant
            0 <= i <= pad,
            v@ == Seq::new(i as nat, |k: int| '0'),
        decreases pad - i,
    {
        v.push('0');
        assert(v@ =~= Seq::new((i + 1) as nat, |k: int| '0'));
        i = i + 1;
    }
    let mut j: usize = 0;
    let ghost pre = v@;
    while j < d.len()
        invariant
            0 <= j <= d@.len(),
            v@ == pre + d@.take(j as int),
        decreases d@.len() - j,
    {
        v.push(d[j]);
        assert(v@ =~= pre + d@.take(j + 1));
        j = j + 1;
    }
    assert(d@.take(d@.len() as int) =~= d@);
    crate::text::string_of(v.as_slice())
}

/// The value of a run of ASCII digits.
pub open spec fn digits_value(s: Seq<char>) -> int
    decreases s.len(),
{
    if s.len() == 0 {
        0
    } else {
        digits_value(s.drop_last()) * 10 + digit_value(s.last())
    }
}

pub open spec fn all_digits(s: Seq<char>) -> bool {
    forall|i: int| 0 <= i < s.len() ==> is_digit(#[trigger] s[i])
}

/// What `str::parse::<i32>` returns: an optional sign, then at least one
/// ASCII digit, with a value in range; anything else is refused.
pub open spec fn parse_i32_spec(s: Seq<char>) -> Option<i32> {
    let neg = s.len() > 0 && s[0] == '-';
    let signed = s.len() > 0 && (s[0] == '-' || s[0] == '+');
    let d = if signed {
        s.drop_first()
    } else {
        s
    };
    let v = if neg {
        -digits_value(d)
    } else {
        digits_value(d)
    };
    if d.len() == 0 || !all_digits(d) || v < i32::MIN || v > i32::MAX {
        None
    } else {
        Some(v as i32)
    }
}

pub proof fn lemma_digits_value_nonneg(s: Seq<char>)
    requires
        all_digits(s),
    ensures
        digits_value(s) >= 0,
    decreases s.len(),
{
    if s.len() > 0 {
        assert(all_digits(s.drop_last())) by {
            assert forall|i: int| 0 <= i < s.drop_last().len() implies is_digit(
                #[trigger] s.drop_last()[i],
            ) by {
                assert(s.drop_last()[i] == s[i]);
            }
        }
        lemma_digits_value_nonneg(s.drop_last());
        assert(is_digit(s[s.len() - 1]));
    }
}

/// Reads an `i32` written in decimal (`str::parse::<i32>`).
pub fn parse_i32(v: &[char]) -> (r: Option<i32>)
    ensures
        r == parse_i32_spec(v@),
{
    let n = v.len();
    let neg = n > 0 && v[0] == '-';
    let signed = n > 0 && (v[0] == '-' || v[0] == '+');
    let start: usize = if signed {
        1
    } else {
        0
    };
    let ghost d = v@.subrange(start as int, n as int);
    assert(d =~= if signed {
        v@.drop_first()
    } else {
        v@
    });
    if start == n {
        return None;
    }
    let mut acc: i64 = 0;
    let mut i = start;
    while i < n
        invariant
            start <= i <= n,
            n == v@.len(),
            d == v@.subrange(start as int, n as int),
            signed == (v@.len() > 0 && (v@[0] == '-' || v@[0] == '+')),
            neg == (v@.len() > 0 && v@[0] == '-'),
            start == (if signed { 1usize } else { 0usize }),
            d == (if signed { v@.drop_first() } else { v@ }),
            all_digits(v@.subrange(start as int, i as int)),
            acc as int == digits_value(v@.subrange(start as int, i as int)),
            0 <= acc <= 2147483648,
        decreases n - i,
    {
        let c = v[i];
        if !('0' <= c && c <= '9') {
            assert(!all_digits(d)) by {
                assert(d[i - start] == c);
            }
            return None;
        }
        let dv = (c as u32 - '0' as u32) as i64;
        let ghost pre = v@.subrange(start as int, i as int);
        assert(v@.subrange(start as int, i + 1).drop_last() =~= pre);
        assert(all_digits(v@.subrange(start as int, i + 1))) by {
            assert forall|k: int| 0 <= k < i + 1 - start implies is_digit(
                #[trigger] v@.subrange(start as int, i + 1)[k],
            ) by {
                if k < i - start {
                    assert(v@.subrange(start as int, i + 1)[k] == pre[k]);
                }
            }
        }
        let next = acc * 10 + dv;
        if next > 2147483648 {
            proof {
                if all_digits(d) {
                    assert(d.take(i + 1 - start) =~= v@.subrange(start as int, i + 1));
                    lemma_digits_prefix_bound(d, (i + 1 - start) as int);
                }
            }
            return None;
        }
        acc = next;
        i = i + 1;
    }
    assert(v@.subrange(start as int, n as int) =~= d);
    if neg {
        Some((-acc) as i32)
    } else {
        if acc > 2147483647 {
            return None;
        }
        Some(acc as i32)
    }
}

/// A longer run of digits is worth at least as much as its prefix.
pub proof fn lemma_digits_prefix_bound(s: Seq<char>, k: int)
    requires
        0 <= k <= s.len(),
        all_digits(s),
    ensures
        digits_value(s) >= digits_value(s.take(k)),
    decreases s.len() - k,
{
    if k < s.len() {
        lemma_digits_prefix_bound(s, k + 1);
        assert(s.take(k + 1).drop_last() =~= s.take(k));
        assert(all_digits(s.take(k))) by {
            assert forall|i: int| 0 <= i < s.take(k).len() implies is_digit(
                #[trigger] s.take(k)[i],
            ) by {
                assert(s.take(k)[i] == s[i]);
            }
        }
        lemma_digits_value_nonneg(s.take(k));
        assert(is_digit(s[k]));
        assert(s.take(k + 1).last() == s[k]);
    } else {
        assert(s.take(k) =~= s);
    }
}

pub proof fn lemma_digit_char(k: int)
    requires
        0 <= k < 10,
    ensures
        is_digit(digit_char(k)),
        digit_value(digit_char(k)) == k,
{
}

pub proof fn lemma_dec_digits(n: nat)
    ensures
        all_digits(dec(n)),
        digits_value(dec(n)) == n,
        dec(n).len() >= 1,
        is_digit(dec(n)[0]),
    decreases n,
{
    lemma_digit_char((n % 10) as int);
    if n >= 10 {
        lemma_dec_digits(n / 10);
        let d = dec(n / 10);
        assert(dec(n).last() == digit_char((n % 10) as int));
        assert(n == (n / 10) * 10 + n % 10) by (nonlinear_arith);
        assert(dec(n).drop_last() =~= d);
        assert(all_digits(dec(n))) by {
            assert forall|i: int| 0 <= i < dec(n).len() implies is_digit(#[trigger] dec(n)[i]) by {
                if i < d.len() {
                    assert(dec(n)[i] == d[i]);
                }
            }
        }
        assert(dec(n)[0] == d[0]);
        assert(digits_value(dec(n)) == digits_value(d) * 10 + digit_value(dec(n).last()));
    } else {
        assert(dec(n).drop_last() =~= Seq::<char>::empty());
        assert(digits_value(dec(n)) == digits_value(dec(n).drop_last()) * 10 + digit_value(
            dec(n).last(),
        ));
    }
}

/// Reading back the decimal text of an `i32` gives the number.
pub proof fn lemma_i32_roundtrip(n: i32)
    ensures
        parse_i32_spec(dec_int(n as int)) == Some(n),
{
    if n < 0 {
        let m = (-n) as nat;
        lemma_dec_digits(m);
        assert((seq!['-'] + dec(m)).drop_first() =~= dec(m));
    } else {
        lemma_dec_digits(n as nat);
    }
}

/// What `str::parse::<u64>` returns: an optional `+`, then at least one
/// ASCII digit, with a value in range; anything else is refused.
pub open spec fn parse_u64_spec(s: Seq<char>) -> Option<u64> {
    let d = if s.len() > 0 && s[0] == '+' {
        s.drop_first()
    } else {
        s
    };
    if d.len() == 0 || !all_digits(d) || digits_value(d) > u64::MAX {
        None
    } else {
        Some(digits_value(d) as u64)
    }
}

/// Reads a `u64` written in decimal (`str::parse::<u64>`).
pub fn parse_u64(v: &[char]) -> (r: Option<u64>)
    ensures
        r == parse_u64_spec(v@),
{
    let n = v.len();
    let start: usize = if n > 0 && v[0] == '+' {
        1
    } else {
        0
    };
    let ghost d = v@.subrange(start as int, n as int);
    assert(d =~= if n > 0 && v@[0] == '+' {
        v@.drop_first()
    } else {
        v@
    });
    if start == n {
        return None;
    }
    let mut acc: u128 = 0;
    let mut i = start;
    while i < n
        invariant
            start <= i <= n,
            n == v@.len(),
            d == v@.subrange(start as int, n as int),
            d == (if v@.len() > 0 && v@[0] == '+' {
                v@.drop_first()
            } else {
                v@
            }),
            start == (if v@.len() > 0 && v@[0] == '+' { 1usize } else { 0usize }),
            all_digits(v@.subrange(start as int, i as int)),
            acc as int == digits_value(v@.subrange(start as int, i as int)),
            acc <= u64::MAX,
        decreases n - i,
    {
        let c = v[i];
        if !('0' <= c && c <= '9') {
            assert(!all_digits(d)) by {
                assert(d[i - start] == c);
            }
            return None;
        }
        let dv = (c as u32 - '0' as u32) as u128;
        let ghost pre = v@.subrange(start as int, i as int);
        assert(v@.subrange(start as int, i + 1).drop_last() =~= pre);
        assert(all_digits(v@.subrange(start as int, i + 1))) by {
            assert forall|k: int| 0 <= k < i + 1 - start implies is_digit(
                #[trigger] v@.subrange(start as int, i + 1)[k],
            ) by {
                if k < i - start {
                    assert(v@.subrange(start as int, i + 1)[k] == pre[k]);
                }
            }
        }
        let next = acc * 10 + dv;
        assert(v@.subrange(start as int, i + 1).last() == c);
        assert(digits_value(v@.subrange(start as int, i + 1)) == next as int);
        if next > u64::MAX as u128 {
            proof {
                if all_digits(d) {
                    assert(d.take(i + 1 - start) =~= v@.subrange(start as int, i + 1));
                    lemma_digits_prefix_bound(d, (i + 1 - start) as int);
                }
            }
            return None;
        }
        acc = next;
        i = i + 1;
    }
    assert(v@.subrange(start as int, n as int) =~= d);
    Some(acc as u64)
}

} // verus!
