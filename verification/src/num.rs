//! Decimal reading and writing of 32-bit signed integers, the numeric
//! semantics behind the page-offset transform: a URL token counts as numeric
//! exactly when the whole token is an optionally signed decimal numeral whose
//! value fits a 32-bit signed integer.

use vstd::prelude::*;

verus! {

/// `c` is one of the ten decimal digit characters.
pub open spec fn is_digit_char(c: char) -> bool {
    48 <= c as u32 && c as u32 <= 57
}

/// Numeric value of a decimal digit character.
pub open spec fn digit_val(c: char) -> int {
    c as u32 - 48
}

/// Every character of `s` is a decimal digit.
pub open spec fn all_digits(s: Seq<char>) -> bool {
    forall|i: int| 0 <= i < s.len() ==> is_digit_char(#[trigger] s[i])
}

/// The value of a digit string read in base ten.
pub open spec fn digits_val(s: Seq<char>) -> int
    decreases s.len(),
{
    if s.len() == 0 {
        0
    } else {
        digits_val(s.drop_last()) * 10 + digit_val(s.last())
    }
}

/// What `str::parse::<i32>` returns: an optional single sign followed by at
/// least one decimal digit must cover the whole string, and the signed value
/// must fit a 32-bit signed integer; anything else is rejected.
pub open spec fn spec_parse_i32(s: Seq<char>) -> Option<i32> {
    let ds = if s.len() > 0 && (s[0] == '+' || s[0] == '-') {
        s.drop_first()
    } else {
        s
    };
    let v = if s.len() > 0 && s[0] == '-' {
        -digits_val(ds)
    } else {
        digits_val(ds)
    };
    if ds.len() > 0 && all_digits(ds) && i32::MIN <= v && v <= i32::MAX {
        Some(v as i32)
    } else {
        None
    }
}

pub proof fn lemma_digits_val_nonneg(s: Seq<char>)
    requires
        all_digits(s),
    ensures
        digits_val(s) >= 0,
    decreases s.len(),
{
    if s.len() > 0 {
        assert(all_digits(s.drop_last()));
        lemma_digits_val_nonneg(s.drop_last());
    }
}

/// Extending a digit string on the right never decreases its value.
pub proof fn lemma_digits_val_prefix(s: Seq<char>, k: int)
    requires
        all_digits(s),
        0 <= k <= s.len(),
    ensures
        digits_val(s.take(k)) <= digits_val(s),
    decreases s.len() - k,
{
    if k == s.len() {
        assert(s.take(k) =~= s);
    } else {
        assert(all_digits(s.take(k)));
        lemma_digits_val_nonneg(s.take(k));
        assert(s.take(k + 1).drop_last() =~= s.take(k));
        lemma_digits_val_prefix(s, k + 1);
    }
}

/// Parse `s` as a 32-bit signed decimal integer, exactly as
/// `str::parse::<i32>` does.
pub fn parse_i32(s: &str) -> (r: Option<i32>)
    ensures
        r == spec_parse_i32(s@),
{
    let len: usize = s.unicode_len();
    if len == 0 {
        return None;
    }
    let first: char = s.get_char(0);
    let signed: bool = first == '-' || first == '+';
    let neg: bool = first == '-';
    let start: usize = if signed {
        1
    } else {
        0
    };
    if start == len {
        return None;
    }
    let ghost ds = if signed {
        s@.drop_first()
    } else {
        s@
    };
    proof {
        assert(ds =~= s@.subrange(start as int, len as int));
    }
    let mut i: usize = start;
    let mut acc: i64 = 0;
    while i < len
        invariant
            start <= i <= len,
            len == s@.len(),
            signed == (s@[0] == '-' || s@[0] == '+'),
            neg == (s@[0] == '-'),
            signed ==> start == 1,
            !signed ==> start == 0,
            ds == s@.subrange(start as int, len as int),
            signed ==> ds == s@.drop_first(),
            !signed ==> ds == s@,
            all_digits(s@.subrange(start as int, i as int)),
            acc == digits_val(s@.subrange(start as int, i as int)),
            0 <= acc <= 0x8000_0000i64,
        decreases len - i,
    {
        let c: char = s.get_char(i);
        let u: u32 = c as u32;
        if u < 48 || u > 57 {
            proof {
                assert(ds[i - start] == s@[i as int]);
                assert(!is_digit_char(ds[i - start]));
            }
            return None;
        }
        acc = acc * 10 + ((u - 48) as i64);
        proof {
            let pre = s@.subrange(start as int, i as int);
            let ext = s@.subrange(start as int, i + 1);
            assert(ext.drop_last() =~= pre);
            assert(ext.last() == s@[i as int]);
        }
        if acc > 0x8000_0000i64 {
            proof {
                let ext = s@.subrange(start as int, i + 1);
                assert(digits_val(ext) == acc);
                if all_digits(ds) {
                    assert(ext =~= ds.take(i + 1 - start));
                    lemma_digits_val_prefix(ds, i + 1 - start);
                    assert(digits_val(ds) >= acc);
                    assert(digits_val(ds) > i32::MAX);
                    assert(-digits_val(ds) < i32::MIN);
                }
            }
            return None;
        }
        i = i + 1;
    }
    proof {
        assert(s@.subrange(start as int, len as int) =~= ds);
    }
    if neg {
        Some((-acc) as i32)
    } else {
        if acc <= 0x7FFF_FFFFi64 {
            Some(acc as i32)
        } else {
            None
        }
    }
}

/// The character of a single decimal digit.
pub open spec fn digit_char(d: int) -> char {
    if d == 0 {
        '0'
    } else if d == 1 {
        '1'
    } else if d == 2 {
        '2'
    } else if d == 3 {
        '3'
    } else if d == 4 {
        '4'
    } else if d == 5 {
        '5'
    } else if d == 6 {
        '6'
    } else if d == 7 {
        '7'
    } else if d == 8 {
        '8'
    } else {
        '9'
    }
}

/// The decimal digits of `n`, most significant first, with no leading zeros.
pub open spec fn spec_u_digits(n: nat) -> Seq<char>
    decreases n,
{
    if n < 10 {
        seq![digit_char(n as int)]
    } else {
        spec_u_digits(n / 10).push(digit_char((n % 10) as int))
    }
}

/// What `i32::to_string` returns: a minus sign for negative values, then the
/// decimal digits of the magnitude with no leading zeros.
pub open spec fn spec_i32_string(v: int) -> Seq<char> {
    if v < 0 {
        seq!['-'] + spec_u_digits((-v) as nat)
    } else {
        spec_u_digits(v as nat)
    }
}

pub proof fn lemma_u_digits_val(n: nat)
    ensures
        all_digits(spec_u_digits(n)),
        digits_val(spec_u_digits(n)) == n,
        spec_u_digits(n).len() >= 1,
    decreases n,
{
    if n < 10 {
        assert(digits_val(seq![digit_char(n as int)].drop_last()) == 0) by {
            assert(seq![digit_char(n as int)].drop_last() =~= Seq::<char>::empty());
        }
    } else {
        lemma_u_digits_val(n / 10);
        vstd::arithmetic::div_mod::lemma_fundamental_div_mod(n as int, 10);
        let w = spec_u_digits(n / 10).push(digit_char((n % 10) as int));
        assert(w.drop_last() =~= spec_u_digits(n / 10));
    }
}

/// Writing a 32-bit value in decimal and reading it back yields the value:
/// the numeric formatting used by the page-offset transform is stable.
pub proof fn lemma_format_parse_roundtrip(v: i32)
    ensures
        spec_parse_i32(spec_i32_string(v as int)) == Some(v),
{
    if v < 0 {
        let m = (-(v as int)) as nat;
        lemma_u_digits_val(m);
        let s = spec_i32_string(v as int);
        assert(s == seq!['-'] + spec_u_digits(m));
        assert(s[0] == '-');
        assert(s.drop_first() =~= spec_u_digits(m));
    } else {
        let m = (v as int) as nat;
        lemma_u_digits_val(m);
        let s = spec_i32_string(v as int);
        assert(s == spec_u_digits(m));
        assert(is_digit_char(s[0]));
        assert(s[0] != '+' && s[0] != '-');
    }
}

/// Reduction of an integer at most one range width out of bounds back into
/// 32-bit signed range, as wrapping addition does.
pub open spec fn wrap_i32(v: int) -> int {
    if v > i32::MAX {
        v - 0x1_0000_0000
    } else if v < i32::MIN {
        v + 0x1_0000_0000
    } else {
        v
    }
}

/// 32-bit wrapping addition.
pub fn wrapping_add_i32(a: i32, b: i32) -> (r: i32)
    ensures
        r as int == wrap_i32(a + b),
{
    let sum: i64 = a as i64 + b as i64;
    if sum > 0x7FFF_FFFFi64 {
        (sum - 0x1_0000_0000i64) as i32
    } else if sum < -0x8000_0000i64 {
        (sum + 0x1_0000_0000i64) as i32
    } else {
        sum as i32
    }
}

fn digit_char_exec(d: u32) -> (c: char)
    requires
        d < 10,
    ensures
        c == digit_char(d as int),
{
    if d == 0 {
        '0'
    } else if d == 1 {
        '1'
    } else if d == 2 {
        '2'
    } else if d == 3 {
        '3'
    } else if d == 4 {
        '4'
    } else if d == 5 {
        '5'
    } else if d == 6 {
        '6'
    } else if d == 7 {
        '7'
    } else if d == 8 {
        '8'
    } else {
        '9'
    }
}

fn push_u_digits(out: &mut String, n: u32)
    ensures
        final(out)@ == old(out)@ + spec_u_digits(n as nat),
    decreases n,
{
    if n >= 10 {
        push_u_digits(out, n / 10);
        out.push(digit_char_exec(n % 10));
        proof {
            assert((old(out)@ + spec_u_digits((n / 10) as nat)).push(digit_char((n % 10) as int))
                =~= old(out)@ + spec_u_digits(n as nat));
        }
    } else {
        out.push(digit_char_exec(n));
        proof {
            assert(old(out)@.push(digit_char(n as int)) =~= old(out)@ + spec_u_digits(n as nat));
        }
    }
}

/// Write `v` in decimal, exactly as `i32::to_string` does.
pub fn format_i32(v: i32) -> (r: String)
    ensures
        r@ == spec_i32_string(v as int),
{
    let mut out = String::new();
    if v < 0 {
        out.push('-');
        let m: u32 = (-(v as i64)) as u32;
        push_u_digits(&mut out, m);
        proof {
            assert(out@ =~= seq!['-'] + spec_u_digits(m as nat));
        }
    } else {
        push_u_digits(&mut out, v as u32);
        proof {
            assert(out@ =~= spec_u_digits(v as nat));
        }
    }
    out
}

} // verus!
