//! ASCII classification and decimal number reading and writing on bytes.

use vstd::prelude::*;

verus! {

/// ASCII whitespace, as tolerated around numeric tokens.
pub open spec fn is_space(b: u8) -> bool {
    b == 0x20 || b == 0x09 || b == 0x0a || b == 0x0b || b == 0x0c || b == 0x0d
}

/// ASCII decimal digit.
pub open spec fn is_ascii_digit(b: u8) -> bool {
    0x30 <= b && b <= 0x39
}

pub open spec fn digit_val(b: u8) -> nat {
    (b - 0x30) as nat
}

pub open spec fn all_digits(s: Seq<u8>) -> bool {
    forall|i: int| 0 <= i < s.len() ==> is_ascii_digit(s[i])
}

/// Value of a run of decimal digits, most significant first.
pub open spec fn digits_value(s: Seq<u8>) -> nat
    decreases s.len(),
{
    if s.len() == 0 {
        0
    } else {
        digits_value(s.drop_last()) * 10 + digit_val(s.last())
    }
}

/// A numeric token may carry one leading plus sign.
pub open spec fn strip_plus(s: Seq<u8>) -> Seq<u8> {
    if s.len() > 0 && s[0] == 0x2b {
        s.drop_first()
    } else {
        s
    }
}

/// Decimal parse of one token: an optional plus sign, then one or more
/// digits, whose value must not exceed `bound`.
pub open spec fn parse_bounded(s: Seq<u8>, bound: nat) -> Option<nat> {
    let d = strip_plus(s);
    if d.len() > 0 && all_digits(d) && digits_value(d) <= bound {
        Some(digits_value(d))
    } else {
        None
    }
}

pub open spec fn parse_u32_spec(s: Seq<u8>) -> Option<u32> {
    match parse_bounded(s, u32::MAX as nat) {
        Some(n) => Some(n as u32),
        None => None,
    }
}

pub open spec fn parse_u8_spec(s: Seq<u8>) -> Option<u8> {
    match parse_bounded(s, u8::MAX as nat) {
        Some(n) => Some(n as u8),
        None => None,
    }
}

/// Reads a bounded decimal token; `None` on an empty token, a non-digit
/// byte, or a value above `bound`.
pub fn parse_decimal(s: &[u8], bound: u64) -> (r: Option<u64>)
    requires
        bound <= u32::MAX,
    ensures
        match r {
            Some(v) => parse_bounded(s@, bound as nat) == Some(v as nat) && v <= bound,
            None => parse_bounded(s@, bound as nat) is None,
        },
{
    let n = s.len();
    let mut i: usize = 0;
    if n > 0 && s[0] == 0x2b {
        i = 1;
    }
    let ghost d = strip_plus(s@);
    proof {
        assert(d =~= s@.skip(i as int));
    }
    let start = i;
    if i >= n {
        return None;
    }
    let mut acc: u64 = 0;
    let mut over = false;
    while i < n
        invariant
            start <= i <= n,
            n == s@.len(),
            d == strip_plus(s@),
            d == s@.skip(start as int),
            d.len() == n - start,
            all_digits(d.take(i - start)),
            !over ==> acc == digits_value(d.take(i - start)) && acc <= bound,
            over ==> digits_value(d.take(i - start)) > bound,
            bound <= u32::MAX,
        decreases n - i,
    {
        let b = *vstd::slice::slice_index_get(s, i);
        if b < 0x30 || b > 0x39 {
            proof {
                assert(d[i - start] == s@[i as int]);
                assert(!is_ascii_digit(d[i - start]));
                assert(!all_digits(d));
                assert(parse_bounded(s@, bound as nat) is None);
            }
            return None;
        }
        let dv: u64 = (b - 0x30) as u64;
        let ghost k = i - start;
        proof {
            assert(d.take(k + 1).drop_last() =~= d.take(k));
            assert(d.take(k + 1).last() == d[k]);
            assert(d[k] == s@[i as int]);
            assert(digits_value(d.take(k + 1)) == digits_value(d.take(k)) * 10 + digit_val(d[k]));
        }
        if over {
            proof {
                assert(digits_value(d.take(k)) * 10 >= digits_value(d.take(k)));
            }
        } else {
            let next = acc * 10 + dv;
            if next > bound {
                over = true;
            } else {
                acc = next;
            }
        }
        i = i + 1;
    }
    proof {
        assert(d.take(n - start) =~= d);
    }
    if over {
        None
    } else {
        Some(acc)
    }
}

pub fn parse_u32_token(s: &[u8]) -> (r: Option<u32>)
    ensures
        r == parse_u32_spec(s@),
{
    match parse_decimal(s, 0xffff_ffff) {
        Some(v) => Some(v as u32),
        None => None,
    }
}

pub fn parse_u8_token(s: &[u8]) -> (r: Option<u8>)
    ensures
        r == parse_u8_spec(s@),
{
    match parse_decimal(s, 0xff) {
        Some(v) => Some(v as u8),
        None => None,
    }
}

pub fn is_space_byte(b: u8) -> (r: bool)
    ensures
        r == is_space(b),
{
    b == 0x20 || b == 0x09 || b == 0x0a || b == 0x0b || b == 0x0c || b == 0x0d
}

/// Decimal rendering of a number, most significant digit first, no sign
/// and no redundant leading zero.
pub open spec fn dec_rep(n: nat) -> Seq<u8>
    decreases n,
{
    if n < 10 {
        seq![(0x30 + n) as u8]
    } else {
        dec_rep(n / 10).push((0x30 + n % 10) as u8)
    }
}

pub proof fn lemma_dec_rep(n: nat)
    ensures
        dec_rep(n).len() > 0,
        all_digits(dec_rep(n)),
        digits_value(dec_rep(n)) == n,
    decreases n,
{
    if n < 10 {
        let c = ((0x30 + n) as u8);
        assert(dec_rep(n) =~= seq![c]);
        assert(dec_rep(n).drop_last() =~= Seq::<u8>::empty());
        assert(digits_value(Seq::<u8>::empty()) == 0);
        assert(digits_value(dec_rep(n)) == digits_value(dec_rep(n).drop_last()) * 10 + digit_val(
            dec_rep(n).last(),
        ));
        assert(dec_rep(n).last() == c);
        assert(digit_val(c) == n);
    } else {
        lemma_dec_rep(n / 10);
        let d = ((0x30 + n % 10) as u8);
        assert(dec_rep(n).drop_last() =~= dec_rep(n / 10));
        assert(dec_rep(n).last() == d);
        assert(digits_value(dec_rep(n)) == digits_value(dec_rep(n / 10)) * 10 + digit_val(d));
        assert(forall|i: int|
            0 <= i < dec_rep(n).len() ==> is_ascii_digit(#[trigger] dec_rep(n)[i]));
    }
}

/// Rendering a value and parsing the token back returns the value.
pub proof fn lemma_parse_dec_rep(n: nat)
    requires
        n <= u32::MAX,
    ensures
        parse_u32_spec(dec_rep(n)) == Some(n as u32),
{
    lemma_dec_rep(n);
    assert(is_ascii_digit(dec_rep(n)[0]));
    assert(strip_plus(dec_rep(n)) == dec_rep(n));
}

/// Appends the decimal rendering of `n`.
pub fn push_decimal(out: &mut Vec<u8>, n: u32)
    ensures
        final(out)@ == old(out)@ + dec_rep(n as nat),
    decreases n,
{
    if n < 10 {
        out.push(0x30 + n as u8);
        proof {
            assert(out@ =~= old(out)@ + dec_rep(n as nat));
        }
    } else {
        push_decimal(out, n / 10);
        out.push(0x30 + (n % 10) as u8);
        proof {
            assert(out@ =~= old(out)@ + dec_rep(n as nat));
        }
    }
}

} // verus!
