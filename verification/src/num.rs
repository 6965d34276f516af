//! Verified reading and writing of decimal numbers.

use vstd::prelude::*;
use vstd::string::*;
use crate::text::push_char;

verus! {

pub open spec fn is_digit(c: char) -> bool {
    48 <= c as u32 <= 57
}

pub open spec fn digit_val(c: char) -> int {
    c as u32 - 48
}

pub open spec fn all_digits(s: Seq<char>) -> bool {
    forall|i: int| 0 <= i < s.len() ==> is_digit(s[i])
}

/// The numeric value of a digit string, most significant digit first.
pub open spec fn dec_val(s: Seq<char>) -> int
    decreases s.len(),
{
    if s.len() == 0 {
        0
    } else {
        dec_val(s.drop_last()) * 10 + digit_val(s.last())
    }
}

pub open spec fn digit_char_s(d: int) -> char {
    if d == 0 { '0' } else if d == 1 { '1' } else if d == 2 { '2' }
    else if d == 3 { '3' } else if d == 4 { '4' } else if d == 5 { '5' }
    else if d == 6 { '6' } else if d == 7 { '7' } else if d == 8 { '8' }
    else { '9' }
}

/// The canonical decimal numeral of `n`: no sign, no leading zero.
pub open spec fn dec_rep(n: nat) -> Seq<char>
    decreases n,
{
    if n < 10 {
        seq![digit_char_s(n as int)]
    } else {
        dec_rep(n / 10).push(digit_char_s((n % 10) as int))
    }
}

pub proof fn lemma_dec_val_nonneg(s: Seq<char>)
    requires
        all_digits(s),
    ensures
        dec_val(s) >= 0,
    decreases s.len(),
{
    if s.len() > 0 {
        assert(all_digits(s.drop_last()));
        lemma_dec_val_nonneg(s.drop_last());
    }
}

/// Reading back the canonical numeral yields the number, and the numeral
/// is a non-empty digit string.
pub proof fn lemma_dec_val_rep(n: nat)
    ensures
        dec_val(dec_rep(n)) == n,
        all_digits(dec_rep(n)),
        dec_rep(n).len() >= 1,
    decreases n,
{
    if n < 10 {
        let s = dec_rep(n);
        assert(s.drop_last() =~= Seq::<char>::empty());
        assert(dec_val(Seq::<char>::empty()) == 0);
    } else {
        lemma_dec_val_rep(n / 10);
        vstd::arithmetic::div_mod::lemma_fundamental_div_mod(n as int, 10);
        let p = dec_rep(n / 10);
        let c = digit_char_s((n % 10) as int);
        assert(p.push(c).drop_last() =~= p);
        assert(p.push(c).last() == c);
        assert(forall|i: int|
            0 <= i < p.push(c).len() ==> is_digit(#[trigger] p.push(c)[i]));
    }
}

pub proof fn lemma_dec_val_prefix_le(s: Seq<char>, i: int)
    requires
        all_digits(s),
        0 <= i <= s.len(),
    ensures
        dec_val(s.take(i)) <= dec_val(s),
    decreases s.len() - i,
{
    if i == s.len() {
        assert(s.take(i) =~= s);
    } else {
        assert(s.take(i + 1).drop_last() =~= s.take(i));
        assert(s.take(i + 1).last() == s[i]);
        assert(all_digits(s.take(i)));
        lemma_dec_val_nonneg(s.take(i));
        assert(dec_val(s.take(i)) <= dec_val(s.take(i + 1)));
        lemma_dec_val_prefix_le(s, i + 1);
    }
}

/// The digit string of a numeral, with one optional leading plus sign.
pub open spec fn numeral_body(s: Seq<char>) -> Seq<char> {
    if s.len() > 0 && s[0] == '+' {
        s.skip(1)
    } else {
        s
    }
}

pub open spec fn is_numeral(s: Seq<char>) -> bool {
    numeral_body(s).len() > 0 && all_digits(numeral_body(s))
}

/// The value a numeral denotes when it fits the given bound, if any.
pub open spec fn parse_dec_s(s: Seq<char>, bound: int) -> Option<int> {
    if is_numeral(s) && dec_val(numeral_body(s)) <= bound {
        Some(dec_val(numeral_body(s)))
    } else {
        None
    }
}

fn digit_of(c: char) -> (r: Option<u64>)
    ensures
        match r {
            Some(d) => is_digit(c) && d == digit_val(c) && d <= 9,
            None => !is_digit(c),
        },
{
    let u = c as u32;
    if 48 <= u && u <= 57 {
        Some((u - 48) as u64)
    } else {
        None
    }
}

/// Reads a decimal numeral as `str::parse::<u64>` does: an optional
/// leading `+`, then one or more digits, rejected on overflow.
pub fn parse_u64(s: &str) -> (r: Option<u64>)
    ensures
        match r {
            Some(v) => parse_dec_s(s@, u64::MAX as int) == Some(v as int),
            None => parse_dec_s(s@, u64::MAX as int) is None,
        },
{
    let n = s.unicode_len();
    let start: usize = if n > 0 && s.get_char(0) == '+' {
        1
    } else {
        0
    };
    let ghost b = numeral_body(s@);
    proof {
        assert(b =~= s@.skip(start as int));
    }
    if start >= n {
        return None;
    }
    let mut acc: u64 = 0;
    let mut i: usize = start;
    proof {
        assert(b.take(0) =~= Seq::<char>::empty());
    }
    while i < n
        invariant
            n == s@.len(),
            b == numeral_body(s@),
            b =~= s@.skip(start as int),
            start <= i <= n,
            start < n,
            all_digits(b.take(i - start)),
            acc == dec_val(b.take(i - start)),
        decreases n - i,
    {
        let c = s.get_char(i);
        proof {
            assert(b[i - start] == s@[i as int]);
        }
        match digit_of(c) {
            None => {
                return None;
            },
            Some(d) => {
                let t: u128 = acc as u128 * 10 + d as u128;
                proof {
                    assert(b.take(i - start + 1).drop_last() =~= b.take(i - start));
                    assert(b.take(i - start + 1).last() == b[i - start]);
                    assert(all_digits(b.take(i - start + 1)));
                }
                if t > u64::MAX as u128 {
                    proof {
                        assert(dec_val(b.take(i - start + 1)) > u64::MAX);
                    }
                    let rest_all = check_digits(s, i + 1, n);
                    if rest_all {
                        proof {
                            assert forall|k: int| 0 <= k < b.len() implies is_digit(
                                b[k],
                            ) by {
                                if k < i - start + 1 {
                                    assert(b.take(i - start + 1)[k] == b[k]);
                                } else {
                                    assert(b[k] == s@[k + start]);
                                }
                            }
                            assert(all_digits(b));
                            lemma_dec_val_prefix_le(b, i - start + 1);
                            assert(dec_val(b) > u64::MAX);
                        }
                        return None;
                    } else {
                        proof {
                            let j = choose|j: int|
                                i + 1 <= j < n && !is_digit(s@[j]);
                            assert(b[j - start] == s@[j]);
                            assert(!all_digits(b));
                        }
                        return None;
                    }
                }
                acc = (t as u64);
                proof {
                    assert(acc == dec_val(b.take(i - start + 1)));
                }
            },
        }
        i += 1;
    }
    proof {
        assert(b.take(n - start) =~= b);
    }
    Some(acc)
}

fn check_digits(s: &str, from: usize, to: usize) -> (r: bool)
    requires
        from <= to <= s@.len(),
    ensures
        r == (forall|j: int| from <= j < to ==> is_digit(s@[j])),
{
    let mut i: usize = from;
    while i < to
        invariant
            from <= i <= to <= s@.len(),
            forall|j: int| from <= j < i ==> is_digit(s@[j]),
        decreases to - i,
    {
        let u = s.get_char(i) as u32;
        if !(48 <= u && u <= 57) {
            return false;
        }
        i += 1;
    }
    true
}

/// Reads a decimal numeral as `str::parse::<u32>` does.
pub fn parse_u32(s: &str) -> (r: Option<u32>)
    ensures
        match r {
            Some(v) => parse_dec_s(s@, u32::MAX as int) == Some(v as int),
            None => parse_dec_s(s@, u32::MAX as int) is None,
        },
{
    match parse_u64(s) {
        None => None,
        Some(v) => {
            if v <= u32::MAX as u64 {
                Some(v as u32)
            } else {
                None
            }
        },
    }
}

fn digit_char(d: u64) -> (r: char)
    requires
        d <= 9,
    ensures
        r == digit_char_s(d as int),
{
    if d == 0 { '0' } else if d == 1 { '1' } else if d == 2 { '2' }
    else if d == 3 { '3' } else if d == 4 { '4' } else if d == 5 { '5' }
    else if d == 6 { '6' } else if d == 7 { '7' } else if d == 8 { '8' }
    else { '9' }
}

/// Writes `n` as its canonical decimal numeral.
pub fn to_dec(n: u64) -> (r: String)
    ensures
        r@ == dec_rep(n as nat),
{
    let mut digits: Vec<char> = Vec::new();
    let mut m: u64 = n;
    if m == 0 {
        let mut r = String::new();
        push_char(&mut r, '0');
        proof {
            assert(r@ =~= dec_rep(0));
        }
        return r;
    }
    while m > 0
        invariant
            m > 0 ==> dec_rep(n as nat) =~= dec_rep(m as nat) + digits@.reverse(),
            m == 0 ==> dec_rep(n as nat) =~= digits@.reverse(),
            n > 0,
        decreases m,
    {
        let d = m % 10;
        let m2 = m / 10;
        let ghost pre = digits@;
        digits.push(digit_char(d));
        proof {
            assert(digits@.reverse() =~= seq![digit_char_s(d as int)] + pre.reverse());
            if m >= 10 {
                assert(dec_rep(m as nat) =~= dec_rep(m2 as nat).push(digit_char_s(d as int)));
                assert(dec_rep(m2 as nat) + digits@.reverse() =~= dec_rep(m as nat)
                    + pre.reverse());
            } else {
                assert(m2 == 0);
                assert(dec_rep(m as nat) =~= seq![digit_char_s(d as int)]);
                assert(dec_rep(m as nat) + pre.reverse() =~= digits@.reverse());
            }
        }
        m = m2;
    }
    let mut r = String::new();
    let mut i: usize = digits.len();
    while i > 0
        invariant
            i <= digits@.len(),
            r@.len() == digits@.len() - i,
            forall|k: int| 0 <= k < r@.len() ==> r@[k] == digits@[digits@.len() - 1 - k],
        decreases i,
    {
        i -= 1;
        push_char(&mut r, digits[i]);
    }
    proof {
        assert(r@ =~= digits@.reverse());
    }
    r
}

} // verus!
