//! Decimal text for the length and integer fields of the wire format.

use vstd::prelude::*;

verus! {

pub open spec fn is_digit(b: u8) -> bool {
    48 <= b <= 57
}

pub open spec fn all_digits(s: Seq<u8>) -> bool {
    forall|i: int| 0 <= i < s.len() ==> is_digit(#[trigger] s[i])
}

pub open spec fn digit_val(b: u8) -> nat {
    if is_digit(b) {
        (b - 48) as nat
    } else {
        0
    }
}

/// The number denoted by a run of ASCII digits (most significant first).
pub open spec fn digits_val(s: Seq<u8>) -> nat
    decreases s.len(),
{
    if s.len() == 0 {
        0
    } else {
        digits_val(s.drop_last()) * 10 + digit_val(s.last())
    }
}

/// The canonical decimal text of `n`: no sign, no leading zeros.
pub open spec fn digits_of(n: nat) -> Seq<u8>
    decreases n,
{
    if n < 10 {
        seq![(48 + n) as u8]
    } else {
        digits_of(n / 10).push((48 + n % 10) as u8)
    }
}

pub proof fn lemma_digits_of_val(n: nat)
    ensures
        digits_val(digits_of(n)) == n,
        all_digits(digits_of(n)),
        digits_of(n).len() >= 1,
    decreases n,
{
    if n < 10 {
        let s1 = seq![(48 + n) as u8];
        assert(digits_of(n) =~= s1);
        assert(s1.drop_last() =~= Seq::<u8>::empty());
        assert(digits_val(Seq::<u8>::empty()) == 0);
        assert(digits_val(s1) == digits_val(s1.drop_last()) * 10 + digit_val(s1.last()));
        assert(digit_val((48 + n) as u8) == n);
    } else {
        lemma_digits_of_val(n / 10);
        vstd::arithmetic::div_mod::lemma_fundamental_div_mod(n as int, 10);
        let d = (48 + n % 10) as u8;
        assert(digits_of(n).drop_last() =~= digits_of(n / 10));
        assert(digits_of(n).last() == d);
        assert(digit_val(d) == n % 10);
        assert(n / 10 * 10 + n % 10 == n);
    }
}

/// A prefix of a digit run never denotes more than the whole run.
pub proof fn lemma_digits_val_prefix(s: Seq<u8>, j: int)
    requires
        0 <= j <= s.len(),
    ensures
        digits_val(s.subrange(0, j)) <= digits_val(s),
    decreases s.len() - j,
{
    if j == s.len() {
        assert(s.subrange(0, j) =~= s);
    } else {
        let a = s.subrange(0, j);
        let b = s.subrange(0, j + 1);
        assert(b.drop_last() =~= a);
        assert(digits_val(b) == digits_val(a) * 10 + digit_val(b.last()));
        assert(digits_val(a) * 10 >= digits_val(a));
        lemma_digits_val_prefix(s, j + 1);
    }
}

/// Appends the canonical decimal text of `n`.
pub fn push_decimal(out: &mut Vec<u8>, n: u64)
    ensures
        final(out)@ == old(out)@ + digits_of(n as nat),
    decreases n,
{
    if n >= 10 {
        push_decimal(out, n / 10);
    }
    out.push(48 + (n % 10) as u8);
    proof {
        assert(out@ =~= old(out)@ + digits_of(n as nat));
    }
}

/// Reads the digit run `buf[start..end]` as a `u64`.
///
/// Returns `Some` exactly when the range is a nonempty run of ASCII digits
/// whose value fits in a `u64`.
pub fn parse_decimal(buf: &Vec<u8>, start: usize, end: usize) -> (r: Option<u64>)
    requires
        start <= end <= buf.len(),
    ensures
        ({
            let s = buf@.subrange(start as int, end as int);
            match r {
                Some(v) => all_digits(s) && s.len() >= 1 && digits_val(s) == v,
                None => !(all_digits(s) && s.len() >= 1 && digits_val(s) <= u64::MAX),
            }
        }),
{
    let ghost s = buf@.subrange(start as int, end as int);
    if start == end {
        return None;
    }
    let mut acc: u64 = 0;
    let mut i = start;
    while i < end
        invariant
            start <= i <= end <= buf.len(),
            s == buf@.subrange(start as int, end as int),
            all_digits(buf@.subrange(start as int, i as int)),
            acc == digits_val(buf@.subrange(start as int, i as int)),
        decreases end - i,
    {
        let b = buf[i];
        proof {
            assert(s[i - start] == b);
        }
        if b < 48 || b > 57 {
            return None;
        }
        let ghost p1 = buf@.subrange(start as int, i + 1);
        proof {
            assert(p1.drop_last() =~= buf@.subrange(start as int, i as int));
            assert(p1.last() == b);
            lemma_digits_val_prefix(s, i + 1 - start);
            assert(s.subrange(0, i + 1 - start) =~= p1);
        }
        let d = (b - 48) as u64;
        if acc > u64::MAX / 10 {
            proof {
                assert(digits_val(p1) == acc * 10 + digit_val(b));
                assert(acc * 10 > u64::MAX);
            }
            return None;
        }
        let acc10 = acc * 10;
        if d > u64::MAX - acc10 {
            proof {
                assert(digits_val(p1) == acc * 10 + digit_val(b));
            }
            return None;
        }
        acc = acc10 + d;
        i = i + 1;
    }
    proof {
        assert(buf@.subrange(start as int, i as int) =~= s);
    }
    Some(acc)
}

} // verus!
