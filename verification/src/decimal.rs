//! Canonical decimal numerals as they appear in RESP headers.

use vstd::prelude::*;

verus! {

pub open spec fn is_digit(b: u8) -> bool {
    48 <= b <= 57
}

/// The canonical decimal numeral of `n`: no sign, no leading zero.
pub open spec fn decimal(n: nat) -> Seq<u8>
    decreases n,
{
    if n < 10 {
        seq![(n + 48) as u8]
    } else {
        decimal(n / 10).push((n % 10 + 48) as u8)
    }
}

/// The value of a string of digits read as a decimal numeral.
pub open spec fn digits_value(d: Seq<u8>) -> nat
    decreases d.len(),
{
    if d.len() == 0 {
        0
    } else {
        digits_value(d.drop_last()) * 10 + (d.last() - 48) as nat
    }
}

pub open spec fn all_digits(d: Seq<u8>) -> bool {
    forall|i: int| 0 <= i < d.len() ==> is_digit(#[trigger] d[i])
}

/// A numeral written the way `decimal` writes it.
pub open spec fn canonical_decimal(d: Seq<u8>) -> bool {
    &&& d.len() > 0
    &&& all_digits(d)
    &&& (d.len() == 1 || d[0] != 48)
}

/// The `u64` that `d` spells, if `d` is a canonical numeral in range.
pub open spec fn parse_u64_spec(d: Seq<u8>) -> Option<u64> {
    if canonical_decimal(d) && digits_value(d) <= u64::MAX {
        Some(digits_value(d) as u64)
    } else {
        None
    }
}

pub proof fn lemma_decimal_shape(n: nat)
    ensures
        canonical_decimal(decimal(n)),
        digits_value(decimal(n)) == n,
        decimal(n).len() >= 1,
        n < 10 ==> decimal(n).len() == 1,
        n >= 10 ==> decimal(n).len() >= 2,
        decimal(n)[0] != 45,
    decreases n,
{
    if n < 10 {
        assert(decimal(n).drop_last() =~= Seq::<u8>::empty());
        assert(decimal(n).last() == (n + 48) as u8);
        assert(digits_value(decimal(n)) == digits_value(decimal(n).drop_last()) * 10 + (decimal(n).last() - 48) as nat);
    } else {
        lemma_decimal_shape(n / 10);
        let d = decimal(n);
        assert(d.last() == (n % 10 + 48) as u8);
        assert(digits_value(d) == digits_value(d.drop_last()) * 10 + (d.last() - 48) as nat);
        assert(d.drop_last() =~= decimal(n / 10));
        assert(d[0] == decimal(n / 10)[0]);
        assert forall|i: int| 0 <= i < d.len() implies is_digit(#[trigger] d[i]) by {
            if i < d.len() - 1 {
                assert(d[i] == decimal(n / 10)[i]);
            }
        }
        if n / 10 < 10 {
            assert(decimal(n / 10)[0] != 48);
        }
        assert((n / 10) * 10 + n % 10 == n) by (nonlinear_arith);
    }
}

/// Reading a canonical numeral back and writing it out again gives the same bytes.
pub proof fn lemma_canonical_decimal_unique(d: Seq<u8>)
    requires
        canonical_decimal(d),
    ensures
        decimal(digits_value(d)) == d,
    decreases d.len(),
{
    let v = digits_value(d);
    if d.len() == 1 {
        assert(d.drop_last() =~= Seq::<u8>::empty());
        assert(is_digit(d[0]));
        assert(decimal(v) =~= d);
    } else {
        let p = d.drop_last();
        assert(is_digit(d.last()));
        assert(p[0] == d[0]);
        assert forall|i: int| 0 <= i < p.len() implies is_digit(#[trigger] p[i]) by {
            assert(p[i] == d[i]);
        }
        lemma_canonical_decimal_unique(p);
        lemma_prefix_value_positive(p);
        let pv = digits_value(p);
        assert(v == pv * 10 + (d.last() - 48) as nat);
        assert(v / 10 == pv && v % 10 == (d.last() - 48) as nat) by (nonlinear_arith)
            requires
                v == pv * 10 + (d.last() - 48) as nat,
                0 <= (d.last() - 48) < 10,
        ;
        assert(v >= 10) by (nonlinear_arith)
            requires
                v == pv * 10 + (d.last() - 48) as nat,
                pv >= 1,
                (d.last() - 48) >= 0,
        ;
        assert(decimal(v) =~= d);
    }
}

proof fn lemma_prefix_value_positive(p: Seq<u8>)
    requires
        canonical_decimal(p),
        p.len() >= 1,
        p[0] != 48,
    ensures
        digits_value(p) >= 1,
    decreases p.len(),
{
    if p.len() == 1 {
        assert(p.drop_last() =~= Seq::<u8>::empty());
    } else {
        let q = p.drop_last();
        assert(q[0] == p[0]);
        assert forall|i: int| 0 <= i < q.len() implies is_digit(#[trigger] q[i]) by {
            assert(q[i] == p[i]);
        }
        assert(is_digit(p.last()));
        lemma_prefix_value_positive(q);
    }
}

/// Appends the canonical numeral of `n` to `out`.
pub fn push_decimal(n: u64, out: &mut Vec<u8>)
    ensures
        final(out)@ == old(out)@ + decimal(n as nat),
    decreases n,
{
    if n < 10 {
        out.push((n + 48) as u8);
        assert(old(out)@ + decimal(n as nat) =~= old(out)@.push((n + 48) as u8));
    } else {
        push_decimal(n / 10, out);
        let digit = (n % 10 + 48) as u8;
        out.push(digit);
        assert(old(out)@ + decimal(n as nat) =~= old(out)@ + decimal((n / 10) as nat) + seq![digit]);
    }
}

/// Reads `bytes[start..end]` as a canonical numeral that fits in a `u64`.
pub fn parse_u64(bytes: &[u8], start: usize, end: usize) -> (r: Option<u64>)
    requires
        start <= end <= bytes@.len(),
    ensures
        r == parse_u64_spec(bytes@.subrange(start as int, end as int)),
{
    let ghost d = bytes@.subrange(start as int, end as int);
    if start == end {
        return None;
    }
    if end - start > 1 && bytes[start] == 48 {
        return None;
    }
    let mut value: u64 = 0;
    let mut i = start;
    while i < end
        invariant
            start <= i <= end <= bytes@.len(),
            d == bytes@.subrange(start as int, end as int),
            all_digits(d.subrange(0, i - start)),
            value as nat == digits_value(d.subrange(0, i - start)),
        decreases end - i,
    {
        let b = bytes[i];
        assert(d.subrange(0, i + 1 - start).drop_last() =~= d.subrange(0, i - start));
        assert(b == d[i - start]);
        if b < 48 || b > 57 {
            assert(!all_digits(d));
            return None;
        }
        let digit = (b - 48) as u64;
        let prod = value.checked_mul(10);
        match prod {
            None => {
                proof {
                    if all_digits(d) {
                        lemma_value_grows(d, (i + 1 - start) as int);
                    }
                }
                return None;
            },
            Some(p) => {
                let sum = p.checked_add(digit);
                match sum {
                    None => {
                        proof {
                            if all_digits(d) {
                                lemma_value_grows(d, (i + 1 - start) as int);
                            }
                        }
                        return None;
                    },
                    Some(s) => {
                        value = s;
                    },
                }
            },
        }
        i = i + 1;
        assert forall|j: int| 0 <= j < i - start implies is_digit(
            #[trigger] d.subrange(0, i - start)[j],
        ) by {
            if j < i - 1 - start {
                assert(d.subrange(0, i - start)[j] == d.subrange(0, i - 1 - start)[j]);
            }
        }
    }
    assert(d.subrange(0, end - start) =~= d);
    Some(value)
}

/// The value of a prefix of a digit string is at most the value of the whole.
proof fn lemma_value_grows(d: Seq<u8>, k: int)
    requires
        0 <= k <= d.len(),
        all_digits(d),
    ensures
        digits_value(d.subrange(0, k)) <= digits_value(d),
    decreases d.len() - k,
{
    if k < d.len() {
        lemma_value_grows(d, k + 1);
        assert(d.subrange(0, k + 1).drop_last() =~= d.subrange(0, k));
        assert(is_digit(d[k]));
    } else {
        assert(d.subrange(0, k) =~= d);
    }
}

} // verus!
