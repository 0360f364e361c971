use vstd::prelude::*;

verus! {

/// The ASCII code of the digit zero.
pub const ZERO: u8 = 48;

/// The ASCII code of `-`.
pub const MINUS: u8 = 45;

/// The ASCII code of `+`.
pub const PLUS: u8 = 43;

pub open spec fn is_digit(b: u8) -> bool {
    ZERO <= b <= 57
}

/// A non-empty run of decimal digits.
pub open spec fn all_digits(s: Seq<u8>) -> bool {
    s.len() > 0 && forall|i: int| 0 <= i < s.len() ==> is_digit(#[trigger] s[i])
}

/// The number that a run of decimal digits denotes.
pub open spec fn digits_value(s: Seq<u8>) -> nat
    decreases s.len(),
{
    if s.len() == 0 {
        0
    } else {
        digits_value(s.drop_last()) * 10 + (s.last() - ZERO) as nat
    }
}

/// The largest magnitude of a signed 64-bit integer, that of `i64::MIN`.
pub const I64_MAGNITUDE_LIMIT: u64 = 0x8000_0000_0000_0000;

/// Decimal text of a natural number, most significant digit first, without leading zeros.
pub open spec fn nat_text(n: nat) -> Seq<u8>
    decreases n,
{
    if n < 10 {
        seq![(ZERO + n) as u8]
    } else {
        nat_text(n / 10) + seq![(ZERO + n % 10) as u8]
    }
}

/// Decimal text of an integer: a `-` before the digits of a negative number.
pub open spec fn int_text(i: int) -> Seq<u8> {
    if i < 0 {
        seq![MINUS] + nat_text((-i) as nat)
    } else {
        nat_text(i as nat)
    }
}

/// The integer that a line of text denotes: an optional sign, then one or more digits.
pub open spec fn int_value(line: Seq<u8>) -> Option<int> {
    if line.len() > 0 && line[0] == MINUS && all_digits(line.drop_first()) {
        Some(-(digits_value(line.drop_first()) as int))
    } else if line.len() > 0 && line[0] == PLUS && all_digits(line.drop_first()) {
        Some(digits_value(line.drop_first()) as int)
    } else if all_digits(line) {
        Some(digits_value(line) as int)
    } else {
        None
    }
}

/// The signed 64-bit integer that a line of text denotes, if it denotes one in range.
pub open spec fn i64_value(line: Seq<u8>) -> Option<i64> {
    match int_value(line) {
        Some(v) => if i64::MIN <= v <= i64::MAX {
            Some(v as i64)
        } else {
            None
        },
        None => None,
    }
}

pub proof fn lemma_nat_text_digits(n: nat)
    ensures
        all_digits(nat_text(n)),
        digits_value(nat_text(n)) == n,
    decreases n,
{
    if n < 10 {
        assert(nat_text(n).drop_last() =~= Seq::<u8>::empty());
        assert(digits_value(Seq::<u8>::empty()) == 0);
    } else {
        lemma_nat_text_digits(n / 10);
        let s = nat_text(n);
        assert(s.drop_last() =~= nat_text(n / 10));
        assert forall|i: int| 0 <= i < s.len() implies is_digit(#[trigger] s[i]) by {
            if i < s.len() - 1 {
                assert(s[i] == nat_text(n / 10)[i]);
            }
        }
        assert(s.last() == (ZERO + n % 10) as u8);
        assert((n / 10) * 10 + n % 10 == n);
    }
}

/// The value of a run of digits never falls as digits are added.
pub proof fn lemma_digits_value_prefix(s: Seq<u8>, k: int)
    requires
        0 <= k <= s.len(),
        forall|i: int| 0 <= i < s.len() ==> is_digit(#[trigger] s[i]),
    ensures
        digits_value(s.subrange(0, k)) <= digits_value(s),
    decreases s.len() - k,
{
    if k < s.len() {
        lemma_digits_value_prefix(s, k + 1);
        assert(s.subrange(0, k + 1).drop_last() =~= s.subrange(0, k));
    } else {
        assert(s.subrange(0, k) =~= s);
    }
}

/// Appends the decimal text of `n` to `out`.
pub fn push_nat_text(n: u64, out: &mut Vec<u8>)
    ensures
        final(out)@ == old(out)@ + nat_text(n as nat),
    decreases n,
{
    if n >= 10 {
        push_nat_text(n / 10, out);
    }
    let d: u8 = (n % 10) as u8;
    out.push(ZERO + d);
    proof {
        if n >= 10 {
            assert(nat_text(n as nat) == nat_text((n / 10) as nat) + seq![(ZERO + n % 10) as u8]);
        }
    }
    assert(final(out)@ =~= old(out)@ + nat_text(n as nat));
}

/// Appends the decimal text of `i`, with its sign, to `out`.
pub fn push_int_text(i: i64, out: &mut Vec<u8>)
    ensures
        final(out)@ == old(out)@ + int_text(i as int),
{
    if i < 0 {
        out.push(MINUS);
        let m: u64 = (-(i as i128)) as u64;
        push_nat_text(m, out);
        assert(final(out)@ =~= old(out)@ + int_text(i as int));
    } else {
        push_nat_text(i as u64, out);
    }
}

/// Reads `buf[start..end]` as a signed 64-bit decimal integer.
pub fn parse_i64(buf: &[u8], start: usize, end: usize) -> (r: Option<i64>)
    requires
        start <= end <= buf@.len(),
    ensures
        r == i64_value(buf@.subrange(start as int, end as int)),
{
    let ghost line = buf@.subrange(start as int, end as int);
    let mut first: usize = start;
    let mut negative = false;
    if start < end && (buf[start] == MINUS || buf[start] == PLUS) {
        negative = buf[start] == MINUS;
        first = start + 1;
    }
    let ghost digits = buf@.subrange(first as int, end as int);
    assert(first == start ==> (line.len() == 0 || (line[0] != MINUS && line[0] != PLUS)));
    assert(first > start ==> line[0] == buf@[start as int] && (line[0] == MINUS || line[0] == PLUS));
    assert(first > start ==> digits =~= line.drop_first());
    assert(first == start ==> digits =~= line);
    if first == end {
        return None;
    }
    let limit: u64 = I64_MAGNITUDE_LIMIT;
    let mut acc: u64 = 0;
    let mut k: usize = first;
    while k < end
        invariant
            start <= first < end <= buf@.len(),
            first <= k <= end,
            digits == buf@.subrange(first as int, end as int),
            forall|j: int| first <= j < k ==> is_digit(#[trigger] buf@[j]),
            acc == digits_value(buf@.subrange(first as int, k as int)),
            acc <= limit,
            limit == I64_MAGNITUDE_LIMIT,
            line == buf@.subrange(start as int, end as int),
            first == start ==> (line.len() == 0 || (line[0] != MINUS && line[0] != PLUS)),
            first > start ==> (line[0] == MINUS || line[0] == PLUS) && digits =~= line.drop_first(),
            first == start ==> digits =~= line,
        decreases end - k,
    {
        let b = buf[k];
        if b < ZERO || b > 57 {
            assert(!is_digit(digits[k - first]));
            return None;
        }
        assert(buf@.subrange(first as int, k + 1).drop_last() =~= buf@.subrange(first as int, k as int));
        let d: u64 = (b - ZERO) as u64;
        if acc > (limit - d) / 10 {
            assert(acc * 10 + d > limit) by (nonlinear_arith)
                requires
                    acc > (limit - d) / 10,
                    d <= limit,
            ;
            proof {
                let longer = buf@.subrange(first as int, k + 1);
                if all_digits(digits) {
                    assert(digits.subrange(0, k + 1 - first) =~= longer);
                    lemma_digits_value_prefix(digits, k + 1 - first);
                }
            }
            return None;
        }
        assert(acc * 10 + d <= limit) by (nonlinear_arith)
            requires
                acc <= (limit - d) / 10,
                d <= limit,
        ;
        acc = acc * 10 + d;
        k = k + 1;
    }
    assert(buf@.subrange(first as int, k as int) =~= digits);
    assert(all_digits(digits));
    if negative {
        if acc == limit {
            Some(i64::MIN)
        } else {
            Some(-(acc as i64))
        }
    } else if acc == limit {
        None
    } else {
        Some(acc as i64)
    }
}

} // verus!
