use vstd::prelude::*;

verus! {

/// The byte of the digit `0`; the other digits follow it in order.
pub const ZERO: u8 = 48;

/// The byte of the digit `9`.
pub const NINE: u8 = 57;

/// The byte of the sign `+`.
pub const PLUS: u8 = 43;

/// The byte of the sign `-`.
pub const MINUS: u8 = 45;

pub open spec fn is_digit(b: u8) -> bool {
    ZERO <= b <= NINE
}

pub open spec fn all_digits(s: Seq<u8>) -> bool {
    forall|i: int| 0 <= i < s.len() ==> is_digit(#[trigger] s[i])
}

/// The number that a run of decimal digits denotes.
pub open spec fn digits_value(s: Seq<u8>) -> nat
    decreases s.len(),
{
    if s.len() == 0 {
        0
    } else {
        (digits_value(s.drop_last()) * 10 + (s.last() - ZERO)) as nat
    }
}

pub open spec fn has_sign(s: Seq<u8>) -> bool {
    s.len() > 0 && (s[0] == PLUS || s[0] == MINUS)
}

/// The digits of a decimal field: all of it but a leading sign.
pub open spec fn magnitude(s: Seq<u8>) -> Seq<u8> {
    if has_sign(s) {
        s.subrange(1, s.len() as int)
    } else {
        s
    }
}

/// An optional `+` or `-`, then one decimal digit or more, and nothing else.
pub open spec fn is_decimal(s: Seq<u8>) -> bool {
    magnitude(s).len() > 0 && all_digits(magnitude(s))
}

pub open spec fn decimal_value(s: Seq<u8>) -> int {
    if s.len() > 0 && s[0] == MINUS {
        -(digits_value(magnitude(s)) as int)
    } else {
        digits_value(magnitude(s)) as int
    }
}

/// The value of a decimal field, where it is well formed and fits an `isize`.
pub open spec fn decimal(s: Seq<u8>) -> Option<int> {
    if is_decimal(s) && isize::MIN <= decimal_value(s) <= isize::MAX {
        Some(decimal_value(s))
    } else {
        None
    }
}

/// The value of a decimal field that states a length, however large: it is
/// well formed and not below zero.
pub open spec fn length(s: Seq<u8>) -> Option<nat> {
    if is_decimal(s) && decimal_value(s) >= 0 {
        Some(decimal_value(s) as nat)
    } else {
        None
    }
}

/// A length as far as a `usize` holds it: itself, or the greatest `usize`
/// where it is larger.
pub open spec fn clipped(length: Option<nat>) -> Option<usize> {
    match length {
        Some(n) => Some(
            if n > usize::MAX {
                usize::MAX
            } else {
                n as usize
            },
        ),
        None => None,
    }
}

pub open spec fn option_int(r: Option<isize>) -> Option<int> {
    match r {
        Some(v) => Some(v as int),
        None => None,
    }
}

/// A run of digits denotes at least what any of its prefixes denotes.
pub proof fn lemma_digits_value_prefix(s: Seq<u8>, k: int)
    requires
        0 <= k <= s.len(),
        all_digits(s),
    ensures
        digits_value(s.subrange(0, k)) <= digits_value(s),
    decreases s.len() - k,
{
    if k == s.len() {
        assert(s.subrange(0, k) =~= s);
    } else {
        lemma_digits_value_prefix(s, k + 1);
        let p = s.subrange(0, k + 1);
        assert(p.drop_last() =~= s.subrange(0, k));
    }
}

/// The decimal digits of `n`, the most significant first, without a sign or
/// a leading zero.
pub open spec fn digits_of(n: nat) -> Seq<u8>
    decreases n,
{
    if n < 10 {
        seq![(ZERO + n) as u8]
    } else {
        digits_of(n / 10).push((ZERO + n % 10) as u8)
    }
}

/// The digits of a number are a length field that states it.
pub proof fn lemma_digits_of(n: nat)
    ensures
        digits_of(n).len() > 0,
        all_digits(digits_of(n)),
        digits_value(digits_of(n)) == n,
        length(digits_of(n)) == Some(n),
    decreases n,
{
    let digits = digits_of(n);
    if n < 10 {
        assert(digits.drop_last() =~= Seq::<u8>::empty());
        reveal_with_fuel(digits_value, 2);
    } else {
        lemma_digits_of(n / 10);
        assert(digits.drop_last() =~= digits_of(n / 10));
        assert(digits.last() == (ZERO + n % 10) as u8);
    }
    assert(is_digit(digits[0]));
    assert(magnitude(digits) =~= digits);
}

/// Reads `bytes[from..to]` as a signed decimal number.
pub fn parse_decimal(bytes: &[u8], from: usize, to: usize) -> (r: Option<isize>)
    requires
        from <= to <= bytes@.len(),
    ensures
        option_int(r) == decimal(bytes@.subrange(from as int, to as int)),
{
    let ghost field = bytes@.subrange(from as int, to as int);
    if from == to {
        return None;
    }
    let negative = bytes[from] == MINUS;
    let start: usize = if negative || bytes[from] == PLUS {
        from + 1
    } else {
        from
    };
    let ghost digits = magnitude(field);
    if start == to {
        return None;
    }
    // The running value is kept negated, so that the least `isize` is reached.
    let mut acc: isize = 0;
    let mut i: usize = start;
    while i < to
        invariant
            from <= start <= i <= to <= bytes@.len(),
            field == bytes@.subrange(from as int, to as int),
            digits == magnitude(field),
            digits == bytes@.subrange(start as int, to as int),
            all_digits(digits.subrange(0, i - start)),
            acc == -(digits_value(digits.subrange(0, i - start)) as int),
        decreases to - i,
    {
        let b = bytes[i];
        let ghost next = digits.subrange(0, i - start + 1);
        proof {
            assert(next.drop_last() =~= digits.subrange(0, i - start));
        }
        if b < ZERO || b > NINE {
            assert(!is_digit(digits[i - start]));
            return None;
        }
        let d: isize = (b - ZERO) as isize;
        let step = match acc.checked_mul(10) {
            Some(m) => m.checked_sub(d),
            None => None,
        };
        match step {
            Some(v) => {
                acc = v;
            },
            None => {
                proof {
                    if all_digits(digits) {
                        lemma_digits_value_prefix(digits, i - start + 1);
                    }
                }
                return None;
            },
        }
        i += 1;
    }
    assert(digits.subrange(0, to - start) =~= digits);
    if negative {
        Some(acc)
    } else {
        0isize.checked_sub(acc)
    }
}

/// Reads `bytes[from..to]` as a length. One that no `usize` holds is read as
/// the greatest `usize`.
pub fn parse_length(bytes: &[u8], from: usize, to: usize) -> (r: Option<usize>)
    requires
        from <= to <= bytes@.len(),
    ensures
        r == clipped(length(bytes@.subrange(from as int, to as int))),
{
    let ghost field = bytes@.subrange(from as int, to as int);
    if from == to {
        return None;
    }
    let negative = bytes[from] == MINUS;
    let start: usize = if negative || bytes[from] == PLUS {
        from + 1
    } else {
        from
    };
    let ghost digits = magnitude(field);
    assert(digits =~= bytes@.subrange(start as int, to as int));
    if start == to {
        return None;
    }
    let mut acc: usize = 0;
    let mut beyond = false;
    let mut i: usize = start;
    while i < to
        invariant
            from <= start <= i <= to <= bytes@.len(),
            field == bytes@.subrange(from as int, to as int),
            digits == magnitude(field),
            digits == bytes@.subrange(start as int, to as int),
            all_digits(digits.subrange(0, i - start)),
            !beyond ==> acc == digits_value(digits.subrange(0, i - start)),
            beyond ==> digits_value(digits.subrange(0, i - start)) > usize::MAX,
        decreases to - i,
    {
        let b = bytes[i];
        let ghost next = digits.subrange(0, i - start + 1);
        proof {
            assert(next.drop_last() =~= digits.subrange(0, i - start));
            assert(next.last() == b);
        }
        if b < ZERO || b > NINE {
            assert(!is_digit(digits[i - start]));
            return None;
        }
        if !beyond {
            let d: usize = (b - ZERO) as usize;
            let step = match acc.checked_mul(10) {
                Some(m) => m.checked_add(d),
                None => None,
            };
            match step {
                Some(v) => {
                    acc = v;
                },
                None => {
                    beyond = true;
                },
            }
        }
        i += 1;
    }
    assert(digits.subrange(0, to - start) =~= digits);
    if negative {
        if beyond || acc > 0 {
            None
        } else {
            Some(0)
        }
    } else if beyond {
        Some(usize::MAX)
    } else {
        Some(acc)
    }
}

} // verus!
