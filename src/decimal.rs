//! Decimal numerals such as `0.07500500`, read as fixed-point integers.
use vstd::prelude::*;

use crate::order_book::{DECIMALS, SCALE};

verus! {

/// An ASCII decimal digit.
pub open spec fn is_digit(b: u8) -> bool {
    48 <= b <= 57
}

/// Every byte is a decimal digit.
pub open spec fn all_digits(s: Seq<u8>) -> bool {
    forall|i: int| 0 <= i < s.len() ==> is_digit(#[trigger] s[i])
}

/// The number that a run of decimal digits spells.
pub open spec fn digits_value(s: Seq<u8>) -> nat
    decreases s.len(),
{
    if s.len() == 0 {
        0
    } else {
        digits_value(s.drop_last()) * 10 + (s.last() - 48) as nat
    }
}

/// Ten to the power `n`.
pub open spec fn pow10(n: nat) -> nat
    decreases n,
{
    if n == 0 {
        1
    } else {
        10 * pow10((n - 1) as nat)
    }
}

/// `k` is the length of the run of digits that `s` starts with.
pub open spec fn leading_digits(s: Seq<u8>, k: int) -> bool {
    0 <= k <= s.len() && all_digits(s.take(k)) && (k == s.len() || !is_digit(s[k]))
}

/// The value, in units of 10^-DECIMALS, of a numeral whose integer digits are
/// `s.take(k)`: either `s` is those digits alone, or they are followed by `.`
/// and one to DECIMALS further digits. `None` for anything else.
pub open spec fn numeral_value(s: Seq<u8>, k: int) -> Option<nat> {
    if k < 1 {
        None
    } else if k == s.len() {
        Some(digits_value(s) * (SCALE as nat))
    } else if s[k] == 46u8 && 1 <= s.len() - k - 1 <= DECIMALS && all_digits(s.skip(k + 1)) {
        Some(
            digits_value(s.take(k)) * (SCALE as nat) + digits_value(s.skip(k + 1)) * pow10(
                (DECIMALS - (s.len() - k - 1)) as nat,
            ),
        )
    } else {
        None
    }
}

/// A value that fits in a `u64`, or `None`.
pub open spec fn fit(v: Option<nat>) -> Option<u64> {
    match v {
        Some(n) => if n <= u64::MAX {
            Some(n as u64)
        } else {
            None
        },
        None => None,
    }
}

proof fn lemma_digits_step(s: Seq<u8>, i: int)
    requires
        0 <= i < s.len(),
    ensures
        digits_value(s.take(i + 1)) == digits_value(s.take(i)) * 10 + (s[i] - 48) as nat,
{
    assert(s.take(i + 1).drop_last() =~= s.take(i));
}

proof fn lemma_pow10_bound(n: nat)
    requires
        n <= 8,
    ensures
        1 <= pow10(n) <= 100_000_000,
{
    reveal_with_fuel(pow10, 9);
}

/// The fixed-point value of the numeral `s`, if it is one and fits in a `u64`.
pub open spec fn decimal_of(s: Seq<u8>) -> Option<u64> {
    fit(numeral_value(s, choose|k: int| leading_digits(s, k)))
}

/// Reads a decimal numeral as a fixed-point integer with DECIMALS places:
/// digits, optionally followed by `.` and one to DECIMALS digits. `None`
/// where the text is no such numeral or its value does not fit in a `u64`.
pub fn parse_decimal(b: &[u8]) -> (r: Option<u64>)
    ensures
        r == decimal_of(b@),
{
    let r = scan_decimal(b);
    proof {
        let k = choose|k: int| leading_digits(b@, k);
        assert(leading_digits(b@, k));
    }
    r
}

fn scan_decimal(b: &[u8]) -> (r: Option<u64>)
    ensures
        exists|k: int| leading_digits(b@, k),
        forall|k: int| leading_digits(b@, k) ==> r == fit(numeral_value(b@, k)),
{
    let ghost s = b@;
    let n = b.len();
    let mut i: usize = 0;
    let mut acc: u64 = 0;
    let mut overflow = false;
    while i < n && 48 <= b[i] && b[i] <= 57
        invariant
            s == b@,
            n == s.len(),
            i <= n,
            all_digits(s.take(i as int)),
            !overflow ==> acc == digits_value(s.take(i as int)),
            overflow ==> digits_value(s.take(i as int)) > u64::MAX,
        decreases n - i,
    {
        proof {
            lemma_digits_step(s, i as int);
            assert forall|x: int| 0 <= x < i + 1 implies is_digit(#[trigger] s.take(i + 1)[x]) by {
                if x < i {
                    assert(s.take(i as int)[x] == s[x]);
                }
            }
        }
        if !overflow {
            match acc.checked_mul(10) {
                Some(m) => match m.checked_add((b[i] - 48) as u64) {
                    Some(v) => {
                        acc = v;
                    },
                    None => {
                        overflow = true;
                    },
                },
                None => {
                    overflow = true;
                },
            }
        }
        i = i + 1;
    }
    let ghost k = i as int;
    assert(leading_digits(s, k));
    assert forall|k2: int| leading_digits(s, k2) implies k2 == k by {
        if k2 < k {
            assert(s.take(k)[k2] == s[k2]);
        } else if k2 > k {
            assert(s.take(k2)[k] == s[k]);
        }
    }
    if i == 0 {
        return None;
    }
    if overflow {
        proof {
            let d = digits_value(s.take(k));
            assert(d * (SCALE as nat) >= d) by (nonlinear_arith);
            if k == n {
                assert(s.take(k) =~= s);
            }
        }
        return None;
    }
    if i == n {
        assert(s.take(k) =~= s);
        return acc.checked_mul(SCALE);
    }
    if b[i] != 46 {
        return None;
    }
    let frac_start = i + 1;
    if n - frac_start < 1 || n - frac_start > DECIMALS as usize {
        return None;
    }
    let ghost f = s.skip(frac_start as int);
    let mut frac: u64 = 0;
    let mut j: usize = frac_start;
    while j < n
        invariant
            s == b@,
            n == s.len(),
            frac_start <= j <= n,
            n - frac_start <= 8,
            f == s.skip(frac_start as int),
            frac_start == k + 1,
            leading_digits(s, k),
            forall|k2: int| leading_digits(s, k2) ==> k2 == k,
            s[k] == 46u8,
            acc == digits_value(s.take(k)),
            all_digits(f.take(j - frac_start)),
            frac == digits_value(f.take(j - frac_start)),
            frac < pow10((j - frac_start) as nat),
        decreases n - j,
    {
        if b[j] < 48 || b[j] > 57 {
            proof {
                assert(f[j - frac_start] == s[j as int]);
                assert(!all_digits(f));
            }
            return None;
        }
        proof {
            let t = (j - frac_start) as int;
            lemma_digits_step(f, t);
            assert(f[t] == s[j as int]);
            assert forall|x: int| 0 <= x < t + 1 implies is_digit(#[trigger] f.take(t + 1)[x]) by {
                if x < t {
                    assert(f.take(t)[x] == f[x]);
                }
            }
            lemma_pow10_bound((t + 1) as nat);
            assert(pow10((t + 1) as nat) == 10 * pow10(t as nat));
        }
        frac = frac * 10 + (b[j] - 48) as u64;
        j = j + 1;
    }
    let places = DECIMALS as usize - (n - frac_start);
    assert(f.take(n - frac_start) =~= f);
    proof {
        lemma_pow10_bound((n - frac_start) as nat);
        lemma_pow10_bound(places as nat);
    }
    let scale_part = pow10_exec(places);
    let int_part = match acc.checked_mul(SCALE) {
        Some(v) => v,
        None => {
            return None;
        },
    };
    assert(frac * scale_part <= 100_000_000 * 100_000_000) by (nonlinear_arith)
        requires
            frac <= 100_000_000,
            scale_part <= 100_000_000,
    ;
    int_part.checked_add(frac * scale_part)
}

fn pow10_exec(n: usize) -> (r: u64)
    requires
        n <= 8,
    ensures
        r == pow10(n as nat),
{
    let mut r: u64 = 1;
    let mut i: usize = 0;
    while i < n
        invariant
            i <= n <= 8,
            r == pow10(i as nat),
        decreases n - i,
    {
        proof {
            lemma_pow10_bound((i + 1) as nat);
        }
        r = r * 10;
        i = i + 1;
    }
    r
}

} // verus!
