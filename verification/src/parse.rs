//! Parsing a decimal value (optional sign, digits, optional fractional
//! part) into a fixed-point number of hundredths.

use vstd::prelude::*;
use crate::entry::VAL_LIMIT;

verus! {

/// Largest whole part a value may have; `MAX_WHOLE * 100 + 99 == VAL_LIMIT`.
pub const MAX_WHOLE: i64 = 9_999_999_999_999;

/// Index of the first occurrence of `ch` in `s`, or `-1` if absent.
pub open spec fn first_occ(s: Seq<u8>, ch: u8) -> int
    decreases s.len(),
{
    if s.len() == 0 {
        -1
    } else if s[0] == ch {
        0
    } else if first_occ(s.subrange(1, s.len() as int), ch) < 0 {
        -1
    } else {
        first_occ(s.subrange(1, s.len() as int), ch) + 1
    }
}

pub proof fn lemma_first_occ(s: Seq<u8>, ch: u8)
    ensures
        first_occ(s, ch) >= 0 ==> 0 <= first_occ(s, ch) < s.len() && s[first_occ(s, ch)] == ch
            && (forall|j: int| 0 <= j < first_occ(s, ch) ==> s[j] != ch),
        first_occ(s, ch) < 0 ==> (forall|j: int| 0 <= j < s.len() ==> s[j] != ch),
    decreases s.len(),
{
    if s.len() == 0 {
    } else if s[0] == ch {
    } else {
        let t = s.subrange(1, s.len() as int);
        lemma_first_occ(t, ch);
        if first_occ(s, ch) < 0 {
            assert forall|j: int| 0 <= j < s.len() implies s[j] != ch by {
                if j >= 1 {
                    assert(t[j - 1] == s[j]);
                }
            }
        } else {
            let i = first_occ(s, ch);
            assert(t[i - 1] == s[i]);
            assert forall|j: int| 0 <= j < i implies s[j] != ch by {
                if j >= 1 {
                    assert(t[j - 1] == s[j]);
                }
            }
        }
    }
}

pub proof fn lemma_first_occ_is(s: Seq<u8>, ch: u8, i: int)
    requires
        0 <= i < s.len(),
        s[i] == ch,
        forall|j: int| 0 <= j < i ==> s[j] != ch,
    ensures
        first_occ(s, ch) == i,
    decreases s.len(),
{
    if s[0] == ch {
        assert(i == 0);
    } else {
        let t = s.subrange(1, s.len() as int);
        assert(forall|j: int| 0 <= j < t.len() ==> t[j] == s[j + 1]);
        lemma_first_occ_is(t, ch, i - 1);
    }
}

pub open spec fn is_digit(b: u8) -> bool {
    48 <= b <= 57
}

pub open spec fn all_digits(s: Seq<u8>) -> bool {
    forall|i: int| 0 <= i < s.len() ==> is_digit(#[trigger] s[i])
}

/// Value of a string of decimal digits, most significant first.
pub open spec fn digits_val(s: Seq<u8>) -> int
    decreases s.len(),
{
    if s.len() == 0 {
        0
    } else {
        digits_val(s.drop_last()) * 10 + (s.last() - 48)
    }
}

pub proof fn lemma_digits_nonneg(s: Seq<u8>)
    requires
        all_digits(s),
    ensures
        digits_val(s) >= 0,
    decreases s.len(),
{
    if s.len() > 0 {
        assert(all_digits(s.drop_last()));
        lemma_digits_nonneg(s.drop_last());
    }
}

/// One more digit extends the prefix value.
pub proof fn lemma_digits_step(s: Seq<u8>, i: int)
    requires
        0 <= i < s.len(),
    ensures
        digits_val(s.take(i + 1)) == digits_val(s.take(i)) * 10 + (s[i] - 48),
{
    assert(s.take(i + 1).drop_last() =~= s.take(i));
    assert(s.take(i + 1).last() == s[i]);
}

/// A longer all-digit prefix never has a smaller value.
pub proof fn lemma_digits_extend(s: Seq<u8>, i: int)
    requires
        all_digits(s),
        0 <= i <= s.len(),
    ensures
        digits_val(s.take(i)) >= 0,
        digits_val(s) >= digits_val(s.take(i)),
    decreases s.len() - i,
{
    assert(forall|j: int| 0 <= j < i ==> s.take(i)[j] == s[j]);
    assert(all_digits(s.take(i)));
    lemma_digits_nonneg(s.take(i));
    if i == s.len() {
        assert(s.take(i) =~= s);
    } else {
        lemma_digits_step(s, i);
        lemma_digits_extend(s, i + 1);
    }
}

/// Contribution of the fractional digits, truncated to hundredths.
pub open spec fn frac_hundredths(fp: Seq<u8>) -> int {
    if fp.len() == 0 {
        0
    } else if fp.len() == 1 {
        (fp[0] - 48) * 10
    } else {
        (fp[0] - 48) * 10 + (fp[1] - 48)
    }
}

/// An unsigned decimal: digits, then optionally a dot and more digits.
/// Rejected when malformed or when the whole part exceeds `MAX_WHOLE`.
pub open spec fn parse_unsigned(s: Seq<u8>) -> Option<int> {
    let dot = first_occ(s, 46);
    let ip = if dot >= 0 {
        s.take(dot)
    } else {
        s
    };
    let fp = if dot >= 0 {
        s.subrange(dot + 1, s.len() as int)
    } else {
        Seq::<u8>::empty()
    };
    if ip.len() >= 1 && all_digits(ip) && all_digits(fp) && digits_val(ip) <= MAX_WHOLE {
        Some(digits_val(ip) * 100 + frac_hundredths(fp))
    } else {
        None
    }
}

/// A decimal value with an optional single leading sign, in hundredths.
pub open spec fn spec_parse_value(s: Seq<u8>) -> Option<int> {
    if s.len() == 0 {
        None
    } else if s[0] == 43 {
        parse_unsigned(s.subrange(1, s.len() as int))
    } else if s[0] == 45 {
        match parse_unsigned(s.subrange(1, s.len() as int)) {
            Some(v) => Some(-v),
            None => None,
        }
    } else {
        parse_unsigned(s)
    }
}

pub proof fn lemma_parse_unsigned_bounds(s: Seq<u8>)
    ensures
        parse_unsigned(s) matches Some(v) ==> 0 <= v <= VAL_LIMIT,
{
    let dot = first_occ(s, 46);
    let ip = if dot >= 0 {
        s.take(dot)
    } else {
        s
    };
    if parse_unsigned(s) is Some {
        lemma_first_occ(s, 46);
        lemma_digits_nonneg(ip);
    }
}

pub proof fn lemma_parse_value_bounds(s: Seq<u8>)
    ensures
        spec_parse_value(s) matches Some(v) ==> -VAL_LIMIT <= v <= VAL_LIMIT,
{
    if s.len() > 0 {
        lemma_parse_unsigned_bounds(s.subrange(1, s.len() as int));
        lemma_parse_unsigned_bounds(s);
    }
}

/// Parses the unsigned tail of a value; mirrors `parse_unsigned`.
fn parse_unsigned_exec(u: &[u8]) -> (r: Option<i64>)
    ensures
        r matches Some(v) ==> parse_unsigned(u@) == Some(v as int) && 0 <= v <= VAL_LIMIT,
        r is None ==> parse_unsigned(u@) is None,
{
    let ghost us = u@;
    let n = u.len();
    let mut j: usize = 0;
    let mut acc: i64 = 0;
    proof {
        assert(us.take(0) =~= Seq::<u8>::empty());
    }
    while j < n && 48 <= u[j] && u[j] <= 57
        invariant
            0 <= j <= n,
            n == us.len(),
            us == u@,
            forall|m: int| 0 <= m < j ==> is_digit(#[trigger] us[m]),
            acc == digits_val(us.take(j as int)),
            0 <= acc <= MAX_WHOLE,
        decreases n - j,
    {
        let d = u[j];
        let next: i64 = acc * 10 + (d - 48) as i64;
        proof {
            lemma_digits_step(us, j as int);
        }
        if next > MAX_WHOLE {
            proof {
                lemma_first_occ(us, 46);
                let dot = first_occ(us, 46);
                if 0 <= dot <= j {
                    assert(is_digit(us[dot]));
                    assert(false);
                }
                let ip = if dot >= 0 {
                    us.take(dot)
                } else {
                    us
                };
                if all_digits(ip) {
                    assert(ip.take(j + 1) =~= us.take(j + 1));
                    lemma_digits_extend(ip, j + 1);
                }
            }
            return None;
        }
        acc = next;
        j += 1;
    }
    if j == n {
        // no dot: the whole input is the whole part
        if n == 0 {
            return None;
        }
        proof {
            lemma_first_occ(us, 46);
            if first_occ(us, 46) >= 0 {
                assert(is_digit(us[first_occ(us, 46)]));
                assert(false);
            }
            assert(us.take(n as int) =~= us);
        }
        Some(acc * 100)
    } else if u[j] == 46 {
        if j == 0 {
            proof {
                lemma_first_occ_is(us, 46, 0);
                assert(us.take(0).len() == 0);
            }
            return None;
        }
        proof {
            lemma_first_occ_is(us, 46, j as int);
            assert(forall|m: int| 0 <= m < j ==> us.take(j as int)[m] == us[m]);
            assert(all_digits(us.take(j as int)));
        }
        let ghost fp = us.subrange(j as int + 1, n as int);
        let mut k: usize = j + 1;
        let mut fval: i64 = 0;
        while k < n
            invariant
                j + 1 <= k <= n,
                1 <= j < n,
                n == us.len(),
                us == u@,
                first_occ(us, 46) == j,
                all_digits(us.take(j as int)),
                acc == digits_val(us.take(j as int)),
                0 <= acc <= MAX_WHOLE,
                fp == us.subrange(j as int + 1, n as int),
                forall|m: int| j + 1 <= m < k ==> is_digit(#[trigger] us[m]),
                fval == (if k - j - 1 == 0 {
                    0int
                } else if k - j - 1 == 1 {
                    (us[j + 1] - 48) * 10
                } else {
                    (us[j + 1] - 48) * 10 + (us[j + 2] - 48)
                }),
                0 <= fval <= 99,
            decreases n - k,
        {
            let d = u[k];
            if d < 48 || d > 57 {
                proof {
                    assert(fp[k - j - 1] == us[k as int]);
                    assert(!all_digits(fp));
                }
                return None;
            }
            if k == j + 1 {
                fval = (d - 48) as i64 * 10;
            } else if k == j + 2 {
                fval = fval + (d - 48) as i64;
            }
            k += 1;
        }
        proof {
            assert(forall|m: int| 0 <= m < fp.len() ==> fp[m] == us[j + 1 + m]);
            assert(all_digits(fp));
            assert(fval == frac_hundredths(fp));
        }
        Some(acc * 100 + fval)
    } else {
        // a byte that is neither a digit nor a dot: the line is dropped
        proof {
            lemma_first_occ(us, 46);
            let dot = first_occ(us, 46);
            if 0 <= dot < j {
                assert(is_digit(us[dot]));
                assert(false);
            }
            let ip = if dot >= 0 {
                us.take(dot)
            } else {
                us
            };
            assert(ip[j as int] == us[j as int]);
            assert(!all_digits(ip));
        }
        None
    }
}

/// Parses one decimal value into fixed-point hundredths; mirrors
/// `spec_parse_value`.
pub fn parse_value(s: &[u8]) -> (r: Option<i64>)
    ensures
        r matches Some(v) ==> spec_parse_value(s@) == Some(v as int) && -VAL_LIMIT <= v
            <= VAL_LIMIT,
        r is None ==> spec_parse_value(s@) is None,
{
    if s.len() == 0 {
        return None;
    }
    let c0 = s[0];
    let neg = c0 == 45;
    let off: usize = if c0 == 43 || c0 == 45 {
        1
    } else {
        0
    };
    let u = vstd::slice::slice_subrange(s, off, s.len());
    proof {
        if off == 0 {
            assert(u@ =~= s@);
        }
    }
    match parse_unsigned_exec(u) {
        None => None,
        Some(v) => if neg {
            Some(-v)
        } else {
            Some(v)
        },
    }
}

} // verus!
