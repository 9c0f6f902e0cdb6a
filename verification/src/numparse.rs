//! Parsing a line of textual input as a decimal integer, for the number
//! input transition: trailing whitespace is trimmed, an optional sign is
//! accepted, and a value outside the 64-bit range does not parse.

use vstd::prelude::*;

verus! {

/// An ASCII whitespace byte, as trimmed from the end of an input line.
pub open spec fn is_space(b: u8) -> bool {
    b == 32 || (9 <= b && b <= 13)
}

/// `s` with every trailing whitespace byte removed.
pub open spec fn trimmed(s: Seq<u8>) -> Seq<u8>
    decreases s.len(),
{
    if s.len() > 0 && is_space(s.last()) {
        trimmed(s.drop_last())
    } else {
        s
    }
}

/// Every byte of `s` is a decimal digit.
pub open spec fn digits_only(s: Seq<u8>) -> bool {
    forall|i: int| 0 <= i < s.len() ==> 48 <= #[trigger] s[i] <= 57
}

/// The number the digit string `s` denotes, most significant digit first.
pub open spec fn digits_val(s: Seq<u8>) -> int
    decreases s.len(),
{
    if s.len() == 0 {
        0
    } else {
        digits_val(s.drop_last()) * 10 + (s.last() - 48)
    }
}

/// Ten to the `n`.
pub open spec fn pow10(n: nat) -> int
    decreases n,
{
    if n == 0 {
        1
    } else {
        10 * pow10((n - 1) as nat)
    }
}

/// The value a line parses to: after trimming trailing whitespace, an
/// optional + or - sign followed by at least one digit, denoting a value
/// within the 64-bit signed range; anything else does not parse.
pub open spec fn parse_i64(s: Seq<u8>) -> Option<i64> {
    let t = trimmed(s);
    let ds = if t.len() > 0 && (t[0] == 43 || t[0] == 45) {
        t.drop_first()
    } else {
        t
    };
    let neg = t.len() > 0 && t[0] == 45;
    if ds.len() > 0 && digits_only(ds) {
        let v = if neg {
            -digits_val(ds)
        } else {
            digits_val(ds)
        };
        if i64::MIN <= v <= i64::MAX {
            Some(v as i64)
        } else {
            None
        }
    } else {
        None
    }
}

/// Ten to the power grows with the exponent.
proof fn lemma_pow10_mono(a: nat, b: nat)
    requires
        a <= b,
    ensures
        pow10(a) <= pow10(b),
        pow10(a) >= 1,
    decreases b,
{
    if b > 0 {
        if a == b {
            lemma_pow10_mono((a - 1) as nat, (b - 1) as nat);
        } else {
            lemma_pow10_mono(a, (b - 1) as nat);
        }
    }
}

/// A leading zero does not change a digit string's value.
proof fn lemma_digits_leading_zero(s: Seq<u8>)
    requires
        s.len() >= 1,
        s[0] == 48,
    ensures
        digits_val(s) == digits_val(s.drop_first()),
    decreases s.len(),
{
    reveal_with_fuel(digits_val, 3);
    if s.len() == 1 {
        assert(s.drop_last() =~= Seq::<u8>::empty());
        assert(s.drop_first() =~= Seq::<u8>::empty());
    } else {
        let a = s.drop_last();
        assert(a[0] == 48);
        lemma_digits_leading_zero(a);
        assert(s.drop_first().drop_last() =~= a.drop_first());
        assert(s.drop_first().last() == s.last());
    }
}

/// Leading zeros do not change a digit string's value.
proof fn lemma_digits_strip_zeros(s: Seq<u8>, j: int)
    requires
        0 <= j <= s.len(),
        forall|i: int| 0 <= i < j ==> #[trigger] s[i] == 48,
    ensures
        digits_val(s) == digits_val(s.subrange(j, s.len() as int)),
    decreases j,
{
    if j == 0 {
        assert(s.subrange(0, s.len() as int) =~= s);
    } else {
        lemma_digits_leading_zero(s);
        let s1 = s.drop_first();
        lemma_digits_strip_zeros(s1, j - 1);
        assert(s1.subrange(j - 1, s1.len() as int) =~= s.subrange(j, s.len() as int));
    }
}

/// A digit string that starts with a nonzero digit denotes at least ten to
/// one less than its length.
proof fn lemma_digits_first_significant(s: Seq<u8>)
    requires
        digits_only(s),
        s.len() >= 1,
        s[0] >= 49,
    ensures
        digits_val(s) >= pow10((s.len() - 1) as nat),
    decreases s.len(),
{
    if s.len() == 1 {
        reveal_with_fuel(digits_val, 2);
    } else {
        let a = s.drop_last();
        assert(digits_only(a));
        lemma_digits_first_significant(a);
    }
}

fn is_space_byte(b: u8) -> (r: bool)
    ensures
        r == is_space(b),
{
    b == 32 || (9 <= b && b <= 13)
}

/// Trims trailing ASCII whitespace and parses a decimal integer with an
/// optional sign, reporting nothing for malformed or out-of-range input.
#[verifier::rlimit(80)]
#[verifier::loop_isolation(false)]
pub fn parse_number(line: &[u8]) -> (r: Option<i64>)
    ensures
        r == parse_i64(line@),
{
    let n = line.len();
    let mut end = n;
    proof {
        assert(line@.take(n as int) =~= line@);
    }
    while end > 0 && is_space_byte(line[end - 1])
        invariant
            0 <= end <= n,
            trimmed(line@) == trimmed(line@.take(end as int)),
        decreases end,
    {
        proof {
            let t = line@.take(end as int);
            assert(t.last() == line@[end - 1]);
            assert(t.drop_last() =~= line@.take(end - 1));
        }
        end = end - 1;
    }
    let ghost t = trimmed(line@);
    proof {
        let u = line@.take(end as int);
        if end > 0 {
            assert(u.last() == line@[end - 1]);
        }
        assert(trimmed(u) == u);
        assert(t =~= line@.take(end as int));
    }
    let mut i: usize = 0;
    let mut neg = false;
    if end > 0 && (line[0] == 43 || line[0] == 45) {
        i = 1;
        neg = line[0] == 45;
    }
    let ghost ds = if t.len() > 0 && (t[0] == 43 || t[0] == 45) {
        t.drop_first()
    } else {
        t
    };
    proof {
        assert(ds =~= line@.subrange(i as int, end as int));
    }
    if i >= end {
        proof {
            assert(ds.len() == 0);
        }
        return None;
    }
    // every byte must be a digit
    let mut idx: usize = i;
    while idx < end
        invariant
            i <= idx <= end,
            forall|q: int| i <= q < idx ==> 48 <= #[trigger] line@[q] <= 57,
        decreases end - idx,
    {
        let b = line[idx];
        if b < 48 || b > 57 {
            proof {
                assert(ds[idx - i] == line@[idx as int]);
                assert(!digits_only(ds));
            }
            return None;
        }
        idx = idx + 1;
    }
    proof {
        assert forall|q: int| 0 <= q < ds.len() implies 48 <= #[trigger] ds[q] <= 57 by {
            assert(ds[q] == line@[q + i]);
        }
        assert(digits_only(ds));
    }
    // skip leading zeros
    let mut j: usize = i;
    while j < end && line[j] == 48
        invariant
            i <= j <= end,
            forall|q: int| i <= q < j ==> #[trigger] line@[q] == 48,
        decreases end - j,
    {
        j = j + 1;
    }
    let ghost sig = line@.subrange(j as int, end as int);
    proof {
        assert forall|q: int| 0 <= q < j - i implies #[trigger] ds[q] == 48 by {
            assert(ds[q] == line@[q + i]);
        }
        lemma_digits_strip_zeros(ds, j - i);
        assert(ds.subrange(j - i, ds.len() as int) =~= sig);
        assert(digits_val(ds) == digits_val(sig));
        assert(digits_only(sig)) by {
            assert forall|q: int| 0 <= q < sig.len() implies 48 <= #[trigger] sig[q] <= 57 by {
                assert(sig[q] == line@[q + j]);
            }
        }
    }
    if j == end {
        // all zeros
        proof {
            assert(sig.len() == 0);
            assert(digits_val(ds) == 0);
        }
        return Some(0);
    }
    if end - j > 19 {
        // at least twenty significant digits: out of the 64-bit range
        proof {
            assert(sig[0] == line@[j as int]);
            assert(sig[0] >= 49);
            lemma_digits_first_significant(sig);
            lemma_pow10_mono(19, (sig.len() - 1) as nat);
            assert(pow10(19) == 10000000000000000000) by {
                reveal_with_fuel(pow10, 21);
            }
            assert(digits_val(ds) >= 10000000000000000000);
        }
        return None;
    }
    // accumulate the value; at most nineteen digits, so no overflow
    let mut mag: u64 = 0;
    let mut idx: usize = j;
    while idx < end
        invariant
            j <= idx <= end,
            end - j <= 19,
            mag == digits_val(line@.subrange(j as int, idx as int)),
            mag < pow10((idx - j) as nat),
        decreases end - idx,
    {
        let d = line[idx];
        proof {
            assert(48 <= line@[idx as int] <= 57) by {
                assert(sig[idx - j] == line@[idx as int]);
            }
            lemma_pow10_mono((idx - j) as nat, 18);
            assert(pow10(18) == 1000000000000000000) by {
                reveal_with_fuel(pow10, 20);
            }
            let pre = line@.subrange(j as int, idx as int);
            let cur = line@.subrange(j as int, idx + 1);
            assert(cur.drop_last() =~= pre);
            assert(cur.last() == line@[idx as int]);
        }
        mag = mag * 10 + ((d - 48) as u64);
        idx = idx + 1;
    }
    proof {
        assert(line@.subrange(j as int, end as int) =~= sig);
        assert(mag == digits_val(sig));
    }
    if neg {
        if mag > 9223372036854775808u64 {
            return None;
        }
        if mag == 9223372036854775808u64 {
            return Some(i64::MIN);
        }
        Some(-(mag as i64))
    } else {
        if mag > 9223372036854775807u64 {
            return None;
        }
        Some(mag as i64)
    }
}

} // verus!
