//! Hexadecimal digit characters, and the value of a run of them.
use vstd::prelude::*;

use vstd::arithmetic::power2::*;

use crate::significance::{keep_64_bits, lemma_keep_compose, lemma_keep_idempotent};

verus! {

/// The value of `c` as a hexadecimal digit, accepting either case; what
/// `char::to_digit(16)` returns.
pub open spec fn hex_digit_value(c: char) -> Option<u32> {
    if '0' <= c && c <= '9' {
        Some((c as u32 - '0' as u32) as u32)
    } else if 'a' <= c && c <= 'f' {
        Some((c as u32 - 'a' as u32 + 10) as u32)
    } else if 'A' <= c && c <= 'F' {
        Some((c as u32 - 'A' as u32 + 10) as u32)
    } else {
        None
    }
}

pub open spec fn is_hex_digit(c: char) -> bool {
    hex_digit_value(c) is Some
}

/// Every character of `s` is a hexadecimal digit.
pub open spec fn all_hex_digits(s: Seq<char>) -> bool {
    forall|i: int| 0 <= i < s.len() ==> #[trigger] is_hex_digit(s[i])
}

/// The first `n` characters of `s` are hexadecimal digits, and the character
/// after them, if any, is not.
pub open spec fn hex_run_ends_at(s: Seq<char>, n: int) -> bool {
    &&& 0 <= n <= s.len()
    &&& all_hex_digits(s.take(n))
    &&& n < s.len() ==> !is_hex_digit(s[n])
}

/// The number whose hexadecimal digits are those of `v` followed by the
/// digits of `s`.
pub open spec fn append_hex_digits(v: nat, s: Seq<char>) -> nat
    decreases s.len(),
{
    if s.len() == 0 {
        v
    } else {
        append_hex_digits(v, s.drop_last()) * 16 + hex_digit_value(s.last())->0 as nat
    }
}

/// The value of the hexadecimal numeral `s`.
pub open spec fn hex_value(s: Seq<char>) -> nat {
    append_hex_digits(0, s)
}

/// Interpret `c` as a hexadecimal digit, as `char::to_digit(16)` does.
pub fn hex_digit(c: char) -> (r: Option<u32>)
    ensures
        r == hex_digit_value(c),
        r matches Some(d) ==> d < 16,
{
    if '0' <= c && c <= '9' {
        Some(c as u32 - '0' as u32)
    } else if 'a' <= c && c <= 'f' {
        Some(c as u32 - 'a' as u32 + 10)
    } else if 'A' <= c && c <= 'F' {
        Some(c as u32 - 'A' as u32 + 10)
    } else {
        None
    }
}

/// Extending a run of digits by one more digit.
pub proof fn lemma_append_one(v: nat, s: Seq<char>, i: int)
    requires
        0 <= i < s.len(),
        is_hex_digit(s[i]),
        all_hex_digits(s.take(i)),
    ensures
        append_hex_digits(v, s.take(i + 1)) == append_hex_digits(v, s.take(i)) * 16
            + hex_digit_value(s[i])->0 as nat,
        all_hex_digits(s.take(i + 1)),
{
    assert(s.take(i + 1).drop_last() =~= s.take(i));
    assert(s.take(i + 1).last() == s[i]);
    assert forall|j: int| 0 <= j < i + 1 implies #[trigger] is_hex_digit(s.take(i + 1)[j]) by {
        if j < i {
            assert(s.take(i + 1)[j] == s.take(i)[j]);
        }
    }
}

/// The number of hexadecimal digits at the start of `s`.
pub open spec fn hex_run_len(s: Seq<char>) -> nat
    decreases s.len(),
{
    if s.len() > 0 && is_hex_digit(s[0]) {
        1 + hex_run_len(s.drop_first())
    } else {
        0
    }
}

/// The run of hexadecimal digits at the start of `s` ends after
/// `hex_run_len(s)` characters, and nowhere else.
pub proof fn lemma_hex_run_len(s: Seq<char>, n: int)
    ensures
        hex_run_ends_at(s, hex_run_len(s) as int),
        hex_run_ends_at(s, n) ==> n == hex_run_len(s),
    decreases s.len(),
{
    if s.len() > 0 {
        let t = s.drop_first();
        lemma_hex_run_len(t, n - 1);
        if is_hex_digit(s[0]) {
            let k = hex_run_len(t) as int;
            assert forall|j: int| 0 <= j < k + 1 implies #[trigger] is_hex_digit(s.take(k + 1)[j]) by {
                if j > 0 {
                    assert(s.take(k + 1)[j] == t.take(k)[j - 1]);
                }
            }
            if hex_run_ends_at(s, n) {
                if n == 0 {
                } else {
                    assert forall|j: int| 0 <= j < n - 1 implies #[trigger] is_hex_digit(
                        t.take(n - 1)[j],
                    ) by {
                        assert(t.take(n - 1)[j] == s.take(n)[j + 1]);
                    }
                    if n < s.len() {
                        assert(t[n - 1] == s[n]);
                    }
                    assert(hex_run_ends_at(t, n - 1));
                }
                if n == 0 {
                    assert(0 < s.len() ==> !is_hex_digit(s[0]));
                }
            }
            if k + 1 < s.len() {
                assert(t[k] == s[k + 1]);
            }
        } else {
            if hex_run_ends_at(s, n) && n > 0 {
                assert(is_hex_digit(s.take(n)[0]));
            }
        }
    }
}

/// Keeping only 64 significant bits before appending digits, rather than
/// only after, changes nothing; and bits lost before stay lost.
pub proof fn lemma_keep_then_append(v: nat, s: Seq<char>)
    requires
        all_hex_digits(s),
    ensures
        keep_64_bits(append_hex_digits(keep_64_bits(v), s)) == keep_64_bits(append_hex_digits(v, s)),
        keep_64_bits(v) != v ==> keep_64_bits(append_hex_digits(v, s)) != append_hex_digits(v, s),
    decreases s.len(),
{
    if s.len() == 0 {
        lemma_keep_idempotent(v);
    } else {
        let t = s.drop_last();
        assert(all_hex_digits(t)) by {
            assert forall|j: int| 0 <= j < t.len() implies #[trigger] is_hex_digit(t[j]) by {
                assert(t[j] == s[j]);
            }
        }
        assert(is_hex_digit(s[s.len() - 1]));
        lemma_keep_then_append(v, t);
        let d = hex_digit_value(s.last())->0 as nat;
        let y1 = append_hex_digits(keep_64_bits(v), t);
        let y2 = append_hex_digits(v, t);
        lemma_keep_compose(y1, d);
        lemma_keep_compose(y2, d);
    }
}

/// Each hexadecimal digit appended adds at most four bits.
pub proof fn lemma_append_bound(v: nat, n: nat, s: Seq<char>)
    requires
        v < pow2(n),
        all_hex_digits(s),
    ensures
        append_hex_digits(v, s) < pow2(n + 4 * s.len()),
    decreases s.len(),
{
    if s.len() > 0 {
        let t = s.drop_last();
        assert(all_hex_digits(t)) by {
            assert forall|j: int| 0 <= j < t.len() implies #[trigger] is_hex_digit(t[j]) by {
                assert(t[j] == s[j]);
            }
        }
        assert(is_hex_digit(s[s.len() - 1]));
        lemma_append_bound(v, n, t);
        let k = n + 4 * t.len();
        lemma_pow2_adds(k, 4);
        lemma2_to64();
        assert(n + 4 * s.len() == k + 4);
    }
}

/// A prefix of a run of digits is a run of digits.
pub proof fn lemma_all_hex_prefix(s: Seq<char>, i: int, j: int)
    requires
        0 <= i <= j <= s.len(),
        all_hex_digits(s.take(j)),
    ensures
        all_hex_digits(s.take(i)),
{
    assert forall|k: int| 0 <= k < i implies #[trigger] is_hex_digit(s.take(i)[k]) by {
        assert(s.take(i)[k] == s.take(j)[k]);
    }
}

} // verus!
