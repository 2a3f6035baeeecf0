//! Decimal integer parsing for the `exit` built-in: an optional sign followed
//! by at least one ASCII digit, rejected on overflow, as the standard decimal
//! grammar for 32-bit integers has it.

use vstd::prelude::*;

verus! {

/// Is `c` an ASCII decimal digit?
pub open spec fn spec_is_digit(c: char) -> bool {
    48 <= c as int && c as int <= 57
}

/// The value of one digit.
pub open spec fn spec_digit_val(c: char) -> int {
    c as int - 48
}

/// The value of a digit string, most significant digit first.
pub open spec fn spec_digits_val(s: Seq<char>) -> int
    decreases s.len(),
{
    if s.len() == 0 {
        0
    } else {
        spec_digits_val(s.drop_last()) * 10 + spec_digit_val(s.last())
    }
}

/// Is `s` a non-empty run of digits?
pub open spec fn spec_all_digits(s: Seq<char>) -> bool {
    s.len() > 0 && (forall|k: int| 0 <= k < s.len() ==> spec_is_digit(#[trigger] s[k]))
}

/// What parsing yields: the signed value if the text is an optional `+` or
/// `-` followed by digits and the value fits in 32 bits, nothing otherwise.
pub open spec fn spec_parse_i32(s: Seq<char>) -> Option<i32> {
    let neg = s.len() > 0 && s[0] == '-';
    let signed = s.len() > 0 && (s[0] == '-' || s[0] == '+');
    let digs = if signed {
        s.drop_first()
    } else {
        s
    };
    if !spec_all_digits(digs) {
        None
    } else {
        let v = if neg {
            -spec_digits_val(digs)
        } else {
            spec_digits_val(digs)
        };
        if i32::MIN <= v <= i32::MAX {
            Some(v as i32)
        } else {
            None
        }
    }
}

/// A digit string's value is non-negative and at least the value of any of
/// its prefixes.
proof fn lemma_digits_prefix(s: Seq<char>, k: int)
    requires
        0 <= k <= s.len(),
        forall|j: int| 0 <= j < s.len() ==> spec_is_digit(#[trigger] s[j]),
    ensures
        0 <= spec_digits_val(s.subrange(0, k)),
        spec_digits_val(s.subrange(0, k)) <= spec_digits_val(s),
    decreases s.len(),
{
    if s.len() == 0 {
        assert(s.subrange(0, k) =~= s);
    } else if k == s.len() {
        assert(s.subrange(0, k) =~= s);
        lemma_digits_prefix(s.drop_last(), s.len() - 1);
        assert(s.drop_last().subrange(0, s.len() - 1) =~= s.drop_last());
    } else {
        let d = s.drop_last();
        assert(forall|j: int| 0 <= j < d.len() ==> spec_is_digit(#[trigger] d[j]));
        lemma_digits_prefix(d, k);
        assert(d.subrange(0, k) =~= s.subrange(0, k));
        assert(spec_digits_val(s) == spec_digits_val(d) * 10 + spec_digit_val(s.last()));
        lemma_digits_prefix(d, d.len() as int);
        assert(d.subrange(0, d.len() as int) =~= d);
    }
}

/// Parses a 32-bit integer from decimal text: an optional sign, then at
/// least one digit; rejects anything else, and rejects overflow.
pub fn parse_i32(s: &String) -> (r: Option<i32>)
    ensures
        r == spec_parse_i32(s@),
{
    let st = s.as_str();
    let n = st.unicode_len();
    if n == 0 {
        return None;
    }
    let c0 = st.get_char(0);
    let neg = c0 == '-';
    let start: usize = if c0 == '-' || c0 == '+' {
        1
    } else {
        0
    };
    let ghost digs = st@.subrange(start as int, n as int);
    proof {
        if start == 1 {
            assert(digs =~= st@.drop_first());
        } else {
            assert(digs =~= st@);
        }
    }
    if start >= n {
        return None;
    }
    let mut acc: i64 = 0;
    let mut k = start;
    while k < n
        invariant
            start <= k <= n,
            n == st@.len(),
            start < n,
            st@ == s@,
            (start == 1) == (s@.len() > 0 && (s@[0] == '-' || s@[0] == '+')),
            neg == (s@.len() > 0 && s@[0] == '-'),
            digs == st@.subrange(start as int, n as int),
            digs == (if start == 1 {
                st@.drop_first()
            } else {
                st@
            }),
            forall|j: int| start <= j < k ==> spec_is_digit(#[trigger] st@[j]),
            acc == spec_digits_val(st@.subrange(start as int, k as int)),
            0 <= acc <= 0x8000_0000,
        decreases n - k,
    {
        let c = st.get_char(k);
        let cu = c as u32;
        if cu < 48 || cu > 57 {
            proof {
                assert(digs[k - start] == st@[k as int]);
                assert(!spec_all_digits(digs));
            }
            return None;
        }
        let d = (cu - 48) as i64;
        acc = acc * 10 + d;
        proof {
            let pre = st@.subrange(start as int, k as int);
            let ext = st@.subrange(start as int, k as int + 1);
            assert(ext.drop_last() =~= pre);
            assert(ext.last() == st@[k as int]);
        }
        if acc > 0x8000_0000 {
            proof {
                if spec_all_digits(digs) {
                    lemma_digits_prefix(digs, k + 1 - start);
                    assert(digs.subrange(0, k + 1 - start) =~= st@.subrange(
                        start as int,
                        k as int + 1,
                    ));
                }
            }
            return None;
        }
        k = k + 1;
    }
    proof {
        assert(st@.subrange(start as int, n as int) =~= digs);
        assert forall|j: int| 0 <= j < digs.len() implies spec_is_digit(#[trigger] digs[j]) by {
            assert(digs[j] == st@[j + start]);
        }
        assert(spec_all_digits(digs));
    }
    if neg {
        Some((-acc) as i32)
    } else {
        if acc > 0x7fff_ffff {
            return None;
        }
        Some(acc as i32)
    }
}

} // verus!
