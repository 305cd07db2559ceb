//! Canonical decimal text for the non-negative expiry timestamp carried in a
//! claim set: no sign, no leading zeros, value within `i64`.

use vstd::prelude::*;

verus! {

/// True for the bytes `'0'` through `'9'`.
pub open spec fn is_dec_digit(b: u8) -> bool {
    48 <= b <= 57
}

/// The canonical decimal digits of a non-negative number.
pub open spec fn dec_digits_of(n: int) -> Seq<u8>
    recommends
        n >= 0,
    decreases n,
{
    if n < 10 {
        seq![(48 + if n >= 0 { n } else { 0 }) as u8]
    } else {
        dec_digits_of(n / 10) + seq![(48 + n % 10) as u8]
    }
}

/// The value of a digit string.
pub open spec fn dec_val(s: Seq<u8>) -> int
    decreases s.len(),
{
    if s.len() == 0 {
        0
    } else {
        dec_val(s.drop_last()) * 10 + (s.last() - 48)
    }
}

/// A canonical digit string: non-empty, all digits, no leading zero.
pub open spec fn dec_canonical(s: Seq<u8>) -> bool {
    &&& s.len() > 0
    &&& forall|i: int| 0 <= i < s.len() ==> is_dec_digit(#[trigger] s[i])
    &&& (s[0] != 48 || s.len() == 1)
}

/// The number a digit string stands for, when it is canonical and fits `i64`.
pub open spec fn parse_dec_i64(s: Seq<u8>) -> Option<int> {
    if dec_canonical(s) && dec_val(s) <= i64::MAX {
        Some(dec_val(s))
    } else {
        None
    }
}

/// The canonical digits of a non-negative number are a canonical digit string.
pub proof fn lemma_dec_digits_canonical(n: int)
    requires
        n >= 0,
    ensures
        dec_canonical(dec_digits_of(n)),
        n >= 1 ==> dec_digits_of(n)[0] != 48,
    decreases n,
{
    if n < 10 {
    } else {
        lemma_dec_digits_canonical(n / 10);
        let d = dec_digits_of(n);
        let h = dec_digits_of(n / 10);
        assert(d[0] == h[0]);
        assert forall|i: int| 0 <= i < d.len() implies is_dec_digit(#[trigger] d[i]) by {
            if i < h.len() {
                assert(d[i] == h[i]);
            } else {
                assert(d[i] == (48 + n % 10) as u8);
            }
        }
    }
}

/// Reading back the canonical digits of a number gives the number.
pub proof fn lemma_dec_digits_val(n: int)
    requires
        n >= 0,
    ensures
        dec_val(dec_digits_of(n)) == n,
    decreases n,
{
    if n < 10 {
        let d = dec_digits_of(n);
        assert(d.len() == 1 && d[0] == (48 + n) as u8);
        assert(d.drop_last() =~= Seq::<u8>::empty());
        assert(dec_val(d) == dec_val(d.drop_last()) * 10 + (d.last() - 48));
    } else {
        lemma_dec_digits_val(n / 10);
        let d = dec_digits_of(n);
        assert(d.drop_last() =~= dec_digits_of(n / 10));
        assert(d.last() == (48 + n % 10) as u8);
    }
}

/// A digit string's value is non-negative.
pub proof fn lemma_dec_val_nonneg(s: Seq<u8>)
    requires
        forall|i: int| 0 <= i < s.len() ==> is_dec_digit(#[trigger] s[i]),
    ensures
        dec_val(s) >= 0,
    decreases s.len(),
{
    if s.len() > 0 {
        lemma_dec_val_nonneg(s.drop_last());
    }
}

/// The value of a prefix of a digit string never exceeds the whole value.
pub proof fn lemma_dec_val_prefix_le(s: Seq<u8>, i: int)
    requires
        forall|k: int| 0 <= k < s.len() ==> is_dec_digit(#[trigger] s[k]),
        0 <= i <= s.len(),
    ensures
        dec_val(s.subrange(0, i)) <= dec_val(s),
    decreases s.len() - i,
{
    if i == s.len() {
        assert(s.subrange(0, i) =~= s);
    } else {
        lemma_dec_val_prefix_le(s, i + 1);
        let p = s.subrange(0, i + 1);
        assert(p.drop_last() =~= s.subrange(0, i));
        assert(dec_val(p) == dec_val(s.subrange(0, i)) * 10 + (s[i] - 48));
        lemma_dec_val_nonneg(s.subrange(0, i));
    }
}

/// Appends the canonical decimal digits of `n` to `out`.
pub(crate) fn push_dec_u64(out: &mut Vec<u8>, n: u64)
    ensures
        final(out)@ == old(out)@ + dec_digits_of(n as int),
    decreases n,
{
    if n < 10 {
        out.push(48 + n as u8);
        assert(final(out)@ =~= old(out)@ + dec_digits_of(n as int));
    } else {
        push_dec_u64(out, n / 10);
        out.push(48 + (n % 10) as u8);
        assert(final(out)@ =~= old(out)@ + dec_digits_of(n as int));
    }
}

/// Parses the byte region `[from, to)` as a canonical decimal `i64`.
pub(crate) fn parse_dec_region(s: &[u8], from: usize, to: usize) -> (r: Option<i64>)
    requires
        from <= to <= s@.len(),
    ensures
        match r {
            Some(v) => parse_dec_i64(s@.subrange(from as int, to as int)) == Some(v as int) && v
                >= 0,
            None => parse_dec_i64(s@.subrange(from as int, to as int)) is None,
        },
{
    let ghost t = s@.subrange(from as int, to as int);
    let total = s.len();
    proof {
        assert(s@.len() == total);
    }
    if from == to {
        return None;
    }
    if s[from] == 48 && to - from > 1 {
        proof {
            assert(t[0] == 48 && t.len() > 1);
        }
        return None;
    }
    let mut m: i64 = 0;
    let mut i: usize = from;
    proof {
        assert(t.subrange(0, 0) =~= Seq::<u8>::empty());
    }
    while i < to
        invariant
            from <= i <= to <= s@.len(),
            s@.len() <= usize::MAX,
            t == s@.subrange(from as int, to as int),
            forall|k: int| 0 <= k < i - from ==> is_dec_digit(#[trigger] t[k]),
            0 <= m <= i64::MAX,
            m as int == dec_val(t.subrange(0, i - from)),
        decreases to - i,
    {
        let b = s[i];
        proof {
            assert(t[i - from] == s@[i as int]);
        }
        if b < 48 || b > 57 {
            proof {
                assert(!is_dec_digit(t[i - from]));
                assert(!dec_canonical(t));
            }
            return None;
        }
        let d = b - 48;
        proof {
            assert(t.subrange(0, i - from + 1).drop_last() =~= t.subrange(0, i - from));
            assert(dec_val(t.subrange(0, i - from + 1)) == m * 10 + d);
        }
        if m > (i64::MAX - d as i64) / 10 {
            proof {
                let q = (i64::MAX - d) / 10;
                let rr = (i64::MAX - d) % 10;
                assert(i64::MAX - d == 10 * q + rr && 0 <= rr < 10);
                assert(m * 10 + d > i64::MAX);
                assert forall|k: int| 0 <= k < t.len() implies is_dec_digit(#[trigger] t[k])
                    || !dec_canonical(t) by {}
                if dec_canonical(t) {
                    lemma_dec_val_prefix_le(t, i - from + 1);
                    assert(dec_val(t) > i64::MAX);
                }
            }
            return None;
        }
        proof {
            let q = (i64::MAX - d) / 10;
            let rr = (i64::MAX - d) % 10;
            assert(i64::MAX - d == 10 * q + rr && 0 <= rr < 10);
            assert(m * 10 + d <= i64::MAX);
        }
        m = m * 10 + d as i64;
        i += 1;
    }
    proof {
        assert(t.subrange(0, t.len() as int) =~= t);
        assert(dec_canonical(t));
    }
    Some(m)
}

} // verus!
