//! The string-literal layer of the claims payload: JSON escaping of the
//! email bytes on the way out, and the scan that undoes it, up to and
//! including the closing quote, on the way back.

use vstd::prelude::*;

verus! {

/// Lowercase hex digit byte for a value below 16.
pub open spec fn hex_lc(v: int) -> u8
    recommends
        0 <= v < 16,
{
    if v < 10 {
        (48 + v) as u8
    } else {
        (87 + v) as u8
    }
}

/// True for the bytes `0`-`9` and `a`-`f`.
pub open spec fn is_lhex(b: u8) -> bool {
    (48 <= b <= 57) || (97 <= b <= 102)
}

/// The value of a lowercase hex digit byte.
pub open spec fn lhex_val(b: u8) -> int
    recommends
        is_lhex(b),
{
    if b <= 57 {
        b - 48
    } else {
        b - 87
    }
}

/// The escape image of one byte: quote and backslash get a backslash escape,
/// control bytes a `\u00xx` escape, everything else stands for itself.
pub open spec fn esc_byte(b: u8) -> Seq<u8> {
    if b == 34 {
        seq![92u8, 34u8]
    } else if b == 92 {
        seq![92u8, 92u8]
    } else if b < 32 {
        seq![92u8, 117u8, 48u8, 48u8, hex_lc(b as int / 16), hex_lc(b as int % 16)]
    } else {
        seq![b]
    }
}

/// The escape image of a byte sequence.
pub open spec fn escape_bytes(s: Seq<u8>) -> Seq<u8>
    decreases s.len(),
{
    if s.len() == 0 {
        seq![]
    } else {
        esc_byte(s[0]) + escape_bytes(s.drop_first())
    }
}

/// Reads an escaped string up to and including its closing quote, giving the
/// unescaped bytes and the number of bytes consumed. `None` on a missing
/// quote, a raw control byte, or an escape outside the canonical image.
pub open spec fn scan_jstr(s: Seq<u8>) -> Option<(Seq<u8>, int)>
    decreases s.len(),
{
    if s.len() == 0 {
        None
    } else if s[0] == 34 {
        Some((seq![], 1))
    } else if s[0] == 92 {
        if s.len() >= 2 && s[1] == 34 {
            match scan_jstr(s.skip(2)) {
                Some(p) => Some((seq![34u8] + p.0, 2 + p.1)),
                None => None,
            }
        } else if s.len() >= 2 && s[1] == 92 {
            match scan_jstr(s.skip(2)) {
                Some(p) => Some((seq![92u8] + p.0, 2 + p.1)),
                None => None,
            }
        } else if s.len() >= 6 && s[1] == 117 && s[2] == 48 && s[3] == 48 && is_lhex(s[4])
            && is_lhex(s[5]) && lhex_val(s[4]) * 16 + lhex_val(s[5]) < 32 {
            match scan_jstr(s.skip(6)) {
                Some(p) => Some((seq![(lhex_val(s[4]) * 16 + lhex_val(s[5])) as u8] + p.0, 6 + p.1)),
                None => None,
            }
        } else {
            None
        }
    } else if s[0] < 32 {
        None
    } else {
        match scan_jstr(s.skip(1)) {
            Some(p) => Some((seq![s[0]] + p.0, 1 + p.1)),
            None => None,
        }
    }
}

/// Escaping distributes over concatenation.
pub proof fn lemma_escape_concat(a: Seq<u8>, b: Seq<u8>)
    ensures
        escape_bytes(a + b) == escape_bytes(a) + escape_bytes(b),
    decreases a.len(),
{
    if a.len() == 0 {
        assert(a + b =~= b);
        assert(escape_bytes(a) =~= Seq::<u8>::empty());
        assert(escape_bytes(a) + escape_bytes(b) =~= escape_bytes(b));
    } else {
        lemma_escape_concat(a.drop_first(), b);
        assert((a + b).drop_first() =~= a.drop_first() + b);
        assert((a + b)[0] == a[0]);
        assert(escape_bytes(a) + escape_bytes(b) =~= esc_byte(a[0]) + (escape_bytes(a.drop_first())
            + escape_bytes(b)));
    }
}

/// Scanning an escaped string followed by a quote recovers the original
/// bytes and consumes exactly through that quote, whatever follows.
pub proof fn lemma_scan_of_escaped(u: Seq<u8>, tail: Seq<u8>)
    ensures
        scan_jstr(escape_bytes(u) + seq![34u8] + tail) == Some(
            (u, escape_bytes(u).len() + 1 as int),
        ),
    decreases u.len(),
{
    let s = escape_bytes(u) + seq![34u8] + tail;
    if u.len() == 0 {
        assert(escape_bytes(u) =~= Seq::<u8>::empty());
        assert(s[0] == 34);
        assert(scan_jstr(s) == Some((Seq::<u8>::empty(), 1 as int)));
        assert(u =~= Seq::<u8>::empty());
    } else {
        let b = u[0];
        let rest = u.drop_first();
        lemma_scan_of_escaped(rest, tail);
        let srest = escape_bytes(rest) + seq![34u8] + tail;
        assert(escape_bytes(u) == esc_byte(b) + escape_bytes(rest));
        if b == 34 {
            assert(s[0] == 92 && s[1] == 34);
            assert(s.skip(2) =~= srest);
            assert(scan_jstr(s).unwrap().0 =~= u);
        } else if b == 92 {
            assert(s[0] == 92 && s[1] == 92);
            assert(s.skip(2) =~= srest);
            assert(scan_jstr(s).unwrap().0 =~= u);
        } else if b < 32 {
            assert(s[0] == 92 && s[1] == 117 && s[2] == 48 && s[3] == 48);
            assert(s[4] == hex_lc(b as int / 16) && s[5] == hex_lc(b as int % 16));
            assert(is_lhex(s[4]) && is_lhex(s[5]));
            assert(lhex_val(s[4]) == b as int / 16 && lhex_val(s[5]) == b as int % 16);
            assert(lhex_val(s[4]) * 16 + lhex_val(s[5]) == b as int);
            assert(s.skip(6) =~= srest);
            assert(scan_jstr(s).unwrap().0 =~= u);
        } else {
            assert(s[0] == b);
            assert(!(b == 34) && !(b == 92) && !(b < 32));
            assert(s.skip(1) =~= srest);
            assert(scan_jstr(s).unwrap().0 =~= u);
        }
    }
}

/// Appends the escape image of `s` to `out`.
pub(crate) fn escape_push(out: &mut Vec<u8>, s: &[u8])
    ensures
        final(out)@ == old(out)@ + escape_bytes(s@),
{
    let n = s.len();
    let mut i: usize = 0;
    proof {
        assert(s@.subrange(0, 0) =~= Seq::<u8>::empty());
        assert(escape_bytes(s@.subrange(0, 0)) =~= Seq::<u8>::empty());
        assert(out@ =~= old(out)@ + escape_bytes(s@.subrange(0, 0)));
    }
    while i < n
        invariant
            i <= n,
            n == s@.len(),
            out@ == old(out)@ + escape_bytes(s@.subrange(0, i as int)),
        decreases n - i,
    {
        let ghost pre = out@;
        let b = s[i];
        if b == 34 {
            out.push(92);
            out.push(34);
        } else if b == 92 {
            out.push(92);
            out.push(92);
        } else if b < 32 {
            out.push(92);
            out.push(117);
            out.push(48);
            out.push(48);
            let hi = b / 16;
            let lo = b % 16;
            out.push(if hi < 10 { 48 + hi } else { 87 + hi });
            out.push(if lo < 10 { 48 + lo } else { 87 + lo });
        } else {
            out.push(b);
        }
        proof {
            assert(out@ =~= pre + esc_byte(b));
            assert(s@.subrange(0, i + 1) =~= s@.subrange(0, i as int) + seq![s@[i as int]]);
            lemma_escape_concat(s@.subrange(0, i as int), seq![s@[i as int]]);
            let single = seq![s@[i as int]];
            assert(single.drop_first() =~= Seq::<u8>::empty());
            assert(escape_bytes(Seq::<u8>::empty()) =~= Seq::<u8>::empty());
            assert(escape_bytes(single) == esc_byte(single[0]) + escape_bytes(single.drop_first()));
            assert(escape_bytes(single) =~= esc_byte(b));
            assert(out@ =~= old(out)@ + escape_bytes(s@.subrange(0, i + 1)));
        }
        i += 1;
    }
    proof {
        assert(s@.subrange(0, n as int) =~= s@);
    }
}

/// Reads an escaped string region starting at `from`, through its closing
/// quote; returns the unescaped bytes and the index just past the quote.
pub(crate) fn scan_jstr_from(s: &[u8], from: usize) -> (r: Option<(Vec<u8>, usize)>)
    requires
        from <= s@.len(),
    ensures
        match r {
            Some(p) => from < p.1 <= s@.len() && scan_jstr(s@.subrange(from as int, s@.len() as int))
                == Some((p.0@, p.1 - from as int)),
            None => scan_jstr(s@.subrange(from as int, s@.len() as int)) is None,
        },
{
    let n = s.len();
    let ghost whole = s@.subrange(from as int, s@.len() as int);
    let mut acc: Vec<u8> = Vec::new();
    let mut i: usize = from;
    while i < n
        invariant
            from <= i <= n,
            n == s@.len(),
            whole == s@.subrange(from as int, n as int),
            match scan_jstr(s@.subrange(i as int, n as int)) {
                Some(p) => scan_jstr(whole) == Some((acc@ + p.0, (i - from) + p.1)),
                None => scan_jstr(whole) is None,
            },
        decreases n - i,
    {
        let ghost t = s@.subrange(i as int, n as int);
        let b = s[i];
        proof {
            assert(t[0] == s@[i as int]);
        }
        if b == 34 {
            proof {
                assert(scan_jstr(t) == Some((Seq::<u8>::empty(), 1 as int)));
                assert(acc@ + Seq::<u8>::empty() =~= acc@);
            }
            return Some((acc, i + 1));
        } else if b == 92 {
            if n - i >= 2 && (s[i + 1] == 34 || s[i + 1] == 92) {
                let c = s[i + 1];
                proof {
                    assert(t.len() >= 2 && t[1] == c);
                    assert(t.skip(2) =~= s@.subrange(i + 2, n as int));
                    if scan_jstr(t.skip(2)) is Some {
                        let p = scan_jstr(t.skip(2)).unwrap();
                        assert(scan_jstr(t) == Some((seq![c] + p.0, 2 + p.1)));
                        assert(acc@ + (seq![c] + p.0) =~= acc@.push(c) + p.0);
                    }
                }
                acc.push(c);
                i += 2;
            } else if n - i >= 6 && s[i + 1] == 117 && s[i + 2] == 48 && s[i + 3] == 48 {
                let h1 = s[i + 4];
                let h2 = s[i + 5];
                let v1: u8 = if 48 <= h1 && h1 <= 57 {
                    h1 - 48
                } else if 97 <= h1 && h1 <= 102 {
                    h1 - 87
                } else {
                    16
                };
                let v2: u8 = if 48 <= h2 && h2 <= 57 {
                    h2 - 48
                } else if 97 <= h2 && h2 <= 102 {
                    h2 - 87
                } else {
                    16
                };
                proof {
                    assert(t.len() >= 6 && t[1] == 117 && t[2] == 48 && t[3] == 48 && t[4] == h1
                        && t[5] == h2);
                }
                if v1 < 16 && v2 < 16 && v1 * 16 + v2 < 32 {
                    let c = v1 * 16 + v2;
                    proof {
                        assert(is_lhex(h1) && lhex_val(h1) == v1 as int);
                        assert(is_lhex(h2) && lhex_val(h2) == v2 as int);
                        assert(t.skip(6) =~= s@.subrange(i + 6, n as int));
                        if scan_jstr(t.skip(6)) is Some {
                            let p = scan_jstr(t.skip(6)).unwrap();
                            assert(scan_jstr(t) == Some((seq![c] + p.0, 6 + p.1)));
                            assert(acc@ + (seq![c] + p.0) =~= acc@.push(c) + p.0);
                        }
                    }
                    acc.push(c);
                    i += 6;
                } else {
                    proof {
                        if is_lhex(h1) && is_lhex(h2) {
                            assert(v1 as int == lhex_val(h1) && v2 as int == lhex_val(h2));
                        }
                        assert(scan_jstr(t) is None);
                    }
                    return None;
                }
            } else {
                proof {
                    if t.len() >= 2 {
                        assert(t[1] == s@[i + 1]);
                    }
                    assert(scan_jstr(t) is None);
                }
                return None;
            }
        } else if b < 32 {
            proof {
                assert(scan_jstr(t) is None);
            }
            return None;
        } else {
            proof {
                assert(t.skip(1) =~= s@.subrange(i + 1, n as int));
                if scan_jstr(t.skip(1)) is Some {
                    let p = scan_jstr(t.skip(1)).unwrap();
                    assert(scan_jstr(t) == Some((seq![b] + p.0, 1 + p.1)));
                    assert(acc@ + (seq![b] + p.0) =~= acc@.push(b) + p.0);
                }
            }
            acc.push(b);
            i += 1;
        }
    }
    proof {
        assert(s@.subrange(i as int, n as int).len() == 0);
        assert(scan_jstr(s@.subrange(i as int, n as int)) is None);
    }
    None
}

} // verus!
