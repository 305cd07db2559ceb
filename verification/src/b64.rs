//! Base64url (no padding) over byte sequences: the segment encoding of the
//! token wire format. Encoding is canonical; decoding accepts exactly the
//! canonical images, so the two are mutually inverse.

use vstd::prelude::*;

verus! {

/// True for the 64 bytes of the base64url alphabet.
pub open spec fn is_b64_byte(b: u8) -> bool {
    (65 <= b <= 90)  // A-Z
    || (97 <= b <= 122)  // a-z
    || (48 <= b <= 57)  // 0-9
    || b == 45  // -
    || b == 95  // _

}

/// The alphabet byte for a 6-bit value.
pub open spec fn b64_byte_of(v: int) -> u8
    recommends
        0 <= v < 64,
{
    if v < 26 {
        (65 + v) as u8
    } else if v < 52 {
        (97 + (v - 26)) as u8
    } else if v < 62 {
        (48 + (v - 52)) as u8
    } else if v == 62 {
        45u8
    } else {
        95u8
    }
}

/// The 6-bit value of an alphabet byte.
pub open spec fn b64_val(b: u8) -> int
    recommends
        is_b64_byte(b),
{
    if 65 <= b <= 90 {
        b - 65
    } else if 97 <= b <= 122 {
        26 + (b - 97)
    } else if 48 <= b <= 57 {
        52 + (b - 48)
    } else if b == 45 {
        62
    } else {
        63
    }
}

pub proof fn lemma_b64_byte_val(v: int)
    requires
        0 <= v < 64,
    ensures
        is_b64_byte(b64_byte_of(v)),
        b64_val(b64_byte_of(v)) == v,
{
}

/// The four alphabet bytes encoding a full group of three bytes.
pub open spec fn b64_group3(b0: int, b1: int, b2: int) -> Seq<u8>
    recommends
        0 <= b0 < 256,
        0 <= b1 < 256,
        0 <= b2 < 256,
{
    seq![
        b64_byte_of(b0 / 4),
        b64_byte_of((b0 % 4) * 16 + b1 / 16),
        b64_byte_of((b1 % 16) * 4 + b2 / 64),
        b64_byte_of(b2 % 64),
    ]
}

/// Base64url encoding without padding, grouping from the front.
pub open spec fn b64_encode_bytes(s: Seq<u8>) -> Seq<u8>
    decreases s.len(),
{
    if s.len() == 0 {
        seq![]
    } else if s.len() == 1 {
        let b0 = s[0] as int;
        seq![b64_byte_of(b0 / 4), b64_byte_of((b0 % 4) * 16)]
    } else if s.len() == 2 {
        let b0 = s[0] as int;
        let b1 = s[1] as int;
        seq![
            b64_byte_of(b0 / 4),
            b64_byte_of((b0 % 4) * 16 + b1 / 16),
            b64_byte_of((b1 % 16) * 4),
        ]
    } else {
        b64_group3(s[0] as int, s[1] as int, s[2] as int) + b64_encode_bytes(s.skip(3))
    }
}

/// Base64url decoding; `None` on anything but a canonical encoding.
pub open spec fn b64_decode_bytes(s: Seq<u8>) -> Option<Seq<u8>>
    decreases s.len(),
{
    if s.len() == 0 {
        Some(seq![])
    } else if s.len() == 1 {
        None
    } else if s.len() == 2 {
        if is_b64_byte(s[0]) && is_b64_byte(s[1]) && b64_val(s[1]) % 16 == 0 {
            Some(seq![(b64_val(s[0]) * 4 + b64_val(s[1]) / 16) as u8])
        } else {
            None
        }
    } else if s.len() == 3 {
        if is_b64_byte(s[0]) && is_b64_byte(s[1]) && is_b64_byte(s[2]) && b64_val(s[2]) % 4 == 0 {
            Some(
                seq![
                    (b64_val(s[0]) * 4 + b64_val(s[1]) / 16) as u8,
                    ((b64_val(s[1]) % 16) * 16 + b64_val(s[2]) / 4) as u8,
                ],
            )
        } else {
            None
        }
    } else {
        if is_b64_byte(s[0]) && is_b64_byte(s[1]) && is_b64_byte(s[2]) && is_b64_byte(s[3]) {
            match b64_decode_bytes(s.skip(4)) {
                Some(rest) => Some(
                    seq![
                        (b64_val(s[0]) * 4 + b64_val(s[1]) / 16) as u8,
                        ((b64_val(s[1]) % 16) * 16 + b64_val(s[2]) / 4) as u8,
                        ((b64_val(s[2]) % 4) * 64 + b64_val(s[3])) as u8,
                    ] + rest,
                ),
                None => None,
            }
        } else {
            None
        }
    }
}

/// Every byte of an encoding is in the alphabet; in particular it is ASCII
/// and is not the segment separator `.` (byte 46).
pub proof fn lemma_b64_encode_alphabet(s: Seq<u8>)
    ensures
        forall|i: int|
            0 <= i < b64_encode_bytes(s).len() ==> is_b64_byte(#[trigger] b64_encode_bytes(s)[i]),
    decreases s.len(),
{
    let e = b64_encode_bytes(s);
    if s.len() == 0 {
    } else if s.len() == 1 {
        let b0 = s[0] as int;
        lemma_b64_byte_val(b0 / 4);
        lemma_b64_byte_val((b0 % 4) * 16);
        assert forall|i: int| 0 <= i < e.len() implies is_b64_byte(#[trigger] e[i]) by {
            assert(i == 0 || i == 1);
        }
    } else if s.len() == 2 {
        let b0 = s[0] as int;
        let b1 = s[1] as int;
        lemma_b64_byte_val(b0 / 4);
        lemma_b64_byte_val((b0 % 4) * 16 + b1 / 16);
        lemma_b64_byte_val((b1 % 16) * 4);
        assert forall|i: int| 0 <= i < e.len() implies is_b64_byte(#[trigger] e[i]) by {
            assert(i == 0 || i == 1 || i == 2);
        }
    } else {
        let b0 = s[0] as int;
        let b1 = s[1] as int;
        let b2 = s[2] as int;
        lemma_b64_byte_val(b0 / 4);
        lemma_b64_byte_val((b0 % 4) * 16 + b1 / 16);
        lemma_b64_byte_val((b1 % 16) * 4 + b2 / 64);
        lemma_b64_byte_val(b2 % 64);
        lemma_b64_encode_alphabet(s.skip(3));
        let rest = b64_encode_bytes(s.skip(3));
        assert forall|i: int| 0 <= i < e.len() implies is_b64_byte(#[trigger] e[i]) by {
            if i < 4 {
                assert(i == 0 || i == 1 || i == 2 || i == 3);
                assert(e[i] == b64_group3(b0, b1, b2)[i]);
            } else {
                assert(e[i] == rest[i - 4]);
            }
        }
    }
}

/// Decoding an encoding gives back the original bytes.
pub proof fn lemma_b64_round_trip(s: Seq<u8>)
    ensures
        b64_decode_bytes(b64_encode_bytes(s)) == Some(s),
    decreases s.len(),
{
    let e = b64_encode_bytes(s);
    if s.len() == 0 {
        assert(b64_decode_bytes(e) == Some(Seq::<u8>::empty()));
        assert(s =~= Seq::<u8>::empty());
    } else if s.len() == 1 {
        let b0 = s[0] as int;
        lemma_b64_byte_val(b0 / 4);
        lemma_b64_byte_val((b0 % 4) * 16);
        assert(b64_decode_bytes(e) == Some(seq![(b0 / 4 * 4 + ((b0 % 4) * 16) / 16) as u8]));
        assert(b64_decode_bytes(e).unwrap() =~= s);
    } else if s.len() == 2 {
        let b0 = s[0] as int;
        let b1 = s[1] as int;
        lemma_b64_byte_val(b0 / 4);
        lemma_b64_byte_val((b0 % 4) * 16 + b1 / 16);
        lemma_b64_byte_val((b1 % 16) * 4);
        assert(b64_decode_bytes(e).unwrap() =~= s);
    } else {
        let b0 = s[0] as int;
        let b1 = s[1] as int;
        let b2 = s[2] as int;
        lemma_b64_byte_val(b0 / 4);
        lemma_b64_byte_val((b0 % 4) * 16 + b1 / 16);
        lemma_b64_byte_val((b1 % 16) * 4 + b2 / 64);
        lemma_b64_byte_val(b2 % 64);
        lemma_b64_round_trip(s.skip(3));
        assert(e.len() >= 4);
        assert(e.skip(4) =~= b64_encode_bytes(s.skip(3)));
        assert(b64_decode_bytes(e.skip(4)) == Some(s.skip(3)));
        assert(b64_decode_bytes(e).unwrap() =~= s);
    }
}

/// The alphabet byte for a 6-bit value, executable form.
fn b64_byte(v: u8) -> (r: u8)
    requires
        v < 64,
    ensures
        r == b64_byte_of(v as int),
{
    if v < 26 {
        65 + v
    } else if v < 52 {
        97 + (v - 26)
    } else if v < 62 {
        48 + (v - 52)
    } else if v == 62 {
        45
    } else {
        95
    }
}

/// The 6-bit value of an alphabet byte, or `None` outside the alphabet.
fn b64_value(b: u8) -> (r: Option<u8>)
    ensures
        match r {
            Some(v) => is_b64_byte(b) && v == b64_val(b),
            None => !is_b64_byte(b),
        },
{
    if 65 <= b && b <= 90 {
        Some(b - 65)
    } else if 97 <= b && b <= 122 {
        Some(26 + (b - 97))
    } else if 48 <= b && b <= 57 {
        Some(52 + (b - 48))
    } else if b == 45 {
        Some(62)
    } else if b == 95 {
        Some(63)
    } else {
        None
    }
}

/// Appends the base64url encoding of `s` to `out`.
pub(crate) fn b64_encode_push(out: &mut Vec<u8>, s: &[u8])
    ensures
        final(out)@ == old(out)@ + b64_encode_bytes(s@),
{
    let n = s.len();
    let mut j: usize = 0;
    proof {
        assert(s@.skip(0) =~= s@);
        assert(out@.subrange(old(out)@.len() as int, out@.len() as int) =~= Seq::<u8>::empty());
        assert(Seq::<u8>::empty() + b64_encode_bytes(s@) =~= b64_encode_bytes(s@));
        assert(out@.subrange(0, old(out)@.len() as int) =~= old(out)@);
    }
    while n - j >= 3
        invariant
            j <= n,
            n == s@.len(),
            b64_encode_bytes(s@) == out@.subrange(old(out)@.len() as int, out@.len() as int)
                + b64_encode_bytes(s@.skip(j as int)),
            out@.subrange(0, old(out)@.len() as int) == old(out)@,
            out@.len() >= old(out)@.len(),
        decreases n - j,
    {
        let ghost pre = out@;
        let b0 = s[j];
        let b1 = s[j + 1];
        let b2 = s[j + 2];
        out.push(b64_byte(b0 / 4));
        out.push(b64_byte((b0 % 4) * 16 + b1 / 16));
        out.push(b64_byte((b1 % 16) * 4 + b2 / 64));
        out.push(b64_byte(b2 % 64));
        proof {
            let t = s@.skip(j as int);
            assert(t[0] == b0 && t[1] == b1 && t[2] == b2);
            assert(t.skip(3) =~= s@.skip(j + 3));
            assert(b64_encode_bytes(t) == b64_group3(b0 as int, b1 as int, b2 as int)
                + b64_encode_bytes(s@.skip(j + 3)));
            assert(out@.subrange(old(out)@.len() as int, out@.len() as int) =~= pre.subrange(
                old(out)@.len() as int,
                pre.len() as int,
            ) + b64_group3(b0 as int, b1 as int, b2 as int));
            assert(out@.subrange(0, old(out)@.len() as int) =~= pre.subrange(
                0,
                old(out)@.len() as int,
            ));
        }
        j += 3;
    }
    let ghost pre = out@;
    let ghost t = s@.skip(j as int);
    if n - j == 1 {
        let b0 = s[j];
        out.push(b64_byte(b0 / 4));
        out.push(b64_byte((b0 % 4) * 16));
        proof {
            assert(t.len() == 1 && t[0] == b0);
            assert(out@.subrange(old(out)@.len() as int, out@.len() as int) =~= pre.subrange(
                old(out)@.len() as int,
                pre.len() as int,
            ) + b64_encode_bytes(t));
        }
    } else if n - j == 2 {
        let b0 = s[j];
        let b1 = s[j + 1];
        out.push(b64_byte(b0 / 4));
        out.push(b64_byte((b0 % 4) * 16 + b1 / 16));
        out.push(b64_byte((b1 % 16) * 4));
        proof {
            assert(t.len() == 2 && t[0] == b0 && t[1] == b1);
            assert(out@.subrange(old(out)@.len() as int, out@.len() as int) =~= pre.subrange(
                old(out)@.len() as int,
                pre.len() as int,
            ) + b64_encode_bytes(t));
        }
    } else {
        proof {
            assert(t.len() == 0);
            assert(b64_encode_bytes(t) =~= Seq::<u8>::empty());
            assert(out@.subrange(old(out)@.len() as int, out@.len() as int) + b64_encode_bytes(t)
                =~= out@.subrange(old(out)@.len() as int, out@.len() as int));
        }
    }
    proof {
        assert(out@ =~= out@.subrange(0, old(out)@.len() as int) + out@.subrange(
            old(out)@.len() as int,
            out@.len() as int,
        ));
    }
}

/// Decodes a base64url region; `None` unless it is a canonical encoding.
pub(crate) fn b64_decode_region(s: &[u8], from: usize, to: usize) -> (r: Option<Vec<u8>>)
    requires
        from <= to <= s@.len(),
    ensures
        match r {
            Some(d) => b64_decode_bytes(s@.subrange(from as int, to as int)) == Some(d@),
            None => b64_decode_bytes(s@.subrange(from as int, to as int)) is None,
        },
{
    let ghost whole = s@.subrange(from as int, to as int);
    let total = s.len();
    proof {
        assert(s@.len() == total);
    }
    let mut out: Vec<u8> = Vec::new();
    let mut j: usize = from;
    proof {
        assert(s@.subrange(from as int, to as int) == whole);
        if b64_decode_bytes(whole) is Some {
            assert(Seq::<u8>::empty() + b64_decode_bytes(whole).unwrap() =~= b64_decode_bytes(
                whole,
            ).unwrap());
        }
    }
    while to - j >= 4
        invariant
            from <= j <= to <= s@.len(),
            s@.len() <= usize::MAX,
            whole == s@.subrange(from as int, to as int),
            match b64_decode_bytes(s@.subrange(j as int, to as int)) {
                Some(rest) => b64_decode_bytes(whole) == Some(out@ + rest),
                None => b64_decode_bytes(whole) is None,
            },
        decreases to - j,
    {
        let ghost t = s@.subrange(j as int, to as int);
        let v0 = b64_value(s[j]);
        let v1 = b64_value(s[j + 1]);
        let v2 = b64_value(s[j + 2]);
        let v3 = b64_value(s[j + 3]);
        proof {
            assert(t[0] == s@[j as int] && t[1] == s@[j + 1] && t[2] == s@[j + 2] && t[3] == s@[j
                + 3]);
        }
        match (v0, v1, v2, v3) {
            (Some(v0), Some(v1), Some(v2), Some(v3)) => {
                let ghost pre = out@;
                out.push(v0 * 4 + v1 / 16);
                out.push((v1 % 16) * 16 + v2 / 4);
                out.push((v2 % 4) * 64 + v3);
                proof {
                    assert(t.skip(4) =~= s@.subrange(j + 4, to as int));
                    if b64_decode_bytes(t.skip(4)) is Some {
                        let rest = b64_decode_bytes(t.skip(4)).unwrap();
                        assert(b64_decode_bytes(t).unwrap() =~= seq![
                            (b64_val(t[0]) * 4 + b64_val(t[1]) / 16) as u8,
                            ((b64_val(t[1]) % 16) * 16 + b64_val(t[2]) / 4) as u8,
                            ((b64_val(t[2]) % 4) * 64 + b64_val(t[3])) as u8,
                        ] + rest);
                        assert(pre + b64_decode_bytes(t).unwrap() =~= out@ + rest);
                    }
                }
                j += 4;
            },
            _ => {
                proof {
                    assert(b64_decode_bytes(t) is None);
                }
                return None;
            },
        }
    }
    let ghost t = s@.subrange(j as int, to as int);
    if to - j == 0 {
        proof {
            assert(b64_decode_bytes(t) == Some(Seq::<u8>::empty()));
            assert(out@ + Seq::<u8>::empty() =~= out@);
        }
        Some(out)
    } else if to - j == 2 {
        let v0 = b64_value(s[j]);
        let v1 = b64_value(s[j + 1]);
        proof {
            assert(t[0] == s@[j as int] && t[1] == s@[j + 1]);
        }
        match (v0, v1) {
            (Some(v0), Some(v1)) if v1 % 16 == 0 => {
                out.push(v0 * 4 + v1 / 16);
                proof {
                    assert(b64_decode_bytes(t) == Some(seq![(b64_val(t[0]) * 4 + b64_val(t[1]) / 16) as u8]));
                    assert(out@ =~= out@.subrange(0, out@.len() - 1) + b64_decode_bytes(t).unwrap());
                    assert(out@.subrange(0, out@.len() - 1) + b64_decode_bytes(t).unwrap() =~= out@);
                }
                Some(out)
            },
            _ => {
                proof {
                    assert(b64_decode_bytes(t) is None);
                }
                None
            },
        }
    } else if to - j == 3 {
        let v0 = b64_value(s[j]);
        let v1 = b64_value(s[j + 1]);
        let v2 = b64_value(s[j + 2]);
        proof {
            assert(t[0] == s@[j as int] && t[1] == s@[j + 1] && t[2] == s@[j + 2]);
        }
        match (v0, v1, v2) {
            (Some(v0), Some(v1), Some(v2)) if v2 % 4 == 0 => {
                let ghost pre = out@;
                out.push(v0 * 4 + v1 / 16);
                out.push((v1 % 16) * 16 + v2 / 4);
                proof {
                    assert(pre + b64_decode_bytes(t).unwrap() =~= out@);
                }
                Some(out)
            },
            _ => {
                proof {
                    assert(b64_decode_bytes(t) is None);
                }
                None
            },
        }
    } else {
        proof {
            assert(t.len() == 1);
            assert(b64_decode_bytes(t) is None);
        }
        None
    }
}

} // verus!
