use vstd::prelude::*;

verus! {

/// Failure of the variable-length ("compact") unsigned integer decoder.
#[derive(Debug, PartialEq, Eq, Structural)]
pub enum CompactError {
    /// The buffer ends before the encoding is complete.
    Truncated,
    /// The encoding is not the minimal form for its value.
    NonCanonical,
    /// The first byte announces an integer wider than 32 bits.
    OutOfRange,
}

/// The compact encoding of `n`: a self-describing, minimal-width form.
/// The low two bits of the first byte give the width; the remaining bits,
/// little-endian, give the value.
pub open spec fn spec_compact(n: nat) -> Seq<u8>
    recommends
        n < 0x1_0000_0000,
{
    if n < 64 {
        seq![(n * 4) as u8]
    } else if n < 16384 {
        seq![((n * 4 + 1) % 256) as u8, ((n * 4 + 1) / 256) as u8]
    } else if n < 0x4000_0000 {
        seq![
            ((n * 4 + 2) % 256) as u8,
            (((n * 4 + 2) / 256) % 256) as u8,
            (((n * 4 + 2) / 65536) % 256) as u8,
            (((n * 4 + 2) / 16777216) % 256) as u8,
        ]
    } else {
        seq![
            3u8,
            (n % 256) as u8,
            ((n / 256) % 256) as u8,
            ((n / 65536) % 256) as u8,
            ((n / 16777216) % 256) as u8,
        ]
    }
}

/// Decodes a compact integer starting at `pos`: the value and the position
/// one past its last byte, or `None` when the bytes there are no minimal
/// compact encoding of a 32-bit value.
pub open spec fn spec_decode_compact(s: Seq<u8>, pos: int) -> Option<(nat, int)> {
    if pos < 0 || pos >= s.len() {
        None
    } else {
        let b0 = s[pos] as nat;
        if b0 % 4 == 0 {
            Some((b0 / 4, pos + 1))
        } else if b0 % 4 == 1 {
            if pos + 2 > s.len() {
                None
            } else {
                let v = b0 / 4 + (s[pos + 1] as nat) * 64;
                if v < 64 {
                    None
                } else {
                    Some((v, pos + 2))
                }
            }
        } else if b0 % 4 == 2 {
            if pos + 4 > s.len() {
                None
            } else {
                let v = b0 / 4 + (s[pos + 1] as nat) * 64 + (s[pos + 2] as nat) * 16384 + (s[
                    pos + 3
                ] as nat) * 4194304;
                if v < 16384 {
                    None
                } else {
                    Some((v, pos + 4))
                }
            }
        } else {
            if b0 != 3 {
                None
            } else if s.len() - pos < 5 {
                None
            } else {
                let v = (s[pos + 1] as nat) + (s[pos + 2] as nat) * 256 + (s[pos + 3] as nat)
                    * 65536 + (s[pos + 4] as nat) * 16777216;
                if v < 0x4000_0000 {
                    None
                } else {
                    Some((v, pos + 5))
                }
            }
        }
    }
}

/// The failure kind the decoder reports where no minimal compact encoding
/// of a 32-bit value starts at `pos`.
pub open spec fn spec_compact_err(s: Seq<u8>, pos: int) -> CompactError
    recommends
        spec_decode_compact(s, pos) is None,
{
    if pos < 0 || pos >= s.len() {
        CompactError::Truncated
    } else {
        let b0 = s[pos] as nat;
        if b0 % 4 == 1 {
            if pos + 2 > s.len() {
                CompactError::Truncated
            } else {
                CompactError::NonCanonical
            }
        } else if b0 % 4 == 2 {
            if pos + 4 > s.len() {
                CompactError::Truncated
            } else {
                CompactError::NonCanonical
            }
        } else {
            if b0 != 3 {
                CompactError::OutOfRange
            } else if pos + 5 > s.len() {
                CompactError::Truncated
            } else {
                CompactError::NonCanonical
            }
        }
    }
}

/// Decoding inverts encoding: wherever the compact form of `n` sits in a
/// buffer, the decoder reads back `n` and stops right after it.
pub proof fn lemma_compact_round_trip(s: Seq<u8>, pos: int, n: nat)
    requires
        n < 0x1_0000_0000,
        0 <= pos,
        pos + spec_compact(n).len() <= s.len(),
        s.subrange(pos, pos + spec_compact(n).len() as int) == spec_compact(n),
    ensures
        spec_decode_compact(s, pos) == Some((n, pos + spec_compact(n).len() as int)),
{
    if n < 64 {
        assert(s[pos] == (n * 4) as u8) by {
            assert(s.subrange(pos, pos + 1)[0] == spec_compact(n)[0]);
        }
        assert((n * 4) % 4 == 0 && (n * 4) / 4 == n) by (nonlinear_arith);
    } else if n < 16384 {
        let m = n * 4 + 1;
        assert(s[pos] == (m % 256) as u8 && s[pos + 1] == (m / 256) as u8) by {
            assert(s.subrange(pos, pos + 2)[0] == spec_compact(n)[0]);
            assert(s.subrange(pos, pos + 2)[1] == spec_compact(n)[1]);
        }
        let b0 = (m % 256) as nat;
        let b1 = (m / 256) as nat;
        assert(b0 % 4 == 1 && b0 / 4 + b1 * 64 == n) by (nonlinear_arith)
            requires
                m == n * 4 + 1,
                64 <= n < 16384,
                b0 == m % 256,
                b1 == m / 256,
        ;
    } else if n < 0x4000_0000 {
        let m = n * 4 + 2;
        assert(s[pos] == (m % 256) as u8 && s[pos + 1] == ((m / 256) % 256) as u8 && s[pos + 2]
            == ((m / 65536) % 256) as u8 && s[pos + 3] == ((m / 16777216) % 256) as u8) by {
            assert(s.subrange(pos, pos + 4)[0] == spec_compact(n)[0]);
            assert(s.subrange(pos, pos + 4)[1] == spec_compact(n)[1]);
            assert(s.subrange(pos, pos + 4)[2] == spec_compact(n)[2]);
            assert(s.subrange(pos, pos + 4)[3] == spec_compact(n)[3]);
        }
        let b0 = (m % 256) as nat;
        let b1 = ((m / 256) % 256) as nat;
        let b2 = ((m / 65536) % 256) as nat;
        let b3 = ((m / 16777216) % 256) as nat;
        assert(b0 % 4 == 2 && b0 / 4 + b1 * 64 + b2 * 16384 + b3 * 4194304 == n)
            by (nonlinear_arith)
            requires
                m == n * 4 + 2,
                16384 <= n < 0x4000_0000,
                b0 == m % 256,
                b1 == (m / 256) % 256,
                b2 == (m / 65536) % 256,
                b3 == (m / 16777216) % 256,
        ;
    } else {
        assert(s[pos] == 3u8 && s[pos + 1] == (n % 256) as u8 && s[pos + 2] == ((n / 256)
            % 256) as u8 && s[pos + 3] == ((n / 65536) % 256) as u8 && s[pos + 4] == ((n
            / 16777216) % 256) as u8) by {
            assert(s.subrange(pos, pos + 5)[0] == spec_compact(n)[0]);
            assert(s.subrange(pos, pos + 5)[1] == spec_compact(n)[1]);
            assert(s.subrange(pos, pos + 5)[2] == spec_compact(n)[2]);
            assert(s.subrange(pos, pos + 5)[3] == spec_compact(n)[3]);
            assert(s.subrange(pos, pos + 5)[4] == spec_compact(n)[4]);
        }
        let b1 = (n % 256) as nat;
        let b2 = ((n / 256) % 256) as nat;
        let b3 = ((n / 65536) % 256) as nat;
        let b4 = ((n / 16777216) % 256) as nat;
        assert(b1 + b2 * 256 + b3 * 65536 + b4 * 16777216 == n) by (nonlinear_arith)
            requires
                0x4000_0000 <= n < 0x1_0000_0000,
                b1 == n % 256,
                b2 == (n / 256) % 256,
                b3 == (n / 65536) % 256,
                b4 == (n / 16777216) % 256,
        ;
    }
}

/// Appends the compact encoding of `n` to `out`.
pub fn compact_encode_to(out: &mut Vec<u8>, n: u32)
    ensures
        final(out)@ == old(out)@ + spec_compact(n as nat),
{
    if n < 64 {
        out.push((n * 4) as u8);
    } else if n < 16384 {
        let m: u32 = n * 4 + 1;
        out.push((m % 256) as u8);
        out.push((m / 256) as u8);
        assert(out@ == old(out)@ + spec_compact(n as nat));
    } else if n < 0x4000_0000 {
        let m: u32 = n * 4 + 2;
        out.push((m % 256) as u8);
        out.push(((m / 256) % 256) as u8);
        out.push(((m / 65536) % 256) as u8);
        out.push(((m / 16777216) % 256) as u8);
        assert(out@ == old(out)@ + spec_compact(n as nat));
    } else {
        out.push(3u8);
        out.push((n % 256) as u8);
        out.push(((n / 256) % 256) as u8);
        out.push(((n / 65536) % 256) as u8);
        out.push(((n / 16777216) % 256) as u8);
        assert(out@ == old(out)@ + spec_compact(n as nat));
    }
}

/// Reads a compact integer from `s` at `pos`, returning the value and the
/// position after it; fails exactly where the spec decoder gives nothing.
pub fn compact_decode(s: &Vec<u8>, pos: usize) -> (r: Result<(u32, usize), CompactError>)
    ensures
        match r {
            Ok(p) => spec_decode_compact(s@, pos as int) == Some(((p.0 as nat), (p.1 as int))),
            Err(e) => spec_decode_compact(s@, pos as int) is None && e == spec_compact_err(
                s@,
                pos as int,
            ),
        },
{
    if pos >= s.len() {
        return Err(CompactError::Truncated);
    }
    let b0: u32 = s[pos] as u32;
    let tag: u32 = b0 % 4;
    if tag == 0 {
        Ok((b0 / 4, pos + 1))
    } else if tag == 1 {
        if s.len() - pos < 2 {
            Err(CompactError::Truncated)
        } else {
            let v: u32 = b0 / 4 + (s[pos + 1] as u32) * 64;
            if v < 64 {
                Err(CompactError::NonCanonical)
            } else {
                Ok((v, pos + 2))
            }
        }
    } else if tag == 2 {
        if s.len() - pos < 4 {
            Err(CompactError::Truncated)
        } else {
            let v: u32 = b0 / 4 + (s[pos + 1] as u32) * 64 + (s[pos + 2] as u32) * 16384 + (s[pos
                + 3] as u32) * 4194304;
            if v < 16384 {
                Err(CompactError::NonCanonical)
            } else {
                Ok((v, pos + 4))
            }
        }
    } else {
        if b0 != 3 {
            Err(CompactError::OutOfRange)
        } else if s.len() - pos < 5 {
            Err(CompactError::Truncated)
        } else {
            let v0: u32 = s[pos + 1] as u32;
            let v1: u32 = (s[pos + 2] as u32) * 256;
            let v2: u32 = (s[pos + 3] as u32) * 65536;
            let v3: u32 = (s[pos + 4] as u32) * 16777216;
            if s[pos + 4] >= 64 {
                let v: u32 = v0 + v1 + v2 + v3;
                assert(v as nat == (s@[pos as int + 1] as nat) + (s@[pos as int + 2] as nat) * 256
                    + (s@[pos as int + 3] as nat) * 65536 + (s@[pos as int + 4] as nat)
                    * 16777216);
                Ok((v, pos + 5))
            } else {
                Err(CompactError::NonCanonical)
            }
        }
    }
}

} // verus!
