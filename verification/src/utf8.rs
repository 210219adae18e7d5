//! The UTF-8-triplet form of the codec: the same logical symbol stream,
//! with every symbol carried as its fixed three-byte UTF-8 sequence.

use vstd::prelude::*;

use crate::error::Base16384DecodeError;
use crate::model::{
    decode_defined_utf8, decode_groups, decode_len_valid, decode_tail, detected_padding_utf8,
    group_at, group_ok, is_padding_sym, lemma_sym_range, payload_at, scale_err, spec_decode_len,
    spec_decode_utf8, spec_encode, spec_encode_len, spec_encode_utf8, spec_padding_utf8, sym_at,
    sym_of_triplet, syms_of_triplets, tail_group, tail_syms, triplet_byte, triplet_stream,
    unpack_group, zero_pad7,
};
use crate::Base16384;
use crate::PADDING_OFFSET;
use vstd::slice::slice_subrange;

verus! {

/// The high eight bits of `START`, shifted out of the low six: the bias the
/// UTF-8 packer adds to the high part of each payload.
const START_HI: u16 = 0x138;

/// The UTF-8-triplet form of the codec.
pub struct Base16384Utf8;

impl Base16384Utf8 {
    /// The minimum number of bytes needed to encode `data_len` bytes:
    /// three per symbol.
    pub fn encode_len(data_len: usize) -> (r: usize)
        requires
            3 * spec_encode_len(data_len as int) <= usize::MAX,
        ensures
            r == 3 * spec_encode_len(data_len as int),
    {
        Base16384::encode_len(data_len) * 3
    }

    /// Packs one full 7-byte group into the twelve bytes of its four
    /// symbols' UTF-8 triplets.
    fn encode_chunk(chunk: &[u8]) -> (t: Vec<u8>)
        requires
            chunk@.len() == 7,
        ensures
            t@ == Seq::new(12, |j: int| triplet_byte(sym_at(chunk@, j / 3), j % 3)),
    {
        let c0 = chunk[0];
        let c1 = chunk[1];
        let c2 = chunk[2];
        let c3 = chunk[3];
        let c4 = chunk[4];
        let c5 = chunk[5];
        let c6 = chunk[6];
        let h0 = c0 as u16 + START_HI;
        let t0 = 0xE0 | (h0 >> 6) as u8;
        let t1 = 0x80 | (h0 & 0x3F) as u8;
        let t2 = 0x80 | (c1 >> 2);
        let h1 = (((c1 & 0x03) << 6) | (c2 >> 2)) as u16 + START_HI;
        let t3 = 0xE0 | (h1 >> 6) as u8;
        let t4 = 0x80 | (h1 & 0x3F) as u8;
        let t5 = 0x80 | (((c2 & 0x03) << 4) | (c3 >> 4));
        let h2 = (((c3 & 0x0F) << 4) | (c4 >> 4)) as u16 + START_HI;
        let t6 = 0xE0 | (h2 >> 6) as u8;
        let t7 = 0x80 | (h2 & 0x3F) as u8;
        let t8 = 0x80 | (((c4 & 0x0F) << 2) | (c5 >> 6));
        let h3 = (((c5 & 0x3F) << 2) | (c6 >> 6)) as u16 + START_HI;
        let t9 = 0xE0 | (h3 >> 6) as u8;
        let t10 = 0x80 | (h3 & 0x3F) as u8;
        let t11 = 0x80 | (c6 & 0x3F);
        proof {
            let v = crate::model::group_val(chunk@);
            lemma_sym_range(chunk@, 0);
            lemma_sym_range(chunk@, 1);
            lemma_sym_range(chunk@, 2);
            lemma_sym_range(chunk@, 3);
            assert(t0 == (0xE0 | (((0x4E00 + ((v >> 42) & 0x3FFF)) as u16) >> 12)) as u8 && t1 == (
            0x80 | ((((0x4E00 + ((v >> 42) & 0x3FFF)) as u16) >> 6) & 0x3F)) as u8 && t2 == (0x80
                | (((0x4E00 + ((v >> 42) & 0x3FFF)) as u16) & 0x3F)) as u8) by (bit_vector)
                requires
                    v == ((c0 as u64) << 48) | ((c1 as u64) << 40) | ((c2 as u64) << 32) | ((c3
                        as u64) << 24) | ((c4 as u64) << 16) | ((c5 as u64) << 8) | (c6 as u64),
                    t0 == 0xE0 | (((c0 as u16 + 0x138) as u16) >> 6) as u8,
                    t1 == 0x80 | (((c0 as u16 + 0x138) as u16) & 0x3F) as u8,
                    t2 == 0x80 | (c1 >> 2),
            ;
            assert(t3 == (0xE0 | (((0x4E00 + ((v >> 28) & 0x3FFF)) as u16) >> 12)) as u8 && t4 == (
            0x80 | ((((0x4E00 + ((v >> 28) & 0x3FFF)) as u16) >> 6) & 0x3F)) as u8 && t5 == (0x80
                | (((0x4E00 + ((v >> 28) & 0x3FFF)) as u16) & 0x3F)) as u8) by (bit_vector)
                requires
                    v == ((c0 as u64) << 48) | ((c1 as u64) << 40) | ((c2 as u64) << 32) | ((c3
                        as u64) << 24) | ((c4 as u64) << 16) | ((c5 as u64) << 8) | (c6 as u64),
                    t3 == 0xE0 | ((((((c1 & 0x03) << 6) | (c2 >> 2)) as u16 + 0x138) as u16) >> 6)
                        as u8,
                    t4 == 0x80 | ((((((c1 & 0x03) << 6) | (c2 >> 2)) as u16 + 0x138) as u16)
                        & 0x3F) as u8,
                    t5 == 0x80 | (((c2 & 0x03) << 4) | (c3 >> 4)),
            ;
            assert(t6 == (0xE0 | (((0x4E00 + ((v >> 14) & 0x3FFF)) as u16) >> 12)) as u8 && t7 == (
            0x80 | ((((0x4E00 + ((v >> 14) & 0x3FFF)) as u16) >> 6) & 0x3F)) as u8 && t8 == (0x80
                | (((0x4E00 + ((v >> 14) & 0x3FFF)) as u16) & 0x3F)) as u8) by (bit_vector)
                requires
                    v == ((c0 as u64) << 48) | ((c1 as u64) << 40) | ((c2 as u64) << 32) | ((c3
                        as u64) << 24) | ((c4 as u64) << 16) | ((c5 as u64) << 8) | (c6 as u64),
                    t6 == 0xE0 | ((((((c3 & 0x0F) << 4) | (c4 >> 4)) as u16 + 0x138) as u16) >> 6)
                        as u8,
                    t7 == 0x80 | ((((((c3 & 0x0F) << 4) | (c4 >> 4)) as u16 + 0x138) as u16)
                        & 0x3F) as u8,
                    t8 == 0x80 | (((c4 & 0x0F) << 2) | (c5 >> 6)),
            ;
            assert(t9 == (0xE0 | (((0x4E00 + ((v >> 0) & 0x3FFF)) as u16) >> 12)) as u8 && t10 == (
            0x80 | ((((0x4E00 + ((v >> 0) & 0x3FFF)) as u16) >> 6) & 0x3F)) as u8 && t11 == (0x80
                | (((0x4E00 + ((v >> 0) & 0x3FFF)) as u16) & 0x3F)) as u8) by (bit_vector)
                requires
                    v == ((c0 as u64) << 48) | ((c1 as u64) << 40) | ((c2 as u64) << 32) | ((c3
                        as u64) << 24) | ((c4 as u64) << 16) | ((c5 as u64) << 8) | (c6 as u64),
                    t9 == 0xE0 | ((((((c5 & 0x3F) << 2) | (c6 >> 6)) as u16 + 0x138) as u16) >> 6)
                        as u8,
                    t10 == 0x80 | ((((((c5 & 0x3F) << 2) | (c6 >> 6)) as u16 + 0x138) as u16)
                        & 0x3F) as u8,
                    t11 == 0x80 | (c6 & 0x3F),
            ;
            assert(payload_at(chunk@, 0) == (v >> 42) & 0x3FFF);
            assert(payload_at(chunk@, 1) == (v >> 28) & 0x3FFF);
            assert(payload_at(chunk@, 2) == (v >> 14) & 0x3FFF);
            assert(payload_at(chunk@, 3) == (v >> 0) & 0x3FFF);
        }
        let mut out: Vec<u8> = Vec::new();
        out.push(t0);
        out.push(t1);
        out.push(t2);
        out.push(t3);
        out.push(t4);
        out.push(t5);
        out.push(t6);
        out.push(t7);
        out.push(t8);
        out.push(t9);
        out.push(t10);
        out.push(t11);
        proof {
            assert(out@ =~= Seq::new(12, |j: int| triplet_byte(sym_at(chunk@, j / 3), j % 3)));
        }
        out
    }

    /// Packs 1..=6 remainder bytes as the symbol form does, emitting three
    /// bytes per kept symbol.
    fn encode_remainder(remainder: &[u8]) -> (s: Vec<u8>)
        requires
            1 <= remainder@.len() < 7,
        ensures
            s@ == Seq::new(
                ((remainder@.len() / 2 + 1) * 3) as nat,
                |j: int| triplet_byte(sym_at(zero_pad7(remainder@), j / 3), j % 3),
            ),
    {
        let mut chunk: Vec<u8> = Vec::new();
        let mut i: usize = 0;
        while i < remainder.len()
            invariant
                i <= remainder@.len(),
                chunk@ == remainder@.take(i as int),
            decreases remainder@.len() - i,
        {
            chunk.push(remainder[i]);
            proof {
                assert(chunk@ =~= remainder@.take(i + 1));
            }
            i += 1;
        }
        assert(chunk@ == remainder@);
        while chunk.len() < 7
            invariant
                remainder@.len() <= chunk@.len() <= 7,
                chunk@.take(remainder@.len() as int) == remainder@,
                forall|j: int| remainder@.len() <= j < chunk@.len() ==> chunk@[j] == 0u8,
            decreases 7 - chunk@.len(),
        {
            chunk.push(0);
            proof {
                assert(chunk@.take(remainder@.len() as int) =~= remainder@);
            }
        }
        proof {
            assert(chunk@ =~= zero_pad7(remainder@));
        }
        let t = Self::encode_chunk(chunk.as_slice());
        let keep3 = (remainder.len() / 2 + 1) * 3;
        let mut out: Vec<u8> = Vec::new();
        let mut k: usize = 0;
        while k < keep3
            invariant
                k <= keep3 <= 12,
                t@ == Seq::new(12, |j: int| triplet_byte(sym_at(zero_pad7(remainder@), j / 3), j % 3)),
                out@ == t@.take(k as int),
            decreases keep3 - k,
        {
            out.push(t[k]);
            proof {
                assert(out@ =~= t@.take(k + 1));
            }
            k += 1;
        }
        proof {
            assert(out@ =~= Seq::new(
                ((remainder@.len() / 2 + 1) * 3) as nat,
                |j: int| triplet_byte(sym_at(zero_pad7(remainder@), j / 3), j % 3),
            ));
        }
        out
    }

    /// Encodes the given data into a new vector of UTF-8 bytes.
    #[verifier::loop_isolation(false)]
    pub fn encode(data: &[u8]) -> (r: Vec<u8>)
        ensures
            r@ == spec_encode_utf8(data@),
    {
        let mut result: Vec<u8> = Vec::new();
        let chunks = data.len() / 7;
        let mut c: usize = 0;
        let mut i: usize = 0;
        while c < chunks
            invariant
                c <= chunks,
                i == 7 * c,
                result@.len() == 12 * c,
                forall|j: int|
                    0 <= j < 12 * c ==> result@[j] == triplet_byte(
                        crate::model::encode_sym_at(data@, j / 3),
                        j % 3,
                    ),
            decreases chunks - c,
        {
            proof {
                assert(7 * (c + 1) <= 7 * chunks);
                assert(7 * (data@.len() / 7) <= data@.len());
            }
            let chunk = slice_subrange(data, i, i + 7);
            let mut tv = Self::encode_chunk(chunk);
            let ghost prev = result@;
            result.append(&mut tv);
            proof {
                assert(group_at(data@, c as int) =~= chunk@);
                assert forall|j: int| 0 <= j < 12 * (c + 1) implies result@[j] == triplet_byte(
                    crate::model::encode_sym_at(data@, j / 3),
                    j % 3,
                ) by {
                    if 12 * c <= j {
                        let d = j - 12 * c;
                        assert(j == 3 * (4 * c + d / 3) + d % 3);
                        assert(j / 3 == 4 * c + d / 3 && j % 3 == d % 3);
                        assert(result@[j] == triplet_byte(sym_at(chunk@, d / 3), d % 3));
                        assert(j / 3 < (data@.len() / 7) * 4) by {
                            assert(d / 3 < 4);
                            assert(4 * (c + 1) <= 4 * chunks);
                        }
                        assert((j / 3) / 4 == c && (j / 3) % 4 == d / 3);
                    }
                }
            }
            c += 1;
            i += 7;
        }
        let rem = data.len() - i;
        if rem != 0 {
            let tail = slice_subrange(data, i, data.len());
            let mut ts = Self::encode_remainder(tail);
            let ghost kept = ts@.len();
            result.append(&mut ts);
            let m0: u8 = 0xE3;
            let m1: u8 = 0xB4;
            let m2: u8 = 0x80 | rem as u8;
            result.push(m0);
            result.push(m1);
            result.push(m2);
            proof {
                assert(tail_group(data@) =~= zero_pad7(tail@));
                let rm = rem as u16;
                assert((0xE0 | (((0x3D00 + rm) as u16) >> 12)) as u8 == 0xE3 && (0x80 | ((((0x3D00
                    + rm) as u16) >> 6) & 0x3F)) as u8 == 0xB4 && (0x80 | (((0x3D00 + rm) as u16)
                    & 0x3F)) as u8 == (0x80 | (rm as u8)) as u8) by (bit_vector)
                    requires
                        rm < 7,
                ;
                assert(m2 == 0x80 | (rm as u8));
            }
        }
        proof {
            let e = spec_encode(data@);
            assert forall|j: int| 0 <= j < 3 * e.len() implies result@[j] == triplet_byte(
                e[j / 3],
                j % 3,
            ) by {
                let full = (data@.len() / 7) * 4;
                let r = data@.len() % 7;
                assert(e[j / 3] == crate::model::encode_sym_at(data@, j / 3));
                if j < 12 * chunks {
                } else if r != 0 {
                    let base = 12 * chunks;
                    let d = j - base;
                    assert(j == 3 * (4 * chunks + d / 3) + d % 3);
                    assert(j / 3 == 4 * chunks + d / 3 && j % 3 == d % 3);
                    if d < 3 * (r / 2 + 1) {
                        assert(result@[j] == triplet_byte(
                            sym_at(tail_group(data@), d / 3),
                            d % 3,
                        ));
                    } else {
                        assert(d / 3 == r / 2 + 1);
                        assert(j / 3 == full + r / 2 + 1);
                    }
                }
            }
            assert(result@ =~= triplet_stream(e));
        }
        result
    }

    /// Encodes the given data into the caller's buffer and returns the
    /// written prefix. The buffer must hold at least `encode_len` bytes.
    #[verifier::loop_isolation(false)]
    pub fn encode_to_slice<'a>(data: &[u8], buf: &'a mut [u8]) -> (r: &'a [u8])
        requires
            old(buf)@.len() >= 3 * spec_encode_len(data@.len() as int),
        ensures
            final(buf)@.len() == old(buf)@.len(),
            r@ == spec_encode_utf8(data@),
            r@ == final(buf)@.take(3 * spec_encode_len(data@.len() as int)),
            final(buf)@.skip(3 * spec_encode_len(data@.len() as int)) == old(buf)@.skip(
                3 * spec_encode_len(data@.len() as int),
            ),
    {
        let bytes = Self::encode(data);
        let total = bytes.len();
        let mut k: usize = 0;
        while k < total
            invariant
                k <= total,
                buf@.len() == old(buf)@.len(),
                forall|j: int| 0 <= j < k ==> buf@[j] == bytes@[j],
                forall|j: int| k <= j < buf@.len() ==> buf@[j] == old(buf)@[j],
            decreases total - k,
        {
            buf[k] = bytes[k];
            k += 1;
        }
        proof {
            assert(buf@.take(total as int) =~= bytes@);
            assert(buf@.skip(total as int) =~= old(buf)@.skip(total as int));
        }
        slice_subrange(buf, 0, total)
    }

    /// Decodes the given UTF-8 byte stream into the caller's buffer and
    /// returns the written prefix. The buffer must hold at least
    /// `decode_len` bytes.
    #[verifier::loop_isolation(false)]
    pub fn decode_to_slice<'a>(data: &[u8], buf: &'a mut [u8]) -> (res: Result<
        &'a [u8],
        Base16384DecodeError,
    >)
        requires
            decode_defined_utf8(data@),
            data@.len() > 0 && data@.len() % 3 == 0 ==> old(buf)@.len() >= spec_decode_len(
                (data@.len() / 3) as int,
                detected_padding_utf8(data@),
            ),
        ensures
            final(buf)@.len() == old(buf)@.len(),
            match res {
                Ok(out) => spec_decode_utf8(data@) == Ok::<Seq<u8>, Base16384DecodeError>(out@)
                    && out@ == final(buf)@.take(out@.len() as int) && final(buf)@.skip(
                    out@.len() as int,
                ) == old(buf)@.skip(out@.len() as int),
                Err(e) => spec_decode_utf8(data@) == Err::<Seq<u8>, Base16384DecodeError>(e)
                    && final(buf)@ == old(buf)@,
            },
    {
        proof {
            crate::model::lemma_decode_utf8_ok_len(data@);
        }
        match Self::decode(data) {
            Err(e) => Err(e),
            Ok(bytes) => {
                let total = bytes.len();
                let mut k: usize = 0;
                while k < total
                    invariant
                        k <= total,
                        buf@.len() == old(buf)@.len(),
                        forall|j: int| 0 <= j < k ==> buf@[j] == bytes@[j],
                        forall|j: int| k <= j < buf@.len() ==> buf@[j] == old(buf)@[j],
                    decreases total - k,
                {
                    buf[k] = bytes[k];
                    k += 1;
                }
                proof {
                    assert(buf@.take(total as int) =~= bytes@);
                    assert(buf@.skip(total as int) =~= old(buf)@.skip(total as int));
                }
                Ok(slice_subrange(buf, 0, total))
            },
        }
    }

    /// The number of bytes a UTF-8 stream of `data_len` bytes decodes to,
    /// given the padding marker found at its end (if any).
    pub fn decode_len(data_len: usize, padding: Option<u16>) -> (r: usize)
        requires
            data_len % 3 == 0,
            decode_len_valid((data_len / 3) as int, padding),
        ensures
            r == spec_decode_len((data_len / 3) as int, padding),
    {
        Base16384::decode_len(data_len / 3, padding)
    }

    /// The padding marker carried by a trailing triplet, if it is a framed
    /// three-byte sequence holding one.
    pub fn padding(last: [u8; 3]) -> (r: Option<u16>)
        ensures
            r == spec_padding_utf8(last@),
    {
        let b0 = last[0];
        let b1 = last[1];
        let b2 = last[2];
        if b0 & 0xF0 != 0xE0 || b1 & 0xC0 != 0x80 || b2 & 0xC0 != 0x80 {
            return None;
        }
        let v = (((b0 & 0x0F) as u16) << 12) | (((b1 & 0x3F) as u16) << 6) | ((b2 & 0x3F) as u16);
        Base16384::padding(v)
    }

    /// The 16-bit value whose payload bits a triplet carries.
    fn triplet_value(t: &[u8]) -> (v: u16)
        requires
            t@.len() == 3,
        ensures
            v == sym_of_triplet(t@),
    {
        (((t[0] & 0x0F) as u16) << 12) | (((t[1] & 0x3F) as u16) << 6) | ((t[2] & 0x3F) as u16)
    }

    /// Unpacks one group of four triplets into its seven bytes, or reports
    /// the first invalid triplet by its byte offset in the group.
    fn decode_chunk(chunk: &[u8]) -> (r: Result<Vec<u8>, Base16384DecodeError>)
        requires
            chunk@.len() == 12,
        ensures
            match r {
                Ok(b) => group_ok(syms_of_triplets(chunk@)) && b@ == unpack_group(
                    syms_of_triplets(chunk@),
                ),
                Err(e) => !group_ok(syms_of_triplets(chunk@)) && e == scale_err(
                    Base16384DecodeError::InvalidCharacter {
                        index: crate::model::first_bad(syms_of_triplets(chunk@)) as usize,
                    },
                ),
            },
    {
        let mut syms: Vec<u16> = Vec::new();
        syms.push(Self::triplet_value(slice_subrange(chunk, 0, 3)));
        syms.push(Self::triplet_value(slice_subrange(chunk, 3, 6)));
        syms.push(Self::triplet_value(slice_subrange(chunk, 6, 9)));
        syms.push(Self::triplet_value(slice_subrange(chunk, 9, 12)));
        proof {
            assert forall|i: int| 0 <= i < 4 implies syms@[i] == syms_of_triplets(chunk@)[i] by {
                assert(chunk@.subrange(3 * i, 3 * i + 3) =~= chunk@.subrange(3 * i, 3 * i + 3));
            }
            assert(syms@ =~= syms_of_triplets(chunk@));
        }
        match Base16384::decode_chunk(syms.as_slice()) {
            Ok(b) => Ok(b),
            Err(e) => match e {
                Base16384DecodeError::InvalidCharacter { index } => Err(
                    Base16384DecodeError::InvalidCharacter { index: index * 3 },
                ),
                Base16384DecodeError::InvalidLength => {
                    proof {
                        assert(false);
                    }
                    Err(Base16384DecodeError::InvalidLength)
                },
            },
        }
    }

    /// Unpacks the trailing triplets: extracts their symbols and keeps the
    /// `r` remainder bytes the padding marker promises.
    fn decode_remainder(remainder: &[u8], r: usize) -> (res: Result<Vec<u8>, Base16384DecodeError>)
        requires
            remainder@.len() % 3 == 0,
            remainder@.len() <= 12,
            r <= 6,
        ensures
            match res {
                Ok(b) => decode_tail(syms_of_triplets(remainder@), r as int) == Ok::<
                    Seq<u8>,
                    Base16384DecodeError,
                >(b@),
                Err(e) => decode_tail(syms_of_triplets(remainder@), r as int) matches Err(es) && e
                    == scale_err(es),
            },
    {
        let n = remainder.len() / 3;
        let mut syms: Vec<u16> = Vec::new();
        let mut k: usize = 0;
        while k < n
            invariant
                k <= n,
                n == remainder@.len() / 3,
                remainder@.len() % 3 == 0,
                remainder@.len() <= 12,
                syms@.len() == k,
                forall|i: int| 0 <= i < k ==> syms@[i] == syms_of_triplets(remainder@)[i],
            decreases n - k,
        {
            proof {
                assert(3 * (k + 1) <= 3 * n);
                assert(3 * (remainder@.len() / 3) == remainder@.len());
            }
            syms.push(Self::triplet_value(slice_subrange(remainder, 3 * k, 3 * k + 3)));
            k += 1;
        }
        proof {
            assert(3 * (remainder@.len() / 3) == remainder@.len());
            assert(syms@ =~= syms_of_triplets(remainder@));
        }
        match Base16384::decode_remainder(syms.as_slice(), r) {
            Ok(b) => Ok(b),
            Err(e) => match e {
                Base16384DecodeError::InvalidCharacter { index } => Err(
                    Base16384DecodeError::InvalidCharacter { index: index * 3 },
                ),
                Base16384DecodeError::InvalidLength => {
                    proof {
                        assert(false);
                    }
                    Err(Base16384DecodeError::InvalidLength)
                },
            },
        }
    }

    /// Decodes the whole groups at the front of a stream: the first
    /// `body_len` bytes, a whole number of twelve-byte groups.
    #[verifier::loop_isolation(false)]
    fn decode_body(data: &[u8], body_len: usize) -> (r: Result<Vec<u8>, Base16384DecodeError>)
        requires
            body_len <= data@.len(),
            body_len % 12 == 0,
        ensures
            ({
                let bsyms = syms_of_triplets(data@.take(body_len as int));
                match r {
                    Ok(v) => decode_groups(bsyms) == Ok::<Seq<u8>, Base16384DecodeError>(v@),
                    Err(e) => decode_groups(bsyms) matches Err(es) && e == scale_err(es),
                }
            }),
    {
        let ghost body = data@.take(body_len as int);
        let ghost bsyms = syms_of_triplets(body);
        let chunks = body_len / 12;
        let mut result: Vec<u8> = Vec::new();
        let mut c: usize = 0;
        let mut i: usize = 0;
        proof {
            assert((body_len as int / 12) * 12 == body_len as int);
            assert(bsyms.skip(0) =~= bsyms);
            assert(decode_groups(bsyms) == match decode_groups(bsyms.skip(0)) {
                Ok(rest) => Ok::<Seq<u8>, Base16384DecodeError>(result@ + rest),
                Err(e) => Err::<Seq<u8>, Base16384DecodeError>(e),
            }) by {
                match decode_groups(bsyms) {
                    Ok(rest) => {
                        assert(result@ + rest =~= rest);
                    },
                    Err(_) => {},
                }
            }
        }
        while c < chunks
            invariant
                c <= chunks,
                i == 12 * c,
                decode_groups(bsyms) == match decode_groups(bsyms.skip(4 * c as int)) {
                    Ok(rest) => Ok::<Seq<u8>, Base16384DecodeError>(result@ + rest),
                    Err(e) => Err::<Seq<u8>, Base16384DecodeError>(e),
                },
            decreases chunks - c,
        {
            proof {
                assert(12 * (c + 1) <= 12 * chunks);
            }
            let chunk = slice_subrange(data, i, i + 12);
            let ghost rest = bsyms.skip(4 * c as int);
            proof {
                assert(chunk@ =~= body.subrange(12 * c as int, 12 * (c + 1) as int));
                assert forall|i2: int| 0 <= i2 < 4 implies syms_of_triplets(chunk@)[i2] == bsyms[4
                    * c + i2] by {
                    assert(chunk@.subrange(3 * i2, 3 * i2 + 3) =~= body.subrange(
                        3 * (4 * c + i2),
                        3 * (4 * c + i2) + 3,
                    ));
                }
                assert(rest.take(4) =~= syms_of_triplets(chunk@));
                assert(rest.skip(4) =~= bsyms.skip(4 * (c + 1) as int));
            }
            match Self::decode_chunk(chunk) {
                Err(e) => {
                    proof {
                        assert(decode_groups(rest) matches Err(es) && e == scale_err(es));
                    }
                    return Err(e);
                },
                Ok(mut bytes) => {
                    let ghost prev = result@;
                    result.append(&mut bytes);
                    proof {
                        match decode_groups(bsyms.skip(4 * (c + 1) as int)) {
                            Ok(tail_rest) => {
                                assert(prev + (unpack_group(syms_of_triplets(chunk@)) + tail_rest)
                                    =~= result@ + tail_rest);
                            },
                            Err(_) => {},
                        }
                    }
                },
            }
            c += 1;
            i += 12;
        }
        proof {
            assert(bsyms.len() == body_len as int / 3);
            assert(bsyms.skip(4 * c as int) =~= Seq::<u16>::empty()) by {
                crate::model::lemma_div12(body_len as int);
            }
            assert(decode_groups(bsyms) == Ok::<Seq<u8>, Base16384DecodeError>(result@)) by {
                match decode_groups(bsyms) {
                    Ok(rest) => {
                        assert(result@ + Seq::<u8>::empty() =~= result@);
                    },
                    Err(_) => {},
                }
            }
        }
        Ok(result)
    }

    /// Decodes the given UTF-8 byte stream into a new byte vector.
    ///
    /// A stream whose trailing padding marker promises more bytes than
    /// the stream holds is outside the contract: callers discover the
    /// marker with `padding` and its cost with `decode_len` beforehand.
    #[verifier::rlimit(60)]
    #[verifier::loop_isolation(false)]
    pub fn decode(data: &[u8]) -> (r: Result<Vec<u8>, Base16384DecodeError>)
        requires
            decode_defined_utf8(data@),
        ensures
            match r {
                Ok(v) => spec_decode_utf8(data@) == Ok::<Seq<u8>, Base16384DecodeError>(v@),
                Err(e) => spec_decode_utf8(data@) == Err::<Seq<u8>, Base16384DecodeError>(e),
            },
    {
        if data.len() == 0 {
            let empty: Vec<u8> = Vec::new();
            proof {
                assert(empty@ =~= Seq::<u8>::empty());
            }
            return Ok(empty);
        }
        if data.len() % 3 != 0 {
            return Err(Base16384DecodeError::InvalidLength);
        }
        let lastarr: [u8; 3] = [data[data.len() - 3], data[data.len() - 2], data[data.len() - 1]];
        proof {
            assert(lastarr@ =~= data@.subrange(data@.len() - 3, data@.len() as int));
        }
        let padding = Self::padding(lastarr);
        let (body_len, r_val) = match padding {
            Some(p) => {
                let off = (p - PADDING_OFFSET) as usize;
                let lcs = if off == 0 {
                    1usize
                } else {
                    off / 2 + 2
                };
                (data.len() - 3 * lcs, off)
            },
            None => (data.len(), 0usize),
        };
        let ghost body = data@.take(body_len as int);
        proof {
            match padding {
                Some(p) => {
                    assert(is_padding_sym(p));
                    assert(r_val == p - PADDING_OFFSET);
                    assert(body_len == data@.len() - 3 * tail_syms(r_val as int));
                    assert(body_len % 3 == 0);
                },
                None => {
                    assert(body =~= data@);
                },
            }
        }
        if body_len % 4 != 0 {
            return Err(Base16384DecodeError::InvalidLength);
        }
        proof {
            crate::model::lemma_div12(body_len as int);
        }
        let mut result: Vec<u8> = match Self::decode_body(data, body_len) {
            Err(e) => {
                return Err(e);
            },
            Ok(v) => v,
        };
        match padding {
            None => Ok(result),
            Some(_) => {
                let remainder = slice_subrange(data, body_len, data.len() - 3);
                proof {
                    assert(remainder@ == data@.subrange(
                        data@.len() - 3 * tail_syms(r_val as int),
                        data@.len() - 3,
                    ));
                }
                match Self::decode_remainder(remainder, r_val) {
                    Err(e) => Err(e),
                    Ok(mut tb) => {
                        result.append(&mut tb);
                        Ok(result)
                    },
                }
            },
        }
    }
}

} // verus!
