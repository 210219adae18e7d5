//! A binary-to-text codec that packs 7 bytes into 4 wide text symbols of
//! 14 payload bits each, in a 16-bit-symbol form and a UTF-8-triplet form.

use vstd::prelude::*;

pub mod error;
pub mod laws;
pub mod model;
pub mod utf8;

use crate::model::{
    decode_defined, decode_groups, decode_len_valid, decode_tail, detected_padding, encode_sym_at,
    first_bad, group_at, group_ok, is_data_sym, is_padding_sym, lemma_sym_range, padded_tail,
    payload_at, spec_decode, spec_decode_len, spec_encode, spec_encode_len, spec_padding, sym_at,
    tail_group, tail_syms, unpack_group, zero_pad7,
};
use vstd::slice::slice_subrange;

pub use crate::error::Base16384DecodeError;
pub use crate::utf8::Base16384Utf8;
pub use crate::model::{PADDING_OFFSET, START};

verus! {

/// The 16-bit-symbol form of the codec.
pub struct Base16384;

impl Base16384 {
    /// The minimum number of 16-bit symbols needed to encode `data_len` bytes.
    pub fn encode_len(data_len: usize) -> (r: usize)
        ensures
            r == spec_encode_len(data_len as int),
    {
        let n = data_len / 7 * 4;
        let r = data_len % 7;
        proof {
            assert(n + 5 <= usize::MAX) by (nonlinear_arith)
                requires
                    n == (data_len / 7) * 4 && data_len <= usize::MAX,
            ;
        }
        if r == 0 {
            n
        } else {
            n + r / 2 + 2
        }
    }

    /// Packs one full 7-byte group into its four symbols.
    fn encode_chunk(chunk: &[u8]) -> (s: (u16, u16, u16, u16))
        requires
            chunk@.len() == 7,
        ensures
            s.0 == sym_at(chunk@, 0),
            s.1 == sym_at(chunk@, 1),
            s.2 == sym_at(chunk@, 2),
            s.3 == sym_at(chunk@, 3),
    {
        let c0 = chunk[0];
        let c1 = chunk[1];
        let c2 = chunk[2];
        let c3 = chunk[3];
        let c4 = chunk[4];
        let c5 = chunk[5];
        let c6 = chunk[6];
        proof {
            assert((((c0 as u16) << 6) | ((c1 as u16) >> 2)) < 0x4000) by (bit_vector);
            assert(((((c1 & 0x03) as u16) << 12) | ((c2 as u16) << 4) | ((c3 as u16) >> 4))
                < 0x4000) by (bit_vector);
            assert(((((c3 & 0x0F) as u16) << 10) | ((c4 as u16) << 2) | ((c5 as u16) >> 6))
                < 0x4000) by (bit_vector);
            assert(((((c5 & 0x3F) as u16) << 8) | (c6 as u16)) < 0x4000) by (bit_vector);
        }
        let s0 = START + (((c0 as u16) << 6) | ((c1 as u16) >> 2));
        let s1 = START + ((((c1 & 0x03) as u16) << 12) | ((c2 as u16) << 4) | ((c3 as u16) >> 4));
        let s2 = START + ((((c3 & 0x0F) as u16) << 10) | ((c4 as u16) << 2) | ((c5 as u16) >> 6));
        let s3 = START + ((((c5 & 0x3F) as u16) << 8) | (c6 as u16));
        proof {
            let v = crate::model::group_val(chunk@);
            lemma_sym_range(chunk@, 0);
            lemma_sym_range(chunk@, 1);
            lemma_sym_range(chunk@, 2);
            lemma_sym_range(chunk@, 3);
            assert(s0 == 0x4E00 + ((v >> 42) & 0x3FFF) && s1 == 0x4E00 + ((v >> 28) & 0x3FFF) && s2
                == 0x4E00 + ((v >> 14) & 0x3FFF) && s3 == 0x4E00 + ((v >> 0) & 0x3FFF))
                by (bit_vector)
                requires
                    v == ((c0 as u64) << 48) | ((c1 as u64) << 40) | ((c2 as u64) << 32) | ((c3
                        as u64) << 24) | ((c4 as u64) << 16) | ((c5 as u64) << 8) | (c6 as u64),
                    s0 == 0x4E00 + (((c0 as u16) << 6) | ((c1 as u16) >> 2)),
                    s1 == 0x4E00 + ((((c1 & 0x03) as u16) << 12) | ((c2 as u16) << 4) | ((c3
                        as u16) >> 4)),
                    s2 == 0x4E00 + ((((c3 & 0x0F) as u16) << 10) | ((c4 as u16) << 2) | ((c5
                        as u16) >> 6)),
                    s3 == 0x4E00 + ((((c5 & 0x3F) as u16) << 8) | (c6 as u16)),
            ;
            assert(payload_at(chunk@, 0) == (v >> 42) & 0x3FFF);
            assert(payload_at(chunk@, 1) == (v >> 28) & 0x3FFF);
            assert(payload_at(chunk@, 2) == (v >> 14) & 0x3FFF);
            assert(payload_at(chunk@, 3) == (v >> 0) & 0x3FFF);
        }
        (s0, s1, s2, s3)
    }

    /// Packs 1..=6 remainder bytes: zero-pads them to a full group and keeps
    /// only the symbols that carry their bits.
    fn encode_remainder(remainder: &[u8]) -> (s: Vec<u16>)
        requires
            1 <= remainder@.len() < 7,
        ensures
            s@ == Seq::new(
                (remainder@.len() / 2 + 1) as nat,
                |i: int| sym_at(zero_pad7(remainder@), i),
            ),
    {
        let mut chunk: Vec<u8> = Vec::new();
        let mut i: usize = 0;
        while i < remainder.len()
            invariant
                i <= remainder@.len(),
                chunk@ == remainder@.take(i as int),
            decreases remainder@.len() - i,
        {
            chunk.push(remainder[i]);
            proof {
                assert(chunk@ =~= remainder@.take(i + 1));
            }
            i += 1;
        }
        assert(chunk@ == remainder@);
        while chunk.len() < 7
            invariant
                remainder@.len() <= chunk@.len() <= 7,
                chunk@.take(remainder@.len() as int) == remainder@,
                forall|j: int| remainder@.len() <= j < chunk@.len() ==> chunk@[j] == 0u8,
            decreases 7 - chunk@.len(),
        {
            chunk.push(0);
            proof {
                assert(chunk@.take(remainder@.len() as int) =~= remainder@);
            }
        }
        proof {
            assert(chunk@ =~= zero_pad7(remainder@));
        }
        let (s0, s1, s2, s3) = Self::encode_chunk(chunk.as_slice());
        let keep = remainder.len() / 2 + 1;
        let mut out: Vec<u16> = Vec::new();
        out.push(s0);
        if keep >= 2 {
            out.push(s1);
        }
        if keep >= 3 {
            out.push(s2);
        }
        if keep >= 4 {
            out.push(s3);
        }
        proof {
            assert(out@ =~= Seq::new(
                (remainder@.len() / 2 + 1) as nat,
                |i: int| sym_at(zero_pad7(remainder@), i),
            ));
        }
        out
    }

    /// Encodes the given data into a new vector of 16-bit symbols.
    pub fn encode(data: &[u8]) -> (r: Vec<u16>)
        ensures
            r@ == spec_encode(data@),
    {
        let mut result: Vec<u16> = Vec::new();
        let chunks = data.len() / 7;
        let mut c: usize = 0;
        let mut i: usize = 0;
        while c < chunks
            invariant
                c <= chunks,
                i == 7 * c,
                chunks == data@.len() / 7,
                data@.len() <= usize::MAX,
                result@.len() == 4 * c,
                forall|j: int| 0 <= j < 4 * c ==> result@[j] == encode_sym_at(data@, j),
            decreases chunks - c,
        {
            proof {
                assert(7 * (c + 1) <= 7 * chunks);
                assert(7 * (data@.len() / 7) <= data@.len());
            }
            let chunk = slice_subrange(data, i, i + 7);
            let (s0, s1, s2, s3) = Self::encode_chunk(chunk);
            result.push(s0);
            result.push(s1);
            result.push(s2);
            result.push(s3);
            proof {
                assert(group_at(data@, c as int) =~= chunk@);
                assert forall|j: int| 0 <= j < 4 * (c + 1) implies result@[j] == encode_sym_at(
                    data@,
                    j,
                ) by {
                    if 4 * c <= j {
                        assert(j / 4 == c && j % 4 == j - 4 * c);
                        assert(j < (data@.len() / 7) * 4);
                    }
                }
            }
            c += 1;
            i += 7;
        }
        let rem = data.len() - i;
        if rem != 0 {
            let tail = slice_subrange(data, i, data.len());
            let mut ts = Self::encode_remainder(tail);
            let tlen = ts.len();
            result.append(&mut ts);
            result.push(PADDING_OFFSET + rem as u16);
            proof {
                assert(tail_group(data@) =~= zero_pad7(tail@));
            }
        }
        proof {
            assert(result@ =~= spec_encode(data@));
        }
        result
    }

    /// Encodes the given data into the caller's buffer and returns the
    /// written prefix. The buffer must hold at least `encode_len` symbols.
    #[verifier::loop_isolation(false)]
    pub fn encode_to_slice<'a>(data: &[u8], buf: &'a mut [u16]) -> (r: &'a [u16])
        requires
            old(buf)@.len() >= spec_encode_len(data@.len() as int),
        ensures
            final(buf)@.len() == old(buf)@.len(),
            r@ == spec_encode(data@),
            r@ == final(buf)@.take(spec_encode_len(data@.len() as int)),
            final(buf)@.skip(spec_encode_len(data@.len() as int)) == old(buf)@.skip(
                spec_encode_len(data@.len() as int),
            ),
    {
        let symbols = Self::encode(data);
        let total = symbols.len();
        let mut k: usize = 0;
        while k < total
            invariant
                k <= total,
                buf@.len() == old(buf)@.len(),
                forall|j: int| 0 <= j < k ==> buf@[j] == symbols@[j],
                forall|j: int| k <= j < buf@.len() ==> buf@[j] == old(buf)@[j],
            decreases total - k,
        {
            buf[k] = symbols[k];
            k += 1;
        }
        proof {
            assert(buf@.take(total as int) =~= symbols@);
            assert(buf@.skip(total as int) =~= old(buf)@.skip(total as int));
        }
        slice_subrange(buf, 0, total)
    }

    /// The padding marker carried by a trailing symbol, if it is one.
    pub fn padding(last: u16) -> (r: Option<u16>)
        ensures
            r == spec_padding(last),
    {
        if PADDING_OFFSET <= last && last < PADDING_OFFSET + 7 {
            Some(last)
        } else {
            None
        }
    }

    /// The number of bytes a symbol stream of length `data_len` decodes to,
    /// given the padding marker found at its end (if any).
    pub fn decode_len(data_len: usize, padding: Option<u16>) -> (r: usize)
        requires
            decode_len_valid(data_len as int, padding),
        ensures
            r == spec_decode_len(data_len as int, padding),
    {
        match padding {
            Some(p) => {
                let off = (p - PADDING_OFFSET) as usize;
                let consumed = if off == 0 {
                    1
                } else {
                    off / 2 + 2
                };
                (data_len - consumed) / 4 * 7 + off
            },
            None => data_len / 4 * 7,
        }
    }

    /// Whether a symbol is accepted as a data symbol.
    fn is_valid_char(c: u16) -> (b: bool)
        ensures
            b == is_data_sym(c),
    {
        START <= c && c < START + 0x3FFF
    }

    /// Unpacks one group of four symbols into its seven bytes, or reports
    /// the first symbol that is not a data symbol by its position in the
    /// group.
    pub(crate) fn decode_chunk(chunk: &[u16]) -> (r: Result<Vec<u8>, Base16384DecodeError>)
        requires
            chunk@.len() == 4,
        ensures
            match r {
                Ok(b) => group_ok(chunk@) && b@ == unpack_group(chunk@),
                Err(e) => !group_ok(chunk@) && e == (Base16384DecodeError::InvalidCharacter {
                    index: first_bad(chunk@) as usize,
                }),
            },
    {
        let x0 = chunk[0];
        let x1 = chunk[1];
        let x2 = chunk[2];
        let x3 = chunk[3];
        if !Self::is_valid_char(x0) {
            return Err(Base16384DecodeError::InvalidCharacter { index: 0 });
        }
        if !Self::is_valid_char(x1) {
            return Err(Base16384DecodeError::InvalidCharacter { index: 1 });
        }
        if !Self::is_valid_char(x2) {
            return Err(Base16384DecodeError::InvalidCharacter { index: 2 });
        }
        if !Self::is_valid_char(x3) {
            return Err(Base16384DecodeError::InvalidCharacter { index: 3 });
        }
        let p0 = x0 - START;
        let p1 = x1 - START;
        let p2 = x2 - START;
        let p3 = x3 - START;
        let b0 = (p0 >> 6) as u8;
        let b1 = (((p0 & 0x3F) << 2) | (p1 >> 12)) as u8;
        let b2 = (p1 >> 4) as u8;
        let b3 = (((p1 & 0x0F) << 4) | (p2 >> 10)) as u8;
        let b4 = (p2 >> 2) as u8;
        let b5 = (((p2 & 0x03) << 6) | (p3 >> 8)) as u8;
        let b6 = p3 as u8;
        proof {
            let w = crate::model::group_val_of_syms(chunk@);
            assert(crate::model::sym_payload(x0) == (p0 as u64) & 0x3FFF);
            assert(crate::model::sym_payload(x1) == (p1 as u64) & 0x3FFF);
            assert(crate::model::sym_payload(x2) == (p2 as u64) & 0x3FFF);
            assert(crate::model::sym_payload(x3) == (p3 as u64) & 0x3FFF);
            assert(((p0 as u64) & 0x3FFF) == p0 as u64 && ((p1 as u64) & 0x3FFF) == p1 as u64 && ((
            p2 as u64) & 0x3FFF) == p2 as u64 && ((p3 as u64) & 0x3FFF) == p3 as u64)
                by (bit_vector)
                requires
                    p0 < 0x4000 && p1 < 0x4000 && p2 < 0x4000 && p3 < 0x4000,
            ;
            assert(b0 == ((w >> 48) & 0xFF) as u8 && b1 == ((w >> 40) & 0xFF) as u8 && b2 == ((w
                >> 32) & 0xFF) as u8 && b3 == ((w >> 24) & 0xFF) as u8 && b4 == ((w >> 16) & 0xFF)
                as u8 && b5 == ((w >> 8) & 0xFF) as u8 && b6 == ((w >> 0) & 0xFF) as u8)
                by (bit_vector)
                requires
                    w == ((p0 as u64) << 42) | ((p1 as u64) << 28) | ((p2 as u64) << 14) | (p3
                        as u64),
                    p0 < 0x4000 && p1 < 0x4000 && p2 < 0x4000 && p3 < 0x4000,
                    b0 == (p0 >> 6) as u8,
                    b1 == (((p0 & 0x3F) << 2) | (p1 >> 12)) as u8,
                    b2 == (p1 >> 4) as u8,
                    b3 == (((p1 & 0x0F) << 4) | (p2 >> 10)) as u8,
                    b4 == (p2 >> 2) as u8,
                    b5 == (((p2 & 0x03) << 6) | (p3 >> 8)) as u8,
                    b6 == p3 as u8,
            ;
        }
        let mut out: Vec<u8> = Vec::new();
        out.push(b0);
        out.push(b1);
        out.push(b2);
        out.push(b3);
        out.push(b4);
        out.push(b5);
        out.push(b6);
        proof {
            assert(out@ =~= unpack_group(chunk@));
        }
        Ok(out)
    }

    /// Unpacks the trailing data symbols: pads them with `START` to a full
    /// group and keeps the `r` remainder bytes the padding marker promises.
    pub(crate) fn decode_remainder(remainder: &[u16], r: usize) -> (res: Result<Vec<u8>, Base16384DecodeError>)
        requires
            remainder@.len() <= 4,
            r <= 6,
        ensures
            match res {
                Ok(b) => decode_tail(remainder@, r as int) == Ok::<
                    Seq<u8>,
                    Base16384DecodeError,
                >(b@),
                Err(e) => decode_tail(remainder@, r as int) == Err::<
                    Seq<u8>,
                    Base16384DecodeError,
                >(e),
            },
    {
        let mut chunk: Vec<u16> = Vec::new();
        let mut i: usize = 0;
        while i < remainder.len()
            invariant
                i <= remainder@.len(),
                chunk@ == remainder@.take(i as int),
            decreases remainder@.len() - i,
        {
            chunk.push(remainder[i]);
            proof {
                assert(chunk@ =~= remainder@.take(i + 1));
            }
            i += 1;
        }
        assert(chunk@ == remainder@);
        while chunk.len() < 4
            invariant
                remainder@.len() <= chunk@.len() <= 4,
                chunk@.take(remainder@.len() as int) == remainder@,
                forall|j: int| remainder@.len() <= j < chunk@.len() ==> chunk@[j] == START,
            decreases 4 - chunk@.len(),
        {
            chunk.push(START);
            proof {
                assert(chunk@.take(remainder@.len() as int) =~= remainder@);
            }
        }
        proof {
            assert(chunk@ =~= padded_tail(remainder@));
        }
        match Self::decode_chunk(chunk.as_slice()) {
            Err(e) => Err(e),
            Ok(bytes) => {
                let mut out: Vec<u8> = Vec::new();
                let mut k: usize = 0;
                while k < r
                    invariant
                        k <= r <= 6,
                        bytes@.len() == 7,
                        out@ == bytes@.take(k as int),
                    decreases r - k,
                {
                    out.push(bytes[k]);
                    proof {
                        assert(out@ =~= bytes@.take(k + 1));
                    }
                    k += 1;
                }
                Ok(out)
            },
        }
    }

    /// Decodes the given symbol stream into a new byte vector.
    ///
    /// A stream whose trailing padding marker promises more symbols than
    /// the stream holds is outside the contract: callers discover the
    /// marker with `padding` and its cost with `decode_len` beforehand.
    #[verifier::rlimit(30)]
    #[verifier::loop_isolation(false)]
    pub fn decode(data: &[u16]) -> (r: Result<Vec<u8>, Base16384DecodeError>)
        requires
            decode_defined(data@),
        ensures
            match r {
                Ok(v) => spec_decode(data@) == Ok::<Seq<u8>, Base16384DecodeError>(v@),
                Err(e) => spec_decode(data@) == Err::<Seq<u8>, Base16384DecodeError>(e),
            },
    {
        let padding = if data.len() > 0 {
            Self::padding(data[data.len() - 1])
        } else {
            None
        };
        let (body_len, r_val) = match padding {
            Some(p) => {
                let off = (p - PADDING_OFFSET) as usize;
                let consumed = if off == 0 {
                    1usize
                } else {
                    off / 2 + 2
                };
                (data.len() - consumed, off)
            },
            None => (data.len(), 0usize),
        };
        let ghost body = data@.take(body_len as int);
        proof {
            match padding {
                Some(p) => {
                    assert(data@.len() > 0 && is_padding_sym(data@.last()));
                    assert(p == data@.last());
                    assert(r_val == data@.last() - PADDING_OFFSET);
                    assert(body_len == data@.len() - tail_syms(r_val as int));
                },
                None => {
                    assert(!(data@.len() > 0 && is_padding_sym(data@.last())));
                    assert(body =~= data@);
                },
            }
        }
        if body_len % 4 != 0 {
            return Err(Base16384DecodeError::InvalidLength);
        }
        let mut result: Vec<u8> = Vec::new();
        let chunks = body_len / 4;
        let mut c: usize = 0;
        let mut i: usize = 0;
        proof {
            assert(body.skip(0) =~= body);
            assert(decode_groups(body) == match decode_groups(body.skip(0)) {
                Ok(rest) => Ok::<Seq<u8>, Base16384DecodeError>(result@ + rest),
                Err(e) => Err::<Seq<u8>, Base16384DecodeError>(e),
            }) by {
                match decode_groups(body) {
                    Ok(rest) => {
                        assert(result@ + rest =~= rest);
                    },
                    Err(_) => {},
                }
            }
        }
        while c < chunks
            invariant
                c <= chunks,
                i == 4 * c,
                chunks == body_len / 4,
                body_len % 4 == 0,
                body_len <= data@.len() <= usize::MAX,
                body == data@.take(body_len as int),
                decode_groups(body) == match decode_groups(body.skip(4 * c as int)) {
                    Ok(rest) => Ok::<Seq<u8>, Base16384DecodeError>(result@ + rest),
                    Err(e) => Err::<Seq<u8>, Base16384DecodeError>(e),
                },
            decreases chunks - c,
        {
            proof {
                assert(4 * (c + 1) <= 4 * chunks);
                assert(4 * (body_len as int / 4) == body_len as int);
            }
            let chunk = slice_subrange(data, i, i + 4);
            let ghost rest = body.skip(4 * c as int);
            proof {
                assert(rest.take(4) =~= chunk@);
                assert(rest.skip(4) =~= body.skip(4 * (c + 1) as int));
            }
            match Self::decode_chunk(chunk) {
                Err(e) => {
                    proof {
                        assert(decode_groups(rest) == Err::<Seq<u8>, Base16384DecodeError>(e));
                    }
                    return Err(e);
                },
                Ok(mut bytes) => {
                    let ghost prev = result@;
                    result.append(&mut bytes);
                    proof {
                        match decode_groups(body.skip(4 * (c + 1) as int)) {
                            Ok(tail_rest) => {
                                assert(prev + (unpack_group(chunk@) + tail_rest) =~= result@
                                    + tail_rest);
                            },
                            Err(_) => {},
                        }
                    }
                },
            }
            c += 1;
            i += 4;
        }
        proof {
            assert(body.skip(4 * c as int) =~= Seq::<u16>::empty());
            assert(decode_groups(body) == Ok::<Seq<u8>, Base16384DecodeError>(result@)) by {
                match decode_groups(body) {
                    Ok(rest) => {
                        assert(result@ + Seq::<u8>::empty() =~= result@);
                    },
                    Err(_) => {},
                }
            }
        }
        match padding {
            None => {
                proof {
                    assert(body =~= data@);
                }
                Ok(result)
            },
            Some(_) => {
                let remainder = slice_subrange(data, body_len, data.len() - 1);
                match Self::decode_remainder(remainder, r_val) {
                    Err(e) => Err(e),
                    Ok(mut tb) => {
                        result.append(&mut tb);
                        Ok(result)
                    },
                }
            },
        }
    }

    /// Decodes the given symbol stream into the caller's buffer and returns
    /// the written prefix. The buffer must hold at least `decode_len` bytes.
    #[verifier::loop_isolation(false)]
    pub fn decode_to_slice<'a>(data: &[u16], buf: &'a mut [u8]) -> (res: Result<
        &'a [u8],
        Base16384DecodeError,
    >)
        requires
            decode_defined(data@),
            old(buf)@.len() >= spec_decode_len(data@.len() as int, detected_padding(data@)),
        ensures
            final(buf)@.len() == old(buf)@.len(),
            match res {
                Ok(out) => spec_decode(data@) == Ok::<Seq<u8>, Base16384DecodeError>(out@) && out@
                    == final(buf)@.take(out@.len() as int) && final(buf)@.skip(out@.len() as int)
                    == old(buf)@.skip(out@.len() as int),
                Err(e) => spec_decode(data@) == Err::<Seq<u8>, Base16384DecodeError>(e)
                    && final(buf)@ == old(buf)@,
            },
    {
        proof {
            crate::model::lemma_decode_ok_len(data@);
        }
        match Self::decode(data) {
            Err(e) => Err(e),
            Ok(bytes) => {
                let total = bytes.len();
                let mut k: usize = 0;
                while k < total
                    invariant
                        k <= total,
                        buf@.len() == old(buf)@.len(),
                        forall|j: int| 0 <= j < k ==> buf@[j] == bytes@[j],
                        forall|j: int| k <= j < buf@.len() ==> buf@[j] == old(buf)@[j],
                    decreases total - k,
                {
                    buf[k] = bytes[k];
                    k += 1;
                }
                proof {
                    assert(buf@.take(total as int) =~= bytes@);
                    assert(buf@.skip(total as int) =~= old(buf)@.skip(total as int));
                }
                Ok(slice_subrange(buf, 0, total))
            },
        }
    }
}

} // verus!
