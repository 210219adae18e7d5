//! The mathematical model of the codec.
//!
//! A group of 7 bytes (56 bits, most significant byte first) is carried by
//! 4 symbols of 14 payload bits each, each biased by `START`. A final
//! partial group of `r` bytes (1..=6) is zero-padded to a full group,
//! truncated to the `r / 2 + 1` symbols that carry its bits, and closed by
//! a padding marker `PADDING_OFFSET + r`.

use vstd::prelude::*;
use crate::error::Base16384DecodeError;

verus! {

/// The first data code point. Data symbols lie in `[START, START + 0x3FFF)`.
pub const START: u16 = 0x4E00;

/// The first padding code point. Markers lie in `[PADDING_OFFSET, PADDING_OFFSET + 7)`.
pub const PADDING_OFFSET: u16 = 0x3D00;

/// The 56-bit value of a 7-byte group, most significant byte first.
pub open spec fn group_val(g: Seq<u8>) -> u64
    recommends
        g.len() == 7,
{
    ((g[0] as u64) << 48) | ((g[1] as u64) << 40) | ((g[2] as u64) << 32) | ((g[3] as u64) << 24)
        | ((g[4] as u64) << 16) | ((g[5] as u64) << 8) | (g[6] as u64)
}

/// The i-th 14-bit payload of a 7-byte group: bits `[14i, 14i + 14)` of the
/// 56-bit value, counted from the most significant end.
pub open spec fn payload_at(g: Seq<u8>, i: int) -> u64
    recommends
        g.len() == 7,
        0 <= i < 4,
{
    (group_val(g) >> (42 - 14 * i)) & 0x3FFF
}

/// The i-th symbol emitted for a 7-byte group: its payload biased by `START`.
pub open spec fn sym_at(g: Seq<u8>, i: int) -> u16
    recommends
        g.len() == 7,
        0 <= i < 4,
{
    (START + payload_at(g, i)) as u16
}

/// Whether a symbol is accepted as a data symbol by the decoder.
/// Note the half-open range: the all-ones payload `0x3FFF` is rejected.
pub open spec fn is_data_sym(s: u16) -> bool {
    START <= s < START + 0x3FFF
}

/// Whether a symbol is a padding marker.
pub open spec fn is_padding_sym(s: u16) -> bool {
    PADDING_OFFSET <= s < PADDING_OFFSET + 7
}

/// The 14-bit payload carried by a data symbol.
pub open spec fn sym_payload(s: u16) -> u64
    recommends
        is_data_sym(s),
{
    ((s - START) as u64) & 0x3FFF
}

/// The 56-bit value reassembled from the four symbols of a group.
pub open spec fn group_val_of_syms(s: Seq<u16>) -> u64
    recommends
        s.len() == 4,
{
    (sym_payload(s[0]) << 42) | (sym_payload(s[1]) << 28) | (sym_payload(s[2]) << 14)
        | sym_payload(s[3])
}

/// The i-th byte of a 56-bit group value, most significant first.
pub open spec fn byte_at(v: u64, i: int) -> u8
    recommends
        0 <= i < 7,
{
    ((v >> (48 - 8 * i)) & 0xFF) as u8
}

/// The 7 bytes recovered from a group of 4 symbols.
pub open spec fn unpack_group(s: Seq<u16>) -> Seq<u8>
    recommends
        s.len() == 4,
{
    Seq::new(7, |i: int| byte_at(group_val_of_syms(s), i))
}

/// The number of symbols an encoded byte stream of length `n` occupies:
/// 4 per full group, plus `r / 2 + 1` data symbols and one marker for a
/// remainder of `r` bytes.
pub open spec fn spec_encode_len(n: int) -> int {
    let r = n % 7;
    (n / 7) * 4 + if r == 0 {
        0
    } else {
        r / 2 + 2
    }
}

/// The number of trailing symbols, marker included, that a padding marker
/// with remainder `r` accounts for.
pub open spec fn tail_syms(r: int) -> int {
    if r == 0 {
        1
    } else {
        r / 2 + 2
    }
}

/// The number of bytes a symbol stream of length `m` decodes to, given the
/// padding marker found at its end (if any).
pub open spec fn spec_decode_len(m: int, padding: Option<u16>) -> int {
    match padding {
        None => (m / 4) * 7,
        Some(p) => ((m - tail_syms(p - PADDING_OFFSET)) / 4) * 7 + (p - PADDING_OFFSET),
    }
}

/// What `decode_len` asks of its caller: a supplied marker must be a
/// padding code point accounting for no more symbols than the stream holds,
/// and the result must fit the machine word.
pub open spec fn decode_len_valid(m: int, padding: Option<u16>) -> bool {
    spec_decode_len(m, padding) <= usize::MAX && match padding {
        None => true,
        Some(p) => is_padding_sym(p) && m >= tail_syms(p - PADDING_OFFSET),
    }
}

/// The c-th full 7-byte group of a byte stream.
pub open spec fn group_at(data: Seq<u8>, c: int) -> Seq<u8>
    recommends
        0 <= c,
        7 * c + 7 <= data.len(),
{
    data.subrange(7 * c, 7 * c + 7)
}

/// The remainder bytes of a byte stream, zero-padded to a full group.
pub open spec fn zero_pad7(rem: Seq<u8>) -> Seq<u8>
    recommends
        rem.len() <= 7,
{
    rem + Seq::new((7 - rem.len()) as nat, |i: int| 0u8)
}

/// The trailing partial group of a byte stream, zero-padded.
pub open spec fn tail_group(data: Seq<u8>) -> Seq<u8> {
    zero_pad7(data.skip(data.len() - data.len() % 7))
}

/// The j-th symbol of the encoding of a byte stream.
pub open spec fn encode_sym_at(data: Seq<u8>, j: int) -> u16
    recommends
        0 <= j < spec_encode_len(data.len() as int),
{
    let full = (data.len() / 7) * 4;
    let r = data.len() % 7;
    if j < full {
        sym_at(group_at(data, j / 4), j % 4)
    } else if j < full + r / 2 + 1 {
        sym_at(tail_group(data), j - full)
    } else {
        (PADDING_OFFSET + r) as u16
    }
}

/// The full symbol stream that encodes a byte stream.
pub open spec fn spec_encode(data: Seq<u8>) -> Seq<u16> {
    Seq::new(spec_encode_len(data.len() as int) as nat, |j: int| encode_sym_at(data, j))
}

/// The symbol stream of the full groups of a byte stream whose length is a
/// multiple of 7.
pub open spec fn packed(data: Seq<u8>) -> Seq<u16> {
    Seq::new(((data.len() / 7) * 4) as nat, |j: int| sym_at(group_at(data, j / 4), j % 4))
}

/// The padding marker a decoder discovers in a trailing symbol, if any.
pub open spec fn spec_padding(last: u16) -> Option<u16> {
    if is_padding_sym(last) {
        Some(last)
    } else {
        None
    }
}

/// The padding marker found at the end of a symbol stream, if any.
pub open spec fn detected_padding(d: Seq<u16>) -> Option<u16> {
    if d.len() > 0 {
        spec_padding(d.last())
    } else {
        None
    }
}

/// Whether all four symbols of a group are data symbols.
pub open spec fn group_ok(s: Seq<u16>) -> bool
    recommends
        s.len() == 4,
{
    forall|i: int| 0 <= i < 4 ==> is_data_sym(s[i])
}

/// The position of the first symbol of a group that is not a data symbol.
pub open spec fn first_bad(s: Seq<u16>) -> int
    recommends
        s.len() == 4,
        !group_ok(s),
{
    if !is_data_sym(s[0]) {
        0
    } else if !is_data_sym(s[1]) {
        1
    } else if !is_data_sym(s[2]) {
        2
    } else {
        3
    }
}

/// The bytes recovered from the full groups of a symbol stream, or the error
/// of the first group that fails: length not a multiple of four, or the first
/// invalid symbol of the first bad group, reported by its position within
/// that group.
pub open spec fn decode_groups(body: Seq<u16>) -> Result<Seq<u8>, Base16384DecodeError>
    recommends
        body.len() % 4 == 0,
    decreases body.len(),
{
    if body.len() < 4 {
        Ok(Seq::empty())
    } else {
        let g = body.take(4);
        if !group_ok(g) {
            Err(Base16384DecodeError::InvalidCharacter { index: first_bad(g) as usize })
        } else {
            match decode_groups(body.skip(4)) {
                Ok(rest) => Ok(unpack_group(g) + rest),
                Err(e) => Err(e),
            }
        }
    }
}

/// The trailing data symbols of a stream, padded with `START` (the data
/// symbol of payload zero) to a full group.
pub open spec fn padded_tail(tail: Seq<u16>) -> Seq<u16>
    recommends
        tail.len() <= 4,
{
    tail + Seq::new((4 - tail.len()) as nat, |i: int| START)
}

/// The `r` remainder bytes recovered from the trailing data symbols, or the
/// first invalid symbol's position within the padded group.
pub open spec fn decode_tail(tail: Seq<u16>, r: int) -> Result<Seq<u8>, Base16384DecodeError>
    recommends
        tail.len() <= 4,
        0 <= r <= 6,
{
    let g = padded_tail(tail);
    if !group_ok(g) {
        Err(Base16384DecodeError::InvalidCharacter { index: first_bad(g) as usize })
    } else {
        Ok(unpack_group(g).take(r))
    }
}

/// Whether a symbol stream can be decoded at all: a trailing padding marker
/// must account for no more symbols than the stream holds.
pub open spec fn decode_defined(d: Seq<u16>) -> bool {
    d.len() > 0 && is_padding_sym(d.last()) ==> d.len() >= tail_syms(d.last() - PADDING_OFFSET)
}

/// The bytes a symbol stream decodes to, or the first error: the optional
/// trailing marker and the data symbols it accounts for are split off, the
/// rest must be whole groups of data symbols, and the tail must hold data
/// symbols carrying the remainder bytes the marker promises.
pub open spec fn spec_decode(d: Seq<u16>) -> Result<Seq<u8>, Base16384DecodeError>
    recommends
        decode_defined(d),
{
    if d.len() > 0 && is_padding_sym(d.last()) {
        let r = d.last() - PADDING_OFFSET;
        let consumed = tail_syms(r);
        let body = d.take(d.len() - consumed);
        let tail = d.subrange(d.len() - consumed, d.len() - 1);
        if body.len() % 4 != 0 {
            Err(Base16384DecodeError::InvalidLength)
        } else {
            match decode_groups(body) {
                Err(e) => Err(e),
                Ok(bytes) => match decode_tail(tail, r) {
                    Err(e) => Err(e),
                    Ok(tb) => Ok(bytes + tb),
                },
            }
        }
    } else {
        if d.len() % 4 != 0 {
            Err(Base16384DecodeError::InvalidLength)
        } else {
            decode_groups(d)
        }
    }
}

/// Successful group decoding yields 7 bytes for every 4 symbols.
pub proof fn lemma_decode_groups_len(body: Seq<u16>)
    requires
        body.len() % 4 == 0,
    ensures
        decode_groups(body) matches Ok(v) ==> v.len() == (body.len() / 4) * 7,
    decreases body.len(),
{
    if body.len() >= 4 {
        assert(body.skip(4).len() % 4 == 0);
        lemma_decode_groups_len(body.skip(4));
    }
}

/// A successful decode yields exactly the byte count the length calculator
/// predicts from the stream length and its trailing marker.
pub proof fn lemma_decode_ok_len(d: Seq<u16>)
    requires
        decode_defined(d),
    ensures
        spec_decode(d) matches Ok(v) ==> v.len() == spec_decode_len(
            d.len() as int,
            detected_padding(d),
        ),
{
    if d.len() > 0 && is_padding_sym(d.last()) {
        let r = d.last() - PADDING_OFFSET;
        let consumed = tail_syms(r);
        let body = d.take(d.len() - consumed);
        if body.len() % 4 == 0 {
            lemma_decode_groups_len(body);
        }
    } else {
        if d.len() % 4 == 0 {
            lemma_decode_groups_len(d);
        }
    }
}

/// The k-th byte of the three-byte UTF-8 form of a symbol. Every valid
/// symbol lies in `U+0800..U+FFFF`, the three-byte UTF-8 plane.
pub open spec fn triplet_byte(s: u16, k: int) -> u8
    recommends
        0 <= k < 3,
{
    if k == 0 {
        (0xE0 | (s >> 12)) as u8
    } else if k == 1 {
        (0x80 | ((s >> 6) & 0x3F)) as u8
    } else {
        (0x80 | (s & 0x3F)) as u8
    }
}

/// The byte stream of the UTF-8 form of a symbol stream.
pub open spec fn triplet_stream(s: Seq<u16>) -> Seq<u8> {
    Seq::new((3 * s.len()) as nat, |j: int| triplet_byte(s[j / 3], j % 3))
}

/// The UTF-8 byte stream that encodes a byte stream.
pub open spec fn spec_encode_utf8(data: Seq<u8>) -> Seq<u8> {
    triplet_stream(spec_encode(data))
}

/// The 16-bit value whose payload bits a three-byte group carries
/// (4 + 6 + 6 bits; the frame bits are masked off, not checked).
pub open spec fn sym_of_triplet(t: Seq<u8>) -> u16
    recommends
        t.len() == 3,
{
    (((t[0] & 0x0F) as u16) << 12) | (((t[1] & 0x3F) as u16) << 6) | ((t[2] & 0x3F) as u16)
}

/// Whether three bytes carry the frame bits of a three-byte UTF-8 sequence.
pub open spec fn triplet_framed(t: Seq<u8>) -> bool
    recommends
        t.len() == 3,
{
    t[0] & 0xF0 == 0xE0 && t[1] & 0xC0 == 0x80 && t[2] & 0xC0 == 0x80
}

/// The padding marker a decoder discovers in a trailing triplet, if any:
/// the triplet must be framed and carry a marker value.
pub open spec fn spec_padding_utf8(t: Seq<u8>) -> Option<u16>
    recommends
        t.len() == 3,
{
    if triplet_framed(t) {
        spec_padding(sym_of_triplet(t))
    } else {
        None
    }
}

/// The symbol values carried by a stream of triplets.
pub open spec fn syms_of_triplets(b: Seq<u8>) -> Seq<u16>
    recommends
        b.len() % 3 == 0,
{
    Seq::new((b.len() / 3) as nat, |i: int| sym_of_triplet(b.subrange(3 * i, 3 * i + 3)))
}

/// The UTF-8 decoder reports an invalid triplet by its first byte's offset
/// within its group, three times the symbol position.
pub open spec fn scale_err(e: Base16384DecodeError) -> Base16384DecodeError {
    match e {
        Base16384DecodeError::InvalidLength => Base16384DecodeError::InvalidLength,
        Base16384DecodeError::InvalidCharacter { index } => Base16384DecodeError::InvalidCharacter {
            index: (3 * index) as usize,
        },
    }
}

/// The result of the 16-bit decoder, with its error rescaled as the UTF-8
/// decoder reports it.
pub open spec fn scale_result(r: Result<Seq<u8>, Base16384DecodeError>) -> Result<
    Seq<u8>,
    Base16384DecodeError,
> {
    match r {
        Ok(v) => Ok(v),
        Err(e) => Err(scale_err(e)),
    }
}

/// Whether a UTF-8 byte stream can be decoded at all: a trailing padding
/// marker must account for no more bytes than the stream holds.
pub open spec fn decode_defined_utf8(d: Seq<u8>) -> bool {
    d.len() > 0 && d.len() % 3 == 0 ==> match spec_padding_utf8(
        d.subrange(d.len() - 3, d.len() as int),
    ) {
        Some(p) => d.len() >= 3 * tail_syms(p - PADDING_OFFSET),
        None => true,
    }
}

/// The 56-bit value of a group fits in 56 bits.
pub proof fn lemma_group_val_bound(g: Seq<u8>)
    requires
        g.len() == 7,
    ensures
        group_val(g) < (1u64 << 56),
{
    let g0 = g[0];
    let g1 = g[1];
    let g2 = g[2];
    let g3 = g[3];
    let g4 = g[4];
    let g5 = g[5];
    let g6 = g[6];
    let v = group_val(g);
    assert(v < (1u64 << 56)) by (bit_vector)
        requires
            v == ((g0 as u64) << 48) | ((g1 as u64) << 40) | ((g2 as u64) << 32) | ((g3 as u64)
                << 24) | ((g4 as u64) << 16) | ((g5 as u64) << 8) | (g6 as u64),
    ;
}

/// Every symbol the encoder emits for a group lies in
/// `[START, START + 0x3FFF]`; it is a data symbol unless its payload is
/// all ones.
pub proof fn lemma_sym_range(g: Seq<u8>, i: int)
    requires
        g.len() == 7,
        0 <= i < 4,
    ensures
        START <= sym_at(g, i) <= START + 0x3FFF,
        sym_payload(sym_at(g, i)) == payload_at(g, i),
        is_data_sym(sym_at(g, i)) <==> sym_at(g, i) != START + 0x3FFF,
        !is_padding_sym(sym_at(g, i)),
{
    let v = group_val(g);
    let p = payload_at(g, i);
    assert((v >> 42) & 0x3FFF <= 0x3FFF && ((v >> 42) & 0x3FFF) & 0x3FFF == (v >> 42) & 0x3FFF)
        by (bit_vector);
    assert((v >> 28) & 0x3FFF <= 0x3FFF && ((v >> 28) & 0x3FFF) & 0x3FFF == (v >> 28) & 0x3FFF)
        by (bit_vector);
    assert((v >> 14) & 0x3FFF <= 0x3FFF && ((v >> 14) & 0x3FFF) & 0x3FFF == (v >> 14) & 0x3FFF)
        by (bit_vector);
    assert((v >> 0) & 0x3FFF <= 0x3FFF && ((v >> 0) & 0x3FFF) & 0x3FFF == (v >> 0) & 0x3FFF)
        by (bit_vector);
    assert(p <= 0x3FFF);
    assert(p & 0x3FFF == p);
    assert(sym_at(g, i) == START + p);
    assert(sym_payload(sym_at(g, i)) == p);
}

/// Unpacking the four symbols of a packed group recovers its seven bytes.
pub proof fn lemma_group_round_trip(g: Seq<u8>)
    requires
        g.len() == 7,
    ensures
        unpack_group(Seq::new(4, |i: int| sym_at(g, i))) == g,
{
    let g0 = g[0];
    let g1 = g[1];
    let g2 = g[2];
    let g3 = g[3];
    let g4 = g[4];
    let g5 = g[5];
    let g6 = g[6];
    let v = group_val(g);
    lemma_group_val_bound(g);
    let s = Seq::new(4, |i: int| sym_at(g, i));
    let p0 = payload_at(g, 0);
    let p1 = payload_at(g, 1);
    let p2 = payload_at(g, 2);
    let p3 = payload_at(g, 3);
    lemma_sym_range(g, 0);
    lemma_sym_range(g, 1);
    lemma_sym_range(g, 2);
    lemma_sym_range(g, 3);
    let w = group_val_of_syms(s);
    assert(w == (p0 << 42) | (p1 << 28) | (p2 << 14) | p3);
    assert(w == v) by (bit_vector)
        requires
            v < (1u64 << 56),
            p0 == (v >> 42) & 0x3FFF,
            p1 == (v >> 28) & 0x3FFF,
            p2 == (v >> 14) & 0x3FFF,
            p3 == (v >> 0) & 0x3FFF,
            w == (p0 << 42) | (p1 << 28) | (p2 << 14) | p3,
    ;
    assert(((v >> 48) & 0xFF) as u8 == g0 && ((v >> 40) & 0xFF) as u8 == g1 && ((v >> 32) & 0xFF)
        as u8 == g2 && ((v >> 24) & 0xFF) as u8 == g3 && ((v >> 16) & 0xFF) as u8 == g4 && ((v >> 8)
        & 0xFF) as u8 == g5 && ((v >> 0) & 0xFF) as u8 == g6) by (bit_vector)
        requires
            v == ((g0 as u64) << 48) | ((g1 as u64) << 40) | ((g2 as u64) << 32) | ((g3 as u64)
                << 24) | ((g4 as u64) << 16) | ((g5 as u64) << 8) | (g6 as u64),
    ;
    assert(unpack_group(s) =~= g);
}

/// In a zero-padded tail group of `r` remainder bytes, every symbol past
/// the `r / 2 + 1` kept ones has payload zero: it equals `START`.
pub proof fn lemma_zero_tail(g: Seq<u8>, r: int)
    requires
        g.len() == 7,
        1 <= r <= 6,
        forall|j: int| r <= j < 7 ==> g[j] == 0,
    ensures
        forall|i: int| r / 2 < i < 4 ==> sym_at(g, i) == START,
{
    let g0 = g[0];
    let g1 = g[1];
    let g2 = g[2];
    let g3 = g[3];
    let g4 = g[4];
    let g5 = g[5];
    let v = group_val(g);
    assert forall|i: int| r / 2 < i < 4 implies sym_at(g, i) == START by {
        lemma_sym_range(g, i);
        if r == 1 {
            assert((v >> 28) & 0x3FFF == 0 && (v >> 14) & 0x3FFF == 0 && (v >> 0) & 0x3FFF == 0)
                by (bit_vector)
                requires
                    v == ((g0 as u64) << 48) | ((0u8 as u64) << 40) | ((0u8 as u64) << 32) | ((0u8
                        as u64) << 24) | ((0u8 as u64) << 16) | ((0u8 as u64) << 8) | (0u8 as u64),
            ;
        } else if r == 2 {
            assert((v >> 14) & 0x3FFF == 0 && (v >> 0) & 0x3FFF == 0) by (bit_vector)
                requires
                    v == ((g0 as u64) << 48) | ((g1 as u64) << 40) | ((0u8 as u64) << 32) | ((0u8
                        as u64) << 24) | ((0u8 as u64) << 16) | ((0u8 as u64) << 8) | (0u8 as u64),
            ;
        } else if r == 3 {
            assert((v >> 14) & 0x3FFF == 0 && (v >> 0) & 0x3FFF == 0) by (bit_vector)
                requires
                    v == ((g0 as u64) << 48) | ((g1 as u64) << 40) | ((g2 as u64) << 32) | ((0u8
                        as u64) << 24) | ((0u8 as u64) << 16) | ((0u8 as u64) << 8) | (0u8 as u64),
            ;
        } else if r == 4 {
            assert((v >> 0) & 0x3FFF == 0) by (bit_vector)
                requires
                    v == ((g0 as u64) << 48) | ((g1 as u64) << 40) | ((g2 as u64) << 32) | ((g3
                        as u64) << 24) | ((0u8 as u64) << 16) | ((0u8 as u64) << 8) | (0u8 as u64),
            ;
        } else if r == 5 {
            assert((v >> 0) & 0x3FFF == 0) by (bit_vector)
                requires
                    v == ((g0 as u64) << 48) | ((g1 as u64) << 40) | ((g2 as u64) << 32) | ((g3
                        as u64) << 24) | ((g4 as u64) << 16) | ((0u8 as u64) << 8) | (0u8 as u64),
            ;
        } else {
            // r == 6 keeps all four symbols: no i lies strictly between 3 and 4
            assert(false);
        }
        assert(payload_at(g, i) == 0);
    }
}

/// The bytes a UTF-8 byte stream decodes to, or the first error. The byte
/// length must be a multiple of three; the rest mirrors the 16-bit decoder
/// on the carried symbols, with invalid triplets reported by byte offset.
pub open spec fn spec_decode_utf8(d: Seq<u8>) -> Result<Seq<u8>, Base16384DecodeError>
    recommends
        decode_defined_utf8(d),
{
    if d.len() == 0 {
        Ok(Seq::empty())
    } else if d.len() % 3 != 0 {
        Err(Base16384DecodeError::InvalidLength)
    } else {
        match spec_padding_utf8(d.subrange(d.len() - 3, d.len() as int)) {
            Some(p) => {
                let r = p - PADDING_OFFSET;
                let consumed = 3 * tail_syms(r);
                let body = d.take(d.len() - consumed);
                let tailb = d.subrange(d.len() - consumed, d.len() - 3);
                if body.len() % 4 != 0 {
                    Err(Base16384DecodeError::InvalidLength)
                } else {
                    match decode_groups(syms_of_triplets(body)) {
                        Err(e) => Err(scale_err(e)),
                        Ok(bytes) => match decode_tail(syms_of_triplets(tailb), r) {
                            Err(e) => Err(scale_err(e)),
                            Ok(tb) => Ok(bytes + tb),
                        },
                    }
                }
            },
            None => {
                if d.len() % 4 != 0 {
                    Err(Base16384DecodeError::InvalidLength)
                } else {
                    match decode_groups(syms_of_triplets(d)) {
                        Err(e) => Err(scale_err(e)),
                        Ok(bytes) => Ok(bytes),
                    }
                }
            },
        }
    }
}

/// A count of bytes that is a whole number of triplets and of four-byte
/// blocks is a whole number of twelve-byte groups.
pub proof fn lemma_div12(b: int)
    requires
        b >= 0,
        b % 3 == 0,
        b % 4 == 0,
    ensures
        b % 12 == 0,
        b / 3 == 4 * (b / 12),
        (b / 12) * 12 == b,
        (b / 3) % 4 == 0,
        (b / 3) / 4 == b / 12,
{
    assert(b % 12 == 0 && b / 3 == 4 * (b / 12) && (b / 12) * 12 == b && (b / 3) % 4 == 0 && (b
        / 3) / 4 == b / 12) by (nonlinear_arith)
        requires
            b >= 0,
            b % 3 == 0,
            b % 4 == 0,
    ;
}

/// The padding marker the UTF-8 decoder would discover at the end of a
/// stream, if any: `None` on streams it rejects before looking.
pub open spec fn detected_padding_utf8(d: Seq<u8>) -> Option<u16> {
    if d.len() > 0 && d.len() % 3 == 0 {
        spec_padding_utf8(d.subrange(d.len() - 3, d.len() as int))
    } else {
        None
    }
}

/// A successful UTF-8 decode yields exactly the byte count the length
/// calculator predicts from the symbol count and the trailing marker.
pub proof fn lemma_decode_utf8_ok_len(d: Seq<u8>)
    requires
        decode_defined_utf8(d),
    ensures
        spec_decode_utf8(d) matches Ok(v) ==> v.len() == spec_decode_len(
            (d.len() / 3) as int,
            detected_padding_utf8(d),
        ),
{
    if d.len() == 0 || d.len() % 3 != 0 {
    } else {
        match spec_padding_utf8(d.subrange(d.len() - 3, d.len() as int)) {
            Some(p) => {
                let r = p - PADDING_OFFSET;
                let consumed = 3 * tail_syms(r);
                let body = d.take(d.len() - consumed);
                if body.len() % 4 == 0 {
                    lemma_div12(body.len() as int);
                    lemma_decode_groups_len(syms_of_triplets(body));
                    assert(syms_of_triplets(body).len() == body.len() / 3);
                    assert((d.len() - consumed) / 3 == d.len() / 3 - tail_syms(r));
                }
            },
            None => {
                if d.len() % 4 == 0 {
                    lemma_div12(d.len() as int);
                    lemma_decode_groups_len(syms_of_triplets(d));
                }
            },
        }
    }
}

} // verus!
