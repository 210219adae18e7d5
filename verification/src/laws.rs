//! The codec's laws: proof functions stating what holds of encoding and
//! decoding as wholes.

use vstd::prelude::*;

use crate::error::Base16384DecodeError;
use crate::model::{
    decode_defined, decode_groups, detected_padding, group_at, group_ok, is_data_sym,
    is_padding_sym, lemma_group_round_trip, lemma_sym_range, lemma_zero_tail, packed, padded_tail,
    scale_result, spec_decode, spec_decode_len, spec_decode_utf8, spec_encode, spec_encode_len,
    spec_encode_utf8, spec_padding, spec_padding_utf8, sym_at, sym_of_triplet, syms_of_triplets,
    tail_group, tail_syms, triplet_byte, triplet_framed, triplet_stream, unpack_group, zero_pad7,
};
use crate::{PADDING_OFFSET, START};

verus! {

/// Decoding the packed full groups of a byte stream whose length is a
/// multiple of 7 gives the bytes back, as long as no packed symbol is the
/// rejected top value.
proof fn lemma_packed_decode(data: Seq<u8>)
    requires
        data.len() % 7 == 0,
        forall|j: int| 0 <= j < packed(data).len() ==> packed(data)[j] != START + 0x3FFF,
    ensures
        decode_groups(packed(data)) == Ok::<Seq<u8>, Base16384DecodeError>(data),
    decreases data.len(),
{
    let p = packed(data);
    if data.len() == 0 {
        assert(p.len() == 0);
        assert(data =~= Seq::<u8>::empty());
    } else {
        assert(data.len() >= 7);
        let g = group_at(data, 0);
        let gs = Seq::new(4, |i: int| sym_at(g, i));
        assert(p.len() == (data.len() / 7) * 4 >= 4) by {
            assert(data.len() / 7 >= 1);
            assert((data.len() / 7) * 4 >= 1 * 4) by (nonlinear_arith)
                requires
                    data.len() / 7 >= 1,
            ;
        }
        assert forall|i: int| 0 <= i < 4 implies p.take(4)[i] == gs[i] by {
            assert(i / 4 == 0 && i % 4 == i);
        }
        assert(p.take(4) =~= gs);
        assert forall|i: int| 0 <= i < 4 implies is_data_sym(gs[i]) by {
            lemma_sym_range(g, i);
            assert(p[i] != START + 0x3FFF);
        }
        assert(group_ok(p.take(4)));
        lemma_group_round_trip(g);
        let rest = data.skip(7);
        assert(rest.len() % 7 == 0);
        assert(p.skip(4) =~= packed(rest)) by {
            assert(packed(rest).len() == (rest.len() / 7) * 4);
            assert(rest.len() / 7 == data.len() / 7 - 1);
            assert forall|j: int| 0 <= j < p.len() - 4 implies p.skip(4)[j] == packed(rest)[j] by {
                assert((j + 4) / 4 == j / 4 + 1 && (j + 4) % 4 == j % 4);
                assert(group_at(data, j / 4 + 1) =~= group_at(rest, j / 4));
            }
        }
        lemma_packed_decode(rest);
        assert(decode_groups(p) == Ok::<Seq<u8>, Base16384DecodeError>(
            unpack_group(p.take(4)) + rest,
        ));
        assert(g + rest =~= data);
    }
}

/// Round trip: decoding an encoding gives the bytes back. The one proviso
/// is the codec's known asymmetry: the decoder rejects the all-ones payload
/// (the symbol `START + 0x3FFF`), so the law holds for every byte stream
/// whose encoding avoids that one symbol value.
pub proof fn lemma_round_trip(data: Seq<u8>)
    requires
        forall|j: int|
            0 <= j < spec_encode(data).len() ==> spec_encode(data)[j] != START + 0x3FFF,
    ensures
        spec_decode(spec_encode(data)) == Ok::<Seq<u8>, Base16384DecodeError>(data),
{
    let e = spec_encode(data);
    let n = data.len() as int;
    let k = n / 7;
    let r = n % 7;
    let full = 4 * k;
    assert((n / 7) * 4 == 4 * k);
    if r == 0 {
        assert(e =~= packed(data));
        if n == 0 {
            assert(e.len() == 0);
            assert(data =~= Seq::<u8>::empty());
        } else {
            assert(k >= 1);
            assert(e.len() == full >= 4) by {
                assert(4 * k >= 4 * 1) by (nonlinear_arith)
                    requires
                        k >= 1,
                ;
            }
            let lj = e.len() - 1;
            assert(e.last() == sym_at(group_at(data, lj / 4), lj % 4));
            lemma_sym_range(group_at(data, lj / 4), lj % 4);
            assert(!is_padding_sym(e.last()));
            assert(e.len() % 4 == 0) by {
                assert(full % 4 == 0) by (nonlinear_arith)
                    requires
                        full == 4 * k,
                ;
            }
            lemma_packed_decode(data);
        }
    } else {
        assert(e.len() == full + r / 2 + 2);
        let marker = e[e.len() - 1];
        assert(marker == (PADDING_OFFSET + r) as u16);
        assert(is_padding_sym(marker));
        assert(e.last() - PADDING_OFFSET == r);
        let consumed = tail_syms(r);
        assert(consumed == r / 2 + 2);
        let body = e.take(e.len() - consumed);
        let front = data.take(7 * k);
        assert(7 * (n / 7) <= n);
        assert(front.len() % 7 == 0) by {
            assert((7 * k) % 7 == 0) by (nonlinear_arith);
        }
        assert(body =~= packed(front)) by {
            assert(packed(front).len() == (front.len() / 7) * 4);
            assert(front.len() / 7 == k) by {
                assert((7 * k) / 7 == k) by (nonlinear_arith);
            }
            assert forall|j: int| 0 <= j < full implies body[j] == packed(front)[j] by {
                assert(0 <= j / 4 < k) by {
                    assert(4 * (j / 4) <= j < 4 * k);
                    assert(j / 4 < k) by (nonlinear_arith)
                        requires
                            4 * (j / 4) < 4 * k,
                    ;
                }
                assert(group_at(data, j / 4) =~= group_at(front, j / 4));
            }
        }
        assert(body.len() % 4 == 0) by {
            assert(full % 4 == 0) by (nonlinear_arith)
                requires
                    full == 4 * k,
            ;
        }
        lemma_packed_decode(front);
        let tail = e.subrange(e.len() - consumed, e.len() - 1);
        let tg = tail_group(data);
        assert(tg == zero_pad7(data.skip(n - r)));
        assert(tg.len() == 7);
        assert(forall|j: int| r <= j < 7 ==> tg[j] == 0u8);
        lemma_zero_tail(tg, r);
        let gs = Seq::new(4, |i: int| sym_at(tg, i));
        assert(padded_tail(tail) =~= gs) by {
            assert(tail.len() == r / 2 + 1);
            assert forall|i: int| 0 <= i < 4 implies padded_tail(tail)[i] == gs[i] by {
                if i < r / 2 + 1 {
                    assert(tail[i] == e[full + i]);
                    assert(e[full + i] == sym_at(tg, i));
                } else {
                    assert(sym_at(tg, i) == START);
                }
            }
        }
        assert(group_ok(gs)) by {
            assert forall|i: int| 0 <= i < 4 implies is_data_sym(gs[i]) by {
                lemma_sym_range(tg, i);
                if i < r / 2 + 1 {
                    assert(gs[i] == e[full + i]);
                } else {
                    assert(gs[i] == START);
                }
            }
        }
        lemma_group_round_trip(tg);
        assert(unpack_group(padded_tail(tail)) == tg);
        assert(tg.take(r) =~= data.skip(7 * k)) by {
            assert(n - r == 7 * k);
        }
        assert(front + data.skip(7 * k) =~= data);
    }
}

/// Length exactness: an encoding's length is exactly `encode_len` of its
/// input, and `decode_len` inverts `encode_len` given the encoding's own
/// trailing marker.
pub proof fn lemma_length_exactness(data: Seq<u8>)
    ensures
        spec_encode(data).len() == spec_encode_len(data.len() as int),
        spec_decode_len(
            spec_encode_len(data.len() as int),
            detected_padding(spec_encode(data)),
        ) == data.len(),
{
    let e = spec_encode(data);
    let n = data.len() as int;
    let k = n / 7;
    let r = n % 7;
    let full = 4 * k;
    assert((n / 7) * 4 == 4 * k);
    if r == 0 {
        if n == 0 {
            assert(detected_padding(e) is None);
            assert(spec_decode_len(0, None::<u16>) == 0);
        } else {
            assert(k >= 1);
            assert(e.len() == full >= 4) by {
                assert(4 * k >= 4 * 1) by (nonlinear_arith)
                    requires
                        k >= 1,
                ;
            }
            let lj = e.len() - 1;
            assert(e.last() == sym_at(group_at(data, lj / 4), lj % 4));
            lemma_sym_range(group_at(data, lj / 4), lj % 4);
            assert(!is_padding_sym(e.last()));
            assert(detected_padding(e) is None);
            assert((full / 4) * 7 == 7 * k) by (nonlinear_arith)
                requires
                    full == 4 * k,
            ;
            assert(7 * k == n);
        }
    } else {
        assert(e.len() == full + r / 2 + 2);
        assert(e.last() == (PADDING_OFFSET + r) as u16);
        assert(is_padding_sym(e.last()));
        assert(detected_padding(e) == Some((PADDING_OFFSET + r) as u16));
        assert(e.last() - PADDING_OFFSET == r);
        assert(tail_syms(r) == r / 2 + 2);
        assert((full / 4) * 7 == 7 * k) by (nonlinear_arith)
            requires
                full == 4 * k,
        ;
        assert(7 * k + r == n);
    }
}

/// Padding distinctness: a non-empty remainder of `r` bytes ends the
/// encoding with the marker `PADDING_OFFSET + r`, and the padding
/// classifier accepts exactly the seven marker values, never a data symbol.
pub proof fn lemma_padding_distinct(data: Seq<u8>, s: u16)
    ensures
        data.len() % 7 != 0 ==> spec_encode(data).last() == PADDING_OFFSET + data.len() % 7,
        spec_padding(s) == (if is_padding_sym(s) {
            Some(s)
        } else {
            None::<u16>
        }),
        is_data_sym(s) ==> spec_padding(s) is None,
{
    let n = data.len() as int;
    let r = n % 7;
    if r != 0 {
        let e = spec_encode(data);
        assert(e.len() == (n / 7) * 4 + r / 2 + 2);
        assert(e.last() == (PADDING_OFFSET + r) as u16);
    }
}

/// Boundary: the empty stream encodes to the empty symbol stream, and a
/// length that is an exact multiple of 7 yields only data symbols — in
/// particular, no padding marker.
pub proof fn lemma_boundary(data: Seq<u8>)
    ensures
        data.len() == 0 ==> spec_encode(data) =~= Seq::<u16>::empty(),
        data.len() % 7 == 0 ==> spec_encode(data).len() == (data.len() / 7) * 4,
        data.len() % 7 == 0 ==> forall|j: int|
            0 <= j < spec_encode(data).len() ==> !is_padding_sym(#[trigger] spec_encode(data)[j]),
{
    let e = spec_encode(data);
    let n = data.len() as int;
    if n % 7 == 0 {
        assert forall|j: int| 0 <= j < e.len() implies !is_padding_sym(e[j]) by {
            assert(e[j] == sym_at(group_at(data, j / 4), j % 4)) by {
                assert(0 <= j % 4 < 4);
            }
            lemma_sym_range(group_at(data, j / 4), j % 4);
        }
    }
}

/// Invalid length: when the symbols left after removing the trailing
/// marker and its tail are not a whole number of four-symbol groups, the
/// decoder reports exactly `InvalidLength`.
pub proof fn lemma_invalid_length(d: Seq<u16>)
    requires
        decode_defined(d),
        ({
            let consumed = match detected_padding(d) {
                Some(p) => tail_syms(p - PADDING_OFFSET),
                None => 0,
            };
            (d.len() - consumed) % 4 != 0
        }),
    ensures
        spec_decode(d) == Err::<Seq<u8>, Base16384DecodeError>(
            Base16384DecodeError::InvalidLength,
        ),
{
}

/// A symbol's three-byte form is framed and carries the symbol back.
proof fn lemma_triplet_inverse(x: u16)
    ensures
        triplet_framed(Seq::new(3, |k: int| triplet_byte(x, k))),
        sym_of_triplet(Seq::new(3, |k: int| triplet_byte(x, k))) == x,
{
    let b0 = triplet_byte(x, 0);
    let b1 = triplet_byte(x, 1);
    let b2 = triplet_byte(x, 2);
    assert(b0 & 0xF0 == 0xE0 && b1 & 0xC0 == 0x80 && b2 & 0xC0 == 0x80 && ((((b0 & 0x0F) as u16)
        << 12) | (((b1 & 0x3F) as u16) << 6) | ((b2 & 0x3F) as u16)) == x) by (bit_vector)
        requires
            b0 == (0xE0 | (x >> 12)) as u8,
            b1 == (0x80 | ((x >> 6) & 0x3F)) as u8,
            b2 == (0x80 | (x & 0x3F)) as u8,
    ;
}

/// A slice of a triplet stream, cut at triplet boundaries, is the triplet
/// stream of the matching symbol slice.
proof fn lemma_triplet_stream_slice(s: Seq<u16>, a: int, b: int)
    requires
        0 <= a <= b <= s.len(),
    ensures
        triplet_stream(s).subrange(3 * a, 3 * b) =~= triplet_stream(s.subrange(a, b)),
{
    let t = triplet_stream(s);
    assert forall|j: int| 0 <= j < 3 * (b - a) implies t.subrange(3 * a, 3 * b)[j]
        == triplet_stream(s.subrange(a, b))[j] by {
        assert((3 * a + j) / 3 == a + j / 3 && (3 * a + j) % 3 == j % 3) by {
            assert(3 * a + j == 3 * (a + j / 3) + j % 3);
        }
    }
}

/// Reading the symbols back out of a triplet stream gives the symbols.
proof fn lemma_stream_syms(s: Seq<u16>)
    ensures
        syms_of_triplets(triplet_stream(s)) =~= s,
{
    let t = triplet_stream(s);
    assert(t.len() == 3 * s.len());
    assert(t.len() % 3 == 0 && t.len() / 3 == s.len()) by (nonlinear_arith)
        requires
            t.len() == 3 * s.len(),
    ;
    assert forall|i: int| 0 <= i < s.len() implies syms_of_triplets(t)[i] == s[i] by {
        let trip = Seq::new(3, |k: int| triplet_byte(s[i], k));
        assert(t.subrange(3 * i, 3 * i + 3) =~= trip) by {
            assert forall|k: int| 0 <= k < 3 implies t.subrange(3 * i, 3 * i + 3)[k] == trip[k] by {
                assert((3 * i + k) / 3 == i && (3 * i + k) % 3 == k) by {
                    assert(3 * i + k == 3 * i + k);
                }
            }
        }
        lemma_triplet_inverse(s[i]);
    }
}

/// A byte count three times a symbol count is a whole number of four-byte
/// blocks exactly when the symbol count is a whole number of groups.
proof fn lemma_mul3_mod4(m: int)
    requires
        m >= 0,
    ensures
        (3 * m) % 4 == 0 <==> m % 4 == 0,
        (3 * m) % 3 == 0,
        (3 * m) / 3 == m,
{
    assert(((3 * m) % 4 == 0 <==> m % 4 == 0) && (3 * m) % 3 == 0 && (3 * m) / 3 == m)
        by (nonlinear_arith)
        requires
            m >= 0,
    ;
}

/// The last three bytes of a triplet stream are the last symbol's triplet,
/// so the UTF-8 decoder discovers the same padding marker.
proof fn lemma_stream_padding(s: Seq<u16>)
    requires
        s.len() > 0,
    ensures
        spec_padding_utf8(
            triplet_stream(s).subrange(
                triplet_stream(s).len() - 3,
                triplet_stream(s).len() as int,
            ),
        ) == spec_padding(s.last()),
{
    let t = triplet_stream(s);
    let len = s.len() as int;
    let lt = t.subrange(t.len() - 3, t.len() as int);
    assert(lt =~= Seq::new(3, |k: int| triplet_byte(s.last(), k))) by {
        lemma_triplet_stream_slice(s, len - 1, len);
        assert(t.subrange(3 * (len - 1), 3 * len) =~= triplet_stream(s.subrange(len - 1, len)));
        assert forall|k: int| 0 <= k < 3 implies triplet_stream(s.subrange(len - 1, len))[k]
            == triplet_byte(s.last(), k) by {
            assert(k / 3 == 0 && k % 3 == k);
        }
    }
    lemma_triplet_inverse(s.last());
}

/// The equivalence case of a stream without a trailing marker.
proof fn lemma_utf8_equiv_nopad(s: Seq<u16>)
    requires
        s.len() > 0,
        spec_padding(s.last()) is None,
    ensures
        spec_decode_utf8(triplet_stream(s)) == scale_result(spec_decode(s)),
{
    let t = triplet_stream(s);
    let len = s.len() as int;
    assert(t.len() == 3 * len);
    lemma_mul3_mod4(len);
    lemma_stream_padding(s);
    lemma_stream_syms(s);
    assert(!is_padding_sym(s.last()));
    if len % 4 != 0 {
        assert(t.len() % 4 != 0);
    } else {
        assert(t.len() % 4 == 0);
        assert(syms_of_triplets(t) == s);
    }
}

/// The equivalence case of a stream whose last symbol is a marker.
#[verifier::rlimit(30)]
proof fn lemma_utf8_equiv_pad(s: Seq<u16>)
    requires
        decode_defined(s),
        s.len() > 0,
        spec_padding(s.last()) is Some,
    ensures
        spec_decode_utf8(triplet_stream(s)) == scale_result(spec_decode(s)),
{
    let t = triplet_stream(s);
    let len = s.len() as int;
    assert(t.len() == 3 * len);
    lemma_mul3_mod4(len);
    lemma_stream_padding(s);
    assert(is_padding_sym(s.last()));
    let r = s.last() - PADDING_OFFSET;
    let consumed = tail_syms(r);
    assert(len >= consumed);
    let body_s = s.take(len - consumed);
    let body_t = t.take(3 * (len - consumed));
    assert(body_t =~= triplet_stream(body_s)) by {
        lemma_triplet_stream_slice(s, 0, len - consumed);
        assert(t.subrange(0, 3 * (len - consumed)) =~= body_t);
        assert(s.subrange(0, len - consumed) =~= body_s);
    }
    lemma_stream_syms(body_s);
    lemma_mul3_mod4(len - consumed);
    assert(body_t.len() == 3 * (len - consumed));
    if body_s.len() % 4 != 0 {
        assert(body_t.len() % 4 != 0);
    } else {
        assert(body_t.len() % 4 == 0);
        assert(syms_of_triplets(body_t) == body_s);
        let tail_s = s.subrange(len - consumed, len - 1);
        let tail_t = t.subrange(3 * (len - consumed), 3 * len - 3);
        assert(tail_t =~= triplet_stream(tail_s)) by {
            lemma_triplet_stream_slice(s, len - consumed, len - 1);
            assert(t.subrange(3 * (len - consumed), 3 * (len - 1)) =~= triplet_stream(tail_s));
        }
        lemma_stream_syms(tail_s);
        assert(syms_of_triplets(tail_t) == tail_s);
    }
}

/// UTF-8 equivalence: decoding the three-byte form of a symbol stream
/// yields exactly what decoding the symbol stream yields, with an invalid
/// symbol reported by its byte offset instead of its position.
pub proof fn lemma_utf8_equivalence(s: Seq<u16>)
    requires
        decode_defined(s),
    ensures
        spec_decode_utf8(triplet_stream(s)) == scale_result(spec_decode(s)),
{
    let t = triplet_stream(s);
    if s.len() == 0 {
        assert(t.len() == 0);
        assert(spec_decode_utf8(t) == Ok::<Seq<u8>, Base16384DecodeError>(Seq::empty()));
        assert(s.len() % 4 == 0);
        assert(spec_decode(s) == decode_groups(s));
        assert(decode_groups(s) == Ok::<Seq<u8>, Base16384DecodeError>(Seq::empty()));
    } else if spec_padding(s.last()) is Some {
        lemma_utf8_equiv_pad(s);
    } else {
        lemma_utf8_equiv_nopad(s);
    }
}

/// Round trip through the UTF-8 form, under the same proviso as the
/// 16-bit round trip.
pub proof fn lemma_round_trip_utf8(data: Seq<u8>)
    requires
        forall|j: int|
            0 <= j < spec_encode(data).len() ==> spec_encode(data)[j] != START + 0x3FFF,
    ensures
        spec_decode_utf8(spec_encode_utf8(data)) == Ok::<Seq<u8>, Base16384DecodeError>(data),
{
    let e = spec_encode(data);
    let n = data.len() as int;
    let r = n % 7;
    assert(decode_defined(e)) by {
        if e.len() > 0 && is_padding_sym(e.last()) {
            assert(r != 0) by {
                if r == 0 {
                    let lj = e.len() - 1;
                    assert(e.last() == sym_at(group_at(data, lj / 4), lj % 4));
                    lemma_sym_range(group_at(data, lj / 4), lj % 4);
                }
            }
            assert(e.last() == (PADDING_OFFSET + r) as u16);
            assert(e.len() == (n / 7) * 4 + r / 2 + 2);
            assert(tail_syms(r) == r / 2 + 2);
        }
    }
    lemma_utf8_equivalence(e);
    lemma_round_trip(data);
}

} // verus!