//! An executable UTF-8 validity check, proved against the encoding model in
//! `vstd::utf8`. The archive format stores paths as raw bytes that must
//! decode as UTF-8; the writer rejects invalid paths and the reader refuses
//! invalid index records.
use vstd::prelude::*;
use vstd::utf8::*;

verus! {

/// Returns whether `bytes` is a valid UTF-8 encoding: every scalar is
/// well-formed, not overlong, and outside the surrogate range.
pub fn validate_utf8(bytes: &Vec<u8>) -> (r: bool)
    ensures
        r == valid_utf8(bytes@),
{
    let n = bytes.len();
    let mut i: usize = 0;
    assert(bytes@.subrange(0, n as int) =~= bytes@);
    while i < n
        invariant
            i <= n,
            n == bytes@.len(),
            valid_utf8(bytes@) <==> valid_utf8(bytes@.subrange(i as int, n as int)),
        decreases n - i,
    {
        let ghost s = bytes@.subrange(i as int, n as int);
        let b0 = bytes[i];
        assert(s[0] == b0);
        if b0 < 0x80 {
            proof {
                assert((b0 & 0x7f) == b0 && b0 < 0xd800) by (bit_vector)
                    requires
                        b0 < 0x80,
                ;
                assert(valid_first_scalar(s));
                assert(length_of_first_scalar(s) == 1);
                assert(pop_first_scalar(s) =~= bytes@.subrange(i + 1, n as int));
            }
            i += 1;
        } else if b0 < 0xc0 {
            // A continuation byte cannot lead a scalar.
            proof {
                assert(!valid_leading_and_continuation_bytes_first_codepoint(s));
            }
            return false;
        } else if b0 < 0xe0 {
            if i + 1 >= n {
                proof {
                    assert(!valid_leading_and_continuation_bytes_first_codepoint(s));
                }
                return false;
            }
            let b1 = bytes[i + 1];
            assert(s[1] == b1);
            if !(0x80 <= b1 && b1 <= 0xbf) {
                proof {
                    assert(!valid_leading_and_continuation_bytes_first_codepoint(s));
                }
                return false;
            }
            if b0 < 0xc2 {
                // Overlong two-byte form: the value fits in one byte.
                proof {
                    assert((((b0 & 0x1f) as u32) << 6 | ((b1 & 0x3f) as u32)) < 0x80)
                        by (bit_vector)
                        requires
                            0xc0 <= b0 < 0xc2 && 0x80 <= b1 <= 0xbf,
                    ;
                    assert(!not_overlong_encoding(
                        decode_first_codepoint(s),
                        length_of_first_codepoint(s),
                    ));
                }
                return false;
            }
            proof {
                assert(0x80 <= (((b0 & 0x1f) as u32) << 6 | ((b1 & 0x3f) as u32)) <= 0x7ff)
                    by (bit_vector)
                    requires
                        0xc2 <= b0 < 0xe0 && 0x80 <= b1 <= 0xbf,
                ;
                assert(valid_first_scalar(s));
                assert(length_of_first_scalar(s) == 2);
                assert(pop_first_scalar(s) =~= bytes@.subrange(i + 2, n as int));
            }
            i += 2;
        } else if b0 < 0xf0 {
            if n - i < 3 {
                proof {
                    assert(!valid_leading_and_continuation_bytes_first_codepoint(s));
                }
                return false;
            }
            let b1 = bytes[i + 1];
            let b2 = bytes[i + 2];
            assert(s[1] == b1 && s[2] == b2);
            if !(0x80 <= b1 && b1 <= 0xbf) || !(0x80 <= b2 && b2 <= 0xbf) {
                proof {
                    assert(!valid_leading_and_continuation_bytes_first_codepoint(s));
                }
                return false;
            }
            let ghost cp = decode_first_codepoint(s);
            assert(cp == ((((b0 & 0x0f) as u32) << 12) | (((b1 & 0x3f) as u32) << 6) | ((b2
                & 0x3f) as u32)));
            if b0 == 0xe0 && b1 < 0xa0 {
                // Overlong three-byte form.
                proof {
                    assert(((((b0 & 0x0f) as u32) << 12) | (((b1 & 0x3f) as u32) << 6) | ((b2
                        & 0x3f) as u32)) < 0x800) by (bit_vector)
                        requires
                            b0 == 0xe0 && 0x80 <= b1 < 0xa0 && 0x80 <= b2 <= 0xbf,
                    ;
                }
                return false;
            }
            if b0 == 0xed && b1 >= 0xa0 {
                // The surrogate range.
                proof {
                    assert(0xd800 <= ((((b0 & 0x0f) as u32) << 12) | (((b1 & 0x3f) as u32) << 6)
                        | ((b2 & 0x3f) as u32)) <= 0xdfff) by (bit_vector)
                        requires
                            b0 == 0xed && 0xa0 <= b1 <= 0xbf && 0x80 <= b2 <= 0xbf,
                    ;
                }
                return false;
            }
            proof {
                assert(0x800 <= ((((b0 & 0x0f) as u32) << 12) | (((b1 & 0x3f) as u32) << 6) | ((
                b2 & 0x3f) as u32)) && !(0xd800 <= ((((b0 & 0x0f) as u32) << 12) | (((b1
                    & 0x3f) as u32) << 6) | ((b2 & 0x3f) as u32)) <= 0xdfff)) by (bit_vector)
                    requires
                        0xe0 <= b0 < 0xf0 && 0x80 <= b1 <= 0xbf && 0x80 <= b2 <= 0xbf && !(b0
                            == 0xe0 && b1 < 0xa0) && !(b0 == 0xed && b1 >= 0xa0),
                ;
                assert(valid_first_scalar(s));
                assert(length_of_first_scalar(s) == 3);
                assert(pop_first_scalar(s) =~= bytes@.subrange(i + 3, n as int));
            }
            i += 3;
        } else if b0 < 0xf8 {
            if n - i < 4 {
                proof {
                    assert(!valid_leading_and_continuation_bytes_first_codepoint(s));
                }
                return false;
            }
            let b1 = bytes[i + 1];
            let b2 = bytes[i + 2];
            let b3 = bytes[i + 3];
            assert(s[1] == b1 && s[2] == b2 && s[3] == b3);
            if !(0x80 <= b1 && b1 <= 0xbf) || !(0x80 <= b2 && b2 <= 0xbf) || !(0x80 <= b3 && b3
                <= 0xbf) {
                proof {
                    assert(!valid_leading_and_continuation_bytes_first_codepoint(s));
                }
                return false;
            }
            let ghost cp = decode_first_codepoint(s);
            assert(cp == ((((b0 & 0x07) as u32) << 18) | (((b1 & 0x3f) as u32) << 12) | (((b2
                & 0x3f) as u32) << 6) | ((b3 & 0x3f) as u32)));
            if b0 == 0xf0 && b1 < 0x90 {
                // Overlong four-byte form.
                proof {
                    assert(((((b0 & 0x07) as u32) << 18) | (((b1 & 0x3f) as u32) << 12) | (((b2
                        & 0x3f) as u32) << 6) | ((b3 & 0x3f) as u32)) < 0x10000) by (bit_vector)
                        requires
                            b0 == 0xf0 && 0x80 <= b1 < 0x90 && 0x80 <= b2 <= 0xbf && 0x80 <= b3
                                <= 0xbf,
                    ;
                }
                return false;
            }
            if b0 > 0xf4 || (b0 == 0xf4 && b1 > 0x8f) {
                // Beyond the last Unicode scalar.
                proof {
                    assert(((((b0 & 0x07) as u32) << 18) | (((b1 & 0x3f) as u32) << 12) | (((b2
                        & 0x3f) as u32) << 6) | ((b3 & 0x3f) as u32)) > 0x10ffff) by (bit_vector)
                        requires
                            0xf0 <= b0 < 0xf8 && 0x80 <= b1 <= 0xbf && 0x80 <= b2 <= 0xbf && 0x80
                                <= b3 <= 0xbf && (b0 > 0xf4 || (b0 == 0xf4 && b1 > 0x8f)),
                    ;
                }
                return false;
            }
            proof {
                assert(0x10000 <= ((((b0 & 0x07) as u32) << 18) | (((b1 & 0x3f) as u32) << 12) | ((
                (b2 & 0x3f) as u32) << 6) | ((b3 & 0x3f) as u32)) <= 0x10ffff) by (bit_vector)
                    requires
                        0xf0 <= b0 < 0xf8 && 0x80 <= b1 <= 0xbf && 0x80 <= b2 <= 0xbf && 0x80 <= b3
                            <= 0xbf && !(b0 == 0xf0 && b1 < 0x90) && !(b0 > 0xf4 || (b0 == 0xf4
                            && b1 > 0x8f)),
                ;
                assert(valid_first_scalar(s));
                assert(length_of_first_scalar(s) == 4);
                assert(pop_first_scalar(s) =~= bytes@.subrange(i + 4, n as int));
            }
            i += 4;
        } else {
            // 0xf8 and above lead no scalar at all.
            proof {
                assert(!valid_leading_and_continuation_bytes_first_codepoint(s));
            }
            return false;
        }
    }
    assert(valid_utf8(bytes@.subrange(n as int, n as int)));
    true
}

/// `s` with every byte replaced by its image under `m`.
pub open spec fn map_bytes(s: Seq<u8>, m: spec_fn(u8) -> u8) -> Seq<u8> {
    Seq::new(s.len(), |i: int| m(s[i]))
}

/// A byte map that sends ASCII bytes to ASCII bytes and leaves all other
/// bytes alone preserves UTF-8 validity. The separator conversions are such
/// maps, so a valid path stays valid on either side of the wire.
pub proof fn lemma_ascii_map_preserves_utf8(s: Seq<u8>, m: spec_fn(u8) -> u8)
    requires
        forall|b: u8| b < 0x80 ==> #[trigger] m(b) < 0x80,
        forall|b: u8| b >= 0x80 ==> #[trigger] m(b) == b,
        valid_utf8(s),
    ensures
        valid_utf8(map_bytes(s, m)),
    decreases s.len(),
{
    if s.len() > 0 {
        let t = map_bytes(s, m);
        let b0 = s[0];
        if b0 < 0x80 {
            let mb: u8 = m(b0);
            assert((mb & 0x7f) < 0xd800) by (bit_vector);
            assert(valid_first_scalar(t));
            assert(length_of_first_scalar(s) == 1);
            assert(length_of_first_scalar(t) == 1);
            assert(pop_first_scalar(t) =~= map_bytes(pop_first_scalar(s), m));
            lemma_ascii_map_preserves_utf8(pop_first_scalar(s), m);
        } else {
            // The leading byte and every continuation byte of the first
            // scalar lie at or above 0x80, so the map leaves them alone.
            assert(t[0] == b0);
            if is_leading_byte_width_2(b0) {
                assert(s.len() >= 2 && is_continuation_byte(s[1]));
                assert(t[1] == s[1]);
                assert(decode_first_codepoint(t) == decode_first_codepoint(s));
                assert(valid_first_scalar(t));
                assert(length_of_first_scalar(s) == 2);
                assert(length_of_first_scalar(t) == 2);
            } else if is_leading_byte_width_3(b0) {
                assert(s.len() >= 3 && is_continuation_byte(s[1]) && is_continuation_byte(s[2]));
                assert(t[1] == s[1] && t[2] == s[2]);
                assert(decode_first_codepoint(t) == decode_first_codepoint(s));
                assert(valid_first_scalar(t));
                assert(length_of_first_scalar(s) == 3);
                assert(length_of_first_scalar(t) == 3);
            } else {
                assert(is_leading_byte_width_4(b0));
                assert(s.len() >= 4 && is_continuation_byte(s[1]) && is_continuation_byte(s[2])
                    && is_continuation_byte(s[3]));
                assert(t[1] == s[1] && t[2] == s[2] && t[3] == s[3]);
                assert(decode_first_codepoint(t) == decode_first_codepoint(s));
                assert(valid_first_scalar(t));
                assert(length_of_first_scalar(s) == 4);
                assert(length_of_first_scalar(t) == 4);
            }
            assert(pop_first_scalar(t) =~= map_bytes(pop_first_scalar(s), m));
            lemma_ascii_map_preserves_utf8(pop_first_scalar(s), m);
        }
    }
}

/// The wire form of a valid UTF-8 path is valid UTF-8.
pub proof fn lemma_wire_separated_valid_utf8(p: Seq<u8>)
    requires
        valid_utf8(p),
    ensures
        valid_utf8(crate::codec::wire_separated(p)),
{
    let m = |b: u8| if b == crate::codec::SEP_HOST {
        crate::codec::SEP_WIRE
    } else {
        b
    };
    assert(crate::codec::wire_separated(p) =~= map_bytes(p, m));
    lemma_ascii_map_preserves_utf8(p, m);
}

} // verus!
