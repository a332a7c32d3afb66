//! The round-trip guarantee: decoding what was encoded gives back the
//! original octets.

use vstd::prelude::*;
use vstd::arithmetic::power2::*;
use vstd::arithmetic::div_mod::*;
use vstd::arithmetic::mul::*;
use crate::decode_impl::{
    chars_error, lemma_chars_error_to_quintets, lemma_quintets_error_skip, quintet_sym_ok,
    quintets_error, quintets_of_chars, spec_character_to_quintet,
};
use crate::encode_impl::{chars_of_quintets, spec_quintet_to_character};
use crate::model::{
    decoded_octets, encoded_quintets, lemma_bits_decomposition, lemma_div_exact,
    lemma_live_bits_range, lemma_payload_bound, lemma_pow2_divides_smaller,
    lemma_required_len_bounds, lemma_stream_val_trailing,
    lemma_sym_seq_of_stream, lemma_sym_seq_of_val, lemma_trailing_from_val, live_bits, pad_bits,
    payload, required_len, stream_ok, stream_val, syms_in_range, trailing_zero,
};
use crate::stateful_decoder::spec_quintet_trailing_ok;

verus! {

/// Mapping a quintet to its character and back returns the quintet.
pub proof fn lemma_alphabet_roundtrip(q: u8)
    requires
        q <= 31,
    ensures
        spec_character_to_quintet(spec_quintet_to_character(q)) == Some(q),
{
}

/// For every valid pair of a bit length and an octet stream of exactly the
/// required length whose bits past the declared length are zero, the encoded
/// character stream decodes without error, and decoding gives back exactly
/// the original octets.
pub proof fn lemma_round_trip(octets: Seq<u8>, bits: nat)
    requires
        stream_ok(octets, 8, bits),
    ensures
        ({
            let chars = chars_of_quintets(encoded_quintets(octets, bits));
            &&& chars_error(chars, live_bits(bits, 5)) is None
            &&& decoded_octets(quintets_of_chars(chars), bits) == octets
        }),
{
    let q = encoded_quintets(octets, bits);
    let chars = chars_of_quintets(q);
    let p = payload(octets, 8, bits);
    let n5 = required_len(bits, 5);
    let n8 = required_len(bits, 8);
    let pad5 = pad_bits(bits, 5);
    let pad8 = pad_bits(bits, 8);
    lemma_sym_seq_of_val(p * pow2(pad5), n5, 5);
    // the quintets' value is exactly the left-justified payload
    assert(stream_val(q, 5) == p * pow2(pad5)) by {
        lemma_payload_bound(octets, 8, bits);
        lemma_required_len_bounds(bits, 5);
        lemma_pow2_pos(pad5);
        lemma_pow2_adds(bits, pad5);
        assert(bits + pad5 == 5 * n5) by {
            assert(n5 * 5 == 5 * n5) by (nonlinear_arith);
        }
        assert(p * pow2(pad5) < pow2(bits) * pow2(pad5)) by (nonlinear_arith)
            requires
                p < pow2(bits),
                pow2(pad5) > 0,
        ;
        lemma_pow2_pos(pad5);
        lemma_small_mod(p * pow2(pad5), pow2(5 * n5));
    }
    // the characters all map back to their quintets
    assert(forall|j: int| 0 <= j < chars.len() ==> #[trigger] spec_character_to_quintet(chars[j])
        == Some(q[j])) by {
        assert(forall|j: int|
            0 <= j < chars.len() ==> chars[j] == spec_quintet_to_character(#[trigger] q[j]));
        assert forall|j: int| 0 <= j < chars.len() implies #[trigger] spec_character_to_quintet(
            chars[j],
        ) == Some(q[j]) by {
            lemma2_to64();
            assert(q[j] < 32);
            lemma_alphabet_roundtrip(q[j]);
        }
    }
    assert(quintets_of_chars(chars) =~= q);
    if bits == 0 {
        assert(n5 == 0 && n8 == 0);
        assert(chars.len() == 0);
        assert(decoded_octets(q, 0).len() == 0) by {
            lemma_sym_seq_of_val(payload(q, 5, 0) * pow2(pad_bits(0nat, 8)), n8, 8);
        }
        assert(decoded_octets(q, 0) =~= octets);
    } else {
        let f5 = live_bits(bits, 5);
        lemma_live_bits_range(bits, 5);
        lemma_live_bits_range(bits, 8);
        // every quintet passes its checks
        assert(pad5 == (5 - f5) as nat) by {
            lemma_bits_decomposition(bits, 5);
            assert(5 * n5 == 5 * ((n5 - 1) as nat) + 5) by (nonlinear_arith)
                requires
                    n5 >= 1,
            ;
            assert(n5 * 5 == 5 * n5) by (nonlinear_arith);
            assert(n5 >= 1) by {
                lemma_required_len_bounds(bits, 5);
                assert(required_len(bits, 5) * 5 == 0 ==> required_len(bits, 5) == 0)
                    by (nonlinear_arith);
            }
        }
        assert(trailing_zero(q.last(), 5, f5)) by {
            lemma_pow2_pos(pad5);
            lemma_mod_multiples_basic(p as int, pow2(pad5) as int);
            lemma_trailing_from_val(q, 5, f5);
        }
        assert(forall|j: int| 0 <= j < q.len() ==> quintet_sym_ok(#[trigger] q[j], j == q.len() - 1, f5))
            by {
            lemma2_to64();
            assert(spec_quintet_trailing_ok(f5, q[q.len() - 1]));
        }
        lemma_quintets_error_skip(q, f5, q.len() as int);
        assert(q.skip(q.len() as int).len() == 0);
        assert(quintets_error(q, f5) is None);
        lemma_chars_error_to_quintets(chars, f5);
        assert(chars_error(chars, f5) is None);
        // decoding the quintets rebuilds the octets
        assert(payload(q, 5, bits) == p) by {
            lemma_pow2_pos(pad5);
            lemma_mul_is_commutative(p as int, pow2(pad5) as int);
            lemma_div_multiples_vanish(p as int, pow2(pad5) as int);
        }
        assert(stream_val(octets, 8) == p * pow2(pad8)) by {
            lemma_stream_val_trailing(octets, 8, live_bits(bits, 8));
            assert(pad8 == (8 - live_bits(bits, 8)) as nat) by {
                lemma_bits_decomposition(bits, 8);
                assert(8 * n8 == 8 * ((n8 - 1) as nat) + 8) by (nonlinear_arith)
                    requires
                        n8 >= 1,
                ;
                assert(n8 * 8 == 8 * n8) by (nonlinear_arith);
                assert(n8 >= 1) by {
                    lemma_required_len_bounds(bits, 8);
                    assert(required_len(bits, 8) * 8 == 0 ==> required_len(bits, 8) == 0)
                        by (nonlinear_arith);
                }
            }
            lemma_pow2_pos(pad8);
            lemma_div_exact(stream_val(octets, 8), pow2(pad8));
        }
        lemma_sym_seq_of_stream(octets, 8);
        assert(syms_in_range(octets, 8));
        assert(decoded_octets(q, bits) == octets);
    }
}

} // verus!
