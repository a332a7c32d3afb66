//! Encoding: octets to quintets to characters.
//!
//! [`octets_to_quintets`] regroups a buffer of octets into quintets,
//! [`quintet_to_character`] maps one quintet to its byte of z-base-32 text,
//! and [`encode_slices`] does both steps in one call. [`encode`] is the
//! convenience wrapper that appends the encoded characters to a growable
//! string. All of them validate the buffer lengths against the declared bit
//! length and reject input whose bits past that length are not zero.

use vstd::prelude::*;
use vstd::arithmetic::power2::*;
use vstd::slice::slice_index_get;
use vstd::pervasive::VecAdditionalExecFns;
use crate::error::{
    bits_overflow_error, encoding_trailing_nonzero_bits_error, input_buffer_doesnt_match_bits,
    input_buffer_doesnt_match_bits_error, invalid_quintet, invalid_quintet_error,
    output_buffer_doesnt_match_bits, output_buffer_doesnt_match_bits_error, usage_to_input_error,
    InputError, UsageError,
};
use crate::model::{
    encoded_quintets, lemma_final_batch, lemma_live_bits_range, lemma_more_output,
    lemma_payload_bound, lemma_stream_conversion, lemma_stream_val_concat, lemma_stream_val_head,
    lemma_sym_seq_of_stream, lemma_sym_seq_of_val, live_bits, pad_bits, payload, required_len,
    stream_ok, stream_val, syms_in_range, trailing_zero,
};
use crate::stateful_encoder::{
    spec_octet_trailing_ok, HaveQuintets, NeedOctets, NextQuintetResult, ProvideOctetResult,
};
use crate::util::{required_octets_buffer_len, required_quintets_buffer_len};

verus! {

/// The byte of z-base-32 text standing for a 5-bit value: the character at
/// that position of the alphabet "ybndrfg8ejkmcpqxot1uwisza345h769". Values
/// above 31 have no character.
pub open spec fn spec_quintet_to_character(q: u8) -> u8 {
    match q {
        0u8 => 121u8,  // 'y'
        1u8 => 98u8,  // 'b'
        2u8 => 110u8,  // 'n'
        3u8 => 100u8,  // 'd'
        4u8 => 114u8,  // 'r'
        5u8 => 102u8,  // 'f'
        6u8 => 103u8,  // 'g'
        7u8 => 56u8,  // '8'
        8u8 => 101u8,  // 'e'
        9u8 => 106u8,  // 'j'
        10u8 => 107u8,  // 'k'
        11u8 => 109u8,  // 'm'
        12u8 => 99u8,  // 'c'
        13u8 => 112u8,  // 'p'
        14u8 => 113u8,  // 'q'
        15u8 => 120u8,  // 'x'
        16u8 => 111u8,  // 'o'
        17u8 => 116u8,  // 't'
        18u8 => 49u8,  // '1'
        19u8 => 117u8,  // 'u'
        20u8 => 119u8,  // 'w'
        21u8 => 105u8,  // 'i'
        22u8 => 115u8,  // 's'
        23u8 => 122u8,  // 'z'
        24u8 => 97u8,  // 'a'
        25u8 => 51u8,  // '3'
        26u8 => 52u8,  // '4'
        27u8 => 53u8,  // '5'
        28u8 => 104u8,  // 'h'
        29u8 => 55u8,  // '7'
        30u8 => 54u8,  // '6'
        31u8 => 57u8,  // '9'
        _ => 0u8,
    }
}

/// The characters standing for a sequence of quintets, each of which must be
/// below 32.
pub open spec fn chars_of_quintets(s: Seq<u8>) -> Seq<u8> {
    s.map_values(|q: u8| spec_quintet_to_character(q))
}

/// The characters of a byte sequence, read as ASCII.
pub open spec fn ascii_chars(s: Seq<u8>) -> Seq<char> {
    s.map_values(|b: u8| b as char)
}

/// Convert a quintet integer value (such as 0) to its character value (such
/// as "y"). Fails with a usage error if the value exceeds 31.
pub fn quintet_to_character(quintet: u8) -> (r: Result<u8, UsageError>)
    ensures
        quintet <= 31 ==> r == Ok::<u8, UsageError>(spec_quintet_to_character(quintet)),
        quintet > 31 ==> r == Err::<u8, UsageError>(invalid_quintet_error()),
{
    match quintet {
        0u8 => Ok(121),  // 'y'
        1u8 => Ok(98),  // 'b'
        2u8 => Ok(110),  // 'n'
        3u8 => Ok(100),  // 'd'
        4u8 => Ok(114),  // 'r'
        5u8 => Ok(102),  // 'f'
        6u8 => Ok(103),  // 'g'
        7u8 => Ok(56),  // '8'
        8u8 => Ok(101),  // 'e'
        9u8 => Ok(106),  // 'j'
        10u8 => Ok(107),  // 'k'
        11u8 => Ok(109),  // 'm'
        12u8 => Ok(99),  // 'c'
        13u8 => Ok(112),  // 'p'
        14u8 => Ok(113),  // 'q'
        15u8 => Ok(120),  // 'x'
        16u8 => Ok(111),  // 'o'
        17u8 => Ok(116),  // 't'
        18u8 => Ok(49),  // '1'
        19u8 => Ok(117),  // 'u'
        20u8 => Ok(119),  // 'w'
        21u8 => Ok(105),  // 'i'
        22u8 => Ok(115),  // 's'
        23u8 => Ok(122),  // 'z'
        24u8 => Ok(97),  // 'a'
        25u8 => Ok(51),  // '3'
        26u8 => Ok(52),  // '4'
        27u8 => Ok(53),  // '5'
        28u8 => Ok(104),  // 'h'
        29u8 => Ok(55),  // '7'
        30u8 => Ok(54),  // '6'
        31u8 => Ok(57),  // '9'
        _ => Err(invalid_quintet()),
    }
}

/// Appends one ASCII character to a string.
///
/// Relies on std's `String::push`: it appends exactly the given character.
#[verifier::external_body]
fn push_ascii_character(s: &mut String, c: u8)
    ensures
        final(s)@ == old(s)@.push(c as char),
{
    s.push(c as char);
}

/// The first error a left-to-right scan of encode-input octets reports:
/// nonzero trailing bits in the final one.
pub open spec fn octets_error(s: Seq<u8>, live: nat) -> Option<InputError>
    decreases s.len(),
{
    if s.len() == 0 {
        None
    } else if s.len() == 1 && !spec_octet_trailing_ok(live, s[0]) {
        Some(usage_to_input_error(encoding_trailing_nonzero_bits_error()))
    } else {
        octets_error(s.skip(1), live)
    }
}

/// Scanning past a prefix of passing octets does not change the reported
/// error.
pub proof fn lemma_octets_error_skip(s: Seq<u8>, live: nat, i: int)
    requires
        0 <= i <= s.len(),
        forall|j: int|
            0 <= j < i ==> (j == s.len() - 1 ==> spec_octet_trailing_ok(live, #[trigger] s[j])),
    ensures
        octets_error(s, live) == octets_error(s.skip(i), live),
    decreases i,
{
    if i == 0 {
        assert(s.skip(0) =~= s);
    } else {
        lemma_octets_error_skip(s, live, i - 1);
        let t = s.skip(i - 1);
        assert(t[0] == s[i - 1]);
        assert(t.len() == 1 <==> i - 1 == s.len() - 1);
        assert(t.skip(1) =~= s.skip(i));
        assert(octets_error(t, live) == octets_error(t.skip(1), live));
    }
}

/// Encoding rejects trailing garbage: any octet stream whose final octet
/// carries a nonzero bit past the declared live count is reported as trailing
/// nonzero bits, whatever the other octets hold.
pub proof fn lemma_trailing_bits_rejected(s: Seq<u8>, live: nat)
    requires
        s.len() > 0,
        !spec_octet_trailing_ok(live, s.last()),
    ensures
        octets_error(s, live) == Some(usage_to_input_error(encoding_trailing_nonzero_bits_error())),
{
    lemma_octets_error_skip(s, live, s.len() - 1);
    let t = s.skip(s.len() - 1);
    assert(t.len() == 1);
    assert(t[0] == s.last());
}

/// Determine if the last octet is valid, given the number of bits to encode
pub fn is_last_octet_valid(bits: u64, octet: u8) -> (r: bool)
    ensures
        r == (bits > 0 && spec_octet_trailing_ok(live_bits(bits as nat, 8), octet)),
{
    if let Some(last_octet_bits) = calc_last_octet_bits(bits) {
        crate::stateful_encoder::octet_has_valid_trailing_bits(last_octet_bits, octet)
    } else {
        false
    }
}

/// The number of live bits in the final octet, or nothing for an empty
/// payload.
fn calc_last_octet_bits(bits: u64) -> (r: Option<u8>)
    ensures
        bits == 0 ==> r is None,
        bits > 0 ==> (r matches Some(x) && x as nat == live_bits(bits as nat, 8) && 1 <= x <= 8),
{
    if bits == 0 {
        None
    } else {
        match bits % 8 {
            0 => Some(8),
            x => Some(x as u8),
        }
    }
}

/// The two phases of a running octets-to-quintets conversion.
enum OctetsToQuintetsState {
    Accumulating(NeedOctets),
    Draining(HaveQuintets),
}

impl OctetsToQuintetsState {
    /// Draining ranks above accumulating: every transition either consumes
    /// input, produces output, or falls from draining back to accumulating.
    spec fn rank(self) -> int {
        match self {
            OctetsToQuintetsState::Accumulating(_) => 0,
            OctetsToQuintetsState::Draining(_) => 1,
        }
    }
}

/// Drives the state machine over a full octet buffer, writing every
/// regrouped quintet into the output buffer.
fn run_octets_to_quintets(
    in_octets: &[u8],
    out_quintets: &mut Vec<u8>,
    last_octet_bits: u8,
    Ghost(bits): Ghost<nat>,
) -> (r: Result<(), InputError>)
    requires
        bits > 0,
        in_octets@.len() == required_len(bits, 8),
        old(out_quintets)@.len() == required_len(bits, 5),
        last_octet_bits as nat == live_bits(bits, 8),
    ensures
        final(out_quintets)@.len() == old(out_quintets)@.len(),
        match octets_error(in_octets@, live_bits(bits, 8)) {
            Option::Some(e) => r == Err::<(), InputError>(e),
            Option::None => r == Ok::<(), InputError>(()) && final(out_quintets)@
                == encoded_quintets(in_octets@, bits),
        },
{
    let ghost o = in_octets@;
    let ghost lob = live_bits(bits, 8);
    proof {
        lemma_live_bits_range(bits, 8);
        lemma2_to64();
    }
    let n = in_octets.len();
    let n_out = out_quintets.len();
    let mut in_i: usize = 0;
    let mut out_i: usize = 0;
    let ghost mut batches: nat = 0;
    let mut state = OctetsToQuintetsState::Accumulating(NeedOctets::new(last_octet_bits));
    while out_i < n_out
        invariant
            o == in_octets@,
            n == o.len(),
            n == required_len(bits, 8),
            n_out == required_len(bits, 5),
            out_quintets@.len() == n_out,
            old(out_quintets)@.len() == n_out,
            bits > 0,
            lob == live_bits(bits, 8),
            1 <= lob <= 8,
            last_octet_bits as nat == lob,
            in_i <= n,
            out_i <= n_out,
            forall|j: int|
                0 <= j < in_i ==> (j == n - 1 ==> spec_octet_trailing_ok(live_bits(bits, 8), #[trigger] o[j])),
            forall|j: int| 0 <= j < out_i ==> (#[trigger] out_quintets@[j]) < 32,
            match state {
                OctetsToQuintetsState::Accumulating(no) => {
                    &&& no.wf()
                    &&& no.last_live() == lob
                    &&& no.octets().len() < 5
                    &&& in_i == 5 * batches + no.octets().len()
                    &&& no.octets() == o.subrange((5 * batches) as int, in_i as int)
                    &&& out_i == 8 * batches
                    &&& in_i < n
                    &&& stream_val(out_quintets@.take(out_i as int), 5) == stream_val(
                        o.take((5 * batches) as int),
                        8,
                    )
                },
                OctetsToQuintetsState::Draining(hq) => {
                    &&& hq.wf()
                    &&& hq.last_live() == lob
                    &&& hq.is_complete() == (in_i == n)
                    &&& if hq.is_complete() {
                        &&& out_i + hq.pending().len() == n_out
                        &&& (stream_val(out_quintets@.take(out_i as int), 5) * pow2(
                            5 * hq.pending().len(),
                        ) + stream_val(hq.pending(), 5)) * pow2(pad_bits(bits, 8)) == stream_val(
                            o,
                            8,
                        ) * pow2(pad_bits(bits, 5))
                    } else {
                        &&& in_i == 5 * batches
                        &&& in_i < n
                        &&& out_i + hq.pending().len() == 8 * batches
                        &&& stream_val(out_quintets@.take(out_i as int), 5) * pow2(
                            5 * hq.pending().len(),
                        ) + stream_val(hq.pending(), 5) == stream_val(o.take(in_i as int), 8)
                    }
                },
            },
        decreases n - in_i, n_out - out_i, state.rank(),
    {
        state = match state {
            OctetsToQuintetsState::Accumulating(no) => {
                let octet = *slice_index_get(in_octets, in_i);
                let last_octet = in_i + 1 == n;
                in_i = in_i + 1;
                match no.provide_octet(octet, last_octet) {
                    Err(e) => {
                        proof {
                            lemma_octets_error_skip(o, lob, (in_i - 1) as int);
                            let t = o.skip((in_i - 1) as int);
                            assert(t[0] == o[in_i - 1]);
                            assert(t.len() == 1 <==> last_octet);
                        }
                        return Err(e);
                    },
                    Ok(pr) => {
                        proof {
                            assert(o[in_i - 1] == in_octets@[in_i - 1]);
                        }
                        match pr {
                            ProvideOctetResult::NeedOctets(no2) => {
                                proof {
                                    assert(o.subrange((5 * batches) as int, in_i as int)
                                        =~= o.subrange((5 * batches) as int, (in_i - 1) as int).push(
                                        o[in_i - 1],
                                    ));
                                }
                                OctetsToQuintetsState::Accumulating(no2)
                            },
                            ProvideOctetResult::HaveQuintets(hq) => {
                                proof {
                                    let m = no.octets().len() + 1;
                                    let batch = o.subrange((5 * batches) as int, in_i as int);
                                    assert(batch =~= no.octets().push(o[in_i - 1]));
                                    if last_octet {
                                        assert(batch =~= o.skip((5 * batches) as int));
                                        assert(o.last() == o[in_i - 1]);
                                        assert(trailing_zero(o.last(), 8, lob));
                                        assert(syms_in_range(o, 8)) by {
                                            assert(forall|j: int|
                                                0 <= j < o.len() ==> (#[trigger] o[j]) < pow2(
                                                    8,
                                                )) by {
                                                lemma2_to64();
                                            }
                                        }
                                        lemma_final_batch(
                                            o,
                                            bits,
                                            8,
                                            5,
                                            batches,
                                            m,
                                            hq.pending().len(),
                                            stream_val(hq.pending(), 5),
                                        );
                                    } else {
                                        // a full batch: five more octets in, eight quintets pending
                                        assert(m == 5);
                                        assert(hq.pending().len() == 8);
                                        assert(o.take(in_i as int) =~= o.take((5 * batches) as int)
                                            + batch);
                                        lemma_stream_val_concat(
                                            o.take((5 * batches) as int),
                                            batch,
                                            8,
                                        );
                                        lemma2_to64();
                                        assert(stream_val(hq.pending(), 5) == stream_val(batch, 8))
                                            by (nonlinear_arith)
                                            requires
                                                stream_val(hq.pending(), 5) * pow2(0nat)
                                                    == stream_val(batch, 8) * pow2(0nat),
                                                pow2(0nat) == 1,
                                        ;
                                        assert(8 * batch.len() == 40);
                                        assert(stream_val(o.take(in_i as int), 8) == stream_val(
                                            o.take((5 * batches) as int),
                                            8,
                                        ) * pow2(40) + stream_val(batch, 8));
                                        batches = batches + 1;
                                        assert(stream_val(out_quintets@.take(out_i as int), 5)
                                            * pow2(5 * hq.pending().len()) + stream_val(
                                            hq.pending(),
                                            5,
                                        ) == stream_val(o.take(in_i as int), 8));
                                    }
                                }
                                OctetsToQuintetsState::Draining(hq)
                            },
                        }
                    },
                }
            },
            OctetsToQuintetsState::Draining(hq) => {
                match hq.next_quintet() {
                    NextQuintetResult::Quintet(v, hq2) => {
                        let ghost out_pre = out_quintets@;
                        out_quintets.set(out_i, v);
                        out_i = out_i + 1;
                        proof {
                            let pend = hq.pending();
                            let r_len = pend.len();
                            let outv = stream_val(out_pre.take((out_i - 1) as int), 5);
                            assert(out_quintets@.take(out_i as int) =~= out_pre.take(
                                (out_i - 1) as int,
                            ).push(v));
                            let tk = out_quintets@.take(out_i as int);
                            assert(tk.drop_last() =~= out_pre.take((out_i - 1) as int));
                            assert(stream_val(tk, 5) == outv * pow2(5) + v);
                            lemma_stream_val_head(pend, 5);
                            lemma_pow2_adds(5, (5 * (r_len - 1)) as nat);
                            assert((outv * pow2(5) + v) * pow2((5 * (r_len - 1)) as nat) == outv * (
                            pow2(5) * pow2((5 * (r_len - 1)) as nat)) + v * pow2(
                                (5 * (r_len - 1)) as nat,
                            )) by (nonlinear_arith);
                            assert(5 * r_len == 5 + 5 * ((r_len - 1) as nat)) by (nonlinear_arith)
                                requires
                                    r_len >= 1,
                            ;
                            assert(pend.skip(1).len() == r_len - 1);
                            assert(5 * pend.skip(1).len() == 5 * ((r_len - 1) as nat));
                            assert(stream_val(tk, 5) * pow2(5 * pend.skip(1).len()) + stream_val(
                                pend.skip(1),
                                5,
                            ) == outv * pow2(5 * r_len) + stream_val(pend, 5));
                            if hq.is_complete() {
                                assert((stream_val(tk, 5) * pow2(5 * pend.skip(1).len())
                                    + stream_val(pend.skip(1), 5)) * pow2(pad_bits(bits, 8))
                                    == stream_val(o, 8) * pow2(pad_bits(bits, 5)));
                            }
                        }
                        OctetsToQuintetsState::Draining(hq2)
                    },
                    NextQuintetResult::NeedOctets(no2) => {
                        proof {
                            lemma2_to64();
                            assert(stream_val(hq.pending(), 5) == 0);
                            let outv = stream_val(out_quintets@.take(out_i as int), 5);
                            assert(outv * pow2(5 * hq.pending().len()) == outv)
                                by (nonlinear_arith)
                                requires
                                    pow2(5 * hq.pending().len()) == 1,
                            ;
                            assert(no2.octets() =~= o.subrange((5 * batches) as int, in_i as int));
                        }
                        OctetsToQuintetsState::Accumulating(no2)
                    },
                    NextQuintetResult::Complete => {
                        proof {
                            assert(false);
                        }
                        vstd::pervasive::unreached()
                    },
                }
            },
        };
    }
    proof {
        match state {
            OctetsToQuintetsState::Accumulating(no) => {
                lemma_more_output(bits, 8, 5, batches);
                assert(false);
            },
            OctetsToQuintetsState::Draining(hq) => {
                if !hq.is_complete() {
                    lemma_more_output(bits, 8, 5, batches);
                    assert(false);
                } else if hq.pending().len() > 0 {
                    assert(false);
                } else {
                    lemma2_to64();
                    assert(stream_val(hq.pending(), 5) == 0);
                    let outv = stream_val(out_quintets@.take(out_i as int), 5);
                    assert(out_quintets@.take(out_i as int) =~= out_quintets@);
                    assert(pow2(0) == 1);
                    assert(5 * hq.pending().len() == 0);
                    assert((outv * pow2(5 * hq.pending().len()) + stream_val(hq.pending(), 5))
                        * pow2(pad_bits(bits, 8)) == stream_val(o, 8) * pow2(pad_bits(bits, 5)));
                    assert(outv * pow2(5 * hq.pending().len()) == outv) by (nonlinear_arith)
                        requires
                            pow2(5 * hq.pending().len()) == 1,
                    ;
                    assert(outv * pow2(pad_bits(bits, 8)) == stream_val(o, 8) * pow2(
                        pad_bits(bits, 5),
                    ));
                    assert(syms_in_range(o, 8)) by {
                        assert(forall|j: int| 0 <= j < o.len() ==> (#[trigger] o[j]) < pow2(8)) by {
                            lemma2_to64();
                        }
                    }
                    assert(trailing_zero(o.last(), 8, lob));
                    assert(stream_ok(o, 8, bits));
                    lemma_stream_conversion(o, stream_val(out_quintets@, 5), bits, 8, 5);
                    assert(syms_in_range(out_quintets@, 5)) by {
                        assert(forall|j: int|
                            0 <= j < out_quintets@.len() ==> (#[trigger] out_quintets@[j]) < pow2(
                                5,
                            )) by {
                            lemma2_to64();
                        }
                    }
                    lemma_sym_seq_of_stream(out_quintets@, 5);
                    assert(out_quintets@ == encoded_quintets(o, bits));
                    lemma_octets_error_skip(o, lob, n as int);
                    assert(o.skip(n as int).len() == 0);
                }
            },
        }
    }
    Ok(())
}

/// Convert a buffer of octets (bytes) into a buffer of quintet values
/// (integers in the range 0-31).
///
/// The length of `in_octets` must match the value returned by
/// [`required_octets_buffer_len`] and the length of `out_quintets` must match
/// the value returned by [`required_quintets_buffer_len`]. On failure the
/// output buffer may hold partially written data that must not be trusted.
pub fn octets_to_quintets(in_octets: &[u8], out_quintets: &mut Vec<u8>, bits: u64) -> (r: Result<
    (),
    InputError,
>)
    ensures
        final(out_quintets)@.len() == old(out_quintets)@.len(),
        ({
            let o = in_octets@;
            let n8 = required_len(bits as nat, 8);
            let n5 = required_len(bits as nat, 5);
            if n8 > usize::MAX {
                r == Err::<(), InputError>(usage_to_input_error(bits_overflow_error()))
                    && final(out_quintets)@ == old(out_quintets)@
            } else if o.len() != n8 {
                r == Err::<(), InputError>(usage_to_input_error(input_buffer_doesnt_match_bits_error()))
                    && final(out_quintets)@ == old(out_quintets)@
            } else if n5 > usize::MAX {
                r == Err::<(), InputError>(usage_to_input_error(bits_overflow_error()))
                    && final(out_quintets)@ == old(out_quintets)@
            } else if old(out_quintets)@.len() != n5 {
                r == Err::<(), InputError>(usage_to_input_error(output_buffer_doesnt_match_bits_error()))
                    && final(out_quintets)@ == old(out_quintets)@
            } else if bits == 0 {
                r == Ok::<(), InputError>(()) && final(out_quintets)@ == old(out_quintets)@
            } else {
                match octets_error(o, live_bits(bits as nat, 8)) {
                    Option::Some(e) => r == Err::<(), InputError>(e),
                    Option::None => r == Ok::<(), InputError>(()) && final(out_quintets)@
                        == encoded_quintets(o, bits as nat),
                }
            }
        }),
{
    let n8 = match required_octets_buffer_len(bits) {
        Ok(n) => n,
        Err(e) => {
            return Err(e.into_input_error());
        },
    };
    if in_octets.len() != n8 {
        return Err(input_buffer_doesnt_match_bits().into_input_error());
    }
    let n5 = match required_quintets_buffer_len(bits) {
        Ok(n) => n,
        Err(e) => {
            return Err(e.into_input_error());
        },
    };
    if out_quintets.len() != n5 {
        return Err(output_buffer_doesnt_match_bits().into_input_error());
    }
    let last_octet_bits = match calc_last_octet_bits(bits) {
        Some(x) => x,
        None => {
            return Ok(());
        },
    };
    run_octets_to_quintets(in_octets, out_quintets, last_octet_bits, Ghost(bits as nat))
}

/// Encode a buffer of octets (bytes) to a buffer of characters.
///
/// This is the low-level equivalent of [`encode`]: it is given its output
/// buffer rather than appending to a growable string. It is equivalent to
/// calling [`octets_to_quintets`] and then mapping every quintet through
/// [`quintet_to_character`].
///
/// The length of `in_octets` must match the value returned by
/// [`required_octets_buffer_len`] and the length of `out_characters` must
/// match the value returned by [`required_quintets_buffer_len`]. On failure
/// the output buffer may hold partially written data that must not be
/// trusted.
pub fn encode_slices(in_octets: &[u8], out_characters: &mut Vec<u8>, bits: u64) -> (r: Result<
    (),
    InputError,
>)
    ensures
        final(out_characters)@.len() == old(out_characters)@.len(),
        ({
            let o = in_octets@;
            let n8 = required_len(bits as nat, 8);
            let n5 = required_len(bits as nat, 5);
            if n8 > usize::MAX {
                r == Err::<(), InputError>(usage_to_input_error(bits_overflow_error()))
                    && final(out_characters)@ == old(out_characters)@
            } else if o.len() != n8 {
                r == Err::<(), InputError>(usage_to_input_error(input_buffer_doesnt_match_bits_error()))
                    && final(out_characters)@ == old(out_characters)@
            } else if n5 > usize::MAX {
                r == Err::<(), InputError>(usage_to_input_error(bits_overflow_error()))
                    && final(out_characters)@ == old(out_characters)@
            } else if old(out_characters)@.len() != n5 {
                r == Err::<(), InputError>(usage_to_input_error(output_buffer_doesnt_match_bits_error()))
                    && final(out_characters)@ == old(out_characters)@
            } else if bits == 0 {
                r == Ok::<(), InputError>(()) && final(out_characters)@ == old(out_characters)@
            } else {
                match octets_error(o, live_bits(bits as nat, 8)) {
                    Option::Some(e) => r == Err::<(), InputError>(e),
                    Option::None => r == Ok::<(), InputError>(()) && final(out_characters)@
                        == chars_of_quintets(encoded_quintets(o, bits as nat)),
                }
            }
        }),
{
    let n8 = match required_octets_buffer_len(bits) {
        Ok(n) => n,
        Err(e) => {
            return Err(e.into_input_error());
        },
    };
    if in_octets.len() != n8 {
        return Err(input_buffer_doesnt_match_bits().into_input_error());
    }
    let n5 = match required_quintets_buffer_len(bits) {
        Ok(n) => n,
        Err(e) => {
            return Err(e.into_input_error());
        },
    };
    if out_characters.len() != n5 {
        return Err(output_buffer_doesnt_match_bits().into_input_error());
    }
    let last_octet_bits = match calc_last_octet_bits(bits) {
        Some(x) => x,
        None => {
            return Ok(());
        },
    };
    match run_octets_to_quintets(in_octets, out_characters, last_octet_bits, Ghost(bits as nat)) {
        Ok(()) => {},
        Err(e) => {
            return Err(e);
        },
    }
    let ghost eq = encoded_quintets(in_octets@, bits as nat);
    proof {
        lemma_sym_seq_of_val(
            payload(in_octets@, 8, bits as nat) * pow2(pad_bits(bits as nat, 5)),
            required_len(bits as nat, 5),
            5,
        );
        lemma2_to64();
    }
    let mut k: usize = 0;
    while k < n5
        invariant
            eq == encoded_quintets(in_octets@, bits as nat),
            n5 == eq.len(),
            out_characters@.len() == n5,
            k <= n5,
            syms_in_range(eq, 5),
            pow2(5) == 32,
            forall|j: int|
                0 <= j < k ==> out_characters@[j] == spec_quintet_to_character(#[trigger] eq[j]),
            forall|j: int| k <= j < n5 ==> (#[trigger] out_characters@[j]) == eq[j],
        decreases n5 - k,
    {
        let v = out_characters[k];
        match quintet_to_character(v) {
            Ok(c) => {
                out_characters.set(k, c);
            },
            Err(e) => {
                return Err(e.into_input_error());
            },
        }
        k = k + 1;
    }
    proof {
        assert(out_characters@ =~= chars_of_quintets(eq));
    }
    Ok(())
}

/// Encode a slice of octets (bytes) to a [`String`].
///
/// On success the encoded characters are appended to `output`; on any error
/// `output` is left unchanged. The length of `input` must match the value
/// returned by [`required_octets_buffer_len`].
pub fn encode(input: &[u8], output: &mut String, bits: u64) -> (r: Result<(), InputError>)
    ensures
        ({
            let o = input@;
            let n8 = required_len(bits as nat, 8);
            let n5 = required_len(bits as nat, 5);
            if n8 > usize::MAX {
                r == Err::<(), InputError>(usage_to_input_error(bits_overflow_error()))
                    && final(output)@ == old(output)@
            } else if o.len() != n8 {
                r == Err::<(), InputError>(usage_to_input_error(input_buffer_doesnt_match_bits_error()))
                    && final(output)@ == old(output)@
            } else if bits == 0 {
                r == Ok::<(), InputError>(()) && final(output)@ == old(output)@
            } else if n5 > usize::MAX {
                r == Err::<(), InputError>(usage_to_input_error(bits_overflow_error()))
                    && final(output)@ == old(output)@
            } else {
                match octets_error(o, live_bits(bits as nat, 8)) {
                    Option::Some(e) => r == Err::<(), InputError>(e) && final(output)@ == old(
                        output,
                    )@,
                    Option::None => r == Ok::<(), InputError>(()) && final(output)@ == old(output)@
                        + ascii_chars(chars_of_quintets(encoded_quintets(o, bits as nat))),
                }
            }
        }),
{
    let n8 = match required_octets_buffer_len(bits) {
        Ok(n) => n,
        Err(e) => {
            return Err(e.into_input_error());
        },
    };
    if input.len() != n8 {
        return Err(input_buffer_doesnt_match_bits().into_input_error());
    }
    let last_octet_bits = match calc_last_octet_bits(bits) {
        Some(x) => x,
        None => {
            return Ok(());
        },
    };
    let n5 = match required_quintets_buffer_len(bits) {
        Ok(n) => n,
        Err(e) => {
            return Err(e.into_input_error());
        },
    };
    let mut tmp: Vec<u8> = Vec::new();
    let mut z: usize = 0;
    while z < n5
        invariant
            tmp@.len() == z,
            z <= n5,
        decreases n5 - z,
    {
        tmp.push(0u8);
        z = z + 1;
    }
    match run_octets_to_quintets(input, &mut tmp, last_octet_bits, Ghost(bits as nat)) {
        Ok(()) => {},
        Err(e) => {
            return Err(e);
        },
    }
    let ghost eq = encoded_quintets(input@, bits as nat);
    proof {
        lemma_sym_seq_of_val(
            payload(input@, 8, bits as nat) * pow2(pad_bits(bits as nat, 5)),
            required_len(bits as nat, 5),
            5,
        );
        lemma2_to64();
        assert(eq.take(0int) =~= Seq::<u8>::empty());
        assert(ascii_chars(chars_of_quintets(eq.take(0int))) =~= Seq::<char>::empty());
        assert(output@ == old(output)@ + ascii_chars(chars_of_quintets(eq.take(0int))));
    }
    let mut k: usize = 0;
    while k < n5
        invariant
            eq == encoded_quintets(input@, bits as nat),
            n5 == eq.len(),
            tmp@ == eq,
            k <= n5,
            syms_in_range(eq, 5),
            pow2(5) == 32,
            output@ == old(output)@ + ascii_chars(chars_of_quintets(eq.take(k as int))),
        decreases n5 - k,
    {
        let v = tmp[k];
        match quintet_to_character(v) {
            Ok(c) => {
                push_ascii_character(output, c);
                proof {
                    assert(eq.take(k as int + 1) =~= eq.take(k as int).push(eq[k as int]));
                    assert(chars_of_quintets(eq.take(k as int + 1)) =~= chars_of_quintets(
                        eq.take(k as int),
                    ).push(spec_quintet_to_character(eq[k as int])));
                    assert(ascii_chars(chars_of_quintets(eq.take(k as int + 1))) =~= ascii_chars(
                        chars_of_quintets(eq.take(k as int)),
                    ).push(spec_quintet_to_character(eq[k as int]) as char));
                    assert(output@ == old(output)@ + ascii_chars(
                        chars_of_quintets(eq.take(k as int + 1)),
                    ));
                }
            },
            Err(e) => {
                return Err(e.into_input_error());
            },
        }
        k = k + 1;
    }
    proof {
        assert(eq.take(n5 as int) =~= eq);
    }
    Ok(())
}

} // verus!
