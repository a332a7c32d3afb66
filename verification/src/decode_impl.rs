//! Decoding: characters to quintets to octets.
//!
//! [`character_to_quintet`] maps one byte of z-base-32 text to its 5-bit
//! value. [`quintets_to_octets`] regroups a buffer of quintets into octets,
//! and [`decode_slices`] does both steps in one call. [`decode`] is the
//! convenience wrapper that appends the decoded octets to a growable buffer.
//! All of them validate the buffer lengths against the declared bit length
//! and reject input whose bits past that length are not zero.

use vstd::prelude::*;
use vstd::arithmetic::power2::*;
use vstd::slice::slice_index_get;
use vstd::pervasive::VecAdditionalExecFns;
use vstd::string::StringSliceAdditionalSpecFns;
use crate::error::{
    bits_overflow_error, decoding_trailing_nonzero_bits_error, input_buffer_doesnt_match_bits,
    input_buffer_doesnt_match_bits_error, invalid_character, invalid_character_error,
    invalid_quintet_error, output_buffer_doesnt_match_bits, output_buffer_doesnt_match_bits_error,
    usage_to_input_error, InputError,
};
use crate::model::{
    decoded_octets, lemma_final_batch, lemma_live_bits_range, lemma_more_output,
    lemma_required_len_antitone, lemma_stream_conversion, lemma_stream_val_concat,
    lemma_stream_val_head, lemma_sym_seq_of_stream, live_bits, pad_bits, required_len, stream_ok,
    stream_val, syms_in_range, trailing_zero,
};
use crate::stateful_decoder::{
    spec_quintet_trailing_ok, HaveOctets, NeedQuintets, NextOctetResult, ProvideQuintetResult,
};
use crate::util::{required_octets_buffer_len, required_quintets_buffer_len};

verus! {

/// The z-base-32 value of one byte of text: the position of the byte in the
/// alphabet "ybndrfg8ejkmcpqxot1uwisza345h769", accepting either letter case,
/// or nothing for a byte outside the alphabet.
pub open spec fn spec_character_to_quintet(c: u8) -> Option<u8> {
    match c {
        121u8 | 89u8 => Some(0u8),  // 'y' | 'Y'
        98u8 | 66u8 => Some(1u8),  // 'b' | 'B'
        110u8 | 78u8 => Some(2u8),  // 'n' | 'N'
        100u8 | 68u8 => Some(3u8),  // 'd' | 'D'
        114u8 | 82u8 => Some(4u8),  // 'r' | 'R'
        102u8 | 70u8 => Some(5u8),  // 'f' | 'F'
        103u8 | 71u8 => Some(6u8),  // 'g' | 'G'
        56u8 => Some(7u8),  // '8'
        101u8 | 69u8 => Some(8u8),  // 'e' | 'E'
        106u8 | 74u8 => Some(9u8),  // 'j' | 'J'
        107u8 | 75u8 => Some(10u8),  // 'k' | 'K'
        109u8 | 77u8 => Some(11u8),  // 'm' | 'M'
        99u8 | 67u8 => Some(12u8),  // 'c' | 'C'
        112u8 | 80u8 => Some(13u8),  // 'p' | 'P'
        113u8 | 81u8 => Some(14u8),  // 'q' | 'Q'
        120u8 | 88u8 => Some(15u8),  // 'x' | 'X'
        111u8 | 79u8 => Some(16u8),  // 'o' | 'O'
        116u8 | 84u8 => Some(17u8),  // 't' | 'T'
        49u8 => Some(18u8),  // '1'
        117u8 | 85u8 => Some(19u8),  // 'u' | 'U'
        119u8 | 87u8 => Some(20u8),  // 'w' | 'W'
        105u8 | 73u8 => Some(21u8),  // 'i' | 'I'
        115u8 | 83u8 => Some(22u8),  // 's' | 'S'
        122u8 | 90u8 => Some(23u8),  // 'z' | 'Z'
        97u8 | 65u8 => Some(24u8),  // 'a' | 'A'
        51u8 => Some(25u8),  // '3'
        52u8 => Some(26u8),  // '4'
        53u8 => Some(27u8),  // '5'
        104u8 | 72u8 => Some(28u8),  // 'h' | 'H'
        55u8 => Some(29u8),  // '7'
        54u8 => Some(30u8),  // '6'
        57u8 => Some(31u8),  // '9'
        _ => None,
    }
}

/// A recognized character always maps below 32.
pub proof fn lemma_character_quintet_range(c: u8)
    ensures
        spec_character_to_quintet(c) matches Some(q) ==> q <= 31,
{
}

/// The quintet values of a sequence of characters, each of which must be in
/// the alphabet.
pub open spec fn quintets_of_chars(s: Seq<u8>) -> Seq<u8> {
    s.map_values(|c: u8| spec_character_to_quintet(c).unwrap())
}

/// Convert a character code value (such as "y") to its integer value (such
/// as 0). Fails with an input-data error for any byte outside the z-base-32
/// alphabet.
pub fn character_to_quintet(character: u8) -> (r: Result<u8, InputError>)
    ensures
        match spec_character_to_quintet(character) {
            Option::Some(q) => r == Ok::<u8, InputError>(q),
            Option::None => r == Err::<u8, InputError>(invalid_character_error()),
        },
{
    match character {
        121u8 | 89u8 => Ok(0),  // 'y' | 'Y'
        98u8 | 66u8 => Ok(1),  // 'b' | 'B'
        110u8 | 78u8 => Ok(2),  // 'n' | 'N'
        100u8 | 68u8 => Ok(3),  // 'd' | 'D'
        114u8 | 82u8 => Ok(4),  // 'r' | 'R'
        102u8 | 70u8 => Ok(5),  // 'f' | 'F'
        103u8 | 71u8 => Ok(6),  // 'g' | 'G'
        56u8 => Ok(7),  // '8'
        101u8 | 69u8 => Ok(8),  // 'e' | 'E'
        106u8 | 74u8 => Ok(9),  // 'j' | 'J'
        107u8 | 75u8 => Ok(10),  // 'k' | 'K'
        109u8 | 77u8 => Ok(11),  // 'm' | 'M'
        99u8 | 67u8 => Ok(12),  // 'c' | 'C'
        112u8 | 80u8 => Ok(13),  // 'p' | 'P'
        113u8 | 81u8 => Ok(14),  // 'q' | 'Q'
        120u8 | 88u8 => Ok(15),  // 'x' | 'X'
        111u8 | 79u8 => Ok(16),  // 'o' | 'O'
        116u8 | 84u8 => Ok(17),  // 't' | 'T'
        49u8 => Ok(18),  // '1'
        117u8 | 85u8 => Ok(19),  // 'u' | 'U'
        119u8 | 87u8 => Ok(20),  // 'w' | 'W'
        105u8 | 73u8 => Ok(21),  // 'i' | 'I'
        115u8 | 83u8 => Ok(22),  // 's' | 'S'
        122u8 | 90u8 => Ok(23),  // 'z' | 'Z'
        97u8 | 65u8 => Ok(24),  // 'a' | 'A'
        51u8 => Ok(25),  // '3'
        52u8 => Ok(26),  // '4'
        53u8 => Ok(27),  // '5'
        104u8 | 72u8 => Ok(28),  // 'h' | 'H'
        55u8 => Ok(29),  // '7'
        54u8 => Ok(30),  // '6'
        57u8 => Ok(31),  // '9'
        _ => Err(invalid_character()),
    }
}

/// One quintet of decode input passes its checks: in range, and, if it is the
/// final quintet, zero past the live bits.
pub open spec fn quintet_sym_ok(q: u8, is_last: bool, live: nat) -> bool {
    q <= 31 && (is_last ==> spec_quintet_trailing_ok(live, q))
}

/// The first error a left-to-right scan of decode-input quintets reports:
/// an out-of-range quintet, or nonzero trailing bits in the final one.
pub open spec fn quintets_error(s: Seq<u8>, live: nat) -> Option<InputError>
    decreases s.len(),
{
    if s.len() == 0 {
        None
    } else if s[0] > 31 {
        Some(usage_to_input_error(invalid_quintet_error()))
    } else if s.len() == 1 && !spec_quintet_trailing_ok(live, s[0]) {
        Some(decoding_trailing_nonzero_bits_error())
    } else {
        quintets_error(s.skip(1), live)
    }
}

/// The first error a left-to-right scan of decode-input characters reports:
/// a byte outside the alphabet, or nonzero trailing bits in the final
/// quintet.
pub open spec fn chars_error(s: Seq<u8>, live: nat) -> Option<InputError>
    decreases s.len(),
{
    if s.len() == 0 {
        None
    } else if spec_character_to_quintet(s[0]) is None {
        Some(invalid_character_error())
    } else if s.len() == 1 && !spec_quintet_trailing_ok(live, spec_character_to_quintet(s[0]).unwrap()) {
        Some(decoding_trailing_nonzero_bits_error())
    } else {
        chars_error(s.skip(1), live)
    }
}

/// Scanning past a prefix of passing quintets does not change the reported
/// error.
pub proof fn lemma_quintets_error_skip(s: Seq<u8>, live: nat, i: int)
    requires
        0 <= i <= s.len(),
        forall|j: int| 0 <= j < i ==> quintet_sym_ok(s[j], j == s.len() - 1, live),
    ensures
        quintets_error(s, live) == quintets_error(s.skip(i), live),
    decreases i,
{
    if i == 0 {
        assert(s.skip(0) =~= s);
    } else {
        lemma_quintets_error_skip(s, live, i - 1);
        let t = s.skip(i - 1);
        assert(t[0] == s[i - 1]);
        assert(quintet_sym_ok(s[i - 1], i - 1 == s.len() - 1, live));
        assert(t.len() == 1 <==> i - 1 == s.len() - 1);
        assert(t.skip(1) =~= s.skip(i));
        assert(quintets_error(t, live) == quintets_error(t.skip(1), live));
    }
}

/// Decoding rejects trailing garbage: any quintet stream of in-range values
/// whose final quintet carries a nonzero bit past the declared live count is
/// reported as trailing nonzero bits, whatever the other quintets hold.
pub proof fn lemma_trailing_bits_rejected(s: Seq<u8>, live: nat)
    requires
        s.len() > 0,
        forall|j: int| 0 <= j < s.len() ==> (#[trigger] s[j]) <= 31,
        !spec_quintet_trailing_ok(live, s.last()),
    ensures
        quintets_error(s, live) == Some(decoding_trailing_nonzero_bits_error()),
{
    lemma_quintets_error_skip(s, live, s.len() - 1);
    let t = s.skip(s.len() - 1);
    assert(t.len() == 1);
    assert(t[0] == s.last());
}

/// Scanning past a prefix of recognized characters does not change the
/// reported error.
pub proof fn lemma_chars_error_skip(s: Seq<u8>, live: nat, i: int)
    requires
        0 <= i <= s.len(),
        forall|j: int|
            0 <= j < i ==> spec_character_to_quintet(#[trigger] s[j]) is Some && (j == s.len() - 1
                ==> spec_quintet_trailing_ok(live, spec_character_to_quintet(s[j]).unwrap())),
    ensures
        chars_error(s, live) == chars_error(s.skip(i), live),
    decreases i,
{
    if i == 0 {
        assert(s.skip(0) =~= s);
    } else {
        lemma_chars_error_skip(s, live, i - 1);
        let t = s.skip(i - 1);
        assert(t[0] == s[i - 1]);
        assert(t.len() == 1 <==> i - 1 == s.len() - 1);
        assert(t.skip(1) =~= s.skip(i));
        assert(chars_error(t, live) == chars_error(t.skip(1), live));
    }
}

/// On fully recognized characters, the character scan reports exactly what
/// the quintet scan reports of the mapped values.
pub proof fn lemma_chars_error_to_quintets(s: Seq<u8>, live: nat)
    requires
        forall|j: int| 0 <= j < s.len() ==> spec_character_to_quintet(#[trigger] s[j]) is Some,
    ensures
        chars_error(s, live) == quintets_error(quintets_of_chars(s), live),
    decreases s.len(),
{
    let m = quintets_of_chars(s);
    assert(m.len() == s.len());
    if s.len() > 0 {
        lemma_character_quintet_range(s[0]);
        assert(m[0] == spec_character_to_quintet(s[0]).unwrap());
        assert(m[0] <= 31);
        lemma_chars_error_to_quintets(s.skip(1), live);
        assert(quintets_of_chars(s.skip(1)) =~= m.skip(1));
    }
}

/// Determine if the last quintet is valid, given the number of bits to decode
pub fn is_last_quintet_valid(bits: u64, quintet: u8) -> (r: bool)
    ensures
        r == (bits > 0 && quintet <= 31 && spec_quintet_trailing_ok(
            live_bits(bits as nat, 5),
            quintet,
        )),
{
    if let Some(last_quintet_bits) = calc_last_quintet_bits(bits) {
        quintet <= 31 && crate::stateful_decoder::quintet_has_valid_trailing_bits(
            last_quintet_bits,
            quintet,
        )
    } else {
        false
    }
}

/// The number of live bits in the final quintet, or nothing for an empty
/// payload.
fn calc_last_quintet_bits(bits: u64) -> (r: Option<u8>)
    ensures
        bits == 0 ==> r is None,
        bits > 0 ==> (r matches Some(x) && x as nat == live_bits(bits as nat, 5) && 1 <= x <= 5),
{
    if bits == 0 {
        None
    } else {
        match bits % 5 {
            0 => Some(5),
            x => Some(x as u8),
        }
    }
}

/// The two phases of a running quintets-to-octets conversion.
enum QuintetsToOctetsState {
    Accumulating(NeedQuintets),
    Draining(HaveOctets),
}

impl QuintetsToOctetsState {
    /// Draining ranks above accumulating: every transition either consumes
    /// input, produces output, or falls from draining back to accumulating.
    spec fn rank(self) -> int {
        match self {
            QuintetsToOctetsState::Accumulating(_) => 0,
            QuintetsToOctetsState::Draining(_) => 1,
        }
    }
}

/// Drives the state machine over a full quintet buffer, writing every
/// regrouped octet into the output buffer.
fn run_quintets_to_octets(
    in_quintets: &[u8],
    out_octets: &mut Vec<u8>,
    last_quintet_bits: u8,
    Ghost(bits): Ghost<nat>,
) -> (r: Result<(), InputError>)
    requires
        bits > 0,
        in_quintets@.len() == required_len(bits, 5),
        old(out_octets)@.len() == required_len(bits, 8),
        last_quintet_bits as nat == live_bits(bits, 5),
    ensures
        final(out_octets)@.len() == old(out_octets)@.len(),
        match quintets_error(in_quintets@, live_bits(bits, 5)) {
            Option::Some(e) => r == Err::<(), InputError>(e),
            Option::None => r == Ok::<(), InputError>(()) && final(out_octets)@ == decoded_octets(
                in_quintets@,
                bits,
            ),
        },
{
    let ghost q = in_quintets@;
    let ghost lqb = live_bits(bits, 5);
    proof {
        lemma_live_bits_range(bits, 5);
        lemma2_to64();
    }
    let n = in_quintets.len();
    let n_out = out_octets.len();
    let mut in_i: usize = 0;
    let mut out_i: usize = 0;
    let ghost mut batches: nat = 0;
    let mut state = QuintetsToOctetsState::Accumulating(NeedQuintets::new(last_quintet_bits));
    while out_i < n_out
        invariant
            q == in_quintets@,
            n == q.len(),
            n == required_len(bits, 5),
            n_out == required_len(bits, 8),
            out_octets@.len() == n_out,
            old(out_octets)@.len() == n_out,
            bits > 0,
            lqb == live_bits(bits, 5),
            1 <= lqb <= 5,
            last_quintet_bits as nat == lqb,
            in_i <= n,
            out_i <= n_out,
            forall|j: int| 0 <= j < in_i ==> quintet_sym_ok(#[trigger] q[j], j == n - 1, lqb),
            match state {
                QuintetsToOctetsState::Accumulating(nq) => {
                    &&& nq.wf()
                    &&& nq.last_live() == lqb
                    &&& nq.quintets().len() < 8
                    &&& in_i == 8 * batches + nq.quintets().len()
                    &&& nq.quintets() == q.subrange((8 * batches) as int, in_i as int)
                    &&& out_i == 5 * batches
                    &&& in_i < n
                    &&& stream_val(out_octets@.take(out_i as int), 8) == stream_val(
                        q.take((8 * batches) as int),
                        5,
                    )
                },
                QuintetsToOctetsState::Draining(ho) => {
                    &&& ho.wf()
                    &&& ho.last_live() == lqb
                    &&& ho.is_complete() == (in_i == n)
                    &&& if ho.is_complete() {
                        &&& out_i + ho.pending().len() == n_out
                        &&& (stream_val(out_octets@.take(out_i as int), 8) * pow2(
                            8 * ho.pending().len(),
                        ) + stream_val(ho.pending(), 8)) * pow2(pad_bits(bits, 5)) == stream_val(
                            q,
                            5,
                        ) * pow2(pad_bits(bits, 8))
                    } else {
                        &&& in_i == 8 * batches
                        &&& in_i < n
                        &&& out_i + ho.pending().len() == 5 * batches
                        &&& stream_val(out_octets@.take(out_i as int), 8) * pow2(
                            8 * ho.pending().len(),
                        ) + stream_val(ho.pending(), 8) == stream_val(q.take(in_i as int), 5)
                    }
                },
            },
        decreases n - in_i, n_out - out_i, state.rank(),
    {
        state = match state {
            QuintetsToOctetsState::Accumulating(nq) => {
                let quintet = *slice_index_get(in_quintets, in_i);
                let last_quintet = in_i + 1 == n;
                in_i = in_i + 1;
                match nq.provide_quintet(quintet, last_quintet) {
                    Err(e) => {
                        proof {
                            lemma_quintets_error_skip(q, lqb, (in_i - 1) as int);
                            let t = q.skip((in_i - 1) as int);
                            assert(t[0] == q[in_i - 1]);
                            assert(t.len() == 1 <==> last_quintet);
                        }
                        return Err(e);
                    },
                    Ok(pr) => {
                        proof {
                            assert(q[in_i - 1] == in_quintets@[in_i - 1]);
                            assert(quintet_sym_ok(q[in_i - 1], in_i - 1 == n - 1, lqb));
                            assert(forall|j: int|
                                0 <= j < in_i ==> quintet_sym_ok(#[trigger] q[j], j == n - 1, lqb));
                        }
                        match pr {
                            ProvideQuintetResult::NeedQuintets(nq2) => {
                                proof {
                                    assert(q.subrange((8 * batches) as int, in_i as int) =~= q.subrange(
                                        (8 * batches) as int,
                                        (in_i - 1) as int,
                                    ).push(q[in_i - 1]));
                                }
                                QuintetsToOctetsState::Accumulating(nq2)
                            },
                            ProvideQuintetResult::HaveOctets(ho) => {
                                proof {
                                    let m = nq.quintets().len() + 1;
                                    let batch = q.subrange((8 * batches) as int, in_i as int);
                                    assert(batch =~= nq.quintets().push(q[in_i - 1]));
                                    if last_quintet {
                                        assert(batch =~= q.skip((8 * batches) as int));
                                        assert(q.last() == q[in_i - 1]);
                                        assert(trailing_zero(q.last(), 5, lqb));
                                        assert(syms_in_range(q, 5)) by {
                                            assert(forall|j: int|
                                                0 <= j < q.len() ==> (#[trigger] q[j]) < pow2(5)) by {
                                                lemma2_to64();
                                            }
                                        }
                                        lemma_final_batch(
                                            q,
                                            bits,
                                            5,
                                            8,
                                            batches,
                                            m,
                                            ho.pending().len(),
                                            stream_val(ho.pending(), 8),
                                        );
                                    } else {
                                        // a full batch: eight more quintets in, five octets pending
                                        assert(m == 8);
                                        assert(ho.pending().len() == 5);
                                        assert(q.take(in_i as int) =~= q.take((8 * batches) as int)
                                            + batch);
                                        lemma_stream_val_concat(
                                            q.take((8 * batches) as int),
                                            batch,
                                            5,
                                        );
                                        lemma2_to64();
                                        assert(stream_val(ho.pending(), 8) == stream_val(batch, 5))
                                            by (nonlinear_arith)
                                            requires
                                                stream_val(ho.pending(), 8) * pow2(0nat) == stream_val(
                                                    batch,
                                                    5,
                                                ) * pow2(0nat),
                                                pow2(0nat) == 1,
                                        ;
                                        assert(5 * batch.len() == 40);
                                        assert(stream_val(q.take(in_i as int), 5) == stream_val(
                                            q.take((8 * batches) as int),
                                            5,
                                        ) * pow2(40) + stream_val(batch, 5));
                                        batches = batches + 1;
                                        assert(stream_val(out_octets@.take(out_i as int), 8) * pow2(
                                            8 * ho.pending().len(),
                                        ) + stream_val(ho.pending(), 8) == stream_val(
                                            q.take(in_i as int),
                                            5,
                                        ));
                                    }
                                }
                                QuintetsToOctetsState::Draining(ho)
                            },
                        }
                    },
                }
            },
            QuintetsToOctetsState::Draining(ho) => {
                match ho.next_octet() {
                    NextOctetResult::Octet(o, ho2) => {
                        let ghost out_pre = out_octets@;
                        out_octets.set(out_i, o);
                        out_i = out_i + 1;
                        proof {
                            let pend = ho.pending();
                            let r_len = pend.len();
                            let outv = stream_val(out_pre.take((out_i - 1) as int), 8);
                            assert(out_octets@.take(out_i as int) =~= out_pre.take(
                                (out_i - 1) as int,
                            ).push(o));
                            let tk = out_octets@.take(out_i as int);
                            assert(tk.drop_last() =~= out_pre.take((out_i - 1) as int));
                            assert(stream_val(tk, 8) == outv * pow2(8) + o);
                            lemma_stream_val_head(pend, 8);
                            // (outv * 256 + o) * 2^(8 (r-1)) + rest == outv * 2^(8 r) + pend value
                            lemma_pow2_adds(8, (8 * (r_len - 1)) as nat);
                            assert((outv * pow2(8) + o) * pow2((8 * (r_len - 1)) as nat) == outv * (
                            pow2(8) * pow2((8 * (r_len - 1)) as nat)) + o * pow2(
                                (8 * (r_len - 1)) as nat,
                            )) by (nonlinear_arith);
                            assert(8 * r_len == 8 + 8 * ((r_len - 1) as nat)) by (nonlinear_arith)
                                requires
                                    r_len >= 1,
                            ;
                            assert(pend.skip(1).len() == r_len - 1);
                            assert(8 * pend.skip(1).len() == 8 * ((r_len - 1) as nat));
                            assert(stream_val(tk, 8) * pow2(8 * pend.skip(1).len()) + stream_val(
                                pend.skip(1),
                                8,
                            ) == outv * pow2(8 * r_len) + stream_val(pend, 8));
                            if ho.is_complete() {
                                assert((stream_val(tk, 8) * pow2(8 * pend.skip(1).len())
                                    + stream_val(pend.skip(1), 8)) * pow2(pad_bits(bits, 5))
                                    == stream_val(q, 5) * pow2(pad_bits(bits, 8)));
                            }
                        }
                        QuintetsToOctetsState::Draining(ho2)
                    },
                    NextOctetResult::NeedQuintets(nq2) => {
                        proof {
                            lemma2_to64();
                            assert(stream_val(ho.pending(), 8) == 0);
                            let outv = stream_val(out_octets@.take(out_i as int), 8);
                            assert(outv * pow2(8 * ho.pending().len()) == outv)
                                by (nonlinear_arith)
                                requires
                                    pow2(8 * ho.pending().len()) == 1,
                            ;
                            assert(nq2.quintets() =~= q.subrange((8 * batches) as int, in_i as int));
                        }
                        QuintetsToOctetsState::Accumulating(nq2)
                    },
                    NextOctetResult::Complete => {
                        proof {
                            assert(false);
                        }
                        vstd::pervasive::unreached()
                    },
                }
            },
        };
    }
    proof {
        match state {
            QuintetsToOctetsState::Accumulating(nq) => {
                lemma_more_output(bits, 5, 8, batches);
                assert(false);
            },
            QuintetsToOctetsState::Draining(ho) => {
                if !ho.is_complete() {
                    lemma_more_output(bits, 5, 8, batches);
                    assert(false);
                } else if ho.pending().len() > 0 {
                    assert(false);
                } else {
                    lemma2_to64();
                    assert(stream_val(ho.pending(), 8) == 0);
                    let outv = stream_val(out_octets@.take(out_i as int), 8);
                    assert(out_octets@.take(out_i as int) =~= out_octets@);
                    assert(pow2(0) == 1);
                    assert(8 * ho.pending().len() == 0);
                    assert((outv * pow2(8 * ho.pending().len()) + stream_val(ho.pending(), 8))
                        * pow2(pad_bits(bits, 5)) == stream_val(q, 5) * pow2(pad_bits(bits, 8)));
                    assert(outv * pow2(8 * ho.pending().len()) == outv) by (nonlinear_arith)
                        requires
                            pow2(8 * ho.pending().len()) == 1,
                    ;
                    assert(outv * pow2(pad_bits(bits, 5)) == stream_val(q, 5) * pow2(
                        pad_bits(bits, 8),
                    ));
                    assert(syms_in_range(q, 5)) by {
                        assert(forall|j: int| 0 <= j < q.len() ==> (#[trigger] q[j]) < pow2(5)) by {
                            lemma2_to64();
                        }
                    }
                    assert(trailing_zero(q.last(), 5, lqb)) by {
                        assert(quintet_sym_ok(q[n - 1], true, lqb));
                    }
                    assert(stream_ok(q, 5, bits));
                    lemma_stream_conversion(q, stream_val(out_octets@, 8), bits, 5, 8);
                    assert(syms_in_range(out_octets@, 8)) by {
                        assert(forall|j: int|
                            0 <= j < out_octets@.len() ==> (#[trigger] out_octets@[j]) < pow2(
                                8,
                            )) by {
                            lemma2_to64();
                        }
                    }
                    lemma_sym_seq_of_stream(out_octets@, 8);
                    assert(out_octets@ == decoded_octets(q, bits));
                    lemma_quintets_error_skip(q, lqb, n as int);
                    assert(q.skip(n as int).len() == 0);
                }
            },
        }
    }
    Ok(())
}

/// Convert a buffer of quintet integer values (integers in the range 0-31)
/// into a buffer of octet (byte) values.
///
/// The length of `in_quintets` must match the value returned by
/// [`required_quintets_buffer_len`] and the length of `out_octets` must match
/// the value returned by [`required_octets_buffer_len`]. On failure the
/// output buffer may hold partially written data that must not be trusted.
pub fn quintets_to_octets(in_quintets: &[u8], out_octets: &mut Vec<u8>, bits: u64) -> (r: Result<
    (),
    InputError,
>)
    ensures
        final(out_octets)@.len() == old(out_octets)@.len(),
        ({
            let q = in_quintets@;
            let n5 = required_len(bits as nat, 5);
            let n8 = required_len(bits as nat, 8);
            if n5 > usize::MAX {
                r == Err::<(), InputError>(usage_to_input_error(bits_overflow_error()))
                    && final(out_octets)@ == old(out_octets)@
            } else if q.len() != n5 {
                r == Err::<(), InputError>(usage_to_input_error(input_buffer_doesnt_match_bits_error()))
                    && final(out_octets)@ == old(out_octets)@
            } else if n8 > usize::MAX {
                r == Err::<(), InputError>(usage_to_input_error(bits_overflow_error()))
                    && final(out_octets)@ == old(out_octets)@
            } else if old(out_octets)@.len() != n8 {
                r == Err::<(), InputError>(usage_to_input_error(output_buffer_doesnt_match_bits_error()))
                    && final(out_octets)@ == old(out_octets)@
            } else if bits == 0 {
                r == Ok::<(), InputError>(()) && final(out_octets)@ == old(out_octets)@
            } else {
                match quintets_error(q, live_bits(bits as nat, 5)) {
                    Option::Some(e) => r == Err::<(), InputError>(e),
                    Option::None => r == Ok::<(), InputError>(()) && final(out_octets)@
                        == decoded_octets(q, bits as nat),
                }
            }
        }),
{
    let n5 = match required_quintets_buffer_len(bits) {
        Ok(n) => n,
        Err(e) => {
            return Err(e.into_input_error());
        },
    };
    if in_quintets.len() != n5 {
        return Err(input_buffer_doesnt_match_bits().into_input_error());
    }
    let n8 = match required_octets_buffer_len(bits) {
        Ok(n) => n,
        Err(e) => {
            return Err(e.into_input_error());
        },
    };
    if out_octets.len() != n8 {
        return Err(output_buffer_doesnt_match_bits().into_input_error());
    }
    let last_quintet_bits = match calc_last_quintet_bits(bits) {
        Some(x) => x,
        None => {
            return Ok(());
        },
    };
    run_quintets_to_octets(in_quintets, out_octets, last_quintet_bits, Ghost(bits as nat))
}

/// Maps every character of the input to its quintet value, stopping at the
/// first byte outside the alphabet.
fn map_characters(in_characters: &[u8]) -> (r: Result<Vec<u8>, InputError>)
    ensures
        match r {
            Ok(v) => {
                &&& forall|j: int|
                    0 <= j < in_characters@.len() ==> spec_character_to_quintet(
                        #[trigger] in_characters@[j],
                    ) is Some
                &&& v@ == quintets_of_chars(in_characters@)
            },
            Err(e) => {
                &&& e == invalid_character_error()
                &&& forall|live: nat| chars_error(in_characters@, live) == Some(e)
            },
        },
{
    let ghost s = in_characters@;
    let n = in_characters.len();
    let mut quintets: Vec<u8> = Vec::new();
    let mut i: usize = 0;
    while i < n
        invariant
            s == in_characters@,
            n == s.len(),
            i <= n,
            quintets@.len() == i,
            forall|j: int|
                0 <= j < i ==> spec_character_to_quintet(#[trigger] s[j]) is Some && quintets@[j]
                    == spec_character_to_quintet(s[j]).unwrap(),
        decreases n - i,
    {
        match character_to_quintet(*slice_index_get(in_characters, i)) {
            Ok(v) => {
                quintets.push(v);
            },
            Err(e) => {
                proof {
                    assert forall|live: nat| chars_error(s, live) == Some(e) by {
                        lemma_chars_error_skip(s, live, i as int);
                        let t = s.skip(i as int);
                        assert(t[0] == s[i as int]);
                    }
                }
                return Err(e);
            },
        }
        i = i + 1;
    }
    proof {
        assert(quintets@ =~= quintets_of_chars(s));
    }
    Ok(quintets)
}

/// Decode a buffer of characters to a buffer of octets (bytes).
///
/// This is the low-level equivalent of [`decode`]: it is given its output
/// buffer rather than appending to a growable one. It is equivalent to
/// mapping every byte through [`character_to_quintet`] and then calling
/// [`quintets_to_octets`].
///
/// The length of `in_characters` must match the value returned by
/// [`required_quintets_buffer_len`] and the length of `out_octets` must match
/// the value returned by [`required_octets_buffer_len`]. On failure the
/// output buffer may hold partially written data that must not be trusted.
pub fn decode_slices(in_characters: &[u8], out_octets: &mut Vec<u8>, bits: u64) -> (r: Result<
    (),
    InputError,
>)
    ensures
        final(out_octets)@.len() == old(out_octets)@.len(),
        ({
            let ch = in_characters@;
            let n5 = required_len(bits as nat, 5);
            let n8 = required_len(bits as nat, 8);
            if n5 > usize::MAX {
                r == Err::<(), InputError>(usage_to_input_error(bits_overflow_error()))
                    && final(out_octets)@ == old(out_octets)@
            } else if ch.len() != n5 {
                r == Err::<(), InputError>(usage_to_input_error(input_buffer_doesnt_match_bits_error()))
                    && final(out_octets)@ == old(out_octets)@
            } else if n8 > usize::MAX {
                r == Err::<(), InputError>(usage_to_input_error(bits_overflow_error()))
                    && final(out_octets)@ == old(out_octets)@
            } else if old(out_octets)@.len() != n8 {
                r == Err::<(), InputError>(usage_to_input_error(output_buffer_doesnt_match_bits_error()))
                    && final(out_octets)@ == old(out_octets)@
            } else if bits == 0 {
                r == Ok::<(), InputError>(()) && final(out_octets)@ == old(out_octets)@
            } else {
                match chars_error(ch, live_bits(bits as nat, 5)) {
                    Option::Some(e) => r == Err::<(), InputError>(e),
                    Option::None => r == Ok::<(), InputError>(()) && final(out_octets)@
                        == decoded_octets(quintets_of_chars(ch), bits as nat),
                }
            }
        }),
{
    let n5 = match required_quintets_buffer_len(bits) {
        Ok(n) => n,
        Err(e) => {
            return Err(e.into_input_error());
        },
    };
    if in_characters.len() != n5 {
        return Err(input_buffer_doesnt_match_bits().into_input_error());
    }
    let n8 = match required_octets_buffer_len(bits) {
        Ok(n) => n,
        Err(e) => {
            return Err(e.into_input_error());
        },
    };
    if out_octets.len() != n8 {
        return Err(output_buffer_doesnt_match_bits().into_input_error());
    }
    let last_quintet_bits = match calc_last_quintet_bits(bits) {
        Some(x) => x,
        None => {
            return Ok(());
        },
    };
    let quintets = match map_characters(in_characters) {
        Ok(v) => v,
        Err(e) => {
            return Err(e);
        },
    };
    proof {
        lemma_chars_error_to_quintets(in_characters@, live_bits(bits as nat, 5));
    }
    run_quintets_to_octets(
        quintets.as_slice(),
        out_octets,
        last_quintet_bits,
        Ghost(bits as nat),
    )
}

/// Decode a slice of characters to a [`Vec`] of octets (bytes).
///
/// On success the decoded octets are appended to `output`; on any error
/// `output` is left unchanged. The length of `input` in bytes must match the
/// value returned by [`required_quintets_buffer_len`].
pub fn decode(input: &str, output: &mut Vec<u8>, bits: u64) -> (r: Result<(), InputError>)
    ensures
        ({
            let ch = input.spec_bytes();
            let n5 = required_len(bits as nat, 5);
            if n5 > usize::MAX {
                r == Err::<(), InputError>(usage_to_input_error(bits_overflow_error()))
                    && final(output)@ == old(output)@
            } else if ch.len() != n5 {
                r == Err::<(), InputError>(usage_to_input_error(input_buffer_doesnt_match_bits_error()))
                    && final(output)@ == old(output)@
            } else if bits == 0 {
                r == Ok::<(), InputError>(()) && final(output)@ == old(output)@
            } else {
                match chars_error(ch, live_bits(bits as nat, 5)) {
                    Option::Some(e) => r == Err::<(), InputError>(e) && final(output)@ == old(
                        output,
                    )@,
                    Option::None => r == Ok::<(), InputError>(()) && final(output)@ == old(output)@
                        + decoded_octets(quintets_of_chars(ch), bits as nat),
                }
            }
        }),
{
    let n5 = match required_quintets_buffer_len(bits) {
        Ok(n) => n,
        Err(e) => {
            return Err(e.into_input_error());
        },
    };
    let in_bytes = input.as_bytes();
    if in_bytes.len() != n5 {
        return Err(input_buffer_doesnt_match_bits().into_input_error());
    }
    let last_quintet_bits = match calc_last_quintet_bits(bits) {
        Some(x) => x,
        None => {
            return Ok(());
        },
    };
    let n8 = match required_octets_buffer_len(bits) {
        Ok(n) => n,
        Err(e) => {
            proof {
                lemma_required_len_antitone(bits as nat, 5, 8);
            }
            return Err(e.into_input_error());
        },
    };
    let quintets = match map_characters(in_bytes) {
        Ok(v) => v,
        Err(e) => {
            return Err(e);
        },
    };
    proof {
        lemma_chars_error_to_quintets(in_bytes@, live_bits(bits as nat, 5));
    }
    let mut tmp: Vec<u8> = Vec::new();
    let mut k: usize = 0;
    while k < n8
        invariant
            tmp@.len() == k,
            k <= n8,
        decreases n8 - k,
    {
        tmp.push(0u8);
        k = k + 1;
    }
    match run_quintets_to_octets(
        quintets.as_slice(),
        &mut tmp,
        last_quintet_bits,
        Ghost(bits as nat),
    ) {
        Ok(()) => {
            output.append(&mut tmp);
            Ok(())
        },
        Err(e) => Err(e),
    }
}

} // verus!
