//! The quintets-to-octets bit-regrouping state machine: the decoding
//! direction.
//!
//! A conversion alternates between two states. [`NeedQuintets`] collects up
//! to eight quintets (40 bits, the least common multiple of the two symbol
//! widths) into the top of a 64-bit register. When the register fills, or the
//! final quintet of the conversion arrives, the machine switches to
//! [`HaveOctets`], which yields the regrouped octets one at a time, most
//! significant first. Each transition consumes the old state and produces the
//! next one.

use vstd::prelude::*;
use vstd::arithmetic::power2::*;
use vstd::arithmetic::div_mod::*;
use vstd::bits::*;
use crate::error::{
    decoding_trailing_nonzero_bits, decoding_trailing_nonzero_bits_error, invalid_quintet,
    invalid_quintet_error, usage_to_input_error, InputError,
};
use crate::model::{
    lemma_ceil_div, lemma_div_exact, lemma_drain_step, lemma_pow2_divides_smaller,
    lemma_reg_insert, lemma_reg_seq_val, lemma_required_len_bounds, lemma_stream_val_trailing,
    reg_seq, required_len, stream_val, syms_in_range, trailing_zero,
};

verus! {

/// Whether a quintet that carries only `live` meaningful bits has all its
/// remaining bits zero. More than five live bits means every bit may be set.
pub open spec fn spec_quintet_trailing_ok(live: nat, quintet: u8) -> bool {
    trailing_zero(
        quintet,
        5,
        if live > 5 {
            5
        } else {
            live
        },
    )
}

/// Reports whether `quintet` is zero in every bit past the first
/// `last_quintet_bits` of its five.
pub fn quintet_has_valid_trailing_bits(last_quintet_bits: u8, quintet: u8) -> (r: bool)
    ensures
        r == spec_quintet_trailing_ok(last_quintet_bits as nat, quintet),
{
    let trailing_bits_mask: u8 = if last_quintet_bits < 8 {
        0x1fu8 >> last_quintet_bits
    } else {
        0u8
    };
    proof {
        lemma2_to64();
        if last_quintet_bits < 5 {
            let lqb = last_quintet_bits;
            lemma_u8_shl_is_mul(1u8, (5 - lqb) as u8);
            assert((quintet & (0x1fu8 >> lqb)) == 0 <==> quintet % (1u8 << ((5 - lqb) as u8)) == 0)
                by (bit_vector)
                requires
                    lqb < 5,
            ;
        } else {
            assert(trailing_bits_mask == 0) by (bit_vector)
                requires
                    trailing_bits_mask == (if last_quintet_bits < 8 {
                        0x1fu8 >> last_quintet_bits
                    } else {
                        0u8
                    }),
                    last_quintet_bits >= 5,
            ;
            assert(quintet & 0 == 0) by (bit_vector);
            assert(quintet as nat % pow2(0) == 0);
        }
    }
    quintet & trailing_bits_mask == 0
}

/// The accumulating state of the decoder: the quintets collected since the
/// last flush, packed most-significant-first into the top of a 40-bit
/// register, and the number of live bits in the final quintet of the whole
/// conversion.
pub struct NeedQuintets {
    quintet_buffer: u64,
    pos: u8,
    last_quintet_bits: u8,
    quintets_gh: Ghost<Seq<u8>>,
}

/// What supplying a quintet produces: either the machine still wants more
/// input, or it has octets ready to drain.
pub enum ProvideQuintetResult {
    NeedQuintets(NeedQuintets),
    HaveOctets(HaveOctets),
}

/// The draining state of the decoder: regrouped octets waiting to be
/// yielded, most significant first, from the top of the register.
pub struct HaveOctets {
    octet_buffer: u64,
    remaining_octets: u8,
    last_quintet_bits: u8,
    completed: bool,
    pending_gh: Ghost<Seq<u8>>,
}

/// What asking for an octet produces: an octet, a fresh accumulating state
/// wanting more quintets, or the end of the conversion.
pub enum NextOctetResult {
    Octet(u8, HaveOctets),
    NeedQuintets(NeedQuintets),
    Complete,
}

impl NeedQuintets {
    /// The quintets accumulated since the last flush.
    pub closed spec fn quintets(self) -> Seq<u8> {
        self.quintets_gh@
    }

    /// The number of live bits in the final quintet of the conversion.
    pub closed spec fn last_live(self) -> nat {
        self.last_quintet_bits as nat
    }

    pub closed spec fn wf(self) -> bool {
        &&& 1 <= self.last_quintet_bits <= 5
        &&& self.quintets_gh@.len() == self.pos
        &&& self.pos < 8
        &&& syms_in_range(self.quintets_gh@, 5)
        &&& self.quintet_buffer as nat == stream_val(self.quintets_gh@, 5) * pow2(
            (40 - 5 * self.pos) as nat,
        )
        &&& (self.quintet_buffer as nat) < pow2(40)
    }

    /// Starts a conversion whose final quintet carries `last_quintet_bits`
    /// live bits.
    pub fn new(last_quintet_bits: u8) -> (r: NeedQuintets)
        requires
            1 <= last_quintet_bits <= 5,
        ensures
            r.wf(),
            r.quintets() == Seq::<u8>::empty(),
            r.last_live() == last_quintet_bits as nat,
    {
        proof {
            lemma_pow2_pos(40);
            assert(stream_val(Seq::<u8>::empty(), 5) == 0);
        }
        NeedQuintets {
            quintet_buffer: 0,
            pos: 0,
            last_quintet_bits,
            quintets_gh: Ghost(Seq::empty()),
        }
    }

    /// Feeds the machine one quintet; `last_quintet` marks the final input
    /// symbol of the whole conversion. A quintet above 31 is rejected, and
    /// the final quintet is rejected if it carries a nonzero bit past the
    /// declared live count. On success the machine either keeps accumulating
    /// or flushes the batch into a draining state holding exactly the octets
    /// the batch's live bits fill.
    pub fn provide_quintet(self, quintet: u8, last_quintet: bool) -> (r: Result<
        ProvideQuintetResult,
        InputError,
    >)
        requires
            self.wf(),
        ensures
            match r {
                Result::Err(e) => {
                    ||| (quintet > 31 && e == usage_to_input_error(invalid_quintet_error()))
                    ||| (quintet <= 31 && last_quintet && !spec_quintet_trailing_ok(
                        self.last_live(),
                        quintet,
                    ) && e == decoding_trailing_nonzero_bits_error())
                },
                Result::Ok(pr) => {
                    &&& quintet <= 31
                    &&& (last_quintet ==> spec_quintet_trailing_ok(self.last_live(), quintet))
                    &&& match pr {
                        ProvideQuintetResult::NeedQuintets(nq) => {
                            &&& !last_quintet
                            &&& self.quintets().len() + 1 < 8
                            &&& nq.wf()
                            &&& nq.quintets() == self.quintets().push(quintet)
                            &&& nq.last_live() == self.last_live()
                        },
                        ProvideQuintetResult::HaveOctets(ho) => {
                            let m = self.quintets().len() + 1;
                            let f = if last_quintet {
                                self.last_live()
                            } else {
                                5
                            };
                            let bb = ((m - 1) * 5 + f) as nat;
                            let c = required_len(bb, 8);
                            &&& (last_quintet || m == 8)
                            &&& ho.wf()
                            &&& ho.last_live() == self.last_live()
                            &&& ho.is_complete() == last_quintet
                            &&& ho.pending().len() == c
                            &&& stream_val(ho.pending(), 8) * pow2((40 - 8 * c) as nat)
                                == stream_val(self.quintets().push(quintet), 5) * pow2(
                                (40 - 5 * m) as nat,
                            )
                        },
                    }
                },
            },
    {
        if quintet > 31 {
            return Err(invalid_quintet().into_input_error());
        }
        if last_quintet && !quintet_has_valid_trailing_bits(self.last_quintet_bits, quintet) {
            return Err(decoding_trailing_nonzero_bits());
        }
        let shift: u64 = 35 - 5 * (self.pos as u64);
        let buffer: u64 = self.quintet_buffer | ((quintet as u64) << shift);
        let pos: u8 = self.pos + 1;
        let ghost qs2 = self.quintets_gh@.push(quintet);
        proof {
            lemma2_to64();
            lemma_pow2_pos((40 - 5 * self.pos) as nat);
            lemma_mod_multiples_basic(
                stream_val(self.quintets_gh@, 5) as int,
                pow2((40 - 5 * self.pos) as nat) as int,
            );
            lemma_reg_insert(self.quintet_buffer, quintet as u64, shift, 5);
            // buffer == stream_val(qs2, 5) * pow2(40 - 5 * pos)
            assert(qs2.drop_last() =~= self.quintets_gh@);
            assert(qs2.last() == quintet);
            let s_old = stream_val(self.quintets_gh@, 5);
            assert(stream_val(qs2, 5) == s_old * pow2(5) + quintet);
            lemma_pow2_adds(5, (35 - 5 * self.pos) as nat);
            assert((s_old * pow2(5) + quintet) * pow2((35 - 5 * self.pos) as nat) == s_old * (pow2(
                5,
            ) * pow2((35 - 5 * self.pos) as nat)) + (quintet as nat) * pow2(
                (35 - 5 * self.pos) as nat,
            )) by (nonlinear_arith);
            assert(buffer as nat == stream_val(qs2, 5) * pow2((40 - 5 * pos) as nat));
            assert(syms_in_range(qs2, 5));
        }
        if pos == 8 || last_quintet {
            let batch_bits: u8 = (pos - 1) * 5 + if last_quintet {
                self.last_quintet_bits
            } else {
                5
            };
            let remaining_octets: u8 = (batch_bits + 7) / 8;
            let ghost pend = reg_seq(buffer as nat, 8, remaining_octets as nat);
            proof {
                let bb = batch_bits as nat;
                let c = remaining_octets as nat;
                lemma_ceil_div(bb, 8);
                assert(c == required_len(bb, 8));
                lemma_required_len_bounds(bb, 8);
                assert(8 * c >= bb);
                assert(8 * c == c * 8) by (nonlinear_arith);
                assert(8 * c <= 44 ==> c <= 5);
                lemma_reg_seq_val(buffer as nat, 8, c);
                // the register's low 40 - bb bits are zero
                let f = if last_quintet {
                    self.last_quintet_bits as nat
                } else {
                    5
                };
                lemma_stream_val_trailing(qs2, 5, f);
                lemma_div_exact(stream_val(qs2, 5), pow2((5 - f) as nat));
                let k = stream_val(qs2, 5) / pow2((5 - f) as nat);
                lemma_pow2_adds((5 - f) as nat, (40 - 5 * pos) as nat);
                assert((k * pow2((5 - f) as nat)) * pow2((40 - 5 * pos) as nat) == k * (pow2(
                    (5 - f) as nat,
                ) * pow2((40 - 5 * pos) as nat))) by (nonlinear_arith);
                assert(buffer as nat == k * pow2((40 - bb) as nat));
                lemma_pow2_pos((40 - bb) as nat);
                lemma_mod_multiples_basic(k as int, pow2((40 - bb) as nat) as int);
                lemma_pow2_divides_smaller(buffer as nat, (40 - 8 * c) as nat, (40 - bb) as nat);
                lemma_div_exact(buffer as nat, pow2((40 - 8 * c) as nat));
                lemma_small_mod(buffer as nat, pow2(40));
                assert(stream_val(pend, 8) * pow2((40 - 8 * c) as nat) == buffer as nat);
            }
            Ok(
                ProvideQuintetResult::HaveOctets(
                    HaveOctets {
                        octet_buffer: buffer,
                        remaining_octets,
                        last_quintet_bits: self.last_quintet_bits,
                        completed: last_quintet,
                        pending_gh: Ghost(pend),
                    },
                ),
            )
        } else {
            Ok(
                ProvideQuintetResult::NeedQuintets(
                    NeedQuintets {
                        quintet_buffer: buffer,
                        pos,
                        last_quintet_bits: self.last_quintet_bits,
                        quintets_gh: Ghost(qs2),
                    },
                ),
            )
        }
    }
}

impl HaveOctets {
    /// The octets still waiting to be yielded, most significant first.
    pub closed spec fn pending(self) -> Seq<u8> {
        self.pending_gh@
    }

    /// Whether the final quintet of the conversion has been consumed.
    pub closed spec fn is_complete(self) -> bool {
        self.completed
    }

    /// The number of live bits in the final quintet of the conversion.
    pub closed spec fn last_live(self) -> nat {
        self.last_quintet_bits as nat
    }

    pub closed spec fn wf(self) -> bool {
        &&& 1 <= self.last_quintet_bits <= 5
        &&& self.pending_gh@.len() == self.remaining_octets
        &&& self.remaining_octets <= 5
        &&& self.octet_buffer as nat % pow2(40) == stream_val(self.pending_gh@, 8) * pow2(
            (40 - 8 * self.remaining_octets) as nat,
        )
    }

    /// Yields the next regrouped octet. With none left, the conversion is
    /// either complete or needs more quintets.
    pub fn next_octet(self) -> (r: NextOctetResult)
        requires
            self.wf(),
        ensures
            match r {
                NextOctetResult::Octet(o, h) => {
                    &&& self.pending().len() > 0
                    &&& o == self.pending()[0]
                    &&& h.wf()
                    &&& h.pending() == self.pending().skip(1)
                    &&& h.is_complete() == self.is_complete()
                    &&& h.last_live() == self.last_live()
                },
                NextOctetResult::NeedQuintets(nq) => {
                    &&& self.pending().len() == 0
                    &&& !self.is_complete()
                    &&& nq.wf()
                    &&& nq.quintets() == Seq::<u8>::empty()
                    &&& nq.last_live() == self.last_live()
                },
                NextOctetResult::Complete => self.pending().len() == 0 && self.is_complete(),
            },
    {
        if self.remaining_octets == 0 {
            if self.completed {
                NextOctetResult::Complete
            } else {
                proof {
                    lemma_pow2_pos(40);
                    assert(stream_val(Seq::<u8>::empty(), 5) == 0);
                }
                NextOctetResult::NeedQuintets(
                    NeedQuintets {
                        quintet_buffer: 0,
                        pos: 0,
                        last_quintet_bits: self.last_quintet_bits,
                        quintets_gh: Ghost(Seq::empty()),
                    },
                )
            }
        } else {
            let val = (self.octet_buffer >> 32) as u8;
            let buffer = self.octet_buffer << 8;
            proof {
                lemma2_to64();
                lemma2_to64_rest();
                let b = self.octet_buffer;
                let pend = self.pending_gh@;
                assert(syms_in_range(pend, 8)) by {
                    assert(forall|i: int|
                        0 <= i < pend.len() ==> (#[trigger] pend[i]) < pow2(8)) by {
                        lemma2_to64();
                    }
                }
                lemma_drain_step(b as nat, pend, 8);
                // the extracted octet is the top byte of the 40-bit register
                assert(((b >> 32) as u8) as u64 == (b % 0x100_0000_0000u64) >> 32) by (bit_vector);
                lemma_u64_shr_is_div(b % 0x100_0000_0000u64, 32);
                assert((b % 0x100_0000_0000u64) as nat == b as nat % pow2(40));
                assert(val as nat == (b as nat % pow2(40)) / pow2(32));
                // the shifted register keeps the remaining pending octets
                assert((b << 8) % 0x100_0000_0000u64 == (b % 0x1_0000_0000u64) * 0x100)
                    by (bit_vector);
                assert(((b << 8) as u64) as nat % pow2(40) == (b as nat % pow2(32)) * pow2(8));
                assert(val as nat == pend[0] as nat);
                assert(((b << 8) as u64) as nat % pow2(40) == stream_val(pend.skip(1), 8) * pow2(
                    (40 - 8 * (pend.len() - 1)) as nat,
                ));
                assert(pend.skip(1).len() == self.remaining_octets - 1);
            }
            NextOctetResult::Octet(
                val,
                HaveOctets {
                    octet_buffer: buffer,
                    remaining_octets: self.remaining_octets - 1,
                    last_quintet_bits: self.last_quintet_bits,
                    completed: self.completed,
                    pending_gh: Ghost(self.pending_gh@.skip(1)),
                },
            )
        }
    }
}

} // verus!
