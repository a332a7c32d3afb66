//! The octets-to-quintets bit-regrouping state machine: the encoding
//! direction.
//!
//! The mirror image of the decoder's machine. [`NeedOctets`] collects up to
//! five octets (40 bits) into the top of a 64-bit register; when the register
//! fills, or the final octet of the conversion arrives, the machine switches
//! to [`HaveQuintets`], which yields the regrouped quintets one at a time,
//! most significant first.

use vstd::prelude::*;
use vstd::arithmetic::power2::*;
use vstd::arithmetic::div_mod::*;
use vstd::bits::*;
use crate::error::{
    encoding_trailing_nonzero_bits, encoding_trailing_nonzero_bits_error, usage_to_input_error,
    InputError,
};
use crate::model::{
    lemma_ceil_div, lemma_div_exact, lemma_drain_step, lemma_pow2_divides_smaller,
    lemma_reg_insert, lemma_reg_seq_val, lemma_required_len_bounds, lemma_stream_val_trailing,
    reg_seq, required_len, stream_val, syms_in_range, trailing_zero,
};

verus! {

/// Whether an octet that carries only `live` meaningful bits has all its
/// remaining bits zero. More than eight live bits means every bit may be set.
pub open spec fn spec_octet_trailing_ok(live: nat, octet: u8) -> bool {
    trailing_zero(
        octet,
        8,
        if live > 8 {
            8
        } else {
            live
        },
    )
}

/// Reports whether `octet` is zero in every bit past the first
/// `last_octet_bits` of its eight.
pub fn octet_has_valid_trailing_bits(last_octet_bits: u8, octet: u8) -> (r: bool)
    ensures
        r == spec_octet_trailing_ok(last_octet_bits as nat, octet),
{
    let trailing_bits_mask: u8 = if last_octet_bits < 8 {
        0xffu8 >> last_octet_bits
    } else {
        0u8
    };
    proof {
        lemma2_to64();
        if last_octet_bits == 0 {
            assert((octet & (0xffu8 >> 0u8)) == octet) by (bit_vector);
            lemma_small_mod(octet as nat, pow2(8));
        } else if last_octet_bits < 8 {
            let lob = last_octet_bits;
            lemma_u8_shl_is_mul(1u8, (8 - lob) as u8);
            assert((octet & (0xffu8 >> lob)) == 0 <==> octet % (1u8 << ((8 - lob) as u8)) == 0)
                by (bit_vector)
                requires
                    0 < lob < 8,
            ;
        } else {
            assert(octet & 0 == 0) by (bit_vector);
            assert(octet as nat % pow2(0) == 0);
        }
    }
    octet & trailing_bits_mask == 0
}

/// The accumulating state of the encoder: the octets collected since the
/// last flush, packed most-significant-first into the top of a 40-bit
/// register, and the number of live bits in the final octet of the whole
/// conversion.
pub struct NeedOctets {
    octet_buffer: u64,
    pos: u8,
    last_octet_bits: u8,
    octets_gh: Ghost<Seq<u8>>,
}

/// What supplying an octet produces: either the machine still wants more
/// input, or it has quintets ready to drain.
pub enum ProvideOctetResult {
    NeedOctets(NeedOctets),
    HaveQuintets(HaveQuintets),
}

/// The draining state of the encoder: regrouped quintets waiting to be
/// yielded, most significant first, from the top of the register.
pub struct HaveQuintets {
    quintet_buffer: u64,
    remaining_quintets: u8,
    last_octet_bits: u8,
    completed: bool,
    pending_gh: Ghost<Seq<u8>>,
}

/// What asking for a quintet produces: a quintet, a fresh accumulating state
/// wanting more octets, or the end of the conversion.
pub enum NextQuintetResult {
    Quintet(u8, HaveQuintets),
    NeedOctets(NeedOctets),
    Complete,
}

impl NeedOctets {
    /// The octets accumulated since the last flush.
    pub closed spec fn octets(self) -> Seq<u8> {
        self.octets_gh@
    }

    /// The number of live bits in the final octet of the conversion.
    pub closed spec fn last_live(self) -> nat {
        self.last_octet_bits as nat
    }

    pub closed spec fn wf(self) -> bool {
        &&& 1 <= self.last_octet_bits <= 8
        &&& self.octets_gh@.len() == self.pos
        &&& self.pos < 5
        &&& syms_in_range(self.octets_gh@, 8)
        &&& self.octet_buffer as nat == stream_val(self.octets_gh@, 8) * pow2(
            (40 - 8 * self.pos) as nat,
        )
        &&& (self.octet_buffer as nat) < pow2(40)
    }

    /// Starts a conversion whose final octet carries `last_octet_bits` live
    /// bits.
    pub fn new(last_octet_bits: u8) -> (r: NeedOctets)
        requires
            1 <= last_octet_bits <= 8,
        ensures
            r.wf(),
            r.octets() == Seq::<u8>::empty(),
            r.last_live() == last_octet_bits as nat,
    {
        proof {
            lemma_pow2_pos(40);
            assert(stream_val(Seq::<u8>::empty(), 8) == 0);
        }
        NeedOctets { octet_buffer: 0, pos: 0, last_octet_bits, octets_gh: Ghost(Seq::empty()) }
    }

    /// Feeds the machine one octet; `last_octet` marks the final input symbol
    /// of the whole conversion. The final octet is rejected if it carries a
    /// nonzero bit past the declared live count. On success the machine
    /// either keeps accumulating or flushes the batch into a draining state
    /// holding exactly the quintets the batch's live bits fill.
    pub fn provide_octet(self, octet: u8, last_octet: bool) -> (r: Result<
        ProvideOctetResult,
        InputError,
    >)
        requires
            self.wf(),
        ensures
            match r {
                Result::Err(e) => {
                    &&& last_octet
                    &&& !spec_octet_trailing_ok(self.last_live(), octet)
                    &&& e == usage_to_input_error(encoding_trailing_nonzero_bits_error())
                },
                Result::Ok(pr) => {
                    &&& (last_octet ==> spec_octet_trailing_ok(self.last_live(), octet))
                    &&& match pr {
                        ProvideOctetResult::NeedOctets(no) => {
                            &&& !last_octet
                            &&& self.octets().len() + 1 < 5
                            &&& no.wf()
                            &&& no.octets() == self.octets().push(octet)
                            &&& no.last_live() == self.last_live()
                        },
                        ProvideOctetResult::HaveQuintets(hq) => {
                            let m = self.octets().len() + 1;
                            let f = if last_octet {
                                self.last_live()
                            } else {
                                8
                            };
                            let bb = ((m - 1) * 8 + f) as nat;
                            let c = required_len(bb, 5);
                            &&& (last_octet || m == 5)
                            &&& hq.wf()
                            &&& hq.last_live() == self.last_live()
                            &&& hq.is_complete() == last_octet
                            &&& hq.pending().len() == c
                            &&& stream_val(hq.pending(), 5) * pow2((40 - 5 * c) as nat)
                                == stream_val(self.octets().push(octet), 8) * pow2(
                                (40 - 8 * m) as nat,
                            )
                        },
                    }
                },
            },
    {
        if last_octet && !octet_has_valid_trailing_bits(self.last_octet_bits, octet) {
            return Err(encoding_trailing_nonzero_bits().into_input_error());
        }
        let shift: u64 = 32 - 8 * (self.pos as u64);
        let buffer: u64 = self.octet_buffer | ((octet as u64) << shift);
        let pos: u8 = self.pos + 1;
        let ghost os2 = self.octets_gh@.push(octet);
        proof {
            lemma2_to64();
            lemma_pow2_pos((40 - 8 * self.pos) as nat);
            lemma_mod_multiples_basic(
                stream_val(self.octets_gh@, 8) as int,
                pow2((40 - 8 * self.pos) as nat) as int,
            );
            lemma_reg_insert(self.octet_buffer, octet as u64, shift, 8);
            assert(os2.drop_last() =~= self.octets_gh@);
            assert(os2.last() == octet);
            let s_old = stream_val(self.octets_gh@, 8);
            assert(stream_val(os2, 8) == s_old * pow2(8) + octet);
            lemma_pow2_adds(8, (32 - 8 * self.pos) as nat);
            assert((s_old * pow2(8) + octet) * pow2((32 - 8 * self.pos) as nat) == s_old * (pow2(8)
                * pow2((32 - 8 * self.pos) as nat)) + (octet as nat) * pow2(
                (32 - 8 * self.pos) as nat,
            )) by (nonlinear_arith);
            assert(buffer as nat == stream_val(os2, 8) * pow2((40 - 8 * pos) as nat));
            assert(syms_in_range(os2, 8));
        }
        if pos == 5 || last_octet {
            let batch_bits: u8 = (pos - 1) * 8 + if last_octet {
                self.last_octet_bits
            } else {
                8
            };
            let remaining_quintets: u8 = (batch_bits + 4) / 5;
            let ghost pend = reg_seq(buffer as nat, 5, remaining_quintets as nat);
            proof {
                let bb = batch_bits as nat;
                let c = remaining_quintets as nat;
                lemma_ceil_div(bb, 5);
                assert(c == required_len(bb, 5));
                lemma_required_len_bounds(bb, 5);
                assert(5 * c == c * 5) by (nonlinear_arith);
                assert(5 * c <= 44 ==> c <= 8);
                lemma_reg_seq_val(buffer as nat, 5, c);
                let f = if last_octet {
                    self.last_octet_bits as nat
                } else {
                    8
                };
                lemma_stream_val_trailing(os2, 8, f);
                lemma_div_exact(stream_val(os2, 8), pow2((8 - f) as nat));
                let k = stream_val(os2, 8) / pow2((8 - f) as nat);
                lemma_pow2_adds((8 - f) as nat, (40 - 8 * pos) as nat);
                assert((k * pow2((8 - f) as nat)) * pow2((40 - 8 * pos) as nat) == k * (pow2(
                    (8 - f) as nat,
                ) * pow2((40 - 8 * pos) as nat))) by (nonlinear_arith);
                assert(buffer as nat == k * pow2((40 - bb) as nat));
                lemma_pow2_pos((40 - bb) as nat);
                lemma_mod_multiples_basic(k as int, pow2((40 - bb) as nat) as int);
                lemma_pow2_divides_smaller(buffer as nat, (40 - 5 * c) as nat, (40 - bb) as nat);
                lemma_pow2_pos((40 - 5 * c) as nat);
                lemma_div_exact(buffer as nat, pow2((40 - 5 * c) as nat));
                lemma_small_mod(buffer as nat, pow2(40));
                assert(stream_val(pend, 5) * pow2((40 - 5 * c) as nat) == buffer as nat);
            }
            Ok(
                ProvideOctetResult::HaveQuintets(
                    HaveQuintets {
                        quintet_buffer: buffer,
                        remaining_quintets,
                        last_octet_bits: self.last_octet_bits,
                        completed: last_octet,
                        pending_gh: Ghost(pend),
                    },
                ),
            )
        } else {
            Ok(
                ProvideOctetResult::NeedOctets(
                    NeedOctets {
                        octet_buffer: buffer,
                        pos,
                        last_octet_bits: self.last_octet_bits,
                        octets_gh: Ghost(os2),
                    },
                ),
            )
        }
    }
}

impl HaveQuintets {
    /// The quintets still waiting to be yielded, most significant first.
    /// Every pending quintet is below 32.
    pub closed spec fn pending(self) -> Seq<u8> {
        self.pending_gh@
    }

    /// Whether the final octet of the conversion has been consumed.
    pub closed spec fn is_complete(self) -> bool {
        self.completed
    }

    /// The number of live bits in the final octet of the conversion.
    pub closed spec fn last_live(self) -> nat {
        self.last_octet_bits as nat
    }

    pub closed spec fn wf(self) -> bool {
        &&& 1 <= self.last_octet_bits <= 8
        &&& self.pending_gh@.len() == self.remaining_quintets
        &&& self.remaining_quintets <= 8
        &&& syms_in_range(self.pending_gh@, 5)
        &&& self.quintet_buffer as nat % pow2(40) == stream_val(self.pending_gh@, 5) * pow2(
            (40 - 5 * self.remaining_quintets) as nat,
        )
    }

    /// Yields the next regrouped quintet. With none left, the conversion is
    /// either complete or needs more octets.
    pub fn next_quintet(self) -> (r: NextQuintetResult)
        requires
            self.wf(),
        ensures
            match r {
                NextQuintetResult::Quintet(q, h) => {
                    &&& self.pending().len() > 0
                    &&& q == self.pending()[0]
                    &&& q < 32
                    &&& h.wf()
                    &&& h.pending() == self.pending().skip(1)
                    &&& h.is_complete() == self.is_complete()
                    &&& h.last_live() == self.last_live()
                },
                NextQuintetResult::NeedOctets(no) => {
                    &&& self.pending().len() == 0
                    &&& !self.is_complete()
                    &&& no.wf()
                    &&& no.octets() == Seq::<u8>::empty()
                    &&& no.last_live() == self.last_live()
                },
                NextQuintetResult::Complete => self.pending().len() == 0 && self.is_complete(),
            },
    {
        if self.remaining_quintets == 0 {
            if self.completed {
                NextQuintetResult::Complete
            } else {
                proof {
                    lemma_pow2_pos(40);
                    assert(stream_val(Seq::<u8>::empty(), 8) == 0);
                }
                NextQuintetResult::NeedOctets(
                    NeedOctets {
                        octet_buffer: 0,
                        pos: 0,
                        last_octet_bits: self.last_octet_bits,
                        octets_gh: Ghost(Seq::empty()),
                    },
                )
            }
        } else {
            let val = ((self.quintet_buffer >> 35) as u8) & 0x1f;
            let buffer = self.quintet_buffer << 5;
            proof {
                lemma2_to64();
                lemma2_to64_rest();
                let b = self.quintet_buffer;
                let pend = self.pending_gh@;
                lemma_drain_step(b as nat, pend, 5);
                assert((((b >> 35) as u8) & 0x1f) as u64 == (b % 0x100_0000_0000u64) >> 35)
                    by (bit_vector);
                lemma_u64_shr_is_div(b % 0x100_0000_0000u64, 35);
                assert((b % 0x100_0000_0000u64) as nat == b as nat % pow2(40));
                assert(val as nat == (b as nat % pow2(40)) / pow2(35));
                assert((b << 5) % 0x100_0000_0000u64 == (b % 0x8_0000_0000u64) * 0x20)
                    by (bit_vector);
                assert(((b << 5) as u64) as nat % pow2(40) == (b as nat % pow2(35)) * pow2(5));
                assert(val as nat == pend[0] as nat);
                assert(((b << 5) as u64) as nat % pow2(40) == stream_val(pend.skip(1), 5) * pow2(
                    (40 - 5 * (pend.len() - 1)) as nat,
                ));
                assert(pend.skip(1).len() == self.remaining_quintets - 1);
                assert(val < 32);
            }
            NextQuintetResult::Quintet(
                val,
                HaveQuintets {
                    quintet_buffer: buffer,
                    remaining_quintets: self.remaining_quintets - 1,
                    last_octet_bits: self.last_octet_bits,
                    completed: self.completed,
                    pending_gh: Ghost(self.pending_gh@.skip(1)),
                },
            )
        }
    }
}

} // verus!
