//! The mathematical model of z-base-32 streams.
//!
//! A sequence of symbols of width `w` (5-bit quintets or 8-bit octets) is
//! read big-endian, most-significant symbol first, and denotes the natural
//! number [`stream_val`]. A declared bit length `bits` marks the first `bits`
//! bits of the stream as live; the remaining [`pad_bits`] bits of the final
//! symbol must be zero. The [`payload`] of a valid stream is the value of its
//! live bits, and a conversion between widths is correct when both sides
//! carry the same payload, left-justified in their own width.

use vstd::prelude::*;
use vstd::arithmetic::power2::*;
use vstd::arithmetic::div_mod::*;
use vstd::arithmetic::mul::*;
use vstd::bits::*;

verus! {

/// How many symbols of width `w` are needed to hold `bits` bits:
/// the ceiling of `bits / w`.
pub open spec fn required_len(bits: nat, w: nat) -> nat
    recommends
        w > 0,
{
    if bits % w == 0 {
        bits / w
    } else {
        bits / w + 1
    }
}

/// How many bits of the final symbol of width `w` are live when the stream
/// holds `bits` bits. A remainder of zero means the final symbol is fully
/// occupied, not that a dangling empty symbol follows.
pub open spec fn live_bits(bits: nat, w: nat) -> nat
    recommends
        bits > 0,
        w > 0,
{
    if bits % w == 0 {
        w
    } else {
        bits % w
    }
}

/// The value of a symbol sequence read big-endian in radix `2^w`.
pub open spec fn stream_val(s: Seq<u8>, w: nat) -> nat
    decreases s.len(),
{
    if s.len() == 0 {
        0
    } else {
        stream_val(s.drop_last(), w) * pow2(w) + s.last() as nat
    }
}

/// Every symbol fits in `w` bits.
pub open spec fn syms_in_range(s: Seq<u8>, w: nat) -> bool {
    forall|i: int| 0 <= i < s.len() ==> (#[trigger] s[i]) < pow2(w)
}

/// The number of dead bits at the end of a stream of width `w` declared to
/// hold `bits` bits.
pub open spec fn pad_bits(bits: nat, w: nat) -> nat
    recommends
        w > 0,
{
    (required_len(bits, w) * w - bits) as nat
}

/// The symbol `sym` of width `w` keeps its bits past the first `live` zero.
pub open spec fn trailing_zero(sym: u8, w: nat, live: nat) -> bool
    recommends
        live <= w,
{
    sym as nat % pow2((w - live) as nat) == 0
}

/// A well-formed stream of width `w` holding `bits` live bits: the right
/// length, every symbol in range, and dead bits zero.
pub open spec fn stream_ok(s: Seq<u8>, w: nat, bits: nat) -> bool
    recommends
        w > 0,
{
    &&& s.len() == required_len(bits, w)
    &&& syms_in_range(s, w)
    &&& (bits > 0 ==> trailing_zero(s.last(), w, live_bits(bits, w)))
}

/// The value of the live bits of a stream: its value with the dead bits
/// stripped off.
pub open spec fn payload(s: Seq<u8>, w: nat, bits: nat) -> nat
    recommends
        w > 0,
{
    stream_val(s, w) / pow2(pad_bits(bits, w))
}

/// The unique symbol sequence of width `w` and length `len` whose value is
/// `v % pow2(w * len)`: the base-`2^w` digits of `v`, most significant first.
pub open spec fn sym_seq_of_val(v: nat, len: nat, w: nat) -> Seq<u8>
    decreases len,
{
    if len == 0 {
        Seq::empty()
    } else {
        sym_seq_of_val(v / pow2(w), (len - 1) as nat, w).push((v % pow2(w)) as u8)
    }
}

/// The octet stream a quintet stream of `bits` live bits decodes to.
pub open spec fn decoded_octets(q: Seq<u8>, bits: nat) -> Seq<u8> {
    sym_seq_of_val(payload(q, 5, bits) * pow2(pad_bits(bits, 8)), required_len(bits, 8), 8)
}

/// The quintet stream an octet stream of `bits` live bits encodes to.
pub open spec fn encoded_quintets(o: Seq<u8>, bits: nat) -> Seq<u8> {
    sym_seq_of_val(payload(o, 8, bits) * pow2(pad_bits(bits, 5)), required_len(bits, 5), 5)
}

/// A power of two never shrinks as the exponent grows.
pub proof fn lemma_pow2_le(e1: nat, e2: nat)
    requires
        e1 <= e2,
    ensures
        pow2(e1) <= pow2(e2),
{
    if e1 < e2 {
        lemma_pow2_strictly_increases(e1, e2);
    }
}

/// A nonnegative value below the divisor divides to zero.
pub proof fn lemma_div_of_small(x: nat, d: nat)
    requires
        x < d,
    ensures
        x / d == 0,
{
    lemma_fundamental_div_mod_converse_div(x as int, d as int, 0, x as int);
}

/// A stream of in-range symbols is worth less than `2^(w * len)`.
pub proof fn lemma_stream_val_bound(s: Seq<u8>, w: nat)
    requires
        syms_in_range(s, w),
    ensures
        stream_val(s, w) < pow2(w * s.len()),
    decreases s.len(),
{
    lemma_pow2_pos(w);
    if s.len() == 0 {
        lemma_pow2_pos(0);
        assert(w * 0 == 0);
    } else {
        let d = s.drop_last();
        let l1 = (s.len() - 1) as nat;
        assert(syms_in_range(d, w));
        lemma_stream_val_bound(d, w);
        lemma_pow2_adds(w * l1, w);
        assert(w * (l1 + 1) == w * l1 + w) by (nonlinear_arith);
        assert(s.len() == l1 + 1);
        assert(stream_val(d, w) * pow2(w) + s.last() < pow2(w * l1) * pow2(w)) by (nonlinear_arith)
            requires
                stream_val(d, w) < pow2(w * l1),
                (s.last() as nat) < pow2(w),
                pow2(w) > 0,
        ;
    }
}

/// Peeling the most significant symbol off a stream.
pub proof fn lemma_stream_val_head(s: Seq<u8>, w: nat)
    requires
        s.len() > 0,
    ensures
        stream_val(s, w) == s[0] * pow2(w * (s.len() - 1) as nat) + stream_val(s.skip(1), w),
    decreases s.len(),
{
    lemma_pow2_pos(w);
    if s.len() == 1 {
        lemma2_to64();
        assert(s.skip(1).len() == 0);
        assert(s.drop_last().len() == 0);
        assert(w * 0 == 0);
        assert(s.last() == s[0]);
        assert(stream_val(s.skip(1), w) == 0);
        assert(stream_val(s.drop_last(), w) == 0);
        assert(stream_val(s, w) == 0 * pow2(w) + s.last());
        assert(stream_val(s, w) == s[0] * pow2(w * (s.len() - 1) as nat) + stream_val(
            s.skip(1),
            w,
        ));
    } else {
        let d = s.drop_last();
        let t = s.skip(1);
        let l2 = (s.len() - 2) as nat;
        lemma_stream_val_head(d, w);
        assert(t.drop_last() =~= d.skip(1));
        assert(t.last() == s.last());
        assert(d[0] == s[0]);
        lemma_pow2_adds(w * l2, w);
        assert(w * (l2 + 1) == w * l2 + w) by (nonlinear_arith);
        assert((s.len() - 1) as nat == l2 + 1);
        // stream_val(s) == (s[0] * pow2(w*l2) + stream_val(d.skip(1))) * pow2(w) + s.last()
        assert((s[0] * pow2(w * l2) + stream_val(d.skip(1), w)) * pow2(w) == s[0] * (pow2(w * l2)
            * pow2(w)) + stream_val(d.skip(1), w) * pow2(w)) by (nonlinear_arith);
        assert(stream_val(t, w) == stream_val(d.skip(1), w) * pow2(w) + s.last());
        assert(stream_val(s, w) == (s[0] * pow2(w * l2) + stream_val(d.skip(1), w)) * pow2(w)
            + s.last());
        assert(s[0] * pow2(w * (s.len() - 1) as nat) == s[0] * (pow2(w * l2) * pow2(w)));
    }
}

/// The value of a concatenation: the left part is shifted past the right.
pub proof fn lemma_stream_val_concat(a: Seq<u8>, b: Seq<u8>, w: nat)
    ensures
        stream_val(a + b, w) == stream_val(a, w) * pow2(w * b.len()) + stream_val(b, w),
    decreases b.len(),
{
    lemma_pow2_pos(w);
    if b.len() == 0 {
        assert(a + b =~= a);
        lemma2_to64();
        assert(w * 0 == 0);
    } else {
        let b1 = b.drop_last();
        lemma_stream_val_concat(a, b1, w);
        assert((a + b).drop_last() =~= a + b1);
        assert((a + b).last() == b.last());
        lemma_pow2_adds(w * b1.len(), w);
        assert(w * (b1.len() + 1) == w * b1.len() + w) by (nonlinear_arith);
        assert(b.len() == b1.len() + 1);
        assert((stream_val(a, w) * pow2(w * b1.len()) + stream_val(b1, w)) * pow2(w) == stream_val(
            a,
            w,
        ) * (pow2(w * b1.len()) * pow2(w)) + stream_val(b1, w) * pow2(w)) by (nonlinear_arith);
    }
}

/// Streams of the same length and width with in-range symbols and equal
/// values are equal symbol by symbol.
pub proof fn lemma_stream_val_injective(s: Seq<u8>, t: Seq<u8>, w: nat)
    requires
        s.len() == t.len(),
        syms_in_range(s, w),
        syms_in_range(t, w),
        stream_val(s, w) == stream_val(t, w),
    ensures
        s =~= t,
    decreases s.len(),
{
    if s.len() > 0 {
        lemma_pow2_pos(w);
        let v = stream_val(s, w);
        lemma_fundamental_div_mod_converse(
            v as int,
            pow2(w) as int,
            stream_val(s.drop_last(), w) as int,
            s.last() as int,
        );
        lemma_fundamental_div_mod_converse(
            v as int,
            pow2(w) as int,
            stream_val(t.drop_last(), w) as int,
            t.last() as int,
        );
        assert(syms_in_range(s.drop_last(), w));
        assert(syms_in_range(t.drop_last(), w));
        lemma_stream_val_injective(s.drop_last(), t.drop_last(), w);
        assert(s =~= s.drop_last().push(s.last()));
        assert(t =~= t.drop_last().push(t.last()));
    }
}

/// `sym_seq_of_val` produces a stream of the requested length, in range,
/// whose value is the low `w * len` bits of `v`.
pub proof fn lemma_sym_seq_of_val(v: nat, len: nat, w: nat)
    requires
        0 < w <= 8,
    ensures
        sym_seq_of_val(v, len, w).len() == len,
        syms_in_range(sym_seq_of_val(v, len, w), w),
        stream_val(sym_seq_of_val(v, len, w), w) == v % pow2(w * len),
    decreases len,
{
    lemma_pow2_pos(w);
    let s = sym_seq_of_val(v, len, w);
    if len == 0 {
        lemma2_to64();
        assert(w * 0 == 0);
        assert(v % 1 == 0);
    } else {
        let l1 = (len - 1) as nat;
        lemma_sym_seq_of_val(v / pow2(w), l1, w);
        let r = sym_seq_of_val(v / pow2(w), l1, w);
        assert(s =~= r.push((v % pow2(w)) as u8));
        assert(s.drop_last() =~= r);
        lemma_pow2_le(w, 8);
        lemma2_to64();
        assert(v % pow2(w) < pow2(w));
        assert(s.last() as nat == v % pow2(w));
        lemma_pow2_pos(w * l1);
        lemma_pow2_adds(w, w * l1);
        assert(w * (l1 + 1) == w + w * l1) by (nonlinear_arith);
        assert(len == l1 + 1);
        lemma_mod_breakdown(v as int, pow2(w) as int, pow2(w * l1) as int);
        assert(stream_val(s, w) == ((v / pow2(w)) % pow2(w * l1)) * pow2(w) + v % pow2(w));
        assert(pow2(w) * ((v / pow2(w)) % pow2(w * l1)) == ((v / pow2(w)) % pow2(w * l1)) * pow2(
            w,
        )) by (nonlinear_arith);
    }
}

/// Rebuilding a stream from its own value gives the stream back.
pub proof fn lemma_sym_seq_of_stream(s: Seq<u8>, w: nat)
    requires
        0 < w <= 8,
        syms_in_range(s, w),
    ensures
        sym_seq_of_val(stream_val(s, w), s.len(), w) =~= s,
{
    lemma_sym_seq_of_val(stream_val(s, w), s.len(), w);
    lemma_stream_val_bound(s, w);
    lemma_small_mod(stream_val(s, w), pow2(w * s.len()));
    lemma_stream_val_injective(sym_seq_of_val(stream_val(s, w), s.len(), w), s, w);
}

/// The symbols still to be drained from a 40-bit register `R`: the `c`
/// topmost `w`-bit slices, most significant first.
pub open spec fn reg_seq(r: nat, w: nat, c: nat) -> Seq<u8>
    recommends
        0 < w,
        w * c <= 40,
{
    Seq::new(c, |j: int| ((r / pow2((40 - w * (j + 1)) as nat)) % pow2(w)) as u8)
}

/// The value of the register slices: the top `w * c` bits of the register.
pub proof fn lemma_reg_seq_val(r: nat, w: nat, c: nat)
    requires
        0 < w <= 8,
        w * c <= 40,
        r < pow2(40),
    ensures
        reg_seq(r, w, c).len() == c,
        syms_in_range(reg_seq(r, w, c), w),
        stream_val(reg_seq(r, w, c), w) == r / pow2((40 - w * c) as nat),
    decreases c,
{
    lemma_pow2_pos(w);
    let s = reg_seq(r, w, c);
    assert forall|i: int| 0 <= i < s.len() implies (#[trigger] s[i]) < pow2(w) by {
        lemma_pow2_le(w, 8);
        lemma2_to64();
        assert((r / pow2((40 - w * (i + 1)) as nat)) % pow2(w) < pow2(w));
    }
    if c == 0 {
        assert(w * 0 == 0);
        lemma_div_of_small(r, pow2(40));
    } else {
        let c1 = (c - 1) as nat;
        assert(w * (c1 + 1) == w * c1 + w) by (nonlinear_arith);
        assert(c == c1 + 1);
        lemma_reg_seq_val(r, w, c1);
        assert(s.drop_last() =~= reg_seq(r, w, c1));
        let e = (40 - w * c) as nat;
        let x = r / pow2(e);
        lemma_pow2_le(w, 8);
        lemma2_to64();
        assert(s.last() as nat == (r / pow2((40 - w * c) as nat)) % pow2(w));
        // r / pow2(40 - w*c1) == (r / pow2(40 - w*c)) / pow2(w)
        lemma_pow2_pos(e);
        lemma_pow2_adds(e, w);
        assert((40 - w * c1) as nat == e + w);
        lemma_div_denominator(r as int, pow2(e) as int, pow2(w) as int);
        assert(stream_val(s, w) == (x / pow2(w)) * pow2(w) + x % pow2(w));
        lemma_fundamental_div_mod(x as int, pow2(w) as int);
        assert(pow2(w) * (x / pow2(w)) == (x / pow2(w)) * pow2(w)) by (nonlinear_arith);
    }
}

/// The ceiling division `required_len` agrees with the `(x + w - 1) / w`
/// formula.
pub proof fn lemma_ceil_div(x: nat, w: nat)
    requires
        0 < w,
    ensures
        required_len(x, w) == (x + w - 1) as nat / w,
{
    let q = x / w;
    let r = x % w;
    lemma_fundamental_div_mod(x as int, w as int);
    assert(w * q == q * w) by (nonlinear_arith);
    assert((q + 1) * w == q * w + w) by (nonlinear_arith);
    if r == 0 {
        lemma_fundamental_div_mod_converse_div((x + w - 1) as int, w as int, q as int, w as int - 1);
    } else {
        lemma_fundamental_div_mod_converse_div(
            (x + w - 1) as int,
            w as int,
            q as int + 1,
            r as int - 1,
        );
    }
}

/// `required_len(x, w)` symbols hold at least `x` and fewer than `x + w` bits.
pub proof fn lemma_required_len_bounds(x: nat, w: nat)
    requires
        0 < w,
    ensures
        x <= required_len(x, w) * w,
        required_len(x, w) * w < x + w,
    decreases 0nat,
{
    let q = x / w;
    let r = x % w;
    lemma_fundamental_div_mod(x as int, w as int);
    if r == 0 {
        assert(required_len(x, w) * w == w * q);
    } else {
        assert(required_len(x, w) * w == (q + 1) * w);
        assert((q + 1) * w == q * w + w) by (nonlinear_arith);
        assert(q * w == w * q) by (nonlinear_arith);
    }
}

/// A stream whose final symbol has its dead bits zero has a value divisible
/// by `2^(w - live)`.
pub proof fn lemma_stream_val_trailing(s: Seq<u8>, w: nat, live: nat)
    requires
        s.len() > 0,
        live <= w,
        trailing_zero(s.last(), w, live),
    ensures
        stream_val(s, w) % pow2((w - live) as nat) == 0,
{
    let e = (w - live) as nat;
    lemma_pow2_pos(e);
    lemma_pow2_pos(w);
    let d = s.drop_last();
    // stream_val(s) == stream_val(d) * pow2(w) + s.last()
    lemma_pow2_adds(e, live);
    // pow2(w) == pow2(e) * pow2(live)
    assert(stream_val(d, w) * (pow2(e) * pow2(live)) == (stream_val(d, w) * pow2(live)) * pow2(e))
        by (nonlinear_arith);
    lemma_pow2_pos(live);
    let k = stream_val(d, w) * pow2(live);
    assert(stream_val(s, w) == k * pow2(e) + s.last());
    lemma_div_exact(s.last() as nat, pow2(e));
    let j = s.last() as nat / pow2(e);
    assert(stream_val(s, w) == k * pow2(e) + j * pow2(e));
    assert(k * pow2(e) + j * pow2(e) == (k + j) * pow2(e)) by (nonlinear_arith);
    lemma_mod_multiples_basic((k + j) as int, pow2(e) as int);
}

/// An exactly divisible value is the product of its quotient and divisor.
pub proof fn lemma_div_exact(x: nat, d: nat)
    requires
        0 < d,
        x % d == 0,
    ensures
        x == (x / d) * d,
{
    lemma_fundamental_div_mod(x as int, d as int);
    assert(d * (x / d) == (x / d) * d) by (nonlinear_arith);
}

/// Divisibility by a power of two implies divisibility by any smaller one.
pub proof fn lemma_pow2_divides_smaller(x: nat, e1: nat, e2: nat)
    requires
        e1 <= e2,
        x % pow2(e2) == 0,
    ensures
        x % pow2(e1) == 0,
{
    lemma_pow2_pos(e1);
    lemma_pow2_pos((e2 - e1) as nat);
    lemma_pow2_adds(e1, (e2 - e1) as nat);
    lemma_mod_mod(x as int, pow2(e1) as int, pow2((e2 - e1) as nat) as int);
    assert(pow2(e1) * pow2((e2 - e1) as nat) == pow2(e2));
    lemma_small_mod(0, pow2(e1));
}

/// Inserting a `w`-bit symbol into the zero bits of a register at shift `s`:
/// the bitwise or is plain addition, and the register stays below `2^40`.
pub proof fn lemma_reg_insert(b: u64, q: u64, s: u64, w: u64)
    requires
        0 < w <= 8,
        s + w <= 40,
        (q as nat) < pow2(w as nat),
        b as nat % pow2((s + w) as nat) == 0,
        (b as nat) < pow2(40),
    ensures
        ((b | (q << s)) as nat) == b as nat + (q as nat) * pow2(s as nat),
        b as nat + (q as nat) * pow2(s as nat) < pow2(40),
{
    lemma2_to64();
    lemma2_to64_rest();
    let sw = (s + w) as u64;
    lemma_pow2_le((s + w) as nat, 40);
    lemma_pow2_le(w as nat, 8);
    lemma_pow2_le(s as nat, 40);
    lemma_u64_shl_is_mul(1u64, sw);
    lemma_u64_shl_is_mul(1u64, w);
    lemma_u64_shl_is_mul(1u64, s);
    assert((1u64 << sw) as nat == pow2(sw as nat));
    assert((1u64 << w) as nat == pow2(w as nat));
    // q << s == q * pow2(s)
    lemma_pow2_adds(w as nat, s as nat);
    lemma_mul_strict_inequality(q as int, pow2(w as nat) as int, pow2(s as nat) as int);
    lemma_pow2_pos(s as nat);
    assert((q as nat) * pow2(s as nat) < pow2(w as nat) * pow2(s as nat));
    lemma_pow2_le((w + s) as nat, 40);
    lemma_u64_shl_is_mul(q, s);
    assert((q << s) as nat == (q as nat) * pow2(s as nat));
    // the or is an add: the low s + w bits of b are zero and q << s fits there
    assert((b | (q << s)) == b + (q << s)) by (bit_vector)
        requires
            sw == s + w,
            sw <= 40,
            0 < w <= 8,
            q < (1u64 << w),
            b % (1u64 << sw) == 0,
    ;
    // the sum stays below 2^40: b is a multiple of 2^(s+w) below 2^40
    let d = pow2((s + w) as nat);
    let k = b as nat / d;
    lemma_div_exact(b as nat, d);
    lemma_pow2_adds((s + w) as nat, (40 - s - w) as nat);
    assert(k < pow2((40 - s - w) as nat)) by (nonlinear_arith)
        requires
            b as nat == k * d,
            (b as nat) < d * pow2((40 - s - w) as nat),
            0 < d,
    ;
    assert((k + 1) * d <= pow2((40 - s - w) as nat) * d) by (nonlinear_arith)
        requires
            k + 1 <= pow2((40 - s - w) as nat),
            0 < d,
    ;
    assert((q as nat) * pow2(s as nat) < d);
    assert(b as nat + (q as nat) * pow2(s as nat) < k * d + d);
    assert(k * d + d == (k + 1) * d) by (nonlinear_arith);
    assert(pow2((40 - s - w) as nat) * d == d * pow2((40 - s - w) as nat)) by (nonlinear_arith);
    assert(b as nat + (q as nat) * pow2(s as nat) < pow2(40));
}

/// One drain step of a 40-bit register holding the pending symbols `pend` of
/// width `w` left-justified: the top `w` bits are the first pending symbol,
/// and shifting by `w` leaves the rest, still left-justified.
pub proof fn lemma_drain_step(reg: nat, pend: Seq<u8>, w: nat)
    requires
        0 < w <= 8,
        1 <= pend.len(),
        w * pend.len() <= 40,
        syms_in_range(pend, w),
        reg % pow2(40) == stream_val(pend, w) * pow2((40 - w * pend.len()) as nat),
    ensures
        (reg % pow2(40)) / pow2((40 - w) as nat) == pend[0],
        (reg % pow2((40 - w) as nat)) * pow2(w) == stream_val(pend.skip(1), w) * pow2(
            (40 - w * (pend.len() - 1)) as nat,
        ),
{
    let r = pend.len();
    let s = stream_val(pend, w);
    let a = pow2((40 - w * r) as nat);
    let b = pow2((w * (r - 1)) as nat);
    lemma_pow2_pos((40 - w * r) as nat);
    lemma_pow2_pos((w * (r - 1)) as nat);
    lemma_pow2_pos(w);
    assert(w * r == w * (r - 1) as nat + w) by (nonlinear_arith)
        requires
            r >= 1,
    ;
    lemma_pow2_adds((40 - w * r) as nat, (w * (r - 1)) as nat);
    // a * b == pow2(40 - w)
    assert((40 - w * r) as nat + (w * (r - 1)) as nat == (40 - w) as nat);
    // head decomposition of the pending symbols
    lemma_stream_val_head(pend, w);
    let s1 = stream_val(pend.skip(1), w);
    assert(syms_in_range(pend.skip(1), w));
    lemma_stream_val_bound(pend.skip(1), w);
    assert(s == pend[0] * b + s1);
    assert(s1 < b);
    // (reg % 2^40) / 2^(40 - w) == (s * a) / (a * b) == s / b == pend[0]
    lemma_div_denominator((s * a) as int, a as int, b as int);
    lemma_mul_is_commutative(s as int, a as int);
    lemma_div_multiples_vanish(s as int, a as int);
    assert((s * a) / a == s);
    lemma_fundamental_div_mod_converse(s as int, b as int, pend[0] as int, s1 as int);
    assert((reg % pow2(40)) / pow2((40 - w) as nat) == pend[0]);
    // reg % 2^(40 - w) == (reg % 2^40) % (a * b) == a * (s % b) == a * s1
    lemma_pow2_adds((40 - w) as nat, w);
    lemma_mod_mod(reg as int, (a * b) as int, pow2(w) as int);
    assert((a * b) * pow2(w) == pow2(40)) by {
        lemma_mul_is_associative(a as int, b as int, pow2(w) as int);
        lemma_pow2_adds((w * (r - 1)) as nat, w);
    }
    assert(reg % (a * b) == (reg % pow2(40)) % (a * b));
    lemma_mul_is_commutative(s as int, a as int);
    lemma_truncate_middle(s as int, a as int, b as int);
    assert((a * s) % (a * b) == a * (s % b));
    assert(s % b == s1);
    assert(reg % pow2((40 - w) as nat) == a * s1);
    // multiply back up by 2^w
    lemma_mul_is_associative(s1 as int, a as int, pow2(w) as int);
    lemma_pow2_adds((40 - w * r) as nat, w);
    assert((40 - w * r) as nat + w == (40 - w * (r - 1)) as nat);
    lemma_mul_is_commutative(a as int, s1 as int);
    assert((a * s1) * pow2(w) == s1 * (a * pow2(w)));
}

/// The final symbol's live bits lie between one and the symbol width, and
/// equal the width exactly when the width divides the bit length.
pub proof fn lemma_live_bits_range(bits: nat, w: nat)
    requires
        bits > 0,
        w > 0,
    ensures
        1 <= live_bits(bits, w) <= w,
        live_bits(bits, w) == w <==> bits % w == 0,
{
}

/// A positive bit length splits into whole symbols plus the live bits of the
/// final one.
pub proof fn lemma_bits_decomposition(bits: nat, w: nat)
    requires
        bits > 0,
        w > 0,
    ensures
        bits == w * (required_len(bits, w) - 1) + live_bits(bits, w),
{
    let q = bits / w;
    lemma_fundamental_div_mod(bits as int, w as int);
    if bits % w == 0 {
        assert(w * ((q - 1) as nat) + w == w * q) by (nonlinear_arith)
            requires
                q >= 1,
        ;
        assert(q >= 1) by {
            lemma_pow2_pos(0);
            if q == 0 {
                assert(bits == w * 0 + 0);
            }
        }
    }
}

/// Wider symbols never take more of them: `required_len` is antitone in the
/// width.
pub proof fn lemma_required_len_antitone(bits: nat, w1: nat, w2: nat)
    requires
        0 < w1 <= w2,
    ensures
        required_len(bits, w2) <= required_len(bits, w1),
{
    let n1 = required_len(bits, w1);
    lemma_required_len_bounds(bits, w1);
    lemma_ceil_div(bits, w2);
    assert(n1 * w1 <= n1 * w2) by (nonlinear_arith)
        requires
            w1 <= w2,
            n1 >= 0,
    ;
    assert(bits + w2 - 1 <= n1 * w2 + (w2 - 1));
    lemma_fundamental_div_mod_converse_div(
        (n1 * w2 + (w2 - 1)) as int,
        w2 as int,
        n1 as int,
        w2 as int - 1,
    );
    assert(n1 * w2 == w2 * n1) by (nonlinear_arith);
    lemma_div_is_ordered((bits + w2 - 1) as int, (n1 * w2 + (w2 - 1)) as int, w2 as int);
}

/// Splitting a bit length at a whole-symbol boundary splits the symbol count.
pub proof fn lemma_required_len_split(x: nat, y: nat, w: nat)
    requires
        0 < w,
        x % w == 0,
    ensures
        required_len((x + y) as nat, w) == x / w + required_len(y, w),
{
    lemma_ceil_div((x + y) as nat, w);
    lemma_ceil_div(y, w);
    lemma_div_exact(x, w);
    lemma_hoist_over_denominator((y + w - 1) as int, (x / w) as int, w);
    assert((x / w) * w == x);
}

/// While full input batches remain, full output batches remain too: with
/// `40 / win` input symbols to a batch, fewer than `required_len` consumed
/// means fewer than `required_len` produced.
pub proof fn lemma_more_output(bits: nat, win: nat, wout: nat, b: nat)
    requires
        (win == 5 && wout == 8) || (win == 8 && wout == 5),
        bits > 0,
        (40nat / win) * b < required_len(bits, win),
    ensures
        (40nat / wout) * b < required_len(bits, wout),
        40 * b < bits,
{
    let n = required_len(bits, win);
    let nn = required_len(bits, wout);
    lemma_required_len_bounds(bits, win);
    lemma_required_len_bounds(bits, wout);
    assert(n * win < bits + win);
    assert(((40nat / win) * b) * win == 40 * b) by (nonlinear_arith)
        requires
            win == 5 || win == 8,
    ;
    assert(((40nat / win) * b + 1) * win <= n * win) by (nonlinear_arith)
        requires
            (40nat / win) * b + 1 <= n,
            win > 0,
    ;
    assert(((40nat / win) * b + 1) * win == 40 * b + win) by (nonlinear_arith)
        requires
            win == 5 || win == 8,
    ;
    assert(40 * b < bits);
    assert(((40nat / wout) * b) * wout == 40 * b) by (nonlinear_arith)
        requires
            wout == 5 || wout == 8,
    ;
    assert(bits <= nn * wout);
    assert((40nat / wout) * b < nn) by (nonlinear_arith)
        requires
            ((40nat / wout) * b) * wout < nn * wout,
            wout > 0,
    ;
}

/// A valid stream's payload fits in its declared bit length.
pub proof fn lemma_payload_bound(s: Seq<u8>, w: nat, bits: nat)
    requires
        0 < w <= 8,
        s.len() == required_len(bits, w),
        syms_in_range(s, w),
    ensures
        payload(s, w, bits) < pow2(bits),
{
    lemma_stream_val_bound(s, w);
    lemma_required_len_bounds(bits, w);
    let p = pad_bits(bits, w);
    lemma_pow2_adds(bits, p);
    lemma_pow2_pos(p);
    assert(w * s.len() == s.len() * w) by (nonlinear_arith);
    assert(stream_val(s, w) < pow2(bits) * pow2(p));
    lemma_mul_is_commutative(pow2(p) as int, pow2(bits) as int);
    lemma_multiply_divide_lt(stream_val(s, w) as int, pow2(p) as int, pow2(bits) as int);
    assert(stream_val(s, w) / pow2(p) < pow2(bits)) by {
        lemma_mul_is_commutative(pow2(p) as int, pow2(bits) as int);
    }
}

/// Flushing the final batch: the output symbols produced so far, the batch's
/// pending output, and the dead padding of both widths line up with the whole
/// conversion, and the output symbol count comes out exactly right.
pub proof fn lemma_final_batch(
    q: Seq<u8>,
    bits: nat,
    win: nat,
    wout: nat,
    b: nat,
    m: nat,
    c: nat,
    pend_val: nat,
)
    requires
        (win == 5 && wout == 8) || (win == 8 && wout == 5),
        bits > 0,
        q.len() == required_len(bits, win),
        q.len() == (40nat / win) * b + m,
        1 <= m <= 40nat / win,
        syms_in_range(q, win),
        trailing_zero(q.last(), win, live_bits(bits, win)),
        c == required_len(((m - 1) * win + live_bits(bits, win)) as nat, wout),
        pend_val * pow2((40 - wout * c) as nat) == stream_val(q.skip(((40nat / win) * b) as int), win)
            * pow2((40 - win * m) as nat),
    ensures
        required_len(bits, wout) == (40nat / wout) * b + c,
        (stream_val(q.take(((40nat / win) * b) as int), win) * pow2(wout * c) + pend_val) * pow2(
            pad_bits(bits, win),
        ) == stream_val(q, win) * pow2(pad_bits(bits, wout)),
{
    let f = live_bits(bits, win);
    let bb = ((m - 1) * win + f) as nat;
    let cap = 40nat / win;
    let n = q.len();
    let a_val = stream_val(q.take((cap * b) as int), win);
    let v = stream_val(q.skip((cap * b) as int), win);
    lemma_live_bits_range(bits, win);
    lemma_bits_decomposition(bits, win);
    // bits == 40 * b + bb
    assert(win * ((cap * b + m - 1) as nat) == (cap * b) * win + (m - 1) * win) by (nonlinear_arith)
        requires
            m >= 1,
    ;
    assert((cap * b) * win == 40 * b) by (nonlinear_arith)
        requires
            win == 5 || win == 8,
            cap == 40nat / win,
    ;
    assert(bits == 40 * b + bb);
    assert(1 <= bb <= 40) by {
        assert((m - 1) * win + f <= (cap - 1) * win + win) by (nonlinear_arith)
            requires
                1 <= m <= cap,
                1 <= f <= win,
        ;
        assert((cap - 1) * win + win == cap * win) by (nonlinear_arith);
        assert(cap * win == 40) by (nonlinear_arith)
            requires
                win == 5 || win == 8,
                cap == 40nat / win,
        ;
    }
    // the output length splits at the batch boundary
    let outcap = 40nat / wout;
    assert((40 * b) % wout == 0 && (40 * b) / wout == outcap * b) by {
        assert(40 * b == (outcap * b) * wout) by (nonlinear_arith)
            requires
                wout == 5 || wout == 8,
                outcap == 40nat / wout,
        ;
        lemma_pow2_pos(0);
        lemma_mod_multiples_basic((outcap * b) as int, wout as int);
        lemma_fundamental_div_mod_converse_div(
            (40 * b) as int,
            wout as int,
            (outcap * b) as int,
            0,
        );
    }
    lemma_required_len_split(40 * b, bb, wout);
    assert(required_len(bits, wout) == outcap * b + c);
    // the value of the whole input splits at the batch boundary
    assert(q =~= q.take((cap * b) as int) + q.skip((cap * b) as int));
    lemma_stream_val_concat(q.take((cap * b) as int), q.skip((cap * b) as int), win);
    assert(win * m == win * (q.skip((cap * b) as int)).len()) by (nonlinear_arith)
        requires
            (q.skip((cap * b) as int)).len() == m,
    ;
    assert(stream_val(q, win) == a_val * pow2(win * m) + v);
    // both paddings
    let pin = pad_bits(bits, win);
    let pout = pad_bits(bits, wout);
    assert(pin == (win - f) as nat) by {
        assert(win * n == win * ((n - 1) as nat) + win) by (nonlinear_arith)
            requires
                n >= 1,
        ;
        assert(n * win == win * n) by (nonlinear_arith);
    }
    assert(pout == (wout * c - bb) as nat) by {
        assert((outcap * b + c) * wout == (outcap * b) * wout + c * wout) by (nonlinear_arith);
        assert((outcap * b) * wout == 40 * b) by (nonlinear_arith)
            requires
                wout == 5 || wout == 8,
                outcap == 40nat / wout,
        ;
        assert(c * wout == wout * c) by (nonlinear_arith);
        lemma_required_len_bounds(bb, wout);
        assert(wout * c == c * wout) by (nonlinear_arith);
    }
    assert(wout * c >= bb) by {
        lemma_required_len_bounds(bb, wout);
        assert(wout * c == c * wout) by (nonlinear_arith);
    }
    // pend_val * pow2(win - f) == v * pow2(wout * c - bb): multiply both by
    // pow2(40 - wout * c) and cancel
    let e_cancel = pow2((40 - wout * c) as nat);
    lemma_pow2_pos((40 - wout * c) as nat);
    assert(wout * c <= 40) by {
        lemma_required_len_bounds(bb, wout);
        assert(c * wout < bb + wout);
        assert(wout * c == c * wout) by (nonlinear_arith);
    }
    assert((pend_val * pow2(pin)) * e_cancel == (v * pow2(pout)) * e_cancel) by {
        // lhs: pend_val * 2^(40 - wout c) * 2^(win - f) == v * 2^(40 - win m) * 2^(win - f)
        assert((pend_val * pow2(pin)) * e_cancel == (pend_val * e_cancel) * pow2(pin))
            by (nonlinear_arith);
        assert((pend_val * e_cancel) * pow2(pin) == (v * pow2((40 - win * m) as nat)) * pow2(pin));
        lemma_pow2_adds((40 - win * m) as nat, pin);
        assert((v * pow2((40 - win * m) as nat)) * pow2(pin) == v * (pow2((40 - win * m) as nat)
            * pow2(pin))) by (nonlinear_arith);
        assert((40 - win * m) as nat + pin == (40 - bb) as nat) by {
            assert(win * m == win * ((m - 1) as nat) + win) by (nonlinear_arith)
                requires
                    m >= 1,
            ;
            assert(win * ((m - 1) as nat) == (m - 1) * win) by (nonlinear_arith)
                requires
                    m >= 1,
            ;
            assert(win * m <= 40) by {
                assert(win * m <= win * cap) by (nonlinear_arith)
                    requires
                        m <= cap,
                        win > 0,
                ;
                assert(win * cap == 40) by (nonlinear_arith)
                    requires
                        win == 5 || win == 8,
                        cap == 40nat / win,
                ;
            }
        }
        // rhs: v * 2^(wout c - bb) * 2^(40 - wout c) == v * 2^(40 - bb)
        lemma_pow2_adds(pout, (40 - wout * c) as nat);
        assert((v * pow2(pout)) * e_cancel == v * (pow2(pout) * e_cancel)) by (nonlinear_arith);
        assert(pout + (40 - wout * c) as nat == (40 - bb) as nat);
    }
    assert(e_cancel * (pend_val * pow2(pin)) == (pend_val * pow2(pin)) * e_cancel)
        by (nonlinear_arith);
    assert(e_cancel * (v * pow2(pout)) == (v * pow2(pout)) * e_cancel) by (nonlinear_arith);
    lemma_mul_equality_converse(
        e_cancel as int,
        (pend_val * pow2(pin)) as int,
        (v * pow2(pout)) as int,
    );
    assert(pend_val * pow2(pin) == v * pow2(pout));
    // assemble
    assert((a_val * pow2(wout * c) + pend_val) * pow2(pin) == (a_val * pow2(wout * c)) * pow2(pin)
        + pend_val * pow2(pin)) by (nonlinear_arith);
    assert((a_val * pow2(win * m) + v) * pow2(pout) == (a_val * pow2(win * m)) * pow2(pout) + v
        * pow2(pout)) by (nonlinear_arith);
    assert((a_val * pow2(wout * c)) * pow2(pin) == (a_val * pow2(win * m)) * pow2(pout)) by {
        lemma_pow2_adds(wout * c, pin);
        lemma_pow2_adds(win * m, pout);
        assert(wout * c + pin == win * m + pout) by {
            assert(win * m == win * ((m - 1) as nat) + win) by (nonlinear_arith)
                requires
                    m >= 1,
            ;
            assert(win * ((m - 1) as nat) == (m - 1) * win) by (nonlinear_arith)
                requires
                    m >= 1,
            ;
        }
        assert((a_val * pow2(wout * c)) * pow2(pin) == a_val * (pow2(wout * c) * pow2(pin)))
            by (nonlinear_arith);
        assert((a_val * pow2(win * m)) * pow2(pout) == a_val * (pow2(win * m) * pow2(pout)))
            by (nonlinear_arith);
    }
}

/// The symbol count never falls as the bit length grows.
pub proof fn lemma_required_len_monotone(b1: nat, b2: nat, w: nat)
    requires
        w > 0,
        b1 <= b2,
    ensures
        required_len(b1, w) <= required_len(b2, w),
{
    lemma_ceil_div(b1, w);
    lemma_ceil_div(b2, w);
    lemma_div_is_ordered((b1 + w - 1) as int, (b2 + w - 1) as int, w as int);
}

/// No symbols are needed exactly for an empty payload.
pub proof fn lemma_required_len_zero(bits: nat, w: nat)
    requires
        w > 0,
    ensures
        required_len(bits, w) == 0 <==> bits == 0,
{
    if bits == 0 {
        lemma_small_mod(0, w);
        lemma_div_of_small(0, w);
    } else {
        lemma_required_len_bounds(bits, w);
        if required_len(bits, w) == 0 {
            assert(required_len(bits, w) * w == 0) by (nonlinear_arith)
                requires
                    required_len(bits, w) == 0,
            ;
        }
    }
}

/// The final symbol of a stream inherits the trailing zeros of the stream's
/// value.
pub proof fn lemma_trailing_from_val(s: Seq<u8>, w: nat, live: nat)
    requires
        s.len() > 0,
        live <= w,
        stream_val(s, w) % pow2((w - live) as nat) == 0,
    ensures
        trailing_zero(s.last(), w, live),
{
    let m = pow2((w - live) as nat);
    lemma_pow2_pos((w - live) as nat);
    lemma_pow2_pos(live);
    let k = stream_val(s.drop_last(), w);
    lemma_pow2_adds(live, (w - live) as nat);
    assert(k * (pow2(live) * m) == (k * pow2(live)) * m) by (nonlinear_arith);
    assert(stream_val(s, w) == (k * pow2(live)) * m + s.last());
    assert((k * pow2(live)) * m == m * (k * pow2(live))) by (nonlinear_arith);
    lemma_mod_multiples_vanish((k * pow2(live)) as int, s.last() as int, m as int);
}

/// A value that matches the input stream across the two paddings is the
/// payload left-justified in the output width.
pub proof fn lemma_stream_conversion(q: Seq<u8>, outv: nat, bits: nat, win: nat, wout: nat)
    requires
        (win == 5 && wout == 8) || (win == 8 && wout == 5),
        bits > 0,
        stream_ok(q, win, bits),
        outv * pow2(pad_bits(bits, win)) == stream_val(q, win) * pow2(pad_bits(bits, wout)),
    ensures
        outv == payload(q, win, bits) * pow2(pad_bits(bits, wout)),
{
    let f = live_bits(bits, win);
    let n = q.len();
    let pin = pad_bits(bits, win);
    let pout = pad_bits(bits, wout);
    lemma_live_bits_range(bits, win);
    lemma_bits_decomposition(bits, win);
    assert(pin == (win - f) as nat) by {
        assert(win * n == win * ((n - 1) as nat) + win) by (nonlinear_arith)
            requires
                n >= 1,
        ;
        assert(n * win == win * n) by (nonlinear_arith);
        assert(required_len(bits, win) >= 1) by {
            lemma_required_len_bounds(bits, win);
            assert(0 * win == 0) by (nonlinear_arith);
        }
    }
    lemma_stream_val_trailing(q, win, f);
    lemma_pow2_pos(pin);
    lemma_div_exact(stream_val(q, win), pow2(pin));
    let p = payload(q, win, bits);
    assert(stream_val(q, win) == p * pow2(pin));
    assert(outv * pow2(pin) == (p * pow2(pout)) * pow2(pin)) by (nonlinear_arith)
        requires
            outv * pow2(pin) == (p * pow2(pin)) * pow2(pout),
    ;
    assert(pow2(pin) * outv == outv * pow2(pin)) by (nonlinear_arith);
    assert(pow2(pin) * (p * pow2(pout)) == (p * pow2(pout)) * pow2(pin)) by (nonlinear_arith);
    lemma_mul_equality_converse(pow2(pin) as int, outv as int, (p * pow2(pout)) as int);
    assert((stream_val(q, win) * pow2(pout)) == (p * pow2(pin)) * pow2(pout));
}

} // verus!
