//! The code buffer: a 64-bit shift register that turns the flat input byte
//! stream into fixed-but-growing-width code words, in either MSB-first or
//! LSB-first bit packing.
//!
//! The register is modelled by the pair (`buffered()`, `bit_count()`): the
//! natural number formed by the buffered bits and how many bits there are.
//! Appending a stream byte and extracting a code are pure arithmetic on that
//! pair: LSB-first packing appends at weight `2^bits` and extracts low bits;
//! MSB-first packing multiplies by 256 and extracts high bits.

use vstd::prelude::*;

use vstd::arithmetic::div_mod::lemma_div_by_multiple;
use vstd::arithmetic::div_mod::lemma_div_denominator;
use vstd::arithmetic::div_mod::lemma_fundamental_div_mod;
use vstd::arithmetic::div_mod::lemma_mod_division_less_than_divisor;
use vstd::arithmetic::div_mod::lemma_mod_multiples_basic;
use vstd::arithmetic::div_mod::lemma_mod_multiples_vanish;
use vstd::arithmetic::div_mod::lemma_multiply_divide_lt;
use vstd::arithmetic::div_mod::lemma_small_mod;
use vstd::arithmetic::mul::lemma_mul_inequality;
use vstd::arithmetic::mul::lemma_mul_is_distributive_add_other_way;
use vstd::arithmetic::power2::lemma2_to64;
use vstd::arithmetic::power2::lemma_pow2_adds;
use vstd::arithmetic::power2::lemma_pow2_pos;
use vstd::arithmetic::power2::pow2;
use vstd::bits::lemma_u16_pow2_no_overflow;
use vstd::bits::lemma_u16_shl_is_mul;
use vstd::bits::lemma_u64_low_bits_mask_is_mod;
use vstd::bits::lemma_u64_pow2_no_overflow;
use vstd::bits::lemma_u64_shl_is_mul;
use vstd::bits::lemma_u64_shr_is_div;
use vstd::bits::low_bits_mask;

use crate::BitOrder;
use crate::Code;

verus! {

/// How many codes one look-ahead batch may hold: at the maximum code width
/// the 64-bit register holds at least this many whole codes after a refill.
pub const BURST: usize = 6;

/// Appending one stream byte to a bit store holding the value `val` in
/// `bits` bits.
pub open spec fn spec_push_byte(order: BitOrder, val: nat, bits: nat, b: u8) -> nat {
    match order {
        BitOrder::Lsb => val + (b as nat) * pow2(bits),
        BitOrder::Msb => val * 256 + b as nat,
    }
}

/// Appending a whole byte sequence, oldest byte first.
pub open spec fn spec_push_bytes(order: BitOrder, val: nat, bits: nat, bytes: Seq<u8>) -> nat
    decreases bytes.len(),
{
    if bytes.len() == 0 {
        val
    } else {
        spec_push_bytes(
            order,
            spec_push_byte(order, val, bits, bytes[0]),
            bits + 8,
            bytes.drop_first(),
        )
    }
}

/// Appending `s` and then one more byte is appending `s.push(b)`.
pub proof fn lemma_push_bytes_snoc(order: BitOrder, val: nat, bits: nat, s: Seq<u8>, b: u8)
    ensures
        spec_push_bytes(order, val, bits, s.push(b)) == spec_push_byte(
            order,
            spec_push_bytes(order, val, bits, s),
            (bits + 8 * s.len()) as nat,
            b,
        ),
    decreases s.len(),
{
    if s.len() == 0 {
        let s1 = s.push(b);
        assert(s1.drop_first() =~= Seq::<u8>::empty());
        assert(s1[0] == b);
        assert(spec_push_bytes(
            order,
            spec_push_byte(order, val, bits, b),
            bits + 8,
            s1.drop_first(),
        ) == spec_push_byte(order, val, bits, b));
        assert(spec_push_bytes(order, val, bits, s1) == spec_push_bytes(
            order,
            spec_push_byte(order, val, bits, s1[0]),
            bits + 8,
            s1.drop_first(),
        ));
    } else {
        assert(s.push(b)[0] == s[0]);
        assert(s.push(b).drop_first() =~= s.drop_first().push(b));
        lemma_push_bytes_snoc(
            order,
            spec_push_byte(order, val, bits, s[0]),
            bits + 8,
            s.drop_first(),
            b,
        );
    }
}

/// Appending `s1` and then `s2` is appending `s1 + s2`.
pub proof fn lemma_push_bytes_append(order: BitOrder, val: nat, bits: nat, s1: Seq<u8>, s2: Seq<u8>)
    ensures
        spec_push_bytes(order, val, bits, s1 + s2) == spec_push_bytes(
            order,
            spec_push_bytes(order, val, bits, s1),
            (bits + 8 * s1.len()) as nat,
            s2,
        ),
    decreases s1.len(),
{
    if s1.len() == 0 {
        assert(s1 + s2 =~= s2);
    } else {
        assert((s1 + s2)[0] == s1[0]);
        assert((s1 + s2).drop_first() =~= s1.drop_first() + s2);
        lemma_push_bytes_append(
            order,
            spec_push_byte(order, val, bits, s1[0]),
            bits + 8,
            s1.drop_first(),
            s2,
        );
    }
}

/// The oldest `cs`-bit code in a store of `b` bits holding `l`.
pub open spec fn spec_first_code(order: BitOrder, l: nat, b: nat, cs: nat) -> nat {
    match order {
        BitOrder::Lsb => l % pow2(cs),
        BitOrder::Msb => l / pow2((b - cs) as nat),
    }
}

/// What the store holds once that code is removed.
pub open spec fn spec_rest(order: BitOrder, l: nat, b: nat, cs: nat) -> nat {
    match order {
        BitOrder::Lsb => l / pow2(cs),
        BitOrder::Msb => l % pow2((b - cs) as nat),
    }
}

/// The `i`-th code (0-based) among the buffered bits, oldest first.
pub open spec fn spec_code_at(order: BitOrder, l: nat, b: nat, cs: nat, i: nat) -> nat
    decreases i,
{
    if i == 0 {
        spec_first_code(order, l, b, cs)
    } else {
        spec_code_at(order, spec_rest(order, l, b, cs), (b - cs) as nat, cs, (i - 1) as nat)
    }
}

/// Appending a byte at the back commutes with taking a code off the front:
/// the oldest code is unchanged, and the byte rides along into the rest.
pub proof fn lemma_first_rest_push(order: BitOrder, l: nat, b: nat, cs: nat, x: u8)
    requires
        0 < cs <= b,
    ensures
        spec_first_code(order, spec_push_byte(order, l, b, x), (b + 8) as nat, cs)
            == spec_first_code(order, l, b, cs),
        spec_rest(order, spec_push_byte(order, l, b, x), (b + 8) as nat, cs) == spec_push_byte(
            order,
            spec_rest(order, l, b, cs),
            (b - cs) as nat,
            x,
        ),
{
    lemma_pow2_pos(cs);
    lemma_pow2_pos((b - cs) as nat);
    lemma_pow2_adds((b - cs) as nat, cs);
    lemma_pow2_adds((b - cs) as nat, 8);
    match order {
        BitOrder::Lsb => {
            let j = (x as nat) * pow2((b - cs) as nat);
            assert((x as nat) * pow2(b) == j * pow2(cs)) by (nonlinear_arith)
                requires
                    pow2(b) == pow2((b - cs) as nat) * pow2(cs),
                    j == (x as nat) * pow2((b - cs) as nat),
            ;
            assert((l + (x as nat) * pow2(b)) % pow2(cs) == l % pow2(cs)) by {
                vstd::arithmetic::div_mod::lemma_mod_multiples_vanish(
                    j as int,
                    l as int,
                    pow2(cs) as int,
                );
                assert(pow2(cs) * j == j * pow2(cs)) by (nonlinear_arith);
            }
            assert((l + (x as nat) * pow2(b)) / pow2(cs) == l / pow2(cs) + j) by {
                vstd::arithmetic::div_mod::lemma_hoist_over_denominator(
                    l as int,
                    j as int,
                    pow2(cs),
                );
                assert(j * pow2(cs) == (x as nat) * pow2(b));
            }
        },
        BitOrder::Msb => {
            let q = l / pow2((b - cs) as nat);
            let r = l % pow2((b - cs) as nat);
            lemma_fundamental_div_mod(l as int, pow2((b - cs) as nat) as int);
            lemma_mod_division_less_than_divisor(l as int, pow2((b - cs) as nat) as int);
            // l * 256 + x == q * (2^(b-cs) * 256) + (r * 256 + x), the tail
            // below the divisor.
            let big = pow2((b + 8 - cs) as nat);
            assert(big == pow2((b - cs) as nat) * 256) by {
                lemma2_to64();
            }
            assert(l * 256 + (x as nat) == big * q + (r * 256 + (x as nat))) by (nonlinear_arith)
                requires
                    l == pow2((b - cs) as nat) * q + r,
                    big == pow2((b - cs) as nat) * 256,
            ;
            assert(r * 256 + (x as nat) < big) by (nonlinear_arith)
                requires
                    r < pow2((b - cs) as nat),
                    (x as nat) < 256,
                    big == pow2((b - cs) as nat) * 256,
            ;
            lemma_pow2_pos((b + 8 - cs) as nat);
            assert((l * 256 + (x as nat)) / big == q) by {
                vstd::arithmetic::div_mod::lemma_hoist_over_denominator(
                    (r * 256 + (x as nat)) as int,
                    q as int,
                    big,
                );
                vstd::arithmetic::div_mod::lemma_basic_div(
                    (r * 256 + (x as nat)) as int,
                    big as int,
                );
                assert(q * big == big * q) by (nonlinear_arith);
            }
            assert((l * 256 + (x as nat)) % big == r * 256 + (x as nat)) by {
                lemma_mod_multiples_vanish(
                    q as int,
                    (r * 256 + (x as nat)) as int,
                    big as int,
                );
                lemma_small_mod((r * 256 + (x as nat)) as nat, big);
            }
            assert((b + 8) - cs == (b - cs) + 8);
        },
    }
}

/// The store after removing the oldest `k` codes.
pub open spec fn spec_rest_k(order: BitOrder, l: nat, b: nat, cs: nat, k: nat) -> nat
    decreases k,
{
    if k == 0 {
        l
    } else {
        spec_rest_k(order, spec_rest(order, l, b, cs), (b - cs) as nat, cs, (k - 1) as nat)
    }
}

/// Code `k + i` of the original store is code `i` of the store with `k`
/// codes removed.
pub proof fn lemma_code_at_shift(order: BitOrder, l: nat, b: nat, cs: nat, k: nat, i: nat)
    requires
        (k + i + 1) * cs <= b,
    ensures
        spec_code_at(order, l, b, cs, (k + i) as nat) == spec_code_at(
            order,
            spec_rest_k(order, l, b, cs, k),
            (b - k * cs) as nat,
            cs,
            i,
        ),
    decreases k,
{
    reveal_with_fuel(spec_code_at, 2);
    reveal_with_fuel(spec_rest_k, 2);
    if k > 0 {
        assert((k + i) * cs <= (b - cs) && (b - cs) as nat - (k - 1) * cs == b - k * cs)
            by (nonlinear_arith)
            requires
                (k + i + 1) * cs <= b,
                k >= 1,
        ;
        lemma_code_at_shift(
            order,
            spec_rest(order, l, b, cs),
            (b - cs) as nat,
            cs,
            (k - 1) as nat,
            i,
        );
        assert(spec_code_at(order, l, b, cs, (k + i) as nat) == spec_code_at(
            order,
            spec_rest(order, l, b, cs),
            (b - cs) as nat,
            cs,
            ((k + i) - 1) as nat,
        ));
        assert(spec_rest_k(order, l, b, cs, k) == spec_rest_k(
            order,
            spec_rest(order, l, b, cs),
            (b - cs) as nat,
            cs,
            (k - 1) as nat,
        ));
        assert(((b - cs) as nat - (k - 1) as nat * cs) as nat == (b - k * cs) as nat)
            by (nonlinear_arith)
            requires
                (k + i + 1) * cs <= b,
                k >= 1,
        ;
    } else {
        assert(spec_rest_k(order, l, b, cs, 0) == l);
        assert((b - k * cs) as nat == b);
    }
}

/// Removing `k + 1` codes is removing `k` and then one more.
pub proof fn lemma_rest_k_snoc(order: BitOrder, l: nat, b: nat, cs: nat, k: nat)
    requires
        (k + 1) * cs <= b,
    ensures
        spec_rest_k(order, l, b, cs, (k + 1) as nat) == spec_rest(
            order,
            spec_rest_k(order, l, b, cs, k),
            (b - k * cs) as nat,
            cs,
        ),
    decreases k,
{
    reveal_with_fuel(spec_rest_k, 3);
    if k > 0 {
        assert(k * cs <= (b - cs) && (b - cs) as nat - (k - 1) * cs == b - k * cs)
            by (nonlinear_arith)
            requires
                (k + 1) * cs <= b,
                k >= 1,
        ;
        lemma_rest_k_snoc(order, spec_rest(order, l, b, cs), (b - cs) as nat, cs, (k - 1) as nat);
        assert(spec_rest_k(order, l, b, cs, (k + 1) as nat) == spec_rest_k(
            order,
            spec_rest(order, l, b, cs),
            (b - cs) as nat,
            cs,
            k,
        ));
        assert(spec_rest_k(order, l, b, cs, k) == spec_rest_k(
            order,
            spec_rest(order, l, b, cs),
            (b - cs) as nat,
            cs,
            (k - 1) as nat,
        ));
    } else {
        assert(spec_rest_k(order, l, b, cs, 1) == spec_rest_k(
            order,
            spec_rest(order, l, b, cs),
            (b - cs) as nat,
            cs,
            0,
        ));
    }
}

/// The widest code width a buffer built for `min_size` can reach: normally
/// `MAX_CODESIZE`; the degenerate `min_size` of 12 starts one past it and
/// never grows.
pub open spec fn spec_max_width(min_size: u8) -> int {
    if min_size + 1 > crate::MAX_CODESIZE as int {
        min_size + 1
    } else {
        crate::MAX_CODESIZE as int
    }
}

/// `1u64 << e` is `pow2(e)` for every in-range shift.
pub proof fn lemma_shl1_is_pow2(e: u64)
    requires
        e < 64,
    ensures
        (1u64 << e) as nat == pow2(e as nat),
        pow2(e as nat) <= u64::MAX,
{
    lemma_u64_pow2_no_overflow(e as nat);
    lemma_u64_shl_is_mul(1u64, e);
}

/// `1u16 << e` is `pow2(e)` for every in-range shift.
pub proof fn lemma_u16_shl1_is_pow2(e: u8)
    requires
        e < 16,
    ensures
        (1u16 << e) as nat == pow2(e as nat),
{
    lemma_u16_pow2_no_overflow(e as nat);
    lemma_u16_shl_is_mul(1u16, e as u16);
}

/// The 64-bit shift register.  `bit_buffer` keeps `bits` valid bits: at the
/// low end for LSB-first order, at the high end for MSB-first order.
#[derive(Clone, Copy)]
pub struct CodeBuffer {
    order: BitOrder,
    bit_buffer: u64,
    code_mask: u16,
    code_size: u8,
    bits: u8,
}

impl CodeBuffer {
    pub closed spec fn spec_order(self) -> BitOrder {
        self.order
    }

    pub closed spec fn spec_code_size(self) -> nat {
        self.code_size as nat
    }

    pub closed spec fn spec_mask(self) -> u16 {
        self.code_mask
    }

    /// How many buffered bits the register holds.
    pub closed spec fn bit_count(self) -> nat {
        self.bits as nat
    }

    /// The number the buffered bits form.
    pub closed spec fn buffered(self) -> nat {
        match self.order {
            BitOrder::Lsb => self.bit_buffer as nat,
            BitOrder::Msb => (self.bit_buffer as nat) / pow2((64 - self.bits) as nat),
        }
    }

    /// In MSB-first order the register's unused low bits are all clear.
    pub closed spec fn register_aligned(self) -> bool {
        self.spec_order() == BitOrder::Msb ==> (self.bit_buffer as nat) % pow2(
            (64 - self.bits) as nat,
        ) == 0
    }

    pub open spec fn wf(self) -> bool {
        &&& 3 <= self.spec_code_size() <= 13
        &&& self.spec_mask() as nat == (pow2(self.spec_code_size()) - 1) as nat
        &&& self.bit_count() <= 64
        &&& self.buffered() < pow2(self.bit_count())
        &&& self.register_aligned()
    }

    /// A fresh register for codes of `min_size + 1` bits, holding no bits.
    pub fn new(order: BitOrder, min_size: u8) -> (r: CodeBuffer)
        requires
            2 <= min_size <= 12,
        ensures
            r.wf(),
            r.spec_order() == order,
            r.bit_count() == 0,
            r.buffered() == 0,
            r.spec_code_size() == min_size + 1,
    {
        let code_size = min_size + 1;
        proof {
            lemma_u16_shl1_is_pow2(code_size);
            lemma_pow2_pos(code_size as nat);
            lemma2_to64();
            lemma_pow2_pos(64);
            lemma_small_mod(0nat, pow2(64));
            vstd::arithmetic::div_mod::lemma_basic_div(0, pow2(64) as int);
        }
        let code_mask = (1u16 << code_size) - 1;
        CodeBuffer { order, bit_buffer: 0, code_mask, code_size, bits: 0 }
    }

    /// Narrows the code width back to `min_size + 1` (after a clear code),
    /// keeping the buffered bits: the stream position is unchanged.
    pub fn reset(&mut self, min_size: u8)
        requires
            old(self).wf(),
            2 <= min_size <= 12,
        ensures
            final(self).wf(),
            final(self).spec_order() == old(self).spec_order(),
            final(self).bit_count() == old(self).bit_count(),
            final(self).buffered() == old(self).buffered(),
            final(self).spec_code_size() == min_size + 1,
    {
        proof {
            lemma_u16_shl1_is_pow2((min_size + 1) as u8);
            lemma_pow2_pos((min_size + 1) as nat);
        }
        self.code_size = min_size + 1;
        self.code_mask = (1u16 << self.code_size) - 1;
    }

    /// One more bit of code width; the mask gains one bit.
    pub fn bump_code_size(&mut self)
        requires
            old(self).wf(),
            old(self).spec_code_size() <= 12,
        ensures
            final(self).wf(),
            final(self).spec_order() == old(self).spec_order(),
            final(self).bit_count() == old(self).bit_count(),
            final(self).buffered() == old(self).buffered(),
            final(self).spec_code_size() == old(self).spec_code_size() + 1,
    {
        proof {
            let cs = self.code_size;
            let m = self.code_mask;
            let cs1: u8 = (cs + 1) as u8;
            lemma_u16_shl1_is_pow2(cs);
            lemma_u16_shl1_is_pow2(cs1);
            lemma_pow2_pos(self.spec_code_size());
            assert(((m << 1u16) | 1u16) == (1u16 << cs1) - 1) by (bit_vector)
                requires
                    3 <= cs <= 12,
                    cs1 == cs + 1,
                    m == (1u16 << cs) - 1,
            ;
        }
        self.code_size = self.code_size + 1;
        self.code_mask = (self.code_mask << 1) | 1;
    }

    /// The bit order this register was built with.
    pub fn order(&self) -> (r: BitOrder)
        ensures
            r == self.spec_order(),
    {
        self.order
    }

    /// The largest code the current width can express: the code mask.
    pub fn max_code(&self) -> (r: Code)
        ensures
            r == self.spec_mask(),
    {
        self.code_mask
    }

    pub fn code_size(&self) -> (r: u8)
        ensures
            r as nat == self.spec_code_size(),
    {
        self.code_size
    }

    /// Installs one stream byte into the register.
    fn push_byte(&mut self, b: u8)
        requires
            old(self).wf(),
            old(self).bit_count() <= 56,
        ensures
            final(self).wf(),
            final(self).spec_order() == old(self).spec_order(),
            final(self).spec_code_size() == old(self).spec_code_size(),
            final(self).spec_mask() == old(self).spec_mask(),
            final(self).bit_count() == old(self).bit_count() + 8,
            final(self).buffered() == spec_push_byte(
                old(self).spec_order(),
                old(self).buffered(),
                old(self).bit_count(),
                b,
            ),
    {
        let x = b as u64;
        match self.order {
            BitOrder::Lsb => {
                let sh = self.bits;
                proof {
                    let bb = self.bit_buffer;
                    lemma_shl1_is_pow2(sh as u64);
                    assert((bb | (x << (sh as u64))) == bb + x * (1u64 << (sh as u64)))
                        by (bit_vector)
                        requires
                            sh <= 56,
                            x < 256,
                            bb < (1u64 << (sh as u64)),
                    ;
                    if sh <= 55 {
                        lemma_shl1_is_pow2((sh + 8) as u64);
                        assert(bb + x * (1u64 << (sh as u64)) < (1u64 << ((sh + 8) as u64)))
                            by (bit_vector)
                            requires
                                sh <= 55,
                                x < 256,
                                bb < (1u64 << (sh as u64)),
                        ;
                    } else {
                        // The register becomes exactly full: 64 bits.
                        lemma2_to64();
                        vstd::arithmetic::power2::lemma2_to64_rest();
                        lemma_pow2_adds(63, 1);
                    }
                }
                self.bit_buffer = self.bit_buffer | (x << (sh as u64));
                self.bits = self.bits + 8;
            },
            BitOrder::Msb => {
                let sh = 56 - self.bits;
                proof {
                    let bb = self.bit_buffer;
                    let b0 = self.bits;
                    let t = (64 - b0 - 8) as nat;
                    let k = self.buffered();
                    lemma_pow2_pos(t);
                    lemma_pow2_pos((64 - b0) as nat);
                    lemma_pow2_adds(t, 8);
                    lemma2_to64();
                    lemma_fundamental_div_mod(bb as int, pow2((64 - b0) as nat) as int);
                    assert(bb as nat == pow2((64 - b0) as nat) * k);
                    // The register's low bits are clear, so installing the
                    // byte adds it at exactly its weight.
                    if b0 == 0 {
                        assert(pow2(64) == pow2(63) * 2) by {
                            lemma_pow2_adds(63, 1);
                        }
                        lemma_u64_pow2_no_overflow(63);
                        assert((bb as nat) < pow2(64));
                        lemma_small_mod(bb as nat, pow2(64));
                        assert(bb == 0);
                        assert((0u64 | (x << 56u64)) == x * (1u64 << 56u64)) by (bit_vector)
                            requires
                                x < 256,
                        ;
                        lemma_shl1_is_pow2(56);
                    } else {
                        lemma_shl1_is_pow2((64 - b0) as u64);
                        lemma_shl1_is_pow2(sh as u64);
                        let t64: u64 = (64 - b0) as u64;
                        assert((bb | (x << (sh as u64))) == bb + x * (1u64 << (sh as u64)))
                            by (bit_vector)
                            requires
                                1 <= b0 <= 56,
                                sh == 56 - b0,
                                t64 == 64 - b0,
                                x < 256,
                                bb % (1u64 << t64) == 0,
                        ;
                    }
                }
                self.bit_buffer = self.bit_buffer | (x << (sh as u64));
                self.bits = self.bits + 8;
                proof {
                    let b0 = old(self).bits;
                    let t = (64 - b0 - 8) as nat;
                    let k = old(self).buffered();
                    let total = (k * 256 + x as nat) as nat;
                    assert(self.bit_buffer as nat == total * pow2(t)) by {
                        assert(old(self).bit_buffer as nat == pow2((64 - b0) as nat) * k);
                        assert(pow2((64 - b0) as nat) == pow2(t) * 256) by {
                            lemma_pow2_adds(t, 8);
                            lemma2_to64();
                        }
                        assert((pow2(t) * 256) * k == (k * 256) * pow2(t)) by (nonlinear_arith);
                        assert(x as nat * pow2(t) == pow2(t) * x as nat) by (nonlinear_arith);
                        lemma_mul_is_distributive_add_other_way(
                            pow2(t) as int,
                            (k * 256) as int,
                            x as int,
                        );
                    }
                    lemma_pow2_pos(t);
                    assert((self.bit_buffer as nat) % pow2(t) == 0) by {
                        lemma_mod_multiples_basic(total as int, pow2(t) as int);
                    }
                    assert((self.bit_buffer as nat) / pow2(t) == total) by {
                        lemma_div_by_multiple(total as int, pow2(t) as int);
                    }
                    assert(total < pow2((b0 + 8) as nat)) by {
                        assert(k < pow2(b0 as nat));
                        assert(k * 256 <= (pow2(b0 as nat) - 1) * 256) by {
                            lemma_mul_inequality(k as int, pow2(b0 as nat) - 1, 256);
                        }
                        lemma_pow2_adds(b0 as nat, 8);
                        lemma2_to64();
                    }
                }
            },
        }
    }

    /// Pulls whole bytes from `inp[pos ..]` into the register until there is
    /// no room for another byte or the input is exhausted; returns the new
    /// input position.  Bytes enter the store oldest first.
    pub fn refill_bits(&mut self, inp: &[u8], pos: usize) -> (new_pos: usize)
        requires
            old(self).wf(),
            pos <= inp@.len(),
        ensures
            final(self).wf(),
            final(self).spec_order() == old(self).spec_order(),
            final(self).spec_code_size() == old(self).spec_code_size(),
            final(self).spec_mask() == old(self).spec_mask(),
            pos <= new_pos <= inp@.len(),
            final(self).bit_count() == old(self).bit_count() + 8 * (new_pos - pos),
            new_pos as int == inp@.len() || final(self).bit_count() > 56,
            final(self).buffered() == spec_push_bytes(
                old(self).spec_order(),
                old(self).buffered(),
                old(self).bit_count(),
                inp@.subrange(pos as int, new_pos as int),
            ),
    {
        let len = inp.len();
        let mut p = pos;
        proof {
            assert(inp@.subrange(pos as int, pos as int) =~= Seq::<u8>::empty());
        }
        while self.bits <= 56 && p < len
            invariant
                self.wf(),
                self.spec_order() == old(self).spec_order(),
                self.spec_code_size() == old(self).spec_code_size(),
                self.spec_mask() == old(self).spec_mask(),
                len == inp@.len(),
                pos <= p <= len,
                self.bit_count() == old(self).bit_count() + 8 * (p - pos),
                self.buffered() == spec_push_bytes(
                    old(self).spec_order(),
                    old(self).buffered(),
                    old(self).bit_count(),
                    inp@.subrange(pos as int, p as int),
                ),
            decreases len - p,
        {
            let b = inp[p];
            let ghost sofar = inp@.subrange(pos as int, p as int);
            self.push_byte(b);
            p = p + 1;
            proof {
                assert(inp@.subrange(pos as int, p as int) =~= sofar.push(b));
                lemma_push_bytes_snoc(
                    old(self).spec_order(),
                    old(self).buffered(),
                    old(self).bit_count(),
                    sofar,
                    b,
                );
            }
        }
        p
    }

    /// Removes and returns the oldest full code from the register; the
    /// register must hold at least one.
    fn extract(&mut self) -> (c: Code)
        requires
            old(self).wf(),
            old(self).spec_code_size() <= old(self).bit_count(),
        ensures
            final(self).wf(),
            final(self).spec_order() == old(self).spec_order(),
            final(self).spec_code_size() == old(self).spec_code_size(),
            final(self).spec_mask() == old(self).spec_mask(),
            final(self).bit_count() == old(self).bit_count() - old(self).spec_code_size(),
            c as nat == spec_first_code(
                old(self).spec_order(),
                old(self).buffered(),
                old(self).bit_count(),
                old(self).spec_code_size(),
            ),
            final(self).buffered() == spec_rest(
                old(self).spec_order(),
                old(self).buffered(),
                old(self).bit_count(),
                old(self).spec_code_size(),
            ),
            c <= old(self).spec_mask(),
    {
        let ghost cs = self.spec_code_size();
        let ghost b0 = self.bit_count();
        let ghost l0 = self.buffered();
        proof {
            lemma_pow2_pos(cs);
            lemma_pow2_pos((b0 - cs) as nat);
            lemma_pow2_adds((b0 - cs) as nat, cs);
        }
        match self.order {
            BitOrder::Lsb => {
                let mask64 = self.code_mask as u64;
                proof {
                    lemma_u64_low_bits_mask_is_mod(self.bit_buffer, cs);
                    lemma2_to64();
                    assert(low_bits_mask(cs) == mask64 as nat);
                    lemma_mod_division_less_than_divisor(self.bit_buffer as int, pow2(cs) as int);
                    lemma_u64_shr_is_div(self.bit_buffer, self.code_size as u64);
                    // The rest is shorter than the remaining bit count.
                    lemma_multiply_divide_lt(
                        self.bit_buffer as int,
                        pow2(cs) as int,
                        pow2((b0 - cs) as nat) as int,
                    );
                }
                let c = (self.bit_buffer & mask64) as u16;
                self.bit_buffer = self.bit_buffer >> self.code_size;
                self.bits = self.bits - self.code_size;
                c
            },
            BitOrder::Msb => {
                let csz = self.code_size;
                let sh = 64 - csz;
                let c = (self.bit_buffer >> (sh as u64)) as u16;
                proof {
                    let bb = self.bit_buffer;
                    lemma_u64_shr_is_div(bb, sh as u64);
                    lemma_pow2_pos((64 - b0) as nat);
                    lemma_pow2_pos((b0 - cs) as nat);
                    lemma_fundamental_div_mod(bb as int, pow2((64 - b0) as nat) as int);
                    assert(bb as nat == pow2((64 - b0) as nat) * l0);
                    lemma_pow2_adds((64 - b0) as nat, (b0 - cs) as nat);
                    assert((bb as nat) / pow2((64 - cs) as nat) == l0 / pow2((b0 - cs) as nat))
                        by {
                        lemma_div_denominator(
                            bb as int,
                            pow2((64 - b0) as nat) as int,
                            pow2((b0 - cs) as nat) as int,
                        );
                        lemma_div_by_multiple(l0 as int, pow2((64 - b0) as nat) as int);
                        assert(pow2((64 - b0) as nat) * l0 == l0 * pow2((64 - b0) as nat))
                            by (nonlinear_arith);
                    }
                    // The extracted code fits the mask.
                    lemma_multiply_divide_lt(
                        l0 as int,
                        pow2((b0 - cs) as nat) as int,
                        pow2(cs) as int,
                    );
                    lemma_mod_division_less_than_divisor(l0 as int, pow2((b0 - cs) as nat) as int);
                }
                let ghost q = l0 / pow2((b0 - cs) as nat);
                let ghost r = l0 % pow2((b0 - cs) as nat);
                proof {
                    let bb = self.bit_buffer;
                    lemma_pow2_pos((b0 - cs) as nat);
                    lemma_pow2_pos((64 - b0) as nat);
                    lemma_fundamental_div_mod(l0 as int, pow2((b0 - cs) as nat) as int);
                    // bb == q * 2^(64-cs) + r * 2^(64-b0)
                    assert(bb as nat == q * pow2((64 - cs) as nat) + r * pow2((64 - b0) as nat))
                        by {
                        assert(bb as nat == pow2((64 - b0) as nat) * (pow2((b0 - cs) as nat) * q
                            + r));
                        assert(pow2((64 - b0) as nat) * (pow2((b0 - cs) as nat) * q + r) == (pow2(
                            (64 - b0) as nat,
                        ) * pow2((b0 - cs) as nat)) * q + r * pow2((64 - b0) as nat))
                            by (nonlinear_arith);
                        lemma_pow2_adds((64 - b0) as nat, (b0 - cs) as nat);
                    }
                    lemma_shl1_is_pow2((64 - csz) as u64);
                    lemma_shl1_is_pow2(csz as u64);
                    let y: u64 = bb % (1u64 << (sh as u64));
                    assert((bb as nat) % pow2((64 - cs) as nat) == r * pow2((64 - b0) as nat)) by {
                        lemma_pow2_pos((64 - cs) as nat);
                        lemma_mod_multiples_vanish(
                            q as int,
                            (r * pow2((64 - b0) as nat)) as int,
                            pow2((64 - cs) as nat) as int,
                        );
                        assert(q * pow2((64 - cs) as nat) + r * pow2((64 - b0) as nat) == pow2((64
                            - cs) as nat) * q + r * pow2((64 - b0) as nat)) by (nonlinear_arith);
                        assert(r * pow2((64 - b0) as nat) < pow2((64 - cs) as nat)) by {
                            assert(r + 1 <= pow2((b0 - cs) as nat));
                            assert((r + 1) * pow2((64 - b0) as nat) <= pow2((b0 - cs) as nat)
                                * pow2((64 - b0) as nat)) by {
                                lemma_mul_inequality(
                                    (r + 1) as int,
                                    pow2((b0 - cs) as nat) as int,
                                    pow2((64 - b0) as nat) as int,
                                );
                            }
                            assert((r + 1) * pow2((64 - b0) as nat) == r * pow2((64 - b0) as nat)
                                + pow2((64 - b0) as nat)) by (nonlinear_arith);
                            lemma_pow2_adds((b0 - cs) as nat, (64 - b0) as nat);
                            lemma_pow2_pos((64 - b0) as nat);
                        }
                        lemma_small_mod(
                            (r * pow2((64 - b0) as nat)) as nat,
                            pow2((64 - cs) as nat),
                        );
                    }
                    assert(y as nat == r * pow2((64 - b0) as nat));
                    assert((y << (csz as u64)) as nat == y as nat * pow2(cs)) by {
                        lemma_pow2_pos((64 - cs) as nat);
                        lemma_mod_division_less_than_divisor(
                            bb as int,
                            pow2((64 - cs) as nat) as int,
                        );
                        lemma_mul_inequality(
                            y as int,
                            pow2((64 - cs) as nat) - 1,
                            pow2(cs) as int,
                        );
                        lemma_pow2_adds((64 - cs) as nat, cs);
                        assert((pow2((64 - cs) as nat) - 1) * pow2(cs) == pow2((64 - cs) as nat)
                            * pow2(cs) - pow2(cs)) by (nonlinear_arith);
                        lemma_pow2_pos(cs);
                        lemma2_to64();
                        vstd::arithmetic::power2::lemma2_to64_rest();
                        lemma_u64_shl_is_mul(y, csz as u64);
                    }
                    assert((r * pow2((64 - b0) as nat)) * pow2(cs) == r * pow2(
                        (64 - (b0 - cs)) as nat,
                    )) by {
                        lemma_pow2_adds((64 - b0) as nat, cs);
                        assert((r * pow2((64 - b0) as nat)) * pow2(cs) == r * (pow2(
                            (64 - b0) as nat,
                        ) * pow2(cs))) by (nonlinear_arith);
                    }
                    // New register contents: r at the top.
                    lemma_pow2_pos((64 - (b0 - cs)) as nat);
                    lemma_mod_multiples_basic(r as int, pow2((64 - (b0 - cs)) as nat) as int);
                    lemma_div_by_multiple(r as int, pow2((64 - (b0 - cs)) as nat) as int);
                    lemma_mod_division_less_than_divisor(l0 as int, pow2((b0 - cs) as nat) as int);
                }
                // Keep the low 64 - cs bits and move them to the top; the
                // extracted code's bits fall away.
                proof {
                    lemma_shl1_is_pow2(sh as u64);
                    lemma_pow2_pos(sh as nat);
                }
                let kept = self.bit_buffer % (1u64 << (sh as u64));
                self.bit_buffer = kept << (self.code_size as u64);
                self.bits = self.bits - self.code_size;
                c
            },
        }
    }

    /// Retrieves the next code, refilling from `inp[pos ..]` first if the
    /// register runs low; `None` when even the refilled register cannot hold
    /// one whole code — then all of `inp` has been consumed.
    pub fn next_symbol(&mut self, inp: &[u8], pos: usize) -> (r: (Option<Code>, usize))
        requires
            old(self).wf(),
            pos <= inp@.len(),
        ensures
            final(self).wf(),
            final(self).spec_order() == old(self).spec_order(),
            final(self).spec_code_size() == old(self).spec_code_size(),
            final(self).spec_mask() == old(self).spec_mask(),
            pos <= r.1 <= inp@.len(),
            old(self).bit_count() >= old(self).spec_code_size() ==> r.1 == pos,
            ({
                let cs = old(self).spec_code_size();
                let loaded = spec_push_bytes(
                    old(self).spec_order(),
                    old(self).buffered(),
                    old(self).bit_count(),
                    inp@.subrange(pos as int, r.1 as int),
                );
                let lbits = (old(self).bit_count() + 8 * (r.1 - pos)) as nat;
                if lbits < cs {
                    &&& r.0 is None
                    &&& r.1 == inp@.len()
                    &&& final(self).bit_count() == lbits
                    &&& final(self).buffered() == loaded
                } else {
                    &&& r.0 == Some((spec_first_code(old(self).spec_order(), loaded, lbits, cs)
                        as Code))
                    &&& spec_first_code(old(self).spec_order(), loaded, lbits, cs) <= old(
                        self,
                    ).spec_mask() as nat
                    &&& final(self).bit_count() == lbits - cs
                    &&& final(self).buffered() == spec_rest(
                        old(self).spec_order(),
                        loaded,
                        lbits,
                        cs,
                    )
                    &&& r.0 matches Some(c) && c <= old(self).spec_mask()
                }
            }),
    {
        let mut p = pos;
        if self.bits < self.code_size {
            p = self.refill_bits(inp, p);
        } else {
            proof {
                assert(inp@.subrange(pos as int, pos as int) =~= Seq::<u8>::empty());
            }
        }
        if self.bits < self.code_size {
            (None, p)
        } else {
            let c = self.extract();
            (Some(c), p)
        }
    }

    /// Non-destructively reads up to `BURST` whole codes from the buffered
    /// bits (no refill), writing them into `codes[0 ..]`; returns how many.
    pub fn peek_bits(&self, codes: &mut Vec<Code>) -> (cnt: usize)
        requires
            self.wf(),
            old(codes).len() == BURST,
        ensures
            final(codes).len() == BURST,
            cnt <= BURST,
            cnt * self.spec_code_size() <= self.bit_count(),
            cnt < BURST ==> self.bit_count() - cnt * self.spec_code_size()
                < self.spec_code_size(),
            forall|i: int|
                0 <= i < cnt ==> final(codes)@[i] as nat == spec_code_at(
                    self.spec_order(),
                    self.buffered(),
                    self.bit_count(),
                    self.spec_code_size(),
                    i as nat,
                ) && final(codes)@[i] <= self.spec_mask(),
            forall|i: int| cnt <= i < BURST ==> final(codes)@[i] == old(codes)@[i],
    {
        let mut tmp = *self;
        let mut cnt: usize = 0;
        while cnt < BURST && tmp.bits >= tmp.code_size
            invariant
                self.wf(),
                tmp.wf(),
                tmp.spec_order() == self.spec_order(),
                tmp.spec_code_size() == self.spec_code_size(),
                tmp.spec_mask() == self.spec_mask(),
                cnt <= BURST,
                cnt * self.spec_code_size() <= self.bit_count(),
                tmp.bit_count() == self.bit_count() - cnt * self.spec_code_size(),
                tmp.buffered() == spec_rest_k(
                    self.spec_order(),
                    self.buffered(),
                    self.bit_count(),
                    self.spec_code_size(),
                    cnt as nat,
                ),
                codes@.len() == BURST,
                forall|i: int|
                    0 <= i < cnt ==> codes@[i] as nat == spec_code_at(
                        self.spec_order(),
                        self.buffered(),
                        self.bit_count(),
                        self.spec_code_size(),
                        i as nat,
                    ) && codes@[i] <= self.spec_mask(),
                forall|i: int| cnt <= i < BURST ==> codes@[i] == old(codes)@[i],
            decreases BURST - cnt,
        {
            proof {
                assert(((cnt + 1) as nat) * self.spec_code_size() == (cnt as nat)
                    * self.spec_code_size() + self.spec_code_size()) by (nonlinear_arith);
                lemma_code_at_shift(
                    self.spec_order(),
                    self.buffered(),
                    self.bit_count(),
                    self.spec_code_size(),
                    cnt as nat,
                    0,
                );
                lemma_rest_k_snoc(
                    self.spec_order(),
                    self.buffered(),
                    self.bit_count(),
                    self.spec_code_size(),
                    cnt as nat,
                );
            }
            let c = tmp.extract();
            codes[cnt] = c;
            cnt = cnt + 1;
        }
        proof {
            if cnt < BURST {
                assert(tmp.bit_count() < self.spec_code_size());
            }
        }
        cnt
    }

    /// Removes the oldest `n` whole codes after a successful peek.
    pub fn consume_bits(&mut self, n: u8)
        requires
            old(self).wf(),
            n as nat <= BURST,
            (n as nat) * old(self).spec_code_size() <= old(self).bit_count(),
        ensures
            final(self).wf(),
            final(self).spec_order() == old(self).spec_order(),
            final(self).spec_code_size() == old(self).spec_code_size(),
            final(self).spec_mask() == old(self).spec_mask(),
            final(self).bit_count() == old(self).bit_count() - (n as nat)
                * old(self).spec_code_size(),
            final(self).buffered() == spec_rest_k(
                old(self).spec_order(),
                old(self).buffered(),
                old(self).bit_count(),
                old(self).spec_code_size(),
                n as nat,
            ),
    {
        let mut k: u8 = 0;
        while k < n
            invariant
                self.wf(),
                k <= n,
                n as nat <= BURST,
                self.spec_order() == old(self).spec_order(),
                self.spec_code_size() == old(self).spec_code_size(),
                self.spec_mask() == old(self).spec_mask(),
                (n as nat) * old(self).spec_code_size() <= old(self).bit_count(),
                self.bit_count() == old(self).bit_count() - (k as nat)
                    * old(self).spec_code_size(),
                self.buffered() == spec_rest_k(
                    old(self).spec_order(),
                    old(self).buffered(),
                    old(self).bit_count(),
                    old(self).spec_code_size(),
                    k as nat,
                ),
            decreases n - k,
        {
            proof {
                let cs = old(self).spec_code_size();
                let kk = k as nat;
                let nn = n as nat;
                assert(kk * cs + cs == (kk + 1) * cs && (kk + 1 <= nn ==> (kk + 1) * cs <= nn
                    * cs)) by (nonlinear_arith);
                lemma_rest_k_snoc(
                    old(self).spec_order(),
                    old(self).buffered(),
                    old(self).bit_count(),
                    cs,
                    kk,
                );
            }
            let _ = self.extract();
            k = k + 1;
        }
    }
}

/// One batch of peeked codes: a fixed-size scratch vector for `peek_bits`.
pub fn new_burst_vec() -> (r: Vec<Code>)
    ensures
        r@.len() == BURST,
{
    vec![0u16; BURST]
}

} // verus!
