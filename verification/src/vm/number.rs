//! Integers of any size, and binaries read and written as them.
use num_bigint::{BigInt, Sign};
use vstd::arithmetic::power2::{lemma_pow2_adds, lemma_pow2_pos, lemma_pow2_unfold, pow2};
use vstd::prelude::*;

use crate::vm::binary::{bytes, Bits, MAX_BITS};
use crate::vm::bits::{
    bit_of, bit_or_clear, bits_in, bits_make_bytes, byte_at, byte_from, byte_from_has, byte_is, bytes_hold_bits, to_bytes,
};
use crate::vm::heap::Heap;

verus! {

/// What some bytes are worth, the most significant first.
pub open spec fn bytes_value(s: Seq<u8>) -> int
    decreases s.len(),
{
    if s.len() == 0 {
        0
    } else {
        bytes_value(s.drop_last()) * 256 + s.last()
    }
}

/// What some bits are worth, the most significant first.
pub open spec fn bits_value(s: Seq<bool>) -> int
    decreases s.len(),
{
    if s.len() == 0 {
        0
    } else {
        bits_value(s.drop_last()) * 2 + (if s.last() {
            1int
        } else {
            0
        })
    }
}

/// An integer: whether it is below zero, and how far from zero it is, as bytes, the most
/// significant first.
#[derive(Clone, Debug)]
pub struct Int {
    pub negative: bool,
    pub magnitude: Vec<u8>,
}

/// The remainder of a division that rounds towards zero, which keeps the sign of `a`.
pub open spec fn remainder(a: int, b: int) -> int {
    let m = if b < 0 {
        -b
    } else {
        b
    };
    if a < 0 {
        -((-a) % m)
    } else {
        a % m
    }
}

impl Int {
    /// The number itself.
    pub open spec fn value(&self) -> int {
        if self.negative {
            -bytes_value(self.magnitude@)
        } else {
            bytes_value(self.magnitude@)
        }
    }

    /// There is at least one byte, and the first is not zero but for zero itself.
    pub open spec fn is_short(&self) -> bool {
        &&& self.magnitude@.len() >= 1
        &&& self.magnitude@.len() > 1 ==> self.magnitude@[0] != 0
    }

    /// The number as one of `num_bigint`'s, by `BigInt::from_bytes_be`, shifted left by
    /// `<<`, and read back by `BigInt::to_bytes_be`: it is multiplied by a power of two.
    /// Running out of memory is left unsaid.
    #[verifier::external_body]
    fn shl(&self, n: u64) -> (r: Int)
        requires
            n <= MAX_BITS,
        ensures
            r.value() == self.value() * pow2(n as nat),
            r.is_short(),
    {
        let sign = if self.negative { Sign::Minus } else { Sign::Plus };
        let (sign, magnitude) = (BigInt::from_bytes_be(sign, &self.magnitude) << n).to_bytes_be();
        Int { negative: sign == Sign::Minus, magnitude }
    }

    /// The number as one of `num_bigint`'s, shifted right by `>>`, and read back: it is
    /// divided by a power of two, rounding down.
    #[verifier::external_body]
    fn shr(&self, n: u64) -> (r: Int)
        ensures
            r.value() == self.value() / pow2(n as nat) as int,
            r.is_short(),
    {
        let sign = if self.negative { Sign::Minus } else { Sign::Plus };
        let (sign, magnitude) = (BigInt::from_bytes_be(sign, &self.magnitude) >> n).to_bytes_be();
        Int { negative: sign == Sign::Minus, magnitude }
    }

    /// Two numbers as `num_bigint`'s, added by `+`, and the sum read back.
    #[verifier::external_body]
    fn plus(&self, other: &Int) -> (r: Int)
        ensures
            r.value() == self.value() + other.value(),
            r.is_short(),
    {
        let a = if self.negative { Sign::Minus } else { Sign::Plus };
        let b = if other.negative { Sign::Minus } else { Sign::Plus };
        let sum = BigInt::from_bytes_be(a, &self.magnitude) + BigInt::from_bytes_be(b, &other.magnitude);
        let (sign, magnitude) = sum.to_bytes_be();
        Int { negative: sign == Sign::Minus, magnitude }
    }

    /// Two numbers as `num_bigint`'s, divided by `%`, and the remainder read back: it has
    /// the sign of the dividend.
    #[verifier::external_body]
    fn rem(&self, other: &Int) -> (r: Int)
        requires
            other.value() != 0,
        ensures
            r.value() == remainder(self.value(), other.value()),
            r.is_short(),
    {
        let a = if self.negative { Sign::Minus } else { Sign::Plus };
        let b = if other.negative { Sign::Minus } else { Sign::Plus };
        let left = BigInt::from_bytes_be(a, &self.magnitude) % BigInt::from_bytes_be(b, &other.magnitude);
        let (sign, magnitude) = left.to_bytes_be();
        Int { negative: sign == Sign::Minus, magnitude }
    }
}

/// Some clear bits.
pub open spec fn clear_bits(n: int) -> Seq<bool> {
    Seq::new(n as nat, |i: int| false)
}

/// Clear bits at the end multiply by a power of two.
proof fn shifted_value(b: Seq<bool>, n: nat)
    ensures
        bits_value(b + clear_bits(n as int)) == bits_value(b) * pow2(n),
    decreases n,
{
    let s = b + clear_bits(n as int);
    if n == 0 {
        assert(s =~= b);
        vstd::arithmetic::power2::lemma2_to64();
    } else {
        shifted_value(b, (n - 1) as nat);
        assert(s.drop_last() =~= b + clear_bits(n - 1));
        lemma_pow2_unfold(n);
        let (v, p) = (bits_value(b), pow2((n - 1) as nat) as int);
        assert(v * p * 2 == v * (2 * p)) by (nonlinear_arith);
    }
}

/// Eight more bits.
proof fn eight_bits_value(b: Seq<bool>, v: u8)
    ensures
        bits_value(b + bits_in(seq![v], 8)) == bits_value(b) * 256 + v,
{
    let e = bits_in(seq![v], 8);
    let s = b + e;
    let l = b.len() as int;
    assert(s.take(l) =~= b);
    assert(s.take(l + 8) =~= s);
    assert forall|j: int| 0 <= j < 8 implies #[trigger] bits_value(s.take(l + j + 1)) == bits_value(s.take(l + j)) * 2 + (if bit_of(
        v,
        j as u8,
    ) {
        1int
    } else {
        0
    }) by {
        let t = s.take(l + j + 1);
        assert(t.drop_last() =~= s.take(l + j));
        assert(t.last() == e[j]);
    }
    assert(bits_value(s.take(l + 0 + 1)) == bits_value(b) * 2 + (if bit_of(v, 0) {
        1int
    } else {
        0
    }));
    assert(bits_value(s.take(l + 1 + 1)) == bits_value(s.take(l + 1)) * 2 + (if bit_of(v, 1) {
        1int
    } else {
        0
    }));
    assert(bits_value(s.take(l + 2 + 1)) == bits_value(s.take(l + 2)) * 2 + (if bit_of(v, 2) {
        1int
    } else {
        0
    }));
    assert(bits_value(s.take(l + 3 + 1)) == bits_value(s.take(l + 3)) * 2 + (if bit_of(v, 3) {
        1int
    } else {
        0
    }));
    assert(bits_value(s.take(l + 4 + 1)) == bits_value(s.take(l + 4)) * 2 + (if bit_of(v, 4) {
        1int
    } else {
        0
    }));
    assert(bits_value(s.take(l + 5 + 1)) == bits_value(s.take(l + 5)) * 2 + (if bit_of(v, 5) {
        1int
    } else {
        0
    }));
    assert(bits_value(s.take(l + 6 + 1)) == bits_value(s.take(l + 6)) * 2 + (if bit_of(v, 6) {
        1int
    } else {
        0
    }));
    assert(bits_value(s.take(l + 7 + 1)) == bits_value(s.take(l + 7)) * 2 + (if bit_of(v, 7) {
        1int
    } else {
        0
    }));
    crate::vm::bits::byte_is_worth(v);
}

/// Bytes are worth what their bits are.
proof fn value_of_bytes(s: Seq<u8>)
    ensures
        bytes_value(s) == bits_value(bits_in(s, 8 * s.len() as int)),
    decreases s.len(),
{
    if s.len() > 0 {
        let t = s.drop_last();
        value_of_bytes(t);
        let last = bits_in(seq![s.last()], 8);
        eight_bits_value(bits_in(t, 8 * t.len() as int), s.last());
        assert(bits_in(s, 8 * s.len() as int) =~= bits_in(t, 8 * t.len() as int) + last);
    } else {
        assert(bits_in(s, 0) =~= Seq::<bool>::empty());
    }
}

/// So many bits are worth less than the power of two.
proof fn value_is_small(b: Seq<bool>)
    ensures
        0 <= bits_value(b) < pow2(b.len()),
    decreases b.len(),
{
    vstd::arithmetic::power2::lemma2_to64();
    if b.len() > 0 {
        value_is_small(b.drop_last());
        lemma_pow2_unfold(b.len());
    }
}

/// As many bits that are worth the same are the same.
proof fn value_decides(a: Seq<bool>, b: Seq<bool>)
    requires
        a.len() == b.len(),
        bits_value(a) == bits_value(b),
    ensures
        a == b,
    decreases a.len(),
{
    if a.len() > 0 {
        value_decides(a.drop_last(), b.drop_last());
        assert(a =~= a.drop_last().push(a.last()));
        assert(b =~= b.drop_last().push(b.last()));
    } else {
        assert(a =~= b);
    }
}

/// Zero bytes in front are worth nothing.
proof fn zeros_in_front(n: nat, s: Seq<u8>)
    ensures
        bytes_value(Seq::new(n, |i: int| 0u8) + s) == bytes_value(s),
    decreases n + s.len(),
{
    let z = Seq::new(n, |i: int| 0u8);
    if s.len() > 0 {
        zeros_in_front(n, s.drop_last());
        assert((z + s).drop_last() =~= z + s.drop_last());
    } else if n > 0 {
        zeros_in_front((n - 1) as nat, s);
        assert((z + s).drop_last() =~= Seq::new((n - 1) as nat, |i: int| 0u8) + s);
    }
}

/// A number with no zero in front is worth at least as much as a one there.
proof fn value_is_large(s: Seq<u8>)
    requires
        s.len() > 0,
        s[0] != 0,
    ensures
        bytes_value(s) >= pow2((8 * (s.len() - 1)) as nat),
    decreases s.len(),
{
    vstd::arithmetic::power2::lemma2_to64();
    if s.len() > 1 {
        value_is_large(s.drop_last());
        lemma_pow2_adds((8 * (s.len() - 2)) as nat, 8);
        assert(bytes_value(s) == bytes_value(s.drop_last()) * 256 + s.last());
    } else {
        assert(s.drop_last() =~= Seq::<u8>::empty());
        assert(bytes_value(s.drop_last()) == 0);
    }
}

/// A power of two is at least one that is no larger.
proof fn pow2_grows(a: nat, b: nat)
    requires
        a <= b,
    ensures
        pow2(a) <= pow2(b),
    decreases b,
{
    if a < b {
        pow2_grows(a, (b - 1) as nat);
        lemma_pow2_unfold(b);
    }
}

/// The low `width` bits of a number, the most significant first: those of its remainder,
/// which is not negative, by a power of two.
pub open spec fn low_bits(v: int, width: nat) -> Seq<bool> {
    uint_bits(v % pow2(width) as int, width)
}

/// The bits of a number that is not negative.
pub open spec fn uint_bits(x: int, width: nat) -> Seq<bool> {
    Seq::new(width, |i: int| (x / pow2((width - 1 - i) as nat) as int) % 2 == 1)
}

/// The bits of a number are worth that number.
proof fn uint_bits_value(x: int, width: nat)
    requires
        0 <= x < pow2(width),
    ensures
        bits_value(uint_bits(x, width)) == x,
    decreases width,
{
    vstd::arithmetic::power2::lemma2_to64();
    let b = uint_bits(x, width);
    if width > 0 {
        lemma_pow2_unfold(width);
        uint_bits_value(x / 2, (width - 1) as nat);
        assert(b.drop_last() =~= uint_bits(x / 2, (width - 1) as nat)) by {
            assert forall|i: int| 0 <= i < width - 1 implies b[i] == uint_bits(x / 2, (width - 1) as nat)[i] by {
                let p = pow2((width - 2 - i) as nat) as int;
                lemma_pow2_unfold((width - 1 - i) as nat);
                lemma_pow2_pos((width - 2 - i) as nat);
                vstd::arithmetic::div_mod::lemma_div_denominator(x, 2, p);
            }
        }
        assert(pow2(0) == 1);
        assert(b.last() == ((x / 1) % 2 == 1));
    }
}

/// The remainder that keeps the sign, made positive.
proof fn low_part(v: int, m: int)
    requires
        m > 0,
    ensures
        remainder(remainder(v, m) + m, m) == v % m,
{
    let r = remainder(v, m);
    if v < 0 {
        let q = (-v) / m;
        let e = (-v) % m;
        vstd::arithmetic::div_mod::lemma_fundamental_div_mod(-v, m);
        vstd::arithmetic::div_mod::lemma_mod_bound(-v, m);
        if e == 0 {
            assert(v == m * (-q)) by (nonlinear_arith)
                requires
                    -v == m * q,
            ;
            vstd::arithmetic::div_mod::lemma_fundamental_div_mod_converse(v, m, -q, 0);
            vstd::arithmetic::div_mod::lemma_fundamental_div_mod_converse(m, m, 1, 0);
        } else {
            assert(v == m * (-q - 1) + (m - e)) by (nonlinear_arith)
                requires
                    -v == m * q + e,
            ;
            vstd::arithmetic::div_mod::lemma_fundamental_div_mod_converse(v, m, -q - 1, m - e);
            vstd::arithmetic::div_mod::lemma_small_mod((m - e) as nat, m as nat);
        }
    } else {
        vstd::arithmetic::div_mod::lemma_mod_bound(v, m);
        vstd::arithmetic::div_mod::lemma_fundamental_div_mod_converse(r + m, m, 1, r);
    }
}

/// Clear bits at the end, up to a whole byte, change no byte.
proof fn padded_bytes(b: Seq<bool>, n: int)
    requires
        n == (b.len() as int + 7) / 8,
    ensures
        to_bytes(b + clear_bits(8 * n - b.len())) == to_bytes(b),
{
    let s = b + clear_bits(8 * n - b.len());
    assert forall|k: int| 0 <= k < n implies to_bytes(s)[k] == to_bytes(b)[k] by {
        byte_at(b, k);
        byte_at(s, k);
        byte_from_has(b, 8 * k);
        let v = byte_from(b, 8 * k);
        assert forall|j: u8| j < 8 implies #[trigger] bit_of(v, j) == bit_or_clear(s, 8 * k + j) by {
        }
        byte_is(v, s, 8 * k);
    }
    assert(to_bytes(s) =~= to_bytes(b));
}

/// The low `width` bits of `n`, the most significant first. A negative `n` is its two's
/// complement, as far as `width` asks.
pub fn from_int(n: &Int, width: u64) -> (out: Vec<u8>)
    requires
        width <= MAX_BITS,
    ensures
        out@ == to_bytes(low_bits(n.value(), width as nat)),
{
    let size = ((width + 7) / 8) as usize;
    let ghost want = low_bits(n.value(), width as nat);
    if size == 0 {
        let none: Vec<u8> = Vec::new();
        assert(none@ =~= to_bytes(want));
        return none;
    }
    let one = Int { negative: false, magnitude: vec![1] };
    proof {
        reveal_with_fuel(bytes_value, 2);
        assert(one.magnitude@.drop_last() =~= Seq::<u8>::empty());
        assert(one.value() == 1);
        lemma_pow2_pos(width as nat);
    }
    let modulus = one.shl(width);
    let ghost m = pow2(width as nat) as int;
    assert(modulus.value() == m) by (nonlinear_arith)
        requires
            modulus.value() == 1 * m,
    ;
    // The remainder keeps the sign of the dividend: with the modulus added it is not below
    // zero.
    let low = n.rem(&modulus).plus(&modulus).rem(&modulus);
    let ghost x = n.value() % m;
    proof {
        low_part(n.value(), m);
        vstd::arithmetic::div_mod::lemma_mod_bound(n.value(), m);
    }
    let pad = (size as u64) * 8 - width;
    let be = low.shl(pad).magnitude;
    let ghost shifted = x * pow2(pad as nat);
    proof {
        uint_bits_value(x, width as nat);
        shifted_value(want, pad as nat);
        value_is_small(want + clear_bits(pad as int));
        value_of_bytes(be@);
        value_is_small(bits_in(be@, 8 * be@.len() as int));
        assert(bytes_value(be@) == shifted);
        if be@.len() > size {
            value_is_large(be@);
            pow2_grows((8 * size) as nat, (8 * (be@.len() - 1)) as nat);
        }
    }
    let mut out: Vec<u8> = Vec::new();
    let start = size - be.len();
    while out.len() < start
        invariant
            out@.len() <= start,
            out@ == Seq::new(out@.len(), |i: int| 0u8),
        decreases start - out@.len(),
    {
        out.push(0);
        assert(out@ =~= Seq::new(out@.len(), |i: int| 0u8));
    }
    let ghost zeros = out@;
    let mut k: usize = 0;
    assert(out@ =~= zeros + be@.take(0));
    while k < be.len()
        invariant
            k <= be@.len(),
            out@ == zeros + be@.take(k as int),
        decreases be@.len() - k,
    {
        out.push(be[k]);
        assert(out@ =~= zeros + be@.take(k + 1));
        k += 1;
    }
    proof {
        assert(be@.take(k as int) =~= be@);
        zeros_in_front(start as nat, be@);
        value_of_bytes(out@);
        let b = bits_in(out@, 8 * size as int);
        value_decides(b, want + clear_bits(pad as int));
        bits_make_bytes(out@);
        padded_bytes(want, size as int);
    }
    out
}

/// What `width` bits of some bits are worth from bit `at` on, those past the end clear.
pub open spec fn uint_at(bits: Seq<bool>, at: int, width: nat) -> int {
    bits_value(Seq::new(width, |i: int| bit_or_clear(bits, at + i)))
}

/// `width` bits of `b` from bit `at` on as a number that is not negative, the most
/// significant first. Bits past the end of `b` read as clear.
pub fn read_uint(heap: &Heap, b: Bits, at: u64, width: u64) -> (n: Int)
    requires
        heap.sound(),
        b.is_in(heap@),
        width <= MAX_BITS,
    ensures
        n.value() == uint_at(b.of(heap@), at as int, width as nat),
        n.is_short(),
{
    let from = if at < b.len {
        at
    } else {
        b.len
    };
    let left = b.len - from;
    let len = if left < width {
        left
    } else {
        width
    };
    let window = Bits { owner: b.owner, at: b.at + from, len };
    let list = bytes(heap, window);
    let ghost w = window.of(heap@);
    let ghost bits = b.of(heap@);
    let n = Int { negative: false, magnitude: list };
    // The bytes fill the window up to whole ones: the padding goes, and the clear bits past
    // the end that `width` still asks for come.
    let pad = (len + 7) / 8 * 8 - len;
    proof {
        value_of_bytes(list@);
        bytes_hold_bits(w, 8 * list@.len() as int);
        assert(bits_in(list@, 8 * list@.len() as int) =~= w + clear_bits(pad as int));
        shifted_value(w, pad as nat);
        lemma_pow2_pos(pad as nat);
        value_is_small(w);
        vstd::arithmetic::div_mod::lemma_div_by_multiple(bits_value(w), pow2(pad as nat) as int);
        shifted_value(w, (width - len) as nat);
        assert(w + clear_bits(width - len) =~= Seq::new(width as nat, |i: int| bit_or_clear(bits, at + i)));
    }
    let whole = n.shr(pad);
    whole.shl(width - len)
}

/// A number that is written in `width` bits reads back as what is left of it modulo two to
/// that: itself, where it is not negative and fits. `from_int` gives the bytes, a binary made
/// of them has these bits, and `read_uint` reads them.
pub proof fn a_number_reads_back(n: int, width: nat)
    ensures
        uint_at(bits_in(to_bytes(low_bits(n, width)), width as int), 0, width) == n % pow2(width) as int,
        0 <= n < pow2(width) ==> uint_at(bits_in(to_bytes(low_bits(n, width)), width as int), 0, width) == n,
{
    let m = pow2(width) as int;
    let bits = low_bits(n, width);
    lemma_pow2_pos(width);
    vstd::arithmetic::div_mod::lemma_mod_bound(n, m);
    bytes_hold_bits(bits, width as int);
    assert(bits_in(to_bytes(bits), width as int) =~= bits);
    assert(Seq::new(width, |i: int| bit_or_clear(bits, 0 + i)) =~= bits);
    uint_bits_value(n % m, width);
    if 0 <= n < m {
        vstd::arithmetic::div_mod::lemma_small_mod(n as nat, m as nat);
    }
}

} // verus!
