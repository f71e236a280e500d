use vstd::prelude::*;

use crate::util::GaloisField;

verus! {

/// Number of binary digits of `x`: one more than the degree of the GF(2)
/// polynomial whose coefficients are the bits of `x` (zero for `x == 0`).
pub open spec fn bit_len(x: u16) -> nat
    decreases x,
{
    if x == 0 {
        0
    } else {
        1 + bit_len(x / 2)
    }
}

/// Degree m of the reduction polynomial `ppoly` (taken as 0 for `ppoly == 0`).
pub open spec fn degree(ppoly: u16) -> nat {
    if ppoly == 0 {
        0
    } else {
        (bit_len(ppoly) - 1) as nat
    }
}

/// `v` encodes a polynomial of degree strictly below that of `ppoly`.
pub open spec fn is_element(ppoly: u16, v: u16) -> bool {
    bit_len(v) < bit_len(ppoly)
}

/// Number of elements of GF(2^m), m = deg(ppoly), for `ppoly != 0`.
pub open spec fn field_size(ppoly: u16) -> nat {
    vstd::arithmetic::power2::pow2(degree(ppoly))
}

/// Multiplication by x modulo `ppoly`: shift left by one bit and, where the
/// shifted-out bit of degree m is set, cancel it by adding `ppoly`. In the
/// degenerate rings of degree at most one, x is 0 (`ppoly` 0 or x) or 1.
pub open spec fn gf_xtime(ppoly: u16, v: u16) -> u16 {
    if ppoly == 0 || ppoly == 2 {
        0
    } else if ppoly == 1 || ppoly == 3 {
        v
    } else {
        let d = degree(ppoly) as u16;
        let s = v << 1u16;
        if (s >> d) & 1u16 == 1u16 {
            s ^ ppoly
        } else {
            s
        }
    }
}

/// Carry-less product of `a` and `b` modulo `ppoly`, as a sum over the bits of `b`:
/// bit i of `b` contributes `a * x^i`.
pub open spec fn gf_mul(ppoly: u16, a: u16, b: u16) -> u16
    decreases b,
{
    if b == 0 {
        0
    } else {
        let low = if b % 2 == 1 {
            a
        } else {
            0u16
        };
        low ^ gf_mul(ppoly, gf_xtime(ppoly, a), b / 2)
    }
}

/// `acc * base^n`, exponentiating by squaring over the bits of `n`, lowest first.
pub open spec fn gf_pow(ppoly: u16, acc: u16, base: u16, n: u16) -> u16
    decreases n,
{
    if n == 0 {
        acc
    } else {
        let acc2 = if n % 2 == 1 {
            gf_mul(ppoly, acc, base)
        } else {
            acc
        };
        gf_pow(ppoly, acc2, gf_mul(ppoly, base, base), n / 2)
    }
}

/// The inverse of a nonzero element: `v^(2^m - 2)`.
pub open spec fn gf_inv(ppoly: u16, v: u16) -> u16 {
    gf_pow(ppoly, 1, v, (field_size(ppoly) - 2) as u16)
}

proof fn lemma_bit_len_shift(v: u16, n: u16)
    requires
        n <= 16,
    ensures
        (bit_len(v) <= n) == (v >> n == 0),
    decreases v,
{
    if v == 0 {
        assert(0u16 >> n == 0) by (bit_vector);
    } else if n == 0 {
        assert(v >> 0u16 == v) by (bit_vector);
    } else {
        lemma_bit_len_shift(v / 2, (n - 1) as u16);
        assert(v / 2 == v >> 1u16) by (bit_vector);
        assert(n >= 1 && n <= 16 ==> (v >> 1u16) >> ((n - 1) as u16) == v >> n) by (bit_vector);
    }
}

/// Facts about the reduction polynomial in bit form: its degree fits a shift
/// amount, and its bit of that degree is its top bit.
proof fn lemma_ppoly_bits(p: u16)
    requires
        p >= 1,
    ensures
        bit_len(p) <= 16,
        bit_len(p) >= 1,
        degree(p) < 16,
        p >> (degree(p) as u16) == 1,
{
    lemma_bit_len_shift(p, 16);
    assert(p >> 16u16 == 0) by (bit_vector);
    assert(bit_len(p) >= 1) by {
        assert(bit_len(p) == 1 + bit_len(p / 2));
    }
    let d = degree(p) as u16;
    lemma_bit_len_shift(p, d);
    lemma_bit_len_shift(p, (d + 1) as u16);
    assert(d < 16 && p >> d != 0 && p >> ((d + 1) as u16) == 0 ==> p >> d == 1) by (bit_vector);
}

proof fn lemma_element_bits(p: u16, v: u16)
    requires
        p >= 1,
    ensures
        is_element(p, v) == (v >> (degree(p) as u16) == 0),
{
    lemma_ppoly_bits(p);
    lemma_bit_len_shift(v, degree(p) as u16);
}

proof fn lemma_bv_zero_below(d: u16)
    ensures
        0u16 >> d == 0,
{
    assert(0u16 >> d == 0) by (bit_vector);
}

proof fn lemma_bv_one_below(d: u16)
    requires
        d >= 1,
    ensures
        1u16 >> d == 0,
{
    assert(d >= 1 ==> 1u16 >> d == 0) by (bit_vector);
}

proof fn lemma_bv_xor_below(a: u16, b: u16, d: u16)
    requires
        a >> d == 0,
        b >> d == 0,
    ensures
        (a ^ b) >> d == 0,
{
    assert(a >> d == 0 && b >> d == 0 ==> (a ^ b) >> d == 0) by (bit_vector);
}

proof fn lemma_bv_xtime_below(v: u16, p: u16, d: u16)
    requires
        d < 16,
        v >> d == 0,
        p >> d == 1,
    ensures
        ({
            let s = v << 1u16;
            (if (s >> d) & 1u16 == 1u16 {
                s ^ p
            } else {
                s
            }) >> d == 0
        }),
{
    assert(d < 16 && v >> d == 0 && p >> d == 1 ==> ({
        let s = v << 1u16;
        (if (s >> d) & 1u16 == 1u16 {
            s ^ p
        } else {
            s
        }) >> d == 0
    })) by (bit_vector);
}

proof fn lemma_bv_xor_laws(a: u16, b: u16, c: u16)
    ensures
        a ^ 0u16 == a,
        0u16 ^ a == a,
        a ^ a == 0u16,
        a ^ b == b ^ a,
        a ^ (b ^ c) == (a ^ b) ^ c,
{
    assert(a ^ 0u16 == a) by (bit_vector);
    assert(0u16 ^ a == a) by (bit_vector);
    assert(a ^ a == 0u16) by (bit_vector);
    assert(a ^ b == b ^ a) by (bit_vector);
    assert(a ^ (b ^ c) == (a ^ b) ^ c) by (bit_vector);
}

proof fn lemma_bv_halve(x: u16)
    ensures
        (x & 1u16 == 1u16) == (x % 2 == 1),
        x >> 1u16 == x / 2,
{
    assert((x & 1u16 == 1u16) == (x % 2 == 1)) by (bit_vector);
    assert(x >> 1u16 == x / 2) by (bit_vector);
}

/// The field size in bit form: `1 << m`, at least 2 once m >= 1.
pub proof fn lemma_field_size(p: u16)
    requires
        p >= 1,
    ensures
        degree(p) < 16,
        (1u16 << (degree(p) as u16)) as nat == field_size(p),
        degree(p) >= 1 ==> field_size(p) >= 2,
{
    lemma_ppoly_bits(p);
    let d = degree(p);
    vstd::arithmetic::power2::lemma2_to64();
    if d > 0 {
        vstd::arithmetic::power2::lemma_pow2_strictly_increases(0, d);
    }
    vstd::arithmetic::power2::lemma_pow2_strictly_increases(d, 16);
    vstd::bits::lemma_u16_shl_is_mul(1, d as u16);
}

proof fn lemma_degree_positive(p: u16)
    requires
        degree(p) >= 1,
    ensures
        p >= 2,
{
    if p == 0 {
        assert(bit_len(p) == 0);
    } else if p == 1 {
        assert(bit_len(0u16) == 0);
        assert(bit_len(p) == 1 + bit_len(p / 2));
        assert(bit_len(p) == 1);
    }
}

proof fn lemma_xor_element(p: u16, a: u16, b: u16)
    requires
        is_element(p, a),
        is_element(p, b),
    ensures
        is_element(p, a ^ b),
{
    lemma_element_bits(p, a);
    lemma_element_bits(p, b);
    lemma_element_bits(p, a ^ b);
    lemma_bv_xor_below(a, b, degree(p) as u16);
}

proof fn lemma_zero_element(p: u16)
    requires
        p >= 1,
    ensures
        is_element(p, 0),
{
    lemma_element_bits(p, 0);
    lemma_bv_zero_below(degree(p) as u16);
}

proof fn lemma_xtime_element(p: u16, v: u16)
    requires
        is_element(p, v),
    ensures
        is_element(p, gf_xtime(p, v)),
{
    lemma_element_bits(p, v);
    lemma_element_bits(p, gf_xtime(p, v));
    lemma_ppoly_bits(p);
    lemma_zero_element(p);
    if p > 3 {
        lemma_bv_xtime_below(v, p, degree(p) as u16);
    }
}

proof fn lemma_mul_element(p: u16, a: u16, b: u16)
    requires
        is_element(p, a),
    ensures
        is_element(p, gf_mul(p, a, b)),
    decreases b,
{
    lemma_zero_element(p);
    if b != 0 {
        lemma_xtime_element(p, a);
        lemma_mul_element(p, gf_xtime(p, a), b / 2);
        let low = if b % 2 == 1 {
            a
        } else {
            0u16
        };
        lemma_xor_element(p, low, gf_mul(p, gf_xtime(p, a), b / 2));
    }
}

proof fn lemma_pow_element(p: u16, acc: u16, base: u16, n: u16)
    requires
        is_element(p, acc),
        is_element(p, base),
    ensures
        is_element(p, gf_pow(p, acc, base, n)),
    decreases n,
{
    if n != 0 {
        lemma_mul_element(p, acc, base);
        lemma_mul_element(p, base, base);
        let acc2 = if n % 2 == 1 {
            gf_mul(p, acc, base)
        } else {
            acc
        };
        lemma_pow_element(p, acc2, gf_mul(p, base, base), n / 2);
    }
}

proof fn lemma_mul_by_one(p: u16, a: u16)
    ensures
        gf_mul(p, a, 1) == a,
{
    reveal_with_fuel(gf_mul, 2);
    lemma_bv_xor_laws(a, 0, 0);
}

proof fn lemma_pow_of_one(p: u16, n: u16)
    ensures
        gf_pow(p, 1, 1, n) == 1,
    decreases n,
{
    lemma_mul_by_one(p, 1);
    if n != 0 {
        lemma_pow_of_one(p, n / 2);
    }
}

proof fn lemma_bv_xor_halves(b: u16, c: u16)
    ensures
        ((b ^ c) % 2 == 1) == ((b % 2 == 1) != (c % 2 == 1)),
        (b ^ c) / 2 == (b / 2) ^ (c / 2),
        (b ^ c == 0) == (b == c),
{
    assert(((b ^ c) % 2 == 1) == ((b % 2 == 1) != (c % 2 == 1))) by (bit_vector);
    assert((b ^ c) / 2 == (b / 2) ^ (c / 2)) by (bit_vector);
    assert((b ^ c == 0) == (b == c)) by (bit_vector);
}

proof fn lemma_bv_xor_swap(w: u16, x: u16, y: u16, z: u16)
    ensures
        (w ^ x) ^ (y ^ z) == (w ^ y) ^ (x ^ z),
{
    assert((w ^ x) ^ (y ^ z) == (w ^ y) ^ (x ^ z)) by (bit_vector);
}

/// Addition in GF(2^m) is its own inverse: a + a = 0 for every a.
pub proof fn lemma_add_self<const P: u16>(a: GaloisField2m<P>)
    ensures
        a.view_value() ^ a.view_value() == 0,
{
    lemma_bv_xor_laws(a.view_value(), 0, 0);
}

/// Multiplication distributes over addition: a * (b + c) = a * b + a * c.
pub proof fn lemma_mul_distributes(p: u16, a: u16, b: u16, c: u16)
    ensures
        gf_mul(p, a, b ^ c) == gf_mul(p, a, b) ^ gf_mul(p, a, c),
    decreases b,
{
    lemma_bv_xor_halves(b, c);
    if b == 0 {
        lemma_bv_xor_laws(c, 0, 0);
        lemma_bv_xor_laws(gf_mul(p, a, c), 0, 0);
    } else if c == 0 {
        lemma_bv_xor_laws(b, 0, 0);
        lemma_bv_xor_laws(gf_mul(p, a, b), 0, 0);
    } else if b == c {
        lemma_bv_xor_laws(gf_mul(p, a, b), 0, 0);
    } else {
        let xa = gf_xtime(p, a);
        lemma_mul_distributes(p, xa, b / 2, c / 2);
        let lb = if b % 2 == 1 {
            a
        } else {
            0u16
        };
        let lc = if c % 2 == 1 {
            a
        } else {
            0u16
        };
        let lbc = if (b ^ c) % 2 == 1 {
            a
        } else {
            0u16
        };
        lemma_bv_xor_laws(a, 0, 0);
        lemma_bv_xor_laws(0, 0, 0);
        assert(lbc == lb ^ lc);
        lemma_bv_xor_swap(lb, lc, gf_mul(p, xa, b / 2), gf_mul(p, xa, c / 2));
    }
}


proof fn lemma_bv_xtime_linear(a: u16, b: u16, p: u16, d: u16)
    ensures
        ({
            let sa = a << 1u16;
            let sb = b << 1u16;
            let sab = (a ^ b) << 1u16;
            (if (sab >> d) & 1u16 == 1u16 {
                sab ^ p
            } else {
                sab
            }) == (if (sa >> d) & 1u16 == 1u16 {
                sa ^ p
            } else {
                sa
            }) ^ (if (sb >> d) & 1u16 == 1u16 {
                sb ^ p
            } else {
                sb
            })
        }),
{
    assert(({
        let sa = a << 1u16;
        let sb = b << 1u16;
        let sab = (a ^ b) << 1u16;
        (if (sab >> d) & 1u16 == 1u16 {
            sab ^ p
        } else {
            sab
        }) == (if (sa >> d) & 1u16 == 1u16 {
            sa ^ p
        } else {
            sa
        }) ^ (if (sb >> d) & 1u16 == 1u16 {
            sb ^ p
        } else {
            sb
        })
    })) by (bit_vector);
}

proof fn lemma_xtime_linear(p: u16, a: u16, b: u16)
    ensures
        gf_xtime(p, a ^ b) == gf_xtime(p, a) ^ gf_xtime(p, b),
{
    lemma_bv_xor_laws(0, 0, 0);
    if p > 3 {
        lemma_bv_xtime_linear(a, b, p, degree(p) as u16);
    }
}

/// Multiplication distributes over addition in its first argument:
/// (a + a2) * b = a * b + a2 * b.
pub proof fn lemma_mul_distributes_left(p: u16, a: u16, a2: u16, b: u16)
    ensures
        gf_mul(p, a ^ a2, b) == gf_mul(p, a, b) ^ gf_mul(p, a2, b),
    decreases b,
{
    lemma_bv_xor_laws(0, 0, 0);
    if b != 0 {
        lemma_xtime_linear(p, a, a2);
        lemma_mul_distributes_left(p, gf_xtime(p, a), gf_xtime(p, a2), b / 2);
        let x = gf_mul(p, gf_xtime(p, a), b / 2);
        let y = gf_mul(p, gf_xtime(p, a2), b / 2);
        lemma_bv_xor_swap(a, a2, x, y);
        lemma_bv_xor_swap(0, 0, x, y);
    }
}

/// Zero times anything is zero.
pub proof fn lemma_mul_zero_left(p: u16, b: u16)
    ensures
        gf_mul(p, 0, b) == 0,
    decreases b,
{
    lemma_bv_xor_laws(0, 0, 0);
    if b != 0 {
        lemma_xtime_linear(p, 0, 0);
        lemma_bv_xor_laws(gf_xtime(p, 0), 0, 0);
        lemma_mul_zero_left(p, b / 2);
    }
}


/// Number of binary digits of `x`.
fn bit_length(x: u16) -> (r: u16)
    ensures
        r as nat == bit_len(x),
{
    let mut y: u16 = x;
    let mut n: u16 = 0;
    proof {
        lemma_bit_len_shift(x, 16);
        assert(x >> 16u16 == 0) by (bit_vector);
    }
    while y > 0
        invariant
            n as nat + bit_len(y) == bit_len(x),
            bit_len(x) <= 16,
        decreases y,
    {
        assert(y >> 1u16 == y / 2) by (bit_vector);
        y = y >> 1;
        n = n + 1;
    }
    n
}

/// An element of GF(2^m): the bits of `value` are the coefficients of a
/// polynomial over GF(2) of degree below m = deg(PPOLY), and arithmetic is
/// carried out modulo the polynomial whose bits are `PPOLY`.
#[derive(Debug, Clone, Copy, Eq)]
pub struct GaloisField2m<const PPOLY: u16> {
    value: u16,
}

impl<const PPOLY: u16> GaloisField2m<PPOLY> {
    /// The raw bit pattern of this element.
    pub closed spec fn view_value(self) -> u16 {
        self.value
    }

    /// The element is a member of the field: its degree is below deg(PPOLY).
    pub open spec fn wf(self) -> bool {
        is_element(PPOLY, self.view_value())
    }

    /// Builds the element whose bits are `value`; fails when the degree of
    /// `value` is not below the degree of `PPOLY`.
    pub fn new(value: u16) -> (r: Result<Self, &'static str>)
        ensures
            r is Ok <==> is_element(PPOLY, value),
            r matches Ok(e) ==> e.view_value() == value,
    {
        if bit_length(value) >= bit_length(PPOLY) {
            Err("degree of value must be smaller than degree of primitive polynomial")
        } else {
            Ok(Self { value })
        }
    }

    /// The number of elements of the field, 2^m.
    pub fn size() -> (r: u16)
        requires
            PPOLY != 0,
        ensures
            r as nat == field_size(PPOLY),
    {
        proof {
            lemma_field_size(PPOLY);
        }
        1u16 << (bit_length(PPOLY) - 1)
    }

    /// The additive identity.
    pub fn zero() -> (r: Self)
        ensures
            r.view_value() == 0,
    {
        Self { value: 0 }
    }

    /// The multiplicative identity.
    pub fn one() -> (r: Self)
        ensures
            r.view_value() == 1,
    {
        Self { value: 1 }
    }

    /// The raw bit pattern of this element.
    pub fn value(&self) -> (r: u16)
        ensures
            r == self.view_value(),
    {
        self.value
    }

    /// The element x (raw value 2), which generates the multiplicative group
    /// when PPOLY is primitive; that property of PPOLY is not checked.
    pub fn primitive_element() -> (r: Self)
        ensures
            r.view_value() == 2,
    {
        Self { value: 2 }
    }

    /// Adds `rhs` in place: coefficient-wise addition over GF(2), a bitwise xor.
    pub fn add(&mut self, rhs: Self)
        ensures
            final(self).view_value() == old(self).view_value() ^ rhs.view_value(),
    {
        self.value = self.value ^ rhs.value;
    }

    /// Multiplies by x in place, reducing modulo PPOLY.
    fn xtime(&mut self)
        ensures
            final(self).view_value() == gf_xtime(PPOLY, old(self).view_value()),
            old(self).wf() ==> final(self).wf(),
    {
        proof {
            if self.wf() {
                lemma_xtime_element(PPOLY, self.value);
            }
        }
        if PPOLY == 0 || PPOLY == 2 {
            self.value = 0;
        } else if PPOLY == 1 || PPOLY == 3 {
        } else {
            let d: u16 = bit_length(PPOLY) - 1;
            proof {
                lemma_ppoly_bits(PPOLY);
            }
            self.value = self.value << 1u16;
            if ((self.value >> d) & 1) == 1 {
                self.value = self.value ^ PPOLY;
            }
        }
    }

    /// Multiplies by `rhs` in place: for each bit of `rhs`, lowest first, the
    /// running multiple of `self` is added when the bit is set, then doubled.
    pub fn mul(&mut self, rhs: Self)
        ensures
            final(self).view_value() == gf_mul(PPOLY, old(self).view_value(), rhs.view_value()),
            old(self).wf() ==> final(self).wf(),
    {
        let ghost a = self.value;
        proof {
            if self.wf() {
                lemma_mul_element(PPOLY, a, rhs.value);
            }
        }
        if rhs.value == 0 {
            self.value = 0;
        } else if rhs.value == 1 {
            proof {
                lemma_mul_by_one(PPOLY, a);
            }
        } else if rhs.value == 2 {
            proof {
                reveal_with_fuel(gf_mul, 3);
                lemma_bv_xor_laws(gf_xtime(PPOLY, a), 0, 0);
            }
            self.xtime();
        } else {
            let mut base = *self;
            let mut b = rhs;
            self.value = 0;
            proof {
                if is_element(PPOLY, a) {
                    lemma_zero_element(PPOLY);
                }
                lemma_bv_xor_laws(gf_mul(PPOLY, a, rhs.value), 0, 0);
            }
            while b.value > 0
                invariant
                    self.value ^ gf_mul(PPOLY, base.value, b.value) == gf_mul(PPOLY, a, rhs.value),
                    is_element(PPOLY, a) ==> base.wf() && self.wf(),
                decreases b.value,
            {
                let ghost acc = self.value;
                let ghost bv = b.value;
                let ghost bs = base.value;
                let ghost rest = gf_mul(PPOLY, gf_xtime(PPOLY, bs), bv / 2);
                proof {
                    lemma_bv_halve(bv);
                }
                if (b.value & 1) == 1 {
                    proof {
                        if is_element(PPOLY, a) {
                            lemma_xor_element(PPOLY, acc, bs);
                        }
                        lemma_bv_xor_laws(acc, bs, rest);
                    }
                    self.add(base);
                } else {
                    proof {
                        lemma_bv_xor_laws(rest, 0, 0);
                    }
                }
                base.xtime();
                b.value = b.value >> 1;
            }
            proof {
                lemma_bv_xor_laws(self.value, 0, 0);
            }
        }
    }

    /// Replaces a nonzero element by its inverse, self^(2^m - 2), computed by
    /// square-and-multiply. Zero maps to zero.
    pub fn inv(&mut self)
        requires
            degree(PPOLY) >= 1,
        ensures
            final(self).view_value() == gf_inv(PPOLY, old(self).view_value()),
            old(self).wf() ==> final(self).wf(),
    {
        let ghost a = self.value;
        proof {
            lemma_degree_positive(PPOLY);
            lemma_field_size(PPOLY);
            lemma_element_bits(PPOLY, 1);
            lemma_bv_one_below(degree(PPOLY) as u16);
            if is_element(PPOLY, a) {
                lemma_pow_element(PPOLY, 1, a, (field_size(PPOLY) - 2) as u16);
            }
        }
        let size = Self::size();
        let mut x: u16 = size - 2;
        if x == 0 {
            self.value = 1;
        } else {
            let mut base = *self;
            self.value = 1;
            while x > 0
                invariant
                    gf_pow(PPOLY, self.value, base.value, x) == gf_pow(PPOLY, 1, a, (field_size(PPOLY) - 2) as u16),
                    is_element(PPOLY, a) ==> base.wf() && self.wf(),
                    degree(PPOLY) >= 1,
                decreases x,
            {
                let ghost xv = x;
                proof {
                    lemma_bv_halve(xv);
                }
                if (x & 1) == 1 {
                    self.mul(base);
                }
                let b2 = base;
                base.mul(b2);
                x = x >> 1;
            }
        }
    }

    /// Divides by the nonzero `rhs` in place: multiplication by its inverse.
    pub fn div(&mut self, rhs: Self)
        requires
            rhs.view_value() != 0,
            degree(PPOLY) >= 1,
        ensures
            final(self).view_value() == gf_mul(PPOLY, old(self).view_value(), gf_inv(PPOLY, rhs.view_value())),
            old(self).wf() ==> final(self).wf(),
    {
        if rhs.value == 1 {
            proof {
                lemma_pow_of_one(PPOLY, (field_size(PPOLY) - 2) as u16);
                lemma_mul_by_one(PPOLY, self.value);
            }
            return;
        }
        let mut r = rhs;
        r.inv();
        self.mul(r);
    }
}

impl<const PPOLY: u16> PartialEq for GaloisField2m<PPOLY> {
    fn eq(&self, other: &Self) -> (r: bool)
        ensures
            r == (self.view_value() == other.view_value()),
    {
        self.value == other.value
    }
}

impl<const PPOLY: u16> vstd::std_specs::cmp::PartialEqSpecImpl for GaloisField2m<PPOLY> {
    open spec fn obeys_eq_spec() -> bool {
        true
    }

    open spec fn eq_spec(&self, other: &Self) -> bool {
        self.view_value() == other.view_value()
    }
}

impl<const PPOLY: u16> Default for GaloisField2m<PPOLY> {
    /// The zero element.
    fn default() -> (r: Self)
        ensures
            r.view_value() == 0,
    {
        GaloisField2m::<PPOLY>::zero()
    }
}

impl<const PPOLY: u16> GaloisField for GaloisField2m<PPOLY> {
    open spec fn field_defined() -> bool {
        PPOLY != 0
    }

    open spec fn spec_size() -> nat {
        field_size(PPOLY)
    }

    fn size() -> u16 {
        GaloisField2m::<PPOLY>::size()
    }

    fn zero() -> Self {
        GaloisField2m::<PPOLY>::zero()
    }

    fn one() -> Self {
        GaloisField2m::<PPOLY>::one()
    }

    fn primitive_element() -> Self {
        GaloisField2m::<PPOLY>::primitive_element()
    }
}

impl<const PPOLY: u16> core::ops::Add for GaloisField2m<PPOLY> {
    type Output = Self;

    fn add(self, rhs: Self) -> (r: Self)
        ensures
            r.view_value() == self.view_value() ^ rhs.view_value(),
    {
        let mut res = self;
        GaloisField2m::<PPOLY>::add(&mut res, rhs);
        res
    }
}

impl<const PPOLY: u16> vstd::std_specs::ops::AddSpecImpl for GaloisField2m<PPOLY> {
    open spec fn obeys_add_spec() -> bool {
        true
    }

    open spec fn add_req(self, rhs: Self) -> bool {
        true
    }

    closed spec fn add_spec(self, rhs: Self) -> Self {
        GaloisField2m { value: self.view_value() ^ rhs.view_value() }
    }
}

impl<const PPOLY: u16> core::ops::Mul for GaloisField2m<PPOLY> {
    type Output = Self;

    fn mul(self, rhs: Self) -> (r: Self)
        ensures
            r.view_value() == gf_mul(PPOLY, self.view_value(), rhs.view_value()),
    {
        let mut res = self;
        GaloisField2m::<PPOLY>::mul(&mut res, rhs);
        res
    }
}

impl<const PPOLY: u16> vstd::std_specs::ops::MulSpecImpl for GaloisField2m<PPOLY> {
    open spec fn obeys_mul_spec() -> bool {
        true
    }

    open spec fn mul_req(self, rhs: Self) -> bool {
        true
    }

    closed spec fn mul_spec(self, rhs: Self) -> Self {
        GaloisField2m { value: gf_mul(PPOLY, self.view_value(), rhs.view_value()) }
    }
}

impl<const PPOLY: u16> core::ops::Div for GaloisField2m<PPOLY> {
    type Output = Self;

    fn div(self, rhs: Self) -> (r: Self)
        ensures
            r.view_value() == gf_mul(PPOLY, self.view_value(), gf_inv(PPOLY, rhs.view_value())),
    {
        let mut res = self;
        GaloisField2m::<PPOLY>::div(&mut res, rhs);
        res
    }
}

impl<const PPOLY: u16> vstd::std_specs::ops::DivSpecImpl for GaloisField2m<PPOLY> {
    open spec fn obeys_div_spec() -> bool {
        true
    }

    open spec fn div_req(self, rhs: Self) -> bool {
        rhs.view_value() != 0 && degree(PPOLY) >= 1
    }

    closed spec fn div_spec(self, rhs: Self) -> Self {
        GaloisField2m { value: gf_mul(PPOLY, self.view_value(), gf_inv(PPOLY, rhs.view_value())) }
    }
}

} // verus!
