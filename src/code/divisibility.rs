use vstd::prelude::*;

use crate::code::reed_solomon::{division_step, parity, ReedSolomon};
use crate::util::galois_field_2m::{
    gf_mul, lemma_mul_distributes_left, lemma_mul_zero_left,
};

verus! {

/// Coefficient-wise sum of two polynomials of the same length.
pub open spec fn xor_seq(a: Seq<u16>, b: Seq<u16>) -> Seq<u16> {
    Seq::new(a.len(), |j: int| a[j] ^ b[j])
}

/// `len` zero coefficients.
pub open spec fn zero_seq(len: nat) -> Seq<u16> {
    Seq::new(len, |j: int| 0u16)
}

/// One step of long division of a whole polynomial by the monic `g`: the
/// running remainder `r` (deg(g) coefficients, highest degree first) becomes
/// the remainder of r(x) * x + c.
pub open spec fn shift_in(p: u16, g: Seq<u16>, r: Seq<u16>, c: u16) -> Seq<u16> {
    Seq::new(
        r.len(),
        |j: int|
            (if j + 1 < r.len() {
                r[j + 1]
            } else {
                c
            }) ^ gf_mul(p, r[0], g[j + 1]),
    )
}

/// The running remainder after taking in the coefficients `s` from `r`.
pub open spec fn feed(p: u16, g: Seq<u16>, r: Seq<u16>, s: Seq<u16>) -> Seq<u16>
    decreases s.len(),
{
    if s.len() == 0 {
        r
    } else {
        shift_in(p, g, feed(p, g, r, s.drop_last()), s.last())
    }
}

/// The remainder of c(x) divided by the monic polynomial `g` (both highest
/// degree first), by long division.
pub open spec fn remainder(p: u16, g: Seq<u16>, c: Seq<u16>) -> Seq<u16> {
    feed(p, g, zero_seq((g.len() - 1) as nat), c)
}

/// Multiplication of a remainder by x, modulo `g`.
spec fn times_x(p: u16, g: Seq<u16>, r: Seq<u16>) -> Seq<u16> {
    shift_in(p, g, r, 0)
}

spec fn times_x_pow(p: u16, g: Seq<u16>, r: Seq<u16>, k: nat) -> Seq<u16>
    decreases k,
{
    if k == 0 {
        r
    } else {
        times_x(p, g, times_x_pow(p, g, r, (k - 1) as nat))
    }
}

/// `c` at position `i` of a register of length `d`, zeros elsewhere.
spec fn unit_at(d: nat, i: int, c: u16) -> Seq<u16> {
    Seq::new(d, |j: int| if j == i { c } else { 0u16 })
}

/// c * (g(x) - x^deg(g)): what the top coefficient c of a remainder turns into.
spec fn scaled_tail(p: u16, g: Seq<u16>, c: u16) -> Seq<u16> {
    Seq::new((g.len() - 1) as nat, |j: int| gf_mul(p, c, g[j + 1]))
}

/// The last `i` coefficients of `s`, right-aligned in a register of length `d`.
spec fn tail_of(d: nat, s: Seq<u16>, i: nat) -> Seq<u16> {
    Seq::new(d, |j: int| if j >= d - i { s[j - (d - i)] } else { 0u16 })
}

proof fn lemma_xor_facts(a: u16, b: u16, c: u16, e: u16)
    ensures
        a ^ 0u16 == a,
        0u16 ^ a == a,
        a ^ a == 0u16,
        (a ^ b) ^ (c ^ e) == (a ^ c) ^ (b ^ e),
{
    assert(a ^ 0u16 == a) by (bit_vector);
    assert(0u16 ^ a == a) by (bit_vector);
    assert(a ^ a == 0u16) by (bit_vector);
    assert((a ^ b) ^ (c ^ e) == (a ^ c) ^ (b ^ e)) by (bit_vector);
}

proof fn lemma_times_x_linear(p: u16, g: Seq<u16>, r: Seq<u16>, r2: Seq<u16>)
    requires
        r.len() >= 1,
        r2.len() == r.len(),
        g.len() == r.len() + 1,
    ensures
        times_x(p, g, xor_seq(r, r2)) == xor_seq(times_x(p, g, r), times_x(p, g, r2)),
{
    let d = r.len();
    let lhs = times_x(p, g, xor_seq(r, r2));
    let rhs = xor_seq(times_x(p, g, r), times_x(p, g, r2));
    assert forall|j: int| 0 <= j < d implies lhs[j] == rhs[j] by {
        lemma_mul_distributes_left(p, r[0], r2[0], g[j + 1]);
        if j + 1 < d {
            lemma_xor_facts(r[j + 1], r2[j + 1], gf_mul(p, r[0], g[j + 1]), gf_mul(p, r2[0], g[j + 1]));
        } else {
            lemma_xor_facts(0, 0, gf_mul(p, r[0], g[j + 1]), gf_mul(p, r2[0], g[j + 1]));
        }
    }
    assert(lhs =~= rhs);
}

proof fn lemma_times_x_pow_linear(p: u16, g: Seq<u16>, r: Seq<u16>, r2: Seq<u16>, k: nat)
    requires
        r.len() >= 1,
        r2.len() == r.len(),
        g.len() == r.len() + 1,
    ensures
        times_x_pow(p, g, xor_seq(r, r2), k) == xor_seq(
            times_x_pow(p, g, r, k),
            times_x_pow(p, g, r2, k),
        ),
        times_x_pow(p, g, r, k).len() == r.len(),
    decreases k,
{
    if k > 0 {
        lemma_times_x_pow_linear(p, g, r, r2, (k - 1) as nat);
        lemma_times_x_pow_linear(p, g, r2, r, (k - 1) as nat);
        lemma_times_x_linear(
            p,
            g,
            times_x_pow(p, g, r, (k - 1) as nat),
            times_x_pow(p, g, r2, (k - 1) as nat),
        );
    }
}

proof fn lemma_times_x_pow_commutes(p: u16, g: Seq<u16>, r: Seq<u16>, k: nat)
    ensures
        times_x_pow(p, g, times_x(p, g, r), k) == times_x(p, g, times_x_pow(p, g, r, k)),
    decreases k,
{
    if k > 0 {
        lemma_times_x_pow_commutes(p, g, r, (k - 1) as nat);
    }
}

/// Shifting a lone coefficient c from the lowest-degree slot d times gives
/// c * (g(x) - x^d).
proof fn lemma_unit_shifts(p: u16, g: Seq<u16>, c: u16, k: nat)
    requires
        g.len() >= 2,
        k < g.len() - 1,
    ensures
        times_x_pow(p, g, unit_at((g.len() - 1) as nat, g.len() - 2, c), k) == unit_at(
            (g.len() - 1) as nat,
            g.len() - 2 - k,
            c,
        ),
    decreases k,
{
    let d = (g.len() - 1) as nat;
    if k > 0 {
        lemma_unit_shifts(p, g, c, (k - 1) as nat);
        let prev = unit_at(d, g.len() - 2 - (k - 1), c);
        let next = times_x(p, g, prev);
        assert forall|j: int| 0 <= j < d implies next[j] == unit_at(d, g.len() - 2 - k, c)[j] by {
            lemma_mul_zero_left(p, g[j + 1]);
            lemma_xor_facts(prev[j + 1], 0, 0, 0);
            lemma_xor_facts(0, 0, 0, 0);
        }
        assert(next =~= unit_at(d, g.len() - 2 - k, c));
    }
}

proof fn lemma_unit_full_shift(p: u16, g: Seq<u16>, c: u16)
    requires
        g.len() >= 2,
    ensures
        times_x_pow(p, g, unit_at((g.len() - 1) as nat, g.len() - 2, c), (g.len() - 1) as nat)
            == scaled_tail(p, g, c),
{
    let d = (g.len() - 1) as nat;
    lemma_unit_shifts(p, g, c, (d - 1) as nat);
    let at0 = unit_at(d, 0, c);
    let next = times_x(p, g, at0);
    assert forall|j: int| 0 <= j < d implies next[j] == scaled_tail(p, g, c)[j] by {
        lemma_xor_facts(gf_mul(p, c, g[j + 1]), 0, 0, 0);
    }
    assert(next =~= scaled_tail(p, g, c));
}

/// Taking in a coefficient is multiplying by x and adding it in the lowest slot.
proof fn lemma_shift_in_split(p: u16, g: Seq<u16>, r: Seq<u16>, c: u16)
    requires
        r.len() >= 1,
        g.len() == r.len() + 1,
    ensures
        shift_in(p, g, r, c) == xor_seq(times_x(p, g, r), unit_at(r.len(), r.len() - 1, c)),
{
    let lhs = shift_in(p, g, r, c);
    let rhs = xor_seq(times_x(p, g, r), unit_at(r.len(), r.len() - 1, c));
    assert forall|j: int| 0 <= j < r.len() implies lhs[j] == rhs[j] by {
        let m = gf_mul(p, r[0], g[j + 1]);
        if j + 1 < r.len() {
            lemma_xor_facts(r[j + 1] ^ m, 0, 0, 0);
        } else {
            lemma_xor_facts(c, 0, m, 0);
            lemma_xor_facts(m, 0, 0, 0);
            assert((c ^ m) == (0u16 ^ m) ^ c) by (bit_vector);
        }
    }
    assert(lhs =~= rhs);
}

/// The encoder's step is multiplying by x and adding c * (g(x) - x^d).
proof fn lemma_division_step_split(p: u16, g: Seq<u16>, r: Seq<u16>, c: u16)
    requires
        r.len() >= 1,
        g.len() == r.len() + 1,
    ensures
        division_step(p, g, r, c) == xor_seq(times_x(p, g, r), scaled_tail(p, g, c)),
{
    let lhs = division_step(p, g, r, c);
    let rhs = xor_seq(times_x(p, g, r), scaled_tail(p, g, c));
    assert forall|j: int| 0 <= j < r.len() implies lhs[j] == rhs[j] by {
        lemma_mul_distributes_left(p, c, r[0], g[j + 1]);
        let hi = if j + 1 < r.len() {
            r[j + 1]
        } else {
            0u16
        };
        let a = gf_mul(p, c, g[j + 1]);
        let b = gf_mul(p, r[0], g[j + 1]);
        assert(hi ^ (a ^ b) == (hi ^ b) ^ a) by (bit_vector);
    }
    assert(lhs =~= rhs);
}

/// Shifting the division remainder of `msg` by x^d gives the encoder's parity.
proof fn lemma_shifted_remainder_is_parity(p: u16, g: Seq<u16>, msg: Seq<u16>)
    requires
        g.len() >= 2,
    ensures
        times_x_pow(p, g, remainder(p, g, msg), (g.len() - 1) as nat) == parity(p, g, msg),
        remainder(p, g, msg).len() == g.len() - 1,
        parity(p, g, msg).len() == g.len() - 1,
    decreases msg.len(),
{
    let d = (g.len() - 1) as nat;
    if msg.len() == 0 {
        let z = zero_seq(d);
        lemma_times_x_pow_linear(p, g, z, z, d);
        lemma_zero_xor(z);
        lemma_zero_xor(times_x_pow(p, g, z, d));
        assert(parity(p, g, msg) =~= z);
    } else {
        let init = msg.drop_last();
        let c = msg.last();
        lemma_shifted_remainder_is_parity(p, g, init);
        let s = remainder(p, g, init);
        assert(remainder(p, g, msg) == shift_in(p, g, s, c));
        lemma_shift_in_split(p, g, s, c);
        let u = unit_at(d, d - 1, c);
        lemma_times_x_pow_linear(p, g, times_x(p, g, s), u, d);
        lemma_times_x_pow_commutes(p, g, s, d);
        lemma_unit_full_shift(p, g, c);
        lemma_division_step_split(p, g, parity(p, g, init), c);
    }
}

proof fn lemma_zero_xor(a: Seq<u16>)
    ensures
        xor_seq(a, a) == zero_seq(a.len()),
{
    assert forall|j: int| 0 <= j < a.len() implies xor_seq(a, a)[j] == zero_seq(a.len())[j] by {
        lemma_xor_facts(a[j], 0, 0, 0);
    }
    assert(xor_seq(a, a) =~= zero_seq(a.len()));
}

proof fn lemma_feed_concat(p: u16, g: Seq<u16>, r: Seq<u16>, a: Seq<u16>, b: Seq<u16>)
    ensures
        feed(p, g, r, a + b) == feed(p, g, feed(p, g, r, a), b),
    decreases b.len(),
{
    if b.len() == 0 {
        assert(a + b =~= a);
    } else {
        assert((a + b).drop_last() =~= a + b.drop_last());
        lemma_feed_concat(p, g, r, a, b.drop_last());
    }
}

/// Taking in the first `i` coefficients of `s` (at most d of them) multiplies
/// by x^i and adds them, right-aligned.
proof fn lemma_feed_short(p: u16, g: Seq<u16>, r: Seq<u16>, s: Seq<u16>, i: nat)
    requires
        r.len() >= 1,
        g.len() == r.len() + 1,
        s.len() == r.len(),
        i <= s.len(),
    ensures
        feed(p, g, r, s.subrange(0, i as int)) == xor_seq(
            times_x_pow(p, g, r, i),
            tail_of(r.len(), s.subrange(0, i as int), i),
        ),
    decreases i,
{
    let d = r.len();
    if i == 0 {
        lemma_times_x_pow_linear(p, g, r, r, 0);
        assert forall|j: int| 0 <= j < d implies r[j] == xor_seq(r, tail_of(d, s.subrange(0, 0), 0))[j] by {
            lemma_xor_facts(r[j], 0, 0, 0);
        }
        assert(xor_seq(r, tail_of(d, s.subrange(0, 0), 0)) =~= r);
    } else {
        let k = (i - 1) as nat;
        lemma_feed_short(p, g, r, s, k);
        let prev = s.subrange(0, k as int);
        let cur = s.subrange(0, i as int);
        assert(cur.drop_last() =~= prev);
        let acc = feed(p, g, r, prev);
        let tp = times_x_pow(p, g, r, k);
        let tl = tail_of(d, prev, k);
        lemma_times_x_pow_linear(p, g, r, r, k);
        lemma_shift_in_split(p, g, acc, s[k as int]);
        lemma_times_x_linear(p, g, tp, tl);
        let u = unit_at(d, d - 1, s[k as int]);
        // times_x(tl) + u is the longer tail
        let tl2 = tail_of(d, cur, i);
        let txl = times_x(p, g, tl);
        assert(tl[0] == 0);
        assert forall|j: int| 0 <= j < d implies xor_seq(txl, u)[j] == tl2[j] by {
            lemma_mul_zero_left(p, g[j + 1]);
            if j + 1 < d {
                lemma_xor_facts(tl[j + 1], 0, 0, 0);
            } else {
                lemma_xor_facts(0, 0, 0, 0);
                lemma_xor_facts(s[k as int], 0, 0, 0);
            }
        }
        assert(xor_seq(txl, u) =~= tl2);
        let tx = times_x(p, g, tp);
        assert forall|j: int| 0 <= j < d implies xor_seq(xor_seq(tx, txl), u)[j] == xor_seq(tx, tl2)[j] by {
            let (a, b, c) = (tx[j], txl[j], u[j]);
            assert((a ^ b) ^ c == a ^ (b ^ c)) by (bit_vector);
        }
        assert(xor_seq(xor_seq(tx, txl), u) =~= xor_seq(tx, tl2));
    }
}

/// Every codeword is divisible by the generator polynomial: long division of
/// the codeword polynomial by g(x) leaves a zero remainder.
pub proof fn lemma_codeword_divisible<const P: u16>(rs: ReedSolomon<P>, msg: Seq<u16>)
    requires
        rs.wf(),
        msg.len() == rs.spec_message_len(),
    ensures
        remainder(P, rs.spec_genpoly(), rs.codeword_of(msg)) == zero_seq(rs.spec_parity_len()),
{
    let g = rs.spec_genpoly();
    crate::code::reed_solomon::lemma_generator_len(P, rs.spec_parity_len());
    let d = rs.spec_parity_len();
    let par = parity(P, g, msg);
    let c = rs.codeword_of(msg);
    lemma_feed_concat(P, g, zero_seq(d), msg, par);
    if d == 0 {
        assert(remainder(P, g, c) =~= zero_seq(0)) by {
            lemma_feed_length(P, g, zero_seq(0), c);
        }
    } else {
        lemma_shifted_remainder_is_parity(P, g, msg);
        let s = remainder(P, g, msg);
        lemma_feed_short(P, g, s, par, d);
        assert(par.subrange(0, d as int) =~= par);
        assert(tail_of(d, par, d) =~= par);
        lemma_zero_xor(par);
    }
}

proof fn lemma_feed_length(p: u16, g: Seq<u16>, r: Seq<u16>, s: Seq<u16>)
    ensures
        feed(p, g, r, s).len() == r.len(),
    decreases s.len(),
{
    if s.len() > 0 {
        lemma_feed_length(p, g, r, s.drop_last());
    }
}

} // verus!
