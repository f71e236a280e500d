use vstd::prelude::*;

use crate::code::divisibility::{lemma_codeword_divisible, remainder, zero_seq};
use crate::code::Code;
use crate::util::galois_field_2m::{degree, field_size, gf_inv, gf_mul, is_element, GaloisField2m};

verus! {

/// The raw values of a sequence of field elements.
pub open spec fn vals<const P: u16>(v: Seq<GaloisField2m<P>>) -> Seq<u16> {
    v.map_values(|e: GaloisField2m<P>| e.view_value())
}

/// alpha^i, where alpha is the primitive element x (raw value 2).
pub open spec fn alpha_pow(p: u16, i: nat) -> u16
    decreases i,
{
    if i == 0 {
        1
    } else {
        gf_mul(p, alpha_pow(p, (i - 1) as nat), 2)
    }
}

/// The product (x + r) * c(x), coefficients listed from the highest degree down.
pub open spec fn mul_linear(p: u16, c: Seq<u16>, r: u16) -> Seq<u16> {
    Seq::new(
        c.len() + 1,
        |j: int|
            (if j < c.len() {
                c[j]
            } else {
                0u16
            }) ^ (if j >= 1 {
                gf_mul(p, r, c[j - 1])
            } else {
                0u16
            }),
    )
}

/// The generator polynomial (x + alpha^0)(x + alpha^1)...(x + alpha^(k-1)),
/// highest degree first; it is monic with k + 1 coefficients.
pub open spec fn generator(p: u16, k: nat) -> Seq<u16>
    decreases k,
{
    if k == 0 {
        seq![1u16]
    } else {
        mul_linear(p, generator(p, (k - 1) as nat), alpha_pow(p, (k - 1) as nat))
    }
}

/// One step of long division by the monic polynomial `g`: the running
/// remainder `r` of x^deg(g) * m(x) takes in the next message symbol `m`.
pub open spec fn division_step(p: u16, g: Seq<u16>, r: Seq<u16>, m: u16) -> Seq<u16> {
    let fb = m ^ r[0];
    Seq::new(
        r.len(),
        |j: int|
            (if j + 1 < r.len() {
                r[j + 1]
            } else {
                0u16
            }) ^ gf_mul(p, fb, g[j + 1]),
    )
}

/// The remainder of x^deg(g) * msg(x) divided by `g`, highest degree first:
/// the parity symbols of the systematic codeword of `msg`.
pub open spec fn parity(p: u16, g: Seq<u16>, msg: Seq<u16>) -> Seq<u16>
    decreases msg.len(),
{
    if msg.len() == 0 {
        Seq::new((g.len() - 1) as nat, |j: int| 0u16)
    } else if g.len() <= 1 {
        Seq::empty()
    } else {
        division_step(p, g, parity(p, g, msg.drop_last()), msg.last())
    }
}

/// The systematic codeword of `msg`: the message followed by its parity symbols.
pub open spec fn encode_spec(p: u16, g: Seq<u16>, msg: Seq<u16>) -> Seq<u16> {
    msg + parity(p, g, msg)
}

/// `c` is a codeword for messages of `k` symbols: its tail is the parity of its head.
pub open spec fn is_codeword(p: u16, g: Seq<u16>, k: nat, c: Seq<u16>) -> bool {
    k <= c.len() && c == encode_spec(p, g, c.subrange(0, k as int))
}

/// Number of positions at which `a` and `b` differ.
pub open spec fn hamming(a: Seq<u16>, b: Seq<u16>) -> nat
    decreases a.len(),
{
    if a.len() == 0 {
        0
    } else {
        hamming(a.drop_last(), b) + if a.last() != b[a.len() - 1] {
            1nat
        } else {
            0nat
        }
    }
}

/// c(x) evaluated at `x` by Horner's rule, coefficients highest degree first.
pub open spec fn eval_poly(p: u16, c: Seq<u16>, x: u16) -> u16
    decreases c.len(),
{
    if c.len() == 0 {
        0
    } else {
        gf_mul(p, eval_poly(p, c.drop_last(), x), x) ^ c.last()
    }
}

/// The sum of c[j] * x^(j - i) over j >= i: the tail of c(x) from degree i,
/// coefficients lowest degree first.
pub open spec fn eval_low(p: u16, c: Seq<u16>, x: u16, i: int) -> u16
    decreases c.len() - i,
{
    if i >= c.len() || i < 0 {
        0
    } else {
        gf_mul(p, eval_low(p, c, x, i + 1), x) ^ c[i]
    }
}

/// The syndromes S_i = c(alpha^i) for i below `len`.
pub open spec fn syndromes_of(p: u16, c: Seq<u16>, len: nat) -> Seq<u16> {
    Seq::new(len, |i: int| eval_poly(p, c, alpha_pow(p, i as nat)))
}

/// The Berlekamp-Massey state: connection polynomial C, previous polynomial
/// B (both lowest degree first), length L, shift m and last discrepancy b.
pub type BmState = (Seq<u16>, Seq<u16>, nat, nat, u16);

/// The discrepancy S_n + C_1 S_(n-1) + ... + C_i S_(n-i).
pub open spec fn discrepancy(p: u16, c: Seq<u16>, syn: Seq<u16>, n: int, i: int) -> u16
    decreases i,
{
    if i <= 0 {
        syn[n]
    } else {
        discrepancy(p, c, syn, n, i - 1) ^ gf_mul(p, c[i], syn[n - i])
    }
}

/// C(x) - coef * x^m * B(x), keeping the length of C.
pub open spec fn bm_update(p: u16, c: Seq<u16>, b: Seq<u16>, m: nat, coef: u16) -> Seq<u16> {
    Seq::new(c.len(), |i: int| if i >= m { c[i] ^ gf_mul(p, coef, b[i - m]) } else { c[i] })
}

/// One Berlekamp-Massey iteration on syndrome `n`.
pub open spec fn bm_step(p: u16, syn: Seq<u16>, st: BmState, n: nat) -> BmState {
    let (c, b, l, m, bb) = st;
    let d = discrepancy(p, c, syn, n as int, l as int);
    if d == 0 {
        (c, b, l, m + 1, bb)
    } else {
        let c2 = bm_update(p, c, b, m, gf_mul(p, d, gf_inv(p, bb)));
        if l <= n - l {
            (c2, c, (n + 1 - l) as nat, 1, d)
        } else {
            (c2, b, l, m + 1, bb)
        }
    }
}

/// The Berlekamp-Massey state after the first `n` syndromes.
pub open spec fn bm_run(p: u16, syn: Seq<u16>, n: nat) -> BmState
    decreases n,
{
    if n == 0 {
        let one = Seq::new(syn.len() + 1, |i: int| if i == 0 { 1u16 } else { 0u16 });
        (one, one, 0, 1, 1)
    } else {
        bm_step(p, syn, bm_run(p, syn, (n - 1) as nat), (n - 1) as nat)
    }
}

/// Number of degrees e below `n` at which lambda(alpha^-e) vanishes.
pub open spec fn root_count(p: u16, lambda: Seq<u16>, n: nat) -> nat
    decreases n,
{
    if n == 0 {
        0
    } else {
        root_count(p, lambda, (n - 1) as nat) + if eval_low(
            p,
            lambda,
            gf_inv(p, alpha_pow(p, (n - 1) as nat)),
            0,
        ) == 0 {
            1nat
        } else {
            0nat
        }
    }
}

/// Running (sum, power) of the formal derivative of c(x) at `x` after the
/// terms of degree below `i`: over characteristic 2 only odd degrees count.
pub open spec fn derivative_acc(p: u16, c: Seq<u16>, x: u16, i: nat) -> (u16, u16)
    decreases i,
{
    if i <= 1 {
        (0, 1)
    } else {
        let (a, pw) = derivative_acc(p, c, x, (i - 1) as nat);
        (if (i - 1) % 2 == 1 {
            a ^ gf_mul(p, c[i - 1], pw)
        } else {
            a
        }, gf_mul(p, pw, x))
    }
}

/// The formal derivative of c(x) (lowest degree first) at `x`.
pub open spec fn derivative_at(p: u16, c: Seq<u16>, x: u16) -> u16 {
    derivative_acc(p, c, x, c.len()).0
}

/// The sum of s[j] * l[i - j] over j below `cnt`.
pub open spec fn convolution(p: u16, s: Seq<u16>, l: Seq<u16>, i: int, cnt: int) -> u16
    decreases cnt,
{
    if cnt <= 0 {
        0
    } else {
        convolution(p, s, l, i, cnt - 1) ^ gf_mul(p, s[cnt - 1], l[i - (cnt - 1)])
    }
}

/// The error evaluator S(x) * lambda(x) mod x^len, lowest degree first.
pub open spec fn evaluator(p: u16, syn: Seq<u16>, lambda: Seq<u16>, len: nat) -> Seq<u16> {
    Seq::new(len, |i: int| convolution(p, syn, lambda, i, i + 1))
}

/// The degrees e below `n`, in increasing order, at which lambda(alpha^-e) vanishes.
pub open spec fn roots_below(p: u16, lambda: Seq<u16>, n: nat) -> Seq<int>
    decreases n,
{
    if n == 0 {
        Seq::empty()
    } else {
        let prev = roots_below(p, lambda, (n - 1) as nat);
        if eval_low(p, lambda, gf_inv(p, alpha_pow(p, (n - 1) as nat)), 0) == 0 {
            prev.push(n - 1)
        } else {
            prev
        }
    }
}

/// Forney's correction of the first `q` located errors of `rec`: at degree e,
/// with X = alpha^e, the error value is X * omega(X^-1) / lambda'(X^-1).
pub open spec fn forney(
    p: u16,
    rec: Seq<u16>,
    lambda: Seq<u16>,
    omega: Seq<u16>,
    roots: Seq<int>,
    q: nat,
) -> Result<Seq<u16>, DecodeError>
    decreases q,
{
    if q == 0 {
        Ok(rec)
    } else {
        match forney(p, rec, lambda, omega, roots, (q - 1) as nat) {
            Err(e) => Err(e),
            Ok(cur) => {
                let e = roots[q - 1];
                let xe = alpha_pow(p, e as nat);
                let xinv = gf_inv(p, xe);
                let den = derivative_at(p, lambda, xinv);
                if den == 0 {
                    Err(DecodeError::InconsistentLocator)
                } else {
                    let mag = gf_mul(p, gf_mul(p, xe, eval_low(p, omega, xinv, 0)), gf_inv(p, den));
                    let idx = rec.len() - 1 - e;
                    Ok(cur.update(idx, cur[idx] ^ mag))
                }
            },
        }
    }
}

/// Why a received word could not be decoded.
#[derive(Debug, Clone, Copy, PartialEq, Eq, Structural)]
pub enum DecodeError {
    /// More symbol errors than the code can correct.
    Uncorrectable,
    /// The error locator has a different number of roots than its degree.
    InconsistentLocator,
}

// Value-returning forms of the in-place field operations.
fn fadd<const P: u16>(a: GaloisField2m<P>, b: GaloisField2m<P>) -> (r: GaloisField2m<P>)
    ensures
        r.view_value() == a.view_value() ^ b.view_value(),
{
    let mut r = a;
    GaloisField2m::<P>::add(&mut r, b);
    r
}

fn fmul<const P: u16>(a: GaloisField2m<P>, b: GaloisField2m<P>) -> (r: GaloisField2m<P>)
    ensures
        r.view_value() == gf_mul(P, a.view_value(), b.view_value()),
{
    let mut r = a;
    GaloisField2m::<P>::mul(&mut r, b);
    r
}

fn finv<const P: u16>(a: GaloisField2m<P>) -> (r: GaloisField2m<P>)
    requires
        degree(P) >= 1,
    ensures
        r.view_value() == gf_inv(P, a.view_value()),
{
    let mut r = a;
    GaloisField2m::<P>::inv(&mut r);
    r
}

fn fdiv<const P: u16>(a: GaloisField2m<P>, b: GaloisField2m<P>) -> (r: GaloisField2m<P>)
    requires
        b.view_value() != 0,
        degree(P) >= 1,
    ensures
        r.view_value() == gf_mul(P, a.view_value(), gf_inv(P, b.view_value())),
{
    let mut r = a;
    GaloisField2m::<P>::div(&mut r, b);
    r
}

/// Whether `a` is the zero element.
fn is_zero<const P: u16>(a: GaloisField2m<P>) -> (r: bool)
    ensures
        r == (a.view_value() == 0),
{
    a.value() == 0
}

/// A vector of `n` zero elements.
fn zeros<const P: u16>(n: usize) -> (r: Vec<GaloisField2m<P>>)
    ensures
        r@.len() == n,
        forall|i: int| 0 <= i < n ==> (#[trigger] r@[i]).view_value() == 0,
{
    let mut r: Vec<GaloisField2m<P>> = Vec::new();
    let mut i: usize = 0;
    while i < n
        invariant
            i <= n,
            r@.len() == i,
            forall|j: int| 0 <= j < i ==> (#[trigger] r@[j]).view_value() == 0,
        decreases n - i,
    {
        r.push(GaloisField2m::<P>::zero());
        i = i + 1;
    }
    r
}

/// Whether every symbol of `v` is a member of the field.
fn all_elements<const P: u16>(v: &Vec<GaloisField2m<P>>) -> (r: bool)
    ensures
        r == forall|i: int| 0 <= i < v@.len() ==> (#[trigger] v@[i]).wf(),
{
    let mut i: usize = 0;
    while i < v.len()
        invariant
            i <= v@.len(),
            forall|j: int| 0 <= j < i ==> (#[trigger] v@[j]).wf(),
        decreases v@.len() - i,
    {
        if GaloisField2m::<P>::new(v[i].value()).is_err() {
            return false;
        }
        i = i + 1;
    }
    true
}

/// The first `len` elements of `v`.
fn prefix<const P: u16>(v: &Vec<GaloisField2m<P>>, len: usize) -> (r: Vec<GaloisField2m<P>>)
    requires
        len <= v@.len(),
    ensures
        r@ == v@.subrange(0, len as int),
{
    let mut r: Vec<GaloisField2m<P>> = Vec::new();
    let mut i: usize = 0;
    while i < len
        invariant
            i <= len,
            len <= v@.len(),
            r@ == v@.subrange(0, i as int),
        decreases len - i,
    {
        r.push(v[i]);
        i = i + 1;
        assert(r@ =~= v@.subrange(0, i as int));
    }
    r
}

/// (x + r) * c(x), coefficients highest degree first.
fn mul_linear_exec<const P: u16>(c: &Vec<GaloisField2m<P>>, r: GaloisField2m<P>) -> (res: Vec<
    GaloisField2m<P>,
>)
    requires
        c@.len() < usize::MAX,
    ensures
        res@.len() == c@.len() + 1,
        vals(res@) == mul_linear(P, vals(c@), r.view_value()),
{
    let n = c.len();
    let mut res: Vec<GaloisField2m<P>> = Vec::new();
    let mut j: usize = 0;
    while j <= n
        invariant
            j <= n + 1,
            n == c@.len(),
            n < usize::MAX,
            res@.len() == j,
            forall|i: int|
                0 <= i < j ==> (#[trigger] res@[i]).view_value() == mul_linear(
                    P,
                    vals(c@),
                    r.view_value(),
                )[i],
        decreases n + 1 - j,
    {
        let hi = if j < n {
            c[j]
        } else {
            GaloisField2m::<P>::zero()
        };
        let lo = if j >= 1 {
            fmul(r, c[j - 1])
        } else {
            GaloisField2m::<P>::zero()
        };
        res.push(fadd(hi, lo));
        j = j + 1;
    }
    assert(vals(res@) =~= mul_linear(P, vals(c@), r.view_value()));
    res
}

/// c(x) at `x`, coefficients highest degree first (Horner's rule).
fn eval_exec<const P: u16>(c: &Vec<GaloisField2m<P>>, x: GaloisField2m<P>) -> (r: GaloisField2m<P>)
    ensures
        r.view_value() == eval_poly(P, vals(c@), x.view_value()),
{
    let mut acc = GaloisField2m::<P>::zero();
    let mut i: usize = 0;
    assert(vals(c@).subrange(0, 0) =~= Seq::<u16>::empty());
    while i < c.len()
        invariant
            i <= c@.len(),
            acc.view_value() == eval_poly(P, vals(c@).subrange(0, i as int), x.view_value()),
        decreases c@.len() - i,
    {
        acc = fadd(fmul(acc, x), c[i]);
        proof {
            let next = vals(c@).subrange(0, i + 1);
            assert(next.drop_last() =~= vals(c@).subrange(0, i as int));
        }
        i = i + 1;
    }
    assert(vals(c@).subrange(0, c@.len() as int) =~= vals(c@));
    acc
}

/// c(x) at `x`, coefficients lowest degree first.
fn eval_low_first<const P: u16>(c: &Vec<GaloisField2m<P>>, x: GaloisField2m<P>) -> (r: GaloisField2m<P>)
    ensures
        r.view_value() == eval_low(P, vals(c@), x.view_value(), 0),
{
    let mut acc = GaloisField2m::<P>::zero();
    let mut i: usize = c.len();
    while i > 0
        invariant
            i <= c@.len(),
            acc.view_value() == eval_low(P, vals(c@), x.view_value(), i as int),
        decreases i,
    {
        i = i - 1;
        acc = fadd(fmul(acc, x), c[i]);
    }
    acc
}

/// The formal derivative of c(x) at `x`, coefficients lowest degree first.
/// Over characteristic 2 only the odd-degree terms survive.
fn eval_derivative<const P: u16>(c: &Vec<GaloisField2m<P>>, x: GaloisField2m<P>) -> (r: GaloisField2m<P>)
    ensures
        r.view_value() == derivative_at(P, vals(c@), x.view_value()),
{
    let mut acc = GaloisField2m::<P>::zero();
    let mut power = GaloisField2m::<P>::one();
    let mut i: usize = 1;
    if c.len() == 0 {
        return acc;
    }
    while i < c.len()
        invariant
            1 <= i <= c@.len(),
            (acc.view_value(), power.view_value()) == derivative_acc(P, vals(c@), x.view_value(), i as nat),
        decreases c@.len() - i,
    {
        if i % 2 == 1 {
            acc = fadd(acc, fmul(c[i], power));
        }
        power = fmul(power, x);
        i = i + 1;
    }
    acc
}

/// Berlekamp-Massey: the shortest linear recurrence generating the
/// syndromes, as the error locator polynomial (lowest degree first, with
/// `syn.len() + 1` coefficients) and its length.
fn berlekamp_massey<const P: u16>(syn: &Vec<GaloisField2m<P>>) -> (r: (Vec<GaloisField2m<P>>, usize))
    requires
        degree(P) >= 1,
        syn@.len() < usize::MAX,
    ensures
        r.0@.len() == syn@.len() + 1,
        vals(r.0@) == bm_run(P, vals(syn@), syn@.len()).0,
        r.1 == bm_run(P, vals(syn@), syn@.len()).2,
        r.1 <= syn@.len(),
{
    let ghost sv = vals(syn@);
    let p = syn.len();
    let mut c = zeros::<P>(p + 1);
    c.set(0, GaloisField2m::<P>::one());
    let mut b = zeros::<P>(p + 1);
    b.set(0, GaloisField2m::<P>::one());
    let mut l: usize = 0;
    let mut m: usize = 1;
    let mut bb = GaloisField2m::<P>::one();
    let mut n: usize = 0;
    assert(vals(c@) =~= bm_run(P, sv, 0).0);
    assert(vals(b@) =~= bm_run(P, sv, 0).1);
    while n < p
        invariant
            degree(P) >= 1,
            p == syn@.len(),
            sv == vals(syn@),
            p < usize::MAX,
            n <= p,
            c@.len() == p + 1,
            b@.len() == p + 1,
            l <= n,
            1 <= m <= n + 1,
            bb.view_value() != 0,
            vals(c@) == bm_run(P, sv, n as nat).0,
            vals(b@) == bm_run(P, sv, n as nat).1,
            l == bm_run(P, sv, n as nat).2,
            m == bm_run(P, sv, n as nat).3,
            bb.view_value() == bm_run(P, sv, n as nat).4,
        decreases p - n,
    {
        let ghost c0 = vals(c@);
        let mut d = syn[n];
        let mut i: usize = 1;
        while i <= l
            invariant
                l <= n,
                n < p,
                p == syn@.len(),
                sv == vals(syn@),
                c@.len() == p + 1,
                c0 == vals(c@),
                1 <= i <= l + 1,
                d.view_value() == discrepancy(P, c0, sv, n as int, i - 1),
            decreases l + 1 - i,
        {
            d = fadd(d, fmul(c[i], syn[n - i]));
            i = i + 1;
        }
        if is_zero(d) {
            m = m + 1;
        } else {
            let coef = fdiv(d, bb);
            let t = prefix(&c, c.len());
            let ghost b0 = vals(b@);
            let mut i: usize = 0;
            while i + m <= p
                invariant
                    c@.len() == p + 1,
                    b@.len() == p + 1,
                    b0 == vals(b@),
                    c0.len() == p + 1,
                    b0.len() == p + 1,
                    p < usize::MAX,
                    n < p,
                    1 <= m <= n + 1,
                    i + m <= p + 1,
                    forall|j: int|
                        0 <= j < p + 1 ==> #[trigger] vals(c@)[j] == (if m <= j < i + m {
                            c0[j] ^ gf_mul(P, coef.view_value(), b0[j - m])
                        } else {
                            c0[j]
                        }),
                decreases p + 1 - i,
            {
                let v = fadd(c[i + m], fmul(coef, b[i]));
                let ghost before = vals(c@);
                c.set(i + m, v);
                proof {
                    assert(b0[i as int] == b@[i as int].view_value());
                    assert forall|j: int| 0 <= j < p + 1 implies #[trigger] vals(c@)[j] == (if m <= j < i + 1 + m {
                        c0[j] ^ gf_mul(P, coef.view_value(), b0[j - m])
                    } else {
                        c0[j]
                    }) by {
                        let old_j = before[j];
                        assert(old_j == (if m <= j < i + m {
                            c0[j] ^ gf_mul(P, coef.view_value(), b0[j - m])
                        } else {
                            c0[j]
                        }));
                        if j == i + m {
                            assert(vals(c@)[j] == v.view_value());
                        } else {
                            assert(vals(c@)[j] == c@[j].view_value());
                        }
                    }
                }
                i = i + 1;
            }
            assert(vals(c@) =~= bm_update(P, c0, b0, m as nat, coef.view_value()));
            assert(vals(t@) =~= c0);
            if l <= n - l {
                l = n + 1 - l;
                b = t;
                bb = d;
                m = 1;
            } else {
                m = m + 1;
            }
        }
        n = n + 1;
    }
    (c, l)
}

/// Number of positions at which `a` and `b` differ.
fn hamming_exec<const P: u16>(a: &Vec<GaloisField2m<P>>, b: &Vec<GaloisField2m<P>>) -> (r: usize)
    requires
        a@.len() == b@.len(),
    ensures
        r == hamming(vals(a@), vals(b@)),
{
    let mut count: usize = 0;
    let mut i: usize = 0;
    assert(vals(a@).subrange(0, 0).len() == 0);
    while i < a.len()
        invariant
            i <= a@.len(),
            a@.len() == b@.len(),
            count <= i,
            count == hamming(vals(a@).subrange(0, i as int), vals(b@)),
        decreases a@.len() - i,
    {
        proof {
            let next = vals(a@).subrange(0, i + 1);
            assert(next.drop_last() =~= vals(a@).subrange(0, i as int));
        }
        if a[i].value() != b[i].value() {
            count = count + 1;
        }
        i = i + 1;
    }
    assert(vals(a@).subrange(0, a@.len() as int) =~= vals(a@));
    count
}


/// A Reed-Solomon code over GF(2^m): messages of `message_len` symbols are
/// extended with `code_len - message_len` parity symbols.
pub struct ReedSolomon<const PPOLY: u16> {
    code_len: usize,
    message_len: usize,
    genpoly: Vec<GaloisField2m<PPOLY>>,
}

impl<const PPOLY: u16> ReedSolomon<PPOLY> {
    pub closed spec fn spec_code_len(&self) -> nat {
        self.code_len as nat
    }

    pub closed spec fn spec_message_len(&self) -> nat {
        self.message_len as nat
    }

    pub open spec fn spec_parity_len(&self) -> nat {
        (self.spec_code_len() - self.spec_message_len()) as nat
    }

    /// The generator polynomial's coefficients, highest degree first.
    pub closed spec fn spec_genpoly(&self) -> Seq<u16> {
        vals(self.genpoly@)
    }

    pub open spec fn wf(&self) -> bool {
        &&& degree(PPOLY) >= 2
        &&& self.spec_message_len() <= self.spec_code_len()
        &&& self.spec_code_len() < field_size(PPOLY)
        &&& self.spec_genpoly() == generator(PPOLY, self.spec_parity_len())
    }

    /// The Berlekamp-Massey result on the syndromes of `c`: the error
    /// locator (lowest degree first) in `.0` and its length in `.2`.
    pub open spec fn locator_of(&self, c: Seq<u16>) -> BmState {
        bm_run(PPOLY, syndromes_of(PPOLY, c, self.spec_parity_len()), self.spec_parity_len())
    }

    /// The word that the error locator and Forney's formula make of `c`, or
    /// the reason they fail: a locator longer than (code_len - message_len) / 2,
    /// a root count that differs from the locator's length, or a vanishing
    /// derivative at a root.
    pub open spec fn repair(&self, c: Seq<u16>) -> Result<Seq<u16>, DecodeError> {
        let st = self.locator_of(c);
        if st.2 > self.spec_parity_len() / 2 {
            Err(DecodeError::Uncorrectable)
        } else if root_count(PPOLY, st.0, self.spec_code_len()) != st.2 {
            Err(DecodeError::InconsistentLocator)
        } else {
            let syn = syndromes_of(PPOLY, c, self.spec_parity_len());
            forney(
                PPOLY,
                c,
                st.0,
                evaluator(PPOLY, syn, st.0, self.spec_parity_len()),
                roots_below(PPOLY, st.0, self.spec_code_len()),
                st.2,
            )
        }
    }

    /// The first `message_len` symbols of `w` are field elements.
    pub open spec fn head_valid(&self, w: Seq<u16>) -> bool {
        forall|i: int| 0 <= i < self.spec_message_len() ==> is_element(PPOLY, #[trigger] w[i])
    }

    /// What decoding `c` gives: the head of `c` when it is a codeword;
    /// otherwise the head of the repaired word when that is a codeword within
    /// (code_len - message_len) / 2 symbols of `c`; otherwise the failure.
    pub open spec fn decode_spec(&self, c: Seq<u16>) -> Result<Seq<u16>, DecodeError> {
        let k = self.spec_message_len() as int;
        if is_codeword(PPOLY, self.spec_genpoly(), self.spec_message_len(), c) {
            if self.head_valid(c) {
                Ok(c.subrange(0, k))
            } else {
                Err(DecodeError::Uncorrectable)
            }
        } else {
            match self.repair(c) {
                Err(e) => Err(e),
                Ok(w) => if is_codeword(PPOLY, self.spec_genpoly(), self.spec_message_len(), w)
                    && hamming(w, c) <= self.spec_parity_len() / 2 && self.head_valid(w) {
                    Ok(w.subrange(0, k))
                } else {
                    Err(DecodeError::Uncorrectable)
                },
            }
        }
    }

    /// The codeword of `msg` under this code.
    pub open spec fn codeword_of(&self, msg: Seq<u16>) -> Seq<u16> {
        encode_spec(PPOLY, self.spec_genpoly(), msg)
    }

    /// Builds the code with the given lengths, computing its generator
    /// polynomial. Fails unless the message fits in the codeword, the
    /// codeword is shorter than the field size, and the field has degree at
    /// least 2 (so that x is a primitive element candidate).
    pub fn new(code_len: usize, message_len: usize) -> (r: Option<Self>)
        ensures
            r is Some <==> (degree(PPOLY) >= 2 && message_len <= code_len && code_len
                < field_size(PPOLY)),
            r matches Some(rs) ==> rs.wf() && rs.spec_code_len() == code_len
                && rs.spec_message_len() == message_len,
    {
        if PPOLY == 0 {
            return None;
        }
        let size = GaloisField2m::<PPOLY>::size();
        if size < 4 || message_len > code_len || code_len >= size as usize {
            proof {
                lemma_degree_size(PPOLY);
            }
            return None;
        }
        proof {
            lemma_degree_size(PPOLY);
        }
        let parity_len = code_len - message_len;
        let mut g: Vec<GaloisField2m<PPOLY>> = Vec::new();
        g.push(GaloisField2m::<PPOLY>::one());
        let mut root = GaloisField2m::<PPOLY>::one();
        let alpha = GaloisField2m::<PPOLY>::primitive_element();
        let mut i: usize = 0;
        assert(vals(g@) =~= generator(PPOLY, 0));
        while i < parity_len
            invariant
                i <= parity_len,
                parity_len < usize::MAX - 1,
                g@.len() == i + 1,
                vals(g@) == generator(PPOLY, i as nat),
                root.view_value() == alpha_pow(PPOLY, i as nat),
                alpha.view_value() == 2,
            decreases parity_len - i,
        {
            g = mul_linear_exec(&g, root);
            root = fmul(root, alpha);
            i = i + 1;
        }
        Some(ReedSolomon { code_len, message_len, genpoly: g })
    }

    /// One long-division step: the running remainder takes in symbol `m`.
    fn division_step_exec(&self, reg: &Vec<GaloisField2m<PPOLY>>, m: GaloisField2m<PPOLY>) -> (r: Vec<
        GaloisField2m<PPOLY>,
    >)
        requires
            self.wf(),
            reg@.len() == self.spec_parity_len(),
            reg@.len() >= 1,
        ensures
            r@.len() == reg@.len(),
            vals(r@) == division_step(PPOLY, self.spec_genpoly(), vals(reg@), m.view_value()),
    {
        proof {
            lemma_generator_len(PPOLY, self.spec_parity_len());
        }
        let n = reg.len();
        let fb = fadd(m, reg[0]);
        let ghost spec_r = division_step(PPOLY, self.spec_genpoly(), vals(reg@), m.view_value());
        let mut r: Vec<GaloisField2m<PPOLY>> = Vec::new();
        let mut j: usize = 0;
        while j < n
            invariant
                j <= n,
                n == reg@.len(),
                self.genpoly@.len() == n + 1,
                fb.view_value() == m.view_value() ^ vals(reg@)[0],
                spec_r == division_step(PPOLY, self.spec_genpoly(), vals(reg@), m.view_value()),
                self.spec_genpoly() == vals(self.genpoly@),
                r@.len() == j,
                forall|i: int| 0 <= i < j ==> (#[trigger] r@[i]).view_value() == spec_r[i],
            decreases n - j,
        {
            let hi = if j + 1 < n {
                reg[j + 1]
            } else {
                GaloisField2m::<PPOLY>::zero()
            };
            r.push(fadd(hi, fmul(fb, self.genpoly[j + 1])));
            j = j + 1;
        }
        assert(vals(r@) =~= spec_r);
        r
    }

    /// The parity symbols of the first `len` symbols of `c`.
    fn parity_of(&self, c: &Vec<GaloisField2m<PPOLY>>, len: usize) -> (r: Vec<GaloisField2m<PPOLY>>)
        requires
            self.wf(),
            len <= c@.len(),
        ensures
            r@.len() == self.spec_parity_len(),
            vals(r@) == parity(PPOLY, self.spec_genpoly(), vals(c@).subrange(0, len as int)),
    {
        proof {
            lemma_generator_len(PPOLY, self.spec_parity_len());
        }
        let p = self.code_len - self.message_len;
        let mut reg = zeros::<PPOLY>(p);
        let ghost g = self.spec_genpoly();
        assert(vals(reg@) =~= parity(PPOLY, g, vals(c@).subrange(0, 0)));
        if p == 0 {
            assert(vals(reg@) =~= parity(PPOLY, g, vals(c@).subrange(0, len as int)));
            return reg;
        }
        let mut i: usize = 0;
        while i < len
            invariant
                i <= len,
                len <= c@.len(),
                self.wf(),
                g == self.spec_genpoly(),
                g.len() == p + 1,
                p >= 1,
                p == self.spec_parity_len(),
                reg@.len() == p,
                vals(reg@) == parity(PPOLY, g, vals(c@).subrange(0, i as int)),
            decreases len - i,
        {
            reg = self.division_step_exec(&reg, c[i]);
            proof {
                let prev = vals(c@).subrange(0, i as int);
                let next = vals(c@).subrange(0, i + 1);
                assert(next.drop_last() =~= prev);
                assert(next.last() == c@[i as int].view_value());
            }
            i = i + 1;
        }
        reg
    }

    /// The systematic codeword of `message`: the message followed by the
    /// remainder of x^(code_len - message_len) * message(x) modulo the generator.
    pub fn encode(&self, message: &Vec<GaloisField2m<PPOLY>>) -> (r: Vec<GaloisField2m<PPOLY>>)
        requires
            self.wf(),
            message@.len() == self.spec_message_len(),
        ensures
            r@.len() == self.spec_code_len(),
            vals(r@) == self.codeword_of(vals(message@)),
            remainder(PPOLY, self.spec_genpoly(), vals(r@)) == zero_seq(self.spec_parity_len()),
    {
        proof {
            lemma_codeword_divisible(*self, vals(message@));
        }
        let par = self.parity_of(message, message.len());
        let mut r = prefix(message, message.len());
        let mut j: usize = 0;
        let ghost k = message@.len();
        assert(vals(message@).subrange(0, k as int) =~= vals(message@));
        while j < par.len()
            invariant
                j <= par@.len(),
                r@.len() == k + j,
                r@.subrange(0, k as int) == message@,
                forall|i: int| 0 <= i < j ==> #[trigger] r@[k + i] == par@[i],
                par@.len() == self.spec_parity_len(),
                k == self.spec_message_len(),
                self.wf(),
            decreases par@.len() - j,
        {
            r.push(par[j]);
            j = j + 1;
            assert(r@.subrange(0, k as int) =~= message@);
        }
        assert forall|i: int| 0 <= i < k implies r@[i] == message@[i] by {
            assert(r@.subrange(0, k as int)[i] == r@[i]);
        }
        assert forall|i: int| k <= i < r@.len() implies r@[i] == par@[i - k] by {
            assert(r@[k + (i - k)] == par@[i - k]);
        }
        assert(vals(r@) =~= vals(message@) + vals(par@));
        r
    }

    /// Whether `c` is a codeword: its tail equals the parity of its head.
    fn check(&self, c: &Vec<GaloisField2m<PPOLY>>) -> (r: bool)
        requires
            self.wf(),
            c@.len() == self.spec_code_len(),
        ensures
            r == is_codeword(PPOLY, self.spec_genpoly(), self.spec_message_len(), vals(c@)),
    {
        let k = self.message_len;
        let par = self.parity_of(c, k);
        let ghost cv = vals(c@);
        let ghost expected = encode_spec(PPOLY, self.spec_genpoly(), cv.subrange(0, k as int));
        assert(expected.len() == cv.len());
        assert forall|i: int| 0 <= i < k implies expected[i] == cv[i] by {}
        let n = c.len();
        let mut j: usize = 0;
        while j < par.len()
            invariant
                j <= par@.len(),
                par@.len() + k == c@.len(),
                n == c@.len(),
                k == self.spec_message_len(),
                cv == vals(c@),
                vals(par@) == parity(PPOLY, self.spec_genpoly(), cv.subrange(0, k as int)),
                expected == encode_spec(PPOLY, self.spec_genpoly(), cv.subrange(0, k as int)),
                forall|i: int| 0 <= i < k + j ==> expected[i] == cv[i],
            decreases par@.len() - j,
        {
            if par[j].value() != c[k + j].value() {
                assert(expected[k + j] == vals(par@)[j as int]);
                assert(cv[k + j] == c@[k + j].view_value());
                assert(expected[k + j] != cv[k + j]);
                return false;
            }
            j = j + 1;
        }
        assert(expected =~= cv);
        true
    }

    /// S_i = c(alpha^i) for i below the parity length.
    fn syndromes(&self, c: &Vec<GaloisField2m<PPOLY>>) -> (r: Vec<GaloisField2m<PPOLY>>)
        requires
            self.wf(),
        ensures
            r@.len() == self.spec_parity_len(),
            forall|i: int|
                0 <= i < r@.len() ==> (#[trigger] r@[i]).view_value() == eval_poly(
                    PPOLY,
                    vals(c@),
                    alpha_pow(PPOLY, i as nat),
                ),
    {
        let p = self.code_len - self.message_len;
        let alpha = GaloisField2m::<PPOLY>::primitive_element();
        let mut x = GaloisField2m::<PPOLY>::one();
        let mut r: Vec<GaloisField2m<PPOLY>> = Vec::new();
        let mut i: usize = 0;
        while i < p
            invariant
                i <= p,
                r@.len() == i,
                x.view_value() == alpha_pow(PPOLY, i as nat),
                alpha.view_value() == 2,
                forall|j: int|
                    0 <= j < i ==> (#[trigger] r@[j]).view_value() == eval_poly(
                        PPOLY,
                        vals(c@),
                        alpha_pow(PPOLY, j as nat),
                    ),
            decreases p - i,
        {
            r.push(eval_exec(c, x));
            x = fmul(x, alpha);
            i = i + 1;
        }
        r
    }

    /// Locates and repairs the errors of a received word that is no codeword;
    /// the result is only a candidate, to be checked by the caller.
    fn correct(&self, received: &Vec<GaloisField2m<PPOLY>>) -> (r: Result<Vec<GaloisField2m<PPOLY>>, DecodeError>)
        requires
            self.wf(),
            received@.len() == self.spec_code_len(),
        ensures
            r matches Ok(c) ==> c@.len() == received@.len(),
            r matches Ok(v) ==> self.repair(vals(received@)) == Ok::<Seq<u16>, DecodeError>(vals(v@)),
            r matches Err(e) ==> self.repair(vals(received@)) == Err::<Seq<u16>, DecodeError>(e),
    {
        let n = self.code_len;
        let p = self.code_len - self.message_len;
        let t = p / 2;
        proof {
            lemma_degree_size(PPOLY);
        }
        let syn = self.syndromes(received);
        assert(vals(syn@) =~= syndromes_of(PPOLY, vals(received@), self.spec_parity_len()));
        let (lambda, l) = berlekamp_massey(&syn);
        if l > t {
            return Err(DecodeError::Uncorrectable);
        }
        // Chien search: degree e is in error where lambda(alpha^-e) == 0.
        let alpha = GaloisField2m::<PPOLY>::primitive_element();
        let mut x = GaloisField2m::<PPOLY>::one();
        let mut positions: Vec<usize> = Vec::new();
        let mut e: usize = 0;
        while e < n
            invariant
                e <= n,
                positions@.len() <= e,
                positions@.len() == root_count(PPOLY, vals(lambda@), e as nat),
                positions@.len() == roots_below(PPOLY, vals(lambda@), e as nat).len(),
                forall|i: int| 0 <= i < positions@.len() ==> #[trigger] positions@[i] as int
                    == roots_below(PPOLY, vals(lambda@), e as nat)[i],
                x.view_value() == alpha_pow(PPOLY, e as nat),
                alpha.view_value() == 2,
                forall|i: int| 0 <= i < positions@.len() ==> #[trigger] positions@[i] < n,
                degree(PPOLY) >= 2,
            decreases n - e,
        {
            let xinv = finv(x);
            if is_zero(eval_low_first(&lambda, xinv)) {
                positions.push(e);
            }
            x = fmul(x, alpha);
            e = e + 1;
        }
        if positions.len() != l {
            return Err(DecodeError::InconsistentLocator);
        }
        let ghost st = bm_run(
            PPOLY,
            syndromes_of(PPOLY, vals(received@), self.spec_parity_len()),
            self.spec_parity_len(),
        );
        assert(st.2 <= self.spec_parity_len() / 2 && root_count(PPOLY, st.0, self.spec_code_len()) == st.2);
        let ghost rec = vals(received@);
        let ghost syn_v = vals(syn@);
        let ghost lam_v = vals(lambda@);
        let ghost roots = roots_below(PPOLY, lam_v, n as nat);
        let ghost omega_v = evaluator(PPOLY, syn_v, lam_v, p as nat);
        // Error evaluator: omega(x) = S(x) * lambda(x) mod x^p, lowest degree first.
        let mut omega = zeros::<PPOLY>(p);
        let mut i: usize = 0;
        while i < p
            invariant
                omega@.len() == p,
                syn@.len() == p,
                lambda@.len() == p + 1,
                st == bm_run(
                    PPOLY,
                    syndromes_of(PPOLY, vals(received@), self.spec_parity_len()),
                    self.spec_parity_len(),
                ),
                st.2 <= self.spec_parity_len() / 2 && root_count(PPOLY, st.0, self.spec_code_len()) == st.2,
                i <= p,
                syn_v == vals(syn@),
                lam_v == vals(lambda@),
                forall|j: int| 0 <= j < i ==> #[trigger] vals(omega@)[j] == convolution(PPOLY, syn_v, lam_v, j, j + 1),
            decreases p - i,
        {
            let mut acc = GaloisField2m::<PPOLY>::zero();
            let mut j: usize = 0;
            while j <= i
                invariant
                    i < p,
                    syn@.len() == p,
                    lambda@.len() == p + 1,
                    syn_v == vals(syn@),
                    lam_v == vals(lambda@),
                    j <= i + 1,
                    acc.view_value() == convolution(PPOLY, syn_v, lam_v, i as int, j as int),
                decreases i + 1 - j,
            {
                acc = fadd(acc, fmul(syn[j], lambda[i - j]));
                j = j + 1;
            }
            let ghost before = vals(omega@);
            omega.set(i, acc);
            proof {
                assert forall|j: int| 0 <= j < i + 1 implies #[trigger] vals(omega@)[j] == convolution(PPOLY, syn_v, lam_v, j, j + 1) by {
                    if j < i {
                        assert(before[j] == convolution(PPOLY, syn_v, lam_v, j, j + 1));
                        assert(vals(omega@)[j] == omega@[j].view_value());
                    } else {
                        assert(vals(omega@)[j] == omega@[j].view_value());
                    }
                }
            }
            i = i + 1;
        }
        assert(vals(omega@) =~= omega_v);
        // Forney: the error value at X = alpha^e is X * omega(X^-1) / lambda'(X^-1).
        let mut corrected = prefix(received, n);
        assert(vals(corrected@) =~= rec);
        let mut q: usize = 0;
        while q < positions.len()
            invariant
                corrected@.len() == n,
                n == received@.len(),
                rec == vals(received@),
                lam_v == vals(lambda@),
                omega_v == vals(omega@),
                positions@.len() == roots.len(),
                positions@.len() == st.2,
                roots == roots_below(PPOLY, lam_v, n as nat),
                lam_v == st.0,
                omega_v == evaluator(PPOLY, syndromes_of(PPOLY, rec, p as nat), st.0, p as nat),
                p == self.spec_parity_len(),
                n == self.spec_code_len(),
                forall|i: int| 0 <= i < positions@.len() ==> #[trigger] positions@[i] as int == roots[i],
                q <= positions@.len(),
                alpha.view_value() == 2,
                forney(PPOLY, rec, lam_v, omega_v, roots, q as nat) == Ok::<Seq<u16>, DecodeError>(vals(corrected@)),
                st == bm_run(
                    PPOLY,
                    syndromes_of(PPOLY, vals(received@), self.spec_parity_len()),
                    self.spec_parity_len(),
                ),
                st.2 <= self.spec_parity_len() / 2 && root_count(PPOLY, st.0, self.spec_code_len()) == st.2,
                forall|i: int| 0 <= i < positions@.len() ==> #[trigger] positions@[i] < n,
                degree(PPOLY) >= 2,
            decreases positions@.len() - q,
        {
            let pos = positions[q];
            let mut xe = GaloisField2m::<PPOLY>::one();
            let mut s: usize = 0;
            while s < pos
                invariant
                    s <= pos,
                    xe.view_value() == alpha_pow(PPOLY, s as nat),
                    alpha.view_value() == 2,
                decreases pos - s,
            {
                xe = fmul(xe, alpha);
                s = s + 1;
            }
            let xinv = finv(xe);
            let den = eval_derivative(&lambda, xinv);
            if is_zero(den) {
                proof {
                    lemma_forney_err_stays(PPOLY, rec, lam_v, omega_v, roots, (q + 1) as nat, st.2);
                }
                return Err(DecodeError::InconsistentLocator);
            }
            let magnitude = fdiv(fmul(xe, eval_low_first(&omega, xinv)), den);
            let idx = n - 1 - pos;
            let ghost cur = vals(corrected@);
            let v = fadd(corrected[idx], magnitude);
            corrected.set(idx, v);
            proof {
                assert(vals(corrected@) =~= cur.update(idx as int, cur[idx as int] ^ magnitude.view_value()));
            }
            q = q + 1;
        }
        Ok(corrected)
    }

    /// Decodes a received word, with the result `decode_spec` gives.
    ///
    /// A codeword is returned as its message unchanged. Otherwise the
    /// syndromes go through Berlekamp-Massey, a Chien search and Forney's
    /// formula (`repair`); a locator longer than (code_len - message_len) / 2
    /// is `Uncorrectable`, a root count that differs from the locator's
    /// length is `InconsistentLocator`, and a message is returned only when
    /// the repaired word is a codeword within that radius of the received
    /// word. That every word within the radius of a codeword is repaired
    /// (when PPOLY is primitive) is not stated here.
    pub fn decode(&self, received: &Vec<GaloisField2m<PPOLY>>) -> (r: Result<Vec<GaloisField2m<PPOLY>>, DecodeError>)
        requires
            self.wf(),
            received@.len() == self.spec_code_len(),
        ensures
            is_codeword(PPOLY, self.spec_genpoly(), self.spec_message_len(), vals(received@))
                && (forall|i: int| 0 <= i < self.spec_message_len() ==> (#[trigger] received@[i]).wf())
                ==> (r matches Ok(m) && vals(m@) == vals(received@).subrange(
                0,
                self.spec_message_len() as int,
            )),
            r matches Ok(m) ==> m@.len() == self.spec_message_len() && hamming(
                self.codeword_of(vals(m@)),
                vals(received@),
            ) <= self.spec_parity_len() / 2,
            r matches Ok(m) ==> forall|i: int| 0 <= i < m@.len() ==> (#[trigger] m@[i]).wf(),
            r matches Ok(m) ==> self.decode_spec(vals(received@)) == Ok::<Seq<u16>, DecodeError>(vals(m@)),
            r matches Err(e) ==> self.decode_spec(vals(received@)) == Err::<Seq<u16>, DecodeError>(e),
            !is_codeword(PPOLY, self.spec_genpoly(), self.spec_message_len(), vals(received@)) ==> ({
                let st = self.locator_of(vals(received@));
                &&& st.2 > self.spec_parity_len() / 2 ==> r == Err::<Vec<GaloisField2m<PPOLY>>, DecodeError>(DecodeError::Uncorrectable)
                &&& st.2 <= self.spec_parity_len() / 2 && root_count(PPOLY, st.0, self.spec_code_len()) != st.2
                    ==> r == Err::<Vec<GaloisField2m<PPOLY>>, DecodeError>(DecodeError::InconsistentLocator)
            }),
    {
        let k = self.message_len;
        if self.check(received) {
            let m = prefix(received, k);
            proof {
                assert(vals(m@) =~= vals(received@).subrange(0, k as int));
                lemma_hamming_self(vals(received@));
            }
            if !all_elements(&m) {
                proof {
                    let i = choose|i: int| 0 <= i < m@.len() && !(#[trigger] m@[i]).wf();
                    assert(vals(received@)[i] == m@[i].view_value());
                }
                return Err(DecodeError::Uncorrectable);
            }
            proof {
                assert forall|i: int| 0 <= i < k implies is_element(PPOLY, #[trigger] vals(received@)[i]) by {
                    assert(m@[i].wf());
                }
            }
            return Ok(m);
        }
        let corrected = match self.correct(received) {
            Ok(c) => c,
            Err(e) => {
                return Err(e);
            },
        };
        if !self.check(&corrected) {
            return Err(DecodeError::Uncorrectable);
        }
        let dist = hamming_exec(&corrected, received);
        if dist > (self.code_len - self.message_len) / 2 {
            return Err(DecodeError::Uncorrectable);
        }
        let m = prefix(&corrected, k);
        proof {
            assert(vals(m@) =~= vals(corrected@).subrange(0, k as int));
        }
        if !all_elements(&m) {
            proof {
                let i = choose|i: int| 0 <= i < m@.len() && !(#[trigger] m@[i]).wf();
                assert(vals(corrected@)[i] == m@[i].view_value());
            }
            return Err(DecodeError::Uncorrectable);
        }
        proof {
            assert forall|i: int| 0 <= i < k implies is_element(PPOLY, #[trigger] vals(corrected@)[i]) by {
                assert(m@[i].wf());
            }
        }
        Ok(m)
    }

    /// Number of symbols in a codeword.
    pub fn code_len(&self) -> (r: usize)
        ensures
            r == self.spec_code_len(),
    {
        self.code_len
    }

    /// Number of symbols in a message.
    pub fn message_len(&self) -> (r: usize)
        ensures
            r == self.spec_message_len(),
    {
        self.message_len
    }

    /// Number of parity symbols, code_len - message_len.
    pub fn parity_len(&self) -> (r: usize)
        requires
            self.wf(),
        ensures
            r == self.spec_parity_len(),
    {
        self.code_len - self.message_len
    }

    /// The raw values of the generator polynomial, highest degree first.
    pub fn generator_values(&self) -> (r: Vec<u16>)
        ensures
            r@ == self.spec_genpoly(),
    {
        let mut r: Vec<u16> = Vec::new();
        let mut i: usize = 0;
        while i < self.genpoly.len()
            invariant
                i <= self.genpoly@.len(),
                r@ == vals(self.genpoly@).subrange(0, i as int),
            decreases self.genpoly@.len() - i,
        {
            r.push(self.genpoly[i].value());
            i = i + 1;
            assert(r@ =~= vals(self.genpoly@).subrange(0, i as int));
        }
        assert(r@ =~= vals(self.genpoly@));
        r
    }
}

proof fn lemma_hamming_self(a: Seq<u16>)
    ensures
        hamming(a, a) == 0,
    decreases a.len(),
{
    if a.len() > 0 {
        lemma_hamming_prefix(a.drop_last(), a, a.drop_last());
        lemma_hamming_self(a.drop_last());
    }
}

/// `hamming` reads `b` only at the positions of `a`.
proof fn lemma_hamming_prefix(a: Seq<u16>, b: Seq<u16>, b2: Seq<u16>)
    requires
        a.len() <= b.len(),
        a.len() <= b2.len(),
        forall|i: int| 0 <= i < a.len() ==> b[i] == b2[i],
    ensures
        hamming(a, b) == hamming(a, b2),
    decreases a.len(),
{
    if a.len() > 0 {
        lemma_hamming_prefix(a.drop_last(), b, b2);
    }
}

proof fn lemma_forney_err_stays(
    p: u16,
    rec: Seq<u16>,
    lambda: Seq<u16>,
    omega: Seq<u16>,
    roots: Seq<int>,
    q: nat,
    q2: nat,
)
    requires
        q <= q2,
        forney(p, rec, lambda, omega, roots, q) is Err,
    ensures
        forney(p, rec, lambda, omega, roots, q2) == forney(p, rec, lambda, omega, roots, q),
    decreases q2,
{
    if q2 > q {
        lemma_forney_err_stays(p, rec, lambda, omega, roots, q, (q2 - 1) as nat);
    }
}

pub proof fn lemma_generator_len(p: u16, k: nat)
    ensures
        generator(p, k).len() == k + 1,
    decreases k,
{
    if k > 0 {
        lemma_generator_len(p, (k - 1) as nat);
    }
}

/// A field with at least four elements is one of degree at least 2.
proof fn lemma_degree_size(p: u16)
    requires
        p >= 1,
    ensures
        field_size(p) < 65536,
        (degree(p) >= 2) == (field_size(p) >= 4),
{
    let d = degree(p);
    crate::util::galois_field_2m::lemma_field_size(p);
    vstd::arithmetic::power2::lemma2_to64();
    vstd::arithmetic::power2::lemma_pow2_strictly_increases(d, 16);
    if d >= 2 {
        if d > 2 {
            vstd::arithmetic::power2::lemma_pow2_strictly_increases(2, d);
        }
    } else if d == 1 {
    } else {
    }
}


/// Decoding an unaltered codeword gives back its message: the codeword of
/// `msg` is recognised as a codeword whose head is `msg`, which `decode`
/// returns unchanged.
pub proof fn lemma_round_trip<const P: u16>(rs: ReedSolomon<P>, msg: Seq<u16>)
    requires
        rs.wf(),
        msg.len() == rs.spec_message_len(),
    ensures
        is_codeword(P, rs.spec_genpoly(), rs.spec_message_len(), rs.codeword_of(msg)),
        rs.codeword_of(msg).subrange(0, msg.len() as int) == msg,
{
    let c = rs.codeword_of(msg);
    assert(c.subrange(0, msg.len() as int) =~= msg);
}

/// With no parity symbols the code passes words through: a message is its
/// own codeword, and every word of the code length is a codeword, which
/// `decode` hands back unchanged.
pub proof fn lemma_no_parity_pass_through<const P: u16>(rs: ReedSolomon<P>, msg: Seq<u16>, c: Seq<u16>)
    requires
        rs.wf(),
        rs.spec_parity_len() == 0,
        msg.len() == rs.spec_message_len(),
        c.len() == rs.spec_code_len(),
    ensures
        rs.codeword_of(msg) == msg,
        is_codeword(P, rs.spec_genpoly(), rs.spec_message_len(), c),
{
    lemma_generator_len(P, 0);
    assert(rs.codeword_of(msg) =~= msg);
    let head = c.subrange(0, rs.spec_message_len() as int);
    assert(encode_spec(P, rs.spec_genpoly(), head) =~= c);
}

impl<const PPOLY: u16> Code for ReedSolomon<PPOLY> {
    type Symbol = GaloisField2m<PPOLY>;

    type Error = DecodeError;

    open spec fn code_wf(&self) -> bool {
        self.wf()
    }

    open spec fn message_size(&self) -> nat {
        self.spec_message_len()
    }

    open spec fn code_size(&self) -> nat {
        self.spec_code_len()
    }

    open spec fn encodes(&self, message: Seq<GaloisField2m<PPOLY>>, code: Seq<GaloisField2m<PPOLY>>) -> bool {
        vals(code) == self.codeword_of(vals(message))
    }

    open spec fn decodes(
        &self,
        code: Seq<GaloisField2m<PPOLY>>,
        result: Result<Vec<GaloisField2m<PPOLY>>, DecodeError>,
    ) -> bool {
        match result {
            Ok(m) => self.decode_spec(vals(code)) == Ok::<Seq<u16>, DecodeError>(vals(m@)),
            Err(e) => self.decode_spec(vals(code)) == Err::<Seq<u16>, DecodeError>(e),
        }
    }

    fn code_len(&self) -> usize {
        ReedSolomon::<PPOLY>::code_len(self)
    }

    fn message_len(&self) -> usize {
        ReedSolomon::<PPOLY>::message_len(self)
    }

    fn encode(&self, message: &Vec<GaloisField2m<PPOLY>>) -> Vec<GaloisField2m<PPOLY>> {
        ReedSolomon::<PPOLY>::encode(self, message)
    }

    fn decode(&self, code: &Vec<GaloisField2m<PPOLY>>) -> Result<Vec<GaloisField2m<PPOLY>>, DecodeError> {
        ReedSolomon::<PPOLY>::decode(self, code)
    }
}

} // verus!
