//! A prime field of 64-bit elements: the integers modulo `MODULUS`.
use vstd::arithmetic::div_mod::*;
use vstd::prelude::*;

verus! {

/// The field's modulus, 2^64 - 2^32 + 1.
pub const MODULUS: u64 = 0xffff_ffff_0000_0001;

/// A field element, held as its canonical representative.
#[derive(Clone, Copy, Debug, PartialEq, Eq, Structural)]
pub struct Fe {
    pub v: u64,
}

pub open spec fn fadd(a: Fe, b: Fe) -> Fe {
    Fe { v: ((a.v + b.v) % (MODULUS as int)) as u64 }
}

pub open spec fn fsub(a: Fe, b: Fe) -> Fe {
    Fe { v: ((a.v - b.v) % (MODULUS as int)) as u64 }
}

pub open spec fn fmul(a: Fe, b: Fe) -> Fe {
    Fe { v: ((a.v * b.v) % (MODULUS as int)) as u64 }
}

/// `e` is a multiplicative inverse of `a`.
pub open spec fn is_inverse(a: Fe, e: Fe) -> bool {
    e.wf() && (a.val() * e.val()) % MODULUS as int == 1
}

/// The multiplicative inverse of `a`, where one exists.
pub open spec fn finv(a: Fe) -> Fe {
    choose|e: Fe| is_inverse(a, e)
}

/// An element has at most one inverse.
pub proof fn lemma_inverse_unique(a: Fe, e1: Fe, e2: Fe)
    requires
        a.wf(),
        is_inverse(a, e1),
        is_inverse(a, e2),
    ensures
        e1 == e2,
{
    let m = MODULUS as int;
    let x = a.val();
    let y1 = e1.val();
    let y2 = e2.val();
    // y1 == y1 * (x * y2) == (y1 * x) * y2 == y2, modulo m
    lemma_mul_mod_noop_right(y1, x * y2, m);
    lemma_small_mod(1, m as nat);
    assert(y1 * 1 == y1);
    lemma_small_mod(y1 as nat, m as nat);
    assert((y1 * (x * y2)) % m == y1 % m);
    assert(y1 * (x * y2) == (x * y1) * y2) by (nonlinear_arith);
    lemma_mul_mod_noop_left(x * y1, y2, m);
    lemma_small_mod(y2 as nat, m as nat);
    assert(1 * y2 == y2);
}

impl Fe {
    pub open spec fn wf(self) -> bool {
        self.v < MODULUS
    }

    /// The element as an integer in `0..MODULUS`.
    pub open spec fn val(self) -> int {
        self.v as int
    }

    /// The element `n mod MODULUS`.
    pub fn from_u64(n: u64) -> (r: Fe)
        ensures
            r.wf(),
            r.val() == n as int % MODULUS as int,
    {
        Fe { v: n % MODULUS }
    }

    pub fn zero() -> (r: Fe)
        ensures
            r.wf(),
            r.val() == 0,
    {
        Fe { v: 0 }
    }

    pub fn one() -> (r: Fe)
        ensures
            r.wf(),
            r.val() == 1,
    {
        Fe { v: 1 }
    }

    pub fn is_zero(&self) -> (r: bool)
        ensures
            r == (self.val() == 0),
    {
        self.v == 0
    }

    pub fn add(self, o: Fe) -> (r: Fe)
        requires
            self.wf(),
            o.wf(),
        ensures
            r.wf(),
            r.val() == (self.val() + o.val()) % MODULUS as int,
            r == fadd(self, o),
    {
        let s: u128 = self.v as u128 + o.v as u128;
        Fe { v: (s % (MODULUS as u128)) as u64 }
    }

    pub fn sub(self, o: Fe) -> (r: Fe)
        requires
            self.wf(),
            o.wf(),
        ensures
            r.wf(),
            r.val() == (self.val() - o.val()) % MODULUS as int,
            r == fsub(self, o),
    {
        let s: u128 = self.v as u128 + MODULUS as u128 - o.v as u128;
        proof {
            lemma_mod_add_multiples_vanish(self.val() - o.val(), MODULUS as int);
        }
        Fe { v: (s % (MODULUS as u128)) as u64 }
    }

    pub fn mul(self, o: Fe) -> (r: Fe)
        requires
            self.wf(),
            o.wf(),
        ensures
            r.wf(),
            r.val() == (self.val() * o.val()) % MODULUS as int,
            r == fmul(self, o),
    {
        let a: u128 = self.v as u128;
        let b: u128 = o.v as u128;
        assert(a * b < 0x1_0000_0000_0000_0000_0000_0000_0000_0000) by (nonlinear_arith)
            requires
                a < 0x1_0000_0000_0000_0000,
                b < 0x1_0000_0000_0000_0000,
        ;
        let p: u128 = a * b;
        Fe { v: (p % (MODULUS as u128)) as u64 }
    }

    /// The multiplicative inverse, where one exists; `None` exactly where no element is an inverse
    /// (for a prime modulus: exactly for zero).
    pub fn invert(self) -> (r: Option<Fe>)
        requires
            self.wf(),
        ensures
            r matches Some(e) ==> e == finv(self),
            r is None <==> !(exists|e: Fe| is_inverse(self, e)),
            r matches Some(e) ==> e.wf() && (self.val() * e.val()) % MODULUS as int == 1,
            r is None ==> forall|b: int| #[trigger] ((self.val() * b) % MODULUS as int) != 1,
            r is None ==> self.val() != 1,
    {
        let r = invert_mod(self);
        proof {
            if let Some(e) = r {
                assert(is_inverse(self, e));
                lemma_inverse_unique(self, e, finv(self));
            } else {
                assert forall|e: Fe| !is_inverse(self, e) by {
                    assert((self.val() * e.val()) % MODULUS as int != 1);
                }
            }
        }
        r
    }
}

pub open spec fn divides(d: int, x: int) -> bool {
    x % d == 0
}

proof fn lemma_divides_combination(d: int, x: int, y: int, q: int)
    requires
        d > 0,
        divides(d, y),
        divides(d, x - q * y),
    ensures
        divides(d, x),
{
    lemma_fundamental_div_mod(y, d);
    lemma_fundamental_div_mod(x - q * y, d);
    let ky = y / d;
    let kz = (x - q * y) / d;
    assert(x == d * (kz + q * ky)) by (nonlinear_arith)
        requires
            y == d * ky,
            x - q * y == d * kz,
    ;
    lemma_mod_multiples_basic(kz + q * ky, d);
    assert(x == (kz + q * ky) * d) by (nonlinear_arith)
        requires
            x == d * (kz + q * ky),
    ;
}

proof fn lemma_divides_difference(d: int, x: int, y: int, q: int)
    requires
        d > 0,
        divides(d, y),
        divides(d, x),
    ensures
        divides(d, x - q * y),
{
    lemma_fundamental_div_mod(y, d);
    lemma_fundamental_div_mod(x, d);
    let ky = y / d;
    let kx = x / d;
    assert(x - q * y == (kx - q * ky) * d) by (nonlinear_arith)
        requires
            y == d * ky,
            x == d * kx,
    ;
    lemma_mod_multiples_basic(kx - q * ky, d);
}

/// No element is an inverse of `a` when `g > 1` divides both `a` and the modulus.
proof fn lemma_no_inverse(a: int, g: int)
    requires
        g > 1,
        divides(g, a),
        divides(g, MODULUS as int),
    ensures
        forall|b: int| #[trigger] ((a * b) % MODULUS as int) != 1,
{
    let m = MODULUS as int;
    assert forall|b: int| #[trigger] ((a * b) % m) != 1 by {
        if (a * b) % m == 1 {
            lemma_fundamental_div_mod(a * b, m);
            let k = (a * b) / m;
            lemma_fundamental_div_mod(a, g);
            let ka = a / g;
            assert(a * b == (ka * b) * g) by (nonlinear_arith)
                requires
                    a == g * ka,
            ;
            lemma_mod_multiples_basic(ka * b, g);
            // 1 == a * b - k * m, and g divides the right-hand side
            lemma_divides_difference(g, a * b, m, k);
            assert(a * b - k * m == 1);
            lemma_small_mod(1, g as nat);
        }
    }
}

/// Extended Euclid on `(MODULUS, a)`, with the Bezout coefficient of `a` kept modulo `MODULUS`.
fn invert_mod(a: Fe) -> (r: Option<Fe>)
    requires
        a.wf(),
    ensures
        r matches Some(e) ==> e.wf() && (a.val() * e.val()) % MODULUS as int == 1,
        r is None ==> forall|b: int| #[trigger] ((a.val() * b) % MODULUS as int) != 1,
        r is None ==> a.val() != 1,
{
    let m: Ghost<int> = Ghost(MODULUS as int);
    let mut r_prev: u64 = MODULUS;
    let mut r_cur: u64 = a.v;
    let mut s_prev: Fe = Fe::zero();
    let mut s_cur: Fe = Fe::one();
    proof {
        lemma_mod_self_0(m@);
        lemma_small_mod(a.v as nat, MODULUS as nat);
    }
    while r_cur != 0
        invariant
            r_prev > 0,
            s_prev.wf(),
            s_cur.wf(),
            m@ == MODULUS as int,
            (a.val() * s_prev.val()) % m@ == r_prev as int % m@,
            (a.val() * s_cur.val()) % m@ == r_cur as int % m@,
            forall|d: int|
                d > 0 && divides(d, r_prev as int) && #[trigger] divides(d, r_cur as int) ==> divides(
                    d,
                    m@,
                ) && divides(d, a.val()),
        decreases r_cur,
    {
        let q: u64 = r_prev / r_cur;
        let r_next: u64 = r_prev % r_cur;
        let qf = Fe::from_u64(q);
        let t = qf.mul(s_cur);
        let s_next = s_prev.sub(t);
        proof {
            let rp = r_prev as int;
            let rc = r_cur as int;
            let rn = r_next as int;
            let qi = q as int;
            lemma_fundamental_div_mod(rp, rc);
            assert(qi == rp / rc && rn == rp % rc);
            assert(rc * qi == qi * rc) by (nonlinear_arith);
            assert(rn == rp - qi * rc);
            // congruence of the new coefficient
            let sp = s_prev.val();
            let sc = s_cur.val();
            let av = a.val();
            assert((av * s_next.val()) % m@ == rn % m@) by {
                lemma_mul_mod_noop_left(qi, sc, m@);
                // t == (q * sc) % m
                assert(t.val() == (qi * sc) % m@);
                lemma_mul_mod_noop_right(av, sp - t.val(), m@);
                assert(av * (sp - t.val()) == av * sp - av * t.val()) by (nonlinear_arith);
                lemma_sub_mod_noop(av * sp, av * t.val(), m@);
                lemma_mul_mod_noop_right(av, qi * sc, m@);
                assert(av * (qi * sc) == qi * (av * sc)) by (nonlinear_arith);
                lemma_mul_mod_noop_right(qi, av * sc, m@);
                lemma_mul_mod_noop_right(qi, rc, m@);
                lemma_sub_mod_noop(rp, qi * rc, m@);
            }
            assert forall|d: int|
                d > 0 && divides(d, r_cur as int) && #[trigger] divides(d, r_next as int) implies divides(
                d,
                m@,
            ) && divides(d, a.val()) by {
                lemma_divides_combination(d, rp, rc, qi);
            }
        }
        r_prev = r_cur;
        r_cur = r_next;
        s_prev = s_cur;
        s_cur = s_next;
    }
    if r_prev == 1 {
        proof {
            lemma_mul_mod_noop_right(a.val(), s_prev.val(), m@);
            lemma_small_mod(1, MODULUS as nat);
        }
        Some(s_prev)
    } else {
        proof {
            lemma_mod_self_0(r_prev as int);
            lemma_mod_self_0(m@);
            lemma_small_mod(0, r_prev as nat);
            assert(divides(r_prev as int, r_cur as int));
            lemma_no_inverse(a.val(), r_prev as int);
            assert((a.val() * 1) % m@ != 1);
            lemma_small_mod(1, MODULUS as nat);
        }
        None
    }
}

} // verus!
