use vstd::prelude::*;
use vstd::arithmetic::div_mod::{
    lemma_fundamental_div_mod,
    lemma_fundamental_div_mod_converse,
    lemma_mod_multiples_basic,
};

verus! {

/// Greatest common divisor, by Euclid's recurrence; `gcd_spec(0, 0) == 0`.
pub open spec fn gcd_spec(a: nat, b: nat) -> nat
    decreases b,
{
    if b == 0 {
        a
    } else {
        gcd_spec(b, a % b)
    }
}

/// Greatest common divisor of all elements; 0 for an empty sequence.
pub open spec fn gcd_all(s: Seq<u32>) -> nat
    decreases s.len(),
{
    if s.len() == 0 {
        0
    } else {
        gcd_spec(gcd_all(s.drop_last()), s.last() as nat)
    }
}

/// Greatest common divisor of two numbers.
pub fn gcd(a: u32, b: u32) -> (r: u32)
    ensures
        r as nat == gcd_spec(a as nat, b as nat),
{
    let mut m = a;
    let mut n = b;
    while n != 0
        invariant
            gcd_spec(m as nat, n as nat) == gcd_spec(a as nat, b as nat),
        decreases n,
    {
        let t = m % n;
        m = n;
        n = t;
    }
    m
}

/// The gcd is zero only for two zeros, and is at most any positive argument.
pub proof fn lemma_gcd_bounds(a: nat, b: nat)
    ensures
        (gcd_spec(a, b) == 0) == (a == 0 && b == 0),
        a > 0 ==> gcd_spec(a, b) <= a,
        b > 0 ==> gcd_spec(a, b) <= b,
    decreases b,
{
    if b > 0 {
        lemma_gcd_bounds(b, a % b);
        lemma_gcd_divides(a, b);
        let g = gcd_spec(a, b);
        if a > 0 {
            lemma_fundamental_div_mod(a as int, g as int);
            assert(a == g * (a / g));
            assert(a / g >= 1) by (nonlinear_arith)
                requires
                    a == g * (a / g),
                    a > 0,
                    g > 0,
            ;
            assert(g <= a) by (nonlinear_arith)
                requires
                    a == g * (a / g),
                    a / g >= 1,
                    g > 0,
            ;
        }
        lemma_fundamental_div_mod(b as int, g as int);
        assert(b / g >= 1) by (nonlinear_arith)
            requires
                b == g * (b / g),
                b > 0,
                g > 0,
        ;
        assert(g <= b) by (nonlinear_arith)
            requires
                b == g * (b / g),
                b / g >= 1,
                g > 0,
        ;
    }
}

/// A positive gcd divides both arguments.
pub proof fn lemma_gcd_divides(a: nat, b: nat)
    ensures
        gcd_spec(a, b) > 0 ==> a % gcd_spec(a, b) == 0 && b % gcd_spec(a, b) == 0,
    decreases b,
{
    if b == 0 {
        if a > 0 {
            lemma_mod_multiples_basic(1, a as int);
        }
    } else {
        let r = a % b;
        let g = gcd_spec(b, r);
        lemma_gcd_divides(b, r);
        if g > 0 {
            lemma_fundamental_div_mod(a as int, b as int);
            lemma_fundamental_div_mod(b as int, g as int);
            lemma_fundamental_div_mod(r as int, g as int);
            let q = a / b;
            let mb = b / g;
            let mr = r / g;
            assert(a == (q * mb + mr) * g) by (nonlinear_arith)
                requires
                    a == b * q + r,
                    b == g * mb,
                    r == g * mr,
            ;
            assert(q * mb + mr >= 0) by (nonlinear_arith)
                requires
                    q >= 0,
                    mb >= 0,
                    mr >= 0,
            ;
            lemma_mod_multiples_basic((q * mb + mr) as int, g as int);
        }
    }
}

/// Scaling both arguments scales the gcd.
pub proof fn lemma_gcd_scale(k: nat, a: nat, b: nat)
    ensures
        gcd_spec(k * a, k * b) == k * gcd_spec(a, b),
    decreases b,
{
    if k == 0 {
        assert(k * a == 0 && k * b == 0);
        assert(k * gcd_spec(a, b) == 0);
    } else if b == 0 {
        assert(k * b == 0);
    } else {
        let r = a % b;
        lemma_fundamental_div_mod(a as int, b as int);
        let q = a / b;
        assert(k * a == q * (k * b) + k * r) by (nonlinear_arith)
            requires
                a == b * q + r,
        ;
        assert(k * r < k * b) by (nonlinear_arith)
            requires
                r < b,
                k > 0,
        ;
        assert(k * b > 0) by (nonlinear_arith)
            requires
                b > 0,
                k > 0,
        ;
        assert(k * r >= 0) by (nonlinear_arith)
            requires
                r >= 0,
                k > 0,
        ;
        lemma_fundamental_div_mod_converse(
            (k * a) as int,
            (k * b) as int,
            q as int,
            (k * r) as int,
        );
        assert((k * a) % (k * b) == k * r);
        lemma_gcd_scale(k, b, r);
    }
}

/// A positive element makes the gcd of the sequence positive.
pub proof fn lemma_gcd_all_positive(s: Seq<u32>, i: int)
    requires
        0 <= i < s.len(),
        s[i] > 0,
    ensures
        gcd_all(s) > 0,
    decreases s.len(),
{
    lemma_gcd_bounds(gcd_all(s.drop_last()), s.last() as nat);
    if i < s.len() - 1 {
        lemma_gcd_all_positive(s.drop_last(), i);
    }
}

/// A positive gcd of a sequence divides every element.
pub proof fn lemma_gcd_all_divides(s: Seq<u32>, i: int)
    requires
        0 <= i < s.len(),
        gcd_all(s) > 0,
    ensures
        s[i] as nat % gcd_all(s) == 0,
    decreases s.len(),
{
    let g0 = gcd_all(s.drop_last());
    let g = gcd_all(s);
    lemma_gcd_divides(g0, s.last() as nat);
    if i < s.len() - 1 {
        if g0 == 0 {
            lemma_gcd_all_zero(s.drop_last(), i);
            assert(s[i] == 0);
        } else {
            lemma_gcd_all_divides(s.drop_last(), i);
            // g divides g0, which divides s[i]
            lemma_fundamental_div_mod(g0 as int, g as int);
            lemma_fundamental_div_mod(s[i] as int, g0 as int);
            let m1 = g0 / g;
            let m2 = s[i] as nat / g0;
            assert(s[i] == (m1 * m2) * g) by (nonlinear_arith)
                requires
                    g0 == g * m1,
                    s[i] == g0 * m2,
            ;
            assert(m1 * m2 >= 0) by (nonlinear_arith)
                requires
                    m1 >= 0,
                    m2 >= 0,
            ;
            lemma_mod_multiples_basic((m1 * m2) as int, g as int);
        }
    }
}

/// A zero gcd means every element is zero.
pub proof fn lemma_gcd_all_zero(s: Seq<u32>, i: int)
    requires
        0 <= i < s.len(),
        gcd_all(s) == 0,
    ensures
        s[i] == 0,
{
    if s[i] > 0 {
        lemma_gcd_all_positive(s, i);
    }
}

/// Scaling every element scales the gcd of the sequence.
pub proof fn lemma_gcd_all_scale(s: Seq<u32>, t: Seq<u32>, k: nat)
    requires
        s.len() == t.len(),
        forall|i: int| 0 <= i < s.len() ==> #[trigger] s[i] == k * t[i],
    ensures
        gcd_all(s) == k * gcd_all(t),
    decreases s.len(),
{
    if s.len() == 0 {
        assert(k * 0 == 0);
    } else {
        lemma_gcd_all_scale(s.drop_last(), t.drop_last(), k);
        assert(s.last() == k * t.last());
        lemma_gcd_scale(k, gcd_all(t.drop_last()), t.last() as nat);
    }
}

} // verus!
