//! A small library of competitive-programming building blocks: number-theory
//! helpers (greatest common divisor and friends) and a size-augmented
//! red-black tree.

use vstd::prelude::*;

pub mod procon;

verus! {

/// `d` divides `n`: some multiple of `d` equals `n`.
pub open spec fn divides(d: nat, n: nat) -> bool {
    exists|k: nat| n == #[trigger] (d * k)
}

/// `g` is the greatest common divisor of `a` and `b`: it divides both, and
/// every common divisor of `a` and `b` divides it. (This characterisation
/// also covers `a == b == 0`, whose greatest common divisor is 0.)
pub open spec fn is_gcd(g: nat, a: nat, b: nat) -> bool {
    &&& divides(g, a)
    &&& divides(g, b)
    &&& forall|d: nat| divides(d, a) && divides(d, b) ==> divides(d, g)
}

/// The greatest common divisor, as Euclid's recurrence.
pub open spec fn gcd_spec(a: nat, b: nat) -> nat
    decreases b,
{
    if b == 0 {
        a
    } else {
        gcd_spec(b, a % b)
    }
}

proof fn lemma_gcd_base(a: nat)
    ensures
        is_gcd(a, a, 0),
{
    assert(a == a * 1);
    assert(0 == a * 0);
}

proof fn lemma_gcd_step(a: nat, b: nat, g: nat)
    requires
        b > 0,
        is_gcd(g, b, a % b),
    ensures
        is_gcd(g, a, b),
{
    vstd::arithmetic::div_mod::lemma_fundamental_div_mod(a as int, b as int);
    let q: int = a as int / b as int;
    let m: int = a as int % b as int;
    assert(a == b * q + m);
    let k1 = choose|k: nat| b == #[trigger] (g * k);
    let k2 = choose|k: nat| a % b == #[trigger] (g * k);
    assert(m == g * k2);
    assert(a == g * (k1 * q + k2)) by (nonlinear_arith)
        requires
            b == g * k1,
            m == g * k2,
            a == b * q + m,
    ;
    assert(k1 * q + k2 >= 0) by (nonlinear_arith)
        requires
            k1 >= 0,
            k2 >= 0,
            q >= 0,
    ;
    assert(a == g * ((k1 * q + k2) as nat));
    assert(divides(g, a));
    assert forall|d: nat| divides(d, a) && divides(d, b) implies divides(d, g) by {
        let j1 = choose|k: nat| a == #[trigger] (d * k);
        let j2 = choose|k: nat| b == #[trigger] (d * k);
        if d == 0 {
            assert(b == 0);
        } else {
            let t: int = j1 - j2 * q;
            assert(m == d * t) by (nonlinear_arith)
                requires
                    a == d * j1,
                    b == d * j2,
                    a == b * q + m,
                    t == j1 - j2 * q,
            ;
            assert(t >= 0) by (nonlinear_arith)
                requires
                    d * t == m,
                    m >= 0,
                    d > 0,
            ;
            assert(a % b == d * (t as nat));
            assert(divides(d, a % b));
        }
    }
}

/// The greatest common divisor of `a` and `b`, by Euclid's algorithm.
pub fn gcd(a: u64, b: u64) -> (r: u64)
    ensures
        r == gcd_spec(a as nat, b as nat),
        is_gcd(r as nat, a as nat, b as nat),
    decreases b,
{
    if b == 0 {
        proof {
            lemma_gcd_base(a as nat);
        }
        a
    } else {
        let r = gcd(b, a % b);
        proof {
            lemma_gcd_step(a as nat, b as nat, r as nat);
        }
        r
    }
}

/// Divisibility carries over a middle term.
proof fn lemma_divides_trans(d1: nat, d2: nat, n: nat)
    requires
        divides(d1, d2),
        divides(d2, n),
    ensures
        divides(d1, n),
{
    let k1 = choose|k: nat| d2 == #[trigger] (d1 * k);
    let k2 = choose|k: nat| n == #[trigger] (d2 * k);
    assert(n == d1 * (k1 * k2)) by (nonlinear_arith)
        requires
            d2 == d1 * k1,
            n == d2 * k2,
    ;
}

/// The least common multiple of `a` and `b`, as `a / gcd(a, b) * b`. The
/// quotient is exact, and the result is a common multiple of both.
pub fn lcm(a: u64, b: u64) -> (r: u64)
    requires
        a > 0 || b > 0,
        a as nat / gcd_spec(a as nat, b as nat) * b as nat <= u64::MAX,
    ensures
        r == a as nat / gcd_spec(a as nat, b as nat) * b as nat,
        divides(a as nat, r as nat),
        divides(b as nat, r as nat),
{
    let g = gcd(a, b);
    proof {
        let k1 = choose|k: nat| a as nat == #[trigger] ((g as nat) * k);
        let k2 = choose|k: nat| b as nat == #[trigger] ((g as nat) * k);
        if g == 0 {
            assert(a as nat == 0) by (nonlinear_arith)
                requires
                    a as nat == (g as nat) * k1,
                    g as nat == 0,
            ;
            assert(b as nat == 0) by (nonlinear_arith)
                requires
                    b as nat == (g as nat) * k2,
                    g as nat == 0,
            ;
        }
        assert(g > 0);
        vstd::arithmetic::div_mod::lemma_div_by_multiple(k1 as int, g as int);
        assert((k1 * g) as int / g as int == k1);
        assert(a as int / g as int == k1) by (nonlinear_arith)
            requires
                a as nat == (g as nat) * k1,
                (k1 * g) as int / g as int == k1,
        ;
    }
    let q = a / g;
    let r = q * b;
    proof {
        let k1 = choose|k: nat| a as nat == #[trigger] ((g as nat) * k);
        let k2 = choose|k: nat| b as nat == #[trigger] ((g as nat) * k);
        assert(q == k1);
        assert(r as nat == (a as nat) * k2) by (nonlinear_arith)
            requires
                a as nat == (g as nat) * k1,
                b as nat == (g as nat) * k2,
                q as nat == k1,
                r as nat == (q as nat) * (b as nat),
        ;
        assert(divides(a as nat, r as nat));
        assert(r as nat == (b as nat) * (q as nat)) by (nonlinear_arith)
            requires
                r as nat == (q as nat) * (b as nat),
        ;
        assert(divides(b as nat, r as nat));
    }
    r
}

/// The greatest common divisor of all elements of a non-empty list: it
/// divides every element, and every common divisor of all the elements
/// divides it.
pub fn gcd_list(list: &[u64]) -> (r: u64)
    requires
        list@.len() > 0,
    ensures
        forall|i: int| 0 <= i < list@.len() ==> divides(r as nat, #[trigger] (list@[i] as nat)),
        forall|d: nat|
            (forall|i: int| 0 <= i < list@.len() ==> divides(d, #[trigger] (list@[i] as nat)))
                ==> divides(d, r as nat),
{
    let mut acc = list[0];
    let mut idx: usize = 0;
    proof {
        assert(list@[0] as nat == (acc as nat) * 1);
        assert(divides(acc as nat, list@[0] as nat));
    }
    while idx < list.len()
        invariant
            idx <= list@.len(),
            list@.len() > 0,
            divides(acc as nat, list@[0] as nat),
            forall|i: int| 0 <= i < idx ==> divides(acc as nat, #[trigger] (list@[i] as nat)),
            forall|d: nat|
                divides(d, list@[0] as nat) && (forall|i: int|
                    0 <= i < idx ==> divides(d, #[trigger] (list@[i] as nat))) ==> divides(
                    d,
                    acc as nat,
                ),
        decreases list@.len() - idx,
    {
        let x = list[idx];
        let prev = acc;
        acc = gcd(prev, x);
        proof {
            assert(is_gcd(acc as nat, prev as nat, x as nat));
            lemma_divides_trans(acc as nat, prev as nat, list@[0] as nat);
            assert forall|i: int| 0 <= i < idx + 1 implies divides(
                acc as nat,
                #[trigger] (list@[i] as nat),
            ) by {
                if i < idx {
                    lemma_divides_trans(acc as nat, prev as nat, list@[i] as nat);
                }
            }
            assert forall|d: nat|
                divides(d, list@[0] as nat) && (forall|i: int|
                    0 <= i < idx + 1 ==> divides(d, #[trigger] (list@[i] as nat))) implies divides(
                d,
                acc as nat,
            ) by {
                assert(divides(d, list@[idx as int] as nat));
                assert(divides(d, prev as nat));
            }
        }
        idx += 1;
    }
    acc
}

} // verus!
