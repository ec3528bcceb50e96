//! Fermat's little theorem for the field modulus, culminating in the law
//! that a nonzero residue times its computed inverse is the multiplicative
//! identity. The argument is the classical one: the modulus is prime (shown
//! by bounded trial division), so every nonzero residue has some inverse by
//! Bezout's identity; multiplication by a fixed residue therefore permutes
//! the nonzero residues, and comparing the product of all of them before and
//! after the permutation leaves exactly the residue's power behind.

use vstd::prelude::*;
use vstd::arithmetic::div_mod::{
    lemma_fundamental_div_mod, lemma_mod_bound, lemma_mod_multiples_basic,
    lemma_mod_multiples_vanish, lemma_mul_mod_noop_general, lemma_small_mod,
};
use vstd::arithmetic::power::pow;
use vstd::set_lib::{lemma_int_range, set_int_range};
use vstd::set::fold::{is_fun_commutative, lemma_fold_empty, lemma_fold_insert};
use crate::crypto::field::{f_inv, f_mul, f_pow, in_field, FIELD_PRIME};

verus! {

/// The modulus is prime: no integer strictly between one and the modulus
/// divides it. Trial division reaches the square root; a larger divisor
/// would pair with a smaller cofactor already excluded.
/// No integer in `[2, 46341)` divides the modulus: below its square root,
/// trial division is a single bit-level fact.
#[verifier::rlimit(100)]
proof fn lemma_no_factor_below_root(d: u64)
    requires
        2 <= d < 46_341,
    ensures
        2_147_483_647int % (d as int) != 0,
{
    assert(2_147_483_647u64 % d != 0) by (bit_vector)
        requires
            2 <= d < 46_341;
}

#[verifier::rlimit(100)]
proof fn lemma_modulus_prime(d: int)
    requires
        2 <= d < FIELD_PRIME,
    ensures
        FIELD_PRIME as int % d != 0,
{
    let p = FIELD_PRIME as int;
    if d < 46_341 {
        lemma_no_factor_below_root(d as u64);
    } else if p % d == 0 {
        let c = p / d;
        lemma_fundamental_div_mod(p, d);
        assert(p == d * c);
        assert(2 <= c < 46_341) by (nonlinear_arith)
            requires
                p == d * c,
                46_341 <= d,
                d < p,
                p == 2_147_483_647;
        lemma_mod_multiples_basic(d, c);
        assert(p % c == 0);
        lemma_no_factor_below_root(c as u64);
        assert(false);
    }
}

/// Whenever `g` divides `u` and `v`, it divides `q * u + v`.
proof fn lemma_divides_combination(g: int, u: int, v: int, q: int)
    requires
        g > 0,
        u % g == 0,
        v % g == 0,
    ensures
        (q * u + v) % g == 0,
{
    lemma_fundamental_div_mod(u, g);
    lemma_fundamental_div_mod(v, g);
    assert(q * u + v == (q * (u / g) + v / g) * g) by (nonlinear_arith)
        requires
            u == g * (u / g),
            v == g * (v / g);
    lemma_mod_multiples_basic(q * (u / g) + v / g, g);
}

/// Bezout's identity: two positive integers have a positive common divisor
/// expressible as an integer combination of them.
proof fn lemma_bezout(a: int, b: int)
    requires
        a > 0,
        b > 0,
    ensures
        exists|g: int, x: int, y: int|
            #![trigger a * x, b * y, a % g]
            g == a * x + b * y && g > 0 && a % g == 0 && b % g == 0,
    decreases b,
{
    lemma_mod_bound(a, b);
    if a % b == 0 {
        lemma_mod_multiples_basic(1, b);
        assert(b == a * 0 + b * 1 && b > 0 && a % b == 0 && b % b == 0);
    } else {
        lemma_bezout(b, a % b);
        let (g, x, y) = choose|g: int, x: int, y: int|
            #![trigger b * x, (a % b) * y, b % g]
            g == b * x + (a % b) * y && g > 0 && b % g == 0 && (a % b) % g == 0;
        lemma_fundamental_div_mod(a, b);
        let q = a / b;
        let r = a % b;
        assert(a == b * q + r);
        assert(g == a * y + b * (x - q * y)) by (nonlinear_arith)
            requires
                g == b * x + r * y,
                a == b * q + r;
        lemma_divides_combination(g, b, r, q);
        assert(a % g == 0) by {
            assert(q * b + r == a) by (nonlinear_arith)
                requires
                    a == b * q + r;
        }
        assert(g == a * y + b * (x - q * y) && g > 0 && a % g == 0 && b % g == 0);
    }
}

/// Every nonzero residue has an inverse: the modulus is prime, so Bezout's
/// common divisor is one, and the combination witnesses the inverse.
proof fn lemma_inverse_exists(a: int)
    requires
        1 <= a < FIELD_PRIME,
    ensures
        exists|x: int| in_field(x) && #[trigger] f_mul(a, x) == 1,
{
    let p = FIELD_PRIME as int;
    lemma_bezout(a, p);
    let (g, x, y) = choose|g: int, x: int, y: int|
        #![trigger a * x, p * y, a % g]
        g == a * x + p * y && g > 0 && a % g == 0 && p % g == 0;
    if g > a {
        lemma_small_mod(a as nat, g as nat);
        assert(false);
    }
    if g >= 2 {
        lemma_modulus_prime(g);
        assert(false);
    }
    let x0 = x % p;
    lemma_mod_bound(x, p);
    lemma_mul_mod_noop_general(a, x, p);
    assert(a * x == p * (-y) + 1);
    lemma_mod_multiples_vanish(-y, 1, p);
    lemma_small_mod(1nat, FIELD_PRIME as nat);
    assert(f_mul(a, x0) == 1);
}

/// Field multiplication as a fold operation.
spec fn mulf() -> spec_fn(int, int) -> int {
    |b: int, x: int| f_mul(b, x)
}

/// Field multiplication through a fixed factor, as a fold operation.
spec fn mul_through(a: int) -> spec_fn(int, int) -> int {
    |b: int, i: int| f_mul(b, f_mul(a, i))
}

/// Associativity of field multiplication over arbitrary integers.
proof fn lemma_f_mul_total_assoc(x: int, y: int, z: int)
    ensures
        f_mul(f_mul(x, y), z) == f_mul(x, f_mul(y, z)),
{
    let p = FIELD_PRIME as int;
    lemma_mul_mod_noop_general(x * y, z, p);
    assert((x * y) * z == x * (y * z)) by (nonlinear_arith);
    lemma_mul_mod_noop_general(x, y * z, p);
}

/// Two successive factors of a product can be taken in either order.
proof fn lemma_f_mul_swap(b: int, x: int, y: int)
    ensures
        f_mul(f_mul(b, x), y) == f_mul(f_mul(b, y), x),
{
    lemma_f_mul_total_assoc(b, x, y);
    lemma_f_mul_total_assoc(b, y, x);
    assert(f_mul(x, y) == f_mul(y, x));
}

/// The middle factors of a doubled product can be exchanged.
proof fn lemma_f_mul_exchange(w: int, x: int, y: int, z: int)
    ensures
        f_mul(f_mul(w, x), f_mul(y, z)) == f_mul(f_mul(w, y), f_mul(x, z)),
{
    lemma_f_mul_total_assoc(w, x, f_mul(y, z));
    lemma_f_mul_total_assoc(x, y, z);
    assert(f_mul(x, y) == f_mul(y, x));
    lemma_f_mul_total_assoc(y, x, z);
    lemma_f_mul_total_assoc(w, y, f_mul(x, z));
}

/// The fold operations are commutative in the sense set folding asks for.
proof fn lemma_fold_ops_commutative(a: int)
    ensures
        is_fun_commutative(mulf()),
        is_fun_commutative(mul_through(a)),
{
    assert forall|a1: int, a2: int, b: int| #[trigger] mulf()(mulf()(b, a2), a1) == mulf()(
        mulf()(b, a1),
        a2,
    ) by {
        lemma_f_mul_swap(b, a2, a1);
    }
    assert forall|a1: int, a2: int, b: int| #[trigger] mul_through(a)(mul_through(a)(b, a2), a1)
        == mul_through(a)(mul_through(a)(b, a1), a2) by {
        lemma_f_mul_swap(b, f_mul(a, a2), f_mul(a, a1));
    }
}

/// A field-multiplication fold lands in the field.
proof fn lemma_fold_in_field(s: Set<int>)
    requires
        s.finite(),
    ensures
        in_field(s.fold(1, mulf())),
    decreases s.len(),
{
    broadcast use vstd::set::group_set_axioms;

    lemma_fold_ops_commutative(0);
    if s.is_empty() {
        assert(s =~= Set::<int>::empty());
        lemma_fold_empty::<int, int>(1, mulf());
    } else {
        let i0 = s.choose();
        let s1 = s.remove(i0);
        lemma_fold_in_field(s1);
        assert(s1.insert(i0) =~= s);
        lemma_fold_insert(s1, 1, mulf(), i0);
        lemma_mod_bound(s1.fold(1, mulf()) * i0, FIELD_PRIME as int);
    }
}

/// Folding multiplication over the image of a bijection equals folding the
/// composed operation over the source.
proof fn lemma_fold_bijection(a: int, s: Set<int>, t: Set<int>)
    requires
        s.finite(),
        t.finite(),
        forall|i: int| s.contains(i) ==> t.contains(#[trigger] f_mul(a, i)),
        forall|i: int, j: int|
            s.contains(i) && s.contains(j) && #[trigger] f_mul(a, i) == #[trigger] f_mul(a, j)
                ==> i == j,
        forall|j: int|
            #[trigger] t.contains(j) ==> exists|i: int|
                #[trigger] s.contains(i) && f_mul(a, i) == j,
    ensures
        t.fold(1, mulf()) == s.fold(1, mul_through(a)),
    decreases s.len(),
{
    broadcast use vstd::set::group_set_axioms;

    lemma_fold_ops_commutative(a);
    if s.is_empty() {
        assert forall|j: int| !t.contains(j) by {
            if t.contains(j) {
                let i = choose|i: int| #[trigger] s.contains(i) && f_mul(a, i) == j;
                assert(false);
            }
        }
        assert(t =~= Set::<int>::empty());
        assert(s =~= Set::<int>::empty());
        lemma_fold_empty::<int, int>(1, mulf());
        lemma_fold_empty::<int, int>(1, mul_through(a));
    } else {
        let i0 = s.choose();
        assert(s.contains(i0));
        let j0 = f_mul(a, i0);
        assert(t.contains(j0));
        let s1 = s.remove(i0);
        let t1 = t.remove(j0);
        assert forall|i: int| s1.contains(i) implies t1.contains(#[trigger] f_mul(a, i)) by {
            assert(s.contains(i));
            if f_mul(a, i) == j0 {
                assert(i == i0);
                assert(false);
            }
        }
        assert forall|j: int| #[trigger] t1.contains(j) implies exists|i: int|
            #[trigger] s1.contains(i) && f_mul(a, i) == j by {
            assert(t.contains(j));
            let i = choose|i: int| #[trigger] s.contains(i) && f_mul(a, i) == j;
            if i == i0 {
                assert(j == j0);
                assert(false);
            }
            assert(s1.contains(i) && f_mul(a, i) == j);
        }
        lemma_fold_bijection(a, s1, t1);
        assert(s1.insert(i0) =~= s);
        assert(t1.insert(j0) =~= t);
        lemma_fold_insert(s1, 1, mul_through(a), i0);
        lemma_fold_insert(t1, 1, mulf(), j0);
    }
}

/// Folding multiplication-through-a-factor extracts one power of the factor
/// per element.
proof fn lemma_fold_extract(a: int, s: Set<int>)
    requires
        s.finite(),
    ensures
        s.fold(1, mul_through(a)) == f_mul(f_pow(a, s.len()), s.fold(1, mulf())),
    decreases s.len(),
{
    broadcast use vstd::set::group_set_axioms;

    let p = FIELD_PRIME as int;
    lemma_fold_ops_commutative(a);
    reveal(pow);
    if s.is_empty() {
        assert(s =~= Set::<int>::empty());
        lemma_fold_empty::<int, int>(1, mulf());
        lemma_fold_empty::<int, int>(1, mul_through(a));
        assert(f_pow(a, 0) == 1) by {
            lemma_small_mod(1nat, FIELD_PRIME as nat);
        }
        assert(f_mul(1, 1) == 1) by {
            lemma_small_mod(1nat, FIELD_PRIME as nat);
        }
    } else {
        let i0 = s.choose();
        let s1 = s.remove(i0);
        let n1 = s1.len();
        lemma_fold_extract(a, s1);
        assert(s1.insert(i0) =~= s);
        lemma_fold_insert(s1, 1, mul_through(a), i0);
        lemma_fold_insert(s1, 1, mulf(), i0);
        let f1 = s1.fold(1, mulf());
        lemma_f_mul_exchange(f_pow(a, n1), f1, a, i0);
        assert(f_mul(f_pow(a, n1), a) == f_pow(a, (n1 + 1) as nat)) by {
            lemma_mul_mod_noop_general(pow(a, n1), a, p);
            assert(pow(a, n1) * a == a * pow(a, n1)) by (nonlinear_arith);
            assert(pow(a, (n1 + 1) as nat) == a * pow(a, n1));
        }
        assert(s.len() == n1 + 1);
    }
}

/// A fold of residues that each have an inverse has an inverse itself.
proof fn lemma_fold_invertible(s: Set<int>)
    requires
        s.finite(),
        forall|i: int| #[trigger] s.contains(i) ==> 1 <= i < FIELD_PRIME,
    ensures
        exists|u: int| in_field(u) && #[trigger] f_mul(s.fold(1, mulf()), u) == 1,
    decreases s.len(),
{
    broadcast use vstd::set::group_set_axioms;

    lemma_fold_ops_commutative(0);
    lemma_small_mod(1nat, FIELD_PRIME as nat);
    if s.is_empty() {
        assert(s =~= Set::<int>::empty());
        lemma_fold_empty::<int, int>(1, mulf());
        assert(f_mul(1, 1) == 1);
    } else {
        let i0 = s.choose();
        assert(s.contains(i0));
        let s1 = s.remove(i0);
        lemma_fold_invertible(s1);
        let f1 = s1.fold(1, mulf());
        let u1 = choose|u: int| in_field(u) && #[trigger] f_mul(f1, u) == 1;
        lemma_inverse_exists(i0);
        let x0 = choose|x: int| in_field(x) && #[trigger] f_mul(i0, x) == 1;
        assert(s1.insert(i0) =~= s);
        lemma_fold_insert(s1, 1, mulf(), i0);
        let u = f_mul(u1, x0);
        lemma_f_mul_exchange(f1, i0, u1, x0);
        assert(f_mul(f_mul(f1, u1), f_mul(i0, x0)) == 1) by {
            assert(f_mul(1, 1) == 1);
        }
        lemma_mod_bound(u1 * x0, FIELD_PRIME as int);
        assert(in_field(u) && f_mul(s.fold(1, mulf()), u) == 1);
    }
}

/// Fermat's little theorem in the form the field layer states it: a nonzero
/// residue times its computed inverse is the multiplicative identity.
pub proof fn lemma_mul_inverse(a: int)
    requires
        in_field(a),
        a != 0,
    ensures
        f_mul(a, f_inv(a)) == 1,
{
    broadcast use vstd::set::group_set_axioms;

    let p = FIELD_PRIME as int;
    let s = set_int_range(1, p);
    lemma_int_range(1, p);
    lemma_inverse_exists(a);
    let x = choose|x: int| in_field(x) && #[trigger] f_mul(a, x) == 1;
    lemma_small_mod(1nat, FIELD_PRIME as nat);

    // multiplication by `a` permutes the nonzero residues
    assert forall|i: int| s.contains(i) implies s.contains(#[trigger] f_mul(a, i)) by {
        lemma_mod_bound(a * i, p);
        lemma_f_mul_total_assoc(x, a, i);
        assert(f_mul(x, a) == f_mul(a, x));
        lemma_small_mod(i as nat, FIELD_PRIME as nat);
        assert(f_mul(f_mul(x, a), i) == i);
        if f_mul(a, i) == 0 {
            assert(f_mul(x, 0) == 0) by {
                assert(x * 0 == 0) by (nonlinear_arith);
                lemma_small_mod(0nat, FIELD_PRIME as nat);
            }
            assert(false);
        }
    }
    assert forall|i: int, j: int|
        s.contains(i) && s.contains(j) && #[trigger] f_mul(a, i) == #[trigger] f_mul(a, j)
            implies i == j by {
        lemma_f_mul_total_assoc(x, a, i);
        lemma_f_mul_total_assoc(x, a, j);
        assert(f_mul(x, a) == f_mul(a, x));
        lemma_small_mod(i as nat, FIELD_PRIME as nat);
        lemma_small_mod(j as nat, FIELD_PRIME as nat);
        assert(f_mul(f_mul(x, a), i) == i);
        assert(f_mul(f_mul(x, a), j) == j);
    }
    assert forall|j: int| #[trigger] s.contains(j) implies exists|i: int|
        #[trigger] s.contains(i) && f_mul(a, i) == j by {
        let i = f_mul(x, j);
        lemma_mod_bound(x * j, p);
        lemma_f_mul_total_assoc(a, x, j);
        lemma_small_mod(j as nat, FIELD_PRIME as nat);
        assert(f_mul(f_mul(a, x), j) == j);
        assert(f_mul(a, i) == j);
        if i == 0 {
            assert(f_mul(a, 0) == 0);
            assert(false);
        }
        assert(s.contains(i) && f_mul(a, i) == j);
    }

    lemma_fold_bijection(a, s, s);
    lemma_fold_extract(a, s);
    let ff = s.fold(1, mulf());
    assert(ff == f_mul(f_pow(a, (p - 1) as nat), ff));

    // cancel the shared product using its inverse
    lemma_fold_invertible(s);
    let u = choose|u: int| in_field(u) && #[trigger] f_mul(ff, u) == 1;
    lemma_f_mul_total_assoc(f_pow(a, (p - 1) as nat), ff, u);
    lemma_mod_bound(pow(a, (p - 1) as nat), p);
    lemma_small_mod(f_pow(a, (p - 1) as nat) as nat, FIELD_PRIME as nat);
    assert(f_mul(f_pow(a, (p - 1) as nat), 1) == f_pow(a, (p - 1) as nat));
    assert(f_pow(a, (p - 1) as nat) == 1);

    // one power of the base is exactly the computed inverse times the base
    reveal(pow);
    lemma_mul_mod_noop_general(a, pow(a, (p - 2) as nat), p);
    assert(pow(a, (p - 1) as nat) == a * pow(a, (p - 2) as nat));
    assert(f_mul(a, f_inv(a)) == f_pow(a, (p - 1) as nat));
}

} // verus!
