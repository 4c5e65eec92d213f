//! Greatest common divisors of natural numbers and of collections of them.

use vstd::arithmetic::div_mod::{
    lemma_add_mod_noop, lemma_fundamental_div_mod, lemma_mod_is_zero, lemma_mod_self_0,
    lemma_mul_mod_noop_left, lemma_small_mod, lemma_sub_mod_noop,
};
use vstd::prelude::*;

verus! {

/// `n` is a multiple of `d`. Zero divides zero and nothing else.
pub open spec fn divides(d: nat, n: nat) -> bool {
    if d == 0 {
        n == 0
    } else {
        n % d == 0
    }
}

/// `g` is the greatest common divisor of `a` and `b`: it divides both, and
/// whatever divides both divides it.
pub open spec fn is_gcd(g: nat, a: nat, b: nat) -> bool {
    &&& divides(g, a)
    &&& divides(g, b)
    &&& forall|d: nat| divides(d, a) && divides(d, b) ==> #[trigger] divides(d, g)
}

/// The greatest common divisor of two numbers, by Euclid's rule:
/// `gcd(a, 0) = a`, and `gcd(a, b) = gcd(b, a mod b)` otherwise.
pub open spec fn gcd_of_pair(a: nat, b: nat) -> nat
    decreases b,
{
    if b == 0 {
        a
    } else {
        gcd_of_pair(b, a % b)
    }
}

/// `d` divides every element of `values`.
pub open spec fn divides_all(d: nat, values: Seq<u64>) -> bool {
    forall|i: int| 0 <= i < values.len() ==> divides(d, #[trigger] values[i] as nat)
}

/// `g` is the greatest common divisor of `values`: it divides each of them,
/// and whatever divides each of them divides it.
pub open spec fn is_gcd_of_all(g: nat, values: Seq<u64>) -> bool {
    &&& divides_all(g, values)
    &&& forall|d: nat| #[trigger] divides_all(d, values) ==> divides(d, g)
}

/// The greatest common divisor of a collection, reduced pair by pair from
/// the left. The empty collection reduces to 0, which every number divides.
pub open spec fn gcd_of(values: Seq<u64>) -> nat
    decreases values.len(),
{
    if values.len() == 0 {
        0
    } else {
        gcd_of_pair(gcd_of(values.drop_last()), values.last() as nat)
    }
}

/// Divisibility is transitive.
pub proof fn lemma_divides_transitive(x: nat, y: nat, z: nat)
    requires
        divides(x, y),
        divides(y, z),
    ensures
        divides(x, z),
{
    if x > 0 && y > 0 {
        let k = z as int / y as int;
        lemma_fundamental_div_mod(z as int, y as int);
        lemma_mul_mod_noop_left(y as int, k, x as int);
        lemma_small_mod(0, x);
        assert(0 * k == 0);
    } else if x > 0 {
        lemma_small_mod(0, x);
    }
}

/// Two numbers that divide each other are equal.
pub proof fn lemma_divides_antisymmetric(x: nat, y: nat)
    requires
        divides(x, y),
        divides(y, x),
    ensures
        x == y,
{
    if x > 0 && y > 0 {
        lemma_mod_is_zero(y, x);
        lemma_mod_is_zero(x, y);
    }
}

/// A common divisor of `a` and `b` divides the remainder of `a` by `b`.
proof fn lemma_divides_remainder(d: nat, a: nat, b: nat)
    requires
        b > 0,
        divides(d, a),
        divides(d, b),
    ensures
        divides(d, a % b),
{
    let q = a as int / b as int;
    lemma_fundamental_div_mod(a as int, b as int);
    lemma_mul_mod_noop_left(b as int, q, d as int);
    lemma_sub_mod_noop(a as int, b as int * q, d as int);
    lemma_small_mod(0, d);
    assert(0 * q == 0);
    assert(a as int - b as int * q == (a % b) as int);
}

/// A common divisor of `b` and of the remainder of `a` by `b` divides `a`.
proof fn lemma_divides_dividend(d: nat, a: nat, b: nat)
    requires
        b > 0,
        divides(d, b),
        divides(d, a % b),
    ensures
        divides(d, a),
{
    let q = a as int / b as int;
    lemma_fundamental_div_mod(a as int, b as int);
    lemma_mul_mod_noop_left(b as int, q, d as int);
    lemma_add_mod_noop(b as int * q, (a % b) as int, d as int);
    lemma_small_mod(0, d);
    assert(0 * q == 0);
}

/// Euclid's rule computes the greatest common divisor.
pub proof fn lemma_gcd_of_pair_is_gcd(a: nat, b: nat)
    ensures
        is_gcd(gcd_of_pair(a, b), a, b),
    decreases b,
{
    let g = gcd_of_pair(a, b);
    if b == 0 {
        if a > 0 {
            lemma_mod_self_0(a as int);
            lemma_small_mod(0, a);
        }
    } else {
        lemma_gcd_of_pair_is_gcd(b, a % b);
        lemma_divides_dividend(g, a, b);
        assert forall|d: nat| divides(d, a) && divides(d, b) implies #[trigger] divides(d, g) by {
            lemma_divides_remainder(d, a, b);
        }
    }
}

/// Two numbers have one greatest common divisor.
pub proof fn lemma_gcd_unique(g: nat, h: nat, a: nat, b: nat)
    requires
        is_gcd(g, a, b),
        is_gcd(h, a, b),
    ensures
        g == h,
{
    assert(divides(g, h));
    assert(divides(h, g));
    lemma_divides_antisymmetric(g, h);
}

/// The reduction of a pair does not depend on the order of the two.
pub proof fn gcd_commutative(a: nat, b: nat)
    ensures
        gcd_of_pair(a, b) == gcd_of_pair(b, a),
{
    lemma_gcd_of_pair_is_gcd(a, b);
    lemma_gcd_of_pair_is_gcd(b, a);
    let g = gcd_of_pair(a, b);
    let h = gcd_of_pair(b, a);
    assert(is_gcd(h, a, b)) by {
        assert forall|d: nat| divides(d, a) && divides(d, b) implies #[trigger] divides(d, h) by {}
    }
    lemma_gcd_unique(g, h, a, b);
}

/// The reduction of three numbers does not depend on how they are grouped.
pub proof fn gcd_associative(a: nat, b: nat, c: nat)
    ensures
        gcd_of_pair(gcd_of_pair(a, b), c) == gcd_of_pair(a, gcd_of_pair(b, c)),
{
    let ab = gcd_of_pair(a, b);
    let bc = gcd_of_pair(b, c);
    let left = gcd_of_pair(ab, c);
    let right = gcd_of_pair(a, bc);
    lemma_gcd_of_pair_is_gcd(a, b);
    lemma_gcd_of_pair_is_gcd(b, c);
    lemma_gcd_of_pair_is_gcd(ab, c);
    lemma_gcd_of_pair_is_gcd(a, bc);
    // Each side divides a, b and c, hence the other side.
    lemma_divides_transitive(left, ab, a);
    lemma_divides_transitive(left, ab, b);
    assert(divides(left, bc));
    assert(divides(left, right));
    lemma_divides_transitive(right, bc, b);
    lemma_divides_transitive(right, bc, c);
    assert(divides(right, ab));
    assert(divides(right, left));
    lemma_divides_antisymmetric(left, right);
}

/// The pairwise reduction of a collection is its greatest common divisor.
pub proof fn lemma_gcd_of_is_gcd(values: Seq<u64>)
    ensures
        is_gcd_of_all(gcd_of(values), values),
    decreases values.len(),
{
    let g = gcd_of(values);
    if values.len() == 0 {
        assert forall|d: nat| #[trigger] divides_all(d, values) implies divides(d, g) by {
            if d > 0 {
                lemma_small_mod(0, d);
            }
        }
    } else {
        let init = values.drop_last();
        let last = values.last() as nat;
        let h = gcd_of(init);
        lemma_gcd_of_is_gcd(init);
        lemma_gcd_of_pair_is_gcd(h, last);
        assert forall|i: int| 0 <= i < values.len() implies divides(
            g,
            #[trigger] values[i] as nat,
        ) by {
            if i < init.len() {
                assert(divides(h, init[i] as nat));
                lemma_divides_transitive(g, h, values[i] as nat);
            }
        }
        assert forall|d: nat| #[trigger] divides_all(d, values) implies divides(d, g) by {
            assert forall|i: int| 0 <= i < init.len() implies divides(
                d,
                #[trigger] init[i] as nat,
            ) by {
                assert(divides(d, values[i] as nat));
            }
            assert(divides_all(d, init));
            assert(divides(d, h));
            assert(divides(d, values[values.len() - 1] as nat));
            assert(divides(d, g));
        }
    }
}

/// A collection has one greatest common divisor.
pub proof fn lemma_gcd_of_all_unique(g: nat, h: nat, values: Seq<u64>)
    requires
        is_gcd_of_all(g, values),
        is_gcd_of_all(h, values),
    ensures
        g == h,
{
    assert(divides_all(g, values));
    assert(divides_all(h, values));
    lemma_divides_antisymmetric(g, h);
}

/// Reordering a collection never changes its reduction: two collections
/// that hold the same values equally often reduce to the same number.
pub proof fn gcd_of_order_independent(a: Seq<u64>, b: Seq<u64>)
    requires
        a.to_multiset() == b.to_multiset(),
    ensures
        gcd_of(a) == gcd_of(b),
{
    a.to_multiset_ensures();
    b.to_multiset_ensures();
    lemma_gcd_of_is_gcd(a);
    lemma_gcd_of_is_gcd(b);
    let g = gcd_of(a);
    let h = gcd_of(b);
    assert forall|d: nat| divides_all(d, a) <==> divides_all(d, b) by {
        if divides_all(d, a) {
            assert forall|j: int| 0 <= j < b.len() implies divides(d, #[trigger] b[j] as nat) by {
                assert(b.contains(b[j]));
                assert(b.to_multiset().count(b[j]) > 0);
                assert(a.to_multiset().count(b[j]) > 0);
                assert(a.contains(b[j]));
                let i = choose|i: int| 0 <= i < a.len() && a[i] == b[j];
                assert(divides(d, a[i] as nat));
            }
        }
        if divides_all(d, b) {
            assert forall|i: int| 0 <= i < a.len() implies divides(d, #[trigger] a[i] as nat) by {
                assert(a.contains(a[i]));
                assert(a.to_multiset().count(a[i]) > 0);
                assert(b.to_multiset().count(a[i]) > 0);
                assert(b.contains(a[i]));
                let j = choose|j: int| 0 <= j < b.len() && b[j] == a[i];
                assert(divides(d, b[j] as nat));
            }
        }
    }
    assert(is_gcd_of_all(h, a)) by {
        assert(divides_all(h, b));
        assert forall|d: nat| #[trigger] divides_all(d, a) implies divides(d, h) by {
            assert(divides_all(d, b));
        }
    }
    lemma_gcd_of_all_unique(g, h, a);
}

/// The greatest common divisor of two numbers, by Euclid's algorithm.
pub fn gcd_inner(a: u64, b: u64) -> (g: u64)
    ensures
        g == gcd_of_pair(a as nat, b as nat),
        is_gcd(g as nat, a as nat, b as nat),
{
    let mut x: u64 = a;
    let mut y: u64 = b;
    while y != 0
        invariant
            gcd_of_pair(x as nat, y as nat) == gcd_of_pair(a as nat, b as nat),
        decreases y,
    {
        let r: u64 = x % y;
        x = y;
        y = r;
    }
    proof {
        lemma_gcd_of_pair_is_gcd(a as nat, b as nat);
    }
    x
}

/// The greatest common divisor of a list of numbers, reduced from the first
/// value on. The empty list reduces to 0.
pub fn gcd(values: Vec<u64>) -> (g: u64)
    ensures
        g == gcd_of(values@),
        is_gcd_of_all(g as nat, values@),
{
    let mut g: u64 = 0;
    let mut i: usize = 0;
    while i < values.len()
        invariant
            i <= values.len(),
            g == gcd_of(values@.take(i as int)),
        decreases values.len() - i,
    {
        proof {
            assert(values@.take(i + 1).drop_last() == values@.take(i as int));
        }
        g = gcd_inner(g, values[i]);
        i += 1;
    }
    proof {
        assert(values@.take(i as int) == values@);
        lemma_gcd_of_is_gcd(values@);
    }
    g
}

} // verus!
