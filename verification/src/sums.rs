//! Exact complex numbers, and finite sums of them.
use vstd::prelude::*;

verus! {

/// A complex number with real parts.
pub struct Exact {
    /// The real part.
    pub re: real,
    /// The imaginary part.
    pub im: real,
}

impl Exact {
    /// The sum.
    pub open spec fn plus(self, other: Exact) -> Exact {
        Exact { re: self.re + other.re, im: self.im + other.im }
    }

    /// The product.
    #[verifier::opaque]
    pub open spec fn times(self, other: Exact) -> Exact {
        Exact {
            re: self.re * other.re - self.im * other.im,
            im: self.re * other.im + self.im * other.re,
        }
    }
}

/// The number zero.
pub open spec fn exact_zero() -> Exact {
    Exact { re: 0 as real, im: 0 as real }
}

/// The number one.
pub open spec fn exact_one() -> Exact {
    Exact { re: 1 as real, im: 0 as real }
}

/// The powers of a number.
pub open spec fn power(x: Exact, n: nat) -> Exact
    decreases n,
{
    if n == 0 {
        exact_one()
    } else {
        power(x, (n - 1) as nat).times(x)
    }
}

/// The sum of the first `n` members of a sequence.
pub open spec fn sum(f: spec_fn(nat) -> Exact, n: nat) -> Exact
    decreases n,
{
    if n == 0 {
        exact_zero()
    } else {
        sum(f, (n - 1) as nat).plus(f((n - 1) as nat))
    }
}

/// The product of real numbers does not depend on the order of its factors.
pub proof fn lemma_commutes(a: real, b: real)
    ensures
        a * b == b * a,
{
    assert(a * b == b * a) by (nonlinear_arith);
}

/// A product with a sum of real numbers is the sum of the products.
pub proof fn lemma_distributes(a: real, b: real, c: real)
    ensures
        a * (b + c) == a * b + a * c,
{
    assert(a * (b + c) == a * b + a * c) by (nonlinear_arith);
}

/// The product of real numbers does not depend on how its factors are put in brackets.
pub proof fn lemma_associates(a: real, b: real, c: real)
    ensures
        (a * b) * c == a * (b * c),
{
    assert((a * b) * c == a * (b * c)) by (nonlinear_arith);
}

/// A product with a difference of real numbers is the difference of the products.
proof fn lemma_distributes_minus(a: real, b: real, c: real)
    ensures
        a * (b - c) == a * b - a * c,
{
    lemma_distributes(a, b - c, c);
}

/// A product does not depend on the order of its factors.
pub proof fn exact_times_commutes(a: Exact, b: Exact)
    ensures
        a.times(b) == b.times(a),
{
    reveal(Exact::times);
    lemma_commutes(a.re, b.re);
    lemma_commutes(a.im, b.im);
    lemma_commutes(a.re, b.im);
    lemma_commutes(a.im, b.re);
}

/// A product with a sum is the sum of the products.
pub proof fn exact_times_distributes(a: Exact, b: Exact, c: Exact)
    ensures
        a.times(b.plus(c)) == a.times(b).plus(a.times(c)),
        b.plus(c).times(a) == b.times(a).plus(c.times(a)),
{
    reveal(Exact::times);
    lemma_distributes(a.re, b.re, c.re);
    lemma_distributes(a.im, b.im, c.im);
    lemma_distributes(a.re, b.im, c.im);
    lemma_distributes(a.im, b.re, c.re);
    exact_times_commutes(a, b.plus(c));
    exact_times_commutes(a, b);
    exact_times_commutes(a, c);
}

/// A product does not depend on how its factors are put in brackets.
pub proof fn exact_times_associates(a: Exact, b: Exact, c: Exact)
    ensures
        a.times(b).times(c) == a.times(b.times(c)),
{
    reveal(Exact::times);
    let (p, q, r, s, t, u) = (a.re, a.im, b.re, b.im, c.re, c.im);
    // The products of three parts, on either side.
    lemma_commutes(p * r - q * s, t);
    lemma_commutes(p * r - q * s, u);
    lemma_commutes(p * s + q * r, t);
    lemma_commutes(p * s + q * r, u);
    lemma_distributes_minus(t, p * r, q * s);
    lemma_distributes_minus(u, p * r, q * s);
    lemma_distributes(t, p * s, q * r);
    lemma_distributes(u, p * s, q * r);
    lemma_distributes_minus(p, r * t, s * u);
    lemma_distributes_minus(q, r * t, s * u);
    lemma_distributes(p, r * u, s * t);
    lemma_distributes(q, r * u, s * t);
    lemma_three(p, r, t);
    lemma_three(p, r, u);
    lemma_three(p, s, t);
    lemma_three(p, s, u);
    lemma_three(q, r, t);
    lemma_three(q, r, u);
    lemma_three(q, s, t);
    lemma_three(q, s, u);
}

/// The same for three real numbers, with the last one in front.
proof fn lemma_three(a: real, b: real, c: real)
    ensures
        c * (a * b) == a * (b * c),
{
    lemma_commutes(c, a * b);
    lemma_associates(a, b, c);
}

/// Zero takes all, and one changes nothing.
pub proof fn exact_units(a: Exact)
    ensures
        a.times(exact_zero()) == exact_zero(),
        exact_zero().times(a) == exact_zero(),
        a.times(exact_one()) == a,
        exact_one().times(a) == a,
{
    reveal(Exact::times);
    exact_times_commutes(a, exact_zero());
    exact_times_commutes(a, exact_one());
}

/// Equal members give equal sums.
pub proof fn sum_of_equals(f: spec_fn(nat) -> Exact, g: spec_fn(nat) -> Exact, n: nat)
    requires
        forall|i: nat| i < n ==> #[trigger] f(i) == g(i),
    ensures
        sum(f, n) == sum(g, n),
    decreases n,
{
    if n > 0 {
        sum_of_equals(f, g, (n - 1) as nat);
    }
}

/// A sum of sums is the sum of both.
pub proof fn sum_of_sums(
    f: spec_fn(nat) -> Exact,
    g: spec_fn(nat) -> Exact,
    h: spec_fn(nat) -> Exact,
    n: nat,
)
    requires
        forall|i: nat| i < n ==> #[trigger] h(i) == f(i).plus(g(i)),
    ensures
        sum(h, n) == sum(f, n).plus(sum(g, n)),
    decreases n,
{
    if n > 0 {
        sum_of_sums(f, g, h, (n - 1) as nat);
    }
}

/// A factor can be taken out of a sum.
pub proof fn sum_of_products(a: Exact, f: spec_fn(nat) -> Exact, h: spec_fn(nat) -> Exact, n: nat)
    requires
        forall|i: nat| i < n ==> #[trigger] h(i) == a.times(f(i)),
    ensures
        sum(h, n) == a.times(sum(f, n)),
    decreases n,
{
    if n == 0 {
        exact_units(a);
    } else {
        sum_of_products(a, f, h, (n - 1) as nat);
        exact_times_distributes(a, sum(f, (n - 1) as nat), f((n - 1) as nat));
    }
}

/// Members that are zero add nothing.
pub proof fn sum_of_zeros(f: spec_fn(nat) -> Exact, m: nat, n: nat)
    requires
        m <= n,
        forall|i: nat| m <= i < n ==> #[trigger] f(i) == exact_zero(),
    ensures
        sum(f, n) == sum(f, m),
    decreases n,
{
    if m < n {
        sum_of_zeros(f, m, (n - 1) as nat);
    }
}

/// The sum of the products `f(p) * f(t - 1 - p)` over all `p` below `t`.
pub open spec fn convolved(f: spec_fn(nat) -> Exact, t: nat) -> Exact {
    sum(|p: nat| f(p).times(f((t - 1 - p) as nat)), t)
}

/// Summed up, those are the products of each member with a sum of the members before its
/// counterpart.
proof fn lemma_sum_of_convolved(f: spec_fn(nat) -> Exact, n: nat)
    requires
        n > 0,
    ensures
        sum(|t: nat| convolved(f, t), n) == sum(
            |p: nat| f(p).times(sum(f, (n - 1 - p) as nat)),
            (n - 1) as nat,
        ),
    decreases n,
{
    let c = |t: nat| convolved(f, t);
    if n == 1 {
        assert(sum(c, 1) == sum(c, 0).plus(c(0)));
        assert(c(0) == exact_zero());
    } else {
        let m = (n - 1) as nat;
        lemma_sum_of_convolved(f, m);
        // Over `p < m`: f(p)*sum(f, m - p) is f(p)*sum(f, m - 1 - p) and f(p)*f(m - 1 - p).
        let whole = |p: nat| f(p).times(sum(f, (n - 1 - p) as nat));
        let short = |p: nat| f(p).times(sum(f, (m - 1 - p) as nat));
        let last = |p: nat| f(p).times(f((m - 1 - p) as nat));
        assert forall|p: nat| p < m implies #[trigger] whole(p) == short(p).plus(last(p)) by {
            let k = (m - 1 - p) as nat;
            assert(sum(f, (k + 1) as nat) == sum(f, k).plus(f(k)));
            exact_times_distributes(f(p), sum(f, k), f(k));
        }
        sum_of_sums(short, last, whole, m);
        assert(short((m - 1) as nat) == exact_zero()) by {
            exact_units(f((m - 1) as nat));
        }
        assert(sum(short, m) == sum(short, (m - 1) as nat).plus(short((m - 1) as nat)));
        assert(sum(last, m) == convolved(f, m));
        assert(sum(c, n) == sum(c, m).plus(c(m)));
    }
}

/// Where all members from `d` on are zero, the sums of products add up to the square of the sum.
pub proof fn square_of_a_sum(f: spec_fn(nat) -> Exact, d: nat)
    requires
        forall|i: nat| i >= d ==> #[trigger] f(i) == exact_zero(),
    ensures
        sum(|t: nat| convolved(f, t), 2 * d + 1) == sum(f, d).times(sum(f, d)),
{
    let n = 2 * d + 1;
    lemma_sum_of_convolved(f, n);
    let s = sum(f, d);
    let g = |p: nat| f(p).times(sum(f, (n - 1 - p) as nat));
    let h = |p: nat| s.times(f(p));
    assert forall|p: nat| p < 2 * d implies #[trigger] g(p) == h(p) by {
        if p < d {
            sum_of_zeros(f, d, (n - 1 - p) as nat);
            exact_times_commutes(f(p), s);
        } else {
            exact_units(sum(f, (n - 1 - p) as nat));
            exact_units(s);
        }
    }
    sum_of_equals(g, h, 2 * d);
    sum_of_products(s, f, h, 2 * d);
    sum_of_zeros(f, d, 2 * d);
}

/// Where all members from `d` on are zero, the sums of products are zero from `2 * d` on.
pub proof fn convolved_vanishes(f: spec_fn(nat) -> Exact, d: nat, t: nat)
    requires
        forall|i: nat| i >= d ==> #[trigger] f(i) == exact_zero(),
        t >= 2 * d,
    ensures
        convolved(f, t) == exact_zero(),
{
    let g = |p: nat| f(p).times(f((t - 1 - p) as nat));
    assert forall|p: nat| 0 <= p < t implies #[trigger] g(p) == exact_zero() by {
        let q = (t - 1 - p) as nat;
        if p < d {
            assert(f(q) == exact_zero());
        } else {
            assert(f(p) == exact_zero());
        }
        exact_units(f(p));
        exact_units(f(q));
    }
    sum_of_zeros(g, 0, t);
}

/// Powers multiply by adding their exponents.
pub proof fn powers_add(x: Exact, m: nat, n: nat)
    ensures
        power(x, m).times(power(x, n)) == power(x, m + n),
    decreases n,
{
    if n == 0 {
        exact_units(power(x, m));
    } else {
        powers_add(x, m, (n - 1) as nat);
        exact_times_associates(power(x, m), power(x, (n - 1) as nat), x);
    }
}

}
