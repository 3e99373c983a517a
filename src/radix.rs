use vstd::prelude::*;

verus! {

/// `base` raised to `n`.
pub open spec fn power(base: int, n: nat) -> int
    decreases n,
{
    if n == 0 {
        1
    } else {
        base * power(base, (n - 1) as nat)
    }
}

/// Every digit lies in `[0, base)`.
pub open spec fn digits_below(base: int, ds: Seq<int>) -> bool {
    forall|i: int| 0 <= i < ds.len() ==> 0 <= #[trigger] ds[i] < base
}

/// The number whose digits in `base` are `ds`, most significant first.
pub open spec fn compose(base: int, ds: Seq<int>) -> int
    decreases ds.len(),
{
    if ds.len() == 0 {
        0
    } else {
        compose(base, ds.drop_last()) * base + ds.last()
    }
}

/// The `n` lowest digits of `x` in `base`, most significant first.
pub open spec fn digits(base: int, x: int, n: nat) -> Seq<int>
    decreases n,
{
    if n == 0 {
        Seq::empty()
    } else {
        digits(base, x / base, (n - 1) as nat).push(x % base)
    }
}

pub proof fn lemma_power_positive(base: int, n: nat)
    requires
        1 <= base,
    ensures
        1 <= power(base, n),
    decreases n,
{
    if n > 0 {
        lemma_power_positive(base, (n - 1) as nat);
        assert(base * power(base, (n - 1) as nat) >= 1) by (nonlinear_arith)
            requires
                1 <= base,
                1 <= power(base, (n - 1) as nat),
        ;
    }
}

pub proof fn lemma_power_mono(base: int, m: nat, n: nat)
    requires
        1 <= base,
        m <= n,
    ensures
        power(base, m) <= power(base, n),
    decreases n - m,
{
    if m < n {
        lemma_power_mono(base, m, (n - 1) as nat);
        lemma_power_positive(base, (n - 1) as nat);
        assert(power(base, (n - 1) as nat) <= base * power(base, (n - 1) as nat)) by (nonlinear_arith)
            requires
                1 <= base,
                1 <= power(base, (n - 1) as nat),
        ;
    }
}

/// Digits below `base` make a number below `base` to their count.
pub proof fn lemma_compose_bound(base: int, ds: Seq<int>)
    requires
        1 <= base,
        digits_below(base, ds),
    ensures
        0 <= compose(base, ds) < power(base, ds.len()),
    decreases ds.len(),
{
    if ds.len() > 0 {
        let init = ds.drop_last();
        assert(digits_below(base, init)) by {
            assert forall|i: int| 0 <= i < init.len() implies 0 <= #[trigger] init[i] < base by {
                assert(init[i] == ds[i]);
            }
        }
        lemma_compose_bound(base, init);
        let (c, p, d) = (compose(base, init), power(base, init.len()), ds.last());
        assert(ds.len() - 1 == init.len());
        assert(0 <= d < base);
        assert(0 <= c * base + d < base * p) by (nonlinear_arith)
            requires
                0 <= c < p,
                0 <= d < base,
        ;
        assert(power(base, ds.len()) == base * p);
    }
}

/// Taking the `n` digits of `x` apart and composing them gives `x` back.
pub proof fn lemma_compose_digits(base: int, x: int, n: nat)
    requires
        1 <= base,
        0 <= x < power(base, n),
    ensures
        digits(base, x, n).len() == n,
        digits_below(base, digits(base, x, n)),
        compose(base, digits(base, x, n)) == x,
    decreases n,
{
    if n > 0 {
        let p = power(base, (n - 1) as nat);
        assert(x / base < p) by (nonlinear_arith)
            requires
                1 <= base,
                0 <= x < base * p,
        ;
        assert(0 <= x / base) by (nonlinear_arith)
            requires
                1 <= base,
                0 <= x,
        ;
        lemma_compose_digits(base, x / base, (n - 1) as nat);
        let ds = digits(base, x, n);
        assert(ds.drop_last() =~= digits(base, x / base, (n - 1) as nat));
        vstd::arithmetic::div_mod::lemma_fundamental_div_mod(x, base);
        assert((x / base) * base == base * (x / base)) by (nonlinear_arith);
        assert(ds.last() == x % base);
    }
}

/// Composing digits below `base` and taking the result apart again gives the
/// same digits.
pub proof fn lemma_digits_compose(base: int, ds: Seq<int>)
    requires
        1 <= base,
        digits_below(base, ds),
    ensures
        digits(base, compose(base, ds), ds.len()) == ds,
    decreases ds.len(),
{
    if ds.len() > 0 {
        let init = ds.drop_last();
        assert(digits_below(base, init)) by {
            assert forall|i: int| 0 <= i < init.len() implies 0 <= #[trigger] init[i] < base by {
                assert(init[i] == ds[i]);
            }
        }
        lemma_digits_compose(base, init);
        let c = compose(base, init);
        let x = compose(base, ds);
        assert(0 <= ds.last() < base);
        vstd::arithmetic::div_mod::lemma_fundamental_div_mod_converse(x, base, c, ds.last());
        assert(init.len() == (ds.len() - 1) as nat);
        assert(digits(base, x, ds.len()) =~= ds);
    }
}

} // verus!
