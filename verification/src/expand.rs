//! The combinatorial engine behind rule expansion: enumerate the
//! Cartesian product of per-slot candidate lists, one chosen index per
//! slot, every combination exactly once.
//!
//! The order is that of a mixed-radix counter where slot 0 advances
//! fastest and the last slot varies slowest.  The enumeration itself is
//! an odometer: one bounds-checked cursor per slot; after emitting a
//! combination the fastest slot advances, and a cursor that would pass
//! the end of its own candidate list resets to the start and carries
//! into the next slot.

use vstd::prelude::*;
use vstd::arithmetic::div_mod::lemma_fundamental_div_mod;
use vstd::arithmetic::div_mod::lemma_fundamental_div_mod_converse;
use vstd::arithmetic::div_mod::lemma_mod_division_less_than_divisor;
use vstd::arithmetic::div_mod::lemma_div_pos_is_pos;
use vstd::arithmetic::div_mod::lemma_multiply_divide_lt;

verus! {

/// The views of a list of machine integers.
pub open spec fn to_ints(s: Seq<usize>) -> Seq<int> {
    s.map_values(|x: usize| x as int)
}

/// The number of combinations over candidate lists of the given sizes.
pub open spec fn spec_prod(sizes: Seq<int>) -> int
    decreases sizes.len(),
{
    if sizes.len() == 0 {
        1
    } else {
        sizes[0] * spec_prod(sizes.drop_first())
    }
}

/// The digits of `n` in the mixed-radix system given by `sizes`,
/// least-significant (fastest-varying) slot first.
pub open spec fn spec_digits(n: int, sizes: Seq<int>) -> Seq<int>
    decreases sizes.len(),
{
    if sizes.len() == 0 {
        Seq::empty()
    } else {
        seq![n % sizes[0]] + spec_digits(n / sizes[0], sizes.drop_first())
    }
}

/// The number whose mixed-radix digits are `c`.
pub open spec fn spec_value(c: Seq<int>, sizes: Seq<int>) -> int
    decreases c.len(),
{
    if c.len() == 0 || sizes.len() == 0 {
        0
    } else {
        c[0] + sizes[0] * spec_value(c.drop_first(), sizes.drop_first())
    }
}

pub open spec fn sizes_positive(sizes: Seq<int>) -> bool {
    forall|i: int| 0 <= i < sizes.len() ==> #[trigger] sizes[i] >= 1
}

/// A well-formed index tuple: one cursor per slot, each within its own
/// candidate list.
pub open spec fn in_bounds(c: Seq<int>, sizes: Seq<int>) -> bool {
    c.len() == sizes.len() && forall|i: int| 0 <= i < c.len() ==> 0 <= #[trigger] c[i] < sizes[i]
}

/// The full expansion: all index tuples, in mixed-radix counter order.
pub open spec fn spec_expand(sizes: Seq<int>) -> Seq<Seq<int>> {
    Seq::new(spec_prod(sizes) as nat, |n: int| spec_digits(n, sizes))
}

pub proof fn lemma_prod_positive(sizes: Seq<int>)
    requires
        sizes_positive(sizes),
    ensures
        spec_prod(sizes) >= 1,
    decreases sizes.len(),
{
    if sizes.len() > 0 {
        lemma_prod_positive(sizes.drop_first());
        assert(sizes[0] * spec_prod(sizes.drop_first()) >= 1) by (nonlinear_arith)
            requires
                sizes[0] >= 1,
                spec_prod(sizes.drop_first()) >= 1,
        ;
    }
}

pub proof fn lemma_value_bounds(c: Seq<int>, sizes: Seq<int>)
    requires
        sizes_positive(sizes),
        in_bounds(c, sizes),
    ensures
        0 <= spec_value(c, sizes) < spec_prod(sizes),
    decreases c.len(),
{
    if c.len() == 0 {
    } else {
        let ct = c.drop_first();
        let st = sizes.drop_first();
        lemma_value_bounds(ct, st);
        let v = spec_value(ct, st);
        let p = spec_prod(st);
        assert(0 <= c[0] + sizes[0] * v && c[0] + sizes[0] * v < sizes[0] * p)
            by (nonlinear_arith)
            requires
                0 <= c[0] < sizes[0],
                sizes[0] >= 1,
                0 <= v < p,
        ;
    }
}

/// Reading the digits of a tuple's value gives the tuple back:
/// the mixed-radix representation is unique.
pub proof fn lemma_digits_of_value(c: Seq<int>, sizes: Seq<int>)
    requires
        sizes_positive(sizes),
        in_bounds(c, sizes),
    ensures
        spec_digits(spec_value(c, sizes), sizes) == c,
    decreases c.len(),
{
    if c.len() == 0 {
        assert(spec_digits(spec_value(c, sizes), sizes) =~= c);
    } else {
        let ct = c.drop_first();
        let st = sizes.drop_first();
        lemma_value_bounds(ct, st);
        let v = spec_value(c, sizes);
        let vt = spec_value(ct, st);
        assert(v == vt * sizes[0] + c[0]) by (nonlinear_arith)
            requires
                v == c[0] + sizes[0] * vt,
        ;
        lemma_fundamental_div_mod_converse(v, sizes[0], vt, c[0]);
        lemma_digits_of_value(ct, st);
        assert(spec_digits(v, sizes) =~= c);
    }
}

/// The value of the digits of `n` is `n`, and the digits are in bounds.
pub proof fn lemma_value_of_digits(n: int, sizes: Seq<int>)
    requires
        sizes_positive(sizes),
        0 <= n < spec_prod(sizes),
    ensures
        spec_value(spec_digits(n, sizes), sizes) == n,
        in_bounds(spec_digits(n, sizes), sizes),
    decreases sizes.len(),
{
    if sizes.len() == 0 {
    } else {
        let st = sizes.drop_first();
        lemma_prod_positive(st);
        lemma_mod_division_less_than_divisor(n, sizes[0]);
        lemma_div_pos_is_pos(n, sizes[0]);
        assert(spec_prod(sizes) == sizes[0] * spec_prod(st));
        lemma_multiply_divide_lt(n, sizes[0], spec_prod(st));
        lemma_value_of_digits(n / sizes[0], st);
        let d = spec_digits(n, sizes);
        assert(d.drop_first() =~= spec_digits(n / sizes[0], st));
        lemma_fundamental_div_mod(n, sizes[0]);
        assert(spec_value(d, sizes) == n % sizes[0] + sizes[0] * (n / sizes[0]));
        assert forall|i: int| 0 <= i < d.len() implies 0 <= #[trigger] d[i] < sizes[i] by {
            if i > 0 {
                assert(d[i] == d.drop_first()[i - 1]);
                assert(sizes[i] == st[i - 1]);
            }
        }
    }
}

/// One odometer step: zero the maxed-out prefix, carry one into slot `j`.
pub open spec fn advanced(c: Seq<int>, j: int) -> Seq<int> {
    Seq::new(c.len(), |t: int| if t < j { 0 } else if t == j { c[j] + 1 } else { c[t] })
}

/// Advancing the odometer adds exactly one to the tuple's value.
pub proof fn lemma_advance(c: Seq<int>, sizes: Seq<int>, j: int)
    requires
        sizes_positive(sizes),
        in_bounds(c, sizes),
        0 <= j < c.len(),
        forall|t: int| 0 <= t < j ==> c[t] == sizes[t] - 1,
        c[j] + 1 < sizes[j],
    ensures
        spec_value(advanced(c, j), sizes) == spec_value(c, sizes) + 1,
        in_bounds(advanced(c, j), sizes),
    decreases j,
{
    let a = advanced(c, j);
    if j == 0 {
        assert(a.drop_first() =~= c.drop_first());
        assert(spec_value(a, sizes) == c[0] + 1 + sizes[0] * spec_value(
            c.drop_first(),
            sizes.drop_first(),
        ));
    } else {
        let ct = c.drop_first();
        let st = sizes.drop_first();
        lemma_advance(ct, st, j - 1);
        assert(a.drop_first() =~= advanced(ct, j - 1));
        let vt = spec_value(ct, st);
        assert(spec_value(a, sizes) == 0 + sizes[0] * (vt + 1));
        assert(spec_value(c, sizes) == sizes[0] - 1 + sizes[0] * vt);
        assert(sizes[0] * (vt + 1) == sizes[0] - 1 + sizes[0] * vt + 1) by (nonlinear_arith);
    }
}

/// When every cursor is at the end of its list, the whole product has
/// been enumerated.
pub proof fn lemma_all_maxed(c: Seq<int>, sizes: Seq<int>)
    requires
        sizes_positive(sizes),
        in_bounds(c, sizes),
        forall|t: int| 0 <= t < c.len() ==> c[t] == sizes[t] - 1,
    ensures
        spec_value(c, sizes) == spec_prod(sizes) - 1,
    decreases c.len(),
{
    if c.len() > 0 {
        let ct = c.drop_first();
        let st = sizes.drop_first();
        lemma_all_maxed(ct, st);
        let p = spec_prod(st);
        assert(sizes[0] - 1 + sizes[0] * (p - 1) == sizes[0] * p - 1) by (nonlinear_arith);
    }
}

pub proof fn lemma_value_zero(c: Seq<int>, sizes: Seq<int>)
    requires
        forall|t: int| 0 <= t < c.len() ==> c[t] == 0,
    ensures
        spec_value(c, sizes) == 0,
    decreases c.len(),
{
    if c.len() > 0 && sizes.len() > 0 {
        lemma_value_zero(c.drop_first(), sizes.drop_first());
        assert(spec_value(c, sizes) == 0 + sizes[0] * 0);
    }
}

/// The expansion of candidate lists of sizes `n0 .. nk-1` (all positive)
/// holds exactly `n0 * n1 * ... * nk-1` combinations; no two
/// combinations choose the same indices, and every in-bounds choice of
/// indices occurs.
pub proof fn lemma_expansion_complete(sizes: Seq<int>)
    requires
        sizes_positive(sizes),
    ensures
        spec_expand(sizes).len() == spec_prod(sizes),
        forall|n: int, m: int|
            0 <= n < m < spec_expand(sizes).len() ==> spec_expand(sizes)[n] != spec_expand(
                sizes,
            )[m],
        forall|c: Seq<int>| in_bounds(c, sizes) ==> spec_expand(sizes).contains(c),
        forall|n: int|
            0 <= n < spec_expand(sizes).len() ==> in_bounds(spec_expand(sizes)[n], sizes),
{
    lemma_prod_positive(sizes);
    assert forall|n: int, m: int|
        0 <= n < m < spec_expand(sizes).len() implies spec_expand(sizes)[n] != spec_expand(
        sizes,
    )[m] by {
        lemma_value_of_digits(n, sizes);
        lemma_value_of_digits(m, sizes);
    }
    assert forall|c: Seq<int>| in_bounds(c, sizes) implies spec_expand(sizes).contains(c) by {
        lemma_value_bounds(c, sizes);
        lemma_digits_of_value(c, sizes);
        assert(spec_expand(sizes)[spec_value(c, sizes)] == c);
    }
    assert forall|n: int|
        0 <= n < spec_expand(sizes).len() implies in_bounds(spec_expand(sizes)[n], sizes) by {
        lemma_value_of_digits(n, sizes);
    }
}

/// Element-wise copy of a cursor tuple.
fn clone_usizes(v: &Vec<usize>) -> (r: Vec<usize>)
    ensures
        r@ == v@,
{
    let mut r: Vec<usize> = Vec::new();
    let mut i: usize = 0;
    while i < v.len()
        invariant
            i <= v.len(),
            r@ =~= v@.take(i as int),
        decreases v.len() - i,
    {
        r.push(v[i]);
        proof {
            assert(v@.take(i as int + 1) =~= v@.take(i as int).push(v@[i as int]));
        }
        i += 1;
    }
    proof {
        assert(v@.take(v@.len() as int) =~= v@);
    }
    r
}

/// Enumerate every combination of one index per slot, in mixed-radix
/// counter order: result `n` is the digit tuple of `n`, slot 0 fastest.
pub fn expand_indices(sizes: &Vec<usize>) -> (result: Vec<Vec<usize>>)
    requires
        sizes@.len() >= 1,
        forall|i: int| 0 <= i < sizes@.len() ==> sizes@[i] >= 1,
    ensures
        result@.len() == spec_prod(to_ints(sizes@)),
        forall|n: int|
            0 <= n < result@.len() ==> to_ints(result@[n]@) == spec_digits(n, to_ints(sizes@)),
{
    let k = sizes.len();
    let ghost szs = to_ints(sizes@);
    proof {
        lemma_prod_positive(szs);
    }
    let mut cursors: Vec<usize> = Vec::new();
    let mut t: usize = 0;
    while t < k
        invariant
            t <= k,
            cursors@.len() == t,
            forall|i: int| 0 <= i < t ==> cursors@[i] == 0,
        decreases k - t,
    {
        cursors.push(0);
        t += 1;
    }
    proof {
        lemma_value_zero(to_ints(cursors@), szs);
    }
    let mut result: Vec<Vec<usize>> = Vec::new();
    loop
        invariant_except_break
            in_bounds(to_ints(cursors@), szs),
            spec_value(to_ints(cursors@), szs) == result@.len(),
        invariant
            k == sizes@.len(),
            k >= 1,
            szs == to_ints(sizes@),
            sizes_positive(szs),
            cursors@.len() == k,
            forall|n: int|
                0 <= n < result@.len() ==> to_ints(result@[n]@) == spec_digits(n, szs),
        ensures
            result@.len() == spec_prod(szs),
        decreases spec_prod(szs) - result@.len(),
    {
        let ghost c0 = to_ints(cursors@);
        let ghost m = result@.len() as int;
        proof {
            lemma_value_bounds(c0, szs);
            lemma_digits_of_value(c0, szs);
            assert forall|u: int| 0 <= u < k implies c0[u] == cursors@[u] as int
                && szs[u] == sizes@[u] as int by {}
        }
        let snapshot = clone_usizes(&cursors);
        result.push(snapshot);
        proof {
            assert(to_ints(result@[m]@) == c0);
            assert(forall|n: int|
                0 <= n < m ==> to_ints(result@[n]@) == spec_digits(n, szs));
        }
        let mut j: usize = 0;
        while j < k && cursors[j] + 1 == sizes[j]
            invariant
                k == sizes@.len(),
                szs == to_ints(sizes@),
                sizes_positive(szs),
                cursors@.len() == k,
                j <= k,
                c0.len() == k,
                in_bounds(c0, szs),
                forall|u: int| 0 <= u < k ==> szs[u] == sizes@[u] as int,
                forall|u: int| 0 <= u < j ==> #[trigger] cursors@[u] == 0 && c0[u] == szs[u] - 1,
                forall|u: int| j <= u < k ==> #[trigger] (cursors@[u] as int) == c0[u],
            decreases k - j,
        {
            proof {
                assert(cursors@[j as int] as int == c0[j as int]);
                assert(c0[j as int] == szs[j as int] - 1);
            }
            let ghost before = cursors@;
            cursors.set(j, 0);
            j += 1;
            proof {
                assert forall|u: int| 0 <= u < j implies #[trigger] cursors@[u] == 0 && c0[u]
                    == szs[u] - 1 by {
                    if u < j - 1 {
                        assert(cursors@[u] == before[u]);
                        assert(before[u] == 0);
                    } else {
                        assert(cursors@[u] == 0);
                    }
                }
                assert forall|u: int| j <= u < k implies #[trigger] (cursors@[u] as int)
                    == c0[u] by {
                    assert(cursors@[u] == before[u]);
                    assert(before[u] as int == c0[u]);
                }
            }
        }
        if j == k {
            proof {
                assert forall|u: int| 0 <= u < k implies c0[u] == szs[u] - 1 by {
                    assert(cursors@[u] == 0);
                }
                lemma_all_maxed(c0, szs);
                assert(spec_value(c0, szs) == m);
                assert(result@.len() == spec_prod(szs));
            }
            break;
        }
        proof {
            assert(cursors@[j as int] as int == c0[j as int]);
            assert(c0[j as int] < szs[j as int]);
        }
        let cj: usize = cursors[j];
        cursors.set(j, cj + 1);
        proof {
            assert(c0[j as int] + 1 < szs[j as int]);
            assert forall|u: int| 0 <= u < j implies c0[u] == szs[u] - 1 by {
                assert(cursors@[u] == 0);
            }
            lemma_advance(c0, szs, j as int);
            assert forall|u: int| 0 <= u < k implies to_ints(cursors@)[u] == advanced(
                c0,
                j as int,
            )[u] by {
                assert(to_ints(cursors@)[u] == cursors@[u] as int);
            }
            assert(to_ints(cursors@) =~= advanced(c0, j as int));
        }
    }
    result
}

} // verus!
