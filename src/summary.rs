use vstd::prelude::*;
use crate::aggregate::{mean_views, Grouped, GroupedView, Mean};
use crate::table::{clone_names, names_view, PipelineError};

verus! {

/// An exact fraction `num / den`, with `den > 0`.
#[derive(Debug, Clone, Copy)]
pub struct Ratio {
    pub num: i128,
    pub den: i128,
}

/// One value per numeric column: the unweighted mean, across groups, of
/// that column's non-null group means; null when every group mean is null.
#[derive(Debug)]
pub struct Summary {
    pub names: Vec<String>,
    pub values: Vec<Option<Ratio>>,
}

/// Whether `x` fits in an `i128`.
pub open spec fn in_i128(x: int) -> bool {
    i128::MIN <= x <= i128::MAX
}

/// The sum of the non-null means among `ms` (each a sum and a count), as
/// an unreduced fraction `(num, den)`, and how many of them there are.
pub open spec fn mean_sum(ms: Seq<(int, nat)>) -> (int, int, nat)
    decreases ms.len(),
{
    if ms.len() == 0 {
        (0, 1, 0)
    } else {
        let prev = mean_sum(ms.drop_last());
        let s = ms.last().0;
        let c = ms.last().1 as int;
        if c == 0 {
            prev
        } else {
            (prev.0 * c + s * prev.1, prev.1 * c, prev.2 + 1)
        }
    }
}

/// Whether every step of `mean_sum` stays within 128-bit integers.
pub open spec fn mean_sum_fits(ms: Seq<(int, nat)>) -> bool
    decreases ms.len(),
{
    if ms.len() == 0 {
        true
    } else {
        let prev = mean_sum(ms.drop_last());
        let s = ms.last().0;
        let c = ms.last().1 as int;
        &&& mean_sum_fits(ms.drop_last())
        &&& (c == 0 || (in_i128(prev.0 * c) && in_i128(s * prev.1) && in_i128(prev.0 * c + s * prev.1)
            && in_i128(prev.1 * c)))
    }
}

/// The mean of the non-null means among `ms`, as a fraction; null when there is none.
pub open spec fn mean_of_means(ms: Seq<(int, nat)>) -> Option<(int, int)> {
    let t = mean_sum(ms);
    if t.2 == 0 {
        None
    } else {
        Some((t.0, t.1 * t.2))
    }
}

/// Whether computing `mean_of_means(ms)` stays within 128-bit integers.
pub open spec fn mean_of_means_fits(ms: Seq<(int, nat)>) -> bool {
    let t = mean_sum(ms);
    mean_sum_fits(ms) && (t.2 == 0 || in_i128(t.1 * t.2))
}

/// Whether every column of `g` can be summarised in 128-bit integers.
pub open spec fn summary_fits(g: GroupedView) -> bool {
    forall|c: int| 0 <= c < g.means.len() ==> mean_of_means_fits(#[trigger] g.means[c])
}

proof fn lemma_fits_prefix(ms: Seq<(int, nat)>, i: int)
    requires
        0 <= i <= ms.len(),
        mean_sum_fits(ms),
    ensures
        mean_sum_fits(ms.take(i)),
    decreases ms.len(),
{
    if i < ms.len() {
        assert(ms.drop_last().take(i) =~= ms.take(i));
        lemma_fits_prefix(ms.drop_last(), i);
    } else {
        assert(ms.take(i) =~= ms);
    }
}

/// Whether `v` is the fraction `m` (equal as numbers), or both are null.
pub open spec fn same_ratio(v: Option<Ratio>, m: Option<(int, int)>) -> bool {
    match (v, m) {
        (None, None) => true,
        (Some(x), Some(f)) => x.den > 0 && x.num * f.1 == x.den * f.0,
        _ => false,
    }
}

proof fn lemma_shrink(y: int, t: int)
    requires
        t >= 1,
        in_i128(y * t),
    ensures
        in_i128(y),
{
    if y >= 0 {
        assert(y <= y * t) by (nonlinear_arith)
            requires
                y >= 0,
                t >= 1,
        ;
    } else {
        assert(y * t <= y) by (nonlinear_arith)
            requires
                y < 0,
                t >= 1,
        ;
    }
}

/// Greatest common divisor of `a` and `b`, by Euclid's algorithm.
fn gcd(a: u128, b: u128) -> (g: u128)
    requires
        b > 0,
    ensures
        g >= 1,
{
    let mut x = a;
    let mut y = b;
    while y != 0
        invariant
            x > 0 || y > 0,
        decreases y,
    {
        let r = x % y;
        x = y;
        y = r;
    }
    x
}

/// `num / den` with a common factor divided out of both.
fn reduce(num: i128, den: i128) -> (r: (i128, i128, Ghost<int>))
    requires
        den >= 1,
    ensures
        r.1 >= 1,
        r.2@ >= 1,
        num == r.0 * r.2@,
        den == r.1 * r.2@,
{
    if num == i128::MIN {
        return (num, den, Ghost(1int));
    }
    let a: u128 = if num < 0 { (-num) as u128 } else { num as u128 };
    let b: u128 = den as u128;
    let g = gcd(a, b);
    if g <= i128::MAX as u128 && a % g == 0 && b % g == 0 {
        let qa = a / g;
        let qb = b / g;
        proof {
            vstd::arithmetic::div_mod::lemma_fundamental_div_mod(a as int, g as int);
            vstd::arithmetic::div_mod::lemma_fundamental_div_mod(b as int, g as int);
            assert(qa <= a && qb <= b && qb >= 1) by (nonlinear_arith)
                requires
                    a == g * qa,
                    b == g * qb,
                    g >= 1,
                    b >= 1,
            ;
        }
        let n2: i128 = if num < 0 { -(qa as i128) } else { qa as i128 };
        let d2: i128 = qb as i128;
        proof {
            assert(num == n2 * g && den == d2 * g) by (nonlinear_arith)
                requires
                    a == g * qa,
                    b == g * qb,
                    b == den,
                    num < 0 ==> a == -num && n2 == -qa,
                    num >= 0 ==> a == num && n2 == qa,
                    d2 == qb,
            ;
        }
        (n2, d2, Ghost(g as int))
    } else {
        (num, den, Ghost(1int))
    }
}

/// The mean of the non-null means among `ms`, as a fraction kept in
/// lowest terms as it goes; null when there is none. It fails, with
/// `Overflow`, only where even the unreduced computation would leave
/// 128-bit integers, and then only when the reduced one does too.
pub fn mean_of_group_means(ms: &Vec<Mean>) -> (r: Result<Option<Ratio>, PipelineError>)
    ensures
        match r {
            Ok(v) => same_ratio(v, mean_of_means(mean_views(ms@))),
            Err(e) => e is Overflow && !mean_of_means_fits(mean_views(ms@)),
        },
{
    let ghost mv = mean_views(ms@);
    let mut num: i128 = 0;
    let mut den: i128 = 1;
    let ghost mut t: int = 1;
    let mut k: usize = 0;
    let mut i: usize = 0;
    assert(mean_sum(mv.take(0)) == (0int, 1int, 0nat));
    while i < ms.len()
        invariant
            i <= ms.len(),
            mv == mean_views(ms@),
            t >= 1,
            den >= 1,
            mean_sum(mv.take(i as int)).0 == num * t,
            mean_sum(mv.take(i as int)).1 == den * t,
            mean_sum(mv.take(i as int)).2 == k,
            k <= i,
        decreases ms.len() - i,
    {
        let m = ms[i];
        let ghost pre = mean_sum(mv.take(i as int));
        proof {
            assert(mv.take(i + 1).drop_last() =~= mv.take(i as int));
            assert(mv.take(i + 1).last() == (m.sum as int, m.count as nat));
        }
        if m.count != 0 {
            let c = m.count as i128;
            let ghost s = m.sum as int;
            proof {
                assert(pre.0 * c == (num * c) * t && s * pre.1 == (s * den) * t && pre.1 * c == (den * c) * t
                    && pre.0 * c + s * pre.1 == (num * c + s * den) * t) by (nonlinear_arith)
                    requires
                        pre.0 == num * t,
                        pre.1 == den * t,
                ;
            }
            let step = match (num.checked_mul(c), m.sum.checked_mul(den), den.checked_mul(c)) {
                (Some(a), Some(b), Some(d)) => match a.checked_add(b) {
                    Some(n) => Some((n, d)),
                    None => None,
                },
                _ => None,
            };
            match step {
                Some((n, d)) => {
                    proof {
                        assert(d >= 1) by (nonlinear_arith)
                            requires
                                d == den * c,
                                den >= 1,
                                c >= 1,
                        ;
                    }
                    let (n2, d2, Ghost(g)) = reduce(n, d);
                    proof {
                        assert(n * t == n2 * (t * g) && d * t == d2 * (t * g) && t * g >= 1) by (nonlinear_arith)
                            requires
                                n == n2 * g,
                                d == d2 * g,
                                t >= 1,
                                g >= 1,
                        ;
                        t = t * g;
                    }
                    num = n2;
                    den = d2;
                    k = k + 1;
                },
                None => {
                    proof {
                        if mean_of_means_fits(mv) {
                            lemma_fits_prefix(mv, i + 1);
                            assert(mean_sum_fits(mv.take(i + 1)));
                            lemma_shrink(num * c, t);
                            lemma_shrink(s * den, t);
                            lemma_shrink(num * c + s * den, t);
                            lemma_shrink(den * c, t);
                        }
                    }
                    return Err(PipelineError::Overflow);
                },
            }
        }
        i = i + 1;
    }
    assert(mv.take(ms.len() as int) =~= mv);
    if k == 0 {
        return Ok(None);
    }
    let ghost tot = mean_sum(mv);
    proof {
        assert(tot.1 * k == (den * k) * t) by (nonlinear_arith)
            requires
                tot.1 == den * t,
        ;
    }
    match den.checked_mul(k as i128) {
        Some(d) => {
            proof {
                assert(d >= 1 && num * (tot.1 * k) == d * tot.0) by (nonlinear_arith)
                    requires
                        d == den * k,
                        den >= 1,
                        k >= 1,
                        tot.0 == num * t,
                        tot.1 == den * t,
                ;
            }
            Ok(Some(Ratio { num, den: d }))
        },
        None => {
            proof {
                if mean_of_means_fits(mv) {
                    lemma_shrink(den * k, t);
                }
            }
            Err(PipelineError::Overflow)
        },
    }
}

/// Whether `s` summarises `g`: the same columns, and for each the mean of
/// its group means, as a fraction.
pub open spec fn summarizes(s: Summary, g: GroupedView) -> bool {
    &&& names_view(s.names@) == g.names
    &&& s.values.len() == g.means.len()
    &&& forall|c: int| 0 <= c < g.means.len() ==> same_ratio(#[trigger] s.values@[c], mean_of_means(g.means[c]))
}

/// The summary of a grouping: for each of its columns, the unweighted mean
/// of its group means.
pub fn summarize(g: &Grouped) -> (r: Result<Summary, PipelineError>)
    requires
        g.names.len() == g.means.len(),
    ensures
        match r {
            Ok(s) => summarizes(s, g@),
            Err(e) => e is Overflow && !summary_fits(g@),
        },
{
    let mut values: Vec<Option<Ratio>> = Vec::new();
    let mut c: usize = 0;
    while c < g.means.len()
        invariant
            c <= g.means.len(),
            values.len() == c,
            forall|q: int| 0 <= q < c ==> same_ratio(#[trigger] values@[q], mean_of_means(g@.means[q])),
        decreases g.means.len() - c,
    {
        assert(g@.means[c as int] == mean_views(g.means@[c as int]@));
        match mean_of_group_means(&g.means[c]) {
            Ok(v) => {
                values.push(v);
            },
            Err(e) => {
                return Err(e);
            },
        }
        c = c + 1;
    }
    let s = Summary { names: clone_names(&g.names), values };
    Ok(s)
}

} // verus!
