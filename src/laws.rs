use vstd::prelude::*;
use crate::aggregate::{group_count, group_keys, group_sum, key_seen, same_key};
use crate::stacking::{
    all_have_schema, stacked_view, has_schema, lemma_column_lengths, lemma_stacked_len, total_rows,
};
use crate::join::{join_pairs, keys_match, matching_rows, row_pairs, with_left};
use crate::aggregate::{group_view, numeric_values, text_values};
use crate::stacking::stacked_column;
use crate::summary::{mean_of_means, mean_sum};
use crate::lazy::{fused_column, fused_fact, fused_kind, fused_schema_ok, lazy_error, lazy_view};
use crate::pipeline::{has_columns, lemma_total_rows_project, pipeline_view, project_all, projection, run_error};
use crate::table::{ColumnKind, ColumnView, PipelineError, TableView};

verus! {

/// Stacking tables keeps every row: the result has as many rows as the
/// inputs together, in every column, and none when there is no input.
pub proof fn law_stacking_cardinality(ts: Seq<TableView>, names: Seq<Seq<char>>, kinds: Seq<ColumnKind>)
    requires
        forall|i: int| 0 <= i < ts.len() ==> (#[trigger] ts[i]).wf(),
        all_have_schema(ts, names, kinds),
    ensures
        stacked_view(ts, names, kinds).n_rows == total_rows(ts),
        forall|c: int| 0 <= c < kinds.len() ==> (#[trigger] stacked_view(ts, names, kinds).columns[c]).len() == total_rows(ts),
        ts.len() == 0 ==> total_rows(ts) == 0,
{
    assert forall|c: int| 0 <= c < kinds.len() implies (#[trigger] stacked_view(ts, names, kinds).columns[c]).len() == total_rows(ts) by {
        assert forall|i: int| 0 <= i < ts.len() implies #[trigger] ts[i].columns[c].kind() == kinds[c] by {
            assert(has_schema(ts[i], names, kinds));
            assert(ts[i].kinds()[c] == kinds[c]);
        }
        assert forall|i: int| 0 <= i < ts.len() implies c < (#[trigger] ts[i]).columns.len() by {
            assert(has_schema(ts[i], names, kinds));
            assert(ts[i].kinds().len() == kinds.len());
        }
        lemma_stacked_len(ts, c, kinds[c]);
        lemma_column_lengths(ts, c);
    }
}

/// No two rows of `b` hold the same non-null key.
pub open spec fn unique_keys(b: ColumnView) -> bool {
    match b {
        ColumnView::Text(y) => forall|j1: int, j2: int|
            0 <= j1 < j2 < y.len() && (#[trigger] y[j1]) is Some && (#[trigger] y[j2]) is Some ==> y[j1]->Some_0@
                != y[j2]->Some_0@,
        ColumnView::Numeric(y) => forall|j1: int, j2: int|
            0 <= j1 < j2 < y.len() && (#[trigger] y[j1]) is Some ==> y[j1] != #[trigger] y[j2],
    }
}

proof fn lemma_matching_rows_range(a: ColumnView, i: int, b: ColumnView, n: int)
    ensures
        forall|q: int| 0 <= q < matching_rows(a, i, b, n).len() ==> {
            let j = #[trigger] matching_rows(a, i, b, n)[q];
            0 <= j < n && keys_match(a, i, b, j)
        },
    decreases n,
{
    if n > 0 {
        lemma_matching_rows_range(a, i, b, n - 1);
        let prev = matching_rows(a, i, b, n - 1);
        let m = matching_rows(a, i, b, n);
        assert forall|q: int| 0 <= q < m.len() implies {
            let j = #[trigger] m[q];
            0 <= j < n && keys_match(a, i, b, j)
        } by {
            if q < prev.len() {
                assert(m[q] == prev[q]);
            } else {
                assert(m[q] == n - 1);
            }
        }
    }
}

proof fn lemma_unique_at_most_one(a: ColumnView, i: int, b: ColumnView, n: int)
    requires
        unique_keys(b),
        n <= b.len(),
    ensures
        matching_rows(a, i, b, n).len() <= 1,
    decreases n,
{
    if n > 0 {
        lemma_unique_at_most_one(a, i, b, n - 1);
        let m = matching_rows(a, i, b, n - 1);
        if m.len() == 1 && keys_match(a, i, b, n - 1) {
            lemma_matching_rows_range(a, i, b, n - 1);
            let j = m[0];
            assert(0 <= j < n - 1 && keys_match(a, i, b, j));
            match (a, b) {
                (ColumnView::Text(x), ColumnView::Text(y)) => {
                    assert(y[j] is Some && y[n - 1] is Some);
                },
                (ColumnView::Numeric(x), ColumnView::Numeric(y)) => {
                    assert(y[j] is Some);
                },
                _ => {},
            }
        }
    }
}

/// With no duplicate key in the key column, a left join gives exactly one
/// row for each row of the fact table.
pub proof fn law_join_unique_keys(a: ColumnView, b: ColumnView, na: int, nb: int)
    requires
        unique_keys(b),
        0 <= na,
        0 <= nb <= b.len(),
    ensures
        join_pairs(a, b, na, nb).len() == na,
    decreases na,
{
    if na > 0 {
        law_join_unique_keys(a, b, na - 1, nb);
        lemma_unique_at_most_one(a, na - 1, b, nb);
    }
}

/// How many of the pairs `p` come from left row `i`.
pub open spec fn rows_from(p: Seq<(int, Option<int>)>, i: int) -> nat
    decreases p.len(),
{
    if p.len() == 0 {
        0
    } else {
        rows_from(p.drop_last(), i) + if p.last().0 == i {
            1nat
        } else {
            0nat
        }
    }
}

proof fn lemma_rows_from_append(p: Seq<(int, Option<int>)>, q: Seq<(int, Option<int>)>, i: int)
    ensures
        rows_from(p + q, i) == rows_from(p, i) + rows_from(q, i),
    decreases q.len(),
{
    if q.len() > 0 {
        assert((p + q).drop_last() =~= p + q.drop_last());
        lemma_rows_from_append(p, q.drop_last(), i);
    } else {
        assert(p + q =~= p);
    }
}

proof fn lemma_rows_from_with_left(r: int, m: Seq<int>, i: int)
    ensures
        rows_from(with_left(r, m), i) == if r == i {
            m.len()
        } else {
            0
        },
    decreases m.len(),
{
    if m.len() > 0 {
        assert(with_left(r, m).drop_last() =~= with_left(r, m.drop_last()));
        lemma_rows_from_with_left(r, m.drop_last(), i);
    }
}

proof fn lemma_rows_from_row_pairs(a: ColumnView, r: int, b: ColumnView, nb: int, i: int)
    ensures
        rows_from(row_pairs(a, r, b, nb), i) == if r != i {
            0
        } else if matching_rows(a, r, b, nb).len() == 0 {
            1
        } else {
            matching_rows(a, r, b, nb).len()
        },
{
    let m = matching_rows(a, r, b, nb);
    if m.len() == 0 {
        let s = seq![(r, None::<int>)];
        assert(s.drop_last() =~= Seq::<(int, Option<int>)>::empty());
        assert(rows_from(s.drop_last(), i) == 0);
        assert(s.last() == (r, None::<int>));
        assert(row_pairs(a, r, b, nb) == s);
    } else {
        lemma_rows_from_with_left(r, m, i);
    }
}

/// A fact row whose key occurs `k >= 1` times in the key column appears
/// `k` times in the left join; one that matches no key appears once.
pub proof fn law_join_duplicate_keys(a: ColumnView, b: ColumnView, na: int, nb: int, i: int)
    requires
        0 <= i < na,
    ensures
        rows_from(join_pairs(a, b, na, nb), i) == if matching_rows(a, i, b, nb).len() == 0 {
            1
        } else {
            matching_rows(a, i, b, nb).len()
        },
    decreases na,
{
    let p0 = join_pairs(a, b, na - 1, nb);
    let rp = row_pairs(a, na - 1, b, nb);
    lemma_rows_from_append(p0, rp, i);
    lemma_rows_from_row_pairs(a, na - 1, b, nb, i);
    if i < na - 1 {
        law_join_duplicate_keys(a, b, na - 1, nb, i);
    } else {
        lemma_no_rows_from_later(a, b, na - 1, nb, i);
    }
}

proof fn lemma_no_rows_from_later(a: ColumnView, b: ColumnView, na: int, nb: int, i: int)
    requires
        na <= i,
    ensures
        rows_from(join_pairs(a, b, na, nb), i) == 0,
    decreases na,
{
    if na > 0 {
        lemma_no_rows_from_later(a, b, na - 1, nb, i);
        lemma_rows_from_append(join_pairs(a, b, na - 1, nb), row_pairs(a, na - 1, b, nb), i);
        lemma_rows_from_row_pairs(a, na - 1, b, nb, i);
    }
}

/// A group in which every value of a column is null has no value to
/// average: its count is zero, so its mean is null.
pub proof fn law_all_null_group(ks: Seq<Option<String>>, vs: Seq<Option<i64>>, k: Option<String>, n: int)
    requires
        forall|r: int| 0 <= r < n && same_key(ks[r], k) ==> (#[trigger] vs[r]) is None,
    ensures
        group_count(ks, vs, k, n) == 0,
        group_sum(ks, vs, k, n) == 0,
    decreases n,
{
    if n > 0 {
        law_all_null_group(ks, vs, k, n - 1);
        assert(same_key(ks[n - 1], k) ==> vs[n - 1] is None);
    }
}

proof fn lemma_fused_is_stacked(ts: Seq<TableView>, cols: Seq<Seq<char>>, k: int, kind: ColumnKind)
    requires
        0 <= k < cols.len(),
    ensures
        fused_column(ts, cols[k], kind) == stacked_column(project_all(ts, cols), k, kind),
    decreases ts.len(),
{
    if ts.len() > 0 {
        assert(project_all(ts, cols).drop_last() =~= project_all(ts.drop_last(), cols));
        lemma_fused_is_stacked(ts.drop_last(), cols, k, kind);
        assert(project_all(ts, cols).last().columns[k] == ts.last().column_named(cols[k]));
    }
}

/// Deferred and immediate evaluation agree: on every input, the lazy
/// query reaches the eager run's Grouped Result, and where one fails the
/// other fails with the same error.
pub proof fn law_mode_equivalence(
    shards: Seq<TableView>,
    keys: Seq<TableView>,
    group: Seq<char>,
    left: Seq<char>,
    right: Seq<char>,
    values: Seq<Seq<char>>,
)
    ensures
        lazy_view(shards, keys, group, left, right, values) == pipeline_view(shards, keys, group, left, right, values),
        forall|e: PipelineError|
            #[trigger] lazy_error(shards, keys, group, left, right, values, e) == run_error(
                shards,
                keys,
                group,
                left,
                right,
                values,
                e,
            ),
{
    let cols = projection(values, group);
    if keys.len() == 0 || shards.len() == 0 {
    } else if !(forall|i: int| 0 <= i < shards.len() ==> has_columns(#[trigger] shards[i], cols)) {
    } else {
        let loaded = project_all(shards, cols);
        let kinds = loaded[0].kinds();
        assert(fused_schema_ok(shards, cols) == all_have_schema(loaded, cols, kinds)) by {
            if fused_schema_ok(shards, cols) {
                assert forall|i: int| 0 <= i < loaded.len() implies has_schema(#[trigger] loaded[i], cols, kinds) by {
                    assert forall|k: int| 0 <= k < cols.len() implies loaded[i].kinds()[k] == kinds[k] by {
                        assert(shards[i].column_named(cols[k]).kind() == shards[0].column_named(cols[k]).kind());
                    }
                    assert(loaded[i].kinds() =~= kinds);
                }
            }
            if all_have_schema(loaded, cols, kinds) {
                assert forall|i: int, k: int| 0 <= i < shards.len() && 0 <= k < cols.len() implies (
                #[trigger] shards[i].column_named(cols[k])).kind() == shards[0].column_named(cols[k]).kind() by {
                    assert(has_schema(loaded[i], cols, kinds));
                    assert(loaded[i].kinds()[k] == kinds[k]);
                }
            }
        }
        if fused_schema_ok(shards, cols) {
            let fused = fused_fact(shards, cols);
            let stacked = stacked_view(loaded, cols, kinds);
            lemma_total_rows_project(shards, cols);
            assert forall|k: int| 0 <= k < cols.len() implies #[trigger] fused.columns[k] == stacked.columns[k] by {
                lemma_fused_is_stacked(shards, cols, k, fused_kind(shards, cols[k]));
                assert(kinds[k] == fused_kind(shards, cols[k]));
            }
            assert(fused.columns =~= stacked.columns);
            assert(fused == stacked);
        }
    }
}

/// A group's mean is fixed by the group's value alone: wherever a value
/// stands in the enumeration of groups, its mean is the null-skipping
/// mean of the rows holding it. Two runs on one input thus agree group by
/// group, whatever order they list the groups in.
pub proof fn law_group_mean_by_value(t: TableView, g: Seq<char>, c: int, p: int)
    requires
        0 <= c < group_view(t, g).means.len(),
        0 <= p < group_view(t, g).keys.len(),
    ensures
        ({
            let gv = group_view(t, g);
            let col = t.columns[crate::aggregate::numeric_indices(t.columns)[c]];
            let gcol = text_values(t.column_named(g));
            &&& gv.means[c].len() == gv.keys.len()
            &&& gv.means[c][p] == (
                group_sum(gcol, numeric_values(col), gv.keys[p], t.n_rows as int),
                group_count(gcol, numeric_values(col), gv.keys[p], t.n_rows as int),
            )
        }),
{
}

/// Grouping partitions the rows: the groups are pairwise distinct, every
/// row's value is one of them, and every group holds at least one row.
pub proof fn law_grouping_partition(ks: Seq<Option<String>>)
    ensures
        forall|a: int, b: int|
            0 <= a < b < group_keys(ks).len() ==> !same_key(
                #[trigger] group_keys(ks)[a],
                #[trigger] group_keys(ks)[b],
            ),
        forall|r: int| 0 <= r < ks.len() ==> key_seen(group_keys(ks), #[trigger] ks[r]),
        forall|p: int| 0 <= p < group_keys(ks).len() ==> key_seen(ks, #[trigger] group_keys(ks)[p]),
    decreases ks.len(),
{
    if ks.len() > 0 {
        let d = ks.drop_last();
        let last = ks.last();
        law_grouping_partition(d);
        let g0 = group_keys(d);
        let g = group_keys(ks);
        assert forall|r: int| 0 <= r < ks.len() implies key_seen(g, #[trigger] ks[r]) by {
            if r < ks.len() - 1 {
                assert(ks[r] == d[r]);
                assert(key_seen(g0, d[r]));
                let h = choose|h: int| 0 <= h < g0.len() && same_key(g0[h], d[r]);
                assert(g[h] == g0[h]);
            } else if key_seen(g0, last) {
                let h = choose|h: int| 0 <= h < g0.len() && same_key(g0[h], last);
                assert(g[h] == g0[h]);
            } else {
                assert(g[g.len() - 1] == last);
                assert(same_key(last, last));
            }
        }
        assert forall|p: int| 0 <= p < g.len() implies key_seen(ks, #[trigger] g[p]) by {
            if p < g0.len() {
                assert(g[p] == g0[p]);
                assert(key_seen(d, g0[p]));
                let r = choose|r: int| 0 <= r < d.len() && same_key(d[r], g0[p]);
                assert(ks[r] == d[r]);
            } else {
                assert(g[p] == last);
                assert(ks[ks.len() - 1] == last);
                assert(same_key(last, last));
            }
        }
        assert forall|a: int, b: int| 0 <= a < b < g.len() implies !same_key(#[trigger] g[a], #[trigger] g[b]) by {
            if b < g0.len() {
                assert(g[a] == g0[a] && g[b] == g0[b]);
            } else {
                assert(g[a] == g0[a]);
                assert(!key_seen(g0, last));
            }
        }
    }
}

/// With two groups of non-null means `s1/c1` and `s2/c2`, the summary is
/// `(s1/c1 + s2/c2) / 2`, whatever the groups' sizes: each group weighs
/// the same, not each row.
pub proof fn law_two_group_summary(s1: int, c1: nat, s2: int, c2: nat)
    requires
        c1 > 0,
        c2 > 0,
    ensures
        mean_of_means(seq![(s1, c1), (s2, c2)]) == Some((s1 * c2 + s2 * c1, (c1 * c2 * 2) as int)),
{
    let ms = seq![(s1, c1), (s2, c2)];
    assert(ms.drop_last() =~= seq![(s1, c1)]);
    assert(seq![(s1, c1)].drop_last() =~= Seq::<(int, nat)>::empty());
    assert(mean_sum(Seq::<(int, nat)>::empty()) == (0int, 1int, 0nat));
    assert(seq![(s1, c1)].last() == (s1, c1));
    assert(ms.last() == (s2, c2));
    let one = seq![(s1, c1)];
    assert(mean_sum(one.drop_last()) == (0int, 1int, 0nat));
    assert(0 * (c1 as int) + s1 * 1 == s1 && 1 * (c1 as int) == c1) by (nonlinear_arith);
    assert(mean_sum(one) == (s1, c1 as int, 1nat));
    assert(mean_sum(ms) == (s1 * c2 + s2 * c1, (c1 * c2) as int, 2nat));
}

proof fn lemma_group_prefix(
    ka: Seq<Option<String>>,
    va: Seq<Option<i64>>,
    kb: Seq<Option<String>>,
    vb: Seq<Option<i64>>,
    k: Option<String>,
    n: int,
)
    requires
        0 <= n <= ka.len(),
        ka.len() == va.len(),
    ensures
        group_sum(ka + kb, va + vb, k, n) == group_sum(ka, va, k, n),
        group_count(ka + kb, va + vb, k, n) == group_count(ka, va, k, n),
    decreases n,
{
    if n > 0 {
        lemma_group_prefix(ka, va, kb, vb, k, n - 1);
        assert((ka + kb)[n - 1] == ka[n - 1]);
        assert((va + vb)[n - 1] == va[n - 1]);
    }
}

/// Over rows `a` followed by rows `b`, a group's sum and count are those
/// over `a` plus those over the first `m` rows of `b`.
pub proof fn law_group_sum_split(
    ka: Seq<Option<String>>,
    va: Seq<Option<i64>>,
    kb: Seq<Option<String>>,
    vb: Seq<Option<i64>>,
    k: Option<String>,
    m: int,
)
    requires
        ka.len() == va.len(),
        kb.len() == vb.len(),
        0 <= m <= kb.len(),
    ensures
        group_sum(ka + kb, va + vb, k, ka.len() + m) == group_sum(ka, va, k, ka.len() as int) + group_sum(
            kb,
            vb,
            k,
            m,
        ),
        group_count(ka + kb, va + vb, k, ka.len() + m) == group_count(ka, va, k, ka.len() as int)
            + group_count(kb, vb, k, m),
    decreases m,
{
    if m == 0 {
        lemma_group_prefix(ka, va, kb, vb, k, ka.len() as int);
    } else {
        law_group_sum_split(ka, va, kb, vb, k, m - 1);
        assert((ka + kb)[ka.len() + m - 1] == kb[m - 1]);
        assert((va + vb)[ka.len() + m - 1] == vb[m - 1]);
    }
}

/// The order in which two shards are stacked changes no group's sum or
/// count, hence no group's mean.
pub proof fn law_shard_order_free(
    ka: Seq<Option<String>>,
    va: Seq<Option<i64>>,
    kb: Seq<Option<String>>,
    vb: Seq<Option<i64>>,
    k: Option<String>,
)
    requires
        ka.len() == va.len(),
        kb.len() == vb.len(),
    ensures
        group_sum(ka + kb, va + vb, k, (ka.len() + kb.len()) as int) == group_sum(kb + ka, vb + va, k, (kb.len() + ka.len()) as int),
        group_count(ka + kb, va + vb, k, (ka.len() + kb.len()) as int) == group_count(kb + ka, vb + va, k, (kb.len() + ka.len()) as int),
{
    law_group_sum_split(ka, va, kb, vb, k, kb.len() as int);
    law_group_sum_split(kb, vb, ka, va, k, ka.len() as int);
}

} // verus!
