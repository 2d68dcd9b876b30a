use vstd::prelude::*;
use crate::table::{
    clone_text_cell, find_column, lemma_index_of_unique, names_view, Column, ColumnView,
    PipelineError, Table, TableView,
};

verus! {

/// The mean of one column within one group, kept exact as a sum and the
/// number of non-null values summed; null when that number is zero.
#[derive(Debug, Clone, Copy)]
pub struct Mean {
    pub sum: i128,
    pub count: usize,
}

impl Mean {
    /// Whether no non-null value was averaged.
    pub fn is_null(&self) -> (r: bool)
        ensures
            r == (self.count == 0),
    {
        self.count == 0
    }
}

/// Per-group means: `means[c][g]` is the mean of column `names[c]` over
/// the rows whose group value is `keys[g]`.
#[derive(Debug)]
pub struct Grouped {
    pub keys: Vec<Option<String>>,
    pub names: Vec<String>,
    pub means: Vec<Vec<Mean>>,
}

/// Mathematical view of a grouping; each mean is a (sum, count) pair.
pub struct GroupedView {
    pub keys: Seq<Option<String>>,
    pub names: Seq<Seq<char>>,
    pub means: Seq<Seq<(int, nat)>>,
}

/// Each mean as a (sum, count) pair.
pub open spec fn mean_views(v: Seq<Mean>) -> Seq<(int, nat)> {
    v.map_values(|m: Mean| (m.sum as int, m.count as nat))
}

impl View for Grouped {
    type V = GroupedView;

    open spec fn view(&self) -> GroupedView {
        GroupedView {
            keys: self.keys@,
            names: names_view(self.names@),
            means: self.means@.map_values(|v: Vec<Mean>| mean_views(v@)),
        }
    }
}

/// Group values are equal when both are null or both hold the same text.
pub open spec fn same_key(a: Option<String>, b: Option<String>) -> bool {
    match (a, b) {
        (None, None) => true,
        (Some(x), Some(y)) => x@ == y@,
        _ => false,
    }
}

/// Whether some value of `ks` equals `k`.
pub open spec fn key_seen(ks: Seq<Option<String>>, k: Option<String>) -> bool {
    exists|i: int| 0 <= i < ks.len() && same_key(#[trigger] ks[i], k)
}

/// The distinct values of `ks`, in order of first appearance.
pub open spec fn group_keys(ks: Seq<Option<String>>) -> Seq<Option<String>>
    decreases ks.len(),
{
    if ks.len() == 0 {
        Seq::empty()
    } else {
        let g = group_keys(ks.drop_last());
        if key_seen(g, ks.last()) {
            g
        } else {
            g.push(ks.last())
        }
    }
}

/// Sum of the non-null values among the first `n` rows whose group value is `k`.
pub open spec fn group_sum(ks: Seq<Option<String>>, vs: Seq<Option<i64>>, k: Option<String>, n: int) -> int
    decreases n,
{
    if n <= 0 {
        0
    } else {
        group_sum(ks, vs, k, n - 1) + if same_key(ks[n - 1], k) && vs[n - 1] is Some {
            vs[n - 1]->Some_0 as int
        } else {
            0
        }
    }
}

/// Number of non-null values among the first `n` rows whose group value is `k`.
pub open spec fn group_count(ks: Seq<Option<String>>, vs: Seq<Option<i64>>, k: Option<String>, n: int) -> nat
    decreases n,
{
    if n <= 0 {
        0
    } else {
        group_count(ks, vs, k, n - 1) + if same_key(ks[n - 1], k) && vs[n - 1] is Some {
            1nat
        } else {
            0nat
        }
    }
}

/// The cells of a text column; empty for a numeric one.
pub open spec fn text_values(c: ColumnView) -> Seq<Option<String>> {
    match c {
        ColumnView::Text(v) => v,
        ColumnView::Numeric(_) => Seq::empty(),
    }
}

/// The cells of a numeric column; empty for a text one.
pub open spec fn numeric_values(c: ColumnView) -> Seq<Option<i64>> {
    match c {
        ColumnView::Numeric(v) => v,
        ColumnView::Text(_) => Seq::empty(),
    }
}

/// Positions of the numeric columns among `cols`, ascending.
pub open spec fn numeric_indices(cols: Seq<ColumnView>) -> Seq<int>
    decreases cols.len(),
{
    if cols.len() == 0 {
        Seq::empty()
    } else {
        numeric_indices(cols.drop_last()) + if cols.last() is Numeric {
            seq![cols.len() - 1]
        } else {
            Seq::empty()
        }
    }
}

/// The mean of column `c` within each group of `keys`.
pub open spec fn column_means(t: TableView, keys: Seq<Option<String>>, gcol: Seq<Option<String>>, c: int) -> Seq<(int, nat)> {
    keys.map_values(
        |k: Option<String>|
            (
                group_sum(gcol, numeric_values(t.columns[c]), k, t.n_rows as int),
                group_count(gcol, numeric_values(t.columns[c]), k, t.n_rows as int),
            ),
    )
}

/// Grouping of `t` by its text column `g`: one group per distinct value,
/// and the mean of every numeric column within each group.
pub open spec fn group_view(t: TableView, g: Seq<char>) -> GroupedView {
    let gcol = text_values(t.column_named(g));
    let keys = group_keys(gcol);
    let idx = numeric_indices(t.columns);
    GroupedView {
        keys,
        names: idx.map_values(|c: int| t.names[c]),
        means: idx.map_values(|c: int| column_means(t, keys, gcol, c)),
    }
}

fn same_key_exec(a: &Option<String>, b: &Option<String>) -> (r: bool)
    ensures
        r == same_key(*a, *b),
{
    match (a, b) {
        (None, None) => true,
        (Some(x), Some(y)) => *x == *y,
        _ => false,
    }
}

/// The distinct values of `gcol` in order of first appearance, and for
/// each row the position of its value among them.
fn assign_groups(gcol: &Vec<Option<String>>) -> (r: (Vec<Option<String>>, Vec<usize>))
    ensures
        r.0@ == group_keys(gcol@),
        r.1.len() == gcol.len(),
        forall|q: int| 0 <= q < gcol.len() ==> (#[trigger] r.1@[q]) < r.0.len(),
        forall|q: int, g: int|
            0 <= q < gcol.len() && 0 <= g < r.0.len() ==> ((#[trigger] r.1@[q] == g) == same_key(
                #[trigger] r.0@[g],
                gcol@[q],
            )),
{
    let mut keys: Vec<Option<String>> = Vec::new();
    let mut assign: Vec<usize> = Vec::new();
    let mut i: usize = 0;
    while i < gcol.len()
        invariant
            i <= gcol.len(),
            keys@ == group_keys(gcol@.take(i as int)),
            assign.len() == i,
            forall|a: int, b: int| 0 <= a < b < keys.len() ==> !same_key(#[trigger] keys@[a], #[trigger] keys@[b]),
            forall|q: int| 0 <= q < i ==> (#[trigger] assign@[q]) < keys.len(),
            forall|q: int, g: int|
                0 <= q < i && 0 <= g < keys.len() ==> ((#[trigger] assign@[q] == g) == same_key(
                    #[trigger] keys@[g],
                    gcol@[q],
                )),
        decreases gcol.len() - i,
    {
        let ghost pre = gcol@.take(i as int);
        let ghost keys0 = keys@;
        let ghost assign0 = assign@;
        assert(gcol@.take(i + 1).drop_last() =~= pre);
        assert(gcol@.take(i + 1).last() == gcol@[i as int]);
        let mut g: usize = 0;
        let mut found = false;
        while g < keys.len() && !found
            invariant
                i < gcol.len(),
                g <= keys.len(),
                found ==> g < keys.len() && same_key(keys@[g as int], gcol@[i as int]),
                forall|h: int| 0 <= h < g && !found ==> !same_key(#[trigger] keys@[h], gcol@[i as int]),
            decreases keys.len() - g + (if found { 0int } else { 1int }),
        {
            if same_key_exec(&keys[g], &gcol[i]) {
                found = true;
            } else {
                g = g + 1;
            }
        }
        if found {
            assert(key_seen(keys@, gcol@[i as int]));
            assign.push(g);
        } else {
            proof {
                if key_seen(keys@, gcol@[i as int]) {
                    let h = choose|h: int| 0 <= h < keys.len() && same_key(keys@[h], gcol@[i as int]);
                    assert(!same_key(keys@[h], gcol@[i as int]));
                }
            }
            assign.push(keys.len());
            keys.push(clone_text_cell(&gcol[i]));
            proof {
                assert forall|a: int, b: int| 0 <= a < b < keys.len() implies !same_key(#[trigger] keys@[a], #[trigger] keys@[b]) by {
                    if b == keys.len() - 1 {
                        assert(keys@[a] == keys0[a]);
                    } else {
                        assert(keys@[a] == keys0[a] && keys@[b] == keys0[b]);
                    }
                }
            }
        }
        proof {
            assert forall|q: int, h: int|
                0 <= q < i + 1 && 0 <= h < keys.len() implies ((#[trigger] assign@[q] == h) == same_key(
                    #[trigger] keys@[h],
                    gcol@[q],
                )) by {
                if q < i {
                    assert(assign@[q] == assign0[q]);
                    let a = assign0[q] as int;
                    assert(same_key(keys0[a], gcol@[q]));
                    if h < keys0.len() {
                        assert(keys@[h] == keys0[h]);
                        assert((assign0[q] == h) == same_key(keys0[h], gcol@[q]));
                    } else {
                        assert(!same_key(keys0[a], gcol@[i as int]));
                    }
                } else if found {
                    assert(keys@[h] == keys0[h]);
                    if h != g {
                        assert(!same_key(keys0[h], keys0[g as int]) || !same_key(keys0[g as int], keys0[h]));
                    }
                }
            }
        }
        i = i + 1;
    }
    assert(gcol@.take(gcol.len() as int) =~= gcol@);
    (keys, assign)
}

/// 2^63: no `i64` value exceeds it in magnitude.
const HALF_RANGE: i128 = 0x8000_0000_0000_0000;

/// Per-group sums and counts of `vals`, where row `q` belongs to group `assign[q]`.
fn sum_by_group(
    vals: &Vec<Option<i64>>,
    assign: &Vec<usize>,
    n_groups: usize,
    Ghost(gcol): Ghost<Seq<Option<String>>>,
    Ghost(keys): Ghost<Seq<Option<String>>>,
) -> (r: Vec<Mean>)
    requires
        vals.len() == assign.len(),
        gcol.len() == assign.len(),
        keys.len() == n_groups,
        forall|q: int| 0 <= q < assign.len() ==> (#[trigger] assign@[q]) < n_groups,
        forall|q: int, g: int|
            0 <= q < assign.len() && 0 <= g < n_groups ==> ((#[trigger] assign@[q] == g) == same_key(
                #[trigger] keys[g],
                gcol[q],
            )),
    ensures
        r.len() == n_groups,
        forall|g: int| 0 <= g < n_groups ==> (#[trigger] r@[g]).sum == group_sum(gcol, vals@, keys[g], vals.len() as int),
        forall|g: int| 0 <= g < n_groups ==> (#[trigger] r@[g]).count == group_count(gcol, vals@, keys[g], vals.len() as int),
{
    let mut out: Vec<Mean> = Vec::new();
    let mut g: usize = 0;
    while g < n_groups
        invariant
            g <= n_groups,
            out.len() == g,
            forall|h: int| 0 <= h < g ==> (#[trigger] out@[h]).sum == 0 && out@[h].count == 0,
        decreases n_groups - g,
    {
        out.push(Mean { sum: 0, count: 0 });
        g = g + 1;
    }
    let mut q: usize = 0;
    while q < vals.len()
        invariant
            vals.len() == assign.len(),
            gcol.len() == assign.len(),
            keys.len() == n_groups,
            out.len() == n_groups,
            q <= vals.len(),
            forall|p: int| 0 <= p < assign.len() ==> (#[trigger] assign@[p]) < n_groups,
            forall|p: int, h: int|
                0 <= p < assign.len() && 0 <= h < n_groups ==> ((#[trigger] assign@[p] == h) == same_key(
                    #[trigger] keys[h],
                    gcol[p],
                )),
            forall|h: int| 0 <= h < n_groups ==> (#[trigger] out@[h]).sum == group_sum(gcol, vals@, keys[h], q as int),
            forall|h: int| 0 <= h < n_groups ==> (#[trigger] out@[h]).count == group_count(gcol, vals@, keys[h], q as int),
            forall|h: int| 0 <= h < n_groups ==> (#[trigger] out@[h]).count <= q,
            forall|h: int|
                0 <= h < n_groups ==> -(#[trigger] out@[h]).count * HALF_RANGE <= out@[h].sum <= out@[h].count * HALF_RANGE,
        decreases vals.len() - q,
    {
        let a = assign[q];
        let ghost before = out@;
        match vals[q] {
            Some(v) => {
                let m = out[a];
                proof {
                    let c = m.count as int;
                    assert(c + 1 <= usize::MAX);
                    assert(c * HALF_RANGE + HALF_RANGE <= usize::MAX * HALF_RANGE) by (nonlinear_arith)
                        requires
                            c + 1 <= usize::MAX,
                            HALF_RANGE > 0,
                    ;
                    assert(usize::MAX * HALF_RANGE < i128::MAX);
                }
                out.set(a, Mean { sum: m.sum + v as i128, count: m.count + 1 });
                proof {
                    assert((m.count + 1) * HALF_RANGE == m.count * HALF_RANGE + HALF_RANGE) by (nonlinear_arith);
                }
            },
            None => {},
        }
        proof {
            assert forall|h: int| 0 <= h < n_groups implies (#[trigger] out@[h]).sum == group_sum(
                gcol,
                vals@,
                keys[h],
                q + 1,
            ) && out@[h].count == group_count(gcol, vals@, keys[h], q + 1) by {
                assert(same_key(keys[h], gcol[q as int]) == (a == h));
            }
        }
        q = q + 1;
    }
    out
}

/// Whether `t` can be grouped by `g`: it has a text column of that name.
pub open spec fn group_ok(t: TableView, g: Seq<char>) -> bool {
    t.names.contains(g) && t.column_named(g) is Text
}

/// Whether `e` is the error grouping `t` by `g` gives.
pub open spec fn group_error(t: TableView, g: Seq<char>, e: PipelineError) -> bool {
    match e {
        PipelineError::Schema(n) => n@ == g && !t.names.contains(g),
        PipelineError::GroupKeyType => t.names.contains(g) && t.column_named(g) is Numeric,
        _ => false,
    }
}

/// Groups `t` by its text column `group` and takes, in each group, the
/// mean of every numeric column over its non-null values.
pub fn group_means(t: &Table, group: &String) -> (r: Result<Grouped, PipelineError>)
    requires
        t.wf(),
    ensures
        match r {
            Ok(g) => {
                &&& t@.names.contains(group@)
                &&& t@.column_named(group@) is Text
                &&& g@ == group_view(t@, group@)
            },
            Err(e) => group_error(t@, group@, e),
        },
{
    let gi = match find_column(&t.names, group) {
        Some(i) => i,
        None => {
            return Err(PipelineError::Schema(group.clone()));
        },
    };
    proof {
        lemma_index_of_unique(t@.names, gi as int);
        assert(t@.names[gi as int] == group@);
        assert(t@.columns[gi as int] == t.columns@[gi as int]@);
        assert(t@.columns[gi as int].len() == t.n_rows);
    }
    let gcol = match &t.columns[gi] {
        Column::Text(v) => v,
        Column::Numeric(_) => {
            return Err(PipelineError::GroupKeyType);
        },
    };
    let ghost gv = gcol@;
    assert(gv == text_values(t@.column_named(group@)));
    let (keys, assign) = assign_groups(gcol);
    let mut names: Vec<String> = Vec::new();
    let mut means: Vec<Vec<Mean>> = Vec::new();
    let mut c: usize = 0;
    while c < t.columns.len()
        invariant
            t.wf(),
            gv == gcol@,
            gcol.len() == t.n_rows,
            keys@ == group_keys(gv),
            assign.len() == gcol.len(),
            forall|q: int| 0 <= q < gcol.len() ==> (#[trigger] assign@[q]) < keys.len(),
            forall|q: int, g: int|
                0 <= q < gcol.len() && 0 <= g < keys.len() ==> ((#[trigger] assign@[q] == g) == same_key(
                    #[trigger] keys@[g],
                    gcol@[q],
                )),
            c <= t.columns.len(),
            names.len() == numeric_indices(t@.columns.take(c as int)).len(),
            means.len() == names.len(),
            forall|q: int| 0 <= q < names.len() ==> #[trigger] names@[q]@ == t@.names[numeric_indices(t@.columns.take(c as int))[q]],
            forall|q: int| 0 <= q < names.len() ==> mean_views(#[trigger] means@[q]@) == column_means(
                t@,
                keys@,
                gv,
                numeric_indices(t@.columns.take(c as int))[q],
            ),
        decreases t.columns.len() - c,
    {
        let ghost idx0 = numeric_indices(t@.columns.take(c as int));
        assert(t@.columns.take(c + 1).drop_last() =~= t@.columns.take(c as int));
        assert(t@.columns.take(c + 1).last() == t@.columns[c as int]);
        assert(t@.columns[c as int] == t.columns@[c as int]@);
        assert(t@.columns[c as int].len() == t.n_rows);
        match &t.columns[c] {
            Column::Numeric(v) => {
                assert(v.len() == t.n_rows);
                let m = sum_by_group(v, &assign, keys.len(), Ghost(gv), Ghost(keys@));
                assert(mean_views(m@) =~= column_means(t@, keys@, gv, c as int));
                means.push(m);
                names.push(t.names[c].clone());
                assert(numeric_indices(t@.columns.take(c + 1)) == idx0 + seq![c as int]);
            },
            Column::Text(_) => {
                assert(numeric_indices(t@.columns.take(c + 1)) =~= idx0);
            },
        }
        c = c + 1;
    }
    assert(t@.columns.take(t.columns.len() as int) =~= t@.columns);
    let g = Grouped { keys, names, means };
    proof {
        let target = group_view(t@, group@);
        assert(g@.names =~= target.names);
        assert(g@.means =~= target.means);
    }
    Ok(g)
}

} // verus!
