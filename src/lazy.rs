use vstd::prelude::*;
use crate::aggregate::{group_error, group_means, group_ok, group_view, GroupedView};
use crate::stacking::{
    empty_column, lemma_total_rows_prefix, stack, stack_columns, table_views, total_rows,
};
use crate::join::{join_error, join_ok, join_view, left_join};
use crate::pipeline::{has_columns, projection, projection_columns, resolve_key_table, run_inputs_ok};
use crate::summary::{summarize, summary_fits, summarizes, Summary};
use crate::table::{
    clone_names, column_kind, distinct_names, find_column, index_of, lemma_index_of_unique,
    names_view, Column, ColumnKind, ColumnView, PipelineError, Table, TableView,
};

verus! {

/// The column named `n` of every table of `ts`, stacked in order on an
/// empty column of kind `k`, read straight from each table.
pub open spec fn fused_column(ts: Seq<TableView>, n: Seq<char>, k: ColumnKind) -> ColumnView
    decreases ts.len(),
{
    if ts.len() == 0 {
        empty_column(k)
    } else {
        stack(fused_column(ts.drop_last(), n, k), ts.last().column_named(n))
    }
}

/// Every table agrees with the first on the kind of each column of `cols`.
pub open spec fn fused_schema_ok(ts: Seq<TableView>, cols: Seq<Seq<char>>) -> bool {
    forall|i: int, k: int|
        0 <= i < ts.len() && 0 <= k < cols.len() ==> (#[trigger] ts[i].column_named(cols[k])).kind()
            == ts[0].column_named(cols[k]).kind()
}

/// The kind of column `n` in the first table.
pub open spec fn fused_kind(ts: Seq<TableView>, n: Seq<char>) -> ColumnKind {
    ts[0].column_named(n).kind()
}

/// The fact table read in one pass: the columns `cols` of all of `ts`, stacked.
pub open spec fn fused_fact(ts: Seq<TableView>, cols: Seq<Seq<char>>) -> TableView {
    TableView {
        names: cols,
        columns: Seq::new(cols.len(), |k: int| fused_column(ts, cols[k], fused_kind(ts, cols[k]))),
        n_rows: total_rows(ts),
    }
}

/// The Grouped Result a deferred query reaches; `None` where a stage
/// before it fails.
pub open spec fn lazy_view(
    shards: Seq<TableView>,
    keys: Seq<TableView>,
    group: Seq<char>,
    left: Seq<char>,
    right: Seq<char>,
    values: Seq<Seq<char>>,
) -> Option<GroupedView> {
    let cols = projection(values, group);
    if keys.len() == 0 || shards.len() == 0 {
        None
    } else if !(forall|i: int| 0 <= i < shards.len() ==> has_columns(#[trigger] shards[i], cols)) {
        None
    } else if !fused_schema_ok(shards, cols) {
        None
    } else {
        let fact = fused_fact(shards, cols);
        if !join_ok(fact, keys[0], left, right) {
            None
        } else {
            let joined = join_view(fact, keys[0], left, right);
            if !group_ok(joined, group) {
                None
            } else {
                Some(group_view(joined, group))
            }
        }
    }
}

/// Whether `e` is the error a deferred query gives: that of its first
/// failing stage, in the same order as for an eager run.
pub open spec fn lazy_error(
    shards: Seq<TableView>,
    keys: Seq<TableView>,
    group: Seq<char>,
    left: Seq<char>,
    right: Seq<char>,
    values: Seq<Seq<char>>,
    e: PipelineError,
) -> bool {
    let cols = projection(values, group);
    if keys.len() == 0 || shards.len() == 0 {
        e is NotFound
    } else if !(forall|i: int| 0 <= i < shards.len() ==> has_columns(#[trigger] shards[i], cols)) {
        &&& e is Schema
        &&& cols.contains(e->Schema_0@)
        &&& exists|i: int| 0 <= i < shards.len() && !(#[trigger] shards[i]).names.contains(e->Schema_0@)
    } else if !fused_schema_ok(shards, cols) {
        e is SchemaMismatch
    } else {
        let fact = fused_fact(shards, cols);
        if !join_ok(fact, keys[0], left, right) {
            join_error(fact, keys[0], left, right, e)
        } else {
            let joined = join_view(fact, keys[0], left, right);
            if !group_ok(joined, group) {
                group_error(joined, group, e)
            } else {
                e is Overflow && !summary_fits(group_view(joined, group))
            }
        }
    }
}

/// A deferred query over decoded fact shards: building it reads, joins and
/// aggregates nothing; `collect` runs it in one go.
pub struct LazyQuery {
    pub shards: Vec<Table>,
    pub columns: Vec<String>,
    pub key_candidates: Vec<Table>,
    pub left: String,
    pub right: String,
    pub group: String,
}

impl LazyQuery {
    /// A query over `shards`, not yet restricted, joined or grouped.
    pub fn scan(shards: Vec<Table>) -> (r: LazyQuery)
        ensures
            r.shards == shards,
            r.columns@.len() == 0,
            r.key_candidates@.len() == 0,
            r.left@.len() == 0,
            r.right@.len() == 0,
            r.group@.len() == 0,
    {
        LazyQuery {
            shards,
            columns: Vec::new(),
            key_candidates: Vec::new(),
            left: String::new(),
            right: String::new(),
            group: String::new(),
        }
    }

    /// Restricts the query to `columns`.
    pub fn select(self, columns: Vec<String>) -> (r: LazyQuery)
        ensures
            r == (LazyQuery { columns, ..self }),
    {
        LazyQuery { columns, ..self }
    }

    /// Left-joins the query to the first of `key_candidates` on `left` = `right`.
    pub fn join(self, key_candidates: Vec<Table>, left: String, right: String) -> (r: LazyQuery)
        ensures
            r == (LazyQuery { key_candidates, left, right, ..self }),
    {
        LazyQuery { key_candidates, left, right, ..self }
    }

    /// Groups the query by `group` and takes the mean of the group means.
    pub fn group_mean(self, group: String) -> (r: LazyQuery)
        ensures
            r == (LazyQuery { group, ..self }),
    {
        LazyQuery { group, ..self }
    }

    /// Runs the query: the shards' selected columns are stacked straight
    /// from the shards, with no projected copy of any shard, then joined,
    /// grouped and summarised.
    pub fn collect(&self) -> (r: Result<Summary, PipelineError>)
        requires
            run_inputs_ok(self.shards@, self.key_candidates@, self.columns@),
        ensures
            match r {
                Ok(s) => {
                    &&& lazy_view(
                        table_views(self.shards@),
                        table_views(self.key_candidates@),
                        self.group@,
                        self.left@,
                        self.right@,
                        names_view(self.columns@),
                    ) matches Some(g)
                    &&& summarizes(s, g)
                },
                Err(e) => lazy_error(
                    table_views(self.shards@),
                    table_views(self.key_candidates@),
                    self.group@,
                    self.left@,
                    self.right@,
                    names_view(self.columns@),
                    e,
                ),
            },
    {
        let key = match resolve_key_table(&self.key_candidates) {
            Ok(t) => t,
            Err(e) => {
                return Err(e);
            },
        };
        assert(table_views(self.key_candidates@)[0] == key@);
        if self.shards.len() == 0 {
            return Err(PipelineError::NotFound);
        }
        let cols = projection_columns(&self.columns, &self.group);
        let fact = match scan_fused(&self.shards, &cols) {
            Ok(t) => t,
            Err(e) => {
                return Err(e);
            },
        };
        let joined = match left_join(&fact, key, &self.left, &self.right) {
            Ok(t) => t,
            Err(e) => {
                return Err(e);
            },
        };
        let grouped = match group_means(&joined, &self.group) {
            Ok(g) => g,
            Err(e) => {
                return Err(e);
            },
        };
        assert(grouped.names.len() == grouped.means.len()) by {
            assert(grouped@.names.len() == grouped@.means.len());
        }
        summarize(&grouped)
    }
}

/// Positions, in `t`, of each of `cols`; an absent one is an error naming it.
fn locate_columns(t: &Table, cols: &Vec<String>) -> (r: Result<Vec<usize>, PipelineError>)
    requires
        t.wf(),
    ensures
        match r {
            Ok(ix) => {
                &&& ix.len() == cols.len()
                &&& has_columns(t@, names_view(cols@))
                &&& forall|k: int| 0 <= k < cols.len() ==> #[trigger] ix@[k] as int == index_of(t@.names, cols@[k]@)
                &&& forall|k: int| 0 <= k < cols.len() ==> #[trigger] ix@[k] < t.columns.len()
            },
            Err(e) => {
                &&& e is Schema
                &&& names_view(cols@).contains(e->Schema_0@)
                &&& !t@.names.contains(e->Schema_0@)
            },
        },
{
    let mut ix: Vec<usize> = Vec::new();
    let mut k: usize = 0;
    while k < cols.len()
        invariant
            t.wf(),
            k <= cols.len(),
            ix.len() == k,
            forall|q: int| 0 <= q < k ==> t@.names.contains(#[trigger] cols@[q]@),
            forall|q: int| 0 <= q < k ==> #[trigger] ix@[q] as int == index_of(t@.names, cols@[q]@),
            forall|q: int| 0 <= q < k ==> #[trigger] ix@[q] < t.columns.len(),
        decreases cols.len() - k,
    {
        match find_column(&t.names, &cols[k]) {
            Some(j) => {
                proof {
                    lemma_index_of_unique(t@.names, j as int);
                    assert(t@.names[j as int] == cols@[k as int]@);
                }
                ix.push(j);
            },
            None => {
                assert(names_view(cols@)[k as int] == cols@[k as int]@);
                return Err(PipelineError::Schema(cols[k].clone()));
            },
        }
        k = k + 1;
    }
    proof {
        assert forall|q: int| 0 <= q < cols.len() implies t@.names.contains(#[trigger] names_view(cols@)[q]) by {
            assert(names_view(cols@)[q] == cols@[q]@);
        }
    }
    Ok(ix)
}

/// The columns `cols` of every shard, stacked in one pass over the shards.
pub fn scan_fused(shards: &Vec<Table>, cols: &Vec<String>) -> (r: Result<Table, PipelineError>)
    requires
        shards.len() > 0,
        forall|i: int| 0 <= i < shards.len() ==> (#[trigger] shards@[i]).wf(),
        distinct_names(names_view(cols@)),
        total_rows(table_views(shards@)) <= usize::MAX,
    ensures
        match r {
            Ok(t) => {
                &&& forall|i: int| 0 <= i < shards.len() ==> has_columns(#[trigger] table_views(shards@)[i], names_view(cols@))
                &&& fused_schema_ok(table_views(shards@), names_view(cols@))
                &&& t.wf()
                &&& t@ == fused_fact(table_views(shards@), names_view(cols@))
            },
            Err(e) => match e {
                PipelineError::Schema(n) => {
                    &&& names_view(cols@).contains(n@)
                    &&& exists|i: int| 0 <= i < shards.len() && !(#[trigger] table_views(shards@)[i]).names.contains(n@)
                },
                PipelineError::SchemaMismatch => {
                    &&& forall|i: int| 0 <= i < shards.len() ==> has_columns(#[trigger] table_views(shards@)[i], names_view(cols@))
                    &&& !fused_schema_ok(table_views(shards@), names_view(cols@))
                },
                _ => false,
            },
        },
{
    let ghost ts = table_views(shards@);
    let ghost cv = names_view(cols@);
    let mut positions: Vec<Vec<usize>> = Vec::new();
    let mut i: usize = 0;
    while i < shards.len()
        invariant
            i <= shards.len(),
            ts == table_views(shards@),
            cv == names_view(cols@),
            forall|q: int| 0 <= q < shards.len() ==> (#[trigger] shards@[q]).wf(),
            positions.len() == i,
            forall|q: int| 0 <= q < i ==> has_columns(#[trigger] ts[q], cv),
            forall|q: int| 0 <= q < i ==> (#[trigger] positions@[q]).len() == cols.len(),
            forall|q: int, k: int| 0 <= q < i && 0 <= k < cols.len() ==> (#[trigger] positions@[q]@[k]) as int == index_of(ts[q].names, cv[k]),
            forall|q: int, k: int| 0 <= q < i && 0 <= k < cols.len() ==> (#[trigger] positions@[q]@[k]) < shards@[q].columns.len(),
        decreases shards.len() - i,
    {
        assert(ts[i as int] == shards@[i as int]@);
        match locate_columns(&shards[i], cols) {
            Ok(ix) => {
                proof {
                    assert forall|k: int| 0 <= k < cols.len() implies #[trigger] ix@[k] as int == index_of(ts[i as int].names, cv[k]) by {
                        assert(cv[k] == cols@[k]@);
                    }
                }
                positions.push(ix);
            },
            Err(e) => {
                return Err(e);
            },
        }
        i = i + 1;
    }
    let mut kinds: Vec<ColumnKind> = Vec::new();
    let mut k: usize = 0;
    while k < cols.len()
        invariant
            k <= cols.len(),
            shards.len() > 0,
            ts == table_views(shards@),
            cv == names_view(cols@),
            forall|q: int| 0 <= q < shards.len() ==> (#[trigger] shards@[q]).wf(),
            positions.len() == shards.len(),
            forall|q: int| 0 <= q < shards.len() ==> (#[trigger] positions@[q]).len() == cols.len(),
            forall|q: int, c: int| 0 <= q < shards.len() && 0 <= c < cols.len() ==> (#[trigger] positions@[q]@[c]) as int == index_of(ts[q].names, cv[c]),
            forall|q: int, c: int| 0 <= q < shards.len() && 0 <= c < cols.len() ==> (#[trigger] positions@[q]@[c]) < shards@[q].columns.len(),
            kinds.len() == k,
            forall|c: int| 0 <= c < k ==> #[trigger] kinds@[c] == fused_kind(ts, cv[c]),
            forall|q: int| 0 <= q < shards.len() ==> has_columns(#[trigger] ts[q], cv),
            forall|q: int, c: int| 0 <= q < shards.len() && 0 <= c < k ==> (#[trigger] ts[q].column_named(cv[c])).kind() == ts[0].column_named(cv[c]).kind(),
        decreases cols.len() - k,
    {
        let j0 = positions[0][k];
        let kind = column_kind(&shards[0].columns[j0]);
        assert(ts[0].columns[j0 as int] == shards@[0].columns@[j0 as int]@);
        let mut i: usize = 0;
        while i < shards.len()
            invariant
                i <= shards.len(),
                k < cols.len(),
                ts == table_views(shards@),
                cv == names_view(cols@),
                positions.len() == shards.len(),
                forall|q: int| 0 <= q < shards.len() ==> (#[trigger] positions@[q]).len() == cols.len(),
                forall|q: int, c: int| 0 <= q < shards.len() && 0 <= c < cols.len() ==> (#[trigger] positions@[q]@[c]) as int == index_of(ts[q].names, cv[c]),
                forall|q: int, c: int| 0 <= q < shards.len() && 0 <= c < cols.len() ==> (#[trigger] positions@[q]@[c]) < shards@[q].columns.len(),
                kind == fused_kind(ts, cv[k as int]),
                forall|q: int| 0 <= q < shards.len() ==> has_columns(#[trigger] ts[q], cv),
                forall|q: int| 0 <= q < i ==> (#[trigger] ts[q].column_named(cv[k as int])).kind() == kind,
            decreases shards.len() - i,
        {
            let j = positions[i][k];
            assert(ts[i as int].columns[j as int] == shards@[i as int].columns@[j as int]@);
            if column_kind(&shards[i].columns[j]) != kind {
                proof {
                    assert(ts[i as int].column_named(cv[k as int]).kind() != ts[0].column_named(cv[k as int]).kind());
                    assert(!fused_schema_ok(ts, cv));
                }
                return Err(PipelineError::SchemaMismatch);
            }
            i = i + 1;
        }
        kinds.push(kind);
        k = k + 1;
    }
    let mut n_rows: usize = 0;
    let mut i: usize = 0;
    while i < shards.len()
        invariant
            i <= shards.len(),
            ts == table_views(shards@),
            total_rows(ts) <= usize::MAX,
            n_rows == total_rows(ts.take(i as int)),
        decreases shards.len() - i,
    {
        proof {
            lemma_total_rows_prefix(ts, i + 1);
            assert(ts.take(i + 1).drop_last() =~= ts.take(i as int));
        }
        n_rows = n_rows + shards[i].n_rows;
        i = i + 1;
    }
    assert(ts.take(shards.len() as int) =~= ts);
    let mut columns: Vec<Column> = Vec::new();
    let mut k: usize = 0;
    while k < cols.len()
        invariant
            k <= cols.len(),
            kinds.len() == cols.len(),
            shards.len() > 0,
            ts == table_views(shards@),
            cv == names_view(cols@),
            positions.len() == shards.len(),
            forall|q: int| 0 <= q < shards.len() ==> (#[trigger] positions@[q]).len() == cols.len(),
            forall|q: int, c: int| 0 <= q < shards.len() && 0 <= c < cols.len() ==> (#[trigger] positions@[q]@[c]) as int == index_of(ts[q].names, cv[c]),
            forall|q: int, c: int| 0 <= q < shards.len() && 0 <= c < cols.len() ==> (#[trigger] positions@[q]@[c]) < shards@[q].columns.len(),
            forall|c: int| 0 <= c < cols.len() ==> #[trigger] kinds@[c] == fused_kind(ts, cv[c]),
            columns.len() == k,
            forall|c: int| 0 <= c < k ==> (#[trigger] columns@[c])@ == fused_column(ts, cv[c], fused_kind(ts, cv[c])),
        decreases cols.len() - k,
    {
        let mut col = match kinds[k] {
            ColumnKind::Text => Column::Text(Vec::new()),
            ColumnKind::Numeric => Column::Numeric(Vec::new()),
        };
        let mut i: usize = 0;
        while i < shards.len()
            invariant
                i <= shards.len(),
                k < cols.len(),
                ts == table_views(shards@),
                cv == names_view(cols@),
                positions.len() == shards.len(),
                forall|q: int| 0 <= q < shards.len() ==> (#[trigger] positions@[q]).len() == cols.len(),
                forall|q: int, c: int| 0 <= q < shards.len() && 0 <= c < cols.len() ==> (#[trigger] positions@[q]@[c]) as int == index_of(ts[q].names, cv[c]),
                forall|q: int, c: int| 0 <= q < shards.len() && 0 <= c < cols.len() ==> (#[trigger] positions@[q]@[c]) < shards@[q].columns.len(),
                col@ == fused_column(ts.take(i as int), cv[k as int], kinds@[k as int]),
            decreases shards.len() - i,
        {
            let j = positions[i][k];
            proof {
                assert(ts.take(i + 1).drop_last() =~= ts.take(i as int));
                assert(ts.take(i + 1).last() == ts[i as int]);
                assert(ts[i as int].columns[j as int] == shards@[i as int].columns@[j as int]@);
            }
            col = stack_columns(col, &shards[i].columns[j]);
            i = i + 1;
        }
        assert(ts.take(shards.len() as int) =~= ts);
        columns.push(col);
        k = k + 1;
    }
    let t = Table { names: clone_names(cols), columns, n_rows };
    proof {
        let target = fused_fact(ts, cv);
        assert(t@.columns =~= target.columns);
        assert forall|c: int| 0 <= c < t@.columns.len() implies #[trigger] t@.columns[c].len() == t@.n_rows by {
            lemma_fused_len(ts, cv, c);
        }
    }
    Ok(t)
}

proof fn lemma_fused_len(ts: Seq<TableView>, cv: Seq<Seq<char>>, c: int)
    requires
        0 <= c < cv.len(),
        forall|i: int| 0 <= i < ts.len() ==> (#[trigger] ts[i]).wf(),
        forall|i: int| 0 <= i < ts.len() ==> has_columns(#[trigger] ts[i], cv),
        fused_schema_ok(ts, cv),
    ensures
        fused_column(ts, cv[c], fused_kind(ts, cv[c])).len() == total_rows(ts),
{
    let n = cv[c];
    let k = fused_kind(ts, n);
    assert forall|i: int| 0 <= i < ts.len() implies (#[trigger] ts[i]).names.contains(n) && ts[i].column_named(n).kind() == k by {
        assert(has_columns(ts[i], cv));
        assert(ts[i].column_named(cv[c]).kind() == ts[0].column_named(cv[c]).kind());
    }
    lemma_fused_len_kind(ts, n, k);
}

proof fn lemma_fused_len_kind(ts: Seq<TableView>, n: Seq<char>, k: ColumnKind)
    requires
        forall|i: int| 0 <= i < ts.len() ==> (#[trigger] ts[i]).wf(),
        forall|i: int| 0 <= i < ts.len() ==> (#[trigger] ts[i]).names.contains(n) && ts[i].column_named(n).kind() == k,
    ensures
        fused_column(ts, n, k).len() == total_rows(ts),
        fused_column(ts, n, k).kind() == k,
    decreases ts.len(),
{
    if ts.len() > 0 {
        let d = ts.drop_last();
        assert forall|i: int| 0 <= i < d.len() implies (#[trigger] d[i]).wf() && d[i].names.contains(n)
            && d[i].column_named(n).kind() == k by {
            assert(d[i] == ts[i]);
        }
        lemma_fused_len_kind(d, n, k);
        let last = ts[ts.len() - 1];
        assert(last.wf() && last.names.contains(n));
        let j = index_of(last.names, n);
        assert(0 <= j < last.names.len() && last.names[j] == n);
        assert(last.columns[j].len() == last.n_rows);
        match k {
            ColumnKind::Text => {
                assert(last.column_named(n) is Text);
            },
            ColumnKind::Numeric => {
                assert(last.column_named(n) is Numeric);
            },
        }
    }
}

} // verus!
