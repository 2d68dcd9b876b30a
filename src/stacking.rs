use vstd::prelude::*;
use crate::table::{
    clone_names, clone_text_cell, column_kind, distinct_names, names_view, Column, ColumnKind,
    ColumnView, PipelineError, Table, TableView,
};

verus! {

/// The view of each table.
pub open spec fn table_views(ts: Seq<Table>) -> Seq<TableView> {
    ts.map_values(|t: Table| t@)
}

/// Sum of the row counts of `ts`.
pub open spec fn total_rows(ts: Seq<TableView>) -> nat
    decreases ts.len(),
{
    if ts.len() == 0 {
        0
    } else {
        total_rows(ts.drop_last()) + ts.last().n_rows
    }
}

/// `b`'s cells after `a`'s, when both are of one kind.
pub open spec fn stack(a: ColumnView, b: ColumnView) -> ColumnView {
    match (a, b) {
        (ColumnView::Text(x), ColumnView::Text(y)) => ColumnView::Text(x + y),
        (ColumnView::Numeric(x), ColumnView::Numeric(y)) => ColumnView::Numeric(x + y),
        _ => a,
    }
}

/// An empty column of kind `k`.
pub open spec fn empty_column(k: ColumnKind) -> ColumnView {
    match k {
        ColumnKind::Text => ColumnView::Text(Seq::empty()),
        ColumnKind::Numeric => ColumnView::Numeric(Seq::empty()),
    }
}

/// Column `c` of every table of `ts`, stacked in order on an empty column of kind `k`.
pub open spec fn stacked_column(ts: Seq<TableView>, c: int, k: ColumnKind) -> ColumnView
    decreases ts.len(),
{
    if ts.len() == 0 {
        empty_column(k)
    } else {
        stack(stacked_column(ts.drop_last(), c, k), ts.last().columns[c])
    }
}

/// Whether `t` has exactly the columns `names`, of the kinds `kinds`.
pub open spec fn has_schema(t: TableView, names: Seq<Seq<char>>, kinds: Seq<ColumnKind>) -> bool {
    t.names == names && t.kinds() == kinds
}

/// Whether every table of `ts` has that schema.
pub open spec fn all_have_schema(ts: Seq<TableView>, names: Seq<Seq<char>>, kinds: Seq<ColumnKind>) -> bool {
    forall|i: int| 0 <= i < ts.len() ==> has_schema(#[trigger] ts[i], names, kinds)
}

/// The row-stacking of `ts` under the schema `names`/`kinds`.
pub open spec fn stacked_view(ts: Seq<TableView>, names: Seq<Seq<char>>, kinds: Seq<ColumnKind>) -> TableView {
    TableView {
        names,
        columns: Seq::new(kinds.len(), |c: int| stacked_column(ts, c, kinds[c])),
        n_rows: total_rows(ts),
    }
}

/// A prefix of the tables has no more rows than all of them.
pub proof fn lemma_total_rows_prefix(ts: Seq<TableView>, i: int)
    requires
        0 <= i <= ts.len(),
    ensures
        total_rows(ts.take(i)) <= total_rows(ts),
    decreases ts.len() - i,
{
    if i < ts.len() {
        lemma_total_rows_prefix(ts, i + 1);
        assert(ts.take(i + 1).drop_last() =~= ts.take(i));
    } else {
        assert(ts.take(i) =~= ts);
    }
}

/// A stacked column is as long as the stacked columns together.
pub proof fn lemma_stacked_len(ts: Seq<TableView>, c: int, k: ColumnKind)
    requires
        forall|i: int| 0 <= i < ts.len() ==> #[trigger] ts[i].columns[c].kind() == k,
    ensures
        stacked_column(ts, c, k).len() == column_lengths(ts, c),
        stacked_column(ts, c, k).kind() == k,
    decreases ts.len(),
{
    if ts.len() > 0 {
        let d = ts.drop_last();
        assert forall|i: int| 0 <= i < d.len() implies #[trigger] d[i].columns[c].kind() == k by {
            assert(d[i] == ts[i]);
        }
        lemma_stacked_len(d, c, k);
        let last = ts[ts.len() - 1].columns[c];
        assert(last.kind() == k);
        match k {
            ColumnKind::Text => {
                assert(last is Text);
            },
            ColumnKind::Numeric => {
                assert(last is Numeric);
            },
        }
    }
}

/// Sum of the lengths of column `c` over `ts`.
pub open spec fn column_lengths(ts: Seq<TableView>, c: int) -> nat
    decreases ts.len(),
{
    if ts.len() == 0 {
        0
    } else {
        column_lengths(ts.drop_last(), c) + ts.last().columns[c].len()
    }
}

/// In well-formed tables, column lengths add up to the row total.
pub proof fn lemma_column_lengths(ts: Seq<TableView>, c: int)
    requires
        forall|i: int| 0 <= i < ts.len() ==> (#[trigger] ts[i]).wf(),
        0 <= c,
        forall|i: int| 0 <= i < ts.len() ==> c < (#[trigger] ts[i]).columns.len(),
    ensures
        column_lengths(ts, c) == total_rows(ts),
    decreases ts.len(),
{
    if ts.len() > 0 {
        let d = ts.drop_last();
        assert forall|i: int| 0 <= i < d.len() implies (#[trigger] d[i]).wf() && c < d[i].columns.len() by {
            assert(d[i] == ts[i]);
        }
        lemma_column_lengths(d, c);
        assert(ts[ts.len() - 1].columns[c].len() == ts[ts.len() - 1].n_rows);
        assert(ts.last() == ts[ts.len() - 1]);
    }
}

/// Whether `t` has exactly the columns `names`, of the kinds `kinds`, in order.
pub fn check_schema(t: &Table, names: &Vec<String>, kinds: &Vec<ColumnKind>) -> (r: bool)
    ensures
        r == has_schema(t@, names_view(names@), kinds@),
{
    if t.names.len() != names.len() || t.columns.len() != kinds.len() {
        proof {
            if has_schema(t@, names_view(names@), kinds@) {
                assert(t@.names.len() == names_view(names@).len());
                assert(t@.kinds().len() == kinds@.len());
            }
        }
        return false;
    }
    let mut i: usize = 0;
    while i < names.len()
        invariant
            i <= names.len(),
            t.names.len() == names.len(),
            forall|k: int| 0 <= k < i ==> t.names@[k]@ == names@[k]@,
        decreases names.len() - i,
    {
        if t.names[i] != names[i] {
            proof {
                assert(t@.names[i as int] != names_view(names@)[i as int]);
            }
            return false;
        }
        i = i + 1;
    }
    assert(t@.names =~= names_view(names@));
    let mut j: usize = 0;
    while j < kinds.len()
        invariant
            j <= kinds.len(),
            t.columns.len() == kinds.len(),
            t@.names == names_view(names@),
            forall|k: int| 0 <= k < j ==> t.columns@[k]@.kind() == kinds@[k],
        decreases kinds.len() - j,
    {
        if column_kind(&t.columns[j]) != kinds[j] {
            proof {
                assert(t@.kinds()[j as int] != kinds@[j as int]);
            }
            return false;
        }
        j = j + 1;
    }
    assert(t@.kinds() =~= kinds@);
    true
}

/// `b`'s cells appended to `a`'s; `a` unchanged when the kinds differ.
pub fn stack_columns(a: Column, b: &Column) -> (r: Column)
    ensures
        r@ == stack(a@, b@),
{
    match a {
        Column::Text(mut v) => {
            if let Column::Text(w) = b {
                let ghost v0 = v@;
                let mut i: usize = 0;
                while i < w.len()
                    invariant
                        i <= w.len(),
                        v@ == v0 + w@.take(i as int),
                    decreases w.len() - i,
                {
                    v.push(clone_text_cell(&w[i]));
                    i = i + 1;
                    assert(v@ =~= v0 + w@.take(i as int));
                }
                assert(w@.take(w.len() as int) =~= w@);
            }
            Column::Text(v)
        },
        Column::Numeric(mut v) => {
            if let Column::Numeric(w) = b {
                let ghost v0 = v@;
                let mut i: usize = 0;
                while i < w.len()
                    invariant
                        i <= w.len(),
                        v@ == v0 + w@.take(i as int),
                    decreases w.len() - i,
                {
                    v.push(w[i]);
                    i = i + 1;
                    assert(v@ =~= v0 + w@.take(i as int));
                }
                assert(w@.take(w.len() as int) =~= w@);
            }
            Column::Numeric(v)
        },
    }
}

/// Stacks `tables` row-wise, in order, under the declared schema; with no
/// table, the result is an empty table of that schema. Any table whose
/// schema differs from the declared one is refused.
pub fn stack_tables(tables: &Vec<Table>, names: &Vec<String>, kinds: &Vec<ColumnKind>) -> (r: Result<Table, PipelineError>)
    requires
        forall|i: int| 0 <= i < tables.len() ==> (#[trigger] tables@[i]).wf(),
        names.len() == kinds.len(),
        distinct_names(names_view(names@)),
        total_rows(table_views(tables@)) <= usize::MAX,
    ensures
        match r {
            Ok(t) => {
                &&& all_have_schema(table_views(tables@), names_view(names@), kinds@)
                &&& t.wf()
                &&& t@ == stacked_view(table_views(tables@), names_view(names@), kinds@)
            },
            Err(e) => {
                &&& e is SchemaMismatch
                &&& !all_have_schema(table_views(tables@), names_view(names@), kinds@)
            },
        },
{
    let ghost ts = table_views(tables@);
    let ghost nv = names_view(names@);
    let mut i: usize = 0;
    while i < tables.len()
        invariant
            i <= tables.len(),
            ts == table_views(tables@),
            nv == names_view(names@),
            forall|k: int| 0 <= k < i ==> has_schema(#[trigger] ts[k], nv, kinds@),
        decreases tables.len() - i,
    {
        if !check_schema(&tables[i], names, kinds) {
            proof {
                assert(!has_schema(ts[i as int], nv, kinds@));
            }
            return Err(PipelineError::SchemaMismatch);
        }
        i = i + 1;
    }
    let mut n_rows: usize = 0;
    let mut i: usize = 0;
    while i < tables.len()
        invariant
            i <= tables.len(),
            ts == table_views(tables@),
            total_rows(ts) <= usize::MAX,
            n_rows == total_rows(ts.take(i as int)),
        decreases tables.len() - i,
    {
        proof {
            lemma_total_rows_prefix(ts, i + 1);
            assert(ts.take(i + 1).drop_last() =~= ts.take(i as int));
        }
        n_rows = n_rows + tables[i].n_rows;
        i = i + 1;
    }
    assert(ts.take(tables.len() as int) =~= ts);
    let mut columns: Vec<Column> = Vec::new();
    let mut c: usize = 0;
    while c < kinds.len()
        invariant
            c <= kinds.len(),
            names.len() == kinds.len(),
            ts == table_views(tables@),
            nv == names_view(names@),
            all_have_schema(ts, nv, kinds@),
            columns.len() == c,
            forall|k: int| 0 <= k < c ==> (#[trigger] columns@[k])@ == stacked_column(ts, k, kinds@[k]),
        decreases kinds.len() - c,
    {
        let mut col = match kinds[c] {
            ColumnKind::Text => Column::Text(Vec::new()),
            ColumnKind::Numeric => Column::Numeric(Vec::new()),
        };
        let mut k: usize = 0;
        while k < tables.len()
            invariant
                k <= tables.len(),
                c < kinds.len(),
                ts == table_views(tables@),
                all_have_schema(ts, nv, kinds@),
                col@ == stacked_column(ts.take(k as int), c as int, kinds@[c as int]),
            decreases tables.len() - k,
        {
            proof {
                assert(has_schema(ts[k as int], nv, kinds@));
                assert(ts[k as int].kinds()[c as int] == kinds@[c as int]);
                assert(ts.take(k + 1).drop_last() =~= ts.take(k as int));
            }
            col = stack_columns(col, &tables[k].columns[c]);
            k = k + 1;
        }
        assert(ts.take(tables.len() as int) =~= ts);
        columns.push(col);
        c = c + 1;
    }
    let t = Table { names: clone_names(names), columns, n_rows };
    proof {
        let cv = stacked_view(ts, nv, kinds@);
        assert forall|c: int| 0 <= c < kinds.len() implies #[trigger] t@.columns[c] == cv.columns[c] by {
            assert(t@.columns[c] == columns@[c]@);
        }
        assert(t@.columns =~= cv.columns);
        assert forall|c: int| 0 <= c < t@.columns.len() implies #[trigger] t@.columns[c].len() == t@.n_rows by {
            assert forall|i: int| 0 <= i < ts.len() implies #[trigger] ts[i].columns[c].kind() == kinds@[c] by {
                assert(has_schema(ts[i], nv, kinds@));
                assert(ts[i].kinds()[c] == kinds@[c]);
            }
            lemma_stacked_len(ts, c, kinds@[c]);
            assert forall|i: int| 0 <= i < ts.len() implies c < (#[trigger] ts[i]).columns.len() by {
                assert(has_schema(ts[i], nv, kinds@));
                assert(ts[i].kinds().len() == kinds@.len());
            }
            assert forall|i: int| 0 <= i < ts.len() implies (#[trigger] ts[i]).wf() by {
                assert(ts[i] == tables@[i]@);
            }
            lemma_column_lengths(ts, c);
        }
    }
    Ok(t)
}

} // verus!
