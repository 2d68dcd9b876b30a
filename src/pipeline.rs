use vstd::prelude::*;
use crate::aggregate::{group_error, group_means, group_ok, group_view, GroupedView};
use crate::stacking::{all_have_schema, stack_tables, stacked_view, table_views, total_rows};
use crate::join::{join_error, join_ok, join_view, left_join};
use crate::summary::{summarize, summary_fits, summarizes, Summary};
use crate::table::{
    clone_names, column_kind, distinct_names, find_column, names_view, ColumnKind, PipelineError,
    Table, TableView,
};

verus! {

/// The columns a shard is loaded with: `values`, then `group` unless it is among them.
pub open spec fn projection(values: Seq<Seq<char>>, group: Seq<char>) -> Seq<Seq<char>> {
    if values.contains(group) {
        values
    } else {
        values.push(group)
    }
}

/// Every table of `ts` restricted to `cols`.
pub open spec fn project_all(ts: Seq<TableView>, cols: Seq<Seq<char>>) -> Seq<TableView> {
    ts.map_values(|t: TableView| t.project(cols))
}

/// Whether `t` has every column of `cols`.
pub open spec fn has_columns(t: TableView, cols: Seq<Seq<char>>) -> bool {
    forall|k: int| 0 <= k < cols.len() ==> t.names.contains(#[trigger] cols[k])
}

/// The Grouped Result a run reaches on decoded fact shards `shards` and
/// key table candidates `keys`; `None` where a stage before it fails.
pub open spec fn pipeline_view(
    shards: Seq<TableView>,
    keys: Seq<TableView>,
    group: Seq<char>,
    left: Seq<char>,
    right: Seq<char>,
    values: Seq<Seq<char>>,
) -> Option<GroupedView> {
    let cols = projection(values, group);
    if keys.len() == 0 || shards.len() == 0 {
        None
    } else if !(forall|i: int| 0 <= i < shards.len() ==> has_columns(#[trigger] shards[i], cols)) {
        None
    } else {
        let loaded = project_all(shards, cols);
        let kinds = loaded[0].kinds();
        if !all_have_schema(loaded, cols, kinds) {
            None
        } else {
            let fact = stacked_view(loaded, cols, kinds);
            if !join_ok(fact, keys[0], left, right) {
                None
            } else {
                let joined = join_view(fact, keys[0], left, right);
                if !group_ok(joined, group) {
                    None
                } else {
                    Some(group_view(joined, group))
                }
            }
        }
    }
}

/// Whether `e` is the error a run gives: the error of the first stage
/// that fails, in the order no key table or no shard, a projected column
/// missing from a shard, shards of different schemas, the join, the
/// grouping, and last a summary that does not fit in 128-bit integers.
pub open spec fn run_error(
    shards: Seq<TableView>,
    keys: Seq<TableView>,
    group: Seq<char>,
    left: Seq<char>,
    right: Seq<char>,
    values: Seq<Seq<char>>,
    e: PipelineError,
) -> bool {
    let cols = projection(values, group);
    if keys.len() == 0 || shards.len() == 0 {
        e is NotFound
    } else if !(forall|i: int| 0 <= i < shards.len() ==> has_columns(#[trigger] shards[i], cols)) {
        &&& e is Schema
        &&& cols.contains(e->Schema_0@)
        &&& exists|i: int| 0 <= i < shards.len() && !(#[trigger] shards[i]).names.contains(e->Schema_0@)
    } else {
        let loaded = project_all(shards, cols);
        let kinds = loaded[0].kinds();
        if !all_have_schema(loaded, cols, kinds) {
            e is SchemaMismatch
        } else {
            let fact = stacked_view(loaded, cols, kinds);
            if !join_ok(fact, keys[0], left, right) {
                join_error(fact, keys[0], left, right, e)
            } else {
                let joined = join_view(fact, keys[0], left, right);
                if !group_ok(joined, group) {
                    group_error(joined, group, e)
                } else {
                    e is Overflow && !summary_fits(group_view(joined, group))
                }
            }
        }
    }
}

/// The key table is the first candidate; more than one candidate is
/// accepted and only the first is used. None at all is an error.
pub fn resolve_key_table(candidates: &Vec<Table>) -> (r: Result<&Table, PipelineError>)
    ensures
        match r {
            Ok(t) => candidates.len() > 0 && *t == candidates@[0],
            Err(e) => e is NotFound && candidates.len() == 0,
        },
{
    if candidates.len() == 0 {
        Err(PipelineError::NotFound)
    } else {
        Ok(&candidates[0])
    }
}

/// `values`, then `group` unless it is among them.
pub fn projection_columns(values: &Vec<String>, group: &String) -> (r: Vec<String>)
    ensures
        names_view(r@) == projection(names_view(values@), group@),
{
    let mut out = clone_names(values);
    match find_column(values, group) {
        Some(i) => {
            assert(names_view(values@)[i as int] == group@);
        },
        None => {
            out.push(group.clone());
            assert(names_view(out@) =~= names_view(values@).push(group@));
        },
    }
    out
}

/// Each decoded shard restricted to `columns`, in that order; a shard
/// lacking one of them is an error naming the column.
pub fn load_shards(shards: &Vec<Table>, columns: &Vec<String>) -> (r: Result<Vec<Table>, PipelineError>)
    requires
        forall|i: int| 0 <= i < shards.len() ==> (#[trigger] shards@[i]).wf(),
        distinct_names(names_view(columns@)),
    ensures
        match r {
            Ok(v) => {
                &&& forall|i: int| 0 <= i < shards.len() ==> has_columns(#[trigger] shards@[i]@, names_view(columns@))
                &&& table_views(v@) == project_all(table_views(shards@), names_view(columns@))
                &&& forall|i: int| 0 <= i < v.len() ==> (#[trigger] v@[i]).wf()
                &&& forall|i: int| 0 <= i < v.len() ==> (#[trigger] v@[i])@.names == names_view(columns@)
            },
            Err(e) => {
                &&& e is Schema
                &&& names_view(columns@).contains(e->Schema_0@)
                &&& exists|i: int| 0 <= i < shards.len() && !(#[trigger] shards@[i])@.names.contains(e->Schema_0@)
            },
        },
{
    let ghost cols = names_view(columns@);
    let mut out: Vec<Table> = Vec::new();
    let mut i: usize = 0;
    while i < shards.len()
        invariant
            i <= shards.len(),
            cols == names_view(columns@),
            distinct_names(cols),
            forall|q: int| 0 <= q < shards.len() ==> (#[trigger] shards@[q]).wf(),
            out.len() == i,
            forall|q: int| 0 <= q < i ==> has_columns(#[trigger] shards@[q]@, cols),
            forall|q: int| 0 <= q < i ==> (#[trigger] out@[q]).wf() && out@[q]@ == shards@[q]@.project(cols),
        decreases shards.len() - i,
    {
        match shards[i].project(columns) {
            Ok(t) => {
                proof {
                    assert forall|k: int| 0 <= k < cols.len() implies shards@[i as int]@.names.contains(#[trigger] cols[k]) by {
                        assert(cols[k] == columns@[k]@);
                    }
                }
                out.push(t);
            },
            Err(e) => {
                return Err(e);
            },
        }
        i = i + 1;
    }
    assert(table_views(out@) =~= project_all(table_views(shards@), cols));
    Ok(out)
}

/// The kinds of `t`'s columns, in order.
pub fn column_kinds(t: &Table) -> (r: Vec<ColumnKind>)
    ensures
        r@ == t@.kinds(),
{
    let mut out: Vec<ColumnKind> = Vec::new();
    let mut i: usize = 0;
    while i < t.columns.len()
        invariant
            i <= t.columns.len(),
            out@ == t@.kinds().take(i as int),
        decreases t.columns.len() - i,
    {
        out.push(column_kind(&t.columns[i]));
        i = i + 1;
        assert(out@ =~= t@.kinds().take(i as int));
    }
    assert(out@ =~= t@.kinds());
    out
}

/// Projection keeps the row total.
pub proof fn lemma_total_rows_project(ts: Seq<TableView>, cols: Seq<Seq<char>>)
    ensures
        total_rows(project_all(ts, cols)) == total_rows(ts),
    decreases ts.len(),
{
    if ts.len() > 0 {
        assert(project_all(ts, cols).drop_last() =~= project_all(ts.drop_last(), cols));
        lemma_total_rows_project(ts.drop_last(), cols);
    }
}

/// Whether the inputs of a run meet what it needs: decoded tables that are
/// well formed, distinct value columns, and a row total that fits in memory.
pub open spec fn run_inputs_ok(shards: Seq<Table>, keys: Seq<Table>, values: Seq<String>) -> bool {
    &&& forall|i: int| 0 <= i < shards.len() ==> (#[trigger] shards[i]).wf()
    &&& forall|i: int| 0 <= i < keys.len() ==> (#[trigger] keys[i]).wf()
    &&& distinct_names(names_view(values))
    &&& total_rows(table_views(shards)) <= usize::MAX
}

/// Runs the stages one after another, each on the fully built result of
/// the one before: resolve the key table, load the shards projected to
/// `values` and `group`, stack them, left-join the key table, group by
/// `group` and take the mean of the group means.
pub fn run(
    shards: &Vec<Table>,
    key_candidates: &Vec<Table>,
    group: &String,
    left: &String,
    right: &String,
    values: &Vec<String>,
) -> (r: Result<Summary, PipelineError>)
    requires
        run_inputs_ok(shards@, key_candidates@, values@),
    ensures
        match r {
            Ok(s) => {
                &&& pipeline_view(
                    table_views(shards@),
                    table_views(key_candidates@),
                    group@,
                    left@,
                    right@,
                    names_view(values@),
                ) matches Some(g)
                &&& summarizes(s, g)
            },
            Err(e) => run_error(
                table_views(shards@),
                table_views(key_candidates@),
                group@,
                left@,
                right@,
                names_view(values@),
                e,
            ),
        },
{
    let ghost sv = table_views(shards@);
    let ghost kv = table_views(key_candidates@);
    let key = match resolve_key_table(key_candidates) {
        Ok(t) => t,
        Err(e) => {
            return Err(e);
        },
    };
    assert(kv[0] == key@);
    if shards.len() == 0 {
        return Err(PipelineError::NotFound);
    }
    let cols = projection_columns(values, group);
    let ghost cv = names_view(cols@);
    proof {
        if !names_view(values@).contains(group@) {
            assert forall|a: int, b: int| 0 <= a < b < cv.len() implies cv[a] != cv[b] by {
                if b == cv.len() - 1 {
                    assert(names_view(values@).contains(cv[a]));
                }
            }
        }
    }
    let loaded = match load_shards(shards, &cols) {
        Ok(v) => v,
        Err(e) => {
            proof {
                let i = choose|i: int| 0 <= i < shards.len() && !(#[trigger] shards@[i])@.names.contains(e->Schema_0@);
                let k = choose|k: int| 0 <= k < cv.len() && cv[k] == e->Schema_0@;
                assert(sv[i] == shards@[i]@);
                assert(!has_columns(sv[i], cv));
            }
            return Err(e);
        },
    };
    proof {
        assert forall|i: int| 0 <= i < sv.len() implies has_columns(#[trigger] sv[i], cv) by {
            assert(sv[i] == shards@[i]@);
        }
    }
    let ghost lv = table_views(loaded@);
    assert(lv[0] == loaded@[0]@);
    let kinds = column_kinds(&loaded[0]);
    proof {
        lemma_total_rows_project(sv, cv);
    }
    let fact = match stack_tables(&loaded, &cols, &kinds) {
        Ok(t) => t,
        Err(e) => {
            return Err(e);
        },
    };
    let joined = match left_join(&fact, key, left, right) {
        Ok(t) => t,
        Err(e) => {
            return Err(e);
        },
    };
    let grouped = match group_means(&joined, group) {
        Ok(g) => g,
        Err(e) => {
            return Err(e);
        },
    };
    assert(grouped.names.len() == grouped.means.len()) by {
        assert(grouped@.names.len() == grouped@.means.len());
    }
    summarize(&grouped)
}

} // verus!
