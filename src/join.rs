use vstd::prelude::*;
use crate::table::{
    clone_names, clone_text_cell, column_kind, column_len, distinct_names, find_column, index_of,
    lemma_index_of_unique, names_view,
    Column, ColumnView, PipelineError, Table, TableView,
};

verus! {

/// Whether row `i` of `a` and row `j` of `b` hold the same key; a null key
/// matches nothing.
pub open spec fn keys_match(a: ColumnView, i: int, b: ColumnView, j: int) -> bool {
    match (a, b) {
        (ColumnView::Text(x), ColumnView::Text(y)) => {
            x[i] is Some && y[j] is Some && x[i]->Some_0@ == y[j]->Some_0@
        },
        (ColumnView::Numeric(x), ColumnView::Numeric(y)) => x[i] is Some && x[i] == y[j],
        _ => false,
    }
}

/// The rows among the first `n` of `b` whose key matches row `i` of `a`, ascending.
pub open spec fn matching_rows(a: ColumnView, i: int, b: ColumnView, n: int) -> Seq<int>
    decreases n,
{
    if n <= 0 {
        Seq::empty()
    } else {
        matching_rows(a, i, b, n - 1) + if keys_match(a, i, b, n - 1) {
            seq![n - 1]
        } else {
            Seq::empty()
        }
    }
}

/// Pairs left row `i` with each right row of `m`.
pub open spec fn with_left(i: int, m: Seq<int>) -> Seq<(int, Option<int>)> {
    m.map_values(|j: int| (i, Some(j)))
}

/// The joined rows that left row `i` gives: one per matching right row, or
/// one with no right row.
pub open spec fn row_pairs(a: ColumnView, i: int, b: ColumnView, nb: int) -> Seq<(int, Option<int>)> {
    let m = matching_rows(a, i, b, nb);
    if m.len() == 0 {
        seq![(i, None)]
    } else {
        with_left(i, m)
    }
}

/// The (left row, right row) pairs of a left join of the first `na` rows.
pub open spec fn join_pairs(a: ColumnView, b: ColumnView, na: int, nb: int) -> Seq<(int, Option<int>)>
    decreases na,
{
    if na <= 0 {
        Seq::empty()
    } else {
        join_pairs(a, b, na - 1, nb) + row_pairs(a, na - 1, b, nb)
    }
}

/// The left cell of each pair of `p`, from column `c`.
pub open spec fn gather_left(c: ColumnView, p: Seq<(int, Option<int>)>) -> ColumnView {
    match c {
        ColumnView::Text(x) => ColumnView::Text(p.map_values(|q: (int, Option<int>)| x[q.0])),
        ColumnView::Numeric(x) => ColumnView::Numeric(p.map_values(|q: (int, Option<int>)| x[q.0])),
    }
}

/// The right cell of each pair of `p`, from column `c`; null where the pair has no right row.
pub open spec fn gather_right(c: ColumnView, p: Seq<(int, Option<int>)>) -> ColumnView {
    match c {
        ColumnView::Text(x) => ColumnView::Text(
            p.map_values(
                |q: (int, Option<int>)|
                    match q.1 {
                        Some(j) => x[j],
                        None => None,
                    },
            ),
        ),
        ColumnView::Numeric(x) => ColumnView::Numeric(
            p.map_values(
                |q: (int, Option<int>)|
                    match q.1 {
                        Some(j) => x[j],
                        None => None,
                    },
            ),
        ),
    }
}

/// The names of `s` but the one at `i`.
pub open spec fn without(s: Seq<Seq<char>>, i: int) -> Seq<Seq<char>> {
    s.take(i) + s.skip(i + 1)
}

/// The columns of `s` but the one at `i`.
pub open spec fn without_columns(s: Seq<ColumnView>, i: int) -> Seq<ColumnView> {
    s.take(i) + s.skip(i + 1)
}

/// The left join keeps every column of `f`, then every column of `k` but
/// its key column.
pub open spec fn join_view(f: TableView, k: TableView, left: Seq<char>, right: Seq<char>) -> TableView {
    let li = index_of(f.names, left);
    let ri = index_of(k.names, right);
    let p = join_pairs(f.columns[li], k.columns[ri], f.n_rows as int, k.n_rows as int);
    TableView {
        names: f.names + without(k.names, ri),
        columns: f.columns.map_values(|c: ColumnView| gather_left(c, p)) + without_columns(
            k.columns,
            ri,
        ).map_values(|c: ColumnView| gather_right(c, p)),
        n_rows: p.len(),
    }
}

/// Whether some column of `k` other than its key column `ri` shares a name with `f`.
pub open spec fn name_clash(f: TableView, k: TableView, ri: int) -> bool {
    exists|n: Seq<char>| without(k.names, ri).contains(n) && f.names.contains(n)
}

/// Row pairs with their indices as integers.
pub open spec fn pairs_view(v: Seq<(usize, Option<usize>)>) -> Seq<(int, Option<int>)> {
    v.map_values(
        |q: (usize, Option<usize>)|
            (
                q.0 as int,
                match q.1 {
                    Some(j) => Some(j as int),
                    None => None,
                },
            ),
    )
}

fn key_cells_match(a: &Column, i: usize, b: &Column, j: usize) -> (r: bool)
    requires
        i < a@.len(),
        j < b@.len(),
    ensures
        r == keys_match(a@, i as int, b@, j as int),
{
    match (a, b) {
        (Column::Text(x), Column::Text(y)) => match (&x[i], &y[j]) {
            (Some(s), Some(t)) => *s == *t,
            _ => false,
        },
        (Column::Numeric(x), Column::Numeric(y)) => match (x[i], y[j]) {
            (Some(s), Some(t)) => s == t,
            _ => false,
        },
        _ => false,
    }
}

/// The (left row, right row) pairs of the left join of column `a` against
/// column `b`, in left row order, then right row order.
pub fn join_rows(a: &Column, b: &Column) -> (r: Vec<(usize, Option<usize>)>)
    ensures
        pairs_view(r@) == join_pairs(a@, b@, a@.len() as int, b@.len() as int),
        forall|k: int| 0 <= k < r.len() ==> (#[trigger] r@[k]).0 < a@.len(),
        forall|k: int| 0 <= k < r.len() ==> match (#[trigger] r@[k]).1 {
            Some(j) => j < b@.len(),
            None => true,
        },
{
    let na = column_len(a);
    let nb = column_len(b);
    let mut out: Vec<(usize, Option<usize>)> = Vec::new();
    let mut i: usize = 0;
    while i < na
        invariant
            na == a@.len(),
            nb == b@.len(),
            i <= na,
            pairs_view(out@) == join_pairs(a@, b@, i as int, nb as int),
            forall|k: int| 0 <= k < out.len() ==> (#[trigger] out@[k]).0 < na,
            forall|k: int| 0 <= k < out.len() ==> match (#[trigger] out@[k]).1 {
                Some(j) => j < nb,
                None => true,
            },
        decreases na - i,
    {
        let ghost base = pairs_view(out@);
        let mut found = false;
        let mut j: usize = 0;
        while j < nb
            invariant
                na == a@.len(),
                nb == b@.len(),
                i < na,
                j <= nb,
                base == join_pairs(a@, b@, i as int, nb as int),
                pairs_view(out@) == base + with_left(i as int, matching_rows(a@, i as int, b@, j as int)),
                found == (matching_rows(a@, i as int, b@, j as int).len() > 0),
                forall|k: int| 0 <= k < out.len() ==> (#[trigger] out@[k]).0 < na,
                forall|k: int| 0 <= k < out.len() ==> match (#[trigger] out@[k]).1 {
                    Some(m) => m < nb,
                    None => true,
                },
            decreases nb - j,
        {
            let ghost before = out@;
            if key_cells_match(a, i, b, j) {
                out.push((i, Some(j)));
                found = true;
                assert(pairs_view(out@) =~= pairs_view(before).push((i as int, Some(j as int))));
            }
            proof {
                let m0 = matching_rows(a@, i as int, b@, j as int);
                let m1 = matching_rows(a@, i as int, b@, j + 1);
                if keys_match(a@, i as int, b@, j as int) {
                    assert(m1 == m0 + seq![j as int]);
                    assert(with_left(i as int, m1) =~= with_left(i as int, m0).push((i as int, Some(j as int))));
                } else {
                    assert(m1 =~= m0);
                }
                assert(pairs_view(out@) =~= base + with_left(i as int, m1));
            }
            j = j + 1;
        }
        let ghost before = out@;
        if !found {
            out.push((i, None));
            assert(pairs_view(out@) =~= pairs_view(before).push((i as int, None)));
        }
        proof {
            assert(pairs_view(out@) =~= base + row_pairs(a@, i as int, b@, nb as int));
        }
        i = i + 1;
    }
    out
}

fn gather_left_column(c: &Column, p: &Vec<(usize, Option<usize>)>) -> (r: Column)
    requires
        forall|k: int| 0 <= k < p.len() ==> (#[trigger] p@[k]).0 < c@.len(),
    ensures
        r@ == gather_left(c@, pairs_view(p@)),
{
    match c {
        Column::Text(x) => {
            let mut out: Vec<Option<String>> = Vec::new();
            let mut k: usize = 0;
            while k < p.len()
                invariant
                    k <= p.len(),
                    forall|q: int| 0 <= q < p.len() ==> (#[trigger] p@[q]).0 < x.len(),
                    out@ == pairs_view(p@).take(k as int).map_values(|q: (int, Option<int>)| x@[q.0]),
                decreases p.len() - k,
            {
                out.push(clone_text_cell(&x[p[k].0]));
                k = k + 1;
                assert(out@ =~= pairs_view(p@).take(k as int).map_values(|q: (int, Option<int>)| x@[q.0]));
            }
            assert(pairs_view(p@).take(p.len() as int) =~= pairs_view(p@));
            Column::Text(out)
        },
        Column::Numeric(x) => {
            let mut out: Vec<Option<i64>> = Vec::new();
            let mut k: usize = 0;
            while k < p.len()
                invariant
                    k <= p.len(),
                    forall|q: int| 0 <= q < p.len() ==> (#[trigger] p@[q]).0 < x.len(),
                    out@ == pairs_view(p@).take(k as int).map_values(|q: (int, Option<int>)| x@[q.0]),
                decreases p.len() - k,
            {
                out.push(x[p[k].0]);
                k = k + 1;
                assert(out@ =~= pairs_view(p@).take(k as int).map_values(|q: (int, Option<int>)| x@[q.0]));
            }
            assert(pairs_view(p@).take(p.len() as int) =~= pairs_view(p@));
            Column::Numeric(out)
        },
    }
}

/// The right cell a pair picks from `x`, null without a right row.
pub open spec fn right_cell<T>(x: Seq<Option<T>>, q: (int, Option<int>)) -> Option<T> {
    match q.1 {
        Some(j) => x[j],
        None => None,
    }
}

fn gather_right_column(c: &Column, p: &Vec<(usize, Option<usize>)>) -> (r: Column)
    requires
        forall|k: int| 0 <= k < p.len() ==> match (#[trigger] p@[k]).1 {
            Some(j) => j < c@.len(),
            None => true,
        },
    ensures
        r@ == gather_right(c@, pairs_view(p@)),
{
    match c {
        Column::Text(x) => {
            let mut out: Vec<Option<String>> = Vec::new();
            let mut k: usize = 0;
            while k < p.len()
                invariant
                    k <= p.len(),
                    forall|q: int| 0 <= q < p.len() ==> match (#[trigger] p@[q]).1 {
                        Some(j) => j < x.len(),
                        None => true,
                    },
                    out@ == pairs_view(p@).take(k as int).map_values(|q: (int, Option<int>)| right_cell(x@, q)),
                decreases p.len() - k,
            {
                let cell = match p[k].1 {
                    Some(j) => clone_text_cell(&x[j]),
                    None => None,
                };
                out.push(cell);
                k = k + 1;
                assert(out@ =~= pairs_view(p@).take(k as int).map_values(|q: (int, Option<int>)| right_cell(x@, q)));
            }
            assert(pairs_view(p@).take(p.len() as int) =~= pairs_view(p@));
            assert(out@ =~= pairs_view(p@).map_values(
                |q: (int, Option<int>)|
                    match q.1 {
                        Some(j) => x@[j],
                        None => None,
                    },
            ));
            Column::Text(out)
        },
        Column::Numeric(x) => {
            let mut out: Vec<Option<i64>> = Vec::new();
            let mut k: usize = 0;
            while k < p.len()
                invariant
                    k <= p.len(),
                    forall|q: int| 0 <= q < p.len() ==> match (#[trigger] p@[q]).1 {
                        Some(j) => j < x.len(),
                        None => true,
                    },
                    out@ == pairs_view(p@).take(k as int).map_values(|q: (int, Option<int>)| right_cell(x@, q)),
                decreases p.len() - k,
            {
                let cell = match p[k].1 {
                    Some(j) => x[j],
                    None => None,
                };
                out.push(cell);
                k = k + 1;
                assert(out@ =~= pairs_view(p@).take(k as int).map_values(|q: (int, Option<int>)| right_cell(x@, q)));
            }
            assert(pairs_view(p@).take(p.len() as int) =~= pairs_view(p@));
            assert(out@ =~= pairs_view(p@).map_values(
                |q: (int, Option<int>)|
                    match q.1 {
                        Some(j) => x@[j],
                        None => None,
                    },
            ));
            Column::Numeric(out)
        },
    }
}

/// Whether the left join of `f` to `k` on `left`/`right` is defined: both
/// columns exist, are of one kind, and no column of `k` but its key shares
/// a name with a column of `f`.
pub open spec fn join_ok(f: TableView, k: TableView, left: Seq<char>, right: Seq<char>) -> bool {
    &&& f.names.contains(left)
    &&& k.names.contains(right)
    &&& f.column_named(left).kind() == k.column_named(right).kind()
    &&& !name_clash(f, k, index_of(k.names, right))
}

/// Leaving one name out keeps the rest distinct.
/// Whether `e` is the error a left join of `f` to `k` on `left`/`right`
/// gives: a missing join column, by name, then mismatched key kinds, then
/// a clash of column names.
pub open spec fn join_error(f: TableView, k: TableView, left: Seq<char>, right: Seq<char>, e: PipelineError) -> bool {
    &&& !join_ok(f, k, left, right)
    &&& match e {
        PipelineError::Schema(n) => {
            ||| (n@ == left && !f.names.contains(left))
            ||| (f.names.contains(left) && n@ == right && !k.names.contains(right))
        },
        PipelineError::JoinKeyType => {
            &&& f.names.contains(left)
            &&& k.names.contains(right)
            &&& f.column_named(left).kind() != k.column_named(right).kind()
        },
        PipelineError::DuplicateColumn(n) => {
            &&& f.names.contains(left)
            &&& k.names.contains(right)
            &&& f.column_named(left).kind() == k.column_named(right).kind()
            &&& without(k.names, index_of(k.names, right)).contains(n@)
            &&& f.names.contains(n@)
        },
        _ => false,
    }
}

/// Leaving one name out keeps the rest distinct.
pub proof fn lemma_distinct_without(s: Seq<Seq<char>>, i: int)
    requires
        distinct_names(s),
        0 <= i < s.len(),
    ensures
        distinct_names(without(s, i)),
{
    let w = without(s, i);
    assert forall|p: int, q: int| 0 <= p < q < w.len() implies w[p] != w[q] by {
        let sp = if p < i { p } else { p + 1 };
        let sq = if q < i { q } else { q + 1 };
        assert(w[p] == s[sp]);
        assert(w[q] == s[sq]);
    }
}

/// Left join of `fact` to `keys`: each row of `fact`, in order, once for
/// each row of `keys` whose `right` value equals its `left` value, in the
/// order of `keys`, or once with nulls when none does. Null keys match
/// nothing. The result holds the columns of `fact`, then those of `keys`
/// but `right`. A column of `keys` whose name is already a column of
/// `fact` is refused with `DuplicateColumn` rather than renamed, so that
/// every column of the result keeps the name it was asked for by.
pub fn left_join(fact: &Table, keys: &Table, left: &String, right: &String) -> (r: Result<Table, PipelineError>)
    requires
        fact.wf(),
        keys.wf(),
    ensures
        match r {
            Ok(t) => {
                &&& join_ok(fact@, keys@, left@, right@)
                &&& t.wf()
                &&& t@ == join_view(fact@, keys@, left@, right@)
            },
            Err(e) => join_error(fact@, keys@, left@, right@, e),
        },
{
    let li = match find_column(&fact.names, left) {
        Some(i) => i,
        None => {
            return Err(PipelineError::Schema(left.clone()));
        },
    };
    let ri = match find_column(&keys.names, right) {
        Some(i) => i,
        None => {
            return Err(PipelineError::Schema(right.clone()));
        },
    };
    proof {
        lemma_index_of_unique(fact@.names, li as int);
        lemma_index_of_unique(keys@.names, ri as int);
        assert(fact@.names[li as int] == left@);
        assert(keys@.names[ri as int] == right@);
    }
    if column_kind(&fact.columns[li]) != column_kind(&keys.columns[ri]) {
        return Err(PipelineError::JoinKeyType);
    }
    let ghost kn = keys@.names;
    let ghost fnames = fact@.names;
    let mut j: usize = 0;
    while j < keys.names.len()
        invariant
            keys.wf(),
            ri < keys.names.len(),
            kn == keys@.names,
            fnames == fact@.names,
            fact.wf(),
            li as int == index_of(fact@.names, left@),
            ri as int == index_of(keys@.names, right@),
            fact@.names.contains(left@),
            keys@.names.contains(right@),
            fact@.column_named(left@).kind() == keys@.column_named(right@).kind(),
            j <= keys.names.len(),
            forall|q: int| 0 <= q < j && q != ri ==> !fnames.contains(#[trigger] kn[q]),
        decreases keys.names.len() - j,
    {
        assert(kn[j as int] == keys.names@[j as int]@);
        if j != ri {
            match find_column(&fact.names, &keys.names[j]) {
                Some(i) => {
                    proof {
                        let m = if j < ri { j as int } else { j - 1 };
                        assert(without(kn, ri as int)[m] == kn[j as int]);
                        assert(fnames[i as int] == kn[j as int]);
                        assert(without(kn, ri as int).contains(kn[j as int]));
                        assert(fnames.contains(kn[j as int]));
                        assert(name_clash(fact@, keys@, ri as int));
                    }
                    return Err(PipelineError::DuplicateColumn(keys.names[j].clone()));
                },
                None => {},
            }
        }
        j = j + 1;
    }
    proof {
        if name_clash(fact@, keys@, ri as int) {
            let n = choose|n: Seq<char>| without(kn, ri as int).contains(n) && fnames.contains(n);
            let m = choose|m: int| 0 <= m < without(kn, ri as int).len() && without(kn, ri as int)[m] == n;
            let q = if m < ri { m } else { m + 1 };
            assert(kn[q] == n);
        }
    }
    let p = join_rows(&fact.columns[li], &keys.columns[ri]);
    let ghost target = join_view(fact@, keys@, left@, right@);
    let ghost pv = pairs_view(p@);
    assert(pv == join_pairs(fact@.columns[li as int], keys@.columns[ri as int], fact@.n_rows as int, keys@.n_rows as int));
    let mut names: Vec<String> = clone_names(&fact.names);
    let mut columns: Vec<Column> = Vec::new();
    let mut c: usize = 0;
    while c < fact.columns.len()
        invariant
            fact.wf(),
            li < fact.columns.len(),
            li as int == index_of(fact@.names, left@),
            ri as int == index_of(keys@.names, right@),
            pv == join_pairs(fact@.columns[li as int], keys@.columns[ri as int], fact@.n_rows as int, keys@.n_rows as int),
            pv == pairs_view(p@),
            target == join_view(fact@, keys@, left@, right@),
            target.columns.len() == fact.columns.len() + keys.columns.len() - 1,
            c <= fact.columns.len(),
            columns.len() == c,
            forall|k: int| 0 <= k < p.len() ==> (#[trigger] p@[k]).0 < fact@.columns[li as int].len(),
            forall|q: int| 0 <= q < c ==> (#[trigger] columns@[q])@ == target.columns[q],
        decreases fact.columns.len() - c,
    {
        assert(fact@.columns[c as int].len() == fact@.columns[li as int].len());
        assert(target.columns[c as int] == gather_left(fact@.columns[c as int], pv));
        columns.push(gather_left_column(&fact.columns[c], &p));
        c = c + 1;
    }
    let mut j: usize = 0;
    while j < keys.columns.len()
        invariant
            keys.wf(),
            fact.wf(),
            ri < keys.columns.len(),
            li as int == index_of(fact@.names, left@),
            ri as int == index_of(keys@.names, right@),
            pv == join_pairs(fact@.columns[li as int], keys@.columns[ri as int], fact@.n_rows as int, keys@.n_rows as int),
            pv == pairs_view(p@),
            target == join_view(fact@, keys@, left@, right@),
            j <= keys.columns.len(),
            columns.len() == fact.columns.len() + (if j <= ri { j as int } else { j - 1 }),
            names_view(names@) == fact@.names + without(keys@.names, ri as int).take(if j <= ri { j as int } else { j - 1 }),
            forall|k: int| 0 <= k < p.len() ==> match (#[trigger] p@[k]).1 {
                Some(m) => m < keys@.columns[ri as int].len(),
                None => true,
            },
            forall|q: int| 0 <= q < columns.len() ==> (#[trigger] columns@[q])@ == target.columns[q],
        decreases keys.columns.len() - j,
    {
        if j != ri {
            assert(keys@.columns[j as int].len() == keys@.columns[ri as int].len());
            let ghost before = names@;
            let ghost w = if j < ri { j as int } else { j - 1 };
            assert(without(keys@.names, ri as int)[w] == keys@.names[j as int]);
            assert(without_columns(keys@.columns, ri as int)[w] == keys@.columns[j as int]);
            assert(target.columns[fact.columns.len() + w] == gather_right(keys@.columns[j as int], pv));
            columns.push(gather_right_column(&keys.columns[j], &p));
            names.push(keys.names[j].clone());
            assert(without(keys@.names, ri as int).take(w + 1) =~= without(keys@.names, ri as int).take(w).push(keys@.names[j as int]));
            assert(names_view(names@) =~= names_view(before).push(keys@.names[j as int]));
        }
        j = j + 1;
    }
    assert(without(keys@.names, ri as int).take(keys.names.len() - 1) =~= without(keys@.names, ri as int));
    let t = Table { names, columns, n_rows: p.len() };
    proof {
        assert(t@.columns =~= target.columns);
        lemma_distinct_without(keys@.names, ri as int);
        assert forall|a: int, b: int| 0 <= a < b < t@.names.len() implies t@.names[a] != t@.names[b] by {
            let fl = fact@.names.len() as int;
            if b >= fl && a < fl {
                let w = without(keys@.names, ri as int);
                assert(w.contains(t@.names[b]));
                assert(fact@.names.contains(t@.names[a]));
            }
        }
        assert forall|q: int| 0 <= q < t@.columns.len() implies #[trigger] t@.columns[q].len() == t@.n_rows by {
            assert(t@.columns[q] == target.columns[q]);
        }
    }
    Ok(t)
}

} // verus!
