use vstd::prelude::*;

verus! {

/// Why a pipeline stage refused its input.
#[derive(Debug)]
pub enum PipelineError {
    /// No key table candidate, or no fact shard at all.
    NotFound,
    /// A requested column is absent from a table.
    Schema(String),
    /// A table does not share the schema of the others.
    SchemaMismatch,
    /// The two join columns are of different kinds.
    JoinKeyType,
    /// The group column is not a text column.
    GroupKeyType,
    /// A column name would occur twice in one table.
    DuplicateColumn(String),
    /// Columns handed to a table constructor differ in length or count.
    LengthMismatch,
    /// An exact mean does not fit in 128-bit arithmetic.
    Overflow,
}

/// The two kinds of column a table can hold.
#[derive(Debug, Clone, Copy, PartialEq, Eq, Structural)]
pub enum ColumnKind {
    Text,
    Numeric,
}

/// One column: a contiguous run of cells of a single kind; `None` is null.
#[derive(Debug)]
pub enum Column {
    Text(Vec<Option<String>>),
    Numeric(Vec<Option<i64>>),
}

/// Mathematical view of a column.
pub enum ColumnView {
    Text(Seq<Option<String>>),
    Numeric(Seq<Option<i64>>),
}

impl ColumnView {
    /// Number of cells.
    pub open spec fn len(self) -> nat {
        match self {
            ColumnView::Text(v) => v.len(),
            ColumnView::Numeric(v) => v.len(),
        }
    }

    /// Which kind of column this is.
    pub open spec fn kind(self) -> ColumnKind {
        match self {
            ColumnView::Text(_) => ColumnKind::Text,
            ColumnView::Numeric(_) => ColumnKind::Numeric,
        }
    }
}

impl View for Column {
    type V = ColumnView;

    open spec fn view(&self) -> ColumnView {
        match self {
            Column::Text(v) => ColumnView::Text(v@),
            Column::Numeric(v) => ColumnView::Numeric(v@),
        }
    }
}

/// A columnar relation: named columns of equal length.
#[derive(Debug)]
pub struct Table {
    pub names: Vec<String>,
    pub columns: Vec<Column>,
    pub n_rows: usize,
}

/// Mathematical view of a table.
pub struct TableView {
    pub names: Seq<Seq<char>>,
    pub columns: Seq<ColumnView>,
    pub n_rows: nat,
}

/// The names as character sequences.
pub open spec fn names_view(v: Seq<String>) -> Seq<Seq<char>> {
    v.map_values(|s: String| s@)
}

/// No name occurs twice.
pub open spec fn distinct_names(s: Seq<Seq<char>>) -> bool {
    forall|i: int, j: int| 0 <= i < j < s.len() ==> s[i] != s[j]
}

/// Position of `n` in a sequence of distinct names.
pub open spec fn index_of(s: Seq<Seq<char>>, n: Seq<char>) -> int {
    choose|i: int| 0 <= i < s.len() && s[i] == n
}

impl TableView {
    /// Every column has `n_rows` cells and column names are unique.
    pub open spec fn wf(self) -> bool {
        &&& self.names.len() == self.columns.len()
        &&& forall|i: int| 0 <= i < self.columns.len() ==> #[trigger] self.columns[i].len() == self.n_rows
        &&& distinct_names(self.names)
    }

    /// The kind of each column, in order.
    pub open spec fn kinds(self) -> Seq<ColumnKind> {
        self.columns.map_values(|c: ColumnView| c.kind())
    }

    /// The column named `n`.
    pub open spec fn column_named(self, n: Seq<char>) -> ColumnView {
        self.columns[index_of(self.names, n)]
    }

    /// The table restricted to the columns `req`, in that order.
    pub open spec fn project(self, req: Seq<Seq<char>>) -> TableView {
        TableView {
            names: req,
            columns: req.map_values(|n: Seq<char>| self.column_named(n)),
            n_rows: self.n_rows,
        }
    }
}

impl View for Table {
    type V = TableView;

    open spec fn view(&self) -> TableView {
        TableView {
            names: names_view(self.names@),
            columns: self.columns@.map_values(|c: Column| c@),
            n_rows: self.n_rows as nat,
        }
    }
}

/// A copy of a text cell.
pub fn clone_text_cell(c: &Option<String>) -> (r: Option<String>)
    ensures
        r == *c,
{
    match c {
        Some(s) => Some(s.clone()),
        None => None,
    }
}

/// A copy of a column.
pub fn clone_column(c: &Column) -> (r: Column)
    ensures
        r@ == c@,
{
    match c {
        Column::Text(v) => {
            let mut out: Vec<Option<String>> = Vec::new();
            let mut i: usize = 0;
            while i < v.len()
                invariant
                    i <= v.len(),
                    out@ == v@.take(i as int),
                decreases v.len() - i,
            {
                out.push(clone_text_cell(&v[i]));
                i = i + 1;
                assert(out@ =~= v@.take(i as int));
            }
            assert(out@ =~= v@);
            Column::Text(out)
        },
        Column::Numeric(v) => {
            let mut out: Vec<Option<i64>> = Vec::new();
            let mut i: usize = 0;
            while i < v.len()
                invariant
                    i <= v.len(),
                    out@ == v@.take(i as int),
                decreases v.len() - i,
            {
                out.push(v[i]);
                i = i + 1;
                assert(out@ =~= v@.take(i as int));
            }
            assert(out@ =~= v@);
            Column::Numeric(out)
        },
    }
}

/// Number of cells of `c`.
pub fn column_len(c: &Column) -> (r: usize)
    ensures
        r == c@.len(),
{
    match c {
        Column::Text(v) => v.len(),
        Column::Numeric(v) => v.len(),
    }
}

/// The kind of `c`.
pub fn column_kind(c: &Column) -> (r: ColumnKind)
    ensures
        r == c@.kind(),
{
    match c {
        Column::Text(_) => ColumnKind::Text,
        Column::Numeric(_) => ColumnKind::Numeric,
    }
}

/// Position of `name` among `names`, if present.
pub fn find_column(names: &Vec<String>, name: &String) -> (r: Option<usize>)
    ensures
        match r {
            Some(i) => i < names.len() && names@[i as int]@ == name@,
            None => !names_view(names@).contains(name@),
        },
{
    let mut i: usize = 0;
    while i < names.len()
        invariant
            i <= names.len(),
            forall|k: int| 0 <= k < i ==> names@[k]@ != name@,
        decreases names.len() - i,
    {
        if names[i] == *name {
            return Some(i);
        }
        i = i + 1;
    }
    proof {
        if names_view(names@).contains(name@) {
            let k = choose|k: int| 0 <= k < names_view(names@).len() && names_view(names@)[k] == name@;
            assert(names@[k]@ == name@);
        }
    }
    None
}

/// A copy of a list of names.
pub fn clone_names(names: &Vec<String>) -> (r: Vec<String>)
    ensures
        names_view(r@) == names_view(names@),
        r@ == names@,
{
    let mut out: Vec<String> = Vec::new();
    let mut i: usize = 0;
    while i < names.len()
        invariant
            i <= names.len(),
            out@ == names@.take(i as int),
        decreases names.len() - i,
    {
        out.push(names[i].clone());
        i = i + 1;
        assert(out@ =~= names@.take(i as int));
    }
    assert(out@ =~= names@);
    out
}

/// Among distinct names, `index_of` finds the one position.
pub proof fn lemma_index_of_unique(s: Seq<Seq<char>>, i: int)
    requires
        distinct_names(s),
        0 <= i < s.len(),
    ensures
        index_of(s, s[i]) == i,
{
    let j = index_of(s, s[i]);
    assert(0 <= j < s.len() && s[j] == s[i]);
}

impl Table {
    /// Every column has `n_rows` cells and column names are unique.
    pub open spec fn wf(&self) -> bool {
        self@.wf()
    }

    /// A table of the given columns; fails unless they are of one length
    /// and carry distinct names.
    pub fn new(names: Vec<String>, columns: Vec<Column>) -> (r: Result<Table, PipelineError>)
        ensures
            match r {
                Ok(t) => {
                    &&& t.wf()
                    &&& t.names@ == names@
                    &&& t@.columns == columns@.map_values(|c: Column| c@)
                    &&& (columns.len() > 0 ==> t.n_rows == columns@[0]@.len())
                    &&& (columns.len() == 0 ==> t.n_rows == 0)
                },
                Err(e) => match e {
                    PipelineError::LengthMismatch => {
                        names.len() != columns.len() || exists|i: int|
                            0 <= i < columns.len() && #[trigger] columns@[i]@.len() != columns@[0]@.len()
                    },
                    PipelineError::DuplicateColumn(n) => {
                        &&& names.len() == columns.len()
                        &&& !distinct_names(names_view(names@))
                    },
                    _ => false,
                },
            },
    {
        if names.len() != columns.len() {
            return Err(PipelineError::LengthMismatch);
        }
        let n_rows: usize = if columns.len() == 0 { 0 } else { column_len(&columns[0]) };
        let mut i: usize = 0;
        while i < columns.len()
            invariant
                i <= columns.len(),
                columns.len() > 0 ==> n_rows == columns@[0]@.len(),
                forall|k: int| 0 <= k < i ==> #[trigger] columns@[k]@.len() == n_rows,
            decreases columns.len() - i,
        {
            if column_len(&columns[i]) != n_rows {
                return Err(PipelineError::LengthMismatch);
            }
            i = i + 1;
        }
        let mut a: usize = 0;
        while a < names.len()
            invariant
                a <= names.len(),
                names.len() == columns.len(),
                forall|p: int, q: int| 0 <= p < a && p < q < names.len() ==> names@[p]@ != names@[q]@,
            decreases names.len() - a,
        {
            let mut b: usize = a + 1;
            while b < names.len()
                invariant
                    a < b <= names.len(),
                    names.len() == columns.len(),
                    forall|p: int, q: int| 0 <= p < a && p < q < names.len() ==> names@[p]@ != names@[q]@,
                    forall|q: int| a < q < b ==> names@[a as int]@ != names@[q]@,
                decreases names.len() - b,
            {
                if names[a] == names[b] {
                    proof {
                        assert(names_view(names@)[a as int] == names_view(names@)[b as int]);
                        assert(!distinct_names(names_view(names@)));
                    }
                    return Err(PipelineError::DuplicateColumn(names[a].clone()));
                }
                b = b + 1;
            }
            a = a + 1;
        }
        let t = Table { names, columns, n_rows };
        proof {
            assert forall|k: int| 0 <= k < t@.columns.len() implies #[trigger] t@.columns[k].len() == t@.n_rows by {
                assert(t@.columns[k] == columns@[k]@);
            }
        }
        Ok(t)
    }

    /// An empty table with the given column names and kinds.
    pub fn empty(names: &Vec<String>, kinds: &Vec<ColumnKind>) -> (r: Table)
        requires
            names.len() == kinds.len(),
            distinct_names(names_view(names@)),
        ensures
            r.wf(),
            r@.names == names_view(names@),
            r@.kinds() == kinds@,
            r.n_rows == 0,
    {
        let mut columns: Vec<Column> = Vec::new();
        let mut i: usize = 0;
        while i < kinds.len()
            invariant
                i <= kinds.len(),
                columns.len() == i,
                forall|k: int| 0 <= k < i ==> (#[trigger] columns@[k])@.len() == 0 && columns@[k]@.kind() == kinds@[k],
            decreases kinds.len() - i,
        {
            let c = match kinds[i] {
                ColumnKind::Text => Column::Text(Vec::new()),
                ColumnKind::Numeric => Column::Numeric(Vec::new()),
            };
            columns.push(c);
            i = i + 1;
        }
        let t = Table { names: clone_names(names), columns, n_rows: 0 };
        proof {
            assert forall|k: int| 0 <= k < t@.columns.len() implies #[trigger] t@.columns[k].len() == t@.n_rows by {
                assert(t@.columns[k] == columns@[k]@);
            }
            assert(t@.kinds() =~= kinds@);
        }
        t
    }

    /// Number of rows.
    pub fn num_rows(&self) -> (r: usize)
        ensures
            r == self.n_rows,
    {
        self.n_rows
    }

    /// The table restricted to the columns `req`, in the order given; a
    /// requested column that is absent is an error naming it.
    pub fn project(&self, req: &Vec<String>) -> (r: Result<Table, PipelineError>)
        requires
            self.wf(),
            distinct_names(names_view(req@)),
        ensures
            match r {
                Ok(t) => {
                    &&& t.wf()
                    &&& t@ == self@.project(names_view(req@))
                    &&& forall|k: int| 0 <= k < req.len() ==> self@.names.contains(#[trigger] req@[k]@)
                },
                Err(e) => {
                    &&& e is Schema
                    &&& !self@.names.contains(e->Schema_0@)
                    &&& names_view(req@).contains(e->Schema_0@)
                },
            },
    {
        let mut columns: Vec<Column> = Vec::new();
        let mut i: usize = 0;
        while i < req.len()
            invariant
                self.wf(),
                i <= req.len(),
                columns.len() == i,
                forall|k: int| 0 <= k < i ==> self@.names.contains(#[trigger] req@[k]@),
                forall|k: int| 0 <= k < i ==> (#[trigger] columns@[k])@ == self@.column_named(req@[k]@),
            decreases req.len() - i,
        {
            match find_column(&self.names, &req[i]) {
                Some(j) => {
                    proof {
                        lemma_index_of_unique(self@.names, j as int);
                        assert(self@.names[j as int] == req@[i as int]@);
                    }
                    columns.push(clone_column(&self.columns[j]));
                },
                None => {
                    proof {
                        assert(names_view(req@)[i as int] == req@[i as int]@);
                    }
                    return Err(PipelineError::Schema(req[i].clone()));
                },
            }
            i = i + 1;
        }
        let t = Table { names: clone_names(req), columns, n_rows: self.n_rows };
        proof {
            let p = self@.project(names_view(req@));
            assert forall|k: int| 0 <= k < t@.columns.len() implies #[trigger] t@.columns[k].len() == t@.n_rows by {
                assert(t@.columns[k] == columns@[k]@);
                let j = index_of(self@.names, req@[k]@);
                assert(0 <= j < self@.names.len() && self@.names[j] == req@[k]@);
                assert(self@.columns[j].len() == self@.n_rows);
            }
            assert(t@.columns =~= p.columns);
        }
        Ok(t)
    }
}

} // verus!
