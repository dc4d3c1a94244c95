use vstd::prelude::*;
use crate::value::{CellView, Value, cell_view, copy_value};

verus! {

/// Errors that end a query.
#[derive(Clone, Copy, Debug, PartialEq, Eq, Structural)]
pub enum QueryError {
    /// An expression names a column that the table does not have.
    UnknownColumn,
    /// Two columns of one table would share a name.
    DuplicateColumn,
    /// The columns of a table would differ in length.
    LengthMismatch,
    /// An operator got a value of a type that it does not take.
    TypeMismatch,
    /// A timestamp text is malformed.
    ParseError,
    /// A bucket width is not positive.
    InvalidWidth,
    /// A table would have more rows than a count can hold.
    TooManyRows,
    /// A document lacks a member that it must have, or has it in another shape.
    MissingField,
}

/// A named sequence of cells.
#[derive(Debug, PartialEq)]
pub struct Column {
    pub name: String,
    pub values: Vec<Value>,
}

/// What the contracts see of a column.
pub struct ColView {
    pub name: Seq<char>,
    pub cells: Seq<CellView>,
}

impl View for Column {
    type V = ColView;

    open spec fn view(&self) -> ColView {
        ColView { name: self.name@, cells: self.values@.map_values(|v: Value| cell_view(v)) }
    }
}

/// Columns of equal length with distinct names, in order.
#[derive(Debug, PartialEq)]
pub struct Table {
    pub columns: Vec<Column>,
}

impl View for Table {
    type V = Seq<ColView>;

    open spec fn view(&self) -> Seq<ColView> {
        self.columns@.map_values(|c: Column| c@)
    }
}

/// Number of rows: the length of the first column, zero without columns.
pub open spec fn row_count(t: Seq<ColView>) -> int {
    if t.len() == 0 {
        0
    } else {
        t[0].cells.len() as int
    }
}

pub open spec fn equal_lengths(t: Seq<ColView>) -> bool {
    forall|i: int| 0 <= i < t.len() ==> #[trigger] t[i].cells.len() == row_count(t)
}

pub open spec fn distinct_names(t: Seq<ColView>) -> bool {
    forall|i: int, j: int| 0 <= i < j < t.len() ==> #[trigger] t[i].name != #[trigger] t[j].name
}

/// The row count fits the integers that cells hold.
pub open spec fn rows_fit(t: Seq<ColView>) -> bool {
    row_count(t) <= i64::MAX
}

/// The table invariant: every column has the same length, names are unique, and
/// the row count fits an integer cell.
pub open spec fn table_wf(t: Seq<ColView>) -> bool {
    equal_lengths(t) && distinct_names(t) && rows_fit(t)
}

pub open spec fn has_column(t: Seq<ColView>, name: Seq<char>) -> bool {
    exists|i: int| 0 <= i < t.len() && #[trigger] t[i].name == name
}

/// Position of the column called `name` (meaningful where `has_column` holds).
pub open spec fn column_index(t: Seq<ColView>, name: Seq<char>) -> int {
    choose|i: int| 0 <= i < t.len() && #[trigger] t[i].name == name
}

/// The cells of the column called `name`.
pub open spec fn column_cells(t: Seq<ColView>, name: Seq<char>) -> Seq<CellView> {
    t[column_index(t, name)].cells
}

/// Position of the column called `name`.
pub fn find_column(t: &Table, name: &String) -> (r: Option<usize>)
    requires
        distinct_names(t@),
    ensures
        r is None <==> !has_column(t@, name@),
        r is Some ==> r->0 < t@.len() && r->0 as int == column_index(t@, name@),
{
    let mut i: usize = 0;
    while i < t.columns.len()
        invariant
            i <= t.columns@.len(),
            distinct_names(t@),
            forall|k: int| 0 <= k < i ==> t@[k].name != name@,
        decreases t.columns.len() - i,
    {
        if t.columns[i].name == *name {
            proof {
                assert(t@[i as int].name == name@);
                assert(has_column(t@, name@));
                let c = column_index(t@, name@);
                if c < i {
                    assert(t@[c].name != t@[i as int].name);
                } else if c > i {
                    assert(t@[i as int].name != t@[c].name);
                }
            }
            return Some(i);
        }
        i = i + 1;
    }
    None
}

/// A copy of the cells of a column.
pub fn copy_values(vals: &Vec<Value>) -> (r: Vec<Value>)
    ensures
        r@.map_values(|v: Value| cell_view(v)) == vals@.map_values(|v: Value| cell_view(v)),
{
    let mut out: Vec<Value> = Vec::new();
    let mut i: usize = 0;
    while i < vals.len()
        invariant
            i <= vals@.len(),
            out@.len() == i,
            forall|k: int| 0 <= k < i ==> cell_view(#[trigger] out@[k]) == cell_view(vals@[k]),
        decreases vals.len() - i,
    {
        out.push(copy_value(&vals[i]));
        i = i + 1;
    }
    assert(out@.map_values(|v: Value| cell_view(v)) =~= vals@.map_values(|v: Value| cell_view(v)));
    out
}

/// A copy of a column.
pub fn copy_column(c: &Column) -> (r: Column)
    ensures
        r@ == c@,
{
    Column { name: c.name.clone(), values: copy_values(&c.values) }
}

impl Table {
    /// A table of the given columns; fails when their lengths differ, when they are
    /// too long, or when two share a name.
    pub fn new(columns: Vec<Column>) -> (r: Result<Table, QueryError>)
        ensures
            r is Ok <==> table_wf(columns@.map_values(|c: Column| c@)),
            r is Ok ==> r->Ok_0@ == columns@.map_values(|c: Column| c@),
            r is Err ==> (r->Err_0 == QueryError::LengthMismatch <==> !equal_lengths(
                columns@.map_values(|c: Column| c@),
            )),
            r is Err ==> (r->Err_0 == QueryError::TooManyRows <==> equal_lengths(
                columns@.map_values(|c: Column| c@),
            ) && !rows_fit(columns@.map_values(|c: Column| c@))),
            r is Err ==> (r->Err_0 == QueryError::DuplicateColumn <==> equal_lengths(
                columns@.map_values(|c: Column| c@),
            ) && rows_fit(columns@.map_values(|c: Column| c@))),
    {
        let ghost v = columns@.map_values(|c: Column| c@);
        let n = columns.len();
        let mut i: usize = 0;
        while i < n
            invariant
                n == columns@.len(),
                v == columns@.map_values(|c: Column| c@),
                i <= n,
                forall|k: int| 0 <= k < i ==> #[trigger] v[k].cells.len() == row_count(v),
            decreases n - i,
        {
            if columns[i].values.len() != columns[0].values.len() {
                proof {
                    assert(v[i as int].cells.len() != row_count(v));
                }
                return Err(QueryError::LengthMismatch);
            }
            i = i + 1;
        }
        if n > 0 && columns[0].values.len() as u64 > 0x7fff_ffff_ffff_ffffu64 {
            proof {
                assert(v[0].cells.len() == columns@[0].values@.len());
            }
            return Err(QueryError::TooManyRows);
        }
        let mut a: usize = 0;
        while a < n
            invariant
                n == columns@.len(),
                v == columns@.map_values(|c: Column| c@),
                equal_lengths(v),
                rows_fit(v),
                a <= n,
                forall|x: int, y: int| 0 <= x < y < n && x < a ==> #[trigger] v[x].name != #[trigger] v[y].name,
            decreases n - a,
        {
            let mut b: usize = a + 1;
            while b < n
                invariant
                    n == columns@.len(),
                    v == columns@.map_values(|c: Column| c@),
                    equal_lengths(v),
                    rows_fit(v),
                    a < n,
                    a + 1 <= b <= n,
                    forall|x: int, y: int| 0 <= x < y < n && x < a ==> #[trigger] v[x].name != #[trigger] v[y].name,
                    forall|y: int| a < y < b ==> v[a as int].name != #[trigger] v[y].name,
                decreases n - b,
            {
                if columns[a].name == columns[b].name {
                    proof {
                        assert(v[a as int].name == v[b as int].name);
                    }
                    return Err(QueryError::DuplicateColumn);
                }
                b = b + 1;
            }
            a = a + 1;
        }
        Ok(Table { columns })
    }

    /// Number of rows.
    pub fn height(&self) -> (r: usize)
        requires
            table_wf(self@),
        ensures
            r == row_count(self@),
    {
        if self.columns.len() == 0 {
            0
        } else {
            self.columns[0].values.len()
        }
    }
}

} // verus!
