use vstd::prelude::*;
use crate::number::{RATIO_LIMIT, lemma_ratio_products, ratio_of, ratio_value};
use crate::flatten::{flat_table, flatten_error, unnest_df};
use crate::expr::{Expr, check_expr, eval_column, eval_rows, expr_error};
use crate::order::{
    all_numeric, all_numeric_values, all_text_values, is_numeric, lemma_sort_order_range,
    row_keys, sort_order, sort_rows, sortable,
};
use crate::table::{
    ColView, Column, QueryError, Table, column_index, copy_column, copy_values, find_column,
    has_column, row_count, table_wf,
};
use crate::value::{CellView, Value, cell_view, copy_value, is_scalar, is_scalar_value, same_scalar};

verus! {

/// One aggregate of a group-by.
#[derive(Debug)]
pub enum Agg {
    /// The number of rows of the group, into a column of the given name.
    Count(String),
    /// The exact mean of the group's numbers in the first named column, nulls left
    /// out, into a column of the second name.
    Mean(String, String),
}

/// One logical step of a query.
#[derive(Debug)]
pub enum Step {
    /// Adds the column `name` holding the values of the expression, or replaces the
    /// column of that name.
    WithColumn(String, Expr),
    /// Keeps the rows where the predicate is true, in order; null counts as false.
    Filter(Expr),
    /// Keeps the first `n` rows.
    Limit(usize),
    /// Keeps the named columns, in the order given.
    Select(Vec<String>),
    /// Drops the rows that hold a null in any of the named columns (in any column when
    /// none is named), keeping the order of the others.
    DropNulls(Vec<String>),
    /// Groups by the named key column, in order of first appearance, and counts each
    /// group's rows into a column of the second name.
    GroupCount(String, String),
    /// Groups by the first named column, in order of first appearance, and puts the
    /// mean of each group's numbers in the second named column into a column of
    /// the third name; nulls are left out, and a group without values gets null.
    GroupMean(String, String, String),
    /// Groups by the named key column, in order of first appearance, with one column
    /// per aggregate after the keys.
    GroupBy(String, Vec<Agg>),
    /// Sorts the rows stably by the named columns, each of integers or of texts, nulls
    /// first; a later column breaks ties of the earlier ones, and each is descending
    /// when its flag is set.
    Sort(Vec<(String, bool)>),
}

/// `t` with the column `name` set to `cells`: replaced in place, or appended.
pub open spec fn with_column_spec(t: Seq<ColView>, name: Seq<char>, cells: Seq<CellView>) -> Seq<
    ColView,
> {
    let c = ColView { name, cells };
    if has_column(t, name) {
        t.update(column_index(t, name), c)
    } else {
        t.push(c)
    }
}

/// Every predicate value is a boolean or null.
pub open spec fn is_predicate(c: CellView) -> bool {
    c is Bool || c is Null
}

pub open spec fn mask_ok(mask: Seq<CellView>) -> bool {
    forall|i: int| 0 <= i < mask.len() ==> is_predicate(#[trigger] mask[i])
}

/// The cells among the first `k` whose predicate value is true, in order.
pub open spec fn keep(cells: Seq<CellView>, mask: Seq<CellView>, k: int) -> Seq<CellView>
    decreases k,
{
    if k <= 0 {
        seq![]
    } else if mask[k - 1] == CellView::Bool(true) {
        keep(cells, mask, k - 1).push(cells[k - 1])
    } else {
        keep(cells, mask, k - 1)
    }
}

/// Number of true predicate values among the first `k`.
pub open spec fn kept_count(mask: Seq<CellView>, k: int) -> int
    decreases k,
{
    if k <= 0 {
        0
    } else if mask[k - 1] == CellView::Bool(true) {
        kept_count(mask, k - 1) + 1
    } else {
        kept_count(mask, k - 1)
    }
}

pub open spec fn filter_spec(t: Seq<ColView>, mask: Seq<CellView>) -> Seq<ColView> {
    t.map_values(|c: ColView| ColView { name: c.name, cells: keep(c.cells, mask, mask.len() as int) })
}

pub open spec fn limit_spec(t: Seq<ColView>, n: int) -> Seq<ColView> {
    t.map_values(
        |c: ColView|
            ColView {
                name: c.name,
                cells: if n < c.cells.len() {
                    c.cells.take(n)
                } else {
                    c.cells
                },
            },
    )
}

/// The distinct values among the first `k` cells, in order of first appearance.
pub open spec fn distinct_upto(cells: Seq<CellView>, k: int) -> Seq<CellView>
    decreases k,
{
    if k <= 0 {
        seq![]
    } else if distinct_upto(cells, k - 1).contains(cells[k - 1]) {
        distinct_upto(cells, k - 1)
    } else {
        distinct_upto(cells, k - 1).push(cells[k - 1])
    }
}

/// How many of the first `k` cells equal `x`.
pub open spec fn count_upto(cells: Seq<CellView>, x: CellView, k: int) -> int
    decreases k,
{
    if k <= 0 {
        0
    } else if cells[k - 1] == x {
        count_upto(cells, x, k - 1) + 1
    } else {
        count_upto(cells, x, k - 1)
    }
}

pub open spec fn all_scalar(cells: Seq<CellView>) -> bool {
    forall|i: int| 0 <= i < cells.len() ==> is_scalar(#[trigger] cells[i])
}

/// The two columns of a group count: the distinct keys, and how often each occurs.
pub open spec fn group_count_spec(keys: Seq<CellView>, key: Seq<char>, out: Seq<char>) -> Seq<
    ColView,
> {
    let d = distinct_upto(keys, keys.len() as int);
    seq![
        ColView { name: key, cells: d },
        ColView {
            name: out,
            cells: d.map_values(|x: CellView| CellView::Int(count_upto(keys, x, keys.len() as int))),
        },
    ]
}

/// Every column of `t` with its cells taken in the order `perm`.
pub open spec fn reorder(t: Seq<ColView>, perm: Seq<int>) -> Seq<ColView> {
    t.map_values(|c: ColView| ColView { name: c.name, cells: perm.map_values(|p: int| c.cells[p]) })
}

/// A fraction whose parts are within the range that exact number operations take.
pub open spec fn ratio_fits(s: (int, int)) -> bool {
    -RATIO_LIMIT - 1 <= s.0 <= RATIO_LIMIT && 0 < s.1 <= RATIO_LIMIT
}

/// The exact sum of two fractions: numerators add over an equal denominator, otherwise
/// the fractions are brought to the product of the denominators.
pub open spec fn add_ratio(s: (int, int), a: (int, int)) -> (int, int) {
    if s.1 == a.1 {
        (s.0 + a.0, s.1)
    } else {
        (s.0 * a.1 + a.0 * s.1, s.1 * a.1)
    }
}

/// Sum of the numbers of the first `k` rows whose key is `x`, as a fraction; none once
/// a partial sum leaves the range that `ratio_fits` allows.
pub open spec fn sum_upto(keys: Seq<CellView>, vals: Seq<CellView>, x: CellView, k: int) -> Option<
    (int, int),
>
    decreases k,
{
    if k <= 0 {
        Some((0, 1))
    } else {
        match sum_upto(keys, vals, x, k - 1) {
            None => None,
            Some(s) => if keys[k - 1] == x && ratio_of(vals[k - 1]) is Some {
                let t = add_ratio(s, ratio_of(vals[k - 1])->0);
                if ratio_fits(t) {
                    Some(t)
                } else {
                    None
                }
            } else {
                Some(s)
            },
        }
    }
}

/// Number of the first `k` rows whose key is `x` and whose value is a number.
pub open spec fn valued_upto(keys: Seq<CellView>, vals: Seq<CellView>, x: CellView, k: int) -> int
    decreases k,
{
    if k <= 0 {
        0
    } else if keys[k - 1] == x && ratio_of(vals[k - 1]) is Some {
        valued_upto(keys, vals, x, k - 1) + 1
    } else {
        valued_upto(keys, vals, x, k - 1)
    }
}

/// The mean of the group with key `x` as an exact fraction; null without values, or
/// when the sum leaves the range of exact number operations.
pub open spec fn mean_cell(keys: Seq<CellView>, vals: Seq<CellView>, x: CellView) -> CellView {
    let n = valued_upto(keys, vals, x, keys.len() as int);
    match sum_upto(keys, vals, x, keys.len() as int) {
        Some(s) => if n == 0 {
            CellView::Null
        } else {
            CellView::Frac(s.0, s.1 * n)
        },
        None => CellView::Null,
    }
}

pub open spec fn group_mean_spec(
    keys: Seq<CellView>,
    vals: Seq<CellView>,
    key: Seq<char>,
    out: Seq<char>,
) -> Seq<ColView> {
    let d = distinct_upto(keys, keys.len() as int);
    seq![
        ColView { name: key, cells: d },
        ColView { name: out, cells: d.map_values(|x: CellView| mean_cell(keys, vals, x)) },
    ]
}

pub open spec fn name_views(names: Seq<String>) -> Seq<Seq<char>> {
    names.map_values(|n: String| n@)
}

pub open spec fn distinct_seq(names: Seq<Seq<char>>) -> bool {
    forall|a: int, b: int| 0 <= a < b < names.len() ==> #[trigger] names[a] != #[trigger] names[b]
}

/// The columns called `names`, in that order.
pub open spec fn select_spec(t: Seq<ColView>, names: Seq<Seq<char>>) -> Seq<ColView> {
    names.map_values(|n: Seq<char>| t[column_index(t, n)])
}

pub open spec fn sort_names(keys: Seq<(String, bool)>) -> Seq<Seq<char>> {
    keys.map_values(|k: (String, bool)| k.0@)
}

pub open spec fn sort_dirs(keys: Seq<(String, bool)>) -> Seq<bool> {
    keys.map_values(|k: (String, bool)| k.1)
}

/// Positions of the columns called `names`.
pub open spec fn sort_positions(t: Seq<ColView>, names: Seq<Seq<char>>) -> Seq<usize> {
    names.map_values(|n: Seq<char>| column_index(t, n) as usize)
}

/// The columns that a null check looks at: the named ones, or all when none is named.
pub open spec fn checked_columns(t: Seq<ColView>, names: Seq<Seq<char>>) -> Seq<int> {
    if names.len() == 0 {
        Seq::new(t.len(), |i: int| i)
    } else {
        names.map_values(|n: Seq<char>| column_index(t, n))
    }
}

/// Row `r` holds no null in the columns `cols`.
pub open spec fn no_null_at(t: Seq<ColView>, cols: Seq<int>, r: int) -> bool {
    forall|l: int| 0 <= l < cols.len() ==> !(t[#[trigger] cols[l]].cells[r] is Null)
}

/// For each row, whether it holds no null in the columns `cols`.
pub open spec fn no_null_mask(t: Seq<ColView>, cols: Seq<int>) -> Seq<CellView> {
    Seq::new(row_count(t) as nat, |r: int| CellView::Bool(no_null_at(t, cols, r)))
}

pub open spec fn agg_out(a: Agg) -> Seq<char> {
    match a {
        Agg::Count(o) => o@,
        Agg::Mean(_, o) => o@,
    }
}

/// The output column of one aggregate, over the groups of `keys`.
pub open spec fn agg_column(t: Seq<ColView>, keys: Seq<CellView>, a: Agg) -> ColView {
    let d = distinct_upto(keys, keys.len() as int);
    match a {
        Agg::Count(o) => ColView {
            name: o@,
            cells: d.map_values(|x: CellView| CellView::Int(count_upto(keys, x, keys.len() as int))),
        },
        Agg::Mean(v, o) => ColView {
            name: o@,
            cells: d.map_values(
                |x: CellView| mean_cell(keys, t[column_index(t, v@)].cells, x),
            ),
        },
    }
}

/// The names of a group-by's output columns.
pub open spec fn group_by_names(key: Seq<char>, aggs: Seq<Agg>) -> Seq<Seq<char>> {
    seq![key] + aggs.map_values(|a: Agg| agg_out(a))
}

/// Every mean of `aggs` reads a column that `t` has.
pub open spec fn agg_inputs_known(t: Seq<ColView>, aggs: Seq<Agg>) -> bool {
    forall|i: int|
        0 <= i < aggs.len() ==> (#[trigger] aggs[i] is Mean ==> has_column(t, aggs[i]->Mean_0@))
}

/// Every mean of `aggs` reads integers or nulls.
pub open spec fn agg_inputs_numeric(t: Seq<ColView>, aggs: Seq<Agg>) -> bool {
    forall|i: int|
        0 <= i < aggs.len() ==> (#[trigger] aggs[i] is Mean ==> all_numeric(
            t[column_index(t, aggs[i]->Mean_0@)].cells,
        ))
}

/// What one step makes of a table.
pub open spec fn step_spec(t: Seq<ColView>, s: Step) -> Result<Seq<ColView>, QueryError> {
    match s {
        Step::WithColumn(name, e) => match expr_error(t, e) {
            Some(x) => Err(x),
            None => match eval_rows(t, e, row_count(t)) {
                Err(x) => Err(x),
                Ok(cells) => Ok(with_column_spec(t, name@, cells)),
            },
        },
        Step::Filter(e) => match expr_error(t, e) {
            Some(x) => Err(x),
            None => match eval_rows(t, e, row_count(t)) {
                Err(x) => Err(x),
                Ok(mask) => if mask_ok(mask) {
                    Ok(filter_spec(t, mask))
                } else {
                    Err(QueryError::TypeMismatch)
                },
            },
        },
        Step::Limit(n) => Ok(limit_spec(t, n as int)),
        Step::DropNulls(names) => if !(forall|i: int|
            0 <= i < names@.len() ==> has_column(t, #[trigger] name_views(names@)[i])) {
            Err(QueryError::UnknownColumn)
        } else {
            Ok(filter_spec(t, no_null_mask(t, checked_columns(t, name_views(names@)))))
        },
        Step::Select(names) => if !(forall|i: int|
            0 <= i < names@.len() ==> has_column(t, #[trigger] name_views(names@)[i])) {
            Err(QueryError::UnknownColumn)
        } else if !distinct_seq(name_views(names@)) {
            Err(QueryError::DuplicateColumn)
        } else {
            Ok(select_spec(t, name_views(names@)))
        },
        Step::GroupCount(key, out) => if !has_column(t, key@) {
            Err(QueryError::UnknownColumn)
        } else if out@ == key@ {
            Err(QueryError::DuplicateColumn)
        } else if !all_scalar(t[column_index(t, key@)].cells) {
            Err(QueryError::TypeMismatch)
        } else {
            Ok(group_count_spec(t[column_index(t, key@)].cells, key@, out@))
        },
        Step::GroupMean(key, val, out) => if !has_column(t, key@) || !has_column(t, val@) {
            Err(QueryError::UnknownColumn)
        } else if out@ == key@ {
            Err(QueryError::DuplicateColumn)
        } else if !all_scalar(t[column_index(t, key@)].cells) || !all_numeric(
            t[column_index(t, val@)].cells,
        ) {
            Err(QueryError::TypeMismatch)
        } else {
            Ok(
                group_mean_spec(
                    t[column_index(t, key@)].cells,
                    t[column_index(t, val@)].cells,
                    key@,
                    out@,
                ),
            )
        },
        Step::GroupBy(key, aggs) => if !has_column(t, key@) || !agg_inputs_known(t, aggs@) {
            Err(QueryError::UnknownColumn)
        } else if !distinct_seq(group_by_names(key@, aggs@)) {
            Err(QueryError::DuplicateColumn)
        } else if !all_scalar(t[column_index(t, key@)].cells) || !agg_inputs_numeric(t, aggs@) {
            Err(QueryError::TypeMismatch)
        } else {
            let keys = t[column_index(t, key@)].cells;
            Ok(
                seq![ColView { name: key@, cells: distinct_upto(keys, keys.len() as int) }]
                    + aggs@.map_values(|a: Agg| agg_column(t, keys, a)),
            )
        },
        Step::Sort(keys) => if !(forall|l: int|
            0 <= l < keys@.len() ==> has_column(t, #[trigger] sort_names(keys@)[l])) {
            Err(QueryError::UnknownColumn)
        } else if !(forall|l: int|
            0 <= l < keys@.len() ==> sortable(
                t[column_index(t, #[trigger] sort_names(keys@)[l])].cells,
            )) {
            Err(QueryError::TypeMismatch)
        } else {
            Ok(
                reorder(
                    t,
                    sort_order(
                        row_keys(t, sort_positions(t, sort_names(keys@))),
                        row_count(t),
                        sort_dirs(keys@),
                    ),
                ),
            )
        },
    }
}

/// What a sequence of steps makes of a table, one step after another.
pub open spec fn run_steps(t: Seq<ColView>, steps: Seq<Step>) -> Result<Seq<ColView>, QueryError>
    decreases steps.len(),
{
    if steps.len() == 0 {
        Ok(t)
    } else {
        match step_spec(t, steps[0]) {
            Err(x) => Err(x),
            Ok(t2) => run_steps(t2, steps.drop_first()),
        }
    }
}

/// An executable table agrees with a specified outcome, and is well formed.
pub open spec fn table_outcome(r: Result<Table, QueryError>, s: Result<Seq<ColView>, QueryError>) -> bool {
    match r {
        Ok(t) => s == Ok::<Seq<ColView>, QueryError>(t@) && table_wf(t@),
        Err(x) => s == Err::<Seq<ColView>, QueryError>(x),
    }
}

fn with_column(t: &Table, name: &String, vals: Vec<Value>) -> (r: Table)
    requires
        table_wf(t@),
        vals@.len() == row_count(t@),
    ensures
        r@ == with_column_spec(t@, name@, vals@.map_values(|v: Value| cell_view(v))),
        table_wf(r@),
{
    let ghost cells = vals@.map_values(|v: Value| cell_view(v));
    let pos = find_column(t, name);
    let mut cols: Vec<Column> = Vec::new();
    let mut i: usize = 0;
    while i < t.columns.len()
        invariant
            i <= t@.len(),
            cols@.len() == i,
            forall|k: int| 0 <= k < i ==> (#[trigger] cols@[k])@ == t@[k],
        decreases t.columns.len() - i,
    {
        cols.push(copy_column(&t.columns[i]));
        i = i + 1;
    }
    let newcol = Column { name: name.clone(), values: vals };
    assert(newcol@ == ColView { name: name@, cells });
    match pos {
        Some(p) => {
            cols.set(p, newcol);
        },
        None => {
            cols.push(newcol);
        },
    }
    let r = Table { columns: cols };
    assert(r@ =~= with_column_spec(t@, name@, cells));
    proof {
        let s = r@;
        assert(row_count(s) == row_count(t@)) by {
            if t@.len() > 0 {
                assert(t@[0].cells.len() == row_count(t@));
            }
        }
        assert forall|k: int| 0 <= k < s.len() implies #[trigger] s[k].cells.len() == row_count(s) by {
            if k < t@.len() {
                assert(t@[k].cells.len() == row_count(t@));
            }
        }
        assert forall|a: int, b: int| 0 <= a < b < s.len() implies #[trigger] s[a].name != #[trigger] s[b].name by {
            if b < t@.len() {
                assert(t@[a].name != t@[b].name);
            } else {
                assert(t@[a].name != name@);
            }
        }
    }
    r
}

fn limit_table(t: &Table, n: usize) -> (r: Table)
    requires
        table_wf(t@),
    ensures
        r@ == limit_spec(t@, n as int),
        table_wf(r@),
{
    let mut cols: Vec<Column> = Vec::new();
    let mut i: usize = 0;
    while i < t.columns.len()
        invariant
            i <= t@.len(),
            cols@.len() == i,
            forall|k: int| 0 <= k < i ==> (#[trigger] cols@[k])@ == limit_spec(t@, n as int)[k],
        decreases t.columns.len() - i,
    {
        let c = &t.columns[i];
        let m = if n < c.values.len() {
            n
        } else {
            c.values.len()
        };
        let mut vals: Vec<Value> = Vec::new();
        let mut j: usize = 0;
        while j < m
            invariant
                m <= c.values@.len(),
                j <= m,
                vals@.len() == j,
                forall|k: int| 0 <= k < j ==> cell_view(#[trigger] vals@[k]) == cell_view(c.values@[k]),
            decreases m - j,
        {
            vals.push(copy_value(&c.values[j]));
            j = j + 1;
        }
        let nc = Column { name: c.name.clone(), values: vals };
        assert(nc@.cells =~= limit_spec(t@, n as int)[i as int].cells);
        cols.push(nc);
        i = i + 1;
    }
    let r = Table { columns: cols };
    assert(r@ =~= limit_spec(t@, n as int));
    proof {
        let s = r@;
        assert forall|k: int| 0 <= k < s.len() implies #[trigger] s[k].cells.len() == row_count(s) by {
            assert(t@[k].cells.len() == row_count(t@));
            assert(t@[0].cells.len() == row_count(t@));
        }
        assert forall|a: int, b: int| 0 <= a < b < s.len() implies #[trigger] s[a].name != #[trigger] s[b].name by {
            assert(t@[a].name != t@[b].name);
        }
    }
    r
}

proof fn lemma_keep_len(cells: Seq<CellView>, mask: Seq<CellView>, k: int)
    requires
        k <= mask.len(),
    ensures
        keep(cells, mask, k).len() == kept_count(mask, k),
        kept_count(mask, k) <= if k < 0 { 0 } else { k },
    decreases k,
{
    if k > 0 {
        lemma_keep_len(cells, mask, k - 1);
    }
}

fn filter_values(vals: &Vec<Value>, mask: &Vec<Value>) -> (r: Vec<Value>)
    requires
        vals@.len() == mask@.len(),
    ensures
        r@.map_values(|v: Value| cell_view(v)) == keep(
            vals@.map_values(|v: Value| cell_view(v)),
            mask@.map_values(|v: Value| cell_view(v)),
            mask@.len() as int,
        ),
{
    let ghost cv = vals@.map_values(|v: Value| cell_view(v));
    let ghost mv = mask@.map_values(|v: Value| cell_view(v));
    let mut out: Vec<Value> = Vec::new();
    let mut i: usize = 0;
    assert(out@.map_values(|v: Value| cell_view(v)) =~= keep(cv, mv, 0));
    while i < mask.len()
        invariant
            vals@.len() == mask@.len(),
            cv == vals@.map_values(|v: Value| cell_view(v)),
            mv == mask@.map_values(|v: Value| cell_view(v)),
            i <= mask@.len(),
            out@.map_values(|v: Value| cell_view(v)) == keep(cv, mv, i as int),
        decreases mask.len() - i,
    {
        let ghost before = out@.map_values(|v: Value| cell_view(v));
        let take = match &mask[i] {
            Value::Bool(b) => *b,
            _ => false,
        };
        assert(take == (mv[i as int] == CellView::Bool(true)));
        if take {
            let c = copy_value(&vals[i]);
            let ghost cc = cell_view(c);
            out.push(c);
            assert(out@.map_values(|v: Value| cell_view(v)) =~= before.push(cc));
        }
        i = i + 1;
    }
    out
}

fn filter_table(t: &Table, mask: &Vec<Value>) -> (r: Table)
    requires
        table_wf(t@),
        mask@.len() == row_count(t@),
    ensures
        r@ == filter_spec(t@, mask@.map_values(|v: Value| cell_view(v))),
        table_wf(r@),
{
    let ghost mv = mask@.map_values(|v: Value| cell_view(v));
    let mut cols: Vec<Column> = Vec::new();
    let mut i: usize = 0;
    while i < t.columns.len()
        invariant
            table_wf(t@),
            mask@.len() == row_count(t@),
            mv == mask@.map_values(|v: Value| cell_view(v)),
            i <= t@.len(),
            cols@.len() == i,
            forall|k: int| 0 <= k < i ==> (#[trigger] cols@[k])@ == filter_spec(t@, mv)[k],
        decreases t.columns.len() - i,
    {
        let c = &t.columns[i];
        assert(t@[i as int].cells.len() == row_count(t@));
        let nc = Column { name: c.name.clone(), values: filter_values(&c.values, mask) };
        cols.push(nc);
        i = i + 1;
    }
    let r = Table { columns: cols };
    assert(r@ =~= filter_spec(t@, mv));
    proof {
        let s = r@;
        let n = mv.len() as int;
        assert forall|k: int| 0 <= k < s.len() implies #[trigger] s[k].cells.len() == kept_count(mv, n) by {
            lemma_keep_len(t@[k].cells, mv, n);
        }
        if s.len() > 0 {
            lemma_keep_len(t@[0].cells, mv, n);
            assert(s[0].cells.len() == kept_count(mv, n));
        }
        assert forall|a: int, b: int| 0 <= a < b < s.len() implies #[trigger] s[a].name != #[trigger] s[b].name by {
            assert(t@[a].name != t@[b].name);
        }
    }
    r
}

proof fn lemma_distinct_facts(cells: Seq<CellView>, k: int)
    requires
        0 <= k <= cells.len(),
    ensures
        distinct_upto(cells, k).len() <= k,
        forall|a: int, b: int|
            0 <= a < b < distinct_upto(cells, k).len() ==> #[trigger] distinct_upto(cells, k)[a]
                != #[trigger] distinct_upto(cells, k)[b],
        forall|x: CellView| !distinct_upto(cells, k).contains(x) ==> count_upto(cells, x, k) == 0,
        forall|j: int|
            0 <= j < distinct_upto(cells, k).len() ==> exists|i: int|
                0 <= i < k && cells[i] == #[trigger] distinct_upto(cells, k)[j],
    decreases k,
{
    if k > 0 {
        lemma_distinct_facts(cells, k - 1);
        let d = distinct_upto(cells, k - 1);
        if !d.contains(cells[k - 1]) {
            let d2 = d.push(cells[k - 1]);
            assert(distinct_upto(cells, k) == d2);
            assert forall|a: int, b: int| 0 <= a < b < d2.len() implies #[trigger] d2[a] != #[trigger] d2[b] by {
                if b == d.len() {
                    assert(d.contains(d[a]));
                }
            }
            assert forall|x: CellView| !d2.contains(x) implies count_upto(cells, x, k) == 0 by {
                assert(d2[d.len() as int] == cells[k - 1]);
                assert(d2.contains(cells[k - 1]));
                if d.contains(x) {
                    let j = choose|j: int| 0 <= j < d.len() && d[j] == x;
                    assert(d2[j] == x);
                    assert(d2.contains(x));
                }
                assert(cells[k - 1] != x);
                assert(count_upto(cells, x, k - 1) == 0);
            }
            assert forall|j: int| 0 <= j < d2.len() implies exists|i: int|
                0 <= i < k && cells[i] == #[trigger] d2[j] by {
                if j < d.len() {
                    assert(d2[j] == d[j]);
                } else {
                    assert(cells[k - 1] == d2[j]);
                }
            }
        } else {
            assert(distinct_upto(cells, k) == d);
            assert forall|x: CellView| !d.contains(x) implies count_upto(cells, x, k) == 0 by {
                assert(cells[k - 1] != x);
                assert(count_upto(cells, x, k - 1) == 0);
            }
        }
    }
}

fn group_count_table(t: &Table, idx: usize, key: &String, out: &String) -> (r: Table)
    requires
        table_wf(t@),
        idx < t@.len(),
        t@[idx as int].name == key@,
        out@ != key@,
        all_scalar(t@[idx as int].cells),
    ensures
        r@ == group_count_spec(t@[idx as int].cells, key@, out@),
        table_wf(r@),
{
    let vals = &t.columns[idx].values;
    let ghost cells = t@[idx as int].cells;
    assert(cells == vals@.map_values(|v: Value| cell_view(v)));
    let ghost n = cells.len() as int;
    assert(n == row_count(t@));
    let mut keys: Vec<Value> = Vec::new();
    let mut counts: Vec<u64> = Vec::new();
    let mut i: usize = 0;
    assert(keys@.map_values(|v: Value| cell_view(v)) =~= distinct_upto(cells, 0));
    while i < vals.len()
        invariant
            cells == vals@.map_values(|v: Value| cell_view(v)),
            all_scalar(cells),
            n == cells.len(),
            n <= i64::MAX,
            i <= n,
            keys@.map_values(|v: Value| cell_view(v)) == distinct_upto(cells, i as int),
            counts@.len() == keys@.len(),
            forall|j: int| 0 <= j < keys@.len() ==> is_scalar_value(#[trigger] keys@[j]),
            forall|j: int|
                0 <= j < counts@.len() ==> #[trigger] counts@[j] == count_upto(
                    cells,
                    cell_view(keys@[j]),
                    i as int,
                ),
            forall|j: int| 0 <= j < counts@.len() ==> #[trigger] counts@[j] <= i,
        decreases vals.len() - i,
    {
        proof {
            lemma_distinct_facts(cells, i as int);
        }
        let ghost d = distinct_upto(cells, i as int);
        let cell = &vals[i];
        assert(cell_view(*cell) == cells[i as int]);
        assert(!(cells[i as int] is Nested));
        let mut j: usize = 0;
        let mut found = false;
        while j < keys.len()
            invariant
                keys@.map_values(|v: Value| cell_view(v)) == d,
                forall|q: int| 0 <= q < keys@.len() ==> is_scalar_value(#[trigger] keys@[q]),
                is_scalar_value(*cell),
                j <= keys@.len(),
                !found ==> forall|q: int| 0 <= q < j ==> d[q] != cell_view(*cell),
                found ==> j < keys@.len() && d[j as int] == cell_view(*cell),
            ensures
                keys@.map_values(|v: Value| cell_view(v)) == d,
                found ==> j < keys@.len() && d[j as int] == cell_view(*cell),
                !found ==> j == keys@.len() && forall|q: int| 0 <= q < j ==> d[q] != cell_view(*cell),
            decreases keys.len() - j + (if found { 0int } else { 1int }),
        {
            if same_scalar(&keys[j], cell) {
                found = true;
                break;
            }
            j = j + 1;
        }
        let ghost old_counts = counts@;
        if found {
            let c = counts[j];
            counts.set(j, c + 1);
            proof {
                assert(distinct_upto(cells, i + 1) == d);
                assert forall|q: int| 0 <= q < counts@.len() implies #[trigger] counts@[q]
                    == count_upto(cells, cell_view(keys@[q]), i + 1) by {
                    assert(d[q] == cell_view(keys@[q]));
                    if q != j {
                        assert(d[q] != d[j as int]);
                    }
                }
            }
        } else {
            assert(d.len() == keys@.len());
            assert(!d.contains(cells[i as int]));
            let nk = copy_value(cell);
            let ghost before = keys@.map_values(|v: Value| cell_view(v));
            keys.push(nk);
            counts.push(1);
            proof {
                assert(keys@.map_values(|v: Value| cell_view(v)) =~= before.push(cells[i as int]));
                assert forall|q: int| 0 <= q < counts@.len() implies #[trigger] counts@[q]
                    == count_upto(cells, cell_view(keys@[q]), i + 1) by {
                    if q < old_counts.len() {
                        assert(d[q] == cell_view(keys@[q]));
                        if d[q] == cells[i as int] {
                            assert(d.contains(cells[i as int]));
                        }
                    } else {
                        assert(cell_view(keys@[q]) == cells[i as int]);
                        assert(count_upto(cells, cells[i as int], i as int) == 0);
                    }
                }
            }
        }
        i = i + 1;
    }
    proof {
        lemma_distinct_facts(cells, n);
    }
    let ghost dk = distinct_upto(cells, n);
    let mut count_vals: Vec<Value> = Vec::new();
    let mut k: usize = 0;
    while k < counts.len()
        invariant
            k <= counts@.len(),
            counts@.len() == keys@.len(),
            keys@.map_values(|v: Value| cell_view(v)) == dk,
            count_vals@.len() == k,
            forall|j: int| 0 <= j < counts@.len() ==> #[trigger] counts@[j] == count_upto(
                cells,
                cell_view(keys@[j]),
                n,
            ),
            forall|j: int| 0 <= j < counts@.len() ==> #[trigger] counts@[j] <= n,
            n <= i64::MAX,
            forall|j: int|
                0 <= j < k ==> cell_view(#[trigger] count_vals@[j]) == CellView::Int(
                    count_upto(cells, dk[j], n),
                ),
        decreases counts.len() - k,
    {
        assert(dk[k as int] == cell_view(keys@[k as int]));
        count_vals.push(Value::Int(counts[k] as i64));
        k = k + 1;
    }
    let kc = Column { name: key.clone(), values: keys };
    let cc = Column { name: out.clone(), values: count_vals };
    let mut cols: Vec<Column> = Vec::new();
    cols.push(kc);
    cols.push(cc);
    let r = Table { columns: cols };
    assert(r@[1].cells =~= dk.map_values(|x: CellView| CellView::Int(count_upto(cells, x, n))));
    assert(r@ =~= group_count_spec(cells, key@, out@));
    r
}

fn reorder_table(t: &Table, perm: &Vec<usize>) -> (r: Table)
    requires
        table_wf(t@),
        forall|q: int| 0 <= q < perm@.len() ==> #[trigger] perm@[q] < row_count(t@),
        perm@.len() == row_count(t@),
    ensures
        r@ == reorder(t@, perm@.map_values(|x: usize| x as int)),
        table_wf(r@),
{
    let ghost pv = perm@.map_values(|x: usize| x as int);
    let mut cols: Vec<Column> = Vec::new();
    let mut i: usize = 0;
    while i < t.columns.len()
        invariant
            table_wf(t@),
            forall|q: int| 0 <= q < perm@.len() ==> #[trigger] perm@[q] < row_count(t@),
            pv == perm@.map_values(|x: usize| x as int),
            i <= t@.len(),
            cols@.len() == i,
            forall|k: int| 0 <= k < i ==> (#[trigger] cols@[k])@ == reorder(t@, pv)[k],
        decreases t.columns.len() - i,
    {
        let c = &t.columns[i];
        assert(t@[i as int].cells.len() == row_count(t@));
        let mut vals: Vec<Value> = Vec::new();
        let mut j: usize = 0;
        while j < perm.len()
            invariant
                forall|q: int| 0 <= q < perm@.len() ==> #[trigger] perm@[q] < c.values@.len(),
                j <= perm@.len(),
                vals@.len() == j,
                forall|k: int|
                    0 <= k < j ==> cell_view(#[trigger] vals@[k]) == cell_view(c.values@[perm@[k] as int]),
            decreases perm.len() - j,
        {
            vals.push(copy_value(&c.values[perm[j]]));
            j = j + 1;
        }
        let nc = Column { name: c.name.clone(), values: vals };
        assert(nc@.cells =~= reorder(t@, pv)[i as int].cells);
        cols.push(nc);
        i = i + 1;
    }
    let r = Table { columns: cols };
    assert(r@ =~= reorder(t@, pv));
    proof {
        let s = r@;
        assert forall|k: int| 0 <= k < s.len() implies #[trigger] s[k].cells.len() == row_count(s) by {
            assert(s[0].cells.len() == pv.len());
        }
        assert forall|a: int, b: int| 0 <= a < b < s.len() implies #[trigger] s[a].name != #[trigger] s[b].name by {
            assert(t@[a].name != t@[b].name);
        }
    }
    r
}

fn group_mean_table(t: &Table, kidx: usize, vidx: usize, key: &String, out: &String) -> (r: Table)
    requires
        table_wf(t@),
        kidx < t@.len(),
        vidx < t@.len(),
        t@[kidx as int].name == key@,
        out@ != key@,
        all_scalar(t@[kidx as int].cells),
        all_numeric(t@[vidx as int].cells),
    ensures
        r@ == group_mean_spec(t@[kidx as int].cells, t@[vidx as int].cells, key@, out@),
        table_wf(r@),
{
    let ghost keys = t@[kidx as int].cells;
    let ghost vals = t@[vidx as int].cells;
    let ghost n = keys.len() as int;
    assert(t@[kidx as int].cells.len() == row_count(t@));
    assert(t@[vidx as int].cells.len() == row_count(t@));
    let counted = group_count_table(t, kidx, key, out);
    let groups = &counted.columns[0].values;
    let ghost d = distinct_upto(keys, n);
    assert(groups@.map_values(|v: Value| cell_view(v)) == d);
    proof {
        lemma_distinct_facts(keys, n);
    }
    let kv = &t.columns[kidx].values;
    let vv = &t.columns[vidx].values;
    let mut means: Vec<Value> = Vec::new();
    let mut g: usize = 0;
    while g < groups.len()
        invariant
            groups@.map_values(|v: Value| cell_view(v)) == d,
            keys == kv@.map_values(|v: Value| cell_view(v)),
            vals == vv@.map_values(|v: Value| cell_view(v)),
            keys.len() == n,
            vals.len() == n,
            n <= i64::MAX,
            all_scalar(keys),
            forall|j: int| 0 <= j < d.len() ==> exists|i: int| 0 <= i < n && keys[i] == #[trigger] d[j],
            g <= groups@.len(),
            means@.len() == g,
            forall|j: int| 0 <= j < g ==> cell_view(#[trigger] means@[j]) == mean_cell(keys, vals, d[j]),
        decreases groups.len() - g,
    {
        let gk = &groups[g];
        assert(cell_view(*gk) == d[g as int]);
        proof {
            let w = choose|i: int| 0 <= i < n && keys[i] == d[g as int];
            assert(is_scalar(keys[w]));
        }
        let mut ok = true;
        let mut sn: i128 = 0;
        let mut sd: i128 = 1;
        let mut cnt: u64 = 0;
        let mut r: usize = 0;
        while r < kv.len()
            invariant
                keys == kv@.map_values(|v: Value| cell_view(v)),
                vals == vv@.map_values(|v: Value| cell_view(v)),
                keys.len() == n,
                vals.len() == n,
                n <= i64::MAX,
                all_scalar(keys),
                is_scalar(cell_view(*gk)),
                r <= n,
                ok ==> sum_upto(keys, vals, cell_view(*gk), r as int) == Some((sn as int, sd as int)),
                ok ==> ratio_fits((sn as int, sd as int)),
                !ok ==> sum_upto(keys, vals, cell_view(*gk), r as int) is None,
                cnt == valued_upto(keys, vals, cell_view(*gk), r as int),
                cnt <= r,
            decreases kv.len() - r,
        {
            assert(kv@[r as int] == kv[r as int]);
            assert(vv@[r as int] == vv[r as int]);
            assert(is_scalar(keys[r as int]));
            if same_scalar(&kv[r], gk) {
                match ratio_value(&vv[r]) {
                    Some(a) => {
                        cnt = cnt + 1;
                        if ok {
                            let (an, ad) = a;
                            proof {
                                lemma_ratio_products((sn, sd), a);
                            }
                            let (tn, td) = if sd == ad {
                                (sn + an, sd)
                            } else {
                                (sn * ad + an * sd, sd * ad)
                            };
                            if -RATIO_LIMIT - 1 <= tn && tn <= RATIO_LIMIT && 0 < td && td <= RATIO_LIMIT {
                                sn = tn;
                                sd = td;
                            } else {
                                ok = false;
                            }
                        }
                    },
                    None => {},
                }
            }
            r = r + 1;
        }
        if !ok || cnt == 0 {
            means.push(Value::Null);
        } else {
            assert(0 < sd as int * cnt as int <= 0x4000_0000_0000_0000_0000_0000_0000_0000) by (nonlinear_arith)
                requires
                    0 < sd <= 0x7fff_ffff_ffff_ffff,
                    0 < cnt <= 0x7fff_ffff_ffff_ffff,
            ;
            means.push(Value::Frac(sn, sd * cnt as i128));
        }
        g = g + 1;
    }
    let kc = Column { name: key.clone(), values: copy_values(groups) };
    let mc = Column { name: out.clone(), values: means };
    let mut cols: Vec<Column> = Vec::new();
    cols.push(kc);
    cols.push(mc);
    let res = Table { columns: cols };
    assert(res@[1].cells =~= d.map_values(|x: CellView| mean_cell(keys, vals, x)));
    assert(res@ =~= group_mean_spec(keys, vals, key@, out@));
    res
}

fn drop_nulls_table(t: &Table, names: &Vec<String>) -> (r: Result<Table, QueryError>)
    requires
        table_wf(t@),
    ensures
        table_outcome(r, step_spec(t@, Step::DropNulls(*names))),
{
    let ghost nv = name_views(names@);
    let mut cols: Vec<usize> = Vec::new();
    let mut i: usize = 0;
    if names.len() == 0 {
        while i < t.columns.len()
            invariant
                i <= t@.len(),
                cols@.len() == i,
                forall|k: int| 0 <= k < i ==> #[trigger] cols@[k] as int == k,
            decreases t.columns.len() - i,
        {
            cols.push(i);
            i = i + 1;
        }
    } else {
        while i < names.len()
            invariant
                table_wf(t@),
                nv == name_views(names@),
                i <= names@.len(),
                cols@.len() == i,
                forall|k: int| 0 <= k < i ==> has_column(t@, #[trigger] nv[k]),
                forall|k: int|
                    0 <= k < i ==> #[trigger] cols@[k] as int == column_index(t@, nv[k]) && cols@[k]
                        < t@.len(),
            decreases names.len() - i,
        {
            match find_column(t, &names[i]) {
                Some(c) => {
                    cols.push(c);
                },
                None => {
                    assert(!has_column(t@, nv[i as int]));
                    return Err(QueryError::UnknownColumn);
                },
            }
            i = i + 1;
        }
    }
    let ghost cv = checked_columns(t@, nv);
    assert(cols@.map_values(|c: usize| c as int) =~= cv);
    assert(forall|k: int| 0 <= k < cols@.len() ==> #[trigger] cols@[k] < t@.len());
    let n = t.height();
    let ghost m = no_null_mask(t@, cv);
    let mut mask: Vec<Value> = Vec::new();
    let mut r: usize = 0;
    while r < n
        invariant
            table_wf(t@),
            n == row_count(t@),
            cols@.map_values(|c: usize| c as int) == cv,
            forall|k: int| 0 <= k < cols@.len() ==> #[trigger] cols@[k] < t@.len(),
            m == no_null_mask(t@, cv),
            r <= n,
            mask@.len() == r,
            forall|k: int| 0 <= k < r ==> cell_view(#[trigger] mask@[k]) == m[k],
        decreases n - r,
    {
        let mut ok = true;
        let mut l: usize = 0;
        while l < cols.len()
            invariant
                table_wf(t@),
                n == row_count(t@),
                r < n,
                cols@.map_values(|c: usize| c as int) == cv,
                forall|k: int| 0 <= k < cols@.len() ==> #[trigger] cols@[k] < t@.len(),
                l <= cols@.len(),
                ok == (forall|q: int| 0 <= q < l ==> !(t@[#[trigger] cv[q]].cells[r as int] is Null)),
            decreases cols.len() - l,
        {
            let c = cols[l];
            assert(cv[l as int] == c as int);
            assert(t@[c as int].cells.len() == row_count(t@));
            assert(cell_view(t.columns@[c as int].values@[r as int]) == t@[c as int].cells[r as int]);
            if matches!(&t.columns[c].values[r], Value::Null) {
                ok = false;
            }
            l = l + 1;
        }
        mask.push(Value::Bool(ok));
        r = r + 1;
    }
    assert(mask@.map_values(|v: Value| cell_view(v)) =~= m);
    Ok(filter_table(t, &mask))
}

fn agg_name(a: &Agg) -> (r: &String)
    ensures
        r@ == agg_out(*a),
{
    match a {
        Agg::Count(o) => o,
        Agg::Mean(_, o) => o,
    }
}

fn group_by_table(t: &Table, key: &String, aggs: &Vec<Agg>) -> (r: Result<Table, QueryError>)
    requires
        table_wf(t@),
    ensures
        table_outcome(r, step_spec(t@, Step::GroupBy(*key, *aggs))),
{
    let ghost names = group_by_names(key@, aggs@);
    assert(names.len() == aggs@.len() + 1);
    assert forall|i: int| 0 <= i < aggs@.len() implies names[i + 1] == agg_out(#[trigger] aggs@[i]) by {}
    let kidx = match find_column(t, key) {
        Some(i) => i,
        None => {
            return Err(QueryError::UnknownColumn);
        },
    };
    // Value columns of the means (the key column stands in for counts).
    let mut vidx: Vec<usize> = Vec::new();
    let mut i: usize = 0;
    while i < aggs.len()
        invariant
            table_wf(t@),
            kidx < t@.len(),
            i <= aggs@.len(),
            vidx@.len() == i,
            forall|q: int| 0 <= q < i ==> #[trigger] vidx@[q] < t@.len(),
            forall|q: int|
                0 <= q < i ==> (#[trigger] aggs@[q] is Mean ==> has_column(t@, aggs@[q]->Mean_0@)
                    && vidx@[q] as int == column_index(t@, aggs@[q]->Mean_0@)),
        decreases aggs.len() - i,
    {
        match &aggs[i] {
            Agg::Count(_) => {
                vidx.push(kidx);
            },
            Agg::Mean(v, _) => {
                match find_column(t, v) {
                    Some(c) => {
                        vidx.push(c);
                    },
                    None => {
                        assert(!agg_inputs_known(t@, aggs@));
                        return Err(QueryError::UnknownColumn);
                    },
                }
            },
        }
        i = i + 1;
    }
    assert(agg_inputs_known(t@, aggs@));
    // Output names must differ.
    let mut a: usize = 0;
    while a < aggs.len()
        invariant
            has_column(t@, key@),
            kidx as int == column_index(t@, key@),
            kidx < t@.len(),
            agg_inputs_known(t@, aggs@),
            a <= aggs@.len(),
            names == group_by_names(key@, aggs@),
            names.len() == aggs@.len() + 1,
            forall|q: int| 0 <= q < aggs@.len() ==> names[q + 1] == agg_out(#[trigger] aggs@[q]),
            forall|x: int, y: int| 0 <= x < y < names.len() && x < a ==> #[trigger] names[x] != #[trigger] names[y],
        decreases aggs.len() - a,
    {
        let na = if a == 0 {
            key
        } else {
            agg_name(&aggs[a - 1])
        };
        assert(na@ == names[a as int]);
        let mut b: usize = a;
        while b < aggs.len()
            invariant
                has_column(t@, key@),
                kidx as int == column_index(t@, key@),
                kidx < t@.len(),
                agg_inputs_known(t@, aggs@),
                a <= b <= aggs@.len(),
                names == group_by_names(key@, aggs@),
                names.len() == aggs@.len() + 1,
                forall|q: int| 0 <= q < aggs@.len() ==> names[q + 1] == agg_out(#[trigger] aggs@[q]),
                na@ == names[a as int],
                forall|x: int, y: int| 0 <= x < y < names.len() && x < a ==> #[trigger] names[x] != #[trigger] names[y],
                forall|y: int| a < y <= b ==> names[a as int] != #[trigger] names[y],
            decreases aggs.len() - b,
        {
            let nb = agg_name(&aggs[b]);
            if *na == *nb {
                assert(names[a as int] == names[b + 1]);
                return Err(QueryError::DuplicateColumn);
            }
            b = b + 1;
        }
        a = a + 1;
    }
    assert(distinct_seq(names)) by {
        assert forall|x: int, y: int| 0 <= x < y < names.len() implies #[trigger] names[x] != #[trigger] names[y] by {
            if x == aggs@.len() {
            }
        }
    }
    // Types.
    let kv = &t.columns[kidx].values;
    let ghost keys = t@[kidx as int].cells;
    let mut i: usize = 0;
    while i < kv.len()
        invariant
            has_column(t@, key@),
            kidx as int == column_index(t@, key@),
            kidx < t@.len(),
            agg_inputs_known(t@, aggs@),
            distinct_seq(names),
            names == group_by_names(key@, aggs@),
            keys == t@[kidx as int].cells,
            keys == kv@.map_values(|v: Value| cell_view(v)),
            i <= kv@.len(),
            forall|k: int| 0 <= k < i ==> is_scalar(#[trigger] keys[k]),
        decreases kv.len() - i,
    {
        match &kv[i] {
            Value::List(_) => {
                assert(!is_scalar(keys[i as int]));
                return Err(QueryError::TypeMismatch);
            },
            Value::Struct(_) => {
                assert(!is_scalar(keys[i as int]));
                return Err(QueryError::TypeMismatch);
            },
            _ => {},
        }
        i = i + 1;
    }
    let mut i: usize = 0;
    while i < aggs.len()
        invariant
            has_column(t@, key@),
            kidx as int == column_index(t@, key@),
            kidx < t@.len(),
            agg_inputs_known(t@, aggs@),
            distinct_seq(names),
            names == group_by_names(key@, aggs@),
            keys == t@[kidx as int].cells,
            table_wf(t@),
            all_scalar(keys),
            i <= aggs@.len(),
            vidx@.len() == aggs@.len(),
            forall|q: int| 0 <= q < aggs@.len() ==> #[trigger] vidx@[q] < t@.len(),
            forall|q: int|
                0 <= q < aggs@.len() ==> (#[trigger] aggs@[q] is Mean ==> vidx@[q] as int
                    == column_index(t@, aggs@[q]->Mean_0@)),
            forall|q: int|
                0 <= q < i ==> (#[trigger] aggs@[q] is Mean ==> all_numeric(
                    t@[column_index(t@, aggs@[q]->Mean_0@)].cells,
                )),
        decreases aggs.len() - i,
    {
        if let Agg::Mean(_, _) = &aggs[i] {
            if !all_numeric_values(&t.columns[vidx[i]].values) {
                assert(!agg_inputs_numeric(t@, aggs@));
                return Err(QueryError::TypeMismatch);
            }
        }
        i = i + 1;
    }
    assert(agg_inputs_numeric(t@, aggs@));
    // Groups and their aggregates.
    let ghost d = distinct_upto(keys, keys.len() as int);
    let mut other = key.clone();
    proof {
        reveal_strlit("#");
    }
    other.append("#");
    assert(other@.len() != key@.len());
    let mut base = group_count_table(t, kidx, key, &other);
    let mut cols: Vec<Column> = Vec::new();
    base.columns.truncate(1);
    let kc = base.columns.pop().unwrap();
    assert(kc@ == ColView { name: key@, cells: d });
    cols.push(kc);
    let ghost head = seq![ColView { name: key@, cells: d }];
    let mut i: usize = 0;
    while i < aggs.len()
        invariant
            table_wf(t@),
            all_scalar(keys),
            agg_inputs_numeric(t@, aggs@),
            distinct_seq(names),
            names == group_by_names(key@, aggs@),
            names.len() == aggs@.len() + 1,
            forall|q: int| 0 <= q < aggs@.len() ==> names[q + 1] == agg_out(#[trigger] aggs@[q]),
            keys == t@[kidx as int].cells,
            kidx < t@.len(),
            t@[kidx as int].name == key@,
            d == distinct_upto(keys, keys.len() as int),
            vidx@.len() == aggs@.len(),
            forall|q: int| 0 <= q < aggs@.len() ==> #[trigger] vidx@[q] < t@.len(),
            forall|q: int|
                0 <= q < aggs@.len() ==> (#[trigger] aggs@[q] is Mean ==> vidx@[q] as int
                    == column_index(t@, aggs@[q]->Mean_0@)),
            i <= aggs@.len(),
            cols@.len() == i + 1,
            cols@[0]@ == (ColView { name: key@, cells: d }),
            forall|q: int| 0 <= q < i ==> (#[trigger] cols@[q + 1])@ == agg_column(t@, keys, aggs@[q]),
        decreases aggs.len() - i,
    {
        assert(names[0] != names[i + 1]);
        match &aggs[i] {
            Agg::Count(o) => {
                let mut tb = group_count_table(t, kidx, key, o);
                let c = tb.columns.pop().unwrap();
                cols.push(c);
            },
            Agg::Mean(_, o) => {
                assert(all_numeric(t@[vidx@[i as int] as int].cells));
                let mut tb = group_mean_table(t, kidx, vidx[i], key, o);
                let c = tb.columns.pop().unwrap();
                cols.push(c);
            },
        }
        i = i + 1;
    }
    let r = Table { columns: cols };
    let ghost expect = seq![ColView { name: key@, cells: d }] + aggs@.map_values(
        |a: Agg| agg_column(t@, keys, a),
    );
    assert(r@ =~= expect) by {
        assert forall|q: int| 0 <= q < r@.len() implies r@[q] == expect[q] by {
            if q > 0 {
                assert(cols@[(q - 1) + 1]@ == agg_column(t@, keys, aggs@[q - 1]));
            }
        }
    }
    proof {
        lemma_distinct_facts(keys, keys.len() as int);
        assert(keys.len() == row_count(t@));
        let rv = r@;
        assert forall|k: int| 0 <= k < rv.len() implies #[trigger] rv[k].cells.len() == row_count(rv) by {
            if k > 0 {
                assert(rv[k] == agg_column(t@, keys, aggs@[k - 1]));
            }
        }
        assert forall|x: int, y: int| 0 <= x < y < rv.len() implies #[trigger] rv[x].name != #[trigger] rv[y].name by {
            if x > 0 {
                assert(rv[x] == agg_column(t@, keys, aggs@[x - 1]));
            }
            assert(rv[y] == agg_column(t@, keys, aggs@[y - 1]));
            assert(names[x] != names[y]);
        }
    }
    Ok(r)
}

fn select_table(t: &Table, names: &Vec<String>) -> (r: Result<Table, QueryError>)
    requires
        table_wf(t@),
    ensures
        table_outcome(r, step_spec(t@, Step::Select(*names))),
{
    let ghost nv = name_views(names@);
    let mut cols: Vec<Column> = Vec::new();
    let mut i: usize = 0;
    while i < names.len()
        invariant
            table_wf(t@),
            nv == name_views(names@),
            i <= names@.len(),
            cols@.len() == i,
            forall|k: int| 0 <= k < i ==> has_column(t@, #[trigger] nv[k]),
            forall|k: int| 0 <= k < i ==> (#[trigger] cols@[k])@ == t@[column_index(t@, nv[k])],
        decreases names.len() - i,
    {
        match find_column(t, &names[i]) {
            Some(p) => {
                cols.push(copy_column(&t.columns[p]));
            },
            None => {
                assert(!has_column(t@, nv[i as int]));
                return Err(QueryError::UnknownColumn);
            },
        }
        i = i + 1;
    }
    let mut a: usize = 0;
    while a < names.len()
        invariant
            nv == name_views(names@),
            forall|k: int| 0 <= k < nv.len() ==> has_column(t@, #[trigger] nv[k]),
            a <= names@.len(),
            forall|x: int, y: int| 0 <= x < y < nv.len() && x < a ==> #[trigger] nv[x] != #[trigger] nv[y],
        decreases names.len() - a,
    {
        let mut b: usize = a + 1;
        while b < names.len()
            invariant
                nv == name_views(names@),
                forall|k: int| 0 <= k < nv.len() ==> has_column(t@, #[trigger] nv[k]),
                a < names@.len(),
                a + 1 <= b <= names@.len(),
                forall|x: int, y: int| 0 <= x < y < nv.len() && x < a ==> #[trigger] nv[x] != #[trigger] nv[y],
                forall|y: int| a < y < b ==> nv[a as int] != #[trigger] nv[y],
            decreases names.len() - b,
        {
            if names[a] == names[b] {
                assert(nv[a as int] == nv[b as int]);
                return Err(QueryError::DuplicateColumn);
            }
            b = b + 1;
        }
        a = a + 1;
    }
    let r = Table { columns: cols };
    assert(r@ =~= select_spec(t@, nv));
    proof {
        let s = r@;
        assert forall|k: int| 0 <= k < s.len() implies #[trigger] s[k].cells.len() == row_count(s) by {
            let c0 = column_index(t@, nv[0]);
            let ck = column_index(t@, nv[k]);
            assert(t@[c0].cells.len() == row_count(t@));
            assert(t@[ck].cells.len() == row_count(t@));
        }
        if s.len() > 0 {
            let c0 = column_index(t@, nv[0]);
            assert(t@[c0].cells.len() == row_count(t@));
        }
        assert forall|x: int, y: int| 0 <= x < y < s.len() implies #[trigger] s[x].name != #[trigger] s[y].name by {
            assert(nv[x] != nv[y]);
        }
    }
    Ok(r)
}

/// Applies one step to a materialized table.
pub fn apply_step(t: &Table, s: &Step) -> (r: Result<Table, QueryError>)
    requires
        table_wf(t@),
    ensures
        table_outcome(r, step_spec(t@, *s)),
{
    match s {
        Step::WithColumn(name, e) => {
            match check_expr(t, e) {
                Some(x) => {
                    return Err(x);
                },
                None => {},
            }
            let vals = eval_column(t, e)?;
            Ok(with_column(t, name, vals))
        },
        Step::Filter(e) => {
            match check_expr(t, e) {
                Some(x) => {
                    return Err(x);
                },
                None => {},
            }
            let mask = eval_column(t, e)?;
            let ghost mv = mask@.map_values(|v: Value| cell_view(v));
            let mut i: usize = 0;
            while i < mask.len()
                invariant
                    mv == mask@.map_values(|v: Value| cell_view(v)),
                    *s == Step::Filter(*e),
                    expr_error(t@, *e) is None,
                    eval_rows(t@, *e, row_count(t@)) == Ok::<Seq<CellView>, QueryError>(mv),
                    i <= mask@.len(),
                    forall|k: int| 0 <= k < i ==> is_predicate(#[trigger] mv[k]),
                decreases mask.len() - i,
            {
                match &mask[i] {
                    Value::Bool(_) => {},
                    Value::Null => {},
                    _ => {
                        assert(!is_predicate(mv[i as int]));
                        return Err(QueryError::TypeMismatch);
                    },
                }
                i = i + 1;
            }
            Ok(filter_table(t, &mask))
        },
        Step::Limit(n) => Ok(limit_table(t, *n)),
        Step::Select(names) => select_table(t, names),
        Step::GroupBy(key, aggs) => group_by_table(t, key, aggs),
        Step::DropNulls(names) => drop_nulls_table(t, names),
        Step::GroupCount(key, out) => {
            let idx = match find_column(t, key) {
                Some(i) => i,
                None => {
                    return Err(QueryError::UnknownColumn);
                },
            };
            if *out == *key {
                return Err(QueryError::DuplicateColumn);
            }
            let vals = &t.columns[idx].values;
            let ghost cells = t@[idx as int].cells;
            let mut i: usize = 0;
            while i < vals.len()
                invariant
                    cells == vals@.map_values(|v: Value| cell_view(v)),
                    *s == Step::GroupCount(*key, *out),
                    idx < t@.len(),
                    cells == t@[idx as int].cells,
                    has_column(t@, key@),
                    idx == column_index(t@, key@),
                    out@ != key@,
                    i <= vals@.len(),
                    forall|k: int| 0 <= k < i ==> is_scalar(#[trigger] cells[k]),
                decreases vals.len() - i,
            {
                match &vals[i] {
                    Value::List(_) => {
                        assert(!is_scalar(cells[i as int]));
                        return Err(QueryError::TypeMismatch);
                    },
                    Value::Struct(_) => {
                        assert(!is_scalar(cells[i as int]));
                        return Err(QueryError::TypeMismatch);
                    },
                    _ => {},
                }
                i = i + 1;
            }
            Ok(group_count_table(t, idx, key, out))
        },
        Step::GroupMean(key, val, out) => {
            let kidx = match find_column(t, key) {
                Some(i) => i,
                None => {
                    return Err(QueryError::UnknownColumn);
                },
            };
            let vidx = match find_column(t, val) {
                Some(i) => i,
                None => {
                    return Err(QueryError::UnknownColumn);
                },
            };
            if *out == *key {
                return Err(QueryError::DuplicateColumn);
            }
            let kv = &t.columns[kidx].values;
            let vv = &t.columns[vidx].values;
            let ghost kc = t@[kidx as int].cells;
            let ghost vc = t@[vidx as int].cells;
            let mut i: usize = 0;
            while i < kv.len()
                invariant
                    kc == kv@.map_values(|v: Value| cell_view(v)),
                    *s == Step::GroupMean(*key, *val, *out),
                    kidx < t@.len(),
                    vidx < t@.len(),
                    kc == t@[kidx as int].cells,
                    vc == t@[vidx as int].cells,
                    has_column(t@, key@),
                    has_column(t@, val@),
                    kidx == column_index(t@, key@),
                    vidx == column_index(t@, val@),
                    out@ != key@,
                    i <= kv@.len(),
                    forall|k: int| 0 <= k < i ==> is_scalar(#[trigger] kc[k]),
                decreases kv.len() - i,
            {
                match &kv[i] {
                    Value::List(_) => {
                        assert(!is_scalar(kc[i as int]));
                        return Err(QueryError::TypeMismatch);
                    },
                    Value::Struct(_) => {
                        assert(!is_scalar(kc[i as int]));
                        return Err(QueryError::TypeMismatch);
                    },
                    _ => {},
                }
                i = i + 1;
            }
            let mut i: usize = 0;
            while i < vv.len()
                invariant
                    vc == vv@.map_values(|v: Value| cell_view(v)),
                    *s == Step::GroupMean(*key, *val, *out),
                    kidx < t@.len(),
                    vidx < t@.len(),
                    kc == t@[kidx as int].cells,
                    vc == t@[vidx as int].cells,
                    has_column(t@, key@),
                    has_column(t@, val@),
                    kidx == column_index(t@, key@),
                    vidx == column_index(t@, val@),
                    out@ != key@,
                    all_scalar(kc),
                    i <= vv@.len(),
                    forall|k: int| 0 <= k < i ==> is_numeric(#[trigger] vc[k]),
                decreases vv.len() - i,
            {
                if !matches!(&vv[i], Value::Null) && ratio_value(&vv[i]).is_none() {
                    assert(!is_numeric(vc[i as int]));
                    return Err(QueryError::TypeMismatch);
                }
                i = i + 1;
            }
            Ok(group_mean_table(t, kidx, vidx, key, out))
        },
        Step::Sort(keys) => {
            let ghost names = sort_names(keys@);
            let mut cols: Vec<usize> = Vec::new();
            let mut dirs: Vec<bool> = Vec::new();
            let mut l: usize = 0;
            while l < keys.len()
                invariant
                    table_wf(t@),
                    *s == Step::Sort(*keys),
                    names == sort_names(keys@),
                    l <= keys@.len(),
                    cols@.len() == l,
                    dirs@.len() == l,
                    forall|q: int| 0 <= q < l ==> has_column(t@, #[trigger] names[q]),
                    forall|q: int|
                        0 <= q < l ==> #[trigger] cols@[q] as int == column_index(t@, names[q]) && cols@[q]
                            < t@.len(),
                    forall|q: int| 0 <= q < l ==> #[trigger] dirs@[q] == keys@[q].1,
                decreases keys.len() - l,
            {
                assert(names[l as int] == keys@[l as int].0@);
                match find_column(t, &keys[l].0) {
                    Some(c) => {
                        cols.push(c);
                        dirs.push(keys[l].1);
                    },
                    None => {
                        return Err(QueryError::UnknownColumn);
                    },
                }
                l = l + 1;
            }
            let mut l: usize = 0;
            while l < cols.len()
                invariant
                    table_wf(t@),
                    *s == Step::Sort(*keys),
                    names == sort_names(keys@),
                    cols@.len() == keys@.len(),
                    l <= cols@.len(),
                    forall|q: int| 0 <= q < keys@.len() ==> has_column(t@, #[trigger] names[q]),
                    forall|q: int|
                        0 <= q < keys@.len() ==> #[trigger] cols@[q] as int == column_index(t@, names[q])
                            && cols@[q] < t@.len(),
                    forall|q: int| 0 <= q < l ==> sortable(t@[column_index(t@, #[trigger] names[q])].cells),
                decreases cols.len() - l,
            {
                let vals = &t.columns[cols[l]].values;
                if !all_numeric_values(vals) && !all_text_values(vals) {
                    assert(!sortable(t@[column_index(t@, names[l as int])].cells));
                    return Err(QueryError::TypeMismatch);
                }
                l = l + 1;
            }
            let ghost n = row_count(t@);
            let ghost rk = row_keys(t@, cols@);
            assert(cols@ =~= sort_positions(t@, names));
            assert(dirs@ =~= sort_dirs(keys@));
            let perm = sort_rows(t, &cols, &dirs);
            proof {
                lemma_sort_order_range(rk, n, dirs@);
                assert forall|q: int| 0 <= q < perm@.len() implies #[trigger] perm@[q] < row_count(t@) by {
                    assert(perm@.map_values(|x: usize| x as int)[q] == perm@[q] as int);
                }
            }
            Ok(reorder_table(t, &perm))
        },
    }
}

/// Where a plan's rows come from.
#[derive(Debug)]
pub enum Source {
    /// A table that is already flat.
    Frame(Table),
    /// A feature-collection document, flattened when the plan is collected.
    Document(Value),
}

/// The source can be read: a frame must be a well-formed table.
pub open spec fn source_ok(s: Source) -> bool {
    match s {
        Source::Frame(t) => table_wf(t@),
        Source::Document(_) => true,
    }
}

/// What collecting a plan gives: the steps run on the source table, or on the
/// flattened document; a document that cannot be flattened fails with its error.
pub open spec fn plan_outcome(r: Result<Table, QueryError>, src: Source, steps: Seq<Step>) -> bool {
    match src {
        Source::Frame(t) => table_outcome(r, run_steps(t@, steps)),
        Source::Document(d) => match flatten_error(d) {
            Some(x) => r == Err::<Table, QueryError>(x),
            None => exists|ft: Seq<ColView>|
                table_wf(ft) && flat_table(ft, d) && table_outcome(r, run_steps(ft, steps)),
        },
    }
}

/// A query that is only described: a source and the steps to run on it. Nothing is
/// read or computed before `collect`.
#[derive(Debug)]
pub struct LazyFrame {
    pub source: Source,
    pub steps: Vec<Step>,
}

fn run_plan(source: Table, steps: &Vec<Step>) -> (r: Result<Table, QueryError>)
    requires
        table_wf(source@),
    ensures
        table_outcome(r, run_steps(source@, steps@)),
{
    let ghost all = steps@;
    let ghost src = source@;
    let mut cur = source;
    let mut i: usize = 0;
    assert(all.skip(0) =~= all);
    while i < steps.len()
        invariant
            all == steps@,
            src == source@,
            i <= all.len(),
            table_wf(cur@),
            run_steps(src, all) == run_steps(cur@, all.skip(i as int)),
        decreases steps.len() - i,
    {
        assert(all.skip(i as int).drop_first() =~= all.skip(i as int + 1));
        assert(all.skip(i as int).len() > 0);
        assert(all.skip(i as int)[0] == all[i as int]);
        let next = apply_step(&cur, &steps[i]);
        match next {
            Ok(t2) => {
                cur = t2;
            },
            Err(x) => {
                assert(step_spec(cur@, all[i as int]) == Err::<Seq<ColView>, QueryError>(x));
                assert(run_steps(cur@, all.skip(i as int)) == Err::<Seq<ColView>, QueryError>(x));
                return Err(x);
            },
        }
        i = i + 1;
    }
    assert(all.skip(i as int).len() == 0);
    Ok(cur)
}

impl LazyFrame {
    /// A plan with no steps over the table `source`.
    pub fn new(source: Table) -> (r: LazyFrame)
        ensures
            r.source == Source::Frame(source),
            r.steps@ == Seq::<Step>::empty(),
    {
        LazyFrame { source: Source::Frame(source), steps: Vec::new() }
    }

    /// Appends a step to the plan.
    pub fn then(self, s: Step) -> (r: LazyFrame)
        ensures
            r.source == self.source,
            r.steps@ == self.steps@.push(s),
    {
        let LazyFrame { source, mut steps } = self;
        steps.push(s);
        LazyFrame { source, steps }
    }

    /// Runs the plan and materializes its result.
    pub fn collect(self) -> (r: Result<Table, QueryError>)
        requires
            source_ok(self.source),
        ensures
            plan_outcome(r, self.source, self.steps@),
    {
        let LazyFrame { source, steps } = self;
        match source {
            Source::Frame(t) => run_plan(t, &steps),
            Source::Document(d) => {
                let t = unnest_df(&d)?;
                let r = run_plan(t, &steps);
                assert(table_wf(t@) && flat_table(t@, d) && table_outcome(r, run_steps(t@, steps@)));
                r
            },
        }
    }
}

/// Materializing after any prefix of the steps and running the rest on that table
/// gives the same outcome as running all the steps at once: eager and lazy
/// execution agree row for row.
pub proof fn lemma_eager_matches_lazy(t: Seq<ColView>, steps: Seq<Step>, k: int)
    requires
        0 <= k <= steps.len(),
    ensures
        run_steps(t, steps) == match run_steps(t, steps.take(k)) {
            Ok(mid) => run_steps(mid, steps.skip(k)),
            Err(x) => Err(x),
        },
    decreases k,
{
    if k == 0 {
        assert(steps.take(0).len() == 0);
        assert(steps.skip(0) =~= steps);
    } else {
        let rest = steps.drop_first();
        assert(steps.take(k)[0] == steps[0]);
        assert(steps.take(k).drop_first() =~= rest.take(k - 1));
        assert(steps.skip(k) =~= rest.skip(k - 1));
        match step_spec(t, steps[0]) {
            Ok(t2) => {
                lemma_eager_matches_lazy(t2, rest, k - 1);
            },
            Err(_) => {},
        }
    }
}

} // verus!
