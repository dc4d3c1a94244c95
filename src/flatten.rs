use vstd::prelude::*;
use crate::geometry::{field_of, geometry_centroid_of, get_field, lemma_centroid_depends_on_content};
use crate::plan::{LazyFrame, Source};
use crate::table::{ColView, Column, QueryError, Table, table_wf};
use crate::value::{CellView, Value, cell_view, copy_value, deep_view, lemma_cell_view_content};

verus! {

pub open spec fn features_key() -> Seq<char> {
    seq!['f', 'e', 'a', 't', 'u', 'r', 'e', 's']
}

pub open spec fn properties_key() -> Seq<char> {
    seq!['p', 'r', 'o', 'p', 'e', 'r', 't', 'i', 'e', 's']
}

pub open spec fn geometry_key() -> Seq<char> {
    seq!['g', 'e', 'o', 'm', 'e', 't', 'r', 'y']
}

/// The feature records of a document `{features: [...]}`.
pub open spec fn doc_features(doc: Value) -> Option<Seq<Value>> {
    match field_of(doc, features_key()) {
        Some(Value::List(items)) => Some(items@),
        _ => None,
    }
}

/// A record with a `properties` struct and a `geometry` member.
pub open spec fn record_ok(f: Value) -> bool {
    &&& field_of(f, properties_key()) matches Some(Value::Struct(_))
    &&& field_of(f, geometry_key()) is Some
}

pub open spec fn prop_fields(f: Value) -> Seq<(String, Value)> {
    match field_of(f, properties_key()) {
        Some(Value::Struct(fs)) => fs@,
        _ => seq![],
    }
}

/// `acc` followed by the names among the first `j` members that it lacks, in order.
pub open spec fn add_names(acc: Seq<Seq<char>>, fs: Seq<(String, Value)>, j: int) -> Seq<Seq<char>>
    decreases j,
{
    if j <= 0 {
        acc
    } else if add_names(acc, fs, j - 1).contains(fs[j - 1].0@) {
        add_names(acc, fs, j - 1)
    } else {
        add_names(acc, fs, j - 1).push(fs[j - 1].0@)
    }
}

/// The property names of the first `k` records, each once, in order of first appearance.
pub open spec fn names_upto(recs: Seq<Value>, k: int) -> Seq<Seq<char>>
    decreases k,
{
    if k <= 0 {
        seq![]
    } else {
        let p = prop_fields(recs[k - 1]);
        add_names(names_upto(recs, k - 1), p, p.len() as int)
    }
}

/// The cell of record `f` under property `name`: its value, or null where it has none.
pub open spec fn prop_cell(f: Value, name: Seq<char>) -> CellView {
    match field_of(field_of(f, properties_key())->0, name) {
        Some(v) => cell_view(v),
        None => CellView::Null,
    }
}

/// Why a document cannot be flattened, checked in this order, or none.
pub open spec fn flatten_error(doc: Value) -> Option<QueryError> {
    match doc_features(doc) {
        None => Some(QueryError::MissingField),
        Some(recs) => if !(forall|r: int| 0 <= r < recs.len() ==> record_ok(#[trigger] recs[r])) {
            Some(QueryError::MissingField)
        } else if recs.len() > i64::MAX {
            Some(QueryError::TooManyRows)
        } else if names_upto(recs, recs.len() as int).contains(geometry_key()) {
            Some(QueryError::DuplicateColumn)
        } else {
            None
        },
    }
}

/// The flat table of a document: one column per property name, then `geometry`. Cells
/// are compared through `cell_view`, which shows nested values with their whole content,
/// so each geometry cell holds the record's geometry unchanged.
pub open spec fn flat_table(t: Seq<ColView>, doc: Value) -> bool {
    let recs = doc_features(doc)->0;
    let names = names_upto(recs, recs.len() as int);
    &&& t.len() == names.len() + 1
    &&& forall|c: int|
        0 <= c < names.len() ==> (#[trigger] t[c]).name == names[c] && t[c].cells.len()
            == recs.len() && forall|r: int|
            0 <= r < recs.len() ==> t[c].cells[r] == prop_cell(#[trigger] recs[r], names[c])
    &&& t[names.len() as int].name == geometry_key()
    &&& t[names.len() as int].cells.len() == recs.len()
    &&& forall|r: int|
        0 <= r < recs.len() ==> t[names.len() as int].cells[r] == cell_view(
            field_of(#[trigger] recs[r], geometry_key())->0,
        )
}

proof fn lemma_add_names(acc: Seq<Seq<char>>, fs: Seq<(String, Value)>, j: int)
    requires
        0 <= j <= fs.len(),
        forall|a: int, b: int| 0 <= a < b < acc.len() ==> #[trigger] acc[a] != #[trigger] acc[b],
    ensures
        forall|a: int, b: int|
            0 <= a < b < add_names(acc, fs, j).len() ==> #[trigger] add_names(acc, fs, j)[a]
                != #[trigger] add_names(acc, fs, j)[b],
        add_names(acc, fs, j).len() >= acc.len(),
        forall|a: int| 0 <= a < acc.len() ==> add_names(acc, fs, j)[a] == #[trigger] acc[a],
    decreases j,
{
    if j > 0 {
        lemma_add_names(acc, fs, j - 1);
        let p = add_names(acc, fs, j - 1);
        if !p.contains(fs[j - 1].0@) {
            let q = p.push(fs[j - 1].0@);
            assert forall|a: int, b: int| 0 <= a < b < q.len() implies #[trigger] q[a] != #[trigger] q[b] by {
                if b == p.len() {
                    assert(p.contains(p[a]));
                }
            }
        }
    }
}

proof fn lemma_names_distinct(recs: Seq<Value>, k: int)
    requires
        0 <= k <= recs.len(),
    ensures
        forall|a: int, b: int|
            0 <= a < b < names_upto(recs, k).len() ==> #[trigger] names_upto(recs, k)[a]
                != #[trigger] names_upto(recs, k)[b],
    decreases k,
{
    if k > 0 {
        lemma_names_distinct(recs, k - 1);
        let p = prop_fields(recs[k - 1]);
        lemma_add_names(names_upto(recs, k - 1), p, p.len() as int);
    }
}

fn contains_name(names: &Vec<String>, s: &String) -> (r: bool)
    ensures
        r == names@.map_values(|n: String| n@).contains(s@),
{
    let ghost nv = names@.map_values(|n: String| n@);
    let mut i: usize = 0;
    while i < names.len()
        invariant
            nv == names@.map_values(|n: String| n@),
            i <= names@.len(),
            forall|k: int| 0 <= k < i ==> nv[k] != s@,
        decreases names.len() - i,
    {
        if names[i] == *s {
            assert(nv[i as int] == s@);
            return true;
        }
        i = i + 1;
    }
    false
}

/// Flattens a feature-collection document into a table: one row per record, one column
/// per property name (null where a record lacks it), then the record's `geometry`.
pub fn unnest_df(doc: &Value) -> (r: Result<Table, QueryError>)
    ensures
        r is Err <==> flatten_error(*doc) is Some,
        r is Err ==> r->Err_0 == flatten_error(*doc)->0,
        r is Ok ==> table_wf(r->Ok_0@) && flat_table(r->Ok_0@, *doc),
{
    let fkey = String::from_str("features");
    let pkey = String::from_str("properties");
    let gkey = String::from_str("geometry");
    proof {
        reveal_strlit("features");
        reveal_strlit("properties");
        reveal_strlit("geometry");
    }
    assert(fkey@ == features_key());
    assert(pkey@ == properties_key());
    assert(gkey@ == geometry_key());
    let recs = match get_field(doc, &fkey) {
        Some(Value::List(items)) => items,
        _ => {
            return Err(QueryError::MissingField);
        },
    };
    let ghost rv = recs@;
    assert(doc_features(*doc) == Some(rv));
    let n = recs.len();
    let mut i: usize = 0;
    while i < n
        invariant
            n == rv.len(),
            rv == recs@,
            doc_features(*doc) == Some(rv),
            pkey@ == properties_key(),
            gkey@ == geometry_key(),
            i <= n,
            forall|r: int| 0 <= r < i ==> record_ok(#[trigger] rv[r]),
        decreases n - i,
    {
        let ok = match get_field(&recs[i], &pkey) {
            Some(Value::Struct(_)) => get_field(&recs[i], &gkey).is_some(),
            _ => false,
        };
        if !ok {
            assert(!record_ok(rv[i as int]));
            return Err(QueryError::MissingField);
        }
        i = i + 1;
    }
    if n as u64 > 0x7fff_ffff_ffff_ffffu64 {
        return Err(QueryError::TooManyRows);
    }
    // Property names, in order of first appearance.
    let mut names: Vec<String> = Vec::new();
    let mut k: usize = 0;
    assert(names@.map_values(|s: String| s@) =~= names_upto(rv, 0));
    while k < n
        invariant
            n == rv.len(),
            rv == recs@,
            pkey@ == properties_key(),
            forall|r: int| 0 <= r < n ==> record_ok(#[trigger] rv[r]),
            k <= n,
            names@.map_values(|s: String| s@) == names_upto(rv, k as int),
        decreases n - k,
    {
        let props = match get_field(&recs[k], &pkey) {
            Some(Value::Struct(fs)) => fs,
            _ => {
                assert(record_ok(rv[k as int]));
                return Err(QueryError::MissingField);
            },
        };
        let ghost p = props@;
        assert(p == prop_fields(rv[k as int]));
        let ghost base = names_upto(rv, k as int);
        let mut j: usize = 0;
        while j < props.len()
            invariant
                p == props@,
                j <= p.len(),
                names@.map_values(|s: String| s@) == add_names(base, p, j as int),
            decreases props.len() - j,
        {
            let ghost before = names@.map_values(|s: String| s@);
            if !contains_name(&names, &props[j].0) {
                names.push(props[j].0.clone());
                assert(names@.map_values(|s: String| s@) =~= before.push(p[j as int].0@));
            }
            j = j + 1;
        }
        k = k + 1;
    }
    let ghost nv = names_upto(rv, n as int);
    if contains_name(&names, &gkey) {
        return Err(QueryError::DuplicateColumn);
    }
    proof {
        lemma_names_distinct(rv, n as int);
    }
    // One column per name.
    let mut cols: Vec<Column> = Vec::new();
    let mut c: usize = 0;
    while c < names.len()
        invariant
            n == rv.len(),
            rv == recs@,
            pkey@ == properties_key(),
            forall|r: int| 0 <= r < n ==> record_ok(#[trigger] rv[r]),
            names@.map_values(|s: String| s@) == nv,
            c <= names@.len(),
            cols@.len() == c,
            forall|q: int|
                0 <= q < c ==> (#[trigger] cols@[q])@.name == nv[q] && cols@[q]@.cells.len() == n
                    && forall|r: int|
                    0 <= r < n ==> cols@[q]@.cells[r] == prop_cell(#[trigger] rv[r], nv[q]),
        decreases names.len() - c,
    {
        let mut vals: Vec<Value> = Vec::new();
        let mut r: usize = 0;
        while r < n
            invariant
                n == rv.len(),
                rv == recs@,
                pkey@ == properties_key(),
                forall|q: int| 0 <= q < n ==> record_ok(#[trigger] rv[q]),
                names@.map_values(|s: String| s@) == nv,
                c < names@.len(),
                r <= n,
                vals@.len() == r,
                forall|q: int|
                    0 <= q < r ==> cell_view(#[trigger] vals@[q]) == prop_cell(rv[q], nv[c as int]),
            decreases n - r,
        {
            assert(record_ok(rv[r as int]));
            let pv = get_field(&recs[r], &pkey).unwrap();
            let cell = match get_field(pv, &names[c]) {
                Some(v) => copy_value(v),
                None => Value::Null,
            };
            vals.push(cell);
            r = r + 1;
        }
        let col = Column { name: names[c].clone(), values: vals };
        cols.push(col);
        c = c + 1;
    }
    // Then the geometry column.
    let mut gvals: Vec<Value> = Vec::new();
    let mut r: usize = 0;
    while r < n
        invariant
            n == rv.len(),
            rv == recs@,
            gkey@ == geometry_key(),
            forall|q: int| 0 <= q < n ==> record_ok(#[trigger] rv[q]),
            r <= n,
            gvals@.len() == r,
            forall|q: int|
                0 <= q < r ==> cell_view(#[trigger] gvals@[q]) == cell_view(
                    field_of(rv[q], geometry_key())->0,
                ),
        decreases n - r,
    {
        assert(record_ok(rv[r as int]));
        let g = get_field(&recs[r], &gkey).unwrap();
        gvals.push(copy_value(g));
        r = r + 1;
    }
    cols.push(Column { name: gkey, values: gvals });
    let t = Table { columns: cols };
    proof {
        let tv = t@;
        let m = nv.len() as int;
        assert(tv.len() == m + 1);
        assert forall|q: int| 0 <= q < tv.len() implies #[trigger] tv[q].cells.len() == n by {
            if q < m {
                assert(cols@[q]@ == tv[q]);
            }
        }
        assert(tv[0].cells.len() == n);
        assert forall|a: int, b: int| 0 <= a < b < tv.len() implies #[trigger] tv[a].name != #[trigger] tv[b].name by {
            if b < m {
                assert(tv[a].name == nv[a]);
                assert(tv[b].name == nv[b]);
            } else {
                assert(tv[a].name == nv[a]);
                assert(nv.contains(nv[a]));
            }
        }
        assert forall|q: int| 0 <= q < m implies (#[trigger] tv[q]).name == nv[q] && tv[q].cells.len()
            == rv.len() && forall|r: int|
            0 <= r < rv.len() ==> tv[q].cells[r] == prop_cell(#[trigger] rv[r], nv[q]) by {
            assert(cols@[q]@ == tv[q]);
        }
    }
    Ok(t)
}

/// A plan whose source is the document, flattened only when the plan is collected;
/// building it reads nothing and cannot fail.
pub fn unnest_lf(doc: Value) -> (r: LazyFrame)
    ensures
        r.source == Source::Document(doc),
        r.steps@.len() == 0,
{
    LazyFrame { source: Source::Document(doc), steps: Vec::new() }
}

/// Flattening keeps each record's geometry unchanged: a value that the geometry cell of
/// row `r` shows has the record's geometry content, and so the same centroid.
pub proof fn lemma_flattened_geometry_kept(doc: Value, t: Seq<ColView>, v: Value, r: int)
    requires
        flatten_error(doc) is None,
        flat_table(t, doc),
        0 <= r < doc_features(doc)->0.len(),
        cell_view(v) == t[t.len() - 1].cells[r],
    ensures
        deep_view(v) == deep_view(field_of(doc_features(doc)->0[r], geometry_key())->0),
        geometry_centroid_of(v) == geometry_centroid_of(
            field_of(doc_features(doc)->0[r], geometry_key())->0,
        ),
{
    let recs = doc_features(doc)->0;
    let g = field_of(recs[r], geometry_key())->0;
    assert(t[t.len() - 1].cells[r] == cell_view(g));
    lemma_cell_view_content(v, g);
    lemma_centroid_depends_on_content(v, g);
}

} // verus!
