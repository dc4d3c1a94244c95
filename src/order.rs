use vstd::prelude::*;
use crate::number::{lemma_ratio_le_order, ratio_le, ratio_le_exec, ratio_of, ratio_value};
use crate::table::{ColView, Table, row_count, table_wf};
use crate::value::{CellView, Value, cell_view};

verus! {

/// Lexicographic order of texts by character code.
pub open spec fn text_le(a: Seq<char>, b: Seq<char>) -> bool
    decreases a.len(),
{
    if a.len() == 0 {
        true
    } else if b.len() == 0 {
        false
    } else if (a[0] as u32) != (b[0] as u32) {
        (a[0] as u32) < (b[0] as u32)
    } else {
        text_le(a.drop_first(), b.drop_first())
    }
}

/// Sort order of two cells: nulls first, then numbers by value or texts ascending (or
/// descending).
pub open spec fn cell_le(a: CellView, b: CellView, desc: bool) -> bool {
    match (a, b) {
        (CellView::Null, _) => true,
        (_, CellView::Null) => false,
        (CellView::Str(x), CellView::Str(y)) => if desc {
            text_le(y, x)
        } else {
            text_le(x, y)
        },
        _ => match (ratio_of(a), ratio_of(b)) {
            (Some(p), Some(q)) => if desc {
                ratio_le(q, p)
            } else {
                ratio_le(p, q)
            },
            _ => false,
        },
    }
}

pub open spec fn is_numeric(c: CellView) -> bool {
    c is Null || ratio_of(c) is Some
}

pub open spec fn is_text(c: CellView) -> bool {
    c is Str || c is Null
}

/// Every cell is a number (an integer, or a fraction within range) or null.
pub open spec fn all_numeric(cells: Seq<CellView>) -> bool {
    forall|i: int| 0 <= i < cells.len() ==> is_numeric(#[trigger] cells[i])
}

/// Every cell is a text or null.
pub open spec fn all_text(cells: Seq<CellView>) -> bool {
    forall|i: int| 0 <= i < cells.len() ==> is_text(#[trigger] cells[i])
}

/// Order of two key tuples from level `l` on: the first level where they differ
/// decides, each level in its own direction.
pub open spec fn tuple_le_from(a: Seq<CellView>, b: Seq<CellView>, desc: Seq<bool>, l: int) -> bool
    decreases desc.len() - l,
{
    if l < 0 || l >= desc.len() {
        true
    } else if cell_le(a[l], b[l], desc[l]) && cell_le(b[l], a[l], desc[l]) {
        tuple_le_from(a, b, desc, l + 1)
    } else {
        cell_le(a[l], b[l], desc[l])
    }
}

/// Sort order of two rows' key tuples.
pub open spec fn key_le(a: Seq<CellView>, b: Seq<CellView>, desc: Seq<bool>) -> bool {
    tuple_le_from(a, b, desc, 0)
}

/// Every row has one key per level, and each level holds integers only or texts only,
/// with nulls.
pub open spec fn sortable_rows(keys: Seq<Seq<CellView>>, desc: Seq<bool>) -> bool {
    &&& forall|r: int| 0 <= r < keys.len() ==> (#[trigger] keys[r]).len() == desc.len()
    &&& forall|l: int| 0 <= l < desc.len() ==> #[trigger] level_sortable(keys, l)
}

/// Level `l` of every key tuple is an integer or null, or it is a text or null.
pub open spec fn level_sortable(keys: Seq<Seq<CellView>>, l: int) -> bool {
    (forall|r: int| 0 <= r < keys.len() ==> is_numeric(#[trigger] keys[r][l])) || (forall|r: int|
        0 <= r < keys.len() ==> is_text(#[trigger] keys[r][l]))
}

/// A column can be a sort key when it holds integers only or texts only, with nulls.
pub open spec fn sortable(cells: Seq<CellView>) -> bool {
    all_numeric(cells) || all_text(cells)
}

/// Inserts row `j` into the ordered rows `s` after every row whose key sorts at or
/// before its own.
pub open spec fn insert_row(keys: Seq<Seq<CellView>>, s: Seq<int>, j: int, desc: Seq<bool>) -> Seq<int>
    decreases s.len(),
{
    if s.len() == 0 || key_le(keys[s.last()], keys[j], desc) {
        s.push(j)
    } else {
        insert_row(keys, s.drop_last(), j, desc).push(s.last())
    }
}

/// The stable sort order of the first `k` rows: row numbers in output order.
pub open spec fn sort_order(keys: Seq<Seq<CellView>>, k: int, desc: Seq<bool>) -> Seq<int>
    decreases k,
{
    if k <= 0 {
        seq![]
    } else {
        insert_row(keys, sort_order(keys, k - 1, desc), k - 1, desc)
    }
}

proof fn lemma_insert_split(keys: Seq<Seq<CellView>>, s: Seq<int>, j: int, desc: Seq<bool>, p: int)
    requires
        0 <= p <= s.len(),
        forall|q: int| p <= q < s.len() ==> !key_le(keys[#[trigger] s[q]], keys[j], desc),
        p == 0 || key_le(keys[s[p - 1]], keys[j], desc),
    ensures
        insert_row(keys, s, j, desc) == s.take(p).push(j) + s.skip(p),
    decreases s.len(),
{
    if p == s.len() {
        assert(s.skip(p) =~= Seq::<int>::empty());
        assert(s.take(p) =~= s);
        assert(s.take(p).push(j) + s.skip(p) =~= s.push(j));
    } else {
        assert(!key_le(keys[s[s.len() - 1]], keys[j], desc));
        let d = s.drop_last();
        assert forall|q: int| p <= q < d.len() implies !key_le(keys[#[trigger] d[q]], keys[j], desc) by {
            assert(d[q] == s[q]);
        }
        if p > 0 {
            assert(d[p - 1] == s[p - 1]);
        }
        lemma_insert_split(keys, d, j, desc, p);
        assert(d.take(p) =~= s.take(p));
        assert((d.take(p).push(j) + d.skip(p)).push(s.last()) =~= s.take(p).push(j) + s.skip(p));
    }
}

pub(crate) proof fn lemma_sort_order_range(keys: Seq<Seq<CellView>>, k: int, desc: Seq<bool>)
    requires
        k >= 0,
    ensures
        sort_order(keys, k, desc).len() == k,
        forall|q: int| 0 <= q < k ==> 0 <= #[trigger] sort_order(keys, k, desc)[q] < k,
    decreases k,
{
    if k > 0 {
        lemma_sort_order_range(keys, k - 1, desc);
        lemma_insert_range(keys, sort_order(keys, k - 1, desc), k - 1, desc);
    }
}

proof fn lemma_insert_range(keys: Seq<Seq<CellView>>, s: Seq<int>, j: int, desc: Seq<bool>)
    requires
        j >= 0,
        forall|q: int| 0 <= q < s.len() ==> 0 <= #[trigger] s[q] < j,
    ensures
        insert_row(keys, s, j, desc).len() == s.len() + 1,
        forall|q: int| 0 <= q < s.len() + 1 ==> 0 <= #[trigger] insert_row(keys, s, j, desc)[q] <= j,
    decreases s.len(),
{
    if s.len() > 0 && !key_le(keys[s.last()], keys[j], desc) {
        let d = s.drop_last();
        assert forall|q: int| 0 <= q < d.len() implies 0 <= #[trigger] d[q] < j by {
            assert(d[q] == s[q]);
        }
        lemma_insert_range(keys, d, j, desc);
    }
}

pub(crate) fn all_numeric_values(vals: &Vec<Value>) -> (r: bool)
    ensures
        r == all_numeric(vals@.map_values(|v: Value| cell_view(v))),
{
    let ghost cells = vals@.map_values(|v: Value| cell_view(v));
    let mut i: usize = 0;
    while i < vals.len()
        invariant
            cells == vals@.map_values(|v: Value| cell_view(v)),
            i <= vals@.len(),
            forall|k: int| 0 <= k < i ==> is_numeric(#[trigger] cells[k]),
        decreases vals.len() - i,
    {
        if !matches!(&vals[i], Value::Null) && ratio_value(&vals[i]).is_none() {
            assert(!is_numeric(cells[i as int]));
            return false;
        }
        i = i + 1;
    }
    true
}

pub(crate) fn all_text_values(vals: &Vec<Value>) -> (r: bool)
    ensures
        r == all_text(vals@.map_values(|v: Value| cell_view(v))),
{
    let ghost cells = vals@.map_values(|v: Value| cell_view(v));
    let mut i: usize = 0;
    while i < vals.len()
        invariant
            cells == vals@.map_values(|v: Value| cell_view(v)),
            i <= vals@.len(),
            forall|k: int| 0 <= k < i ==> is_text(#[trigger] cells[k]),
        decreases vals.len() - i,
    {
        match &vals[i] {
            Value::Str(_) => {},
            Value::Null => {},
            _ => {
                assert(!is_text(cells[i as int]));
                return false;
            },
        }
        i = i + 1;
    }
    true
}

fn text_le_exec(a: &String, b: &String) -> (r: bool)
    ensures
        r == text_le(a@, b@),
{
    let la = a.as_str().unicode_len();
    let lb = b.as_str().unicode_len();
    let mut i: usize = 0;
    assert(a@.skip(0) =~= a@);
    assert(b@.skip(0) =~= b@);
    while i < la && i < lb
        invariant
            la == a@.len(),
            lb == b@.len(),
            i <= la,
            i <= lb,
            text_le(a@, b@) == text_le(a@.skip(i as int), b@.skip(i as int)),
        decreases la - i,
    {
        let ca = a.as_str().get_char(i);
        let cb = b.as_str().get_char(i);
        assert(a@.skip(i as int)[0] == ca);
        assert(b@.skip(i as int)[0] == cb);
        if (ca as u32) != (cb as u32) {
            return (ca as u32) < (cb as u32);
        }
        assert(a@.skip(i as int).drop_first() =~= a@.skip(i as int + 1));
        assert(b@.skip(i as int).drop_first() =~= b@.skip(i as int + 1));
        i = i + 1;
    }
    i == la
}

fn cell_le_value(a: &Value, b: &Value, desc: bool) -> (r: bool)
    ensures
        r == cell_le(cell_view(*a), cell_view(*b), desc),
{
    match (a, b) {
        (Value::Null, _) => true,
        (_, Value::Null) => false,
        (Value::Str(x), Value::Str(y)) => if desc {
            text_le_exec(y, x)
        } else {
            text_le_exec(x, y)
        },
        _ => match (ratio_value(a), ratio_value(b)) {
            (Some(p), Some(q)) => if desc {
                ratio_le_exec(q, p)
            } else {
                ratio_le_exec(p, q)
            },
            _ => false,
        },
    }
}

/// The key tuple of every row: the cells of the columns `cols`, in that order.
pub open spec fn row_keys(t: Seq<ColView>, cols: Seq<usize>) -> Seq<Seq<CellView>> {
    Seq::new(row_count(t) as nat, |r: int| cols.map_values(|c: usize| t[c as int].cells[r]))
}

fn row_key_le(t: &Table, cols: &Vec<usize>, desc: &Vec<bool>, a: usize, b: usize) -> (r: bool)
    requires
        table_wf(t@),
        cols@.len() == desc@.len(),
        forall|l: int| 0 <= l < cols@.len() ==> #[trigger] cols@[l] < t@.len(),
        a < row_count(t@),
        b < row_count(t@),
    ensures
        r == key_le(row_keys(t@, cols@)[a as int], row_keys(t@, cols@)[b as int], desc@),
{
    let ghost ka = row_keys(t@, cols@)[a as int];
    let ghost kb = row_keys(t@, cols@)[b as int];
    let mut l: usize = 0;
    while l < cols.len()
        invariant
            table_wf(t@),
            cols@.len() == desc@.len(),
            forall|q: int| 0 <= q < cols@.len() ==> #[trigger] cols@[q] < t@.len(),
            a < row_count(t@),
            b < row_count(t@),
            ka == row_keys(t@, cols@)[a as int],
            kb == row_keys(t@, cols@)[b as int],
            l <= cols@.len(),
            key_le(ka, kb, desc@) == tuple_le_from(ka, kb, desc@, l as int),
        decreases cols.len() - l,
    {
        let c = cols[l];
        assert(t@[c as int].cells.len() == row_count(t@));
        let va = &t.columns[c].values[a];
        let vb = &t.columns[c].values[b];
        assert(ka[l as int] == cell_view(*va));
        assert(kb[l as int] == cell_view(*vb));
        let ab = cell_le_value(va, vb, desc[l]);
        let ba = cell_le_value(vb, va, desc[l]);
        if !(ab && ba) {
            return ab;
        }
        l = l + 1;
    }
    true
}

/// Row numbers of `t` in the stable sort order by the key columns `cols`.
pub(crate) fn sort_rows(t: &Table, cols: &Vec<usize>, desc: &Vec<bool>) -> (r: Vec<usize>)
    requires
        table_wf(t@),
        cols@.len() == desc@.len(),
        forall|l: int| 0 <= l < cols@.len() ==> #[trigger] cols@[l] < t@.len(),
    ensures
        r@.map_values(|x: usize| x as int) == sort_order(
            row_keys(t@, cols@),
            row_count(t@),
            desc@,
        ),
{
    let ghost keys = row_keys(t@, cols@);
    let n = t.height();
    let mut idx: Vec<usize> = Vec::new();
    let mut i: usize = 0;
    assert(idx@.map_values(|x: usize| x as int) =~= sort_order(keys, 0, desc@));
    while i < n
        invariant
            table_wf(t@),
            cols@.len() == desc@.len(),
            forall|l: int| 0 <= l < cols@.len() ==> #[trigger] cols@[l] < t@.len(),
            keys == row_keys(t@, cols@),
            n == row_count(t@),
            i <= n,
            idx@.map_values(|x: usize| x as int) == sort_order(keys, i as int, desc@),
        decreases n - i,
    {
        let ghost s = idx@.map_values(|x: usize| x as int);
        proof {
            lemma_sort_order_range(keys, i as int, desc@);
        }
        assert(idx@.len() == i);
        assert forall|q: int| 0 <= q < idx@.len() implies (#[trigger] idx@[q]) < i by {
            assert(s[q] == idx@[q] as int);
        }
        let mut p: usize = idx.len();
        while p > 0 && !row_key_le(t, cols, desc, idx[p - 1], i)
            invariant
                table_wf(t@),
                cols@.len() == desc@.len(),
                forall|l: int| 0 <= l < cols@.len() ==> #[trigger] cols@[l] < t@.len(),
                keys == row_keys(t@, cols@),
                n == row_count(t@),
                i < n,
                s == idx@.map_values(|x: usize| x as int),
                s.len() == i,
                forall|q: int| 0 <= q < i ==> 0 <= #[trigger] s[q] < i,
                p <= idx@.len(),
                forall|q: int| 0 <= q < idx@.len() ==> (#[trigger] idx@[q]) < i,
                forall|q: int| p <= q < s.len() ==> !key_le(keys[#[trigger] s[q]], keys[i as int], desc@),
            decreases p,
        {
            assert(s[p - 1] == idx@[p - 1] as int);
            p = p - 1;
        }
        proof {
            if p > 0 {
                assert(s[p - 1] == idx@[p - 1] as int);
            }
            lemma_insert_split(keys, s, i as int, desc@, p as int);
        }
        idx.insert(p, i);
        assert(idx@.map_values(|x: usize| x as int) =~= s.take(p as int).push(i as int) + s.skip(p as int));
        i = i + 1;
    }
    idx
}

/// Rows in `perm` appear in key order.
pub open spec fn ordered_by(keys: Seq<Seq<CellView>>, perm: Seq<int>, desc: Seq<bool>) -> bool {
    forall|a: int, b: int|
        0 <= a < b < perm.len() ==> key_le(keys[#[trigger] perm[a]], keys[#[trigger] perm[b]], desc)
}

/// Rows with equal keys keep their input order in `perm`.
pub open spec fn stable_in(keys: Seq<Seq<CellView>>, perm: Seq<int>, desc: Seq<bool>) -> bool {
    forall|a: int, b: int|
        0 <= a < b < perm.len() && key_le(keys[#[trigger] perm[b]], keys[#[trigger] perm[a]], desc)
            ==> perm[a] < perm[b]
}

/// `perm` lists each of the rows `0..k` exactly once.
pub open spec fn permutes(perm: Seq<int>, k: int) -> bool {
    &&& perm.len() == k
    &&& forall|q: int| 0 <= q < perm.len() ==> 0 <= #[trigger] perm[q] < k
    &&& forall|a: int, b: int| 0 <= a < b < perm.len() ==> #[trigger] perm[a] != #[trigger] perm[b]
}

proof fn lemma_text_le_facts(a: Seq<char>, b: Seq<char>, c: Seq<char>)
    ensures
        text_le(a, b) || text_le(b, a),
        text_le(a, b) && text_le(b, c) ==> text_le(a, c),
    decreases a.len(),
{
    if a.len() > 0 && b.len() > 0 && c.len() > 0 {
        lemma_text_le_facts(a.drop_first(), b.drop_first(), c.drop_first());
    } else if a.len() > 0 && b.len() > 0 {
        lemma_text_le_facts(a.drop_first(), b.drop_first(), c);
    }
}

proof fn lemma_cell_le_facts(x: CellView, y: CellView, z: CellView, desc: bool)
    requires
        (is_numeric(x) && is_numeric(y) && is_numeric(z)) || (is_text(x) && is_text(y) && is_text(
            z,
        )),
    ensures
        cell_le(x, y, desc) || cell_le(y, x, desc),
        cell_le(x, y, desc) && cell_le(y, z, desc) ==> cell_le(x, z, desc),
{
    if ratio_of(x) is Some && ratio_of(y) is Some && ratio_of(z) is Some {
        let (p, q, r) = (ratio_of(x)->0, ratio_of(y)->0, ratio_of(z)->0);
        lemma_ratio_le_order(p, q, r);
        lemma_ratio_le_order(r, q, p);
    } else if ratio_of(x) is Some && ratio_of(y) is Some {
        let (p, q) = (ratio_of(x)->0, ratio_of(y)->0);
        lemma_ratio_le_order(p, q, q);
    }
    if x is Str && y is Str && z is Str {
        lemma_text_le_facts(z->Str_0, y->Str_0, x->Str_0);
        lemma_text_le_facts(x->Str_0, y->Str_0, z->Str_0);
    } else if x is Str && y is Str {
        lemma_text_le_facts(x->Str_0, y->Str_0, y->Str_0);
    }
}

proof fn lemma_tuple_facts(
    keys: Seq<Seq<CellView>>,
    desc: Seq<bool>,
    x: int,
    y: int,
    z: int,
    l: int,
)
    requires
        sortable_rows(keys, desc),
        0 <= x < keys.len(),
        0 <= y < keys.len(),
        0 <= z < keys.len(),
        0 <= l,
    ensures
        tuple_le_from(keys[x], keys[y], desc, l) || tuple_le_from(keys[y], keys[x], desc, l),
        tuple_le_from(keys[x], keys[y], desc, l) && tuple_le_from(keys[y], keys[z], desc, l)
            ==> tuple_le_from(keys[x], keys[z], desc, l),
    decreases desc.len() - l,
{
    if l < desc.len() {
        let (a, b, c) = (keys[x][l], keys[y][l], keys[z][l]);
        assert(keys[x].len() == desc.len());
        assert(level_sortable(keys, l));
        if forall|r: int| 0 <= r < keys.len() ==> is_numeric(#[trigger] keys[r][l]) {
            assert(is_numeric(keys[x][l]) && is_numeric(keys[y][l]) && is_numeric(keys[z][l]));
        } else {
            assert(is_text(keys[x][l]) && is_text(keys[y][l]) && is_text(keys[z][l]));
        }
        lemma_cell_le_facts(a, b, c, desc[l]);
        lemma_cell_le_facts(c, b, a, desc[l]);
        lemma_cell_le_facts(a, c, b, desc[l]);
        lemma_cell_le_facts(b, a, c, desc[l]);
        lemma_cell_le_facts(b, c, a, desc[l]);
        lemma_cell_le_facts(c, a, b, desc[l]);
        lemma_tuple_facts(keys, desc, x, y, z, l + 1);
    }
}

proof fn lemma_row_facts(keys: Seq<Seq<CellView>>, desc: Seq<bool>, x: int, y: int, z: int)
    requires
        sortable_rows(keys, desc),
        0 <= x < keys.len(),
        0 <= y < keys.len(),
        0 <= z < keys.len(),
    ensures
        key_le(keys[x], keys[y], desc) || key_le(keys[y], keys[x], desc),
        key_le(keys[x], keys[y], desc) && key_le(keys[y], keys[z], desc) ==> key_le(
            keys[x],
            keys[z],
            desc,
        ),
{
    lemma_tuple_facts(keys, desc, x, y, z, 0);
}

proof fn lemma_insert_sorted(keys: Seq<Seq<CellView>>, s: Seq<int>, j: int, desc: Seq<bool>)
    requires
        sortable_rows(keys, desc),
        0 <= j < keys.len(),
        forall|q: int| 0 <= q < s.len() ==> 0 <= #[trigger] s[q] < j,
        forall|a: int, b: int| 0 <= a < b < s.len() ==> #[trigger] s[a] != #[trigger] s[b],
        ordered_by(keys, s, desc),
        stable_in(keys, s, desc),
    ensures
        ordered_by(keys, insert_row(keys, s, j, desc), desc),
        stable_in(keys, insert_row(keys, s, j, desc), desc),
        forall|a: int, b: int|
            0 <= a < b < insert_row(keys, s, j, desc).len() ==> #[trigger] insert_row(keys, s, j, desc)[a]
                != #[trigger] insert_row(keys, s, j, desc)[b],
        insert_row(keys, s, j, desc).len() == s.len() + 1,
        forall|q: int|
            0 <= q < s.len() + 1 ==> #[trigger] insert_row(keys, s, j, desc)[q] == j || s.contains(
                insert_row(keys, s, j, desc)[q],
            ),
    decreases s.len(),
{
    let r = insert_row(keys, s, j, desc);
    if s.len() == 0 || key_le(keys[s.last()], keys[j], desc) {
        assert(r == s.push(j));
        assert forall|a: int, b: int| 0 <= a < b < r.len() implies key_le(
            keys[#[trigger] r[a]],
            keys[#[trigger] r[b]],
            desc,
        ) by {
            if b == s.len() {
                let l = s.len() - 1;
                assert(keys[s[a]] == keys[s[a]]);
                lemma_row_facts(keys, desc, s[a], s[l], j);
                if a < l {
                    assert(key_le(keys[s[a]], keys[s[l]], desc));
                }
            } else {
                assert(key_le(keys[s[a]], keys[s[b]], desc));
            }
        }
        assert forall|a: int, b: int|
            0 <= a < b < r.len() && key_le(keys[#[trigger] r[b]], keys[#[trigger] r[a]], desc) implies r[a]
                < r[b] by {
            if b < s.len() {
                assert(s[a] < s[b]);
            }
        }
        assert forall|q: int| 0 <= q < s.len() + 1 implies #[trigger] r[q] == j || s.contains(r[q]) by {
            if q < s.len() {
                assert(s[q] == r[q]);
            }
        }
    } else {
        let d = s.drop_last();
        let last = s.last();
        assert forall|q: int| 0 <= q < d.len() implies 0 <= #[trigger] d[q] < j by {
            assert(d[q] == s[q]);
        }
        assert forall|a: int, b: int| 0 <= a < b < d.len() implies #[trigger] d[a] != #[trigger] d[b] by {
            assert(d[a] == s[a] && d[b] == s[b]);
        }
        assert forall|a: int, b: int| 0 <= a < b < d.len() implies key_le(
            keys[#[trigger] d[a]],
            keys[#[trigger] d[b]],
            desc,
        ) by {
            assert(d[a] == s[a] && d[b] == s[b]);
        }
        assert forall|a: int, b: int|
            0 <= a < b < d.len() && key_le(keys[#[trigger] d[b]], keys[#[trigger] d[a]], desc) implies d[a]
                < d[b] by {
            assert(d[a] == s[a] && d[b] == s[b]);
        }
        lemma_insert_sorted(keys, d, j, desc);
        let m = insert_row(keys, d, j, desc);
        assert(r == m.push(last));
        assert forall|q: int| 0 <= q < m.len() implies key_le(keys[#[trigger] m[q]], keys[last], desc) && (
        key_le(keys[last], keys[m[q]], desc) ==> m[q] < last) && m[q] != last by {
            if m[q] == j {
                lemma_row_facts(keys, desc, j, last, j);
            } else {
                assert(d.contains(m[q]));
                let w = choose|w: int| 0 <= w < d.len() && d[w] == m[q];
                assert(s[w] == m[q]);
                assert(key_le(keys[s[w]], keys[s[s.len() - 1]], desc));
                assert(s[w] != s[s.len() - 1]);
            }
        }
        assert forall|a: int, b: int| 0 <= a < b < r.len() implies key_le(
            keys[#[trigger] r[a]],
            keys[#[trigger] r[b]],
            desc,
        ) by {
            if b == m.len() {
                assert(r[a] == m[a]);
            } else {
                assert(r[a] == m[a] && r[b] == m[b]);
            }
        }
        assert forall|a: int, b: int|
            0 <= a < b < r.len() && key_le(keys[#[trigger] r[b]], keys[#[trigger] r[a]], desc) implies r[a]
                < r[b] by {
            assert(r[a] == m[a]);
            if b < m.len() {
                assert(r[b] == m[b]);
            }
        }
        assert forall|a: int, b: int| 0 <= a < b < r.len() implies #[trigger] r[a] != #[trigger] r[b] by {
            assert(r[a] == m[a]);
            if b < m.len() {
                assert(r[b] == m[b]);
            }
        }
        assert forall|q: int| 0 <= q < s.len() + 1 implies #[trigger] r[q] == j || s.contains(r[q]) by {
            if q < m.len() {
                assert(r[q] == m[q]);
                if m[q] != j {
                    assert(d.contains(m[q]));
                    let w = choose|w: int| 0 <= w < d.len() && d[w] == m[q];
                    assert(s[w] == m[q]);
                }
            } else {
                assert(s[s.len() - 1] == r[q]);
            }
        }
    }
}

/// The sort order lists every row exactly once, in key order, and keeps rows with
/// equal keys in their input order: it is the stable sort of the rows.
pub proof fn lemma_sort_order_is_stable_sort(keys: Seq<Seq<CellView>>, k: int, desc: Seq<bool>)
    requires
        sortable_rows(keys, desc),
        0 <= k <= keys.len(),
    ensures
        permutes(sort_order(keys, k, desc), k),
        ordered_by(keys, sort_order(keys, k, desc), desc),
        stable_in(keys, sort_order(keys, k, desc), desc),
    decreases k,
{
    lemma_sort_order_range(keys, k, desc);
    if k > 0 {
        lemma_sort_order_is_stable_sort(keys, k - 1, desc);
        lemma_sort_order_range(keys, k - 1, desc);
        lemma_insert_sorted(keys, sort_order(keys, k - 1, desc), k - 1, desc);
    }
}

} // verus!
