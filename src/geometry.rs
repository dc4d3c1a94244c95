use vstd::prelude::*;
use crate::table::QueryError;
use crate::value::{Value, ValueView, deep_view};

verus! {

/// Largest magnitude of a coordinate, in fixed-point units.
pub const COORD_LIMIT: i64 = 2147483648;

/// Most vertices that a ring may have.
pub const MAX_VERTICES: usize = 2147483648;

/// A vertex, in fixed-point units (for instance micro-degrees of longitude and latitude).
#[derive(Clone, Copy, Debug, PartialEq, Eq, Structural)]
pub struct Point {
    pub x: i64,
    pub y: i64,
}

/// An exact centroid: `x = x_num / den`, `y = y_num / den`, with `den != 0`.
#[derive(Clone, Copy, Debug, PartialEq, Eq, Structural)]
pub struct Centroid {
    pub x_num: i128,
    pub y_num: i128,
    pub den: i128,
}

pub open spec fn point_in_range(p: Point) -> bool {
    -COORD_LIMIT <= p.x <= COORD_LIMIT && -COORD_LIMIT <= p.y <= COORD_LIMIT
}

/// A ring that the centroid computation accepts: coordinates and length in range.
pub open spec fn ring_in_range(ring: Seq<Point>) -> bool {
    &&& ring.len() <= MAX_VERTICES
    &&& forall|i: int| 0 <= i < ring.len() ==> point_in_range(#[trigger] ring[i])
}

/// The vertex after vertex `i`, the ring being implicitly closed.
pub open spec fn next_vertex(ring: Seq<Point>, i: int) -> Point {
    if i + 1 < ring.len() {
        ring[i + 1]
    } else {
        ring[0]
    }
}

/// The shoelace term of edge `i`: `x_i * y_{i+1} - x_{i+1} * y_i`.
pub open spec fn cross(ring: Seq<Point>, i: int) -> int {
    ring[i].x * next_vertex(ring, i).y - next_vertex(ring, i).x * ring[i].y
}

/// Sum of the shoelace terms of the first `k` edges.
pub open spec fn area2_upto(ring: Seq<Point>, k: int) -> int
    decreases k,
{
    if k <= 0 {
        0
    } else {
        area2_upto(ring, k - 1) + cross(ring, k - 1)
    }
}

/// `sum (x_i + x_{i+1}) * cross_i` over the first `k` edges.
pub open spec fn cx_upto(ring: Seq<Point>, k: int) -> int
    decreases k,
{
    if k <= 0 {
        0
    } else {
        cx_upto(ring, k - 1) + (ring[k - 1].x + next_vertex(ring, k - 1).x) * cross(ring, k - 1)
    }
}

/// `sum (y_i + y_{i+1}) * cross_i` over the first `k` edges.
pub open spec fn cy_upto(ring: Seq<Point>, k: int) -> int
    decreases k,
{
    if k <= 0 {
        0
    } else {
        cy_upto(ring, k - 1) + (ring[k - 1].y + next_vertex(ring, k - 1).y) * cross(ring, k - 1)
    }
}

/// Twice the signed area of the polygon (shoelace formula).
pub open spec fn signed_area2(ring: Seq<Point>) -> int {
    area2_upto(ring, ring.len() as int)
}

/// The area-weighted centroid of a ring, or none when it has fewer than three
/// vertices or zero area. With `A` the signed area, `x = cx / (6A) = cx / (3 * 2A)`.
pub open spec fn centroid_of(ring: Seq<Point>) -> Option<Centroid> {
    if ring.len() < 3 || signed_area2(ring) == 0 {
        None
    } else {
        Some(
            Centroid {
                x_num: cx_upto(ring, ring.len() as int) as i128,
                y_num: cy_upto(ring, ring.len() as int) as i128,
                den: (3 * signed_area2(ring)) as i128,
            },
        )
    }
}

proof fn lemma_cross_bounds(ring: Seq<Point>, i: int)
    requires
        ring_in_range(ring),
        0 <= i < ring.len(),
    ensures
        -0x4000_0000_0000_0000 <= ring[i].x * next_vertex(ring, i).y <= 0x4000_0000_0000_0000,
        -0x4000_0000_0000_0000 <= next_vertex(ring, i).x * ring[i].y <= 0x4000_0000_0000_0000,
        -0x8000_0000_0000_0000 <= cross(ring, i) <= 0x8000_0000_0000_0000,
        -0x8000_0000_0000_0000_0000_0000 <= (ring[i].x + next_vertex(ring, i).x) * cross(ring, i)
            <= 0x8000_0000_0000_0000_0000_0000,
        -0x8000_0000_0000_0000_0000_0000 <= (ring[i].y + next_vertex(ring, i).y) * cross(ring, i)
            <= 0x8000_0000_0000_0000_0000_0000,
{
    let p = ring[i];
    let q = next_vertex(ring, i);
    assert(point_in_range(p));
    assert(point_in_range(q));
    let (a, b, c, d) = (p.x as int, q.y as int, q.x as int, p.y as int);
    let l = 0x8000_0000int;
    assert(-0x4000_0000_0000_0000 <= a * b <= 0x4000_0000_0000_0000) by (nonlinear_arith)
        requires
            -l <= a <= l,
            -l <= b <= l,
            l == 0x8000_0000int,
    ;
    assert(-0x4000_0000_0000_0000 <= c * d <= 0x4000_0000_0000_0000) by (nonlinear_arith)
        requires
            -l <= c <= l,
            -l <= d <= l,
            l == 0x8000_0000int,
    ;
    let cr = cross(ring, i);
    let sx = a + c;
    let sy = d + b;
    assert(-0x8000_0000_0000_0000_0000_0000 <= sx * cr <= 0x8000_0000_0000_0000_0000_0000)
        by (nonlinear_arith)
        requires
            -0x1_0000_0000 <= sx <= 0x1_0000_0000,
            -0x8000_0000_0000_0000 <= cr <= 0x8000_0000_0000_0000,
    ;
    assert(-0x8000_0000_0000_0000_0000_0000 <= sy * cr <= 0x8000_0000_0000_0000_0000_0000)
        by (nonlinear_arith)
        requires
            -0x1_0000_0000 <= sy <= 0x1_0000_0000,
            -0x8000_0000_0000_0000 <= cr <= 0x8000_0000_0000_0000,
    ;
}

/// Area-weighted centroid of the polygon whose outer boundary is `ring` (implicitly
/// closed); none when the ring has fewer than three vertices or zero area.
pub fn polygon_centroid(ring: &Vec<Point>) -> (r: Option<Centroid>)
    requires
        ring_in_range(ring@),
    ensures
        r == centroid_of(ring@),
        r is Some ==> centroid_in_range(r->0),
{
    let n = ring.len();
    if n < 3 {
        return None;
    }
    let mut a2: i128 = 0;
    let mut cx: i128 = 0;
    let mut cy: i128 = 0;
    let mut i: usize = 0;
    while i < n
        invariant
            n == ring@.len(),
            ring_in_range(ring@),
            0 <= i <= n,
            a2 == area2_upto(ring@, i as int),
            cx == cx_upto(ring@, i as int),
            cy == cy_upto(ring@, i as int),
            -(i as int) * 0x8000_0000_0000_0000 <= a2 <= (i as int) * 0x8000_0000_0000_0000,
            -(i as int) * 0x8000_0000_0000_0000_0000_0000 <= cx <= (i as int) * 0x8000_0000_0000_0000_0000_0000,
            -(i as int) * 0x8000_0000_0000_0000_0000_0000 <= cy <= (i as int) * 0x8000_0000_0000_0000_0000_0000,
        decreases n - i,
    {
        proof {
            lemma_cross_bounds(ring@, i as int);
        }
        let p = ring[i];
        let q = if i + 1 < n {
            ring[i + 1]
        } else {
            ring[0]
        };
        let c: i128 = p.x as i128 * q.y as i128 - q.x as i128 * p.y as i128;
        a2 = a2 + c;
        cx = cx + (p.x as i128 + q.x as i128) * c;
        cy = cy + (p.y as i128 + q.y as i128) * c;
        i = i + 1;
    }
    if a2 == 0 {
        None
    } else {
        Some(Centroid { x_num: cx, y_num: cy, den: 3 * a2 })
    }
}

/// The value of the first member called `name`, from position `i` on.
pub open spec fn field_from(fields: Seq<(String, Value)>, name: Seq<char>, i: int) -> Option<Value>
    decreases fields.len() - i,
{
    if i < 0 || i >= fields.len() {
        None
    } else if fields[i].0@ == name {
        Some(fields[i].1)
    } else {
        field_from(fields, name, i + 1)
    }
}

/// The value of the first member of a struct value called `name`.
pub open spec fn field_of(v: Value, name: Seq<char>) -> Option<Value> {
    match v {
        Value::Struct(fields) => field_from(fields@, name, 0),
        _ => None,
    }
}

/// Looks up the first member called `name` of a struct value.
pub fn get_field<'a>(v: &'a Value, name: &String) -> (r: Option<&'a Value>)
    ensures
        r is Some <==> field_of(*v, name@) is Some,
        r is Some ==> *r->0 == field_of(*v, name@)->0,
{
    match v {
        Value::Struct(fields) => {
            let mut i: usize = 0;
            while i < fields.len()
                invariant
                    *v == Value::Struct(*fields),
                    i <= fields@.len(),
                    field_from(fields@, name@, 0) == field_from(fields@, name@, i as int),
                decreases fields.len() - i,
            {
                if fields[i].0 == *name {
                    return Some(&fields[i].1);
                }
                i = i + 1;
            }
            None
        },
        _ => None,
    }
}

/// A vertex written as a list whose first two entries are integers in range.
pub open spec fn point_of(v: Value) -> Option<Point> {
    match v {
        Value::List(items) => if items@.len() >= 2 && items@[0] is Int && items@[1] is Int {
            let p = Point { x: items@[0]->Int_0, y: items@[1]->Int_0 };
            if point_in_range(p) {
                Some(p)
            } else {
                None
            }
        } else {
            None
        },
        _ => None,
    }
}

/// The vertices written by the first `k` entries of a ring; null entries are skipped,
/// and any other entry that is not a vertex makes the ring malformed.
pub open spec fn ring_points(items: Seq<Value>, k: int) -> Option<Seq<Point>>
    decreases k,
{
    if k <= 0 {
        Some(seq![])
    } else {
        match ring_points(items, k - 1) {
            None => None,
            Some(ps) => if items[k - 1] is Null {
                Some(ps)
            } else {
                match point_of(items[k - 1]) {
                    Some(p) => Some(ps.push(p)),
                    None => None,
                }
            },
        }
    }
}

/// The outer ring of a geometry value `{coordinates: [[point, ...], ...]}`: none for a
/// null geometry, null coordinates or no rings, an error for any other shape.
pub open spec fn geometry_ring(g: Value) -> Result<Option<Seq<Point>>, QueryError> {
    if g is Null {
        Ok(None)
    } else {
        match field_of(g, seq!['c', 'o', 'o', 'r', 'd', 'i', 'n', 'a', 't', 'e', 's']) {
            Some(Value::Null) => Ok(None),
            Some(Value::List(rings)) => if rings@.len() == 0 {
                Ok(None)
            } else {
                match rings@[0] {
                    Value::Null => Ok(None),
                    Value::List(items) => match ring_points(items@, items@.len() as int) {
                        Some(ps) => if ps.len() <= MAX_VERTICES {
                            Ok(Some(ps))
                        } else {
                            Err(QueryError::ParseError)
                        },
                        None => Err(QueryError::ParseError),
                    },
                    _ => Err(QueryError::ParseError),
                }
            },
            _ => Err(QueryError::ParseError),
        }
    }
}

/// The centroid of one geometry cell.
pub open spec fn geometry_centroid_of(g: Value) -> Result<Option<Centroid>, QueryError> {
    match geometry_ring(g) {
        Err(x) => Err(x),
        Ok(None) => Ok(None),
        Ok(Some(ring)) => Ok(centroid_of(ring)),
    }
}

fn read_point(v: &Value) -> (r: Option<Point>)
    ensures
        r == point_of(*v),
{
    match v {
        Value::List(items) => {
            if items.len() < 2 {
                return None;
            }
            match (&items[0], &items[1]) {
                (Value::Int(x), Value::Int(y)) => {
                    let p = Point { x: *x, y: *y };
                    if -COORD_LIMIT <= p.x && p.x <= COORD_LIMIT && -COORD_LIMIT <= p.y && p.y
                        <= COORD_LIMIT {
                        Some(p)
                    } else {
                        None
                    }
                },
                _ => None,
            }
        },
        _ => None,
    }
}

proof fn lemma_ring_points_none_stays(items: Seq<Value>, k: int, m: int)
    requires
        k <= m,
        ring_points(items, k) is None,
    ensures
        ring_points(items, m) is None,
    decreases m - k,
{
    if k < m {
        lemma_ring_points_none_stays(items, k, m - 1);
    }
}

/// The centroid of a geometry cell: null for a null geometry, a geometry without
/// rings, a ring of fewer than three vertices or of zero area.
pub fn geometry_centroid(g: &Value) -> (r: Result<Option<Centroid>, QueryError>)
    ensures
        r == geometry_centroid_of(*g),
        r matches Ok(Some(c)) ==> centroid_in_range(c),
{
    if matches!(g, Value::Null) {
        return Ok(None);
    }
    let key = String::from_str("coordinates");
    proof {
        reveal_strlit("coordinates");
    }
    assert(key@ == seq!['c', 'o', 'o', 'r', 'd', 'i', 'n', 'a', 't', 'e', 's']);
    let rings = match get_field(g, &key) {
        Some(Value::Null) => {
            return Ok(None);
        },
        Some(Value::List(rings)) => rings,
        _ => {
            return Err(QueryError::ParseError);
        },
    };
    if rings.len() == 0 {
        return Ok(None);
    }
    let items = match &rings[0] {
        Value::Null => {
            return Ok(None);
        },
        Value::List(items) => items,
        _ => {
            return Err(QueryError::ParseError);
        },
    };
    let mut ring: Vec<Point> = Vec::new();
    let mut i: usize = 0;
    while i < items.len()
        invariant
            !(*g is Null),
            field_of(*g, seq!['c', 'o', 'o', 'r', 'd', 'i', 'n', 'a', 't', 'e', 's']) == Some(
                Value::List(*rings),
            ),
            rings@.len() > 0,
            rings@[0] == Value::List(*items),
            i <= items@.len(),
            ring_points(items@, i as int) == Some(ring@),
            ring@.len() <= i,
        decreases items.len() - i,
    {
        if !matches!(&items[i], Value::Null) {
            match read_point(&items[i]) {
                Some(p) => {
                    ring.push(p);
                },
                None => {
                    proof {
                        lemma_ring_points_none_stays(items@, i as int + 1, items@.len() as int);
                    }
                    return Err(QueryError::ParseError);
                },
            }
        }
        i = i + 1;
    }
    if ring.len() > MAX_VERTICES {
        return Err(QueryError::ParseError);
    }
    proof {
        let ps = ring@;
        assert forall|k: int| 0 <= k < ps.len() implies point_in_range(#[trigger] ps[k]) by {
            lemma_ring_points_in_range(items@, items@.len() as int, k);
        }
    }
    Ok(polygon_centroid(&ring))
}

proof fn lemma_ring_points_in_range(items: Seq<Value>, n: int, k: int)
    requires
        ring_points(items, n) is Some,
        0 <= k < ring_points(items, n)->0.len(),
    ensures
        point_in_range(ring_points(items, n)->0[k]),
    decreases n,
{
    if n > 0 {
        let prev = ring_points(items, n - 1)->0;
        if k < prev.len() {
            lemma_ring_points_in_range(items, n - 1, k);
        }
    }
}

/// Centroids of a whole column of geometry cells, row for row; the first malformed
/// geometry fails the column.
pub fn centroid_column(geoms: &Vec<Value>) -> (r: Result<Vec<Option<Centroid>>, QueryError>)
    ensures
        r is Ok ==> r->Ok_0@.len() == geoms@.len() && forall|i: int|
            0 <= i < geoms@.len() ==> geometry_centroid_of(#[trigger] geoms@[i]) == Ok::<
                Option<Centroid>,
                QueryError,
            >(r->Ok_0@[i]),
        r is Err ==> exists|i: int|
            0 <= i < geoms@.len() && geometry_centroid_of(#[trigger] geoms@[i]) == Err::<
                Option<Centroid>,
                QueryError,
            >(r->Err_0) && forall|j: int| 0 <= j < i ==> geometry_centroid_of(#[trigger] geoms@[j]) is Ok,
{
    let mut out: Vec<Option<Centroid>> = Vec::new();
    let mut i: usize = 0;
    while i < geoms.len()
        invariant
            i <= geoms@.len(),
            out@.len() == i,
            forall|k: int| 0 <= k < i ==> geometry_centroid_of(#[trigger] geoms@[k]) == Ok::<
                Option<Centroid>,
                QueryError,
            >(out@[k]),
        decreases geoms.len() - i,
    {
        match geometry_centroid(&geoms[i]) {
            Ok(c) => {
                out.push(c);
            },
            Err(x) => {
                assert(forall|j: int| 0 <= j < i ==> geometry_centroid_of(#[trigger] geoms@[j]) is Ok);
                return Err(x);
            },
        }
        i = i + 1;
    }
    Ok(out)
}

/// A geometry whose outer ring has fewer than three usable vertices has no centroid:
/// both coordinates are null.
pub proof fn lemma_few_vertices_no_centroid(g: Value)
    requires
        geometry_ring(g) matches Ok(Some(ring)) && ring.len() < 3,
    ensures
        geometry_centroid_of(g) == Ok::<Option<Centroid>, QueryError>(None),
{
}

/// A null geometry gives a null centroid, not a default point.
pub proof fn lemma_null_geometry_no_centroid(g: Value)
    requires
        g is Null,
    ensures
        geometry_centroid_of(g) == Ok::<Option<Centroid>, QueryError>(None),
{
}

proof fn lemma_deep_list(a: Value, b: Value)
    requires
        deep_view(a) == deep_view(b),
        a is List,
    ensures
        b is List,
        a->List_0@.len() == b->List_0@.len(),
        forall|k: int|
            0 <= k < a->List_0@.len() ==> deep_view(#[trigger] a->List_0@[k]) == deep_view(
                b->List_0@[k],
            ),
{
    let xa = a->List_0@;
    assert(deep_view(a)->List_0.len() == xa.len());
    assert forall|k: int| 0 <= k < xa.len() implies deep_view(#[trigger] xa[k]) == deep_view(
        b->List_0@[k],
    ) by {
        assert(deep_view(a)->List_0[k] == deep_view(xa[k]));
        assert(deep_view(b)->List_0[k] == deep_view(b->List_0@[k]));
    }
}

proof fn lemma_deep_struct(a: Value, b: Value)
    requires
        deep_view(a) == deep_view(b),
        a is Struct,
    ensures
        b is Struct,
        a->Struct_0@.len() == b->Struct_0@.len(),
        forall|k: int|
            0 <= k < a->Struct_0@.len() ==> (#[trigger] a->Struct_0@[k]).0@ == b->Struct_0@[k].0@
                && deep_view(a->Struct_0@[k].1) == deep_view(b->Struct_0@[k].1),
{
    let fa = a->Struct_0@;
    assert(deep_view(a)->Struct_0.len() == fa.len());
    assert forall|k: int| 0 <= k < fa.len() implies (#[trigger] fa[k]).0@ == b->Struct_0@[k].0@
        && deep_view(fa[k].1) == deep_view(b->Struct_0@[k].1) by {
        assert(deep_view(a)->Struct_0[k] == (fa[k].0@, deep_view(fa[k].1)));
        assert(deep_view(b)->Struct_0[k] == (b->Struct_0@[k].0@, deep_view(b->Struct_0@[k].1)));
    }
}

proof fn lemma_field_from_deep(
    f1: Seq<(String, Value)>,
    f2: Seq<(String, Value)>,
    name: Seq<char>,
    i: int,
)
    requires
        f1.len() == f2.len(),
        forall|k: int|
            0 <= k < f1.len() ==> (#[trigger] f1[k]).0@ == f2[k].0@ && deep_view(f1[k].1)
                == deep_view(f2[k].1),
    ensures
        field_from(f1, name, i) is Some <==> field_from(f2, name, i) is Some,
        field_from(f1, name, i) is Some ==> deep_view(field_from(f1, name, i)->0) == deep_view(
            field_from(f2, name, i)->0,
        ),
    decreases f1.len() - i,
{
    if 0 <= i < f1.len() {
        assert(f1[i].0@ == f2[i].0@);
        lemma_field_from_deep(f1, f2, name, i + 1);
    }
}

proof fn lemma_ring_points_deep(x: Seq<Value>, y: Seq<Value>, k: int)
    requires
        x.len() == y.len(),
        0 <= k <= x.len(),
        forall|q: int| 0 <= q < x.len() ==> deep_view(#[trigger] x[q]) == deep_view(y[q]),
    ensures
        ring_points(x, k) == ring_points(y, k),
    decreases k,
{
    if k > 0 {
        lemma_ring_points_deep(x, y, k - 1);
        let (a, b) = (x[k - 1], y[k - 1]);
        assert(deep_view(a) == deep_view(b));
        if a is List {
            lemma_deep_list(a, b);
            let (ia, ib) = (a->List_0@, b->List_0@);
            if ia.len() >= 2 {
                assert(deep_view(ia[0]) == deep_view(ib[0]));
                assert(deep_view(ia[1]) == deep_view(ib[1]));
            }
            assert(point_of(a) == point_of(b));
        } else if b is List {
            lemma_deep_list(b, a);
        }
    }
}

/// The centroid of a geometry depends on its content alone: two geometry values with
/// the same content, such as a record's geometry and its flattened copy, have the same
/// centroid.
pub proof fn lemma_centroid_depends_on_content(g1: Value, g2: Value)
    requires
        deep_view(g1) == deep_view(g2),
    ensures
        geometry_centroid_of(g1) == geometry_centroid_of(g2),
{
    let key = seq!['c', 'o', 'o', 'r', 'd', 'i', 'n', 'a', 't', 'e', 's'];
    if g1 is Struct {
        lemma_deep_struct(g1, g2);
        lemma_field_from_deep(g1->Struct_0@, g2->Struct_0@, key, 0);
        let c1 = field_of(g1, key);
        let c2 = field_of(g2, key);
        if c1 is Some {
            let (v1, v2) = (c1->0, c2->0);
            if v1 is List {
                lemma_deep_list(v1, v2);
                let (r1, r2) = (v1->List_0@, v2->List_0@);
                if r1.len() > 0 {
                    assert(deep_view(r1[0]) == deep_view(r2[0]));
                    if r1[0] is List {
                        lemma_deep_list(r1[0], r2[0]);
                        let (i1, i2) = (r1[0]->List_0@, r2[0]->List_0@);
                        lemma_ring_points_deep(i1, i2, i1.len() as int);
                    } else if r2[0] is List {
                        lemma_deep_list(r2[0], r1[0]);
                    }
                }
            } else if v2 is List {
                lemma_deep_list(v2, v1);
            }
        }
    } else if g2 is Struct {
        lemma_deep_struct(g2, g1);
    }
}

/// A centroid whose parts keep clear of the limits of `i128`.
pub open spec fn centroid_in_range(c: Centroid) -> bool {
    &&& -0x4000_0000_0000_0000_0000_0000_0000_0000 <= c.x_num <= 0x4000_0000_0000_0000_0000_0000_0000_0000
    &&& -0x4000_0000_0000_0000_0000_0000_0000_0000 <= c.y_num <= 0x4000_0000_0000_0000_0000_0000_0000_0000
    &&& -0x4000_0000_0000_0000_0000_0000_0000_0000 <= c.den <= 0x4000_0000_0000_0000_0000_0000_0000_0000
}

/// The centroid of a geometry whose content is `dv`.
pub open spec fn content_centroid(dv: ValueView) -> Result<Option<Centroid>, QueryError> {
    geometry_centroid_of(choose|g: Value| deep_view(g) == dv)
}

/// A centroid as the content of a struct `{x, y}` of exact fractions with a positive
/// denominator.
pub open spec fn centroid_point_view(c: Centroid) -> ValueView {
    if c.den < 0 {
        ValueView::Struct(
            seq![
                (seq!['x'], ValueView::Frac(-c.x_num, -c.den)),
                (seq!['y'], ValueView::Frac(-c.y_num, -c.den)),
            ],
        )
    } else {
        ValueView::Struct(
            seq![
                (seq!['x'], ValueView::Frac(c.x_num as int, c.den as int)),
                (seq!['y'], ValueView::Frac(c.y_num as int, c.den as int)),
            ],
        )
    }
}

/// A centroid as a struct `{x, y}` of exact fractions with a positive denominator.
pub fn centroid_point(c: Centroid) -> (r: Value)
    requires
        centroid_in_range(c),
    ensures
        deep_view(r) == centroid_point_view(c),
{
    let (xn, yn, d) = if c.den < 0 {
        (-c.x_num, -c.y_num, -c.den)
    } else {
        (c.x_num, c.y_num, c.den)
    };
    let kx = String::from_str("x");
    let ky = String::from_str("y");
    proof {
        reveal_strlit("x");
        reveal_strlit("y");
    }
    let mut fs: Vec<(String, Value)> = Vec::new();
    fs.push((kx, Value::Frac(xn, d)));
    fs.push((ky, Value::Frac(yn, d)));
    let ghost f = fs@;
    let r = Value::Struct(fs);
    let ghost dv = deep_view(r)->Struct_0;
    assert(dv.len() == 2);
    assert(dv[0] == (f[0].0@, deep_view(f[0].1)));
    assert(dv[1] == (f[1].0@, deep_view(f[1].1)));
    assert(f[0].0@ =~= seq!['x']);
    assert(f[1].0@ =~= seq!['y']);
    assert(dv =~= centroid_point_view(c)->Struct_0);
    r
}


/// A missing centroid as the content of a struct `{x, y}` whose parts are both null.
pub open spec fn null_point_view() -> ValueView {
    ValueView::Struct(seq![(seq!['x'], ValueView::Null), (seq!['y'], ValueView::Null)])
}

/// A struct `{x, y}` whose parts are both null.
pub fn null_point() -> (r: Value)
    ensures
        deep_view(r) == null_point_view(),
{
    let kx = String::from_str("x");
    let ky = String::from_str("y");
    proof {
        reveal_strlit("x");
        reveal_strlit("y");
    }
    let mut fs: Vec<(String, Value)> = Vec::new();
    fs.push((kx, Value::Null));
    fs.push((ky, Value::Null));
    let ghost f = fs@;
    let r = Value::Struct(fs);
    let ghost dv = deep_view(r)->Struct_0;
    assert(dv.len() == 2);
    assert(dv[0] == (f[0].0@, deep_view(f[0].1)));
    assert(dv[1] == (f[1].0@, deep_view(f[1].1)));
    assert(f[0].0@ =~= seq!['x']);
    assert(f[1].0@ =~= seq!['y']);
    assert(dv =~= null_point_view()->Struct_0);
    r
}

} // verus!
