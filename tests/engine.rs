use polars_demo::bucket::{bucket_index, bucket_label};
use polars_demo::expr::{ArithOp, Expr};
use polars_demo::flatten::{unnest_df, unnest_lf};
use polars_demo::geometry::{centroid_column, geometry_centroid, polygon_centroid, Centroid, Point};
use polars_demo::plan::{apply_step, Agg, LazyFrame, Step};
use polars_demo::table::{Column, QueryError, Table};
use polars_demo::temporal::parse_timestamp_year;
use polars_demo::text::append_int;
use polars_demo::value::Value;

fn s(x: &str) -> String {
    x.to_string()
}

fn col(name: &str, values: Vec<Value>) -> Column {
    Column { name: s(name), values }
}

fn ints(xs: &[i64]) -> Vec<Value> {
    xs.iter().map(|x| Value::Int(*x)).collect()
}

fn strs(xs: &[&str]) -> Vec<Value> {
    xs.iter().map(|x| Value::Str(s(x))).collect()
}

fn point(x: i64, y: i64) -> Value {
    Value::List(vec![Value::Int(x), Value::Int(y)])
}

fn polygon(points: &[(i64, i64)]) -> Value {
    let ring = Value::List(points.iter().map(|(x, y)| point(*x, *y)).collect());
    Value::Struct(vec![
        (s("type"), Value::Str(s("Polygon"))),
        (s("coordinates"), Value::List(vec![ring])),
    ])
}

fn feature(props: Vec<(&str, Value)>, geometry: Value) -> Value {
    Value::Struct(vec![
        (
            s("properties"),
            Value::Struct(props.into_iter().map(|(k, v)| (s(k), v)).collect()),
        ),
        (s("geometry"), geometry),
    ])
}

fn document(features: Vec<Value>) -> Value {
    Value::Struct(vec![(s("features"), Value::List(features))])
}

fn col_expr(name: &str) -> Box<Expr> {
    Box::new(Expr::Col(s(name)))
}

fn dates_table() -> Table {
    Table::new(vec![
        col("OBJECTID", ints(&[1, 2, 3])),
        col(
            "RECORDCREATIONDATE",
            strs(&["2001-03-04T05:06:07Z", "2001-11-30T23:59:59Z", "2003-01-01T00:00:00Z"]),
        ),
    ])
    .unwrap()
}

#[test]
fn year_group_count_scenario() {
    let plan = LazyFrame::new(dates_table())
        .then(Step::WithColumn(s("creation_year"), Expr::Year(col_expr("RECORDCREATIONDATE"))))
        .then(Step::GroupCount(s("creation_year"), s("count")));
    let out = plan.collect().unwrap();
    assert_eq!(out.columns.len(), 2);
    assert_eq!(out.columns[0].name, "creation_year");
    assert_eq!(out.columns[0].values, ints(&[2001, 2003]));
    assert_eq!(out.columns[1].name, "count");
    assert_eq!(out.columns[1].values, ints(&[2, 1]));
}

#[test]
fn bucket_label_scenario() {
    assert_eq!(bucket_label(500, 1000), "0-1000");
    assert_eq!(bucket_label(1500, 1000), "1000-2000");
    assert_eq!(bucket_label(2500, 1000), "2000-3000");
    let t = Table::new(vec![col("GROSSFLOORAREA", ints(&[500, 1500, 2500]))]).unwrap();
    let out = apply_step(
        &t,
        &Step::WithColumn(s("GROSSFLOORAREA_bucket"), Expr::Bucket(col_expr("GROSSFLOORAREA"), 1000)),
    )
    .unwrap();
    assert_eq!(out.columns[1].name, "GROSSFLOORAREA_bucket");
    assert_eq!(out.columns[1].values, strs(&["0-1000", "1000-2000", "2000-3000"]));
}

#[test]
fn bucket_of_negative_values_floors() {
    assert_eq!(bucket_index(-1, 1000), -1);
    assert_eq!(bucket_index(-1000, 1000), -1);
    assert_eq!(bucket_index(-1001, 1000), -2);
    assert_eq!(bucket_index(999, 1000), 0);
    assert_eq!(bucket_index(1000, 1000), 1);
    assert_eq!(bucket_label(-1, 1000), "-1000-0");
    assert_eq!(bucket_label(7, 5), "5-10");
    assert_eq!(bucket_label(i64::MAX, 1), "9223372036854775807-9223372036854775808");
    assert_eq!(bucket_label(i64::MIN, 1), "-9223372036854775808--9223372036854775807");
}

#[test]
fn centroid_square_and_degenerate_scenario() {
    let geoms = vec![polygon(&[(0, 0), (2, 0)]), polygon(&[(0, 0), (2, 0), (2, 2), (0, 2)])];
    let out = centroid_column(&geoms).unwrap();
    assert_eq!(out.len(), 2);
    assert_eq!(out[0], None);
    let c = out[1].unwrap();
    assert_eq!(c, Centroid { x_num: 24, y_num: 24, den: 24 });
    assert_eq!(c.x_num / c.den, 1);
    assert_eq!(c.y_num / c.den, 1);
}

#[test]
fn centroid_of_triangle_and_closed_ring() {
    let tri = vec![Point { x: 0, y: 0 }, Point { x: 6, y: 0 }, Point { x: 0, y: 3 }];
    let c = polygon_centroid(&tri).unwrap();
    // (2, 1) as exact fractions.
    assert_eq!(c.x_num * 1, 2 * c.den);
    assert_eq!(c.y_num * 1, 1 * c.den);
    let closed = polygon(&[(0, 0), (2, 0), (2, 2), (0, 2), (0, 0)]);
    let c2 = geometry_centroid(&closed).unwrap().unwrap();
    assert_eq!(c2.x_num, c2.den);
    assert_eq!(c2.y_num, c2.den);
    // Clockwise order gives the same point.
    let cw = vec![Point { x: 0, y: 2 }, Point { x: 2, y: 2 }, Point { x: 2, y: 0 }, Point { x: 0, y: 0 }];
    let c3 = polygon_centroid(&cw).unwrap();
    assert_eq!(c3.x_num, c3.den);
    assert!(c3.den < 0);
}

#[test]
fn centroid_needs_three_vertices_and_area() {
    assert_eq!(polygon_centroid(&vec![]), None);
    assert_eq!(polygon_centroid(&vec![Point { x: 1, y: 1 }, Point { x: 3, y: 4 }]), None);
    let line = vec![Point { x: 0, y: 0 }, Point { x: 1, y: 1 }, Point { x: 2, y: 2 }];
    assert_eq!(polygon_centroid(&line), None);
    assert_eq!(geometry_centroid(&Value::Null), Ok(None));
    let bad = Value::Struct(vec![(s("coordinates"), Value::Int(3))]);
    assert_eq!(geometry_centroid(&bad), Err(QueryError::ParseError));
    let with_null_vertex = Value::Struct(vec![(
        s("coordinates"),
        Value::List(vec![Value::List(vec![point(0, 0), Value::Null, point(2, 0), point(2, 2), point(0, 2)])]),
    )]);
    let c = geometry_centroid(&with_null_vertex).unwrap().unwrap();
    assert_eq!(c.x_num, c.den);
}

fn sample_table() -> Table {
    Table::new(vec![
        col("OBJECTID", ints(&[1, 2, 3, 4])),
        col("TOPHEIGHT", vec![Value::Int(120), Value::Null, Value::Int(80), Value::Int(150)]),
        col("GROSSFLOORAREA", vec![Value::Int(1500), Value::Int(2500), Value::Null, Value::Int(500)]),
    ])
    .unwrap()
}

fn sample_steps() -> Vec<Step> {
    vec![
        Step::Filter(Expr::IsNotNull(col_expr("GROSSFLOORAREA"))),
        Step::WithColumn(s("b"), Expr::Bucket(col_expr("GROSSFLOORAREA"), 1000)),
        Step::Filter(Expr::Gt(col_expr("OBJECTID"), Box::new(Expr::Lit(0)))),
        Step::Limit(2),
    ]
}

#[test]
fn eager_and_lazy_agree() {
    let mut eager = sample_table();
    for step in sample_steps().iter() {
        eager = apply_step(&eager, step).unwrap();
    }
    let mut plan = LazyFrame::new(sample_table());
    for step in sample_steps() {
        plan = plan.then(step);
    }
    let lazy = plan.collect().unwrap();
    assert_eq!(eager, lazy);
    assert_eq!(lazy.columns[0].values, ints(&[1, 2]));
    assert_eq!(lazy.columns[3].values, strs(&["1000-2000", "2000-3000"]));
}

#[test]
fn null_input_gives_null_output() {
    let t = sample_table();
    let e = Expr::Arith(ArithOp::Add, col_expr("TOPHEIGHT"), Box::new(Expr::Lit(1)));
    let out = apply_step(&t, &Step::WithColumn(s("h1"), e)).unwrap();
    assert_eq!(out.columns[3].values, vec![Value::Int(121), Value::Null, Value::Int(81), Value::Int(151)]);
    let out = apply_step(&t, &Step::WithColumn(s("b"), Expr::Bucket(col_expr("GROSSFLOORAREA"), 1000))).unwrap();
    assert_eq!(out.columns[3].values[2], Value::Null);
    let out = apply_step(&t, &Step::WithColumn(s("g"), Expr::Gt(col_expr("TOPHEIGHT"), Box::new(Expr::Lit(100))))).unwrap();
    assert_eq!(out.columns[3].values, vec![Value::Bool(true), Value::Null, Value::Bool(false), Value::Bool(true)]);
}

#[test]
fn arithmetic_overflow_is_null() {
    let t = Table::new(vec![col("a", ints(&[i64::MAX, 3]))]).unwrap();
    let e = Expr::Arith(ArithOp::Mul, col_expr("a"), Box::new(Expr::Lit(2)));
    let out = apply_step(&t, &Step::WithColumn(s("a"), e)).unwrap();
    assert_eq!(out.columns.len(), 1);
    assert_eq!(out.columns[0].values, vec![Value::Null, Value::Int(6)]);
    let e = Expr::Arith(ArithOp::Sub, col_expr("a"), Box::new(Expr::Lit(5)));
    let out = apply_step(&t, &Step::WithColumn(s("d"), e)).unwrap();
    assert_eq!(out.columns[1].values, vec![Value::Int(i64::MAX - 5), Value::Int(-2)]);
}

#[test]
fn filter_keeps_order_and_limit_caps() {
    let t = sample_table();
    let out = apply_step(&t, &Step::Filter(Expr::Gt(col_expr("TOPHEIGHT"), Box::new(Expr::Lit(100))))).unwrap();
    assert_eq!(out.columns[0].values, ints(&[1, 4]));
    let out = apply_step(&t, &Step::Limit(10)).unwrap();
    assert_eq!(out, sample_table());
    let out = apply_step(&t, &Step::Limit(0)).unwrap();
    assert_eq!(out.columns[2].values.len(), 0);
}

#[test]
fn query_errors() {
    let t = sample_table();
    assert_eq!(apply_step(&t, &Step::Filter(Expr::Col(s("nope")))), Err(QueryError::UnknownColumn));
    assert_eq!(
        apply_step(&t, &Step::WithColumn(s("x"), Expr::Bucket(col_expr("OBJECTID"), 0))),
        Err(QueryError::InvalidWidth)
    );
    assert_eq!(apply_step(&t, &Step::Filter(Expr::Col(s("OBJECTID")))), Err(QueryError::TypeMismatch));
    assert_eq!(
        apply_step(&t, &Step::GroupCount(s("OBJECTID"), s("OBJECTID"))),
        Err(QueryError::DuplicateColumn)
    );
    let bad = Table::new(vec![col("d", strs(&["2001-02-29T00:00:00Z"]))]).unwrap();
    assert_eq!(
        apply_step(&bad, &Step::WithColumn(s("y"), Expr::Year(col_expr("d")))),
        Err(QueryError::ParseError)
    );
    assert_eq!(
        Table::new(vec![col("a", ints(&[1])), col("b", ints(&[1, 2]))]),
        Err(QueryError::LengthMismatch)
    );
    assert_eq!(Table::new(vec![col("a", ints(&[1])), col("a", ints(&[2]))]), Err(QueryError::DuplicateColumn));
    // Schema errors are reported even without rows.
    let empty = Table::new(vec![col("a", vec![])]).unwrap();
    assert_eq!(apply_step(&empty, &Step::Filter(Expr::Col(s("b")))), Err(QueryError::UnknownColumn));
}

#[test]
fn timestamps() {
    assert_eq!(parse_timestamp_year("2004-02-29T12:00:00Z"), Some(2004));
    assert_eq!(parse_timestamp_year("2001-02-29T12:00:00Z"), None);
    assert_eq!(parse_timestamp_year("2001-13-01T12:00:00Z"), None);
    assert_eq!(parse_timestamp_year("2001-12-01 12:00:00Z"), None);
    assert_eq!(parse_timestamp_year("2001-12-01T24:00:00Z"), None);
    assert_eq!(parse_timestamp_year("2016-12-31T23:59:60Z"), Some(2016));
    assert_eq!(parse_timestamp_year("2016-12-31T23:59:61Z"), None);
    assert_eq!(parse_timestamp_year(""), None);
}

#[test]
fn decimal_text() {
    let mut t = String::from("n=");
    append_int(&mut t, -120);
    assert_eq!(t, "n=-120");
    let mut z = String::new();
    append_int(&mut z, 0);
    assert_eq!(z, "0");
}

#[test]
fn flatten_unions_properties() {
    let doc = document(vec![
        feature(vec![("OBJECTID", Value::Int(1)), ("NAME", Value::Str(s("A")))], polygon(&[(0, 0), (2, 0), (2, 2)])),
        feature(vec![("OBJECTID", Value::Int(2)), ("TOPHEIGHT", Value::Int(90))], Value::Null),
    ]);
    let t = unnest_df(&doc).unwrap();
    let names: Vec<String> = t.columns.iter().map(|c| c.name.clone()).collect();
    assert_eq!(names, vec![s("OBJECTID"), s("NAME"), s("TOPHEIGHT"), s("geometry")]);
    assert_eq!(t.columns[0].values, ints(&[1, 2]));
    assert_eq!(t.columns[1].values, vec![Value::Str(s("A")), Value::Null]);
    assert_eq!(t.columns[2].values, vec![Value::Null, Value::Int(90)]);
    assert_eq!(t.columns[3].values[0], polygon(&[(0, 0), (2, 0), (2, 2)]));
    assert_eq!(t.columns[3].values[1], Value::Null);
    let lf = unnest_lf(doc);
    assert_eq!(lf.collect().unwrap(), t);
}

#[test]
fn flatten_errors() {
    let missing_geometry = document(vec![Value::Struct(vec![(s("properties"), Value::Struct(vec![]))])]);
    assert_eq!(unnest_df(&missing_geometry), Err(QueryError::MissingField));
    assert_eq!(unnest_df(&Value::Struct(vec![])), Err(QueryError::MissingField));
    let clash = document(vec![feature(vec![("geometry", Value::Int(1))], Value::Null)]);
    assert_eq!(unnest_df(&clash), Err(QueryError::DuplicateColumn));
    let empty = unnest_df(&document(vec![])).unwrap();
    assert_eq!(empty.columns.len(), 1);
    assert_eq!(empty.columns[0].name, "geometry");
}

#[test]
fn sort_is_stable_with_nulls_first() {
    let t = Table::new(vec![
        col("k", vec![Value::Int(3), Value::Null, Value::Int(1), Value::Int(3), Value::Int(2)]),
        col("id", ints(&[0, 1, 2, 3, 4])),
    ])
    .unwrap();
    let asc = apply_step(&t, &Step::Sort(vec![(s("k"), false)])).unwrap();
    assert_eq!(asc.columns[1].values, ints(&[1, 2, 4, 0, 3]));
    let desc = apply_step(&t, &Step::Sort(vec![(s("k"), true)])).unwrap();
    assert_eq!(desc.columns[1].values, ints(&[1, 0, 3, 4, 2]));
    assert_eq!(apply_step(&t, &Step::Sort(vec![(s("x"), true)])), Err(QueryError::UnknownColumn));
    let mixed = Table::new(vec![col("n", vec![Value::Int(1), Value::Str(s("a"))])]).unwrap();
    assert_eq!(apply_step(&mixed, &Step::Sort(vec![(s("n"), false)])), Err(QueryError::TypeMismatch));
}

#[test]
fn sort_by_text_is_lexicographic() {
    let labels = strs(&["9000-10000", "10000-11000", "0-1000", "b", "ab", "a"]);
    let t = Table::new(vec![col("label", labels), col("id", ints(&[0, 1, 2, 3, 4, 5]))]).unwrap();
    let asc = apply_step(&t, &Step::Sort(vec![(s("label"), false)])).unwrap();
    assert_eq!(asc.columns[1].values, ints(&[2, 1, 0, 5, 4, 3]));
    let desc = apply_step(&t, &Step::Sort(vec![(s("label"), true)])).unwrap();
    assert_eq!(desc.columns[1].values, ints(&[3, 4, 5, 0, 1, 2]));
}

#[test]
fn group_count_then_sort_descending() {
    let t = Table::new(vec![col("y", ints(&[2001, 2003, 2003, 2002, 2003, 2002]))]).unwrap();
    let out = LazyFrame::new(t)
        .then(Step::GroupCount(s("y"), s("count")))
        .then(Step::Sort(vec![(s("count"), true)]))
        .then(Step::Limit(2))
        .collect()
        .unwrap();
    assert_eq!(out.columns[0].values, ints(&[2003, 2002]));
    assert_eq!(out.columns[1].values, ints(&[3, 2]));
}

#[test]
fn group_mean_skips_nulls() {
    let t = Table::new(vec![
        col("y", ints(&[2001, 2002, 2001, 2002, 2003])),
        col("h", vec![Value::Int(10), Value::Null, Value::Int(15), Value::Int(7), Value::Null]),
    ])
    .unwrap();
    let out = apply_step(&t, &Step::GroupMean(s("y"), s("h"), s("avg_height"))).unwrap();
    assert_eq!(out.columns[0].values, ints(&[2001, 2002, 2003]));
    assert_eq!(out.columns[1].name, "avg_height");
    assert_eq!(out.columns[1].values, vec![Value::Frac(25, 2), Value::Frac(7, 1), Value::Null]);
    assert_eq!(
        apply_step(&t, &Step::GroupMean(s("y"), s("nope"), s("m"))),
        Err(QueryError::UnknownColumn)
    );
    let strs_table = Table::new(vec![col("k", ints(&[1])), col("v", strs(&["a"]))]).unwrap();
    assert_eq!(
        apply_step(&strs_table, &Step::GroupMean(s("k"), s("v"), s("m"))),
        Err(QueryError::TypeMismatch)
    );
}

#[test]
fn select_keeps_named_columns_in_order() {
    let t = sample_table();
    let out = apply_step(&t, &Step::Select(vec![s("GROSSFLOORAREA"), s("OBJECTID")])).unwrap();
    assert_eq!(out.columns.len(), 2);
    assert_eq!(out.columns[0].name, "GROSSFLOORAREA");
    assert_eq!(out.columns[1].values, ints(&[1, 2, 3, 4]));
    assert_eq!(apply_step(&t, &Step::Select(vec![s("nope")])), Err(QueryError::UnknownColumn));
    assert_eq!(
        apply_step(&t, &Step::Select(vec![s("OBJECTID"), s("OBJECTID")])),
        Err(QueryError::DuplicateColumn)
    );
    let none = apply_step(&t, &Step::Select(vec![])).unwrap();
    assert_eq!(none.columns.len(), 0);
}

#[test]
fn tallest_buildings_query() {
    let out = LazyFrame::new(sample_table())
        .then(Step::Filter(Expr::Gt(col_expr("TOPHEIGHT"), Box::new(Expr::Lit(100)))))
        .then(Step::Select(vec![s("OBJECTID"), s("TOPHEIGHT")]))
        .then(Step::Sort(vec![(s("TOPHEIGHT"), true)]))
        .then(Step::Limit(10))
        .collect()
        .unwrap();
    assert_eq!(out.columns[0].values, ints(&[4, 1]));
    assert_eq!(out.columns[1].values, ints(&[150, 120]));
}

#[test]
fn floor_division() {
    let t = Table::new(vec![col("a", ints(&[7, -7, 7, -7, 5, i64::MIN])), col("b", ints(&[2, 2, -2, -2, 0, -1]))])
        .unwrap();
    let e = Expr::Arith(ArithOp::FloorDiv, col_expr("a"), col_expr("b"));
    let out = apply_step(&t, &Step::WithColumn(s("q"), e)).unwrap();
    assert_eq!(
        out.columns[2].values,
        vec![Value::Int(3), Value::Int(-4), Value::Int(-4), Value::Int(3), Value::Null, Value::Null]
    );
}

#[test]
fn case_mapping() {
    let t = Table::new(vec![col("n", vec![Value::Str(s("Lippo Centre")), Value::Null])]).unwrap();
    let out = apply_step(&t, &Step::WithColumn(s("lo"), Expr::Lowercase(col_expr("n")))).unwrap();
    assert_eq!(out.columns[1].values, vec![Value::Str(s("lippo centre")), Value::Null]);
    let out = apply_step(&t, &Step::WithColumn(s("up"), Expr::Uppercase(col_expr("n")))).unwrap();
    assert_eq!(out.columns[1].values, vec![Value::Str(s("LIPPO CENTRE")), Value::Null]);
    let nums = Table::new(vec![col("k", ints(&[1]))]).unwrap();
    assert_eq!(
        apply_step(&nums, &Step::WithColumn(s("x"), Expr::Lowercase(col_expr("k")))),
        Err(QueryError::TypeMismatch)
    );
}

#[test]
fn sort_by_several_keys() {
    let t = Table::new(vec![
        col("year", ints(&[2003, 2001, 2003, 2001, 2002])),
        col("height", vec![Value::Int(50), Value::Int(70), Value::Int(90), Value::Null, Value::Int(60)]),
        col("id", ints(&[0, 1, 2, 3, 4])),
    ])
    .unwrap();
    let out = apply_step(&t, &Step::Sort(vec![(s("year"), false), (s("height"), true)])).unwrap();
    assert_eq!(out.columns[2].values, ints(&[3, 1, 4, 2, 0]));
    let same = apply_step(&t, &Step::Sort(vec![])).unwrap();
    assert_eq!(same, t);
    assert_eq!(
        apply_step(&t, &Step::Sort(vec![(s("year"), false), (s("nope"), true)])),
        Err(QueryError::UnknownColumn)
    );
}

#[test]
fn bucket_of_fractions() {
    let t = Table::new(vec![col(
        "x",
        vec![Value::Int(-500), Value::Frac(-1, 2), Value::Int(0), Value::Frac(1999, 2), Value::Int(1000), Value::Null],
    )])
    .unwrap();
    let out = apply_step(&t, &Step::WithColumn(s("x_bucket"), Expr::Bucket(col_expr("x"), 1000))).unwrap();
    let mut expected = strs(&["-1000-0", "-1000-0", "0-1000", "0-1000", "1000-2000"]);
    expected.push(Value::Null);
    assert_eq!(out.columns[1].values, expected);
    let bad = Table::new(vec![col("x", vec![Value::Frac(1, 0)])]).unwrap();
    assert_eq!(
        apply_step(&bad, &Step::WithColumn(s("b"), Expr::Bucket(col_expr("x"), 10))),
        Err(QueryError::TypeMismatch)
    );
}

#[test]
fn null_coordinates_give_null_centroid() {
    let g = Value::Struct(vec![(s("type"), Value::Str(s("Polygon"))), (s("coordinates"), Value::Null)]);
    let out = centroid_column(&vec![g, polygon(&[(0, 0), (2, 0), (2, 2), (0, 2)]), Value::Null]).unwrap();
    assert_eq!(out[0], None);
    assert_eq!(out[1], Some(Centroid { x_num: 24, y_num: 24, den: 24 }));
    assert_eq!(out[2], None);
}

#[test]
fn flattened_geometry_keeps_its_centroid() {
    let rect = [(0, 0), (4, 0), (4, 2), (1, 2), (0, 2)];
    let doc = document(vec![
        feature(vec![("OBJECTID", Value::Int(1))], polygon(&[(0, 0), (1, 0)])),
        feature(vec![("OBJECTID", Value::Int(2))], polygon(&rect)),
    ]);
    let t = unnest_df(&doc).unwrap();
    assert_eq!(t.columns[1].values[1], polygon(&rect));
    let out = centroid_column(&t.columns[1].values).unwrap();
    assert_eq!(out[0], None);
    let c = out[1].unwrap();
    assert_eq!(c.x_num, 2 * c.den);
    assert_eq!(c.y_num, c.den);
}

#[test]
fn drop_nulls_keeps_complete_rows() {
    let t = sample_table();
    let out = apply_step(&t, &Step::DropNulls(vec![s("TOPHEIGHT")])).unwrap();
    assert_eq!(out.columns[0].values, ints(&[1, 3, 4]));
    let out = apply_step(&t, &Step::DropNulls(vec![])).unwrap();
    assert_eq!(out.columns[0].values, ints(&[1, 4]));
    assert_eq!(apply_step(&t, &Step::DropNulls(vec![s("nope")])), Err(QueryError::UnknownColumn));
}

#[test]
fn group_count_then_filter_on_count() {
    let t = Table::new(vec![col("y", ints(&[2001, 2003, 2003, 2002, 2003]))]).unwrap();
    let out = LazyFrame::new(t)
        .then(Step::GroupCount(s("y"), s("n")))
        .then(Step::Filter(Expr::Gt(col_expr("n"), Box::new(Expr::Lit(1)))))
        .collect()
        .unwrap();
    assert_eq!(out.columns[0].values, ints(&[2003]));
    assert_eq!(out.columns[1].values, ints(&[3]));
}

fn xy(xn: i128, yn: i128, d: i128) -> Value {
    Value::Struct(vec![(s("x"), Value::Frac(xn, d)), (s("y"), Value::Frac(yn, d))])
}

#[test]
fn centroid_as_plan_step() {
    let doc = document(vec![
        feature(vec![("OBJECTID", Value::Int(1))], polygon(&[(0, 0), (1, 0)])),
        feature(vec![("OBJECTID", Value::Int(2))], polygon(&[(0, 0), (2, 0), (2, 2), (0, 2)])),
        feature(vec![("OBJECTID", Value::Int(3))], polygon(&[(0, 2), (2, 2), (2, 0), (0, 0)])),
        feature(vec![("OBJECTID", Value::Int(4))], Value::Null),
    ]);
    let plan = unnest_lf(doc)
        .then(Step::WithColumn(s("coords"), Expr::Centroid(col_expr("geometry"))));
    let out = plan.collect().unwrap();
    assert_eq!(out.columns[2].name, "coords");
    let no_point = Value::Struct(vec![(s("x"), Value::Null), (s("y"), Value::Null)]);
    assert_eq!(out.columns[2].values, vec![no_point, xy(24, 24, 24), xy(24, 24, 24), Value::Null]);
    let t = Table::new(vec![col("g", ints(&[1]))]).unwrap();
    assert_eq!(
        apply_step(&t, &Step::WithColumn(s("c"), Expr::Centroid(col_expr("g")))),
        Err(QueryError::ParseError)
    );
}

#[test]
fn group_by_with_several_aggregates() {
    let t = Table::new(vec![
        col("creation_year", ints(&[2003, 2001, 2003, 2001, 2002, 2003])),
        col("TOPHEIGHT", vec![Value::Int(10), Value::Int(20), Value::Null, Value::Int(30), Value::Int(5), Value::Int(40)]),
    ])
    .unwrap();
    let out = LazyFrame::new(t)
        .then(Step::GroupBy(
            s("creation_year"),
            vec![Agg::Mean(s("TOPHEIGHT"), s("avg_height")), Agg::Count(s("building_count"))],
        ))
        .then(Step::Filter(Expr::Gt(col_expr("building_count"), Box::new(Expr::Lit(1)))))
        .then(Step::Sort(vec![(s("creation_year"), false)]))
        .collect()
        .unwrap();
    assert_eq!(out.columns.len(), 3);
    assert_eq!(out.columns[0].values, ints(&[2001, 2003]));
    assert_eq!(out.columns[1].name, "avg_height");
    assert_eq!(out.columns[1].values, vec![Value::Frac(50, 2), Value::Frac(50, 2)]);
    assert_eq!(out.columns[2].values, ints(&[2, 3]));
    let t = sample_table();
    assert_eq!(
        apply_step(&t, &Step::GroupBy(s("OBJECTID"), vec![Agg::Count(s("n")), Agg::Count(s("n"))])),
        Err(QueryError::DuplicateColumn)
    );
    assert_eq!(
        apply_step(&t, &Step::GroupBy(s("OBJECTID"), vec![Agg::Mean(s("nope"), s("m"))])),
        Err(QueryError::UnknownColumn)
    );
}

#[test]
fn unnest_lf_defers_flattening() {
    let plan = unnest_lf(Value::Struct(vec![])).then(Step::Limit(1));
    assert_eq!(plan.steps.len(), 1);
    assert_eq!(plan.collect(), Err(QueryError::MissingField));
}

#[test]
fn fractions_compare_compute_and_sort() {
    let t = Table::new(vec![
        col("h", vec![Value::Frac(2011, 20), Value::Int(100), Value::Frac(199, 2), Value::Null]),
        col("id", ints(&[0, 1, 2, 3])),
    ])
    .unwrap();
    let out = apply_step(&t, &Step::WithColumn(s("tall"), Expr::Gt(col_expr("h"), Box::new(Expr::Lit(100))))).unwrap();
    assert_eq!(out.columns[2].values, vec![Value::Bool(true), Value::Bool(false), Value::Bool(false), Value::Null]);
    let sorted = apply_step(&t, &Step::Sort(vec![(s("h"), true)])).unwrap();
    assert_eq!(sorted.columns[1].values, ints(&[3, 0, 1, 2]));
    let e = Expr::Arith(ArithOp::Add, col_expr("h"), Box::new(Expr::Lit(1)));
    let out = apply_step(&t, &Step::WithColumn(s("h1"), e)).unwrap();
    assert_eq!(out.columns[2].values, vec![Value::Frac(2031, 20), Value::Int(101), Value::Frac(201, 2), Value::Null]);
    let e = Expr::Arith(ArithOp::FloorDiv, col_expr("h"), Box::new(Expr::Lit(10)));
    let out = apply_step(&t, &Step::WithColumn(s("q"), e)).unwrap();
    assert_eq!(out.columns[2].values, vec![Value::Int(10), Value::Int(10), Value::Int(9), Value::Null]);
    let e = Expr::Arith(ArithOp::Mul, col_expr("h"), col_expr("h"));
    let out = apply_step(&t, &Step::WithColumn(s("sq"), e)).unwrap();
    assert_eq!(out.columns[2].values[2], Value::Frac(39601, 4));
}

#[test]
fn mean_of_fractions() {
    let t = Table::new(vec![
        col("y", ints(&[2001, 2001, 2001, 2002])),
        col("h", vec![Value::Int(100), Value::Null, Value::Frac(2011, 20), Value::Frac(1, 2)]),
    ])
    .unwrap();
    let out = apply_step(&t, &Step::GroupBy(s("y"), vec![Agg::Mean(s("h"), s("avg"))])).unwrap();
    assert_eq!(out.columns[1].values, vec![Value::Frac(4011, 40), Value::Frac(1, 2)]);
    let sorted = apply_step(&out, &Step::Sort(vec![(s("avg"), false)])).unwrap();
    assert_eq!(sorted.columns[0].values, ints(&[2002, 2001]));
}
