use json2csv::discover::{compute_header, compute_paths, intersect_or_non_empty, prepend, union};
use json2csv::extract::extract;
use json2csv::json::{non_empty_json, show_value, JsonValue};
use json2csv::parse::{parse_document, parse_lines};
use json2csv::path::JsonPathElement::{Iterator, Key};
use json2csv::path::JsonPath;
use json2csv::render::{columns, extract_lines, extract_rows, join_cells};
use json2csv::schema::to_schema;
use json2csv::tuples::generate_tuples;

fn parse(text: &str) -> JsonValue {
    parse_document(text).unwrap()
}

fn key(name: &str) -> json2csv::path::JsonPathElement {
    Key(name.to_string())
}

fn run(lines: &[&str], flat: bool, intersect: bool) -> (String, Vec<String>) {
    let docs: Vec<JsonValue> = lines.iter().map(|l| parse(l)).collect();
    let header = compute_header(intersect, &docs);
    let cols = columns(flat, &header);
    let schema = to_schema(header);
    let mut out = Vec::new();
    for line in lines {
        out.extend(extract_lines(|cells| join_cells(&cells, ";"), flat, &schema, &cols, parse(line)));
    }
    (join_cells(&cols, ";"), out)
}

#[test]
fn scalar_and_array_give_a_row_per_element() {
    let (header, rows) = run(&[r#"{"a":1,"b":[2,3]}"#], false, false);
    assert_eq!(header, "a;b.$");
    assert_eq!(rows, vec!["1;2".to_string(), "1;3".to_string()]);
}

#[test]
fn flat_mode_drops_the_array_step_from_the_column() {
    let (header, rows) = run(&[r#"{"a":1,"b":[2,3]}"#], true, false);
    assert_eq!(header, "a;b");
    assert_eq!(rows, vec!["1;2".to_string(), "1;3".to_string()]);
}

#[test]
fn intersect_starts_from_the_first_path_set() {
    let first = compute_paths(true, parse(r#"{"a":1}"#)).unwrap();
    let second = compute_paths(true, parse(r#"{"a":1,"b":2}"#)).unwrap();
    let after_first = intersect_or_non_empty(vec![], first);
    assert_eq!(after_first, vec![vec![key("a")]]);
    let after_second = intersect_or_non_empty(after_first, second);
    assert_eq!(after_second, vec![vec![key("a")]]);
    let (header, rows) = run(&[r#"{"a":1}"#, r#"{"a":1,"b":2}"#], false, true);
    assert_eq!(header, "a");
    assert_eq!(rows, vec!["1".to_string(), "1".to_string()]);
}

#[test]
fn two_arrays_give_every_combination() {
    let (header, rows) = run(&[r#"{"x":{"y":[1,2]},"z":[10,20]}"#], false, false);
    assert_eq!(header, "x.y.$;z.$");
    assert_eq!(rows.len(), 4);
    let mut sorted = rows.clone();
    sorted.sort();
    assert_eq!(
        sorted,
        vec!["1;10".to_string(), "1;20".to_string(), "2;10".to_string(), "2;20".to_string()]
    );
    assert_eq!(
        rows,
        vec!["1;10".to_string(), "2;10".to_string(), "1;20".to_string(), "2;20".to_string()]
    );
}

#[test]
fn discovery_finds_nothing_in_scalars_and_empty_containers() {
    for flat in [false, true] {
        for text in ["null", "true", "12", "\"s\""] {
            assert_eq!(compute_paths(flat, parse(text)), Some(vec![]));
        }
        for text in ["[]", "{}", "{\"a\":null}", "{\"a\":[],\"b\":{}}", "[[],{}]"] {
            assert_eq!(compute_paths(flat, parse(text)), Some(vec![]));
        }
    }
}

#[test]
fn discovery_prefixes_keys_and_array_steps() {
    let paths = compute_paths(false, parse(r#"{"a":{"b":1,"c":[{"d":2}]},"e":[1,2]}"#)).unwrap();
    let want: Vec<JsonPath> = vec![
        vec![key("a"), key("b")],
        vec![key("a"), key("c"), Iterator, key("d")],
        vec![key("e"), Iterator],
    ];
    assert_eq!(paths, want);
    assert_eq!(compute_paths(false, parse("[1,2]")), Some(vec![vec![Iterator]]));
    assert_eq!(compute_paths(true, parse("[1,2]")), Some(vec![]));
    assert_eq!(compute_paths(false, parse(r#"{"a":[[]],"b":1}"#)), Some(vec![vec![key("b")]]));
    assert_eq!(compute_paths(true, parse(r#"[{"a":1},{"b":2}]"#)), Some(vec![vec![key("a")], vec![key("b")]]));
}

#[test]
fn prepend_makes_the_one_step_path_of_nothing() {
    assert_eq!(prepend(key("a"), vec![]), vec![vec![key("a")]]);
    assert_eq!(
        prepend(Iterator, vec![vec![key("a")], vec![key("b"), Iterator]]),
        vec![vec![Iterator, key("a")], vec![Iterator, key("b"), Iterator]]
    );
}

#[test]
fn union_is_the_set_union() {
    let a = || vec![vec![key("a")], vec![key("b")]];
    let b = || vec![vec![key("b")], vec![key("c")]];
    assert_eq!(union(a(), b()), vec![vec![key("a")], vec![key("b")], vec![key("c")]]);
    let mut ab = union(a(), b());
    let mut ba = union(b(), a());
    ab.sort_by_key(|p| format!("{:?}", p));
    ba.sort_by_key(|p| format!("{:?}", p));
    assert_eq!(ab, ba);
    assert_eq!(union(a(), a()), a());
    assert_eq!(union(union(a(), b()), a()), union(a(), union(b(), a())));
    assert_eq!(union(vec![], a()), a());
}

#[test]
fn intersect_passes_through_an_empty_side() {
    let a = || vec![vec![key("a")], vec![key("b")]];
    let b = || vec![vec![key("b")], vec![key("c")]];
    assert_eq!(intersect_or_non_empty(vec![], a()), a());
    assert_eq!(intersect_or_non_empty(a(), vec![]), a());
    assert_eq!(intersect_or_non_empty(a(), b()), vec![vec![key("b")]]);
    assert_eq!(intersect_or_non_empty(a(), vec![vec![key("z")]]), Vec::<JsonPath>::new());
}

#[test]
fn document_without_content_leaves_the_header() {
    let docs = vec![parse(r#"{"a":1}"#), parse("{}"), parse("[]"), parse(r#"{"b":null}"#)];
    assert_eq!(compute_header(false, &docs), vec![vec![key("a")]]);
    let docs = vec![parse(r#"{"a":1}"#), parse("{}"), parse("[]"), parse(r#"{"b":null}"#)];
    assert_eq!(compute_header(true, &docs), vec![vec![key("a")]]);
    assert_eq!(compute_header(false, &vec![]), Vec::<JsonPath>::new());
    assert_eq!(compute_header(false, &vec![parse("{}")]), Vec::<JsonPath>::new());
    let docs = vec![parse(r#"{"a":1}"#), parse("3"), parse(r#"{"b":1}"#)];
    assert_eq!(compute_header(false, &docs), vec![vec![key("a")], vec![key("b")]]);
    let docs = vec![parse(r#"{"a":1}"#), parse("3"), parse(r#"{"b":1}"#)];
    assert_eq!(compute_header(true, &docs), Vec::<JsonPath>::new());
}

#[test]
fn empty_document_gives_no_row_and_no_failure() {
    let (header, rows) = run(&["{}", r#"{"a":1}"#, "[]", "null"], false, false);
    assert_eq!(header, "a");
    assert_eq!(rows, vec!["1".to_string()]);
}

#[test]
fn document_without_arrays_gives_one_row() {
    let (header, rows) = run(&[r#"{"a":"x","b":{"c":true,"d":null},"e":2.5}"#], false, false);
    assert_eq!(header, "a;b.c;e");
    assert_eq!(rows, vec!["x;true;2.5".to_string()]);
}

#[test]
fn missing_fields_render_blank() {
    let (header, rows) = run(&[r#"{"a":1}"#, r#"{"b":2}"#, r#"{"c":{"z":1},"d":[1]}"#], false, false);
    assert_eq!(header, "a;b;c.z;d.$");
    assert_eq!(rows, vec!["1;;;".to_string(), ";2;;".to_string(), ";;1;1".to_string()]);
}

#[test]
fn array_of_objects_gives_a_row_per_element() {
    let (header, rows) = run(&[r#"{"k":0,"xs":[{"a":1,"b":2},{"a":3},{"c":4}]}"#], false, false);
    assert_eq!(header, "k;xs.$.a;xs.$.b;xs.$.c");
    assert_eq!(rows, vec!["0;1;2;".to_string(), "0;3;;".to_string(), "0;;;4".to_string()]);
}

#[test]
fn extract_finds_nothing_on_shape_mismatch() {
    let schema = to_schema(vec![vec![key("a"), Iterator], vec![key("b"), key("c")]]);
    let tree = extract(&schema, parse(r#"{"a":1,"b":[1]}"#));
    assert_eq!(tree.len(), 2);
    assert_eq!(generate_tuples(false, tree).len(), 0);
    let cols = vec!["a.$".to_string()];
    assert_eq!(extract_rows(false, &schema, &cols, parse("7")), Vec::<Vec<String>>::new());
}

#[test]
fn show_value_renders_scalars() {
    assert_eq!(show_value(parse("true")), "true");
    assert_eq!(show_value(parse("false")), "false");
    assert_eq!(show_value(parse("12")), "12");
    assert_eq!(show_value(parse("-1.5")), "-1.5");
    assert_eq!(show_value(parse("\"hi\"")), "hi");
    assert_eq!(show_value(parse("null")), "");
    assert_eq!(show_value(parse("[1]")), "");
    assert_eq!(show_value(parse("{\"a\":1}")), "");
}

#[test]
fn non_empty_json_rejects_null_and_empty_containers() {
    assert!(!non_empty_json(&parse("null")));
    assert!(!non_empty_json(&parse("[]")));
    assert!(!non_empty_json(&parse("{}")));
    assert!(non_empty_json(&parse("0")));
    assert!(non_empty_json(&parse("\"\"")));
    assert!(non_empty_json(&parse("[null]")));
    assert!(non_empty_json(&parse("{\"a\":null}")));
}

#[test]
fn flat_columns_can_collide() {
    let header = vec![vec![key("a")], vec![key("a"), Iterator], vec![key("a")]];
    assert_eq!(columns(true, &header), vec!["a".to_string(), "a".to_string()]);
    assert_eq!(columns(false, &header), vec!["a".to_string(), "a.$".to_string()]);
}

#[test]
fn join_cells_puts_the_separator_between() {
    assert_eq!(join_cells(&vec![], ";"), "");
    assert_eq!(join_cells(&vec!["a".to_string()], ";"), "a");
    assert_eq!(join_cells(&vec!["a".to_string(), "".to_string(), "c".to_string()], ";"), "a;;c");
}

#[test]
fn parse_document_reads_every_kind_of_value() {
    assert_eq!(parse_document("null").unwrap(), JsonValue::Null);
    assert_eq!(parse_document(" true ").unwrap(), JsonValue::Bool(true));
    assert_eq!(parse_document("10").unwrap(), JsonValue::Number("10".to_string()));
    assert_eq!(parse_document("-3").unwrap(), JsonValue::Number("-3".to_string()));
    assert_eq!(parse_document("1.5").unwrap(), JsonValue::Number("1.5".to_string()));
    assert_eq!(parse_document("\"a\\nb\"").unwrap(), JsonValue::String("a\nb".to_string()));
    assert_eq!(
        parse_document("[1,[\"x\"]]").unwrap(),
        JsonValue::Array(vec![
            JsonValue::Number("1".to_string()),
            JsonValue::Array(vec![JsonValue::String("x".to_string())])
        ])
    );
    assert_eq!(
        parse_document("{\"b\":null,\"a\":{\"c\":false}}").unwrap(),
        JsonValue::Object(vec![
            (
                "a".to_string(),
                JsonValue::Object(vec![("c".to_string(), JsonValue::Bool(false))])
            ),
            ("b".to_string(), JsonValue::Null),
        ])
    );
}

#[test]
fn parse_document_rejects_malformed_text() {
    assert!(parse_document("{\"a\":").is_err());
    assert!(parse_document("").is_err());
    assert!(parse_document("1 2").is_err());
}

#[test]
fn parse_lines_stops_at_the_first_bad_line() {
    let good = vec!["1".to_string(), "{\"a\":[]}".to_string()];
    let docs = parse_lines(&good).unwrap();
    assert_eq!(docs.len(), 2);
    assert_eq!(docs[0], JsonValue::Number("1".to_string()));
    let bad = vec!["1".to_string(), "{".to_string(), "]".to_string()];
    let error = parse_lines(&bad).unwrap_err();
    assert_eq!(error.line, 1);
    assert!(!error.message.is_empty());
    assert_eq!(parse_lines(&vec![]).unwrap(), vec![]);
}

#[test]
fn get_finds_the_first_field_of_a_name() {
    let doc = JsonValue::Object(vec![
        ("a".to_string(), JsonValue::Bool(true)),
        ("b".to_string(), JsonValue::Null),
        ("a".to_string(), JsonValue::Bool(false)),
    ]);
    assert_eq!(doc.get(&"a".to_string()), Some(&JsonValue::Bool(true)));
    assert_eq!(doc.get(&"b".to_string()), Some(&JsonValue::Null));
    assert_eq!(doc.get(&"c".to_string()), None);
    assert_eq!(JsonValue::Null.get(&"a".to_string()), None);
    assert_eq!(JsonValue::Null.as_array(), None);
    assert_eq!(parse("[1]").as_array(), Some(&vec![JsonValue::Number("1".to_string())]));
    assert_eq!(doc.duplicate(), doc);
}

#[test]
fn one_array_varies_while_the_other_fields_stay() {
    let (header, rows) = run(&[r#"{"id":7,"name":"n","tags":["x","y","z"]}"#], false, false);
    assert_eq!(header, "id;name;tags.$");
    assert_eq!(rows, vec!["7;n;x".to_string(), "7;n;y".to_string(), "7;n;z".to_string()]);
}

#[test]
fn arrays_of_three_and_two_give_six_rows() {
    let (_, rows) = run(&[r#"{"p":[1,2,3],"q":["a","b"],"r":true}"#], true, false);
    assert_eq!(rows.len(), 6);
    for row in &rows {
        assert!(row.ends_with(";true"));
    }
}

#[test]
fn empty_array_field_is_left_out_of_the_product() {
    let (header, rows) = run(&[r#"{"a":[1,2]}"#, r#"{"a":[],"b":1}"#], false, false);
    assert_eq!(header, "a.$;b");
    assert_eq!(rows, vec!["1;".to_string(), "2;".to_string(), ";1".to_string()]);
}

#[test]
fn array_below_the_top_varies_beside_a_constant_scalar() {
    let (header, rows) = run(&[r#"{"k":{"deep":[1,2,3]},"s":"x"}"#], false, false);
    assert_eq!(header, "k.deep.$;s");
    assert_eq!(rows, vec!["1;x".to_string(), "2;x".to_string(), "3;x".to_string()]);
    let (header, rows) = run(&[r#"{"k":{"deep":[1,2,3]},"s":"x"}"#], true, false);
    assert_eq!(header, "k.deep;s");
    assert_eq!(rows, vec!["1;x".to_string(), "2;x".to_string(), "3;x".to_string()]);
}

#[test]
fn flat_top_level_array_of_scalars_has_no_path() {
    let docs = vec![parse("[1,2]"), parse(r#"[{"a":1},{"a":2}]"#)];
    assert_eq!(compute_header(false, &docs), vec![vec![key("a")]]);
}

#[test]
fn nested_arrays_multiply_beside_nested_scalars() {
    let (header, rows) =
        run(&[r#"{"a":{"x":[1,2],"y":{"z":[3,4,5]}},"b":"s","c":{"d":true}}"#], false, false);
    assert_eq!(header, "a.x.$;a.y.z.$;b;c.d");
    assert_eq!(rows.len(), 6);
    for row in &rows {
        assert!(row.ends_with(";s;true"));
    }
    let mut sorted = rows.clone();
    sorted.sort();
    sorted.dedup();
    assert_eq!(sorted.len(), 6);
}

#[test]
fn nested_scalars_give_one_row() {
    let (header, rows) = run(&[r#"{"a":{"x":1,"y":{"z":"t"}},"b":false}"#], false, false);
    assert_eq!(header, "a.x;a.y.z;b");
    assert_eq!(rows, vec!["1;t;false".to_string()]);
}
