use json2csv::path::JsonPathElement::{Iterator, Key};
use json2csv::path::{drop_iterators, json_path_string};
use json2csv::schema::JsonSchemaTree::{PathEnd, PathNode};
use json2csv::schema::{append_path, to_schema, to_schema_tree};
use json2csv::utils::dedup_vec;

#[test]
fn has_same_root_single() {
    let sut = PathNode(Key("peka".to_string()), vec![]);

    assert!(sut.has_same_root(&vec![Key("peka".to_string())]));
    assert!(!sut.has_same_root(&vec![Key("yoba".to_string())]));
}

#[test]
fn has_same_root_multi() {
    let sut = PathNode(
        Key("peka".to_string()),
        vec![
            PathNode(Key("yoba".to_string()), vec![]),
            PathNode(Key("pika".to_string()), vec![]),
        ],
    );

    assert!(sut.has_same_root(&vec![Key("peka".to_string())]));
    assert!(sut.has_same_root(&vec![Key("peka".to_string()), Key("yoba".to_string())]));
    assert!(!sut.has_same_root(&vec![Key("yoba".to_string())]));
    assert!(!sut.has_same_root(&vec![Iterator]));
    assert!(sut.has_same_root(&vec![Key("peka".to_string()), Iterator]));
}

#[test]
fn add_path() {
    let tree = PathNode(Key("peka".to_string()), vec![PathEnd]);
    let path = vec![Key("peka".to_string()), Key("yoba".to_string())];
    let sut = tree.add_path(&path);
    assert_eq!(
        sut,
        PathNode(
            Key("peka".to_string()),
            vec![PathNode(Key("yoba".to_string()), vec![PathEnd]), PathEnd]
        )
    );
}

#[test]
fn append_path_test() {
    let schema = vec![PathNode(Key("peka".to_string()), vec![PathEnd])];
    let path = vec![Key("yoba".to_string())];
    let sut = append_path(schema, &path);
    assert_eq!(
        sut,
        vec![
            PathNode(Key("yoba".to_string()), vec![PathEnd]),
            PathNode(Key("peka".to_string()), vec![PathEnd])
        ]
    );
}

#[test]
fn json_path_to_schema_tree() {
    let jp = vec![Key("peka".to_string()), Iterator, Key("yoba".to_string())];
    let sut = to_schema_tree(jp);
    assert_eq!(
        sut,
        PathNode(
            Key("peka".to_string()),
            vec![PathNode(Iterator, vec![PathNode(Key("yoba".to_string()), vec![PathEnd])])]
        )
    );
}

#[test]
fn add_path_keeps_tree_on_empty_path_and_other_label() {
    let tree = PathNode(Key("a".to_string()), vec![PathEnd]);
    assert_eq!(tree.add_path(&vec![]), PathNode(Key("a".to_string()), vec![PathEnd]));
    let tree = PathNode(Key("a".to_string()), vec![PathEnd]);
    assert_eq!(
        tree.add_path(&vec![Key("b".to_string())]),
        PathNode(Key("a".to_string()), vec![PathEnd])
    );
}

#[test]
fn add_path_fills_bare_node_and_end_mark() {
    let bare = PathNode(Key("a".to_string()), vec![]);
    assert_eq!(
        bare.add_path(&vec![Key("a".to_string()), Iterator]),
        PathNode(Key("a".to_string()), vec![PathNode(Iterator, vec![PathEnd])])
    );
    assert_eq!(
        PathEnd.add_path(&vec![Key("a".to_string())]),
        PathNode(Key("a".to_string()), vec![PathEnd])
    );
}

#[test]
fn append_path_merges_only_into_the_labelled_tree() {
    let schema = vec![
        PathNode(Key("a".to_string()), vec![PathEnd]),
        PathEnd,
        PathNode(Key("b".to_string()), vec![PathEnd]),
    ];
    let sut = append_path(schema, &vec![Key("a".to_string()), Key("c".to_string())]);
    assert_eq!(
        sut,
        vec![
            PathNode(
                Key("a".to_string()),
                vec![PathNode(Key("c".to_string()), vec![PathEnd]), PathEnd]
            ),
            PathEnd,
            PathNode(Key("b".to_string()), vec![PathEnd]),
        ]
    );
}

#[test]
fn to_schema_shares_common_prefixes() {
    let paths = vec![
        vec![Key("a".to_string())],
        vec![Key("b".to_string()), Iterator],
        vec![Key("b".to_string()), Key("c".to_string())],
    ];
    assert_eq!(
        to_schema(paths),
        vec![
            PathNode(
                Key("b".to_string()),
                vec![
                    PathNode(Key("c".to_string()), vec![PathEnd]),
                    PathNode(Iterator, vec![PathEnd])
                ]
            ),
            PathNode(Key("a".to_string()), vec![PathEnd]),
        ]
    );
}

#[test]
fn to_schema_ignores_a_repeated_path() {
    let a = || vec![Key("a".to_string()), Iterator];
    let b = || vec![Key("b".to_string())];
    assert_eq!(to_schema(vec![a(), b(), a(), b()]), to_schema(vec![a(), b()]));
}

#[test]
fn to_schema_of_nothing_is_empty() {
    assert_eq!(to_schema(vec![]), vec![]);
}

#[test]
fn path_string_joins_with_dots() {
    assert_eq!(json_path_string(vec![]), "");
    assert_eq!(json_path_string(vec![Iterator]), "$");
    assert_eq!(
        json_path_string(vec![Key("x".to_string()), Key("y".to_string()), Iterator]),
        "x.y.$"
    );
}

#[test]
fn drop_iterators_keeps_keys_in_order() {
    assert_eq!(
        drop_iterators(vec![Iterator, Key("x".to_string()), Iterator, Key("y".to_string())]),
        vec![Key("x".to_string()), Key("y".to_string())]
    );
}

#[test]
fn to_schema_keeps_the_end_mark_when_a_path_returns_after_a_longer_one() {
    let a = || vec![Key("a".to_string())];
    let ab = || vec![Key("a".to_string()), Key("b".to_string())];
    let want = || {
        vec![PathNode(
            Key("a".to_string()),
            vec![PathNode(Key("b".to_string()), vec![PathEnd]), PathEnd],
        )]
    };
    assert_eq!(to_schema(vec![a(), ab()]), want());
    assert_eq!(to_schema(vec![a(), ab(), a()]), want());
    assert_eq!(to_schema(vec![a(), ab(), a(), ab(), a()]), want());
    assert_eq!(to_schema(vec![ab(), a(), ab(), a()]), to_schema(vec![ab(), a()]));
}

#[test]
fn to_schema_of_a_list_is_that_of_its_distinct_paths() {
    let a = || vec![Key("a".to_string())];
    let ab = || vec![Key("a".to_string()), Key("b".to_string())];
    let abc = || vec![Key("a".to_string()), Key("b".to_string()), Iterator];
    let d = || vec![Key("d".to_string()), Iterator, Key("e".to_string())];
    let list = || vec![ab(), a(), d(), abc(), ab(), d(), a(), abc(), ab()];
    assert_eq!(dedup_vec(list()), vec![ab(), a(), d(), abc()]);
    assert_eq!(to_schema(list()), to_schema(dedup_vec(list())));
}

#[test]
fn add_path_leaves_a_node_that_ends_there_already() {
    let tree = || {
        PathNode(
            Key("a".to_string()),
            vec![PathNode(Key("b".to_string()), vec![PathEnd]), PathEnd],
        )
    };
    assert_eq!(tree().add_path(&vec![Key("a".to_string())]), tree());
    let open = PathNode(Key("a".to_string()), vec![PathNode(Key("b".to_string()), vec![PathEnd])]);
    assert_eq!(
        open.add_path(&vec![Key("a".to_string())]),
        PathNode(
            Key("a".to_string()),
            vec![PathEnd, PathNode(Key("b".to_string()), vec![PathEnd])]
        )
    );
}

#[test]
fn same_compares_whole_trees() {
    let left = to_schema_tree(vec![Key("a".to_string()), Iterator]);
    let right = to_schema_tree(vec![Key("a".to_string()), Iterator]);
    let other = to_schema_tree(vec![Key("a".to_string())]);
    assert!(left.same(&right));
    assert!(!left.same(&other));
    assert_eq!(left.duplicate(), right);
}
