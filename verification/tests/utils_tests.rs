use json2csv::json::JsonValue;
use json2csv::utils::{cross_fold, dedup_vec, x_vec, Fragment};
use std::collections::HashMap;

fn fragment(pairs: &[(&str, &str)]) -> Fragment {
    let mut out = Fragment::new();
    for (k, v) in pairs {
        out.insert(k.to_string(), JsonValue::String(v.to_string()));
    }
    out
}

fn as_map(fragment: &Fragment) -> HashMap<String, String> {
    let mut out = HashMap::new();
    for (k, v) in &fragment.entries {
        let text = match v {
            JsonValue::String(s) => s.clone(),
            other => format!("{:?}", other),
        };
        out.insert(k.clone(), text);
    }
    out
}

fn expected(pairs: &[(&str, &str)]) -> HashMap<String, String> {
    pairs.iter().map(|(k, v)| (k.to_string(), v.to_string())).collect()
}

#[test]
fn x_vec_simple() {
    let v1 = vec![1, 2, 3];
    let v2 = vec![4, 5, 6];

    let result = x_vec(|lhs, rhs| lhs + rhs, v1, v2);

    assert_eq!(result, vec![5, 6, 7, 6, 7, 8, 7, 8, 9]);
}

#[test]
fn cross_fold_single_test() {
    let v = vec![vec![fragment(&[("k1", "v1")]), fragment(&[("k2", "v2")])]];

    let result = cross_fold(v);

    assert_eq!(
        result.iter().map(as_map).collect::<Vec<_>>(),
        vec![expected(&[("k1", "v1")]), expected(&[("k2", "v2")])]
    );
}

#[test]
fn cross_fold_multiple_test() {
    let v = vec![
        vec![fragment(&[("k1", "v1")]), fragment(&[("k2", "v2")])],
        vec![fragment(&[("k3", "v3")]), fragment(&[("k4", "v4")])],
    ];

    let result = cross_fold(v);

    assert_eq!(
        result.iter().map(as_map).collect::<Vec<_>>(),
        vec![
            expected(&[("k1", "v1"), ("k3", "v3")]),
            expected(&[("k1", "v1"), ("k4", "v4")]),
            expected(&[("k2", "v2"), ("k3", "v3")]),
            expected(&[("k2", "v2"), ("k4", "v4")])
        ]
    );
}

#[test]
fn x_vec_hands_the_other_side_through() {
    let none: Vec<i32> = vec![];
    assert_eq!(x_vec(|l, r| l * r, none.clone(), vec![1, 2]), vec![1, 2]);
    assert_eq!(x_vec(|l, r| l * r, vec![3, 4], none.clone()), vec![3, 4]);
    assert_eq!(x_vec(|l, r| l * r, none.clone(), none), Vec::<i32>::new());
}

#[test]
fn cross_fold_skips_empty_groups() {
    let v = vec![
        vec![],
        vec![fragment(&[("a", "1")])],
        vec![],
        vec![fragment(&[("b", "2")]), fragment(&[("b", "3")])],
    ];
    let result = cross_fold(v);
    assert_eq!(
        result.iter().map(as_map).collect::<Vec<_>>(),
        vec![expected(&[("a", "1"), ("b", "2")]), expected(&[("a", "1"), ("b", "3")])]
    );
    assert_eq!(cross_fold(vec![]), vec![]);
    assert_eq!(cross_fold(vec![vec![], vec![]]), vec![]);
}

#[test]
fn cross_fold_later_group_wins_a_shared_column() {
    let v = vec![vec![fragment(&[("a", "1"), ("b", "x")])], vec![fragment(&[("a", "2")])]];
    let result = cross_fold(v);
    assert_eq!(result.len(), 1);
    let a = "a".to_string();
    let b = "b".to_string();
    assert_eq!(result[0].get(&a), Some(&JsonValue::String("2".to_string())));
    assert_eq!(result[0].get(&b), Some(&JsonValue::String("x".to_string())));
    assert_eq!(result[0].get(&"c".to_string()), None);
}

#[test]
fn cross_fold_counts_multiply() {
    let group = |name: &str, n: usize| -> Vec<Fragment> {
        (0..n).map(|i| fragment(&[(name, &i.to_string())])).collect()
    };
    assert_eq!(cross_fold(vec![group("p", 3), group("q", 4)]).len(), 12);
    assert_eq!(cross_fold(vec![group("p", 1), group("q", 5), group("r", 1)]).len(), 5);
}

#[test]
fn dedup_vec_keeps_first_occurrences() {
    assert_eq!(dedup_vec(vec![1, 2, 1, 3, 2, 1]), vec![1, 2, 3]);
    assert_eq!(dedup_vec(Vec::<i32>::new()), Vec::<i32>::new());
}

#[test]
fn fragment_merge_prefers_the_later() {
    let l = fragment(&[("a", "1"), ("b", "2")]);
    let r = fragment(&[("b", "3"), ("c", "4")]);
    let m = l.merged(&r);
    assert_eq!(as_map(&m), expected(&[("a", "1"), ("b", "3"), ("c", "4")]));
}
