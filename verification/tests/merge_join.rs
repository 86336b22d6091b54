use joinkit::extract::extract_key;
use joinkit::key::{key_cmp, DataType, VarData};
use joinkit::merge_join::{
    MergeJoinFullOuter, MergeJoinInner, MergeJoinLeftExcl, MergeJoinLeftOuter,
};
use joinkit::plan::fields_to_idx;
use joinkit::EitherOrBoth::{Both, Left, Right};
use std::cmp::Ordering;

fn skey(s: &str) -> Vec<VarData> {
    vec![VarData::S(s.to_string())]
}

fn grouped(rows: &[(&str, &[&str])]) -> Vec<(Vec<VarData>, Vec<String>)> {
    rows.iter()
        .map(|(k, vs)| (skey(k), vs.iter().map(|v| v.to_string()).collect()))
        .collect()
}

#[test]
fn merge_inner_matches_equal_keys() {
    let l = grouped(&[("0", &["0;A"]), ("1", &["1;B"])]);
    let r = grouped(&[("1", &["1;X", "1;Y"]), ("2", &["2;Z"])]);
    let mut it = MergeJoinInner::new(l, r);

    assert_eq!(
        it.next(),
        Some((
            (skey("1"), vec!["1;B".to_string()]),
            (skey("1"), vec!["1;X".to_string(), "1;Y".to_string()]),
        ))
    );
    assert_eq!(it.next(), None);
}

#[test]
fn merge_left_excl_keeps_unmatched() {
    let l = grouped(&[("0", &["0;A"]), ("1", &["1;B"])]);
    let r = grouped(&[("1", &["1;X", "1;Y"]), ("2", &["2;Z"])]);
    let mut it = MergeJoinLeftExcl::new(l, r);

    assert_eq!(it.next(), Some((skey("0"), vec!["0;A".to_string()])));
    assert_eq!(it.next(), None);
}

#[test]
fn merge_left_outer_left_then_both() {
    let l = grouped(&[("0", &["0;A"]), ("1", &["1;B"])]);
    let r = grouped(&[("1", &["1;X", "1;Y"]), ("2", &["2;Z"])]);
    let mut it = MergeJoinLeftOuter::new(l, r);

    assert_eq!(it.next(), Some(Left((skey("0"), vec!["0;A".to_string()]))));
    assert_eq!(
        it.next(),
        Some(Both(
            (skey("1"), vec!["1;B".to_string()]),
            (skey("1"), vec!["1;X".to_string(), "1;Y".to_string()]),
        ))
    );
    assert_eq!(it.next(), None);
}

#[test]
fn merge_full_outer_all_arms() {
    let l = grouped(&[("0", &["0;A"]), ("1", &["1;B"])]);
    let r = grouped(&[("1", &["1;X", "1;Y"]), ("2", &["2;Z"])]);
    let mut it = MergeJoinFullOuter::new(l, r);

    assert_eq!(it.next(), Some(Left((skey("0"), vec!["0;A".to_string()]))));
    assert_eq!(
        it.next(),
        Some(Both(
            (skey("1"), vec!["1;B".to_string()]),
            (skey("1"), vec!["1;X".to_string(), "1;Y".to_string()]),
        ))
    );
    assert_eq!(it.next(), Some(Right((skey("2"), vec!["2;Z".to_string()]))));
    assert_eq!(it.next(), None);
}

#[test]
fn merge_full_outer_numeric_tag_orders_two_before_twelve() {
    // Field list `1-u` on both sides; keys rendered as "2" and "12".
    let plan = fields_to_idx(vec!["1-u"]).unwrap();
    assert_eq!(plan, vec![(0, 0, DataType::U)]);

    let k2 = extract_key("2;left", ";", &plan);
    let k12 = extract_key("12;right", ";", &plan);
    // Under the unsigned interpretation 2 < 12; as strings "12" < "2".
    assert_eq!(key_cmp(&k2, &k12), Ordering::Less);
    let s2 = skey("2");
    let s12 = skey("12");
    assert_eq!(key_cmp(&s12, &s2), Ordering::Less);

    let l = vec![(k2, vec!["2;left".to_string()])];
    let r = vec![(k12, vec!["12;right".to_string()])];
    let mut it = MergeJoinFullOuter::new(l, r);
    assert_eq!(
        it.next(),
        Some(Left((
            vec![VarData::U(2)],
            vec!["2;left".to_string()],
        )))
    );
    assert_eq!(
        it.next(),
        Some(Right((
            vec![VarData::U(12)],
            vec!["12;right".to_string()],
        )))
    );
    assert_eq!(it.next(), None);
}

#[test]
fn merge_inner_empty_sides() {
    let mut it = MergeJoinInner::new(vec![], grouped(&[("1", &["x"])]));
    assert_eq!(it.next(), None);

    let mut it = MergeJoinInner::new(grouped(&[("1", &["x"])]), vec![]);
    assert_eq!(it.next(), None);

    let mut it = MergeJoinInner::new(vec![], vec![]);
    assert_eq!(it.next(), None);
}

#[test]
fn merge_left_excl_drains_left_after_right_ends() {
    let l = grouped(&[("1", &["a"]), ("2", &["b"]), ("3", &["c"])]);
    let r = grouped(&[("2", &["x"])]);
    let mut it = MergeJoinLeftExcl::new(l, r);

    assert_eq!(it.next(), Some((skey("1"), vec!["a".to_string()])));
    assert_eq!(it.next(), Some((skey("3"), vec!["c".to_string()])));
    assert_eq!(it.next(), None);
}

#[test]
fn merge_full_outer_right_drain() {
    let l = grouped(&[("1", &["a"])]);
    let r = grouped(&[("1", &["x"]), ("2", &["y"]), ("3", &["z"])]);
    let mut it = MergeJoinFullOuter::new(l, r);

    assert_eq!(
        it.next(),
        Some(Both((skey("1"), vec!["a".to_string()]), (skey("1"), vec!["x".to_string()])))
    );
    assert_eq!(it.next(), Some(Right((skey("2"), vec!["y".to_string()]))));
    assert_eq!(it.next(), Some(Right((skey("3"), vec!["z".to_string()]))));
    assert_eq!(it.next(), None);
}

#[test]
fn merge_outputs_keys_nondecreasing() {
    let l = grouped(&[("1", &["a"]), ("3", &["c"]), ("5", &["e"])]);
    let r = grouped(&[("2", &["x"]), ("3", &["y"]), ("4", &["z"])]);
    let mut it = MergeJoinFullOuter::new(l, r);
    let mut keys = Vec::new();
    while let Some(e) = it.next() {
        match e {
            Left((k, _)) => keys.push(k),
            Right((k, _)) => keys.push(k),
            Both((k, _), _) => keys.push(k),
        }
    }
    let expected: Vec<Vec<VarData>> =
        ["1", "2", "3", "4", "5"].iter().map(|s| skey(s)).collect();
    assert_eq!(keys, expected);
    for w in keys.windows(2) {
        assert!(w[0] <= w[1]);
    }
}
