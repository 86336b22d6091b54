use joinkit::hash_join::{
    HashJoinFullOuter, HashJoinInner, HashJoinLeftExcl, HashJoinLeftOuter, HashJoinRightExcl,
    HashJoinRightOuter,
};
use joinkit::key::VarData;
use joinkit::EitherOrBoth::{Both, Left, Right};

fn skey(s: &str) -> Vec<VarData> {
    vec![VarData::S(s.to_string())]
}

fn keyed(rows: &[(&str, &str)]) -> Vec<(Vec<VarData>, String)> {
    rows.iter().map(|(k, v)| (skey(k), v.to_string())).collect()
}

#[test]
fn hash_inner_with_fan_out() {
    let l = keyed(&[("0", "0;A"), ("1", "1;B")]);
    let r = keyed(&[("1", "1;X"), ("2", "2;Z"), ("1", "1;Y")]);
    let mut it = HashJoinInner::new(l, r);

    assert_eq!(
        it.next(),
        Some(("1;B".to_string(), vec!["1;X".to_string(), "1;Y".to_string()]))
    );
    assert_eq!(it.next(), None);
}

#[test]
fn hash_inner_duplicate_left_keys() {
    let l = keyed(&[("1", "1;B"), ("1", "1;C")]);
    let r = keyed(&[("1", "1;X")]);
    let mut it = HashJoinInner::new(l, r);

    assert_eq!(it.next(), Some(("1;B".to_string(), vec!["1;X".to_string()])));
    assert_eq!(it.next(), Some(("1;C".to_string(), vec!["1;X".to_string()])));
    assert_eq!(it.next(), None);
}

#[test]
fn hash_inner_empty_sides() {
    let mut it = HashJoinInner::new(vec![], keyed(&[("1", "1;X")]));
    assert_eq!(it.next(), None);

    let mut it = HashJoinInner::new(keyed(&[("1", "1;B")]), vec![]);
    assert_eq!(it.next(), None);

    let mut it = HashJoinInner::new(vec![], vec![]);
    assert_eq!(it.next(), None);
}

#[test]
fn hash_left_excl_keeps_unmatched() {
    let l = keyed(&[("0", "0;A"), ("1", "1;B")]);
    let r = keyed(&[("1", "1;X"), ("2", "2;Z"), ("1", "1;Y")]);
    let mut it = HashJoinLeftExcl::new(l, r);

    assert_eq!(it.next(), Some("0;A".to_string()));
    assert_eq!(it.next(), None);
}

#[test]
fn hash_left_outer_both_and_left() {
    let l = keyed(&[("0", "0;A"), ("1", "1;B")]);
    let r = keyed(&[("1", "1;X"), ("2", "2;Z"), ("1", "1;Y")]);
    let mut it = HashJoinLeftOuter::new(l, r);

    assert_eq!(it.next(), Some(Left("0;A".to_string())));
    assert_eq!(
        it.next(),
        Some(Both("1;B".to_string(), vec!["1;X".to_string(), "1;Y".to_string()]))
    );
    assert_eq!(it.next(), None);
}

#[test]
fn hash_right_excl_drains_unmatched() {
    let l = keyed(&[("0", "0;A"), ("1", "1;B")]);
    let r = keyed(&[("1", "1;X"), ("2", "2;Z"), ("1", "1;Y")]);
    let mut it = HashJoinRightExcl::new(l, r);

    assert_eq!(it.next(), Some(vec!["2;Z".to_string()]));
    assert_eq!(it.next(), None);
}

#[test]
fn hash_right_outer_both_then_right() {
    let l = keyed(&[("0", "0;A"), ("1", "1;B")]);
    let r = keyed(&[("1", "1;X"), ("2", "2;Z"), ("1", "1;Y")]);
    let mut it = HashJoinRightOuter::new(l, r);

    assert_eq!(
        it.next(),
        Some(Both("1;B".to_string(), vec!["1;X".to_string(), "1;Y".to_string()]))
    );
    assert_eq!(it.next(), Some(Right(vec!["2;Z".to_string()])));
    assert_eq!(it.next(), None);
}

#[test]
fn hash_full_outer_all_arms_in_order() {
    let l = keyed(&[("0", "0;A"), ("1", "1;B")]);
    let r = keyed(&[("1", "1;X"), ("2", "2;Z"), ("1", "1;Y")]);
    let mut it = HashJoinFullOuter::new(l, r);

    assert_eq!(it.next(), Some(Left("0;A".to_string())));
    assert_eq!(
        it.next(),
        Some(Both("1;B".to_string(), vec!["1;X".to_string(), "1;Y".to_string()]))
    );
    assert_eq!(it.next(), Some(Right(vec!["2;Z".to_string()])));
    assert_eq!(it.next(), None);
}

#[test]
fn hash_full_outer_cartesian_style_fan_out() {
    // All keys equal on both sides: one Both per left item with the
    // whole right list; no drain output.
    let l = keyed(&[("k", "l1"), ("k", "l2")]);
    let r = keyed(&[("k", "r1"), ("k", "r2"), ("k", "r3")]);
    let rvv = vec!["r1".to_string(), "r2".to_string(), "r3".to_string()];
    let mut it = HashJoinFullOuter::new(l, r);

    assert_eq!(it.next(), Some(Both("l1".to_string(), rvv.clone())));
    assert_eq!(it.next(), Some(Both("l2".to_string(), rvv)));
    assert_eq!(it.next(), None);
}

#[test]
fn hash_right_excl_empty_left_emits_all_groups() {
    let r = keyed(&[("1", "1;X"), ("2", "2;Z"), ("1", "1;Y")]);
    let mut it = HashJoinRightExcl::new(vec![], r);

    assert_eq!(it.next(), Some(vec!["1;X".to_string(), "1;Y".to_string()]));
    assert_eq!(it.next(), Some(vec!["2;Z".to_string()]));
    assert_eq!(it.next(), None);
}

#[test]
fn hash_left_excl_single_elements() {
    let mut it = HashJoinLeftExcl::new(keyed(&[("7", "seven")]), keyed(&[("8", "eight")]));
    assert_eq!(it.next(), Some("seven".to_string()));
    assert_eq!(it.next(), None);
}

#[test]
fn hash_left_outer_partitions_left_records() {
    // Every left record shows up exactly once, as the payload of a Left
    // arm or the left component of a Both arm, in left order.
    let l = keyed(&[("0", "0;A"), ("1", "1;B"), ("0", "0;C")]);
    let r = keyed(&[("1", "1;X")]);
    let mut it = HashJoinLeftOuter::new(l, r);
    let mut seen = Vec::new();
    while let Some(e) = it.next() {
        match e {
            Left(lv) => seen.push(lv),
            Both(lv, _) => seen.push(lv),
            Right(_) => unreachable!(),
        }
    }
    assert_eq!(seen, vec!["0;A".to_string(), "1;B".to_string(), "0;C".to_string()]);
}

#[test]
fn hash_excl_duality_on_swapped_inputs() {
    // The flattened right-exclusive output of (L, R) holds the same
    // records as the left-exclusive output of (R, L).
    let left_rows: [(&str, &str); 2] = [("0", "0;A"), ("1", "1;B")];
    let right_rows: [(&str, &str); 4] = [("1", "1;X"), ("2", "2;Z"), ("1", "1;Y"), ("3", "3;W")];
    let mut rx = HashJoinRightExcl::new(keyed(&left_rows), keyed(&right_rows));
    let mut flattened = Vec::new();
    while let Some(group) = rx.next() {
        flattened.extend(group);
    }
    let mut lx = HashJoinLeftExcl::new(keyed(&right_rows), keyed(&left_rows));
    let mut swapped = Vec::new();
    while let Some(v) = lx.next() {
        swapped.push(v);
    }
    let mut a = flattened.clone();
    let mut b = swapped.clone();
    a.sort();
    b.sort();
    assert_eq!(a, b);
    // With unique unmatched right keys the order agrees as well.
    assert_eq!(flattened, swapped);
}
