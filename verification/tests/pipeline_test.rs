#![allow(non_snake_case)]

use wasm::binary64::{abs, le, lt, nan};
use wasm::consts::{default_color_string, DEFAULT_COLOR, DEFAULT_EPSILON, DOMAIN_PADDING};
use wasm::data_preprocess::{filterGroup, fitsAxis, groupsValuesList, preprocess};
use wasm::structs::{
    clone_groups, clone_points, ConfigStruct, DataStruct, GroupItemStruct, InfoStruct,
    KeyValuesStruct, StatsGroupStruct,
};
use wasm::utils::{getDomain, shouldShowLimit};
use wasm::{checkApprox, process, tryProcess};

fn bits(values: &[f64]) -> Vec<u64> {
    values.iter().map(|v| v.to_bits()).collect()
}

fn numbers(values: &[u64]) -> Vec<f64> {
    values.iter().map(|b| f64::from_bits(*b)).collect()
}

fn group(values: &[f64]) -> GroupItemStruct {
    GroupItemStruct { keyValues: None, color: None, stats: None, values: Some(bits(values)) }
}

fn stats(count: u32, mean: f64) -> StatsGroupStruct {
    StatsGroupStruct {
        Count: Some(count),
        Cp: Some("1.2".to_string()),
        Cpk: None,
        Max: None,
        Mean: Some(format!("{}", mean)),
        Min: None,
        Std: None,
        cp: Some(1.2f64.to_bits()),
        cpk: None,
        max: None,
        mean: Some(mean.to_bits()),
        min: None,
        std: None,
    }
}

fn config(hidden: Option<Vec<u32>>) -> ConfigStruct {
    ConfigStruct {
        valueRangeMode: None,
        hiddenGroups: hidden,
        limitHighlight: false,
        drawLines: None,
        marker: None,
        markerSize: None,
    }
}

#[test]
fn filter_drops_nan_and_keeps_order() {
    let groups = vec![
        group(&[f64::NAN, 1.0, f64::NAN, 2.0]),
        group(&[9.0]),
        group(&[f64::NAN]),
        group(&[3.0, f64::INFINITY, -0.0]),
    ];
    let out = filterGroup(groups, vec![1]);
    assert_eq!(out.len(), 3);
    assert_eq!(numbers(out[0].values.as_ref().unwrap()), vec![1.0, 2.0]);
    assert_eq!(out[1].values, Some(vec![]));
    assert_eq!(out[2].values, Some(bits(&[3.0, f64::INFINITY, -0.0])));
    for g in out.iter() {
        for v in g.values.as_ref().unwrap().iter() {
            assert!(!f64::from_bits(*v).is_nan());
        }
    }
}

#[test]
fn filter_removes_every_nan_pattern() {
    let patterns = vec![
        0x7ff8_0000_0000_0000,
        0xfff8_0000_0000_0000,
        0x7ff0_0000_0000_0001,
        0xffff_ffff_ffff_ffff,
        0x7ff0_0000_0000_0000,
        0xfff0_0000_0000_0000,
    ];
    let g = GroupItemStruct { keyValues: None, color: None, stats: None, values: Some(patterns) };
    let out = filterGroup(vec![g], vec![]);
    assert_eq!(
        out[0].values,
        Some(vec![f64::INFINITY.to_bits(), f64::NEG_INFINITY.to_bits()])
    );
}

#[test]
fn filter_treats_absent_samples_as_empty() {
    let g = GroupItemStruct {
        keyValues: Some(KeyValuesStruct { SITE_NUM: Some(7) }),
        color: Some("#fff".to_string()),
        stats: Some(stats(3, 2.5)),
        values: None,
    };
    let out = filterGroup(vec![g], vec![5, 9]);
    assert_eq!(out.len(), 1);
    assert_eq!(out[0].values, Some(vec![]));
    assert_eq!(out[0].color, Some("#fff".to_string()));
    assert_eq!(out[0].keyValues, Some(KeyValuesStruct { SITE_NUM: Some(7) }));
    assert_eq!(out[0].stats, Some(stats(3, 2.5)));
}

#[test]
fn filter_with_all_hidden_or_no_groups_is_empty() {
    assert_eq!(filterGroup(vec![group(&[1.0]), group(&[2.0])], vec![0, 1, 1]).len(), 0);
    assert_eq!(filterGroup(vec![], vec![0]).len(), 0);
}

#[test]
fn flatten_counts_every_sample_and_restarts_x() {
    let groups = vec![group(&[5.0, 6.0]), group(&[]), group(&[7.0, 8.0, 9.0])];
    let points = preprocess(groups);
    assert_eq!(points.len(), 5);
    let xs: Vec<u32> = points.iter().map(|p| p.x).collect();
    assert_eq!(xs, vec![0, 1, 0, 1, 2]);
    let ys: Vec<f64> = points.iter().map(|p| f64::from_bits(p.y)).collect();
    assert_eq!(ys, vec![5.0, 6.0, 7.0, 8.0, 9.0]);
    for p in points.iter() {
        assert_eq!(p.value, p.y);
        assert_eq!(p.color, DEFAULT_COLOR);
        assert_eq!(p.keyValues, KeyValuesStruct { SITE_NUM: None });
        assert_eq!(p.stats.Count, None);
    }
}

#[test]
fn flatten_copies_the_metadata_of_the_group() {
    let g = GroupItemStruct {
        keyValues: Some(KeyValuesStruct { SITE_NUM: Some(4) }),
        color: Some("#27ae60".to_string()),
        stats: Some(stats(2, 1.5)),
        values: Some(bits(&[1.0, 2.0])),
    };
    let points = preprocess(vec![g]);
    assert_eq!(points.len(), 2);
    assert_eq!(points[1].color, "#27ae60");
    assert_eq!(points[1].keyValues, KeyValuesStruct { SITE_NUM: Some(4) });
    assert_eq!(points[1].stats, stats(2, 1.5));
    assert_eq!(points[1].x, 1);
    assert_eq!(points[1].value, 2.0f64.to_bits());
}

#[test]
fn flatten_of_nothing_is_nothing() {
    assert_eq!(preprocess(vec![]).len(), 0);
    let absent = GroupItemStruct { keyValues: None, color: None, stats: None, values: None };
    assert_eq!(preprocess(vec![absent]).len(), 0);
}

#[test]
fn default_color_is_the_empty_string() {
    assert_eq!(DEFAULT_COLOR, "");
    assert_eq!(default_color_string(), String::new());
}

#[test]
fn pairs_of_fewer_than_two_groups_are_singletons() {
    assert_eq!(groupsValuesList(vec![]).len(), 0);
    let rows = groupsValuesList(vec![group(&[1.0, 2.0, 3.0])]);
    let rows: Vec<Vec<f64>> = rows.iter().map(|r| numbers(r)).collect();
    assert_eq!(rows, vec![vec![1.0], vec![2.0], vec![3.0]]);
}

#[test]
fn pairs_keep_the_first_group_first_when_it_is_shorter() {
    let rows = groupsValuesList(vec![group(&[1.0]), group(&[4.0, 5.0, 6.0])]);
    let rows: Vec<Vec<f64>> = rows.iter().map(|r| numbers(r)).collect();
    assert_eq!(rows, vec![vec![1.0, 4.0], vec![5.0], vec![6.0]]);
}

#[test]
fn pairs_count_an_inner_group_twice() {
    let rows = groupsValuesList(vec![group(&[1.0]), group(&[2.0]), group(&[3.0])]);
    let rows: Vec<Vec<f64>> = rows.iter().map(|r| numbers(r)).collect();
    assert_eq!(rows, vec![vec![1.0, 2.0], vec![2.0, 3.0]]);
}

#[test]
fn pairs_of_absent_samples_are_empty() {
    let absent = GroupItemStruct { keyValues: None, color: None, stats: None, values: None };
    let rows = groupsValuesList(vec![absent, group(&[2.0])]);
    let rows: Vec<Vec<f64>> = rows.iter().map(|r| numbers(r)).collect();
    assert_eq!(rows, vec![vec![2.0]]);
}

#[test]
fn domain_of_no_points_is_the_sentinel() {
    let domain = getDomain(vec![]);
    assert_eq!(domain.0, [-1, 0]);
    assert_eq!(domain.1, [0.0f64.to_bits(), 0.0f64.to_bits()]);
}

#[test]
fn domain_pads_equal_values() {
    let points = preprocess(vec![group(&[2.5, 2.5, 2.5, 2.5])]);
    let domain = getDomain(points);
    assert_eq!(domain.0, [-1, 6]);
    assert_eq!(f64::from_bits(domain.1[0]), 2.5 - 0.0001);
    assert_eq!(f64::from_bits(domain.1[1]), 2.5 + 0.0001);
}

#[test]
fn domain_orders_negative_values_and_zeros() {
    let points = preprocess(vec![group(&[-3.0, 0.0, -0.0, -7.25]), group(&[-1e-310, 4.0])]);
    let domain = getDomain(points);
    assert_eq!(domain.0, [-1, 6]);
    assert_eq!(f64::from_bits(domain.1[0]), -7.25 - 0.0001);
    assert_eq!(f64::from_bits(domain.1[1]), 4.0 + 0.0001);
    let zeros = preprocess(vec![group(&[-0.0, 0.0])]);
    let domain = getDomain(zeros);
    assert_eq!(f64::from_bits(domain.1[0]), -0.0001);
    assert_eq!(f64::from_bits(domain.1[1]), 0.0001);
}

#[test]
fn domain_keeps_infinite_extremes() {
    let points = preprocess(vec![group(&[f64::NEG_INFINITY, 1.0, f64::INFINITY])]);
    let domain = getDomain(points);
    assert_eq!(f64::from_bits(domain.1[0]), f64::NEG_INFINITY);
    assert_eq!(f64::from_bits(domain.1[1]), f64::INFINITY);
}

#[test]
fn padding_and_epsilon_are_one_ten_thousandth() {
    assert_eq!(f64::from_bits(DOMAIN_PADDING), 0.0001);
    assert_eq!(f64::from_bits(DEFAULT_EPSILON), 0.0001);
}

#[test]
fn limits_follow_the_table() {
    let nan_bits = f64::NAN.to_bits();
    let five = 5.0f64.to_bits();
    let two = 2.0f64.to_bits();
    assert_eq!(shouldShowLimit(nan_bits, five), (five, 0));
    assert_eq!(shouldShowLimit(five, nan_bits), (0, five));
    assert_eq!(shouldShowLimit(nan_bits, nan_bits), (0, 0));
    assert_eq!(shouldShowLimit(five, two), (two, five));
    assert_eq!(shouldShowLimit(two, five), (0, 0));
    assert_eq!(shouldShowLimit(five, five), (0, 0));
    assert_eq!(shouldShowLimit(0.0f64.to_bits(), (-0.0f64).to_bits()), (0, 0));
    let neg = (-3.0f64).to_bits();
    assert_eq!(shouldShowLimit(nan_bits, neg), (neg, 0));
}

#[test]
fn approx_sets_signs_aside() {
    let cases = [(3.0, 3.00005, 0.0001), (3.0, 3.5, 0.0001), (0.0, 0.0, 0.0), (1.0, 2.0, 1.0)];
    for (p, c, e) in cases.iter() {
        let (p, c, e): (f64, f64, f64) = (*p, *c, *e);
        let want = (p.abs() - c.abs()).abs() <= e.abs();
        let some = |x: f64| Some(x.to_bits());
        assert_eq!(checkApprox(some(p), some(c), some(e)), want);
        assert_eq!(checkApprox(some(-p), some(c), some(e)), want);
        assert_eq!(checkApprox(some(p), some(-c), some(e)), want);
        assert_eq!(checkApprox(some(p), some(c), some(-e)), want);
    }
    assert!(checkApprox(Some((-3.0f64).to_bits()), Some(3.0f64.to_bits()), None));
}

#[test]
fn approx_applies_its_defaults() {
    assert!(checkApprox(None, None, None));
    assert!(checkApprox(None, Some(0.0001f64.to_bits()), None));
    assert!(!checkApprox(None, Some(0.00011f64.to_bits()), None));
    assert!(checkApprox(Some(0.00005f64.to_bits()), None, None));
    assert!(!checkApprox(Some(1.0f64.to_bits()), None, None));
}

#[test]
fn approx_rejects_nan_and_infinite_pairs() {
    let nan_bits = Some(f64::NAN.to_bits());
    let inf = Some(f64::INFINITY.to_bits());
    let one = Some(1.0f64.to_bits());
    assert!(!checkApprox(nan_bits, one, one));
    assert!(!checkApprox(one, nan_bits, one));
    assert!(!checkApprox(one, one, nan_bits));
    assert!(!checkApprox(inf, inf, inf));
    assert!(checkApprox(inf, one, inf));
    assert!(!checkApprox(inf, one, one));
}

#[test]
fn order_of_patterns_is_the_order_of_doubles() {
    let values = [
        f64::NEG_INFINITY,
        -1e300,
        -2.0,
        -1.0,
        -1e-320,
        -0.0,
        0.0,
        1e-320,
        0.5,
        1.0,
        1e300,
        f64::INFINITY,
        f64::NAN,
    ];
    for a in values.iter() {
        for b in values.iter() {
            assert_eq!(lt(a.to_bits(), b.to_bits()), a < b, "{:?} < {:?}", a, b);
            assert_eq!(le(a.to_bits(), b.to_bits()), a <= b, "{:?} <= {:?}", a, b);
        }
        assert_eq!(nan(a.to_bits()), a.is_nan());
        if !a.is_nan() {
            assert_eq!(f64::from_bits(abs(a.to_bits())), a.abs());
        }
    }
}

#[test]
fn copies_equal_what_they_copy() {
    let groups = vec![
        GroupItemStruct {
            keyValues: Some(KeyValuesStruct { SITE_NUM: Some(1) }),
            color: Some("red".to_string()),
            stats: Some(stats(1, 0.5)),
            values: Some(bits(&[1.0, f64::NAN])),
        },
        GroupItemStruct { keyValues: None, color: None, stats: None, values: None },
    ];
    assert_eq!(clone_groups(&groups), groups);
    assert_eq!(groups[0].clone(), groups[0]);
    let points = preprocess(clone_groups(&groups));
    assert_eq!(clone_points(&points), points);
}

#[test]
fn pipeline_runs_the_first_scenario() {
    let data = DataStruct {
        groups: Some(vec![
            group(&[1.0, 2.0, 3.0]),
            group(&[4.0, 5.0, 6.0]),
            group(&[6.0, 7.0, 8.0]),
            group(&[1.5, 2.3, 7.1]),
        ]),
        stats: None,
        info: Some(InfoStruct {
            HI_LIMIT: Some((-0.44201892614364624f64).to_bits()),
            LO_LIMIT: Some((-0.4467531909942627f64).to_bits()),
            UNITS: None,
        }),
    };
    let out = process(data, config(Some(vec![1, 3])));
    assert_eq!(out.filterGroups, vec![group(&[1.0, 2.0, 3.0]), group(&[6.0, 7.0, 8.0])]);
    assert_eq!(out.preprocessGroups.len(), 6);
    let rows: Vec<Vec<f64>> = out.groupsValues.iter().map(|r| numbers(r)).collect();
    assert_eq!(rows, vec![vec![1.0, 6.0], vec![2.0, 7.0], vec![3.0, 8.0]]);
    assert_eq!(out.domain.0, [-1, 5]);
    assert_eq!(numbers(&out.domain.1), vec![0.9999, 8.0001]);
    assert_eq!(
        (f64::from_bits(out.shouldShowLimit.0), f64::from_bits(out.shouldShowLimit.1)),
        (-0.4467531909942627, -0.44201892614364624)
    );
}

#[test]
fn pipeline_takes_absent_fields_as_defaults() {
    let data = DataStruct { groups: None, stats: None, info: None };
    let out = process(data, config(None));
    assert_eq!(out.filterGroups.len(), 0);
    assert_eq!(out.preprocessGroups.len(), 0);
    assert_eq!(out.groupsValues.len(), 0);
    assert_eq!(out.domain, ([-1, 0], [0, 0]));
    assert_eq!(out.shouldShowLimit, (0, 0));
}

#[test]
fn pipeline_never_hands_nan_to_the_domain() {
    let data = DataStruct {
        groups: Some(vec![group(&[f64::NAN, 2.0, f64::NAN]), group(&[f64::NAN])]),
        stats: None,
        info: Some(InfoStruct { HI_LIMIT: None, LO_LIMIT: Some(1.0f64.to_bits()), UNITS: None }),
    };
    let out = process(data, config(Some(vec![])));
    assert_eq!(out.preprocessGroups.len(), 1);
    assert_eq!(out.domain.0, [-1, 3]);
    assert_eq!(numbers(&out.domain.1), vec![2.0 - 0.0001, 2.0 + 0.0001]);
    let rows: Vec<Vec<f64>> = out.groupsValues.iter().map(|r| numbers(r)).collect();
    assert_eq!(rows, vec![vec![2.0]]);
    assert_eq!(out.shouldShowLimit, (0, 0));
}

#[test]
fn checked_pipeline_agrees_with_the_pipeline() {
    let make = || DataStruct {
        groups: Some(vec![group(&[1.0, f64::NAN, 3.0]), group(&[4.0]), group(&[-2.0, 0.5])]),
        stats: None,
        info: Some(InfoStruct {
            HI_LIMIT: Some(9.0f64.to_bits()),
            LO_LIMIT: Some(1.0f64.to_bits()),
            UNITS: Some("V".to_string()),
        }),
    };
    let checked = tryProcess(make(), config(Some(vec![1])));
    let plain = process(make(), config(Some(vec![1])));
    assert_eq!(checked, Some(plain));
    let out = checked.unwrap();
    assert_eq!(out.domain.0, [-1, 4]);
    assert_eq!(numbers(&out.domain.1), vec![-2.0 - 0.0001, 3.0 + 0.0001]);
    assert_eq!(out.shouldShowLimit, (1.0f64.to_bits(), 9.0f64.to_bits()));
}

#[test]
fn short_groups_fit_the_axis() {
    assert!(fitsAxis(&vec![], &vec![]));
    assert!(fitsAxis(&vec![group(&[1.0, 2.0]), group(&[])], &vec![0]));
    let absent = GroupItemStruct { keyValues: None, color: None, stats: None, values: None };
    assert!(fitsAxis(&vec![absent], &vec![]));
}
