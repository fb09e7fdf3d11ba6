use one_brc::CityDetails;

fn record_of(values: &[i16]) -> CityDetails {
    let mut details = CityDetails::default();
    for v in values {
        assert!(details.count() < CityDetails::MAX_COUNT);
        details.update(*v);
    }
    details
}

#[test]
fn default_record_holds_the_sentinels() {
    let details = CityDetails::default();
    assert_eq!(details.min(), i16::MAX);
    assert_eq!(details.max(), i16::MIN);
    assert_eq!(details.sum(), 0);
    assert_eq!(details.count(), 0);
}

#[test]
fn one_measurement_is_min_max_and_mean() {
    for v in [-999i16, -15, -1, 0, 1, 80, 120, 999, i16::MIN, i16::MAX] {
        let details = record_of(&[v]);
        assert_eq!(details.min(), v);
        assert_eq!(details.max(), v);
        assert_eq!(details.sum(), i64::from(v));
        assert_eq!(details.count(), 1);
        assert_eq!(details.mean(), v);
    }
}

#[test]
fn update_keeps_min_max_sum_and_count() {
    let details = record_of(&[120, 80, -15, 300, 0]);
    assert_eq!(details.min(), -15);
    assert_eq!(details.max(), 300);
    assert_eq!(details.sum(), 485);
    assert_eq!(details.count(), 5);
    assert_eq!(details.mean(), 97);
}

#[test]
fn update_does_not_depend_on_order() {
    let a = record_of(&[120, 80, -15, 300, 0, 80]);
    let b = record_of(&[80, 0, 300, 80, -15, 120]);
    assert_eq!(a.min(), b.min());
    assert_eq!(a.max(), b.max());
    assert_eq!(a.sum(), b.sum());
    assert_eq!(a.count(), b.count());
}

#[test]
fn min_never_exceeds_max_and_mean_lies_between() {
    let mut details = CityDetails::default();
    let mut v: i16 = 7;
    for _ in 0..2000 {
        v = v.wrapping_mul(31).wrapping_add(17);
        details.update(v);
        assert!(details.min() <= details.max());
        assert!(details.min() <= details.mean());
        assert!(details.mean() <= details.max());
    }
}

#[test]
fn mean_rounds_to_the_nearest_tenth() {
    // 1.4 / 10 and 1.6 / 10, in tenths: 14 / 10 and 16 / 10.
    let mut low = record_of(&[14]);
    let mut high = record_of(&[16]);
    for _ in 0..9 {
        low.update(0);
        high.update(0);
    }
    assert_eq!(low.mean(), 1);
    assert_eq!(high.mean(), 2);
    assert_eq!(record_of(&[1, 1, 2]).mean(), 1);
    assert_eq!(record_of(&[-1, -1, -2]).mean(), -1);
    assert_eq!(record_of(&[1, 2, 2]).mean(), 2);
    assert_eq!(record_of(&[-1, -2, -2]).mean(), -2);
}

#[test]
fn mean_rounds_a_half_away_from_zero() {
    assert_eq!(record_of(&[1, 2]).mean(), 2);
    assert_eq!(record_of(&[-1, -2]).mean(), -2);
    assert_eq!(record_of(&[0, 1]).mean(), 1);
    assert_eq!(record_of(&[0, -1]).mean(), -1);
    assert_eq!(record_of(&[-1, 1]).mean(), 0);
}

#[test]
fn sum_of_a_million_largest_values_does_not_wrap() {
    let mut details = CityDetails::default();
    for _ in 0..1_000_000 {
        details.update(i16::MAX);
    }
    assert_eq!(details.sum(), 32_767_000_000);
    assert_eq!(details.count(), 1_000_000);
    assert_eq!(details.mean(), i16::MAX);
    assert!(details.sum() > i64::from(i32::MAX));
}

#[test]
fn sum_of_a_million_smallest_values_does_not_wrap() {
    let mut details = CityDetails::default();
    for _ in 0..1_000_000 {
        details.update(i16::MIN);
    }
    assert_eq!(details.sum(), -32_768_000_000);
    assert_eq!(details.mean(), i16::MIN);
    assert!(details.sum() < i64::from(i32::MIN));
}

#[test]
fn largest_count_leaves_the_sum_inside_its_type() {
    let bound = i128::from(CityDetails::MAX_COUNT) * 32_768;
    assert!(bound < i128::from(i64::MAX));
    assert!(-bound > i128::from(i64::MIN));
    assert!(CityDetails::MAX_COUNT > 4_000_000_000);
}

#[test]
fn record_text_has_one_decimal_each() {
    assert_eq!(record_of(&[120, 80]).to_text(), "8.0/10.0/12.0");
    assert_eq!(record_of(&[-15]).to_text(), "-1.5/-1.5/-1.5");
    assert_eq!(record_of(&[0]).to_text(), "0.0/0.0/0.0");
    assert_eq!(record_of(&[-5, 5]).to_text(), "-0.5/0.0/0.5");
    assert_eq!(record_of(&[-9, -1]).to_text(), "-0.9/-0.5/-0.1");
    assert_eq!(record_of(&[i16::MIN, i16::MAX]).to_text(), "-3276.8/-0.1/3276.7");
    assert_eq!(record_of(&[9999, -9999, 1000]).to_text(), "-999.9/33.3/999.9");
}

#[test]
fn record_text_agrees_with_floating_point_where_that_is_exact() {
    for v in -9999i16..=9999 {
        let details = record_of(&[v]);
        let expected = format!("{:.1}", f64::from(v) / 10.0);
        assert_eq!(details.to_text(), format!("{0}/{0}/{0}", expected));
    }
}
