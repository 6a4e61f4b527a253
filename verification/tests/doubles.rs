use debug_log_tool::double::{quotient_reaches, whole_number};

#[test]
fn quotients_reach_thresholds_as_doubles_do() {
    let thresholds = [
        0.0, -0.0, -1.0, 1.0, 0.5, 0.1, 0.3, 1.0 / 3.0, 2.0 / 3.0, 0.7, 0.9999999999999999,
        1.0000000000000002, 5e-324, 1e-300, 1e-20, 2.0, f64::INFINITY, f64::NEG_INFINITY, f64::NAN,
        -f64::NAN, 0.6666666666666667, 0.6666666666666665, 0.14285714285714285, 0.2, 0.6, 0.4,
    ];
    for t in thresholds {
        for n in 1u64..40 {
            for m in 1..=n {
                let expected = m as f64 / n as f64 >= t;
                assert_eq!(
                    quotient_reaches(m, n, t.to_bits()),
                    expected,
                    "{m} / {n} against {t}"
                );
            }
        }
    }
}

#[test]
fn quotients_reach_their_own_doubles() {
    for n in 1u64..60 {
        for m in 1..=n {
            let q = m as f64 / n as f64;
            let above = f64::from_bits(q.to_bits() + 1);
            let below = f64::from_bits(q.to_bits() - 1);
            assert!(quotient_reaches(m, n, q.to_bits()));
            assert!(quotient_reaches(m, n, below.to_bits()));
            assert!(!quotient_reaches(m, n, above.to_bits()));
        }
    }
}

#[test]
fn a_lower_threshold_is_reached_too() {
    let high = 0.75f64.to_bits();
    let low = 0.25f64.to_bits();
    assert!(quotient_reaches(3, 4, high) && quotient_reaches(3, 4, low));
    assert!(!quotient_reaches(2, 4, high) && quotient_reaches(2, 4, low));
}

#[test]
fn whole_numbers_are_told() {
    let whole = |f: f64| whole_number(f.to_bits());
    assert_eq!(whole(0.0), Some(0));
    assert_eq!(whole(-0.0), Some(0));
    assert_eq!(whole(1.0), Some(1));
    assert_eq!(whole(123456789.0), Some(123456789));
    assert_eq!(whole(9007199254740993.0), Some(9007199254740992));
    assert_eq!(whole(18446744073709549568.0), Some(18446744073709549568));
    assert_eq!(whole(18446744073709551616.0), Some(u64::MAX));
    assert_eq!(whole(1e300), Some(u64::MAX));
    assert_eq!(whole(0.5), None);
    assert_eq!(whole(5e-324), None);
    assert_eq!(whole(-1.0), None);
    assert_eq!(whole(f64::NAN), None);
    assert_eq!(whole(f64::INFINITY), None);
    assert_eq!(whole(f64::NEG_INFINITY), None);
}
