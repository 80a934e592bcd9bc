use dejavu::binary64::Binary64;

fn samples() -> Vec<f64> {
    vec![
        0.0,
        -0.0,
        1.0,
        -1.0,
        0.5,
        0.999_999_999_999_999_9,
        1.000_000_000_000_000_2,
        1e-5,
        f64::MIN_POSITIVE,
        -f64::MIN_POSITIVE,
        f64::from_bits(1),
        -f64::from_bits(1),
        f64::MAX,
        f64::MIN,
        f64::INFINITY,
        f64::NEG_INFINITY,
        f64::NAN,
        -f64::NAN,
        f64::from_bits(0x7FF0_0000_0000_0001),
    ]
}

fn number(x: f64) -> Binary64 {
    Binary64 { bits: x.to_bits() }
}

#[test]
fn comparisons_agree_with_the_hardware() {
    for a in samples() {
        assert_eq!(number(a).is_zero(), a == 0.0, "{a}");
        assert_eq!(number(a).is_positive(), a > 0.0, "{a}");
        assert_eq!(number(a).is_in_unit_interval(), (0.0..1.0).contains(&a), "{a}");
        for b in samples() {
            assert_eq!(number(a).less(number(b)), a < b, "{a} {b}");
            assert_eq!(
                number(a).total_less(number(b)),
                matches!(a.total_cmp(&b), std::cmp::Ordering::Less),
                "{a} {b}"
            );
        }
    }
}

#[test]
fn the_total_order_has_no_ties() {
    for a in samples() {
        for b in samples() {
            let tied = !number(a).total_less(number(b)) && !number(b).total_less(number(a));
            assert_eq!(tied, a.to_bits() == b.to_bits());
            if number(a).less(number(b)) {
                assert!(number(a).total_less(number(b)));
            }
        }
    }
}
