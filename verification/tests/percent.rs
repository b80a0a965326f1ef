use brightctl::percent::{clap_parser, Percent, HUNDRED, NEGATIVE_ZERO};

fn percent(p: f32) -> Option<Percent> {
    Percent::new(p.to_bits())
}

fn is_percent(p: f32) -> bool {
    p.is_finite() && p >= 0.0 && p <= 100.0
}

#[test]
fn test_percent() {
    assert_eq!(percent(0.0), Some(Percent::min()));
    assert_eq!(percent(15.0).map(Percent::get), Some(15.0f32.to_bits()));
    assert_eq!(percent(100.0), Some(Percent::max()));
    assert_eq!(percent(-1.0), None);
    assert_eq!(percent(101.0), None);
    assert_eq!(percent(f32::MIN), None);
    assert_eq!(percent(f32::MAX), None);
    assert_eq!(percent(f32::NAN), None);
    assert_eq!(percent(f32::INFINITY), None);
    assert_eq!(percent(f32::NEG_INFINITY), None);
}

#[test]
fn the_ends_of_the_scale() {
    assert_eq!(f32::from_bits(Percent::min().get()), 0.0);
    assert_eq!(f32::from_bits(Percent::max().get()), 100.0);
    assert_eq!(HUNDRED, 100.0f32.to_bits());
    assert_eq!(NEGATIVE_ZERO, (-0.0f32).to_bits());
    assert!(Percent::min().is_zero());
    assert!(!Percent::max().is_zero());
    assert!(percent(-0.0).unwrap().is_zero());
    assert!(!percent(f32::MIN_POSITIVE).unwrap().is_zero());
    assert!(!percent(f32::from_bits(1)).unwrap().is_zero());
}

#[test]
fn percentages_are_the_numbers_from_0_to_100() {
    assert!(percent(100.0).is_some());
    assert!(percent(f32::from_bits(100.0f32.to_bits() - 1)).is_some());
    assert!(percent(f32::from_bits(100.0f32.to_bits() + 1)).is_none());
    assert!(percent(-0.0).is_some());
    assert!(percent(f32::from_bits((-0.0f32).to_bits() + 1)).is_none());
    assert!(percent(-f32::MIN_POSITIVE).is_none());
    assert!(percent(f32::from_bits(1)).is_some());
    assert!(percent(99.999_99).is_some());
    assert!(percent(100.000_01).is_none());
    assert!(percent(-f32::NAN).is_none());
    assert!(percent(f32::from_bits(0x7f80_0001)).is_none());
    assert!(percent(f32::from_bits(0xffff_ffff)).is_none());
}

#[test]
fn percentages_agree_with_floating_point() {
    let mut bits: u32 = 0;
    loop {
        let p = f32::from_bits(bits);
        assert_eq!(Percent::new(bits).is_some(), is_percent(p), "for the pattern {bits:#x}");
        match bits.checked_add(4099) {
            Some(next) => bits = next,
            None => break,
        }
    }
    for center in [0u32, 0x0080_0000, HUNDRED, 0x7f80_0000, NEGATIVE_ZERO, 0xc2c8_0000, 0xff80_0000, u32::MAX] {
        for offset in 0..2000u32 {
            for bits in [center.wrapping_add(offset), center.wrapping_sub(offset)] {
                let p = f32::from_bits(bits);
                assert_eq!(Percent::new(bits).is_some(), is_percent(p), "for the pattern {bits:#x}");
            }
        }
    }
}

#[test]
fn a_percentage_keeps_its_pattern() {
    for p in [0.0f32, -0.0, 0.5, 1.0, 10.5, 33.333_332, 60.0, 99.99, 100.0] {
        assert_eq!(percent(p).unwrap().get(), p.to_bits());
    }
}

#[test]
fn percentages_are_equal_as_numbers() {
    assert_eq!(percent(15.0), percent(15.0));
    assert_ne!(percent(15.0), percent(15.000_002));
    assert_eq!(percent(0.0), percent(-0.0));
    assert_ne!(percent(0.0), percent(100.0));
    assert_ne!(percent(0.0), None);
    for a in [0.0f32, -0.0, 1.0, 50.0, 100.0] {
        for b in [0.0f32, -0.0, 1.0, 50.0, 100.0] {
            assert_eq!(percent(a) == percent(b), a == b, "for {a} and {b}");
        }
    }
}

#[test]
fn sums_stop_at_100_and_differences_at_0() {
    let sum = |a: f32, b: f32| f32::from_bits(Percent::saturating_sum((a + b).to_bits()).get());
    let difference =
        |a: f32, b: f32| f32::from_bits(Percent::saturating_difference((a - b).to_bits()).get());
    assert_eq!(sum(10.0, 20.5), 30.5);
    assert_eq!(sum(60.0, 40.0), 100.0);
    assert_eq!(sum(60.0, 40.5), 100.0);
    assert_eq!(sum(100.0, 100.0), 100.0);
    assert_eq!(sum(0.0, 0.0), 0.0);
    assert_eq!(difference(30.5, 20.5), 10.0);
    assert_eq!(difference(20.0, 20.0), 0.0);
    assert_eq!(difference(20.0, 20.5), 0.0);
    assert_eq!(difference(0.0, 100.0), 0.0);
    assert_eq!(difference(100.0, 0.0), 100.0);
}

#[test]
fn arguments_are_percentages_or_not() {
    let parse = |s: &str| clap_parser(s.parse::<f32>().ok().map(f32::to_bits));
    assert_eq!(parse("10.5"), Ok(percent(10.5).unwrap()));
    assert_eq!(parse("0"), Ok(Percent::min()));
    assert_eq!(parse("100"), Ok(Percent::max()));
    assert_eq!(parse("1e2"), Ok(Percent::max()));
    assert_eq!(parse("ten"), Err("not a percentage".to_string()));
    assert_eq!(parse(""), Err("not a percentage".to_string()));
    assert_eq!(parse("10%"), Err("not a percentage".to_string()));
    assert_eq!(parse("100.5"), Err("not a percentage between 0 and 100".to_string()));
    assert_eq!(parse("-1"), Err("not a percentage between 0 and 100".to_string()));
    assert_eq!(parse("NaN"), Err("not a percentage between 0 and 100".to_string()));
    assert_eq!(parse("inf"), Err("not a percentage between 0 and 100".to_string()));
    assert_eq!(clap_parser(None), Err("not a percentage".to_string()));
}
