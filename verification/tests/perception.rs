use brightctl::percent::Percent;
use brightctl::perception;
use brightctl::perception::{brightness_rule, percent_rule, saturate, BrightnessRule, PercentRule};

/// A percentage as a raw brightness of a device.
fn brightness_from_percent(percent: f32, max_brightness: u16) -> u16 {
    let exp = (percent / 100.0) * f32::from(max_brightness).log10();
    let power = (10_f32).powf(exp).round();
    let percent = Percent::new(percent.to_bits()).unwrap();
    perception::brightness_from_percent(&percent, max_brightness, power as i64)
}

/// The raw brightness of a device as a percentage.
fn brightness_to_percent(brightness: u16, max_brightness: u16) -> f32 {
    let logarithm = f32::from(brightness).log(f32::from(max_brightness)) * 100.0;
    let percent = perception::brightness_to_percent(brightness, max_brightness, logarithm.to_bits());
    f32::from_bits(percent.unwrap().get())
}

fn assert_near(value: f32, expected: f32, epsilon: f32) {
    assert!((value - expected).abs() <= epsilon, "{value} is not within {epsilon} of {expected}");
}

#[test]
fn test_brightness_from_percent() {
    assert_eq!(brightness_from_percent(0.0, 100), 0);
    assert_eq!(brightness_from_percent(10.0, 100), 2);
    assert_eq!(brightness_from_percent(20.0, 100), 3);
    assert_eq!(brightness_from_percent(30.0, 100), 4);
    assert_eq!(brightness_from_percent(40.0, 100), 6);
    assert_eq!(brightness_from_percent(50.0, 100), 10);
    assert_eq!(brightness_from_percent(60.0, 100), 16);
    assert_eq!(brightness_from_percent(70.0, 100), 25);
    assert_eq!(brightness_from_percent(80.0, 100), 40);
    assert_eq!(brightness_from_percent(90.0, 100), 63);
    assert_eq!(brightness_from_percent(95.0, 100), 79);
    assert_eq!(brightness_from_percent(99.0, 100), 95);
    assert_eq!(brightness_from_percent(100.0, 100), 100);
    assert_eq!(brightness_from_percent(100.0, 12345), 12345);
}

#[test]
fn test_brightness_to_percent() {
    let ep = 0.01; // epsilon
    assert_near(brightness_to_percent(0, 100), 0.0, ep);
    assert_near(brightness_to_percent(2, 100), 15.05, ep);
    assert_near(brightness_to_percent(3, 100), 23.86, ep);
    assert_near(brightness_to_percent(4, 100), 30.10, ep);
    assert_near(brightness_to_percent(6, 100), 38.91, ep);
    assert_near(brightness_to_percent(10, 100), 50.0, ep);
    assert_near(brightness_to_percent(16, 100), 60.21, ep);
    assert_near(brightness_to_percent(25, 100), 69.89, ep);
    assert_near(brightness_to_percent(40, 100), 80.10, ep);
    assert_near(brightness_to_percent(63, 100), 89.96, ep);
    assert_near(brightness_to_percent(79, 100), 94.88, ep);
    assert_near(brightness_to_percent(95, 100), 98.88, ep);
    assert_near(brightness_to_percent(100, 100), 100.0, ep);
    assert_near(brightness_to_percent(12345, 12345), 100.0, ep);
}

#[test]
fn no_percent_and_no_range_give_no_brightness() {
    for max_brightness in [0u16, 1, 2, 100, 65535] {
        assert_eq!(brightness_rule(true, max_brightness), BrightnessRule::Zero);
        assert_eq!(brightness_from_percent(0.0, max_brightness), 0);
    }
    assert_eq!(brightness_rule(false, 0), BrightnessRule::Zero);
    assert_eq!(brightness_rule(false, 1), BrightnessRule::Power);
    assert_eq!(brightness_rule(false, 100), BrightnessRule::Power);
    for percent in [0.0f32, 0.5, 50.0, 100.0] {
        assert_eq!(brightness_from_percent(percent, 0), 0);
    }
}

#[test]
fn no_brightness_is_no_percent() {
    for max_brightness in [0u16, 1, 2, 100, 65535] {
        assert_eq!(percent_rule(0, max_brightness), PercentRule::Zero);
    }
    assert_eq!(brightness_to_percent(0, 100), 0.0);
    assert_eq!(brightness_to_percent(100, 100), 100.0);
    assert_eq!(brightness_to_percent(65535, 65535), 100.0);
    assert_eq!(brightness_to_percent(2, 2), 100.0);
}

#[test]
fn a_single_step_is_all_or_nothing() {
    assert_eq!(percent_rule(0, 1), PercentRule::Zero);
    assert_eq!(percent_rule(1, 1), PercentRule::Full);
    assert_eq!(percent_rule(2, 1), PercentRule::Full);
    assert_eq!(percent_rule(65535, 1), PercentRule::Full);
    assert_eq!(percent_rule(0, 0), PercentRule::Zero);
    assert_eq!(percent_rule(1, 0), PercentRule::Full);
    assert_eq!(brightness_to_percent(1, 1), 100.0);
    assert_eq!(brightness_to_percent(0, 1), 0.0);
}

#[test]
fn a_wider_range_goes_by_the_logarithm() {
    assert_eq!(percent_rule(1, 2), PercentRule::Logarithm);
    assert_eq!(percent_rule(16, 100), PercentRule::Logarithm);
    assert_eq!(percent_rule(100, 100), PercentRule::Logarithm);
    assert_eq!(percent_rule(65535, 65535), PercentRule::Logarithm);
    assert_eq!(brightness_to_percent(1, 100), 0.0);
}

#[test]
fn the_curve_counts_only_where_the_rule_asks_for_it() {
    let zero = Percent::min();
    let half = Percent::new(50.0f32.to_bits()).unwrap();
    assert_eq!(perception::brightness_from_percent(&zero, 100, 77), 0);
    assert_eq!(perception::brightness_from_percent(&half, 0, 77), 0);
    assert_eq!(perception::brightness_from_percent(&half, 100, 77), 77);
    assert_eq!(perception::brightness_from_percent(&half, 100, 70000), 65535);
    assert_eq!(perception::brightness_from_percent(&half, 100, -3), 0);
    let negative_zero = Percent::new((-0.0f32).to_bits()).unwrap();
    assert_eq!(perception::brightness_from_percent(&negative_zero, 100, 77), 0);

    let sixty = 60.0f32.to_bits();
    assert_eq!(perception::brightness_to_percent(0, 100, sixty), Some(Percent::min()));
    assert_eq!(perception::brightness_to_percent(0, 1, sixty), Some(Percent::min()));
    assert_eq!(perception::brightness_to_percent(1, 1, sixty), Some(Percent::max()));
    assert_eq!(perception::brightness_to_percent(9, 1, sixty), Some(Percent::max()));
    assert_eq!(perception::brightness_to_percent(1, 0, sixty), Some(Percent::max()));
    assert_eq!(perception::brightness_to_percent(16, 100, sixty), Percent::new(sixty));
    assert_eq!(perception::brightness_to_percent(16, 100, sixty).unwrap().get(), sixty);
}

#[test]
fn a_logarithm_that_is_no_percentage_gives_none() {
    assert_eq!(perception::brightness_to_percent(200, 100, 115.0f32.to_bits()), None);
    assert_eq!(perception::brightness_to_percent(16, 100, f32::NAN.to_bits()), None);
    assert_eq!(perception::brightness_to_percent(16, 100, (-1.0f32).to_bits()), None);
    assert_eq!(perception::brightness_to_percent(0, 100, f32::NAN.to_bits()), Some(Percent::min()));
    assert_eq!(perception::brightness_to_percent(1, 1, f32::NAN.to_bits()), Some(Percent::max()));
}

#[test]
fn saturate_keeps_to_the_range() {
    assert_eq!(saturate(0), 0);
    assert_eq!(saturate(16), 16);
    assert_eq!(saturate(65535), 65535);
    assert_eq!(saturate(65536), 65535);
    assert_eq!(saturate(i64::MAX), 65535);
    assert_eq!(saturate(-1), 0);
    assert_eq!(saturate(i64::MIN), 0);
}

#[test]
fn saturate_is_the_cast_of_a_rounded_float() {
    for value in [0.0f32, 0.4, 0.5, 1.5, 15.85, 65534.6, 65535.0, 65535.5, 1.0e9, 3.0e38, -0.0, -2.5,
        f32::INFINITY, f32::NEG_INFINITY, f32::NAN]
    {
        assert_eq!(saturate(value.round() as i64), value.round() as u16, "for {value}");
    }
}

#[test]
fn percent_and_brightness_go_back_and_forth() {
    for max_brightness in [2u16, 10, 100, 255, 1000, 12345, 65535] {
        for step in 0..=100 {
            let percent = step as f32;
            let brightness = brightness_from_percent(percent, max_brightness);
            assert!(brightness <= max_brightness);
            if brightness >= 1 {
                // half a step of brightness, seen as a percentage
                let lower = f32::from(brightness) - 0.5;
                let upper = f32::from(brightness) + 0.5;
                let tolerance = (upper.ln() - lower.ln()) / f32::from(max_brightness).ln() * 100.0;
                assert_near(brightness_to_percent(brightness, max_brightness), percent, tolerance + 0.01);
            }
        }
    }
}

#[test]
fn sixty_percent_of_a_hundred_is_sixteen() {
    assert_eq!(brightness_from_percent(60.0, 100), 16);
    assert_near(brightness_to_percent(16, 100), 60.2, 0.02);
}
