use wlight::binary64::Binary64;
use wlight::brightness::{gamma_table, BrightnessError, BrightnessPlan, DisplayInfo};

fn number(value: f64) -> Binary64 {
    Binary64 {
        bits: value.to_bits(),
    }
}

fn value(number: Binary64) -> f64 {
    f64::from_bits(number.bits)
}

fn plan(target: f64, floor: f64, ddc: bool, gamma: bool) -> Result<BrightnessPlan, BrightnessError> {
    BrightnessPlan::for_target(number(target), number(floor), ddc, gamma)
}

fn display(ddc: u16, ddc_supported: bool, gamma: f64, gamma_supported: bool) -> DisplayInfo {
    DisplayInfo {
        id: "test".to_owned(),
        name: "Test".to_owned(),
        connector: "DP-1".to_owned(),
        ddc_brightness: ddc,
        ddc_supported,
        gamma_brightness: number(gamma),
        gamma_supported,
        last_error: String::new(),
    }
}

#[test]
fn target_above_floor_uses_ddc_only() {
    let plan = plan(0.63, 0.2, true, true).expect("valid brightness plan");
    assert_eq!(plan.hardware_percent, Some(63));
    assert_eq!(plan.gamma_brightness.map(value), Some(1.0));
}

#[test]
fn target_below_floor_uses_gamma() {
    let plan = plan(0.08, 0.2, true, true).expect("valid brightness plan");
    assert_eq!(plan.hardware_percent, Some(20));
    assert!((value(plan.gamma_brightness.expect("gamma value")) - 0.4).abs() < f64::EPSILON);
}

#[test]
fn gamma_only_display_is_supported() {
    let plan = plan(0.4, 0.2, false, true).expect("valid brightness plan");
    assert_eq!(plan.hardware_percent, None);
    assert_eq!(plan.gamma_brightness.map(value), Some(0.4));
}

#[test]
fn zero_target_is_exact() {
    let combined = plan(0.0, 0.2, true, true).expect("combined brightness plan");
    assert_eq!(combined.hardware_percent, Some(20));
    assert_eq!(combined.gamma_brightness.map(value), Some(0.0));

    let gamma_only = plan(0.0, 0.2, false, true).expect("gamma-only brightness plan");
    assert_eq!(gamma_only.gamma_brightness.map(value), Some(0.0));
}

#[test]
fn quantized_floor_is_used_for_gamma_ratio() {
    let plan = plan(0.002, 0.004, true, true).expect("small brightness plan");
    assert_eq!(plan.hardware_percent, Some(1));
    assert!((value(plan.gamma_brightness.expect("gamma")) - 0.2).abs() < f64::EPSILON);
}

#[test]
fn gamma_corrects_fractional_hardware_percent() {
    let plan = plan(0.632, 0.2, true, true).expect("fractional brightness plan");
    assert_eq!(plan.hardware_percent, Some(64));
    assert!((value(plan.gamma_brightness.expect("gamma")) - 0.9875).abs() < f64::EPSILON);
}

#[test]
fn gamma_table_has_three_identical_channels() {
    let table = gamma_table(4, number(0.5)).expect("valid table");
    assert_eq!(table.len(), 12);
    assert_eq!(&table[0..4], &table[4..8]);
    assert_eq!(&table[4..8], &table[8..12]);
    assert_eq!(table[0], 0);
    assert_eq!(table[3], 32768);
}

#[test]
fn rejects_non_finite_target() {
    assert_eq!(
        plan(f64::NAN, 0.2, true, true),
        Err(BrightnessError::InvalidTarget)
    );
}

#[test]
fn every_plan_error_has_an_input() {
    assert_eq!(plan(1.5, 0.2, true, true), Err(BrightnessError::InvalidTarget));
    assert_eq!(plan(-0.1, 0.2, true, true), Err(BrightnessError::InvalidTarget));
    assert_eq!(
        plan(f64::INFINITY, f64::NAN, false, false),
        Err(BrightnessError::InvalidTarget)
    );
    assert_eq!(plan(0.5, 1.01, true, true), Err(BrightnessError::InvalidFloor));
    assert_eq!(
        plan(0.5, f64::NAN, false, false),
        Err(BrightnessError::InvalidFloor)
    );
    assert_eq!(plan(0.5, 0.2, false, false), Err(BrightnessError::Unsupported));
    assert_eq!(
        gamma_table(1, number(0.5)),
        Err(BrightnessError::InvalidRampSize)
    );
    assert_eq!(
        gamma_table(256, number(1.5)),
        Err(BrightnessError::InvalidTarget)
    );
}

#[test]
fn errors_say_what_is_wrong() {
    assert_eq!(
        BrightnessError::InvalidTarget.message(),
        "brightness must be finite and between 0.0 and 1.0"
    );
    assert_eq!(
        BrightnessError::InvalidFloor.message(),
        "hardware floor must be finite and between 0.0 and 1.0"
    );
    assert_eq!(
        BrightnessError::Unsupported.message(),
        "the display exposes neither DDC nor gamma control"
    );
    assert_eq!(
        BrightnessError::InvalidRampSize.message(),
        "gamma ramp size must be at least 2"
    );
}

#[test]
fn ddc_only_display_is_rounded_to_the_nearest_percent() {
    let percent = |target| {
        let plan = plan(target, 0.2, true, false).expect("hardware plan");
        assert_eq!(plan.gamma_brightness, None);
        plan.hardware_percent
    };
    assert_eq!(percent(0.0), Some(0));
    assert_eq!(percent(0.004), Some(0));
    assert_eq!(percent(0.005), Some(1));
    assert_eq!(percent(0.634), Some(63));
    assert_eq!(percent(0.636), Some(64));
    assert_eq!(percent(1.0), Some(100));
}

#[test]
fn a_floor_of_zero_goes_dark_in_hardware() {
    let plan = plan(0.0, 0.0, true, true).expect("dark plan");
    assert_eq!(plan.hardware_percent, Some(0));
    assert_eq!(plan.gamma_brightness.map(value), Some(1.0));
}

#[test]
fn plans_agree_with_machine_arithmetic() {
    for target_step in 0..=200_u32 {
        for floor_step in 0..=20_u32 {
            let target = f64::from(target_step) / 200.0;
            let floor = f64::from(floor_step) / 19.5_f64.max(f64::from(floor_step));
            let least = |x: f64| {
                (0..=100_u16)
                    .find(|percent| f64::from(*percent) / 100.0 >= x)
                    .expect("percentage")
            };
            let hardware = least(floor).max(least(target));
            let gamma = if hardware == 0 {
                1.0
            } else {
                (target / (f64::from(hardware) / 100.0)).clamp(0.0, 1.0)
            };
            let plan = plan(target, floor, true, true).expect("plan");
            assert_eq!(plan.hardware_percent, Some(hardware));
            assert_eq!(plan.gamma_brightness.map(value), Some(gamma));
            assert!(f64::from(hardware) / 100.0 >= target);
        }
    }
}

#[test]
fn effective_percent_multiplies_both_controls() {
    let effective = |info: DisplayInfo| value(info.effective_percent());
    assert_eq!(effective(display(50, true, 0.5, true)), 25.0);
    assert_eq!(effective(display(50, true, 0.5, false)), 50.0);
    assert_eq!(effective(display(50, false, 0.5, true)), 50.0);
    assert_eq!(effective(display(50, false, 0.5, false)), 100.0);
    assert_eq!(effective(display(300, true, 1.0, true)), 100.0);
    assert_eq!(effective(display(37, true, 0.3, true)), 0.37 * 0.3 * 100.0);
}

#[test]
fn gamma_tables_agree_with_machine_arithmetic() {
    for size in [2_usize, 3, 7, 256, 1024] {
        for brightness in [0.0, 0.1, 0.3, 0.5, 0.999, 1.0] {
            let expected: Vec<u16> = (0..size)
                .map(|index| {
                    let normalized = index as f64 / (size - 1) as f64;
                    (normalized * brightness * f64::from(u16::MAX)).round() as u16
                })
                .collect();
            let table = gamma_table(size, number(brightness)).expect("table");
            assert_eq!(table.len(), 3 * size);
            for channel in table.chunks(size) {
                assert_eq!(channel, &expected[..]);
            }
        }
    }
}

#[test]
fn a_greater_target_never_lowers_the_hardware() {
    let mut last = 0;
    for step in 0..=1000_u32 {
        let plan = plan(f64::from(step) / 1000.0, 0.2, true, true).expect("plan");
        let percent = plan.hardware_percent.expect("hardware");
        assert!(last <= percent && (20..=100).contains(&percent));
        last = percent;
    }
}

#[test]
fn ramps_rise_from_zero_and_go_black() {
    let table = gamma_table(256, number(0.3)).expect("table");
    assert_eq!(table[0], 0);
    assert!(table[..256].windows(2).all(|pair| pair[0] <= pair[1]));
    let black = plan(0.0, 0.2, true, true).expect("black plan");
    let table = gamma_table(256, black.gamma_brightness.expect("gamma")).expect("table");
    assert!(table.iter().all(|entry| *entry == 0));
}

#[test]
fn applied_plans_show_their_target() {
    for step in 0..=1000 {
        let target = f64::from(step) / 1000.0;
        for floor in [0.0, 0.004, 0.2, 1.0] {
            let both = plan(target, floor, true, true).expect("plan for both controls");
            let shown = display(
                both.hardware_percent.expect("percentage"),
                true,
                value(both.gamma_brightness.expect("gamma value")),
                true,
            );
            let effective = value(shown.effective_percent());
            assert!((effective - 100.0 * target).abs() < 1e-12);
        }
        let gamma_only = display(100, false, target, true);
        assert!((value(gamma_only.effective_percent()) - 100.0 * target).abs() < 1e-12);
        let hardware = plan(target, 0.2, true, false).expect("plan for hardware");
        let ddc_only = display(hardware.hardware_percent.expect("percentage"), true, 1.0, false);
        let effective = value(ddc_only.effective_percent());
        assert!((effective - 100.0 * target).abs() < 0.5 + 1e-12);
    }
}

#[test]
fn whole_percentages_need_no_gamma() {
    let plan_55 = plan(0.55, 0.2, true, true).expect("plan for 55 percent");
    assert_eq!(plan_55.hardware_percent, Some(55));
    assert_eq!(plan_55.gamma_brightness.map(value), Some(1.0));
    for percent in 1..=100_u16 {
        let target = f64::from(percent) / 100.0;
        let whole = plan(target, 0.01, true, true).expect("whole plan");
        assert_eq!(whole.hardware_percent, Some(percent));
        assert_eq!(whole.gamma_brightness.map(value), Some(1.0));
        let floor = plan(0.0, target, true, true).expect("floor plan");
        assert_eq!(floor.hardware_percent, Some(percent));
        assert_eq!(floor.gamma_brightness.map(value), Some(0.0));
    }
}

#[test]
fn targets_just_above_a_percentage_take_the_next() {
    for percent in 0..100_u16 {
        let share = f64::from(percent) / 100.0;
        let above = f64::from_bits(share.to_bits() + 1);
        let plan = plan(above, 0.0, true, true).expect("plan");
        assert_eq!(plan.hardware_percent, Some(percent + 1));
    }
}
