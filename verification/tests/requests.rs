use wlight::binary64::Binary64;
use wlight::gamma::{GammaBackend, GammaEvent, ManagedOutput};
use wlight::request::{
    percentage_fraction, refresh_gamma, resolve_hardware_floor, validate_command,
    validate_ddc_brightness, validate_fraction, Command,
};

fn number(value: f64) -> Binary64 {
    Binary64 {
        bits: value.to_bits(),
    }
}

fn value(number: Binary64) -> f64 {
    f64::from_bits(number.bits)
}

#[test]
fn percentage_validation() {
    assert_eq!(
        value(percentage_fraction(number(25.0)).expect("valid percentage")),
        0.25
    );
    assert!(percentage_fraction(number(-1.0)).is_err());
    assert!(percentage_fraction(number(101.0)).is_err());
    assert!(percentage_fraction(number(f64::NAN)).is_err());
}

#[test]
fn percentages_become_accepted_fractions() {
    for step in 0..=1000_u32 {
        let percent = f64::from(step) / 10.0;
        let fraction = percentage_fraction(number(percent)).expect("fraction");
        assert_eq!(value(fraction), percent / 100.0);
        assert!(validate_fraction(fraction, "brightness").is_ok());
    }
    assert_eq!(
        percentage_fraction(number(f64::INFINITY)),
        Err("percentage must be finite and between 0 and 100".to_owned())
    );
}

#[test]
fn d_bus_arguments_are_checked() {
    assert_eq!(validate_fraction(number(1.0), "brightness"), Ok(()));
    assert_eq!(
        validate_fraction(number(1.1), "gamma brightness"),
        Err("gamma brightness must be finite and between 0.0 and 1.0".to_owned())
    );
    assert_eq!(validate_ddc_brightness(100), Ok(()));
    assert_eq!(
        validate_ddc_brightness(101),
        Err("DDC brightness must be between 0 and 100".to_owned())
    );
}

#[test]
fn commands_are_checked() {
    let id = || "x".to_owned();
    for command in [
        Command::List { json: true },
        Command::Refresh { json: false },
        Command::SetUnified { id: id(), percent: number(0.0) },
        Command::SetDdc { id: id(), percent: 100 },
        Command::SetGamma { id: id(), percent: number(100.0) },
    ] {
        assert_eq!(validate_command(&command), Ok(()));
    }
    let message = "percentage must be finite and between 0 and 100";
    for command in [
        Command::SetUnified { id: id(), percent: number(100.5) },
        Command::SetGamma { id: id(), percent: number(-0.5) },
    ] {
        assert_eq!(validate_command(&command), Err(message.to_owned()));
    }
    assert_eq!(
        validate_command(&Command::SetDdc { id: id(), percent: 101 }),
        Err("DDC percentage must be between 0 and 100".to_owned())
    );
}

#[test]
fn the_floor_can_be_overridden() {
    let configured = number(0.2);
    assert_eq!(resolve_hardware_floor(None, configured), Ok(configured));
    assert_eq!(
        resolve_hardware_floor(Some(number(35.0)), configured).map(value),
        Ok(0.35)
    );
    assert_eq!(
        resolve_hardware_floor(Some(number(135.0)), configured),
        Err("--hardware-floor must be finite and between 0 and 100".to_owned())
    );
}

#[test]
fn a_refresh_reconnects_what_has_failed() {
    assert!(refresh_gamma(None));
    let mut backend = GammaBackend::connect();
    backend.output_added(ManagedOutput::bind(1, 2, 3));
    assert!(!refresh_gamma(Some(&backend)));
    backend.gamma_event(3, GammaEvent::Failed);
    assert!(refresh_gamma(Some(&backend)));
}
