use wlight::adjustment::{ordered_adjustments, Adjustment};
use wlight::backend::WriteStep;
use wlight::binary64::Binary64;
use wlight::brightness::{BrightnessPlan, DisplayInfo};
use wlight::config::Config;
use wlight::ddc::{MonitorInfo, Probe, VcpValue};
use wlight::drm::ConnectorListing;
use wlight::gamma::GammaOutput;
use wlight::manager::{ManagerState, RequestStep, RestoreStep};

fn number(value: f64) -> Binary64 {
    Binary64 {
        bits: value.to_bits(),
    }
}

fn value(number: Binary64) -> f64 {
    f64::from_bits(number.bits)
}

fn display(ddc: u16, gamma: f64) -> DisplayInfo {
    DisplayInfo {
        id: "test".to_owned(),
        name: "Test".to_owned(),
        connector: "DP-1".to_owned(),
        ddc_brightness: ddc,
        ddc_supported: true,
        gamma_brightness: number(gamma),
        gamma_supported: true,
        last_error: String::new(),
    }
}

fn plan(hardware: Option<u16>, gamma: Option<f64>) -> BrightnessPlan {
    BrightnessPlan {
        hardware_percent: hardware,
        gamma_brightness: gamma.map(number),
    }
}

fn output(name: &str, brightness: f64) -> GammaOutput {
    GammaOutput {
        name: name.to_owned(),
        ramp_size: 256,
        brightness: number(brightness),
    }
}

fn id() -> String {
    format!("edid-{}", blake3::hash(&[1_u8; 128]).to_hex())
}

fn listings() -> Vec<ConnectorListing> {
    vec![ConnectorListing {
        sysfs_name: "card0-DP-1".to_owned(),
        status: Some("connected".to_owned()),
        edid: Some(vec![1_u8; 128]),
        entries: vec!["i2c-4".to_owned()],
        ddc_target: None,
        ddc_entries: Vec::new(),
        ddc_device_entries: Vec::new(),
    }]
}

fn probes(percent: u8) -> Vec<Probe> {
    vec![Probe {
        slot: 0,
        info: MonitorInfo {
            id: (0x5900 + 4).to_string(),
            manufacturer_id: None,
            model_id: None,
            model_name: Some("Panel".to_owned()),
            edid_data: Some(vec![1_u8; 128]),
        },
        reading: Some(VcpValue {
            mh: 0,
            ml: 100,
            sh: 0,
            sl: percent,
        }),
    }]
}

/// A monitor on DP-1 at 50 %, with the outputs DP-1 and DP-2.
fn state(config: Config, outputs: &Vec<GammaOutput>) -> ManagerState {
    ManagerState::new(config, number(0.2), &listings(), &probes(50), true, outputs)
}

fn outputs() -> Vec<GammaOutput> {
    vec![output("DP-1", 1.0), output("DP-2", 0.5)]
}

fn applied(step: RequestStep) -> Adjustment {
    match step {
        RequestStep::Apply { adjustment, .. } => adjustment,
        other => panic!("nothing to apply: {other:?}"),
    }
}

fn refused(step: RequestStep) -> String {
    match step {
        RequestStep::Failed(message) => message,
        other => panic!("not refused: {other:?}"),
    }
}

fn write(state: &mut ManagerState, percent: u16) {
    assert!(matches!(
        state.write_ddc(&id(), percent, &Vec::new()),
        WriteStep::Write { slot: 0, .. }
    ));
    assert!(matches!(
        state.write_ddc(&id(), percent, &vec![Ok(())]),
        WriteStep::Done(Ok(_))
    ));
}

#[test]
fn lowers_hardware_before_raising_gamma() {
    let adjustments = ordered_adjustments(&display(100, 0.1), plan(Some(20), Some(0.75)));
    assert!(matches!(adjustments[0], Adjustment::Ddc { .. }));
    assert!(matches!(adjustments[1], Adjustment::Gamma { .. }));
}

#[test]
fn lowers_gamma_before_raising_hardware() {
    let adjustments = ordered_adjustments(&display(20, 0.75), plan(Some(100), Some(0.1)));
    assert!(matches!(adjustments[0], Adjustment::Gamma { .. }));
    assert!(matches!(adjustments[1], Adjustment::Ddc { .. }));
}

#[test]
fn skips_unchanged_controls() {
    let adjustments = ordered_adjustments(&display(40, 0.5), plan(Some(40), Some(0.5)));
    assert!(adjustments.is_empty());
}

#[test]
fn gamma_dims_first_and_brightens_last() {
    let dimming = ordered_adjustments(&display(50, 0.5), plan(Some(40), Some(0.4)));
    assert!(matches!(dimming[0], Adjustment::Gamma { .. }));
    let brightening = ordered_adjustments(&display(50, 0.5), plan(Some(60), Some(0.6)));
    assert!(matches!(brightening[0], Adjustment::Ddc { from: 50, to: 60 }));
    let close = 0.5 + f64::EPSILON / 2.0;
    assert!(ordered_adjustments(&display(50, 0.5), plan(None, Some(close))).is_empty());
    let adjustment = Adjustment::Ddc { from: 1, to: 2 };
    assert_eq!(adjustment.rollback(), Adjustment::Ddc { from: 2, to: 1 });
    assert_eq!(adjustment.rollback().rollback(), adjustment);
}

#[test]
fn backends_are_merged_by_connector() {
    let displays = state(Config::default(), &outputs()).displays();
    assert_eq!(displays.len(), 2);
    assert_eq!(displays[0].id, id());
    assert_eq!(displays[0].name, "Panel");
    assert_eq!(displays[0].connector, "DP-1");
    assert_eq!(displays[0].ddc_brightness, 50);
    assert!(displays[0].ddc_supported && displays[0].gamma_supported);
    assert_eq!(displays[1].id, "wayland:DP-2");
    assert_eq!(displays[1].ddc_brightness, 100);
    assert!(!displays[1].ddc_supported && displays[1].gamma_supported);
    assert_eq!(value(displays[1].gamma_brightness), 0.5);
}

#[test]
fn ddc_works_without_gamma() {
    let state = ManagerState::new(
        Config::default(),
        number(0.2),
        &listings(),
        &probes(50),
        false,
        &Vec::new(),
    );
    let displays = state.displays();
    assert_eq!(displays.len(), 1);
    assert!(displays[0].ddc_supported && !displays[0].gamma_supported);
    assert_eq!(value(displays[0].gamma_brightness), 1.0);
}

#[test]
fn an_effective_brightness_is_applied_and_saved() {
    let mut state = state(Config::default(), &outputs());
    let target = number(0.1);
    let first = applied(state.set_brightness(&id(), target, &Vec::new(), &outputs()));
    assert!(matches!(first, Adjustment::Gamma { to, .. } if value(to) == 0.5));
    let second = applied(state.set_brightness(&id(), target, &vec![Ok(())], &outputs()));
    assert_eq!(second, Adjustment::Ddc { from: 50, to: 20 });
    write(&mut state, 20);
    let after = vec![output("DP-1", 0.5), output("DP-2", 0.5)];
    assert!(matches!(
        state.set_brightness(&id(), target, &vec![Ok(()), Ok(())], &after),
        RequestStep::Save
    ));
    let saved = state.config().saved(&id()).expect("saved");
    assert_eq!(saved.ddc_brightness, Some(20));
    assert_eq!(saved.gamma_brightness.map(value), Some(0.5));
    let info = state.save_config_for(&id(), Ok(()), &after).expect("info");
    assert_eq!(info.ddc_brightness, 20);
    assert_eq!(value(info.gamma_brightness), 0.5);
    assert_eq!(value(info.effective_percent()), 10.0);
}

#[test]
fn a_failed_change_is_taken_back() {
    let mut state = state(Config::default(), &outputs());
    let target = number(0.1);
    let outcomes = vec![Ok(()), Err("no ack".to_owned())];
    let back = applied(state.set_brightness(&id(), target, &outcomes, &outputs()));
    assert!(matches!(back, Adjustment::Gamma { to, .. } if value(to) == 1.0));
    let mut taken_back = outcomes.clone();
    taken_back.push(Ok(()));
    assert_eq!(
        refused(state.set_brightness(&id(), target, &taken_back, &outputs())),
        "DDC write failed: no ack"
    );
    assert_eq!(state.displays()[0].last_error, "DDC write failed: no ack");
    assert!(state.config().saved(&id()).is_none());

    let mut stuck = outcomes;
    stuck.push(Err("gone".to_owned()));
    assert_eq!(
        refused(state.set_brightness(&id(), target, &stuck, &outputs())),
        "DDC write failed: no ack; rollback also failed: failed to update gamma for DP-1: gone"
    );
    assert!(matches!(
        state.set_brightness(&id(), target, &vec![Ok(()), Ok(())], &outputs()),
        RequestStep::Save
    ));
    assert_eq!(state.displays()[0].last_error, "");
}

#[test]
fn requests_are_checked_first() {
    let mut state = state(Config::default(), &outputs());
    let none = Vec::new();
    assert_eq!(
        refused(state.set_brightness("x", number(0.5), &none, &outputs())),
        "unknown display x"
    );
    assert_eq!(
        refused(state.set_brightness(&id(), number(1.5), &none, &outputs())),
        "brightness must be finite and between 0.0 and 1.0"
    );
    assert_eq!(
        refused(state.set_ddc_brightness(&id(), 101, &none, &outputs())),
        "DDC brightness must be between 0 and 100"
    );
    assert_eq!(
        refused(state.set_ddc_brightness("x", 10, &none, &outputs())),
        "unknown display x"
    );
    assert_eq!(
        refused(state.set_ddc_brightness("wayland:DP-2", 10, &none, &outputs())),
        "display wayland:DP-2 does not support DDC brightness"
    );
    assert_eq!(
        refused(state.set_gamma_brightness(&id(), number(f64::NAN), &none, &outputs())),
        "gamma brightness must be finite and between 0.0 and 1.0"
    );
    assert_eq!(
        refused(state.set_gamma_brightness("x", number(0.5), &none, &outputs())),
        "unknown display x"
    );
    state.refresh(&listings(), &probes(50), true, &Vec::new());
    assert_eq!(
        refused(state.set_gamma_brightness(&id(), number(0.5), &none, &Vec::new())),
        format!("display {} does not support Wayland gamma control", id())
    );
    assert_eq!(state.displays()[0].last_error, "");
}

#[test]
fn single_controls_are_set_and_saved() {
    let mut state = state(Config::default(), &outputs());
    let none = Vec::new();
    assert_eq!(
        applied(state.set_ddc_brightness(&id(), 30, &none, &outputs())),
        Adjustment::Ddc { from: 50, to: 30 }
    );
    assert_eq!(
        refused(state.set_ddc_brightness(&id(), 30, &vec![Err("no ack".to_owned())], &outputs())),
        "DDC write failed: no ack"
    );
    assert!(matches!(
        state.set_ddc_brightness(&id(), 30, &vec![Ok(())], &outputs()),
        RequestStep::Save
    ));
    assert!(matches!(
        state.set_ddc_brightness(&id(), 50, &none, &outputs()),
        RequestStep::Save
    ));
    assert!(matches!(
        state.set_gamma_brightness("wayland:DP-2", number(0.5), &none, &outputs()),
        RequestStep::Save
    ));
    let step = state.set_gamma_brightness("wayland:DP-2", number(0.25), &none, &outputs());
    assert!(matches!(step, RequestStep::Apply { ref connector, .. } if connector == "DP-2"));
    assert_eq!(
        refused(state.set_gamma_brightness(
            "wayland:DP-2",
            number(0.25),
            &vec![Err("gone".to_owned())],
            &outputs()
        )),
        "gamma update failed: failed to update gamma for DP-2: gone"
    );
    state.shutdown();
    assert_eq!(
        refused(state.set_gamma_brightness("wayland:DP-2", number(0.25), &none, &outputs())),
        "gamma update failed: Wayland gamma backend is unavailable"
    );
}

#[test]
fn gamma_needs_a_connector() {
    let nameless = vec![output("", 1.0)];
    let mut state = state(Config::default(), &nameless);
    assert_eq!(state.displays().len(), 2);
    assert_eq!(
        refused(state.set_gamma_brightness("wayland:", number(0.5), &Vec::new(), &nameless)),
        "gamma update failed: the display is not associated with a Wayland connector"
    );
}

#[test]
fn a_configuration_that_cannot_be_saved_is_reported() {
    let mut state = state(Config::default(), &outputs());
    assert!(matches!(
        state.set_ddc_brightness(&id(), 50, &Vec::new(), &outputs()),
        RequestStep::Save
    ));
    let message = "hardware changed, but configuration could not be saved: disk full";
    assert_eq!(
        state
            .save_config_for(&id(), Err("disk full".to_owned()), &outputs())
            .err()
            .as_deref(),
        Some(message)
    );
    assert_eq!(state.displays()[0].last_error, message);
    assert_eq!(
        state.save_config_for("x", Ok(()), &outputs()).err().as_deref(),
        Some("unknown display x")
    );
}

#[test]
fn saved_settings_are_restored() {
    let mut config = Config::default();
    config.remember_ddc(&id(), 70);
    config.remember_gamma("wayland:DP-2", number(0.25));
    config.remember_ddc("wayland:DP-2", 10);
    config.remember_ddc("absent", 10);
    let mut state = state(config, &outputs());
    match state.restore_saved_settings(&Vec::new(), &outputs()) {
        RestoreStep::Apply {
            id: display,
            adjustment,
            ..
        } => {
            assert_eq!(display, id());
            assert_eq!(adjustment, Adjustment::Ddc { from: 50, to: 70 });
        }
        other => panic!("{other:?}"),
    }
    let mut outcomes = vec![Err("no ack".to_owned())];
    match state.restore_saved_settings(&outcomes, &outputs()) {
        RestoreStep::Apply {
            id: display,
            connector,
            adjustment,
        } => {
            assert_eq!(display, "wayland:DP-2");
            assert_eq!(connector, "DP-2");
            assert!(matches!(adjustment, Adjustment::Gamma { to, .. } if value(to) == 0.25));
        }
        other => panic!("{other:?}"),
    }
    assert_eq!(state.displays()[0].last_error, "");
    outcomes.push(Ok(()));
    let after = vec![output("DP-1", 1.0), output("DP-2", 0.25)];
    assert!(matches!(
        state.restore_saved_settings(&outcomes, &after),
        RestoreStep::Done
    ));
    let displays = state.displays();
    assert_eq!(
        displays[0].last_error,
        "settings restore failed: DDC write failed: no ack"
    );
    assert_eq!(displays[1].last_error, "");
    assert_eq!(value(displays[1].gamma_brightness), 0.25);
}

#[test]
fn an_ordinary_refresh_writes_nothing() {
    let mut config = Config::default();
    config.remember_ddc(&id(), 50);
    config.remember_gamma(&id(), number(1.0));
    config.remember_gamma("wayland:DP-2", number(0.5));
    let mut state = state(config, &outputs());
    state.refresh(&listings(), &probes(50), true, &outputs());
    assert!(matches!(
        state.restore_saved_settings(&Vec::new(), &outputs()),
        RestoreStep::Done
    ));
    state.refresh(&listings(), &probes(80), true, &outputs());
    assert!(matches!(
        state.restore_saved_settings(&Vec::new(), &outputs()),
        RestoreStep::Apply {
            adjustment: Adjustment::Ddc { from: 80, to: 50 },
            ..
        }
    ));
}

/// Carries a restoration through: every change succeeds.
fn restore(state: &mut ManagerState, outputs: &mut Vec<GammaOutput>) -> usize {
    let mut outcomes = Vec::new();
    loop {
        match state.restore_saved_settings(&outcomes, outputs) {
            RestoreStep::Apply {
                adjustment: Adjustment::Ddc { to, .. },
                ..
            } => write(state, to),
            RestoreStep::Apply {
                connector,
                adjustment: Adjustment::Gamma { to, .. },
                ..
            } => {
                for output in outputs.iter_mut() {
                    if output.name == connector {
                        output.brightness = to;
                    }
                }
            }
            RestoreStep::Done => return outcomes.len(),
        }
        outcomes.push(Ok(()));
    }
}

#[test]
fn refreshing_again_changes_nothing() {
    let mut config = Config::default();
    config.remember_ddc(&id(), 70);
    config.remember_gamma(&id(), number(0.5));
    config.remember_gamma("wayland:DP-2", number(0.25));
    let mut outputs = outputs();
    let mut state = state(config, &outputs);
    state.refresh(&listings(), &probes(50), true, &outputs);
    assert_eq!(restore(&mut state, &mut outputs), 3);
    let shown = state.displays();
    assert_eq!(shown[0].ddc_brightness, 70);
    assert_eq!(value(shown[0].gamma_brightness), 0.5);
    assert_eq!(value(shown[1].gamma_brightness), 0.25);

    state.refresh(&listings(), &probes(70), true, &outputs);
    assert_eq!(restore(&mut state, &mut outputs), 0);
    assert_eq!(format!("{:?}", state.displays()), format!("{shown:?}"));

    state.refresh(&listings(), &probes(71), true, &outputs);
    assert_eq!(state.displays()[0].id, shown[0].id);
    assert_eq!(restore(&mut state, &mut outputs), 1);
}

/// Probes of the monitor when it has few levels.
fn coarse_probes(level: u8, levels: u8) -> Vec<Probe> {
    let mut probes = probes(level);
    probes[0].reading = Some(VcpValue {
        mh: 0,
        ml: levels,
        sh: 0,
        sl: level,
    });
    probes
}

#[test]
fn a_coarse_monitor_is_left_alone() {
    let mut config = Config::default();
    config.remember_ddc(&id(), 33);
    let mut outputs = outputs();
    let mut state = state(config, &outputs);
    state.refresh(&listings(), &coarse_probes(50, 50), true, &outputs);
    assert_eq!(restore(&mut state, &mut outputs), 1);
    assert_eq!(state.displays()[0].ddc_brightness, 34);
    state.refresh(&listings(), &coarse_probes(17, 50), true, &outputs);
    assert_eq!(restore(&mut state, &mut outputs), 0);
    assert_eq!(state.displays()[0].ddc_brightness, 34);
    state.refresh(&listings(), &coarse_probes(18, 50), true, &outputs);
    assert_eq!(restore(&mut state, &mut outputs), 1);
}

#[test]
fn a_settled_display_has_no_error() {
    let mut config = Config::default();
    config.remember_ddc(&id(), 33);
    let outputs = outputs();
    let mut state = state(config, &outputs);
    let failed = vec![Err("no ack".to_owned())];
    assert!(matches!(
        state.restore_saved_settings(&failed, &outputs),
        RestoreStep::Done
    ));
    assert_eq!(
        state.displays()[0].last_error,
        "settings restore failed: DDC write failed: no ack"
    );
    state.refresh(&listings(), &coarse_probes(17, 50), true, &outputs);
    assert!(matches!(
        state.restore_saved_settings(&Vec::new(), &outputs),
        RestoreStep::Done
    ));
    assert_eq!(state.displays()[0].last_error, "");
}
