use wlight::binary64::Binary64;
use wlight::gamma::{
    check_gamma_brightness, gamma_file, Delivery, GammaBackend, GammaEvent, GammaStep,
    ManagedOutput, Release,
};

fn number(value: f64) -> Binary64 {
    Binary64 {
        bits: value.to_bits(),
    }
}

/// A worker with the outputs DP-2, DP-1 and one without a name.
fn worker() -> GammaBackend {
    let mut backend = GammaBackend::connect();
    backend.output_added(ManagedOutput::bind(10, 100, 1000));
    backend.output_added(ManagedOutput::bind(11, 101, 1001));
    backend.output_added(ManagedOutput::bind(12, 102, 1002));
    backend.output_event(100, "DP-2".to_owned());
    backend.output_event(101, "DP-1".to_owned());
    assert!(!backend.gamma_event(1000, GammaEvent::GammaSize(4)));
    assert!(!backend.gamma_event(1001, GammaEvent::GammaSize(256)));
    assert!(!backend.gamma_event(1002, GammaEvent::GammaSize(256)));
    backend
}

fn names(backend: &GammaBackend) -> Vec<String> {
    backend
        .outputs()
        .into_iter()
        .map(|output| output.name)
        .collect()
}

fn refused(step: GammaStep) -> String {
    match step {
        GammaStep::Done(Err(message)) => message,
        other => panic!("not refused: {other:?}"),
    }
}

#[test]
fn gamma_file_has_exact_native_endian_bytes() {
    let table = [0x1234_u16, 0xabcd];
    let bytes = gamma_file(&table);
    assert_eq!(
        bytes,
        [0x1234_u16.to_ne_bytes(), 0xabcd_u16.to_ne_bytes()].concat()
    );
}

#[test]
fn nothing_is_published_before_it_changes() {
    let mut backend = worker();
    assert!(names(&backend).is_empty());
    backend.publish_outputs();
    assert_eq!(names(&backend), ["DP-1", "DP-2"]);
    assert_eq!(backend.refresh().len(), 2);
    let output = &backend.outputs()[1];
    assert_eq!(output.ramp_size, 4);
    assert_eq!(output.brightness.bits, 1.0_f64.to_bits());
}

#[test]
fn a_failed_control_asks_for_a_new_connection() {
    let mut backend = worker();
    assert!(backend.is_running());
    assert!(!backend.needs_reconnect());
    assert!(backend.gamma_event(1000, GammaEvent::Failed));
    assert!(backend.needs_reconnect());
    backend.publish_outputs();
    assert_eq!(names(&backend), ["DP-1"]);
    backend.gamma_event(1000, GammaEvent::GammaSize(4));
    backend.publish_outputs();
    assert_eq!(names(&backend), ["DP-1"]);
    assert_eq!(
        backend.output_removed(10),
        Some(Release {
            gamma_control: None,
            wl_output: 100
        })
    );
}

#[test]
fn removed_outputs_are_given_back() {
    let mut backend = worker();
    assert_eq!(backend.output_removed(99), None);
    assert_eq!(
        backend.output_removed(10),
        Some(Release {
            gamma_control: Some(1000),
            wl_output: 100
        })
    );
    backend.publish_outputs();
    assert_eq!(names(&backend), ["DP-1"]);
    let released = backend.shutdown();
    assert_eq!(
        released,
        [
            Release {
                gamma_control: Some(1002),
                wl_output: 102
            },
            Release {
                gamma_control: Some(1001),
                wl_output: 101
            }
        ]
    );
    assert!(!backend.is_running());
    assert!(backend.needs_reconnect());
}

#[test]
fn events_of_unknown_objects_are_ignored() {
    let mut backend = worker();
    backend.publish_outputs();
    backend.output_event(7, "DP-9".to_owned());
    assert!(!backend.gamma_event(7, GammaEvent::Failed));
    assert!(!backend.needs_reconnect());
    backend.publish_outputs();
    assert_eq!(names(&backend), ["DP-1", "DP-2"]);
}

#[test]
fn a_delivered_table_is_published() {
    let mut backend = worker();
    backend.publish_outputs();
    match backend.set_brightness("DP-2", number(0.5), None) {
        GammaStep::Send {
            gamma_control,
            contents,
        } => {
            assert_eq!(gamma_control, 1000);
            assert_eq!(contents.len(), 24);
            assert_eq!(contents[6..8], 32768_u16.to_ne_bytes());
        }
        other => panic!("{other:?}"),
    }
    match backend.set_brightness("DP-2", number(0.5), Some(Delivery::Sent)) {
        GammaStep::Done(Ok(output)) => assert_eq!(output.name, "DP-2"),
        other => panic!("{other:?}"),
    }
    assert_eq!(backend.outputs()[0].brightness.bits, 1.0_f64.to_bits());
    assert_eq!(backend.outputs()[1].brightness.bits, 0.5_f64.to_bits());
}

#[test]
fn every_gamma_failure_has_its_message() {
    let mut backend = worker();
    assert!(check_gamma_brightness(number(1.0)).is_ok());
    assert_eq!(
        refused(backend.set_brightness("DP-1", number(1.5), None)),
        "gamma brightness must be finite and between 0.0 and 1.0"
    );
    assert_eq!(
        refused(backend.set_brightness("DP-7", number(0.5), None)),
        "unknown or unsupported Wayland output DP-7"
    );
    assert_eq!(
        refused(backend.set_brightness(
            "DP-1",
            number(0.5),
            Some(Delivery::NotPrepared("failed to create gamma shared file: disk full".to_owned()))
        )),
        "failed to create gamma shared file: disk full"
    );
    assert_eq!(
        refused(backend.set_brightness(
            "DP-1",
            number(0.5),
            Some(Delivery::NotSent("broken pipe".to_owned()))
        )),
        "failed to send gamma table for DP-1: broken pipe"
    );
    backend.gamma_event(1001, GammaEvent::GammaSize(1));
    assert_eq!(
        refused(backend.set_brightness("DP-1", number(0.5), None)),
        "invalid gamma table: gamma ramp size must be at least 2"
    );
    let mut fresh = GammaBackend::connect();
    fresh.output_added(ManagedOutput::bind(1, 2, 3));
    fresh.output_event(2, "DP-1".to_owned());
    assert_eq!(
        refused(fresh.set_brightness("DP-1", number(0.5), None)),
        "gamma ramp size is not available for DP-1"
    );
    fresh.gamma_event(3, GammaEvent::Failed);
    assert_eq!(
        refused(fresh.set_brightness("DP-1", number(0.5), None)),
        "unknown or unsupported Wayland output DP-1"
    );
}

#[test]
fn a_lost_worker_publishes_nothing() {
    let mut backend = worker();
    backend.publish_outputs();
    backend.lost();
    assert!(names(&backend).is_empty());
    assert!(backend.needs_reconnect());
}
