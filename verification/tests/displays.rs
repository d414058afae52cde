use wlight::backend::{
    get_vcp_with_retry, handle_order, set_vcp_with_retry, DdcBackend, ReadStep, VcpStep, WriteStep,
};
use wlight::ddc::{
    bus_label, display_name, wants_reading, DdcCandidate, DdcDisplay, ManagedHandle, MonitorInfo,
    Probe, VcpValue,
};
use wlight::drm::{edid_fingerprint, ConnectorListing, Fingerprint};
use wlight::grouping::{
    ensure_unique_id, group_candidates, physical_group_key, sanitize_id_component,
};

fn fingerprint(byte: u8) -> Fingerprint {
    edid_fingerprint(&[byte; 128]).expect("fingerprint")
}

fn hex(byte: u8) -> String {
    blake3::hash(&[byte; 128]).to_hex().to_string()
}

fn candidate(slot: usize, byte: u8, connector: Option<&str>, bus: Option<u32>, preference: u8) -> DdcCandidate {
    DdcCandidate {
        handle: ManagedHandle {
            slot,
            i2c_bus: bus,
            maximum: 100,
        },
        fingerprint: fingerprint(byte),
        connector: connector.map(str::to_owned),
        preference,
        name: format!("Monitor {slot}"),
        current: 40,
    }
}

fn info(id: &str, edid: Option<Vec<u8>>) -> MonitorInfo {
    MonitorInfo {
        id: id.to_owned(),
        manufacturer_id: None,
        model_id: None,
        model_name: Some("Panel".to_owned()),
        edid_data: edid,
    }
}

fn reading(maximum: u16, current: u16) -> VcpValue {
    let [mh, ml] = maximum.to_be_bytes();
    let [sh, sl] = current.to_be_bytes();
    VcpValue { mh, ml, sh, sl }
}

fn listing(name: &str, edid: &[u8], buses: &[&str]) -> ConnectorListing {
    ConnectorListing {
        sysfs_name: name.to_owned(),
        status: Some("connected\n".to_owned()),
        edid: Some(edid.to_vec()),
        entries: buses.iter().map(|bus| (*bus).to_owned()).collect(),
        ddc_target: None,
        ddc_entries: Vec::new(),
        ddc_device_entries: Vec::new(),
    }
}

/// Two transports to one monitor on DP-1, on the buses 4 and 5.
fn two_handles() -> DdcBackend {
    let edid = vec![1_u8; 128];
    let listings = vec![listing("card0-DP-1", &edid, &["i2c-4"])];
    let probe = |slot, minor: u64, maximum| Probe {
        slot,
        info: info(&(0x5900 + minor).to_string(), Some(edid.clone())),
        reading: Some(reading(maximum, 50)),
    };
    DdcBackend::enumerate(&listings, &vec![probe(7, 5, 200), probe(9, 4, 100)])
}

fn written(step: WriteStep) -> DdcDisplay {
    match step {
        WriteStep::Done(Ok(display)) => display,
        other => panic!("not written: {other:?}"),
    }
}

fn failure<T>(result: Result<T, String>) -> String {
    match result {
        Ok(_) => panic!("no failure"),
        Err(message) => message,
    }
}

#[test]
fn percentage_uses_raw_maximum() {
    let display = DdcDisplay {
        id: String::new(),
        name: String::new(),
        connector: String::new(),
        i2c_bus: None,
        current: 128,
        maximum: 255,
    };
    assert_eq!(display.percent(), 50);
}

#[test]
fn percentages_are_clamped_and_rounded() {
    let percent = |current, maximum| {
        DdcDisplay {
            id: String::new(),
            name: String::new(),
            connector: String::new(),
            i2c_bus: None,
            current,
            maximum,
        }
        .percent()
    };
    assert_eq!(percent(10, 0), 0);
    assert_eq!(percent(500, 100), 100);
    assert_eq!(percent(u16::MAX, u16::MAX), 100);
    assert_eq!(percent(1, 200), 1);
    assert_eq!(percent(1, 201), 0);
    assert_eq!(percent(2, 3), 67);
}

#[test]
fn readings_are_big_endian() {
    let value = VcpValue {
        mh: 0x01,
        ml: 0x02,
        sh: 0xab,
        sl: 0xcd,
    };
    assert_eq!(value.maximum(), 0x0102);
    assert_eq!(value.current(), 0xabcd);
}

#[test]
fn monitors_are_named_by_what_is_known() {
    let mut monitor = info("1", None);
    monitor.model_name = Some("  DELL U2720Q \n".to_owned());
    assert_eq!(display_name(&monitor, "edid-0123456789"), "DELL U2720Q");
    monitor.model_name = Some(" ".to_owned());
    monitor.manufacturer_id = Some("DEL".to_owned());
    monitor.model_id = Some(0xa0);
    assert_eq!(display_name(&monitor, "edid-0123456789"), "DEL 00a0");
    monitor.model_id = None;
    assert_eq!(display_name(&monitor, "edid-0123456789"), "DEL");
    monitor.manufacturer_id = None;
    monitor.model_id = Some(0xbeef);
    assert_eq!(display_name(&monitor, "edid-0123456789"), "Display beef");
    monitor.model_id = None;
    assert_eq!(display_name(&monitor, "edid-0123456789"), "Display edid-01234567");
    assert_eq!(display_name(&monitor, "edid"), "Display edid");
}

#[test]
fn buses_are_labelled() {
    assert_eq!(bus_label(Some(17)), "i2c-17");
    assert_eq!(bus_label(None), "unknown-bus");
}

#[test]
fn makes_colliding_ids_deterministically_unique() {
    let mut used = Vec::new();
    assert_eq!(ensure_unique_id("edid-a".to_owned(), &mut used), "edid-a");
    assert_eq!(ensure_unique_id("edid-a".to_owned(), &mut used), "edid-a-2");
}

#[test]
fn numbered_ids_skip_those_in_use() {
    let mut used = vec!["a".to_owned(), "a-2".to_owned(), "a-4".to_owned()];
    assert_eq!(ensure_unique_id("a".to_owned(), &mut used), "a-3");
    assert_eq!(ensure_unique_id("a".to_owned(), &mut used), "a-5");
    assert_eq!(used.len(), 5);
}

#[test]
fn id_components_keep_letters_and_digits() {
    assert_eq!(sanitize_id_component("HDMI-A_1/\u{e9}"), "HDMI-A-1--");
    assert_eq!(sanitize_id_component("DP1"), "DP1");
}

#[test]
fn group_keys_name_connector_or_bus() {
    assert_eq!(
        physical_group_key(&candidate(0, 1, Some("DP-1"), Some(4), 0)),
        format!("connector:DP-1:{}", hex(1))
    );
    assert_eq!(
        physical_group_key(&candidate(0, 1, None, Some(4), 2)),
        format!("bus:4:{}", hex(1))
    );
    assert_eq!(
        physical_group_key(&candidate(0, 1, None, None, 5)),
        format!("bus:unknown:{}", hex(1))
    );
}

#[test]
fn handles_of_one_output_become_one_display() {
    let displays = group_candidates(vec![
        candidate(0, 1, Some("DP-1"), Some(9), 2),
        candidate(1, 2, Some("DP-2"), Some(3), 0),
        candidate(2, 1, Some("DP-1"), Some(4), 0),
        candidate(3, 1, Some("DP-1"), Some(6), 1),
    ]);
    assert_eq!(displays.len(), 2);
    assert_eq!(displays[0].snapshot.id, format!("edid-{}", hex(1)));
    assert_eq!(displays[0].snapshot.connector, "DP-1");
    assert_eq!(displays[0].snapshot.i2c_bus, Some(4));
    assert_eq!(displays[0].snapshot.name, "Monitor 2");
    assert_eq!(displays[0].active, 0);
    let slots: Vec<usize> = displays[0].handles.iter().map(|handle| handle.slot).collect();
    assert_eq!(slots, [2, 3, 0]);
    assert_eq!(displays[1].snapshot.connector, "DP-2");
    assert_eq!(displays[1].handles.len(), 1);
}

#[test]
fn identical_monitors_are_told_apart() {
    let displays = group_candidates(vec![
        candidate(0, 1, Some("DP-2"), Some(2), 0),
        candidate(1, 1, Some("HDMI-A-1"), Some(3), 0),
        candidate(2, 1, None, Some(5), 2),
        candidate(3, 1, None, None, 5),
        candidate(4, 1, Some("DP 2"), Some(6), 0),
        candidate(5, 7, None, Some(8), 2),
    ]);
    let ids: Vec<&str> = displays
        .iter()
        .map(|display| display.snapshot.id.as_str())
        .collect();
    let base = format!("edid-{}", hex(1));
    let other = format!("edid-{}", hex(7));
    let mut unconnected = vec![
        format!("{base}@i2c-5"),
        format!("{base}@unknown-bus"),
        other,
    ];
    unconnected.sort();
    assert_eq!(ids[..3], unconnected);
    assert_eq!(ids[3], format!("{base}@DP-2"));
    assert_eq!(ids[4], format!("{base}@DP-2-2"));
    assert_eq!(ids[5], format!("{base}@HDMI-A-1"));
}

#[test]
fn grouping_keeps_every_handle() {
    let mut candidates = Vec::new();
    for slot in 0..20 {
        let byte = (slot % 3) as u8;
        let connector = if slot % 4 == 0 { None } else { Some("DP-1") };
        candidates.push(candidate(slot, byte, connector, Some(slot as u32 % 5), (slot % 6) as u8));
    }
    let displays = group_candidates(candidates);
    let mut slots: Vec<usize> = displays
        .iter()
        .flat_map(|display| display.handles.iter().map(|handle| handle.slot))
        .collect();
    slots.sort_unstable();
    assert_eq!(slots, (0..20).collect::<Vec<usize>>());
    let mut ids: Vec<&str> = displays
        .iter()
        .map(|display| display.snapshot.id.as_str())
        .collect();
    ids.sort_unstable();
    ids.dedup();
    assert_eq!(ids.len(), displays.len());
}

#[test]
fn enumeration_skips_what_cannot_be_used() {
    let edid = vec![1_u8; 128];
    let probe = |slot, data: Option<Vec<u8>>, reading| Probe {
        slot,
        info: info("22808", data),
        reading,
    };
    assert!(wants_reading(&info("1", Some(edid.clone()))));
    assert!(!wants_reading(&info("1", Some(vec![1_u8; 127]))));
    assert!(!wants_reading(&info("1", None)));
    let backend = DdcBackend::enumerate(
        &Vec::new(),
        &vec![
            probe(0, None, None),
            probe(1, Some(vec![1_u8; 127]), Some(reading(100, 1))),
            probe(2, Some(edid.clone()), None),
            probe(3, Some(edid.clone()), Some(reading(0, 0))),
            probe(4, Some(edid), Some(reading(100, 30))),
        ],
    );
    let displays = backend.displays();
    assert_eq!(displays.len(), 1);
    assert_eq!(displays[0].id, format!("edid-{}", hex(1)));
    assert_eq!(displays[0].name, "Panel");
    assert_eq!(displays[0].connector, "");
    assert_eq!(displays[0].i2c_bus, Some(24));
    assert_eq!(displays[0].percent(), 30);
}

#[test]
fn an_empty_machine_has_no_displays() {
    let mut backend = DdcBackend::enumerate(&Vec::new(), &Vec::new());
    assert!(backend.displays().is_empty());
    assert!(backend.refresh(&Vec::new(), &Vec::new()).is_empty());
    match backend.get_brightness("x", &Vec::new()) {
        ReadStep::Done(result) => assert_eq!(failure(result), "unknown DDC display x"),
        other => panic!("{other:?}"),
    }
    match backend.set_brightness("x", 101, &Vec::new()) {
        WriteStep::Done(result) => assert_eq!(
            failure(result),
            "DDC brightness must be between 0 and 100, got 101"
        ),
        other => panic!("{other:?}"),
    }
    match backend.set_brightness("x", 100, &Vec::new()) {
        WriteStep::Done(result) => assert_eq!(failure(result), "unknown DDC display x"),
        other => panic!("{other:?}"),
    }
}

#[test]
fn handles_are_tried_round_from_the_active_one() {
    assert_eq!(handle_order(0, 3), [0, 1, 2]);
    assert_eq!(handle_order(2, 3), [2, 0, 1]);
    assert_eq!(handle_order(0, 1), [0]);
    assert_eq!(handle_order(2, 4), [2, 3, 0, 1]);
    assert_eq!(handle_order(5, 3), [2, 0, 1]);
    assert!(handle_order(0, 0).is_empty());
    assert!(handle_order(7, 0).is_empty());
}

#[test]
fn writing_falls_back_to_the_next_handle() {
    let mut backend = two_handles();
    let id = backend.displays()[0].id.clone();
    assert!(matches!(
        backend.set_brightness(&id, 25, &Vec::new()),
        WriteStep::Write { slot: 9, value: 25 }
    ));
    let mut replies = vec![Err("no ack".to_owned())];
    assert!(matches!(
        backend.set_brightness(&id, 25, &replies),
        WriteStep::Write { slot: 7, value: 50 }
    ));
    replies.push(Ok(()));
    let display = written(backend.set_brightness(&id, 25, &replies));
    assert_eq!(display.i2c_bus, Some(5));
    assert_eq!(display.current, 50);
    assert_eq!(display.maximum, 200);
    assert_eq!(display.percent(), 25);
    assert_eq!(backend.displays()[0].current, 50);
    assert!(matches!(
        backend.set_brightness(&id, 100, &Vec::new()),
        WriteStep::Write { slot: 7, value: 200 }
    ));
}

#[test]
fn writing_reports_every_handle_that_failed() {
    let mut backend = two_handles();
    let id = backend.displays()[0].id.clone();
    let replies = vec![Err("no ack".to_owned()), Err("timeout".to_owned())];
    match backend.set_brightness(&id, 25, &replies) {
        WriteStep::Done(result) => assert_eq!(
            failure(result),
            format!("failed to set DDC brightness for {id}: i2c-4: no ack; i2c-5: timeout")
        ),
        other => panic!("{other:?}"),
    }
    assert_eq!(backend.displays()[0].current, 50);
}

#[test]
fn reading_falls_back_and_updates_the_snapshot() {
    let mut backend = two_handles();
    let id = backend.displays()[0].id.clone();
    let mut replies = Vec::new();
    assert!(matches!(
        backend.get_brightness(&id, &replies),
        ReadStep::Read { slot: 9 }
    ));
    replies.push(Ok(reading(0, 10)));
    assert!(matches!(
        backend.get_brightness(&id, &replies),
        ReadStep::Read { slot: 7 }
    ));
    replies.push(Ok(reading(1000, 10)));
    match backend.get_brightness(&id, &replies) {
        ReadStep::Done(Ok(display)) => {
            assert_eq!(display.i2c_bus, Some(5));
            assert_eq!((display.current, display.maximum), (10, 1000));
        }
        other => panic!("{other:?}"),
    }
    assert!(matches!(
        backend.set_brightness(&id, 50, &Vec::new()),
        WriteStep::Write { slot: 7, value: 500 }
    ));
    let failed = vec![Err("gone".to_owned()), Ok(reading(0, 0))];
    match backend.get_brightness(&id, &failed) {
        ReadStep::Done(result) => assert_eq!(
            failure(result),
            format!("failed to read DDC brightness for {id}: i2c-5: gone; i2c-4 reported maximum 0")
        ),
        other => panic!("{other:?}"),
    }
}

#[test]
fn accesses_are_retried_three_times() {
    let mut attempts: Vec<Result<VcpValue, String>> = Vec::new();
    assert!(matches!(
        get_vcp_with_retry(&attempts),
        VcpStep::Attempt { delay_ms: 0 }
    ));
    attempts.push(Err("first".to_owned()));
    assert!(matches!(
        get_vcp_with_retry(&attempts),
        VcpStep::Attempt { delay_ms: 50 }
    ));
    attempts.push(Err("second".to_owned()));
    let mut lucky = attempts.clone();
    lucky.push(Ok(reading(100, 42)));
    match get_vcp_with_retry(&lucky) {
        VcpStep::Done(Ok(value)) => assert_eq!(value.current(), 42),
        other => panic!("{other:?}"),
    }
    attempts.push(Err("third".to_owned()));
    match get_vcp_with_retry(&attempts) {
        VcpStep::Done(result) => assert_eq!(
            failure(result),
            "DDC VCP read failed after 3 attempts: third"
        ),
        other => panic!("{other:?}"),
    }
    let failed = vec![Err("a".to_owned()), Err("b".to_owned()), Err("c".to_owned())];
    match set_vcp_with_retry(&failed) {
        VcpStep::Done(result) => {
            assert_eq!(failure(result), "DDC VCP write failed after 3 attempts: c");
        }
        other => panic!("{other:?}"),
    }
    assert!(matches!(
        set_vcp_with_retry(&vec![Ok(())]),
        VcpStep::Done(Ok(()))
    ));
}

#[test]
fn a_written_percentage_reads_back() {
    for maximum in [100_u16, 101, 127, 255, 1000, u16::MAX] {
        let edid = vec![1_u8; 128];
        let mut backend = DdcBackend::enumerate(
            &Vec::new(),
            &vec![Probe {
                slot: 0,
                info: info("22808", Some(edid)),
                reading: Some(reading(maximum, 0)),
            }],
        );
        let id = backend.displays()[0].id.clone();
        for percent in 0..=100 {
            let display = written(backend.set_brightness(&id, percent, &vec![Ok(())]));
            assert_eq!(display.percent(), percent);
        }
    }
}

#[test]
fn other_displays_are_left_alone() {
    let probe = |slot, byte: u8| Probe {
        slot,
        info: info("22808", Some(vec![byte; 128])),
        reading: Some(reading(100, 50)),
    };
    let mut backend = DdcBackend::enumerate(&Vec::new(), &vec![probe(0, 1), probe(1, 2)]);
    let before = backend.displays();
    assert_eq!(before.len(), 2);
    let id = before[0].id.clone();
    let display = written(backend.set_brightness(&id, 10, &vec![Ok(())]));
    let after = backend.displays();
    assert_eq!(after[0], display);
    assert_eq!(after[1], before[1]);
}

#[test]
fn raw_values_follow_the_percentage() {
    let edid = vec![1_u8; 128];
    let mut backend = DdcBackend::enumerate(
        &Vec::new(),
        &vec![Probe {
            slot: 0,
            info: info("22808", Some(edid)),
            reading: Some(reading(37, 0)),
        }],
    );
    let id = backend.displays()[0].id.clone();
    let mut last = 0;
    for percent in 0..=100 {
        let raw = written(backend.set_brightness(&id, percent, &vec![Ok(())])).current;
        assert!(last <= raw && raw <= 37);
        last = raw;
    }
    assert_eq!(last, 37);
}
