use std::collections::HashSet;

use wlight::drm::{
    connector_from, drm_connector_name, edid_fingerprint, find_i2c_buses, handle_preference,
    i2c_bus_from_ddc_id, match_connector, parse_i2c_component, scan_drm_connectors,
    ConnectorListing, DrmConnector, Fingerprint,
};

fn fingerprint(byte: u8) -> Fingerprint {
    edid_fingerprint(&[byte; 128]).expect("fingerprint")
}

fn connector(
    name: &str,
    connected: bool,
    fingerprint: Option<Fingerprint>,
    direct_buses: &[u32],
    ddc_buses: &[u32],
) -> DrmConnector {
    DrmConnector {
        name: name.to_owned(),
        connected,
        fingerprint,
        direct_buses: direct_buses.iter().copied().collect(),
        ddc_buses: ddc_buses.iter().copied().collect(),
    }
}

fn listing(name: &str) -> ConnectorListing {
    ConnectorListing {
        sysfs_name: name.to_owned(),
        status: None,
        edid: None,
        entries: Vec::new(),
        ddc_target: None,
        ddc_entries: Vec::new(),
        ddc_device_entries: Vec::new(),
    }
}

fn names(list: &[&str]) -> Vec<String> {
    list.iter().map(|name| (*name).to_owned()).collect()
}

#[test]
fn extracts_connector_name() {
    assert_eq!(drm_connector_name("card0-DP-3").as_deref(), Some("DP-3"));
    assert_eq!(drm_connector_name("card12-eDP-1").as_deref(), Some("eDP-1"));
    assert_eq!(drm_connector_name("card0"), None);
    assert_eq!(drm_connector_name("renderD128"), None);
}

#[test]
fn a_connector_without_a_name_is_none() {
    assert_eq!(drm_connector_name("card0-"), None);
    assert_eq!(drm_connector_name("card-HDMI-A-1").as_deref(), Some("HDMI-A-1"));
    assert_eq!(drm_connector_name(""), None);
}

#[test]
fn extracts_i2c_bus() {
    assert_eq!(parse_i2c_component("i2c-17"), Some(17));
    assert_eq!(parse_i2c_component("17-0050"), None);
}

#[test]
fn bus_numbers_are_plain_decimal() {
    assert_eq!(parse_i2c_component("i2c-"), None);
    assert_eq!(parse_i2c_component("i2c-dev"), None);
    assert_eq!(parse_i2c_component("i2c-007"), Some(7));
    assert_eq!(parse_i2c_component("i2c-+7"), Some(7));
    assert_eq!(parse_i2c_component("i2c--7"), None);
    assert_eq!(parse_i2c_component("i2c-4294967295"), Some(u32::MAX));
    assert_eq!(parse_i2c_component("i2c-4294967296"), None);
}

#[test]
fn fingerprint_uses_only_the_edid_base_block() {
    let mut short_read = vec![0_u8; 256];
    short_read[0] = 42;
    short_read[126] = 2;
    let mut full_read = short_read.clone();
    full_read.resize(384, 99);
    let short = edid_fingerprint(&short_read).expect("fingerprint");
    let full = edid_fingerprint(&full_read).expect("fingerprint");
    assert!(short.same(&full));
    assert!(edid_fingerprint(&short_read[..127]).is_none());
}

#[test]
fn fingerprints_are_blake3_digests() {
    let block = [3_u8; 128];
    let fingerprint = edid_fingerprint(&block).expect("fingerprint");
    let digest = blake3::hash(&block);
    assert_eq!(&fingerprint.bytes, digest.as_bytes());
    assert_eq!(fingerprint.text(), digest.to_hex().to_string());
    assert!(!fingerprint.same(&self::fingerprint(4)));
}

#[test]
fn decodes_linux_device_minor() {
    // Old-style Linux dev_t encoding: major 89 (i2c), minor 24.
    assert_eq!(i2c_bus_from_ddc_id(&0x5918_u64.to_string()), Some(24));
}

#[test]
fn decodes_wide_device_minors() {
    // The upper bits of the minor number stand above the major number.
    assert_eq!(i2c_bus_from_ddc_id(&0x0010_5918_u64.to_string()), Some(0x118));
    assert_eq!(i2c_bus_from_ddc_id(&u64::MAX.to_string()), Some(u32::MAX));
    assert_eq!(i2c_bus_from_ddc_id("i2c-4"), None);
    assert_eq!(i2c_bus_from_ddc_id("18446744073709551616"), None);
}

#[test]
fn connector_collects_direct_and_legacy_ddc_buses() {
    let mut card = listing("card0-DP-1");
    card.entries = names(&["ddc", "i2c-10"]);
    card.ddc_target = Some(names(&["/", "tmp", "i2c-6"]));
    let (direct, ddc) = find_i2c_buses(&card);
    assert_eq!(direct, HashSet::from([10]));
    assert_eq!(ddc, HashSet::from([6]));
}

#[test]
fn legacy_buses_come_from_three_places() {
    let mut card = listing("card0-DP-1");
    card.ddc_target = Some(names(&["i2c-1", "i2c-2", "device"]));
    card.ddc_entries = names(&["name", "i2c-3"]);
    card.ddc_device_entries = names(&["i2c-4", "i2c-3"]);
    let (direct, ddc) = find_i2c_buses(&card);
    assert_eq!(direct, HashSet::new());
    assert_eq!(ddc, HashSet::from([2, 3, 4]));
}

#[test]
fn matches_truncated_edid_by_direct_aux_bus() {
    let mut ddc_edid = vec![0_u8; 256];
    ddc_edid[7] = 17;
    let mut sysfs_edid = ddc_edid.clone();
    sysfs_edid.resize(384, 23);
    let fingerprint = edid_fingerprint(&ddc_edid).expect("fingerprint");
    let connectors = vec![connector(
        "DP-2",
        true,
        edid_fingerprint(&sysfs_edid),
        &[10],
        &[6],
    )];

    assert_eq!(
        match_connector(&connectors, &fingerprint, Some(10)).map(|item| item.name.as_str()),
        Some("DP-2")
    );
    assert_eq!(
        handle_preference(&connectors, connectors.first(), Some(10)),
        0
    );
}

#[test]
fn ambiguous_identical_edids_are_not_assigned_by_order() {
    let fingerprint = fingerprint(7);
    let connectors = vec![
        connector("DP-1", true, Some(fingerprint), &[], &[]),
        connector("DP-2", true, Some(fingerprint), &[], &[]),
    ];
    assert!(match_connector(&connectors, &fingerprint, None).is_none());
}

#[test]
fn mst_transport_owned_by_another_connector_is_only_a_fallback() {
    let fingerprint = fingerprint(9);
    let connectors = vec![
        connector("DP-3", false, None, &[11], &[]),
        connector("DP-4", true, Some(fingerprint), &[], &[]),
    ];
    let matched = match_connector(&connectors, &fingerprint, Some(12));
    assert_eq!(matched.map(|item| item.name.as_str()), Some("DP-4"));
    assert_eq!(handle_preference(&connectors, matched, Some(12)), 2);
    assert_eq!(handle_preference(&connectors, matched, Some(11)), 3);
}

#[test]
fn the_bus_decides_between_identical_edids() {
    let fingerprint = fingerprint(7);
    let connectors = vec![
        connector("DP-1", true, Some(fingerprint), &[3], &[]),
        connector("DP-2", true, Some(fingerprint), &[], &[4]),
        connector("DP-3", true, None, &[5], &[]),
        connector("DP-4", false, None, &[6], &[]),
    ];
    let name = |bus| {
        match_connector(&connectors, &fingerprint, Some(bus)).map(|item| item.name.as_str())
    };
    assert_eq!(name(3), Some("DP-1"));
    assert_eq!(name(4), Some("DP-2"));
    assert_eq!(name(5), Some("DP-3"));
    assert_eq!(name(6), None);
    assert_eq!(handle_preference(&connectors, Some(&connectors[1]), Some(4)), 1);
    assert_eq!(handle_preference(&connectors, None, Some(4)), 3);
    assert_eq!(handle_preference(&connectors, None, Some(9)), 2);
    assert_eq!(handle_preference(&connectors, None, None), 5);
}

#[test]
fn listings_become_connectors() {
    let mut plugged = listing("card1-DP-1");
    plugged.status = Some("connected\n".to_owned());
    plugged.edid = Some(vec![5_u8; 256]);
    plugged.entries = names(&["i2c-8"]);
    let mut unplugged = listing("card1-DP-2");
    unplugged.status = Some("disconnected\n".to_owned());
    unplugged.edid = Some(Vec::new());
    let other = listing("renderD128");
    assert!(connector_from(&other).is_none());

    let connectors = scan_drm_connectors(&vec![plugged, other, unplugged]);
    assert_eq!(connectors.len(), 2);
    assert_eq!(connectors[0].name, "DP-1");
    assert!(connectors[0].connected);
    assert!(connectors[0].fingerprint.is_some_and(|found| found.same(&fingerprint(5))));
    assert!(connectors[0].contains_bus(8));
    assert!(!connectors[0].contains_bus(9));
    assert_eq!(connectors[1].name, "DP-2");
    assert!(!connectors[1].connected);
    assert!(connectors[1].fingerprint.is_none());
}
