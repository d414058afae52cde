//! Monitors controlled through DDC/CI: what is known of them, and the values
//! that travel over VCP feature `0x10`.

use vstd::prelude::*;

use crate::drm::{
    edid_fingerprint, handle_preference, i2c_bus_from_ddc_id, match_connector, DrmConnector,
    Fingerprint,
};
use crate::text::{decimal_text, front_bytes, hex_word_text, trim};

verus! {

/// The VCP feature that holds the brightness.
pub const BRIGHTNESS_VCP_CODE: u8 = 0x10;

/// A snapshot of a monitor controlled through DDC/CI.
///
/// `current` and `maximum` are the raw values reported by VCP feature `0x10`.
#[derive(Debug, PartialEq, Eq)]
pub struct DdcDisplay {
    /// Stable identifier derived from the monitor EDID.
    ///
    /// Identical EDIDs on different physical outputs receive a connector or
    /// I2C suffix. Multiple transport handles for one output are hidden as
    /// aliases.
    pub id: String,
    /// Human-readable monitor model, when the EDID supplies one.
    pub name: String,
    /// Wayland/DRM connector name, for example `DP-1`.
    pub connector: String,
    /// Linux I2C adapter number, when it can be determined.
    pub i2c_bus: Option<u32>,
    /// Current raw VCP value.
    pub current: u16,
    /// Maximum raw VCP value.
    pub maximum: u16,
}

/// What a `DdcDisplay` says.
#[verifier::ext_equal]
pub struct DdcDisplayView {
    pub id: Seq<char>,
    pub name: Seq<char>,
    pub connector: Seq<char>,
    pub i2c_bus: Option<u32>,
    pub current: u16,
    pub maximum: u16,
}

impl View for DdcDisplay {
    type V = DdcDisplayView;

    open spec fn view(&self) -> DdcDisplayView {
        DdcDisplayView {
            id: self.id@,
            name: self.name@,
            connector: self.connector@,
            i2c_bus: self.i2c_bus,
            current: self.current,
            maximum: self.maximum,
        }
    }
}

impl Clone for DdcDisplay {
    fn clone(&self) -> (r: Self)
        ensures
            r == *self,
    {
        DdcDisplay {
            id: self.id.clone(),
            name: self.name.clone(),
            connector: self.connector.clone(),
            i2c_bus: self.i2c_bus,
            current: self.current,
            maximum: self.maximum,
        }
    }
}

/// A raw value as the nearest whole percentage of the maximum, halves up. What
/// lies above the maximum counts as the maximum, and nothing is a share of
/// zero.
pub open spec fn raw_percent(current: u16, maximum: u16) -> u16 {
    if maximum == 0 {
        0
    } else {
        let reached = if current < maximum {
            current
        } else {
            maximum
        };
        ((100 * reached + maximum / 2) / (maximum as int)) as u16
    }
}

/// The raw value nearest to a percentage of the maximum, halves up.
pub open spec fn scaled(percent: u16, maximum: u16) -> u16 {
    ((percent * maximum + 50) / 100) as u16
}

proof fn lemma_raw_percent(reached: int, maximum: int)
    requires
        0 <= reached <= maximum,
        0 < maximum,
    ensures
        0 <= (100 * reached + maximum / 2) / maximum <= 100,
{
    let n = 100 * reached + maximum / 2;
    vstd::arithmetic::div_mod::lemma_fundamental_div_mod(n, maximum);
    let q = n / maximum;
    assert(0 <= q <= 100) by (nonlinear_arith)
        requires
            n == maximum * q + n % maximum,
            0 <= n % maximum < maximum,
            0 <= n < 101 * maximum,
    ;
}

impl DdcDisplay {
    /// Return the raw VCP value as a rounded percentage.
    pub fn percent(&self) -> (r: u16)
        ensures
            r == raw_percent(self.current, self.maximum),
            r <= 100,
    {
        if self.maximum == 0 {
            return 0;
        }
        let current: u32 = if self.current < self.maximum {
            self.current as u32
        } else {
            self.maximum as u32
        };
        let maximum: u32 = self.maximum as u32;
        proof {
            lemma_raw_percent(current as int, maximum as int);
        }
        ((current * 100 + maximum / 2) / maximum) as u16
    }
}

/// A raw value is at most a hundred percent.
pub proof fn percentages_stay_in_range(current: u16, maximum: u16)
    ensures
        raw_percent(current, maximum) <= 100,
{
    if maximum > 0 {
        let reached = if current < maximum {
            current as int
        } else {
            maximum as int
        };
        lemma_raw_percent(reached, maximum as int);
    }
}

/// A percentage at most a hundred gives a raw value at most the maximum: zero
/// for zero and the maximum for a hundred.
pub proof fn scaling_stays_in_range(percent: u16, maximum: u16)
    requires
        percent <= 100,
    ensures
        scaled(percent, maximum) <= maximum,
        scaled(0, maximum) == 0,
        scaled(100, maximum) == maximum,
{
    let n = percent * maximum;
    assert(0 <= n <= 100 * maximum) by (nonlinear_arith)
        requires
            n == percent * maximum,
            percent <= 100,
    ;
}

/// Brighter percentages never give darker raw values.
pub proof fn scaling_is_monotone(a: u16, b: u16, maximum: u16)
    requires
        a <= b <= 100,
    ensures
        scaled(a, maximum) <= scaled(b, maximum),
{
    let m = a * maximum;
    let n = b * maximum;
    assert(0 <= m <= n <= 100 * maximum) by (nonlinear_arith)
        requires
            m == a * maximum,
            n == b * maximum,
            a <= b <= 100,
    ;
}

/// Where the monitor distinguishes at least a hundred levels, a percentage that
/// was written reads back as itself.
pub proof fn written_percent_reads_back(percent: u16, maximum: u16)
    requires
        percent <= 100,
        maximum >= 100,
    ensures
        raw_percent(scaled(percent, maximum), maximum) == percent,
{
    scaling_stays_in_range(percent, maximum);
    let p = percent as int;
    let m = maximum as int;
    let n = p * m;
    assert(0 <= n <= 100 * m) by (nonlinear_arith)
        requires
            n == p * m,
            0 <= p <= 100,
            m >= 0,
    ;
    let s = (n + 50) / 100;
    assert(n - 50 < 100 * s <= n + 50);
    let q = (100 * s + m / 2) / m;
    vstd::arithmetic::div_mod::lemma_fundamental_div_mod(100 * s + m / 2, m);
    if m == 100 {
        assert(n == 100 * p) by (nonlinear_arith)
            requires
                n == p * m,
                m == 100,
        ;
    }
    assert(q == p) by (nonlinear_arith)
        requires
            n == p * m,
            n - 50 < 100 * s <= n + 50,
            100 * s + m / 2 == m * q + (100 * s + m / 2) % m,
            0 <= (100 * s + m / 2) % m < m,
            m >= 101 || (m == 100 && s == p),
    ;
    assert(scaled(percent, maximum) == s);
}

/// What a monitor answers when it is asked for a VCP feature: the two bytes of
/// the maximum and the two bytes of the current value, the high one first.
#[derive(Debug, Clone, Copy, PartialEq, Eq, Structural)]
pub struct VcpValue {
    pub mh: u8,
    pub ml: u8,
    pub sh: u8,
    pub sl: u8,
}

impl VcpValue {
    /// The current value.
    pub open spec fn current_value(self) -> u16 {
        (256 * self.sh + self.sl) as u16
    }

    /// The maximum value.
    pub open spec fn maximum_value(self) -> u16 {
        (256 * self.mh + self.ml) as u16
    }

    /// The current value.
    pub fn current(&self) -> (r: u16)
        ensures
            r == self.current_value(),
    {
        256 * (self.sh as u16) + self.sl as u16
    }

    /// The maximum value.
    pub fn maximum(&self) -> (r: u16)
        ensures
            r == self.maximum_value(),
    {
        256 * (self.mh as u16) + self.ml as u16
    }
}

/// What the DDC library tells of a monitor.
#[derive(Debug)]
pub struct MonitorInfo {
    /// Identifier of the device.
    pub id: String,
    /// Three-letter manufacturer code.
    pub manufacturer_id: Option<String>,
    /// Model number.
    pub model_id: Option<u16>,
    /// Model name.
    pub model_name: Option<String>,
    /// The EDID, as far as it was read.
    pub edid_data: Option<Vec<u8>>,
}

impl MonitorInfo {
    /// The fingerprint of the EDID, where there is one that is long enough.
    pub open spec fn fingerprint(&self) -> Option<Seq<u8>> {
        match self.edid_data {
            Some(edid) => crate::drm::fingerprint_of(edid@),
            None => None,
        }
    }

    /// The I2C bus that the device stands on.
    pub open spec fn bus(&self) -> Option<u32> {
        match crate::text::parsed(self.id@, u64::MAX) {
            Some(device) => Some(crate::drm::device_minor(device)),
            None => None,
        }
    }
}

/// The front of an identifier that stands for a monitor without a name.
pub open spec fn short_id(id: Seq<char>) -> Seq<char> {
    match crate::text::byte_prefix(id, 13) {
        Some(front) => front,
        None => id,
    }
}

/// What a monitor is called: by its model name, unless that is blank; else by
/// its manufacturer and its model number, as far as they are known; else by
/// the front of its identifier.
pub open spec fn monitor_name(info: &MonitorInfo, id: Seq<char>) -> Seq<char> {
    if info.model_name is Some && crate::text::trimmed(info.model_name->Some_0@).len() > 0 {
        crate::text::trimmed(info.model_name->Some_0@)
    } else {
        match (info.manufacturer_id, info.model_id) {
            (Some(manufacturer), Some(model)) => manufacturer@ + " "@ + crate::text::hex_word(model),
            (Some(manufacturer), None) => manufacturer@,
            (None, Some(model)) => "Display "@ + crate::text::hex_word(model),
            (None, None) => "Display "@ + short_id(id),
        }
    }
}

/// What a monitor is called.
pub fn display_name(info: &MonitorInfo, id: &str) -> (r: String)
    ensures
        r@ == monitor_name(info, id@),
{
    if let Some(model_name) = &info.model_name {
        let name = trim(model_name.as_str());
        if !name.as_str().is_empty() {
            return name;
        }
    }
    match (&info.manufacturer_id, info.model_id) {
        (Some(manufacturer), Some(model)) => {
            manufacturer.clone().concat(" ").concat(hex_word_text(model).as_str())
        },
        (Some(manufacturer), None) => manufacturer.clone(),
        (None, Some(model)) => "Display ".to_owned().concat(hex_word_text(model).as_str()),
        (None, None) => match front_bytes(id, 13) {
            Some(front) => "Display ".to_owned().concat(front.as_str()),
            None => "Display ".to_owned().concat(id),
        },
    }
}

/// How a bus is named in messages and identifiers.
pub open spec fn bus_text(bus: Option<u32>) -> Seq<char> {
    match bus {
        Some(number) => "i2c-"@ + crate::text::decimal(number as nat),
        None => "unknown-bus"@,
    }
}

/// How a bus is named in messages and identifiers.
pub fn bus_label(bus: Option<u32>) -> (r: String)
    ensures
        r@ == bus_text(bus),
{
    match bus {
        Some(number) => "i2c-".to_owned().concat(decimal_text(number as u64).as_str()),
        None => "unknown-bus".to_owned(),
    }
}

/// A transport handle to a monitor.
#[derive(Debug, Clone, Copy, PartialEq, Eq, Structural)]
pub struct ManagedHandle {
    /// Which of the open transports this is.
    pub slot: usize,
    /// Its I2C bus, where that is known.
    pub i2c_bus: Option<u32>,
    /// The maximum that the monitor last reported over it.
    pub maximum: u16,
}

impl View for ManagedHandle {
    type V = ManagedHandle;

    open spec fn view(&self) -> ManagedHandle {
        *self
    }
}

/// A transport handle that reads brightness, and what it was found to lead to.
#[derive(Debug)]
pub struct DdcCandidate {
    pub handle: ManagedHandle,
    pub fingerprint: Fingerprint,
    pub connector: Option<String>,
    pub preference: u8,
    pub name: String,
    pub current: u16,
}

/// What a `DdcCandidate` says.
#[verifier::ext_equal]
pub struct DdcCandidateView {
    pub handle: ManagedHandle,
    pub fingerprint: Seq<u8>,
    pub connector: Option<Seq<char>>,
    pub preference: u8,
    pub name: Seq<char>,
    pub current: u16,
}

impl View for DdcCandidate {
    type V = DdcCandidateView;

    open spec fn view(&self) -> DdcCandidateView {
        DdcCandidateView {
            handle: self.handle,
            fingerprint: self.fingerprint@,
            connector: crate::model::seen(self.connector),
            preference: self.preference,
            name: self.name@,
            current: self.current,
        }
    }
}

/// What was found out about one open transport.
#[derive(Debug)]
pub struct Probe {
    /// Which of the open transports this is.
    pub slot: usize,
    /// What the DDC library tells of the monitor.
    pub info: MonitorInfo,
    /// Its brightness, where that could be read.
    pub reading: Option<VcpValue>,
}

/// Whether the brightness of a monitor is worth reading: a monitor without an
/// EDID fingerprint is left alone.
pub fn wants_reading(info: &MonitorInfo) -> (r: bool)
    ensures
        r == info.fingerprint() is Some,
{
    match &info.edid_data {
        Some(edid) => edid_fingerprint(edid.as_slice()).is_some(),
        None => false,
    }
}

/// What a monitor's fingerprint makes of its identifier.
pub open spec fn edid_id(fingerprint: Seq<u8>) -> Seq<char> {
    "edid-"@ + crate::text::hex(fingerprint)
}

/// The candidate that a probe gives: one with a fingerprint, and with a
/// brightness whose maximum is not zero.
pub open spec fn candidate_of(
    connectors: Seq<crate::drm::DrmConnectorView>,
    probe: Probe,
) -> Option<DdcCandidateView> {
    let bus = probe.info.bus();
    match (probe.info.fingerprint(), probe.reading) {
        (Some(fingerprint), Some(value)) => if value.maximum_value() == 0 {
            None
        } else {
            let matched = match crate::drm::associated(connectors, fingerprint, bus) {
                Some(i) => Some(connectors[i]),
                None => None,
            };
            Some(
                DdcCandidateView {
                    handle: ManagedHandle {
                        slot: probe.slot,
                        i2c_bus: bus,
                        maximum: value.maximum_value(),
                    },
                    fingerprint,
                    connector: match matched {
                        Some(connector) => Some(connector.name),
                        None => None,
                    },
                    preference: crate::drm::preference(connectors, matched, bus),
                    name: monitor_name(&probe.info, edid_id(fingerprint)),
                    current: value.current_value(),
                },
            )
        },
        _ => None,
    }
}

/// The candidate that a probe gives.
pub fn candidate(connectors: &Vec<DrmConnector>, probe: &Probe) -> (r: Option<DdcCandidate>)
    ensures
        crate::model::seen(r) == candidate_of(crate::model::views(connectors@), *probe),
{
    let fingerprint = match &probe.info.edid_data {
        Some(edid) => match edid_fingerprint(edid.as_slice()) {
            Some(fingerprint) => fingerprint,
            None => return None,
        },
        None => return None,
    };
    let value = match probe.reading {
        Some(value) => value,
        None => return None,
    };
    let maximum = value.maximum();
    if maximum == 0 {
        return None;
    }
    let i2c_bus = i2c_bus_from_ddc_id(probe.info.id.as_str());
    let matched = match_connector(connectors.as_slice(), &fingerprint, i2c_bus);
    let base_id = "edid-".to_owned().concat(fingerprint.text().as_str());
    Some(
        DdcCandidate {
            handle: ManagedHandle { slot: probe.slot, i2c_bus, maximum },
            fingerprint,
            connector: match matched {
                Some(connector) => Some(connector.name.clone()),
                None => None,
            },
            preference: handle_preference(connectors.as_slice(), matched, i2c_bus),
            name: display_name(&probe.info, base_id.as_str()),
            current: value.current(),
        },
    )
}

/// The candidates that the probes give, in their order.
pub open spec fn candidates_of(
    connectors: Seq<crate::drm::DrmConnectorView>,
    probes: Seq<Probe>,
) -> Seq<DdcCandidateView>
    decreases probes.len(),
{
    if probes.len() == 0 {
        Seq::empty()
    } else {
        let front = candidates_of(connectors, probes.drop_last());
        match candidate_of(connectors, probes.last()) {
            Some(candidate) => front.push(candidate),
            None => front,
        }
    }
}

/// The candidates that the probes give, in their order.
pub fn candidates(connectors: &Vec<DrmConnector>, probes: &Vec<Probe>) -> (r: Vec<DdcCandidate>)
    ensures
        crate::model::views(r@) == candidates_of(crate::model::views(connectors@), probes@),
        r@.len() <= probes@.len(),
{
    let mut out: Vec<DdcCandidate> = Vec::new();
    let ghost known = crate::model::views(connectors@);
    assert(crate::model::views(out@) =~= candidates_of(known, probes@.take(0)));
    for i in 0..probes.len()
        invariant
            known == crate::model::views(connectors@),
            crate::model::views(out@) == candidates_of(known, probes@.take(i as int)),
            out@.len() <= i,
    {
        assert(probes@.take(i + 1).drop_last() =~= probes@.take(i as int));
        if let Some(found) = candidate(connectors, &probes[i]) {
            proof {
                crate::model::views_push(out@, found);
            }
            out.push(found);
        }
    }
    assert(probes@.take(probes@.len() as int) =~= probes@);
    out
}

/// A percentage is the nearest to what was read, and the upper one where two are
/// equally near: its share of the maximum is within half a hundredth of the
/// level, which counts as the maximum where it is beyond it.
pub proof fn percentages_are_nearest(current: u16, maximum: u16)
    ensures
        raw_percent(current, maximum) <= 100,
        current <= maximum ==> 2 * crate::binary64::gap(
            raw_percent(current, maximum) * maximum,
            100 * current,
        ) <= maximum,
        0 < current <= maximum ==> 200 * current < 2 * (raw_percent(current, maximum) * maximum)
            + maximum,
        current > maximum > 0 ==> raw_percent(current, maximum) == 100,
        maximum == 0 ==> raw_percent(current, maximum) == 0,
{
    if maximum > 0 {
        let reached: int = if current < maximum {
            current as int
        } else {
            maximum as int
        };
        let m = maximum as int;
        let n = 100 * reached + m / 2;
        lemma_raw_percent(reached, m);
        vstd::arithmetic::div_mod::lemma_fundamental_div_mod(n, m);
        let q = n / m;
        let share = q * m;
        assert(share <= n && n < share + m) by (nonlinear_arith)
            requires
                share == q * m,
                n == m * q + n % m,
                0 <= n % m < m,
        ;
        if current > maximum {
            assert(q == 100) by (nonlinear_arith)
                requires
                    share == q * m,
                    share <= n,
                    n < share + m,
                    n == 100 * m + m / 2,
                    m > 0,
            ;
        }
    }
}

/// A raw level is the nearest to a percentage of the maximum, and the upper one
/// where two are equally near.
pub proof fn levels_are_nearest(percent: u16, maximum: u16)
    requires
        percent <= 100,
    ensures
        scaled(percent, maximum) <= maximum,
        crate::binary64::gap(100 * scaled(percent, maximum), percent * maximum) <= 50,
        percent * maximum < 100 * scaled(percent, maximum) + 50,
{
    let n = percent * maximum;
    assert(0 <= n <= 100 * maximum) by (nonlinear_arith)
        requires
            n == percent * maximum,
            0 <= percent <= 100,
            0 <= maximum,
    ;
}

/// The bytes of an answer make the two numbers, the high byte first.
pub proof fn answers_hold_the_high_byte_first(value: VcpValue)
    ensures
        value.current_value() / 256 == value.sh,
        value.current_value() % 256 == value.sl,
        value.maximum_value() / 256 == value.mh,
        value.maximum_value() % 256 == value.ml,
{
}

/// A probe gives a candidate exactly where the monitor has an EDID of a whole
/// base block and answers with a range. The candidate has what was read over
/// the probe's own transport, the fingerprint of the EDID, and the connector
/// that both lead to.
pub proof fn probes_give_what_was_read(
    connectors: Seq<crate::drm::DrmConnectorView>,
    probe: Probe,
)
    ensures
        ({
            let known = probe.info.edid_data is Some && probe.info.edid_data->Some_0@.len() >= 128;
            let answered = probe.reading is Some && (probe.reading->Some_0.mh > 0
                || probe.reading->Some_0.ml > 0);
            &&& candidate_of(connectors, probe) is Some <==> known && answered
            &&& candidate_of(connectors, probe) matches Some(found) ==> {
                let value = probe.reading->Some_0;
                let fingerprint = crate::drm::blake3_digest(
                    probe.info.edid_data->Some_0@.take(128),
                );
                &&& found.handle.slot == probe.slot
                &&& found.handle.maximum == 256 * value.mh + value.ml
                &&& found.current == 256 * value.sh + value.sl
                &&& found.fingerprint == fingerprint
                &&& match crate::text::parsed(probe.info.id@, u64::MAX) {
                    Some(device) => found.handle.i2c_bus matches Some(bus) && bus % 256 == device
                        % 256 && bus / 256 == (device / 1_048_576) % 16_777_216,
                    None => found.handle.i2c_bus is None,
                }
                &&& match crate::drm::associated(connectors, fingerprint, found.handle.i2c_bus) {
                    Some(i) => found.connector == Some(connectors[i].name) && found.preference
                        == crate::drm::preference(
                        connectors,
                        Some(connectors[i]),
                        found.handle.i2c_bus,
                    ),
                    None => found.connector is None && found.preference == crate::drm::preference(
                        connectors,
                        None,
                        found.handle.i2c_bus,
                    ),
                }
                &&& found.name == monitor_name(
                    &probe.info,
                    "edid-"@ + crate::text::hex(fingerprint),
                )
            }
        }),
{
    if let Some(device) = crate::text::parsed(probe.info.id@, u64::MAX) {
        crate::drm::minor_numbers_are_split(device);
    }
}

/// Every probe that gives a candidate is among the candidates, in the order of
/// the probes, and nothing else is.
pub proof fn every_probe_counts(
    connectors: Seq<crate::drm::DrmConnectorView>,
    front: Seq<Probe>,
    probe: Probe,
    back: Seq<Probe>,
)
    ensures
        candidates_of(connectors, Seq::empty()) == Seq::<DdcCandidateView>::empty(),
        candidates_of(connectors, front + back) == candidates_of(connectors, front)
            + candidates_of(connectors, back),
        candidates_of(connectors, seq![probe]) == (match candidate_of(connectors, probe) {
            Some(found) => seq![found],
            None => Seq::empty(),
        }),
    decreases back.len(),
{
    let one = seq![probe];
    assert(one.drop_last() =~= Seq::<Probe>::empty());
    assert(candidates_of(connectors, one.drop_last()) =~= Seq::<DdcCandidateView>::empty());
    assert(one.last() == probe);
    if candidate_of(connectors, probe) is Some {
        assert(candidates_of(connectors, one) =~= seq![
            candidate_of(connectors, probe)->Some_0,
        ]);
    }
    if back.len() == 0 {
        assert(front + back =~= front);
        assert(candidates_of(connectors, back) =~= Seq::<DdcCandidateView>::empty());
    } else {
        every_probe_counts(connectors, front, probe, back.drop_last());
        assert((front + back).drop_last() =~= front + back.drop_last());
        assert((front + back).last() == back.last());
    }
    assert(candidates_of(connectors, front + back) =~= candidates_of(connectors, front)
        + candidates_of(connectors, back));
}

/// A monitor is called by its model name without the white space around it. One
/// without such a name is called by its manufacturer and its model number, as
/// far as they are known, and else by the first thirteen bytes of its
/// identifier.
pub proof fn monitors_are_called_by_their_model(info: MonitorInfo, id: Seq<char>)
    ensures
        ({
            let name = monitor_name(&info, id);
            let blank = info.model_name is None || crate::text::trimmed(
                info.model_name->Some_0@,
            ).len() == 0;
            &&& !blank ==> name == crate::text::trimmed(info.model_name->Some_0@)
            &&& blank ==> (info.manufacturer_id matches Some(manufacturer) ==> (
            info.model_id matches Some(model) ==> name == manufacturer@ + " "@
                + crate::text::hex_word(model)))
            &&& blank && info.model_id is None ==> (info.manufacturer_id matches Some(manufacturer)
                ==> name == manufacturer@)
            &&& blank && info.manufacturer_id is None ==> (info.model_id matches Some(model) ==> name
                == "Display "@ + crate::text::hex_word(model))
            &&& blank && info.manufacturer_id is None && info.model_id is None ==> {
                &&& crate::text::byte_prefix(id, 13) matches Some(front) ==> name == "Display "@
                    + front
                &&& crate::text::byte_prefix(id, 13) is None ==> name == "Display "@ + id
            }
        }),
{
}

/// What is known of a display or a candidate is what it holds.
pub proof fn displays_say_what_they_hold(display: DdcDisplay, candidate: DdcCandidate)
    ensures
        display@.id == display.id@,
        display@.name == display.name@,
        display@.connector == display.connector@,
        display@.i2c_bus == display.i2c_bus,
        display@.current == display.current,
        display@.maximum == display.maximum,
        candidate@.handle == candidate.handle,
        candidate@.fingerprint == candidate.fingerprint@,
        candidate@.preference == candidate.preference,
        candidate@.name == candidate.name@,
        candidate@.current == candidate.current,
        match candidate.connector {
            Some(connector) => candidate@.connector == Some(connector@),
            None => candidate@.connector is None,
        },
{
}

/// A bus is named by its number in messages and identifiers, so that different
/// buses have different names; a bus that is not known has a name of its own.
pub proof fn buses_are_told_apart(a: Option<u32>, b: Option<u32>)
    ensures
        a matches Some(number) ==> bus_text(a) == "i2c-"@ + crate::text::decimal(number as nat)
            && crate::drm::bus_named(bus_text(a)) == Some(number),
        a is None ==> bus_text(a) == "unknown-bus"@,
        bus_text(a) == bus_text(b) ==> a == b,
{
    reveal_strlit("unknown-bus");
    reveal_strlit("i2c-");
    if let Some(number) = a {
        crate::drm::buses_are_named_by_their_number(number, Seq::empty());
    }
    if let Some(number) = b {
        crate::drm::buses_are_named_by_their_number(number, Seq::empty());
    }
    assert("unknown-bus"@[0] == 'u');
    assert(a is Some ==> bus_text(a)[0] == 'i');
    assert(b is Some ==> bus_text(b)[0] == 'i');
}

} // verus!
