//! DRM connectors as sysfs lists them, and the association of a DDC handle with
//! one of them.

use std::collections::HashSet;

use vstd::prelude::*;

use crate::text::{chars_of, parse_decimal, same_text, strip_prefix, tail_of, trim};

verus! {

broadcast use vstd::std_specs::hash::group_hash_axioms;

/// The length of the base block of an EDID.
pub const BASE_BLOCK_SIZE: usize = 128;

/// The BLAKE3 digest of a byte string.
pub uninterp spec fn blake3_digest(input: Seq<u8>) -> Seq<u8>;

/// `blake3::hash`, with `Hash::as_bytes` on its result: the digest of `input`,
/// which depends on nothing else, as its 32 bytes.
#[verifier::external_body]
fn hash_bytes(input: &[u8]) -> (r: [u8; 32])
    ensures
        r@ == blake3_digest(input@),
{
    *blake3::hash(input).as_bytes()
}

/// The `Display` text of `blake3::Hash`, made from its bytes: two lower-case
/// hexadecimal digits for every byte, the high half first.
#[verifier::external_body]
fn hash_text(bytes: &[u8; 32]) -> (r: String)
    ensures
        r@ == crate::text::hex(bytes@),
{
    blake3::Hash::from_bytes(*bytes).to_string()
}

/// What tells monitors apart: the digest of an EDID base block.
#[derive(Debug, Clone, Copy)]
pub struct Fingerprint {
    pub bytes: [u8; 32],
}

impl View for Fingerprint {
    type V = Seq<u8>;

    open spec fn view(&self) -> Seq<u8> {
        self.bytes@
    }
}

impl Fingerprint {
    /// The hexadecimal text of the fingerprint.
    pub fn text(&self) -> (r: String)
        ensures
            r@ == crate::text::hex(self@),
            r@.len() == 64,
    {
        hash_text(&self.bytes)
    }

    /// Whether two fingerprints are the same.
    pub fn same(&self, other: &Fingerprint) -> (r: bool)
        ensures
            r == (self@ == other@),
    {
        let mut i: usize = 0;
        while i < 32
            invariant
                i <= 32,
                forall|j: int| 0 <= j < i ==> self.bytes@[j] == other.bytes@[j],
            decreases 32 - i,
        {
            if self.bytes[i] != other.bytes[i] {
                assert(self@[i as int] != other@[i as int]);
                return false;
            }
            i = i + 1;
        }
        assert(self@ =~= other@);
        true
    }
}

/// The fingerprint that an EDID has, by the bytes it consists of.
pub open spec fn fingerprint_of(edid: Seq<u8>) -> Option<Seq<u8>> {
    if edid.len() >= BASE_BLOCK_SIZE {
        Some(blake3_digest(edid.take(BASE_BLOCK_SIZE as int)))
    } else {
        None
    }
}

/// The fingerprint of an EDID that holds at least its base block. Extension
/// blocks do not count.
pub fn edid_fingerprint(edid: &[u8]) -> (r: Option<Fingerprint>)
    ensures
        crate::model::seen(r) == fingerprint_of(edid@),
{
    if edid.len() >= BASE_BLOCK_SIZE {
        let block = vstd::slice::slice_subrange(edid, 0, BASE_BLOCK_SIZE);
        assert(block@ =~= edid@.take(BASE_BLOCK_SIZE as int));
        Some(Fingerprint { bytes: hash_bytes(block) })
    } else {
        None
    }
}

/// What stands behind the first `separator` in `s`.
pub open spec fn behind_first(s: Seq<char>, separator: char) -> Option<Seq<char>>
    decreases s.len(),
{
    if s.len() == 0 {
        None
    } else if s[0] == separator {
        Some(s.drop_first())
    } else {
        behind_first(s.drop_first(), separator)
    }
}

/// The connector that a sysfs directory stands for: `card`, anything without a
/// hyphen, a hyphen, and the connector's name.
pub open spec fn connector_name(s: Seq<char>) -> Option<Seq<char>> {
    if crate::text::begins_with(s, "card"@) {
        match behind_first(s.skip("card"@.len() as int), '-') {
            Some(name) => if name.len() > 0 {
                Some(name)
            } else {
                None
            },
            None => None,
        }
    } else {
        None
    }
}

/// What stands behind the first separator in a text.
fn text_behind_first(text: &str, separator: char) -> (r: Option<String>)
    ensures
        crate::model::seen(r) == behind_first(text@, separator),
{
    let chars = chars_of(text);
    let mut i: usize = 0;
    assert(chars@.skip(0) =~= chars@);
    while i < chars.len() && chars[i] != separator
        invariant
            i <= chars@.len(),
            behind_first(chars@, separator) == behind_first(chars@.skip(i as int), separator),
        decreases chars@.len() - i,
    {
        assert(chars@.skip(i as int).drop_first() =~= chars@.skip(i + 1));
        i = i + 1;
    }
    if i == chars.len() {
        return None;
    }
    assert(chars@.skip(i as int).drop_first() =~= chars@.skip(i + 1));
    Some(tail_of(&chars, i + 1))
}

/// The connector that a sysfs directory stands for.
pub fn drm_connector_name(sysfs_name: &str) -> (r: Option<String>)
    ensures
        crate::model::seen(r) == connector_name(sysfs_name@),
{
    let after_card = match strip_prefix(sysfs_name, "card") {
        Some(rest) => rest,
        None => return None,
    };
    match text_behind_first(after_card.as_str(), '-') {
        Some(connector) => if connector.as_str().is_empty() {
            None
        } else {
            Some(connector)
        },
        None => None,
    }
}

/// A number of at most 32 bits as one.
pub open spec fn narrowed(x: Option<u64>) -> Option<u32> {
    match x {
        Some(n) => Some(n as u32),
        None => None,
    }
}

/// The I2C bus that a path component names: `i2c-` and its number.
pub open spec fn bus_named(s: Seq<char>) -> Option<u32> {
    if crate::text::begins_with(s, "i2c-"@) {
        narrowed(crate::text::parsed(s.skip("i2c-"@.len() as int), 0xffff_ffff))
    } else {
        None
    }
}

/// The I2C bus that a path component names.
pub fn parse_i2c_component(component: &str) -> (r: Option<u32>)
    ensures
        r == bus_named(component@),
{
    match strip_prefix(component, "i2c-") {
        Some(number) => match parse_decimal(number.as_str(), 0xffff_ffff) {
            Some(n) => Some(n as u32),
            None => None,
        },
        None => None,
    }
}

/// The I2C bus that the last component to name one names.
pub open spec fn last_bus_named(components: Seq<Seq<char>>) -> Option<u32>
    decreases components.len(),
{
    if components.len() == 0 {
        None
    } else if bus_named(components.last()) is Some {
        bus_named(components.last())
    } else {
        last_bus_named(components.drop_last())
    }
}

/// The I2C bus that a path leads to, by the last of its components to name one.
pub fn i2c_bus_in_path(components: &Vec<String>) -> (r: Option<u32>)
    ensures
        r == last_bus_named(crate::model::views(components@)),
{
    let ghost all = crate::model::views(components@);
    let mut i: usize = components.len();
    assert(all.take(i as int) =~= all);
    while i > 0
        invariant
            i <= components@.len(),
            all == crate::model::views(components@),
            last_bus_named(all) == last_bus_named(all.take(i as int)),
        decreases i,
    {
        assert(all.take(i as int).drop_last() =~= all.take(i - 1));
        assert(all.take(i as int).last() == components@[i - 1]@);
        let bus = parse_i2c_component(components[i - 1].as_str());
        if bus.is_some() {
            return bus;
        }
        i = i - 1;
    }
    None
}

/// Whether one of the first `n` names names the bus.
pub open spec fn names_bus(names: Seq<Seq<char>>, n: int, bus: u32) -> bool {
    exists|i: int| 0 <= i < n && bus_named(#[trigger] names[i]) == Some(bus)
}

/// The buses that the entries of a directory name.
pub open spec fn buses_named(names: Seq<Seq<char>>) -> Set<u32> {
    Set::new(|bus: u32| names_bus(names, names.len() as int, bus))
}

/// Adds the buses that the names name.
fn add_buses(buses: &mut HashSet<u32>, names: &Vec<String>)
    ensures
        final(buses)@ == old(buses)@.union(buses_named(crate::model::views(names@))),
{
    let ghost all = crate::model::views(names@);
    let ghost start = buses@;
    for i in 0..names.len()
        invariant
            all == crate::model::views(names@),
            forall|bus: u32| #[trigger]
                buses@.contains(bus) == (start.contains(bus) || names_bus(all, i as int, bus)),
    {
        let ghost before = buses@;
        assert(all[i as int] == names@[i as int]@);
        match parse_i2c_component(names[i].as_str()) {
            Some(bus) => {
                buses.insert(bus);
            },
            None => {},
        }
        assert forall|bus: u32| #[trigger]
            buses@.contains(bus) == (start.contains(bus) || names_bus(all, i + 1, bus)) by {
            assert(before.contains(bus) == (start.contains(bus) || names_bus(all, i as int, bus)));
            if names_bus(all, i as int, bus) {
                let j = choose|j: int| 0 <= j < i && bus_named(#[trigger] all[j]) == Some(bus);
                assert(0 <= j < i + 1 && bus_named(all[j]) == Some(bus));
            }
            if names_bus(all, i + 1, bus) && !names_bus(all, i as int, bus) {
                let j = choose|j: int| 0 <= j < i + 1 && bus_named(#[trigger] all[j]) == Some(bus);
                assert(j == i);
            }
            if bus_named(all[i as int]) == Some(bus) {
                assert(names_bus(all, i + 1, bus));
            }
        }
    }
    assert(buses@ =~= start.union(buses_named(all)));
}

/// The I2C buses among the entries of a directory.
pub fn i2c_buses_in_directory(names: &Vec<String>) -> (r: HashSet<u32>)
    ensures
        r@ == buses_named(crate::model::views(names@)),
{
    let mut buses: HashSet<u32> = HashSet::new();
    add_buses(&mut buses, names);
    assert(buses@ =~= buses_named(crate::model::views(names@)));
    buses
}

/// The device minor number in a Linux `dev_t`: its low eight bits, and above
/// them the 24 bits from bit 20 on.
pub open spec fn device_minor(device: u64) -> u32 {
    (device % 256 + 256 * ((device / 0x10_0000) % 0x100_0000)) as u32
}

/// The I2C bus that the DDC library's identifier of a display gives: the
/// minor number of the device whose decimal number it is.
pub fn i2c_bus_from_ddc_id(id: &str) -> (r: Option<u32>)
    ensures
        r == (match crate::text::parsed(id@, u64::MAX) {
            Some(device) => Some(device_minor(device)),
            None => None,
        }),
{
    match parse_decimal(id, u64::MAX) {
        Some(device) => {
            let minor: u64 = (device & 0xff) | ((device >> 12) & 0xffff_ff00);
            assert(((device & 0xff) | ((device >> 12) & 0xffff_ff00)) == device % 256 + 256 * ((
            device / 0x10_0000) % 0x100_0000) && ((device & 0xff) | ((device >> 12) & 0xffff_ff00))
                <= 0xffff_ffff) by (bit_vector);
            Some(minor as u32)
        },
        None => None,
    }
}

/// A DRM connector.
#[derive(Debug)]
pub struct DrmConnector {
    /// Connector name, for example `DP-1`.
    pub name: String,
    /// Whether something is plugged in.
    pub connected: bool,
    /// Fingerprint of the EDID that sysfs shows, if it shows one.
    pub fingerprint: Option<Fingerprint>,
    /// Buses that are direct children of the connector.
    pub direct_buses: HashSet<u32>,
    /// Buses behind the connector's legacy `ddc` entry.
    pub ddc_buses: HashSet<u32>,
}

/// What a `DrmConnector` says.
pub struct DrmConnectorView {
    pub name: Seq<char>,
    pub connected: bool,
    pub fingerprint: Option<Seq<u8>>,
    pub direct_buses: Set<u32>,
    pub ddc_buses: Set<u32>,
}

impl View for DrmConnector {
    type V = DrmConnectorView;

    open spec fn view(&self) -> DrmConnectorView {
        DrmConnectorView {
            name: self.name@,
            connected: self.connected,
            fingerprint: crate::model::seen(self.fingerprint),
            direct_buses: self.direct_buses@,
            ddc_buses: self.ddc_buses@,
        }
    }
}

impl DrmConnectorView {
    /// Whether the bus leads to this connector.
    pub open spec fn owns_bus(self, bus: u32) -> bool {
        self.direct_buses.contains(bus) || self.ddc_buses.contains(bus)
    }
}

impl DrmConnector {
    /// Whether the bus leads to this connector.
    pub fn contains_bus(&self, bus: u32) -> (r: bool)
        ensures
            r == self@.owns_bus(bus),
    {
        self.direct_buses.contains(&bus) || self.ddc_buses.contains(&bus)
    }
}

/// What was read of one entry of the DRM class directory.
#[derive(Debug)]
pub struct ConnectorListing {
    /// Name of the entry.
    pub sysfs_name: String,
    /// Contents of `status`, where it could be read.
    pub status: Option<String>,
    /// Contents of `edid`, where it could be read.
    pub edid: Option<Vec<u8>>,
    /// Names in the entry's own directory.
    pub entries: Vec<String>,
    /// Components of the path that `ddc` leads to, where it leads somewhere.
    pub ddc_target: Option<Vec<String>>,
    /// Names in the `ddc` directory.
    pub ddc_entries: Vec<String>,
    /// Names in the `ddc/i2c-dev` directory.
    pub ddc_device_entries: Vec<String>,
}

impl ConnectorListing {
    /// The buses behind the legacy `ddc` entry.
    pub open spec fn legacy_buses(&self) -> Set<u32> {
        let target = match self.ddc_target {
            Some(components) => match last_bus_named(crate::model::views(components@)) {
                Some(bus) => set![bus],
                None => Set::empty(),
            },
            None => Set::empty(),
        };
        target.union(buses_named(crate::model::views(self.ddc_entries@))).union(
            buses_named(crate::model::views(self.ddc_device_entries@)),
        )
    }

    /// The connector that the listing describes, if it describes one.
    pub open spec fn described(&self) -> Option<DrmConnectorView> {
        match connector_name(self.sysfs_name@) {
            Some(name) => Some(
                DrmConnectorView {
                    name,
                    connected: self.status is Some && crate::text::trimmed(self.status->Some_0@)
                        == "connected"@,
                    fingerprint: match self.edid {
                        Some(edid) => fingerprint_of(edid@),
                        None => None,
                    },
                    direct_buses: buses_named(crate::model::views(self.entries@)),
                    ddc_buses: self.legacy_buses(),
                },
            ),
            None => None,
        }
    }
}

/// The direct buses of a connector, and those behind its legacy `ddc` entry.
pub fn find_i2c_buses(listing: &ConnectorListing) -> (r: (HashSet<u32>, HashSet<u32>))
    ensures
        r.0@ == buses_named(crate::model::views(listing.entries@)),
        r.1@ == listing.legacy_buses(),
{
    let direct_buses = i2c_buses_in_directory(&listing.entries);
    let mut ddc_buses: HashSet<u32> = HashSet::new();
    match &listing.ddc_target {
        Some(components) => match i2c_bus_in_path(components) {
            Some(bus) => {
                ddc_buses.insert(bus);
            },
            None => {},
        },
        None => {},
    }
    add_buses(&mut ddc_buses, &listing.ddc_entries);
    add_buses(&mut ddc_buses, &listing.ddc_device_entries);
    assert(ddc_buses@ =~= listing.legacy_buses());
    (direct_buses, ddc_buses)
}

/// The connector that a listing describes, if it describes one.
pub fn connector_from(listing: &ConnectorListing) -> (r: Option<DrmConnector>)
    ensures
        crate::model::seen(r) == listing.described(),
{
    let name = match drm_connector_name(listing.sysfs_name.as_str()) {
        Some(name) => name,
        None => return None,
    };
    let connected = match &listing.status {
        Some(status) => same_text(trim(status.as_str()).as_str(), "connected"),
        None => false,
    };
    let fingerprint = match &listing.edid {
        Some(edid) => edid_fingerprint(edid.as_slice()),
        None => None,
    };
    let (direct_buses, ddc_buses) = find_i2c_buses(listing);
    Some(DrmConnector { name, connected, fingerprint, direct_buses, ddc_buses })
}

/// The connectors that the listings describe, in their order.
pub open spec fn connectors_described(listings: Seq<ConnectorListing>) -> Seq<DrmConnectorView>
    decreases listings.len(),
{
    if listings.len() == 0 {
        Seq::empty()
    } else {
        let front = connectors_described(listings.drop_last());
        match listings.last().described() {
            Some(connector) => front.push(connector),
            None => front,
        }
    }
}

/// The connectors that the listings describe, in their order.
pub fn scan_drm_connectors(listings: &Vec<ConnectorListing>) -> (r: Vec<DrmConnector>)
    ensures
        crate::model::views(r@) == connectors_described(listings@),
{
    let mut connectors: Vec<DrmConnector> = Vec::new();
    assert(crate::model::views(connectors@) =~= connectors_described(listings@.take(0)));
    for i in 0..listings.len()
        invariant
            crate::model::views(connectors@) == connectors_described(listings@.take(i as int)),
    {
        assert(listings@.take(i + 1).drop_last() =~= listings@.take(i as int));
        assert(listings@.take(i + 1).last() == listings@[i as int]);
        let ghost before = connectors@;
        match connector_from(&listings[i]) {
            Some(connector) => {
                connectors.push(connector);
                assert(crate::model::views(connectors@) =~= crate::model::views(before).push(connector@));
            },
            None => {},
        }
    }
    assert(listings@.take(listings@.len() as int) =~= listings@);
    connectors
}

/// How a connector can be recognised.
#[derive(Debug, Clone, Copy, PartialEq, Eq, Structural)]
pub enum Evidence {
    /// By the EDID and by the bus that the handle uses.
    EdidAndBus,
    /// By the EDID alone.
    Edid,
    /// By the bus, where the connector shows no EDID.
    BusWithoutEdid,
}

/// Whether the evidence speaks for a connector. Only connectors with something
/// plugged in come into question.
pub open spec fn speaks_for(
    evidence: Evidence,
    connector: DrmConnectorView,
    fingerprint: Seq<u8>,
    i2c_bus: Option<u32>,
) -> bool {
    let owned = i2c_bus is Some && connector.owns_bus(i2c_bus->Some_0);
    connector.connected && match evidence {
        Evidence::EdidAndBus => connector.fingerprint == Some(fingerprint) && owned,
        Evidence::Edid => connector.fingerprint == Some(fingerprint),
        Evidence::BusWithoutEdid => connector.fingerprint is None && owned,
    }
}

/// Whether the evidence speaks for the connector at position `i` and for no
/// other one.
pub open spec fn speaks_only_for(
    evidence: Evidence,
    connectors: Seq<DrmConnectorView>,
    fingerprint: Seq<u8>,
    i2c_bus: Option<u32>,
    i: int,
) -> bool {
    &&& 0 <= i < connectors.len()
    &&& speaks_for(evidence, connectors[i], fingerprint, i2c_bus)
    &&& forall|j: int|
        0 <= j < connectors.len() && j != i ==> !speaks_for(
            evidence,
            #[trigger] connectors[j],
            fingerprint,
            i2c_bus,
        )
}

/// The position of the one connector that the evidence speaks for.
pub open spec fn sole_match(
    evidence: Evidence,
    connectors: Seq<DrmConnectorView>,
    fingerprint: Seq<u8>,
    i2c_bus: Option<u32>,
) -> Option<int> {
    if exists|i: int| speaks_only_for(evidence, connectors, fingerprint, i2c_bus, i) {
        Some(choose|i: int| speaks_only_for(evidence, connectors, fingerprint, i2c_bus, i))
    } else {
        None
    }
}

/// The position of the connector that a handle belongs to: the only one with
/// its EDID and its bus, else the only one with its EDID, else the only one
/// with its bus among those that show no EDID.
pub open spec fn associated(
    connectors: Seq<DrmConnectorView>,
    fingerprint: Seq<u8>,
    i2c_bus: Option<u32>,
) -> Option<int> {
    let exact = sole_match(Evidence::EdidAndBus, connectors, fingerprint, i2c_bus);
    let edid = sole_match(Evidence::Edid, connectors, fingerprint, i2c_bus);
    if exact is Some {
        exact
    } else if edid is Some {
        edid
    } else {
        sole_match(Evidence::BusWithoutEdid, connectors, fingerprint, i2c_bus)
    }
}

fn is_evidence(
    evidence: Evidence,
    connector: &DrmConnector,
    fingerprint: &Fingerprint,
    i2c_bus: Option<u32>,
) -> (r: bool)
    ensures
        r == speaks_for(evidence, connector@, fingerprint@, i2c_bus),
{
    let same_edid = match &connector.fingerprint {
        Some(own) => own.same(fingerprint),
        None => false,
    };
    let owned = match i2c_bus {
        Some(bus) => connector.contains_bus(bus),
        None => false,
    };
    connector.connected && match evidence {
        Evidence::EdidAndBus => same_edid && owned,
        Evidence::Edid => same_edid,
        Evidence::BusWithoutEdid => connector.fingerprint.is_none() && owned,
    }
}

/// The one connector that the evidence speaks for.
fn exactly_one<'a>(
    evidence: Evidence,
    connectors: &'a [DrmConnector],
    fingerprint: &Fingerprint,
    i2c_bus: Option<u32>,
) -> (r: Option<&'a DrmConnector>)
    ensures
        ({
            let at = sole_match(evidence, crate::model::views(connectors@), fingerprint@, i2c_bus);
            &&& r is Some <==> at is Some
            &&& r is Some ==> 0 <= at->Some_0 < connectors@.len() && *r->Some_0
                == connectors@[at->Some_0]
        }),
{
    let ghost views = crate::model::views(connectors@);
    let mut first: Option<usize> = None;
    for i in 0..connectors.len()
        invariant
            views == crate::model::views(connectors@),
            first matches Some(k) ==> k < i && speaks_for(
                evidence,
                views[k as int],
                fingerprint@,
                i2c_bus,
            ),
            forall|j: int|
                0 <= j < i && first != Some(j as usize) ==> !speaks_for(
                    evidence,
                    #[trigger] views[j],
                    fingerprint@,
                    i2c_bus,
                ),
    {
        assert(views[i as int] == connectors@[i as int]@);
        if is_evidence(evidence, &connectors[i], fingerprint, i2c_bus) {
            match first {
                Some(k) => {
                    proof {
                        assert forall|n: int| !speaks_only_for(
                            evidence,
                            views,
                            fingerprint@,
                            i2c_bus,
                            n,
                        ) by {
                            if n == k {
                                assert(speaks_for(evidence, views[i as int], fingerprint@, i2c_bus));
                            } else {
                                assert(speaks_for(evidence, views[k as int], fingerprint@, i2c_bus));
                            }
                        }
                    }
                    return None;
                },
                None => {
                    first = Some(i);
                },
            }
        }
    }
    match first {
        Some(k) => {
            proof {
                assert(speaks_only_for(evidence, views, fingerprint@, i2c_bus, k as int));
                let at = sole_match(evidence, views, fingerprint@, i2c_bus)->Some_0;
                if at != k {
                    assert(!speaks_for(evidence, views[k as int], fingerprint@, i2c_bus));
                }
            }
            Some(&connectors[k])
        },
        None => {
            proof {
                assert forall|n: int| !speaks_only_for(
                    evidence,
                    views,
                    fingerprint@,
                    i2c_bus,
                    n,
                ) by {
                    if 0 <= n < views.len() {
                        assert(!speaks_for(evidence, views[n], fingerprint@, i2c_bus));
                    }
                }
            }
            None
        },
    }
}

/// The connector that a DDC handle belongs to.
pub fn match_connector<'a>(
    connectors: &'a [DrmConnector],
    fingerprint: &Fingerprint,
    i2c_bus: Option<u32>,
) -> (r: Option<&'a DrmConnector>)
    ensures
        ({
            let at = associated(crate::model::views(connectors@), fingerprint@, i2c_bus);
            &&& r is Some <==> at is Some
            &&& r is Some ==> 0 <= at->Some_0 < connectors@.len() && *r->Some_0
                == connectors@[at->Some_0]
        }),
{
    let exact = exactly_one(Evidence::EdidAndBus, connectors, fingerprint, i2c_bus);
    if exact.is_some() {
        return exact;
    }
    let edid = exactly_one(Evidence::Edid, connectors, fingerprint, i2c_bus);
    if edid.is_some() {
        return edid;
    }
    exactly_one(Evidence::BusWithoutEdid, connectors, fingerprint, i2c_bus)
}

/// Whether a connector other than the matched one owns the bus.
pub open spec fn owned_elsewhere(
    connectors: Seq<DrmConnectorView>,
    matched: Option<DrmConnectorView>,
    bus: u32,
) -> bool {
    exists|i: int|
        0 <= i < connectors.len() && (#[trigger] connectors[i]).owns_bus(bus) && (matched is None
            || connectors[i].name != matched->Some_0.name)
}

/// How a handle ranks among those of one output, the best first: on the matched
/// connector's direct bus, behind its legacy `ddc` entry, on a bus that no
/// other connector owns, on one that another connector owns, on none known.
pub open spec fn preference(
    connectors: Seq<DrmConnectorView>,
    matched: Option<DrmConnectorView>,
    i2c_bus: Option<u32>,
) -> u8 {
    match i2c_bus {
        None => 5,
        Some(bus) => if matched is Some && matched->Some_0.direct_buses.contains(bus) {
            0
        } else if matched is Some && matched->Some_0.ddc_buses.contains(bus) {
            1
        } else if owned_elsewhere(connectors, matched, bus) {
            3
        } else {
            2
        },
    }
}

/// How a handle ranks among those of one output, the best first.
pub fn handle_preference(
    connectors: &[DrmConnector],
    matched: Option<&DrmConnector>,
    i2c_bus: Option<u32>,
) -> (r: u8)
    ensures
        r == preference(
            crate::model::views(connectors@),
            match matched {
                Some(connector) => Some(connector@),
                None => None,
            },
            i2c_bus,
        ),
{
    let bus: u32 = match i2c_bus {
        Some(bus) => bus,
        None => return 5,
    };
    if let Some(connector) = matched {
        if connector.direct_buses.contains(&bus) {
            return 0;
        }
        if connector.ddc_buses.contains(&bus) {
            return 1;
        }
    }
    let ghost views = crate::model::views(connectors@);
    for i in 0..connectors.len()
        invariant
            views == crate::model::views(connectors@),
            i2c_bus == Some(bus),
            matched matches Some(connector) ==> !connector@.owns_bus(bus),
            forall|j: int|
                0 <= j < i ==> !((#[trigger] views[j]).owns_bus(bus) && (matched is None
                    || views[j].name != matched->Some_0@.name)),
    {
        assert(views[i as int] == connectors@[i as int]@);
        let other = match matched {
            Some(connector) => !same_text(connectors[i].name.as_str(), connector.name.as_str()),
            None => true,
        };
        if other && connectors[i].contains_bus(bus) {
            return 3;
        }
    }
    2
}

/// A connector that a handle is associated with has something plugged in, and
/// either shows the handle's EDID or shows none and owns its bus.
pub proof fn association_is_supported(
    connectors: Seq<DrmConnectorView>,
    fingerprint: Seq<u8>,
    i2c_bus: Option<u32>,
)
    ensures
        associated(connectors, fingerprint, i2c_bus) matches Some(i) ==> {
            &&& 0 <= i < connectors.len()
            &&& connectors[i].connected
            &&& connectors[i].fingerprint == Some(fingerprint) || (connectors[i].fingerprint is None
                && i2c_bus is Some && connectors[i].owns_bus(i2c_bus->Some_0))
        },
{
}

/// Bus topology is preferred: where exactly one connector has the handle's EDID
/// and owns its bus, the handle belongs to it, whatever else shows that EDID.
pub proof fn bus_topology_is_preferred(
    connectors: Seq<DrmConnectorView>,
    fingerprint: Seq<u8>,
    i2c_bus: Option<u32>,
    i: int,
)
    requires
        speaks_only_for(Evidence::EdidAndBus, connectors, fingerprint, i2c_bus, i),
    ensures
        associated(connectors, fingerprint, i2c_bus) == Some(i),
{
    let at = sole_match(Evidence::EdidAndBus, connectors, fingerprint, i2c_bus)->Some_0;
    if at != i {
        assert(!speaks_for(Evidence::EdidAndBus, connectors[i], fingerprint, i2c_bus));
    }
}

/// Connectors that show one EDID are not told apart by their order: where
/// several do and the bus does not single one of them out, the handle belongs
/// to none of those that show an EDID.
pub proof fn ambiguous_edids_are_not_assigned(
    connectors: Seq<DrmConnectorView>,
    fingerprint: Seq<u8>,
    i2c_bus: Option<u32>,
    i: int,
    j: int,
)
    requires
        0 <= i < j < connectors.len(),
        speaks_for(Evidence::Edid, connectors[i], fingerprint, i2c_bus),
        speaks_for(Evidence::Edid, connectors[j], fingerprint, i2c_bus),
        sole_match(Evidence::EdidAndBus, connectors, fingerprint, i2c_bus) is None,
    ensures
        associated(connectors, fingerprint, i2c_bus) matches Some(k) ==> connectors[k].fingerprint is None,
{
    assert forall|n: int| !speaks_only_for(Evidence::Edid, connectors, fingerprint, i2c_bus, n) by {
        if n == i {
            assert(speaks_for(Evidence::Edid, connectors[j], fingerprint, i2c_bus));
        } else {
            assert(speaks_for(Evidence::Edid, connectors[i], fingerprint, i2c_bus));
        }
    }
}

/// EDIDs that agree in their base block have one fingerprint, whatever
/// extension blocks follow.
pub proof fn extension_blocks_do_not_count(a: Seq<u8>, b: Seq<u8>)
    requires
        a.len() >= BASE_BLOCK_SIZE,
        b.len() >= BASE_BLOCK_SIZE,
        a.take(BASE_BLOCK_SIZE as int) == b.take(BASE_BLOCK_SIZE as int),
    ensures
        fingerprint_of(a) == fingerprint_of(b),
{
}

proof fn lemma_behind_first(front: Seq<char>, separator: char, rest: Seq<char>)
    requires
        forall|i: int| 0 <= i < front.len() ==> #[trigger] front[i] != separator,
    ensures
        behind_first(front.push(separator) + rest, separator) == Some(rest),
        behind_first(front, separator) is None,
    decreases front.len(),
{
    let s = front.push(separator) + rest;
    if front.len() == 0 {
        assert(s[0] == separator);
        assert(s.drop_first() =~= rest);
    } else {
        assert(s[0] == front[0]);
        assert(front[0] != separator);
        let tail = front.drop_first();
        assert forall|i: int| 0 <= i < tail.len() implies #[trigger] tail[i] != separator by {
            assert(tail[i] == front[i + 1]);
        }
        assert(s.drop_first() =~= tail.push(separator) + rest);
        lemma_behind_first(tail, separator, rest);
    }
}

/// A connector is called by what follows the first hyphen behind its card: an
/// entry `card` and number, hyphen, name is that connector. An entry without the
/// hyphen, without a name or without `card` in front is none.
pub proof fn connectors_are_called_by_what_follows_the_card(card: Seq<char>, name: Seq<char>)
    requires
        forall|i: int| 0 <= i < card.len() ==> #[trigger] card[i] != '-',
    ensures
        name.len() > 0 ==> connector_name("card"@ + card + "-"@ + name) == Some(name),
        connector_name("card"@ + card + "-"@) is None,
        connector_name("card"@ + card) is None,
{
    reveal_strlit("card");
    reveal_strlit("-");
    let empty = Seq::<char>::empty();
    lemma_behind_first(card, '-', name);
    lemma_behind_first(card, '-', empty);
    let whole = "card"@ + card + "-"@ + name;
    assert(whole.take(4) =~= "card"@);
    assert(whole.skip(4) =~= card.push('-') + name);
    let bare = "card"@ + card + "-"@;
    assert(bare.take(4) =~= "card"@);
    assert(bare.skip(4) =~= card.push('-') + empty);
    let single = "card"@ + card;
    assert(single.take(4) =~= "card"@);
    assert(single.skip(4) =~= card);
}

/// Every connector has such an entry.
pub proof fn connector_entries_begin_with_their_card(s: Seq<char>) -> (card: Seq<char>)
    requires
        connector_name(s) is Some,
    ensures
        ({
            let name = connector_name(s)->Some_0;
            &&& s == "card"@ + card + "-"@ + name
            &&& name.len() > 0
            &&& forall|i: int| 0 <= i < card.len() ==> #[trigger] card[i] != '-'
        }),
{
    reveal_strlit("card");
    reveal_strlit("-");
    let rest = s.skip(4);
    let card = lemma_split_first(rest, '-');
    let name = behind_first(rest, '-')->Some_0;
    assert(s =~= "card"@ + rest) by {
        assert(s.take(4) == "card"@);
        assert(s =~= s.take(4) + s.skip(4));
    }
    assert(s =~= "card"@ + card + "-"@ + name);
    card
}

proof fn lemma_split_first(s: Seq<char>, separator: char) -> (front: Seq<char>)
    requires
        behind_first(s, separator) is Some,
    ensures
        s == front.push(separator) + behind_first(s, separator)->Some_0,
        forall|i: int| 0 <= i < front.len() ==> #[trigger] front[i] != separator,
    decreases s.len(),
{
    if s[0] == separator {
        let front = Seq::<char>::empty();
        assert(s =~= front.push(separator) + s.drop_first());
        front
    } else {
        let tail = lemma_split_first(s.drop_first(), separator);
        let front = seq![s[0]] + tail;
        let rest = behind_first(s.drop_first(), separator)->Some_0;
        assert(s =~= seq![s[0]] + s.drop_first());
        assert(s =~= front.push(separator) + rest);
        assert forall|i: int| 0 <= i < front.len() implies #[trigger] front[i] != separator by {
            if i > 0 {
                assert(front[i] == tail[i - 1]);
            }
        }
        front
    }
}

/// A bus is named by `i2c-` and its number; nothing else names one.
pub proof fn buses_are_named_by_their_number(n: u32, s: Seq<char>)
    ensures
        bus_named("i2c-"@ + crate::text::decimal(n as nat)) == Some(n),
        bus_named("i2c-"@ + s) == (match crate::text::parsed(s, 0xffff_ffff) {
            Some(number) => Some(number as u32),
            None => None,
        }),
        bus_named(s) is Some ==> s.len() > 4 && s.take(4) == "i2c-"@,
{
    reveal_strlit("i2c-");
    let digits = crate::text::decimal(n as nat);
    crate::text::written_numbers_are_read_back(n as nat, 0xffff_ffff);
    assert(("i2c-"@ + digits).take(4) =~= "i2c-"@);
    assert(("i2c-"@ + digits).skip(4) =~= digits);
    assert(("i2c-"@ + s).take(4) =~= "i2c-"@);
    assert(("i2c-"@ + s).skip(4) =~= s);
    if bus_named(s) is Some {
        assert(s.skip(4).len() > 0);
    }
}

/// The bus of a path is the last one that its components name.
pub proof fn the_last_bus_of_a_path_counts(
    front: Seq<Seq<char>>,
    component: Seq<char>,
    back: Seq<Seq<char>>,
)
    requires
        forall|i: int| 0 <= i < back.len() ==> bus_named(#[trigger] back[i]) is None,
    ensures
        bus_named(component) is Some ==> last_bus_named(front.push(component) + back) == bus_named(
            component,
        ),
        last_bus_named(back) is None,
    decreases back.len(),
{
    let all = front.push(component) + back;
    if back.len() == 0 {
        assert(all =~= front.push(component));
        assert(all.last() == component);
    } else {
        assert(bus_named(back[back.len() - 1]) is None);
        assert(all.last() == back.last());
        assert(all.drop_last() =~= front.push(component) + back.drop_last());
        the_last_bus_of_a_path_counts(front, component, back.drop_last());
    }
}

/// The buses of a directory are those that its entries name.
pub proof fn directories_hold_the_buses_they_name(names: Seq<Seq<char>>, bus: u32)
    ensures
        buses_named(names).contains(bus) <==> exists|i: int|
            0 <= i < names.len() && bus_named(#[trigger] names[i]) == Some(bus),
{
}

/// The minor number of a device keeps the lowest eight bits of its number, and
/// above them the 24 bits that stand twelve places higher.
pub proof fn minor_numbers_are_split(device: u64)
    ensures
        device_minor(device) % 256 == device % 256,
        device_minor(device) / 256 == (device / 1_048_576) % 16_777_216,
        device < 256 ==> device_minor(device) == device,
{
    let low = device % 256;
    let high = (device / 0x10_0000) % 0x100_0000;
    assert((low + 256 * high) <= 0xffff_ffff);
}

/// A fingerprint is that of the first 128 bytes; what is shorter has none.
pub proof fn fingerprints_are_of_the_base_block(block: Seq<u8>, rest: Seq<u8>)
    ensures
        block.len() == 128 ==> fingerprint_of(block + rest) == Some(blake3_digest(block)),
        block.len() < 128 ==> fingerprint_of(block) is None,
{
    if block.len() == 128 {
        assert((block + rest).take(128) =~= block);
    }
}

/// A listing describes a connector as it was read: under the name of its entry,
/// connected where its status says just that, with the fingerprint of its EDID,
/// with the buses that its own entries name, and with those that its `ddc` entry
/// leads to or holds.
pub proof fn listings_are_described_as_read(listing: ConnectorListing, bus: u32)
    requires
        listing.described() is Some,
    ensures
        ({
            let connector = listing.described()->Some_0;
            &&& connector_name(listing.sysfs_name@) == Some(connector.name)
            &&& connector.connected <==> listing.status is Some && crate::text::trimmed(
                listing.status->Some_0@,
            ) == "connected"@
            &&& listing.edid is None ==> connector.fingerprint is None
            &&& listing.edid matches Some(edid) ==> {
                &&& edid@.len() < 128 ==> connector.fingerprint is None
                &&& edid@.len() >= 128 ==> connector.fingerprint == Some(
                    blake3_digest(edid@.take(128)),
                )
            }
            &&& connector.direct_buses.contains(bus) <==> exists|i: int|
                0 <= i < listing.entries@.len() && bus_named((#[trigger] listing.entries@[i])@)
                    == Some(bus)
            &&& connector.ddc_buses.contains(bus) <==> {
                ||| listing.ddc_target is Some && last_bus_named(
                    crate::model::views(listing.ddc_target->Some_0@),
                ) == Some(bus)
                ||| exists|i: int|
                    0 <= i < listing.ddc_entries@.len() && bus_named(
                        (#[trigger] listing.ddc_entries@[i])@,
                    ) == Some(bus)
                ||| exists|i: int|
                    0 <= i < listing.ddc_device_entries@.len() && bus_named(
                        (#[trigger] listing.ddc_device_entries@[i])@,
                    ) == Some(bus)
            }
            &&& connector.owns_bus(bus) <==> connector.direct_buses.contains(bus)
                || connector.ddc_buses.contains(bus)
        }),
{
    let connector = listing.described()->Some_0;
    lemma_entries_name(listing.entries@, bus);
    lemma_entries_name(listing.ddc_entries@, bus);
    lemma_entries_name(listing.ddc_device_entries@, bus);
}

proof fn lemma_entries_name(entries: Seq<String>, bus: u32)
    ensures
        buses_named(crate::model::views(entries)).contains(bus) <==> exists|i: int|
            0 <= i < entries.len() && bus_named((#[trigger] entries[i])@) == Some(bus),
{
    let names = crate::model::views(entries);
    if buses_named(names).contains(bus) {
        let i = choose|i: int| 0 <= i < names.len() && bus_named(#[trigger] names[i]) == Some(bus);
        assert(entries[i]@ == names[i]);
    }
    if exists|i: int| 0 <= i < entries.len() && bus_named((#[trigger] entries[i])@) == Some(bus) {
        let i = choose|i: int|
            0 <= i < entries.len() && bus_named((#[trigger] entries[i])@) == Some(bus);
        assert(names[i] == entries[i]@);
    }
}

/// Every entry that is a connector is described, in the order of the entries,
/// and nothing else is.
pub proof fn every_connector_is_described(
    front: Seq<ConnectorListing>,
    listing: ConnectorListing,
    back: Seq<ConnectorListing>,
)
    ensures
        connectors_described(Seq::empty()) == Seq::<DrmConnectorView>::empty(),
        connectors_described(front + back) == connectors_described(front) + connectors_described(
            back,
        ),
        connectors_described(seq![listing]) == (match listing.described() {
            Some(connector) => seq![connector],
            None => Seq::empty(),
        }),
        listing.described() is Some <==> connector_name(listing.sysfs_name@) is Some,
    decreases back.len(),
{
    let one = seq![listing];
    assert(one.drop_last() =~= Seq::<ConnectorListing>::empty());
    assert(connectors_described(one.drop_last()) =~= Seq::<DrmConnectorView>::empty());
    assert(one.last() == listing);
    if listing.described() is Some {
        assert(connectors_described(one) =~= seq![listing.described()->Some_0]);
    }
    if back.len() == 0 {
        assert(front + back =~= front);
        assert(connectors_described(back) =~= Seq::<DrmConnectorView>::empty());
    } else {
        every_connector_is_described(front, listing, back.drop_last());
        assert((front + back).drop_last() =~= front + back.drop_last());
        assert((front + back).last() == back.last());
    }
    assert(connectors_described(front + back) =~= connectors_described(front)
        + connectors_described(back));
}

proof fn lemma_sole_match(
    evidence: Evidence,
    connectors: Seq<DrmConnectorView>,
    fingerprint: Seq<u8>,
    i2c_bus: Option<u32>,
    i: int,
)
    requires
        speaks_only_for(evidence, connectors, fingerprint, i2c_bus, i),
    ensures
        sole_match(evidence, connectors, fingerprint, i2c_bus) == Some(i),
{
    let at = sole_match(evidence, connectors, fingerprint, i2c_bus)->Some_0;
    if at != i {
        assert(!speaks_for(evidence, connectors[i], fingerprint, i2c_bus));
    }
}

/// The only connected connector that shows a handle's EDID is the handle's,
/// whichever bus the handle is on.
pub proof fn the_only_connector_with_the_edid_is_matched(
    connectors: Seq<DrmConnectorView>,
    fingerprint: Seq<u8>,
    i2c_bus: Option<u32>,
    i: int,
)
    requires
        0 <= i < connectors.len(),
        connectors[i].connected,
        connectors[i].fingerprint == Some(fingerprint),
        forall|j: int|
            0 <= j < connectors.len() && j != i ==> !((#[trigger] connectors[j]).connected
                && connectors[j].fingerprint == Some(fingerprint)),
    ensures
        associated(connectors, fingerprint, i2c_bus) == Some(i),
{
    assert forall|j: int| 0 <= j < connectors.len() && j != i implies !speaks_for(
        Evidence::Edid,
        #[trigger] connectors[j],
        fingerprint,
        i2c_bus,
    ) by {
        assert(!(connectors[j].connected && connectors[j].fingerprint == Some(fingerprint)));
    }
    lemma_sole_match(Evidence::Edid, connectors, fingerprint, i2c_bus, i);
    let exact = sole_match(Evidence::EdidAndBus, connectors, fingerprint, i2c_bus);
    if exact is Some {
        let k = exact->Some_0;
        assert(speaks_only_for(Evidence::EdidAndBus, connectors, fingerprint, i2c_bus, k));
        assert(speaks_for(Evidence::Edid, connectors[k], fingerprint, i2c_bus));
    }
}

/// Of several connected connectors with a handle's EDID, the only one that the
/// handle's bus leads to is the handle's.
pub proof fn the_bus_tells_equal_monitors_apart(
    connectors: Seq<DrmConnectorView>,
    fingerprint: Seq<u8>,
    bus: u32,
    i: int,
)
    requires
        0 <= i < connectors.len(),
        connectors[i].connected,
        connectors[i].fingerprint == Some(fingerprint),
        connectors[i].direct_buses.contains(bus) || connectors[i].ddc_buses.contains(bus),
        forall|j: int|
            0 <= j < connectors.len() && j != i ==> !((#[trigger] connectors[j]).connected
                && connectors[j].fingerprint == Some(fingerprint) && (
            connectors[j].direct_buses.contains(bus) || connectors[j].ddc_buses.contains(bus))),
    ensures
        associated(connectors, fingerprint, Some(bus)) == Some(i),
{
    assert forall|j: int| 0 <= j < connectors.len() && j != i implies !speaks_for(
        Evidence::EdidAndBus,
        #[trigger] connectors[j],
        fingerprint,
        Some(bus),
    ) by {
        assert(!(connectors[j].connected && connectors[j].fingerprint == Some(fingerprint) && (
        connectors[j].direct_buses.contains(bus) || connectors[j].ddc_buses.contains(bus))));
    }
    lemma_sole_match(Evidence::EdidAndBus, connectors, fingerprint, Some(bus), i);
}

/// Where no connected connector shows a handle's EDID, the only connected one
/// without an EDID that the handle's bus leads to is the handle's. Where there
/// is no such one, or where there are two, the handle has none.
pub proof fn connectors_without_an_edid_are_matched_by_bus(
    connectors: Seq<DrmConnectorView>,
    fingerprint: Seq<u8>,
    i2c_bus: Option<u32>,
    i: int,
    k: int,
)
    requires
        forall|j: int|
            0 <= j < connectors.len() ==> !((#[trigger] connectors[j]).connected
                && connectors[j].fingerprint == Some(fingerprint)),
    ensures
        ({
            let leads = |connector: DrmConnectorView|
                {
                    &&& connector.connected
                    &&& connector.fingerprint is None
                    &&& i2c_bus is Some
                    &&& connector.direct_buses.contains(i2c_bus->Some_0)
                        || connector.ddc_buses.contains(i2c_bus->Some_0)
                };
            &&& 0 <= i < connectors.len() && leads(connectors[i]) && (forall|j: int|
                0 <= j < connectors.len() && j != i ==> !leads(#[trigger] connectors[j]))
                ==> associated(connectors, fingerprint, i2c_bus) == Some(i)
            &&& (forall|j: int| 0 <= j < connectors.len() ==> !leads(#[trigger] connectors[j]))
                ==> associated(connectors, fingerprint, i2c_bus) is None
            &&& 0 <= i < k < connectors.len() && leads(connectors[i]) && leads(connectors[k])
                ==> associated(connectors, fingerprint, i2c_bus) is None
        }),
{
    let leads = |connector: DrmConnectorView|
        {
            &&& connector.connected
            &&& connector.fingerprint is None
            &&& i2c_bus is Some
            &&& connector.direct_buses.contains(i2c_bus->Some_0) || connector.ddc_buses.contains(
                i2c_bus->Some_0,
            )
        };
    assert forall|n: int|
        !speaks_only_for(Evidence::Edid, connectors, fingerprint, i2c_bus, n) && !speaks_only_for(
            Evidence::EdidAndBus,
            connectors,
            fingerprint,
            i2c_bus,
            n,
        ) by {
        if 0 <= n < connectors.len() {
            assert(!(connectors[n].connected && connectors[n].fingerprint == Some(fingerprint)));
        }
    }
    if 0 <= i < connectors.len() && leads(connectors[i]) && (forall|j: int|
        0 <= j < connectors.len() && j != i ==> !leads(#[trigger] connectors[j])) {
        assert forall|j: int| 0 <= j < connectors.len() && j != i implies !speaks_for(
            Evidence::BusWithoutEdid,
            #[trigger] connectors[j],
            fingerprint,
            i2c_bus,
        ) by {
            assert(!leads(connectors[j]));
        }
        lemma_sole_match(Evidence::BusWithoutEdid, connectors, fingerprint, i2c_bus, i);
    }
    if forall|j: int| 0 <= j < connectors.len() ==> !leads(#[trigger] connectors[j]) {
        assert forall|n: int|
            !speaks_only_for(Evidence::BusWithoutEdid, connectors, fingerprint, i2c_bus, n) by {
            if 0 <= n < connectors.len() {
                assert(!leads(connectors[n]));
            }
        }
    }
    if 0 <= i < k < connectors.len() && leads(connectors[i]) && leads(connectors[k]) {
        assert forall|n: int|
            !speaks_only_for(Evidence::BusWithoutEdid, connectors, fingerprint, i2c_bus, n) by {
            if n == i {
                assert(speaks_for(Evidence::BusWithoutEdid, connectors[k], fingerprint, i2c_bus));
            } else {
                assert(speaks_for(Evidence::BusWithoutEdid, connectors[i], fingerprint, i2c_bus));
            }
        }
    }
}

/// A handle ranks better the closer its bus is to the matched connector: on the
/// connector's direct bus, behind its `ddc` entry, on a bus that is nobody's, on
/// a bus of another connector, on no bus that is known.
pub proof fn closer_buses_rank_better(
    connectors: Seq<DrmConnectorView>,
    matched: Option<DrmConnectorView>,
    direct: u32,
    legacy: u32,
    free: u32,
    foreign: u32,
    k: int,
)
    requires
        matched is Some,
        matched->Some_0.direct_buses.contains(direct),
        !matched->Some_0.direct_buses.contains(legacy),
        matched->Some_0.ddc_buses.contains(legacy),
        !matched->Some_0.direct_buses.contains(free),
        !matched->Some_0.ddc_buses.contains(free),
        forall|j: int|
            0 <= j < connectors.len() ==> !(#[trigger] connectors[j]).direct_buses.contains(free)
                && !connectors[j].ddc_buses.contains(free),
        !matched->Some_0.direct_buses.contains(foreign),
        !matched->Some_0.ddc_buses.contains(foreign),
        0 <= k < connectors.len(),
        connectors[k].name != matched->Some_0.name,
        connectors[k].direct_buses.contains(foreign) || connectors[k].ddc_buses.contains(foreign),
    ensures
        preference(connectors, matched, Some(direct)) < preference(connectors, matched, Some(legacy)),
        preference(connectors, matched, Some(legacy)) < preference(connectors, matched, Some(free)),
        preference(connectors, matched, Some(free)) < preference(connectors, matched, Some(foreign)),
        preference(connectors, matched, Some(foreign)) < preference(connectors, matched, None),
{
    assert(connectors[k].owns_bus(foreign));
    assert(owned_elsewhere(connectors, matched, foreign));
    assert(!owned_elsewhere(connectors, matched, free)) by {
        if owned_elsewhere(connectors, matched, free) {
            let j = choose|j: int|
                0 <= j < connectors.len() && (#[trigger] connectors[j]).owns_bus(free) && (
                matched is None || connectors[j].name != matched->Some_0.name);
            assert(connectors[j].direct_buses.contains(free)
                || connectors[j].ddc_buses.contains(free));
        }
    }
}

/// How a handle ranks goes by its bus alone: whether the matched connector has
/// it, directly or behind its `ddc` entry, and else whether a connector of
/// another name has it.
pub proof fn handles_rank_by_their_bus(
    connectors: Seq<DrmConnectorView>,
    matched: Option<DrmConnectorView>,
    bus: u32,
)
    ensures
        matched matches Some(connector) ==> {
            &&& connector.direct_buses.contains(bus) ==> preference(connectors, matched, Some(bus))
                == 0
            &&& !connector.direct_buses.contains(bus) && connector.ddc_buses.contains(bus)
                ==> preference(connectors, matched, Some(bus)) == 1
        },
        matched is None || !(matched->Some_0.direct_buses.contains(bus)
            || matched->Some_0.ddc_buses.contains(bus)) ==> preference(
            connectors,
            matched,
            Some(bus),
        ) == (if exists|j: int|
            0 <= j < connectors.len() && ((#[trigger] connectors[j]).direct_buses.contains(bus)
                || connectors[j].ddc_buses.contains(bus)) && (matched is None || connectors[j].name
                != matched->Some_0.name) {
            3u8
        } else {
            2u8
        }),
        preference(connectors, matched, None) == 5,
{
    if exists|j: int|
        0 <= j < connectors.len() && ((#[trigger] connectors[j]).direct_buses.contains(bus)
            || connectors[j].ddc_buses.contains(bus)) && (matched is None || connectors[j].name
            != matched->Some_0.name) {
        let j = choose|j: int|
            0 <= j < connectors.len() && ((#[trigger] connectors[j]).direct_buses.contains(bus)
                || connectors[j].ddc_buses.contains(bus)) && (matched is None || connectors[j].name
                != matched->Some_0.name);
        assert(connectors[j].owns_bus(bus));
    }
    if owned_elsewhere(connectors, matched, bus) {
        let j = choose|j: int|
            0 <= j < connectors.len() && (#[trigger] connectors[j]).owns_bus(bus) && (matched is None
                || connectors[j].name != matched->Some_0.name);
        assert(connectors[j].direct_buses.contains(bus) || connectors[j].ddc_buses.contains(bus));
    }
}

/// What is known of a connector is what it holds.
pub proof fn connectors_say_what_they_hold(connector: DrmConnector)
    ensures
        connector@.name == connector.name@,
        connector@.connected == connector.connected,
        connector@.direct_buses == connector.direct_buses@,
        connector@.ddc_buses == connector.ddc_buses@,
        match connector.fingerprint {
            Some(fingerprint) => connector@.fingerprint == Some(fingerprint.bytes@),
            None => connector@.fingerprint is None,
        },
{
}

} // verus!
