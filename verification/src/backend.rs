//! The DDC backend: open transport handles, tried one after the other until
//! one works.
//!
//! Reading and writing are told as replays: given what came of the accesses so
//! far, a function says which access comes next, or what the result is.

use vstd::prelude::*;

use crate::ddc::{bus_label, candidates, DdcDisplay, ManagedHandle, Probe, VcpValue};
use crate::drm::{scan_drm_connectors, ConnectorListing};
use crate::grouping::{group_candidates, ManagedDisplay};
use crate::text::{decimal_text, join, same_text};

verus! {

/// How often an access is tried.
pub const DDC_ATTEMPTS: usize = 3;

/// How long to wait between two tries, in milliseconds.
pub const DDC_RETRY_DELAY: u64 = 50;

/// What to do about a single transport.
#[derive(Debug)]
pub enum VcpStep<T> {
    /// Wait, then try the access.
    Attempt { delay_ms: u64 },
    /// Nothing more: this is what came of it.
    Done(Result<T, String>),
}

/// What a `VcpStep` says.
pub enum VcpStepView<T> {
    Attempt { delay_ms: u64 },
    Done(Result<T, Seq<char>>),
}

impl<T> View for VcpStep<T> {
    type V = VcpStepView<T>;

    open spec fn view(&self) -> VcpStepView<T> {
        match *self {
            VcpStep::Attempt { delay_ms } => VcpStepView::Attempt { delay_ms },
            VcpStep::Done(result) => VcpStepView::Done(crate::model::heard(result)),
        }
    }
}

/// Whether the access succeeded at the attempt `i` and at none before.
pub open spec fn first_success<T>(attempts: Seq<Result<T, Seq<char>>>, i: int) -> bool {
    &&& 0 <= i < attempts.len()
    &&& i < DDC_ATTEMPTS
    &&& attempts[i] is Ok
    &&& forall|j: int| 0 <= j < i ==> #[trigger] attempts[j] is Err
}

/// What follows on the attempts so far: the first success is the result; as
/// long as all have failed there is another attempt, up to the third; then the
/// last message is the error.
pub open spec fn retried<T>(
    attempts: Seq<Result<T, Seq<char>>>,
    failure: Seq<char>,
) -> VcpStepView<T> {
    if exists|i: int| first_success(attempts, i) {
        VcpStepView::Done(Ok(attempts[choose|i: int| first_success(attempts, i)]->Ok_0))
    } else if attempts.len() < DDC_ATTEMPTS {
        VcpStepView::Attempt {
            delay_ms: if attempts.len() == 0 {
                0
            } else {
                DDC_RETRY_DELAY
            },
        }
    } else {
        VcpStepView::Done(Err(failure + attempts[DDC_ATTEMPTS - 1]->Err_0))
    }
}

proof fn lemma_first_success<T>(attempts: Seq<Result<T, Seq<char>>>, i: int)
    requires
        first_success(attempts, i),
    ensures
        (choose|k: int| first_success(attempts, k)) == i,
{
    let k = choose|k: int| first_success(attempts, k);
    if k < i {
        assert(attempts[k] is Err);
    } else if i < k {
        assert(attempts[i] is Err);
    }
}

proof fn lemma_no_success<T>(attempts: Seq<Result<T, Seq<char>>>, n: int)
    requires
        n == attempts.len() || n == DDC_ATTEMPTS,
        n <= attempts.len(),
        forall|j: int| 0 <= j < n ==> #[trigger] attempts[j] is Err,
    ensures
        !exists|i: int| first_success(attempts, i),
{
    assert forall|i: int| !first_success(attempts, i) by {
        if first_success(attempts, i) {
            assert(attempts[i] is Err);
        }
    }
}

fn next_attempt<T: Copy>(attempts: &Vec<Result<T, String>>, failure: &str) -> (r: VcpStep<T>)
    ensures
        r@ == retried(crate::model::all_heard(attempts@), failure@),
{
    let ghost all = crate::model::all_heard(attempts@);
    let mut i: usize = 0;
    while i < attempts.len() && i < DDC_ATTEMPTS
        invariant
            i <= attempts@.len(),
            i <= DDC_ATTEMPTS,
            all == crate::model::all_heard(attempts@),
            forall|j: int| 0 <= j < i ==> #[trigger] all[j] is Err,
        decreases DDC_ATTEMPTS - i,
    {
        assert(all[i as int] == crate::model::heard(attempts@[i as int]));
        if let Ok(value) = &attempts[i] {
            proof {
                assert(first_success(all, i as int));
                lemma_first_success(all, i as int);
            }
            return VcpStep::Done(Ok(*value));
        }
        i = i + 1;
    }
    proof {
        lemma_no_success(all, i as int);
    }
    if attempts.len() < DDC_ATTEMPTS {
        return VcpStep::Attempt {
            delay_ms: if attempts.len() == 0 {
                0
            } else {
                DDC_RETRY_DELAY
            },
        };
    }
    assert(all[DDC_ATTEMPTS - 1] == crate::model::heard(attempts@[DDC_ATTEMPTS - 1]));
    match &attempts[DDC_ATTEMPTS - 1] {
        Ok(value) => VcpStep::Done(Ok(*value)),
        Err(error) => VcpStep::Done(Err(failure.to_owned().concat(error.as_str()))),
    }
}

/// The next step of reading the brightness over one transport.
pub fn get_vcp_with_retry(attempts: &Vec<Result<VcpValue, String>>) -> (r: VcpStep<VcpValue>)
    ensures
        r@ == retried(
            crate::model::all_heard(attempts@),
            "DDC VCP read failed after 3 attempts: "@,
        ),
{
    next_attempt(attempts, "DDC VCP read failed after 3 attempts: ")
}

/// The next step of writing the brightness over one transport.
pub fn set_vcp_with_retry(attempts: &Vec<Result<(), String>>) -> (r: VcpStep<()>)
    ensures
        r@ == retried(
            crate::model::all_heard(attempts@),
            "DDC VCP write failed after 3 attempts: "@,
        ),
{
    next_attempt(attempts, "DDC VCP write failed after 3 attempts: ")
}

/// Retries are bounded: after three attempts there is a result, and it is an
/// error only if all three failed.
pub proof fn retries_are_bounded<T>(attempts: Seq<Result<T, Seq<char>>>, failure: Seq<char>)
    requires
        attempts.len() >= DDC_ATTEMPTS,
    ensures
        retried(attempts, failure) is Done,
        retried(attempts, failure)->Done_0 is Err <==> forall|i: int|
            0 <= i < DDC_ATTEMPTS ==> #[trigger] attempts[i] is Err,
{
    if forall|i: int| 0 <= i < DDC_ATTEMPTS ==> #[trigger] attempts[i] is Err {
        lemma_no_success(attempts, DDC_ATTEMPTS as int);
    } else {
        let i = choose|i: int| 0 <= i < DDC_ATTEMPTS && !(#[trigger] attempts[i] is Err);
        lemma_earliest_success(attempts, i);
    }
}

proof fn lemma_earliest_success<T>(attempts: Seq<Result<T, Seq<char>>>, i: int)
    requires
        0 <= i < attempts.len(),
        i < DDC_ATTEMPTS,
        attempts[i] is Ok,
    ensures
        exists|k: int| first_success(attempts, k),
    decreases i,
{
    if forall|j: int| 0 <= j < i ==> #[trigger] attempts[j] is Err {
        assert(first_success(attempts, i));
    } else {
        let j = choose|j: int| 0 <= j < i && !(#[trigger] attempts[j] is Err);
        lemma_earliest_success(attempts, j);
    }
}

/// The handles in the order in which they are tried: the active one first, and
/// round from there. Where there are none, none is tried.
pub open spec fn tried_order(active: int, count: int) -> Seq<usize> {
    Seq::new(count as nat, |offset: int| ((active + offset) % count) as usize)
}

/// The handles in the order in which they are tried.
pub fn handle_order(active: usize, count: usize) -> (r: Vec<usize>)
    requires
        active < count || active + count <= usize::MAX,
    ensures
        r@ == tried_order(active as int, count as int),
        count == 0 ==> r@.len() == 0,
{
    let mut out: Vec<usize> = Vec::new();
    if count == 0 {
        assert(out@ =~= tried_order(active as int, count as int));
        return out;
    }
    let start: usize = active % count;
    for offset in 0..count
        invariant
            start < count,
            start == active % count,
            out@ =~= tried_order(active as int, count as int).take(offset as int),
    {
        let index: usize = if offset < count - start {
            start + offset
        } else {
            offset - (count - start)
        };
        proof {
            vstd::arithmetic::div_mod::lemma_add_mod_noop(
                active as int,
                offset as int,
                count as int,
            );
            vstd::arithmetic::div_mod::lemma_small_mod(offset as nat, count as nat);
            lemma_round(start as int, offset as int, count as int);
        }
        out.push(index);
    }
    assert(out@ =~= tried_order(active as int, count as int));
    out
}

proof fn lemma_round(active: int, offset: int, count: int)
    requires
        0 <= active < count,
        0 <= offset < count,
    ensures
        (active + offset) % count == (if offset < count - active {
            active + offset
        } else {
            offset - (count - active)
        }),
{
    let n = active + offset;
    if n < count {
        vstd::arithmetic::div_mod::lemma_small_mod(n as nat, count as nat);
    } else {
        vstd::arithmetic::div_mod::lemma_mod_add_multiples_vanish(n - count, count);
        vstd::arithmetic::div_mod::lemma_small_mod((n - count) as nat, count as nat);
    }
}

/// Every handle is tried, beginning with the active one, and none is tried
/// twice.
pub proof fn every_handle_is_tried_once(active: int, count: int)
    requires
        0 <= active < count <= usize::MAX,
    ensures
        tried_order(active, count).len() == count,
        tried_order(active, count)[0] == active,
        tried_order(active, count).no_duplicates(),
        forall|i: int|
            0 <= i < count ==> tried_order(active, count).contains(#[trigger] (i as usize)),
{
    let order = tried_order(active, count);
    lemma_round(active, 0, count);
    assert forall|a: int, b: int|
        0 <= a < order.len() && 0 <= b < order.len() && a != b implies order[a] != order[b] by {
        lemma_round(active, a, count);
        lemma_round(active, b, count);
    }
    assert forall|i: int| 0 <= i < count implies order.contains(#[trigger] (i as usize)) by {
        let offset = if i >= active {
            i - active
        } else {
            i + count - active
        };
        lemma_round(active, offset, count);
        assert(order[offset] == i);
    }
}

/// The identifiers of displays.
pub open spec fn display_ids(
    displays: Seq<crate::grouping::ManagedDisplayView>,
) -> Seq<Seq<char>> {
    Seq::new(displays.len(), |i: int| displays[i].snapshot.id)
}

/// What displays last read or wrote.
pub open spec fn snapshots(
    displays: Seq<crate::grouping::ManagedDisplayView>,
) -> Seq<crate::ddc::DdcDisplayView> {
    Seq::new(displays.len(), |i: int| displays[i].snapshot)
}

/// Whether displays can be used: each has its active handle, and no two have
/// the same identifier.
pub open spec fn usable(displays: Seq<crate::grouping::ManagedDisplayView>) -> bool {
    &&& forall|i: int|
        0 <= i < displays.len() ==> (#[trigger] displays[i]).active < displays[i].handles.len()
    &&& display_ids(displays).no_duplicates()
}

/// Displays that were just found can be used.
pub proof fn enumerated_displays_are_usable(candidates: Seq<crate::ddc::DdcCandidateView>)
    ensures
        usable(crate::grouping::grouped(candidates)),
{
    let all = crate::grouping::grouped(candidates);
    assert forall|i: int| 0 <= i < all.len() implies (#[trigger] all[i]).active
        < all[i].handles.len() by {
        crate::grouping::displays_begin_with_their_first_handle(candidates, i);
    }
    assert forall|i: int, j: int|
        0 <= i < all.len() && 0 <= j < all.len() && i != j implies display_ids(all)[i]
        != display_ids(all)[j] by {
        if i < j {
            crate::grouping::display_ids_are_unique(candidates, i, j);
        } else {
            crate::grouping::display_ids_are_unique(candidates, j, i);
        }
    }
}

/// What to do next to read a brightness.
#[derive(Debug)]
pub enum ReadStep {
    /// Read over this transport.
    Read { slot: usize },
    /// Nothing more: this is what came of it.
    Done(Result<DdcDisplay, String>),
}

/// What a `ReadStep` says.
pub enum ReadStepView {
    Read { slot: usize },
    Done(Result<crate::ddc::DdcDisplayView, Seq<char>>),
}

impl View for ReadStep {
    type V = ReadStepView;

    open spec fn view(&self) -> ReadStepView {
        match *self {
            ReadStep::Read { slot } => ReadStepView::Read { slot },
            ReadStep::Done(result) => ReadStepView::Done(crate::model::known(result)),
        }
    }
}

/// What to do next to write a brightness.
#[derive(Debug)]
pub enum WriteStep {
    /// Write this value over this transport.
    Write { slot: usize, value: u16 },
    /// Nothing more: this is what came of it.
    Done(Result<DdcDisplay, String>),
}

/// What a `WriteStep` says.
pub enum WriteStepView {
    Write { slot: usize, value: u16 },
    Done(Result<crate::ddc::DdcDisplayView, Seq<char>>),
}

impl View for WriteStep {
    type V = WriteStepView;

    open spec fn view(&self) -> WriteStepView {
        match *self {
            WriteStep::Write { slot, value } => WriteStepView::Write { slot, value },
            WriteStep::Done(result) => WriteStepView::Done(crate::model::known(result)),
        }
    }
}

/// A display after the handle at `i` has worked.
pub open spec fn refreshed(
    display: crate::grouping::ManagedDisplayView,
    i: int,
    current: u16,
    maximum: u16,
) -> crate::grouping::ManagedDisplayView {
    let handle = ManagedHandle { maximum, ..display.handles[i] };
    crate::grouping::ManagedDisplayView {
        handles: display.handles.update(i, handle),
        active: i as usize,
        snapshot: crate::ddc::DdcDisplayView {
            i2c_bus: handle.i2c_bus,
            current,
            maximum,
            ..display.snapshot
        },
    }
}

/// The message about a handle that has no range.
pub open spec fn no_range(bus: Option<u32>) -> Seq<char> {
    crate::ddc::bus_text(bus) + " reported maximum 0"@
}

/// The message about a handle that could not be used.
pub open spec fn unusable(bus: Option<u32>, error: Seq<char>) -> Seq<char> {
    crate::ddc::bus_text(bus) + ": "@ + error
}

/// What follows when a display is read: `replies` are the readings so far, one
/// for every handle tried; `k` handles have failed, with the messages
/// `failures`.
pub open spec fn read_from(
    display: crate::grouping::ManagedDisplayView,
    id: Seq<char>,
    replies: Seq<Result<VcpValue, Seq<char>>>,
    k: nat,
    failures: Seq<Seq<char>>,
) -> (ReadStepView, crate::grouping::ManagedDisplayView)
    decreases display.handles.len() - k,
{
    let count = display.handles.len();
    let i = tried_order(display.active as int, count as int)[k as int] as int;
    let handle = display.handles[i];
    if k >= count {
        let message = "failed to read DDC brightness for "@ + id + ": "@ + crate::text::joined(
            failures,
            "; "@,
        );
        (ReadStepView::Done(Err(message)), display)
    } else if k >= replies.len() {
        (ReadStepView::Read { slot: handle.slot }, display)
    } else {
        match replies[k as int] {
            Ok(value) => if value.maximum_value() == 0 {
                read_from(display, id, replies, k + 1, failures.push(no_range(handle.i2c_bus)))
            } else {
                let after = refreshed(display, i, value.current_value(), value.maximum_value());
                (ReadStepView::Done(Ok(after.snapshot)), after)
            },
            Err(error) => read_from(
                display,
                id,
                replies,
                k + 1,
                failures.push(unusable(handle.i2c_bus, error)),
            ),
        }
    }
}

/// What follows when the display `id` is read, and what becomes of the
/// displays.
pub open spec fn read_step(
    displays: Seq<crate::grouping::ManagedDisplayView>,
    id: Seq<char>,
    replies: Seq<Result<VcpValue, Seq<char>>>,
) -> (ReadStepView, Seq<crate::grouping::ManagedDisplayView>) {
    match crate::text::first_position(display_ids(displays), id) {
        Some(i) => {
            let (step, display) = read_from(displays[i], id, replies, 0, Seq::empty());
            (step, displays.update(i, display))
        },
        None => (ReadStepView::Done(Err("unknown DDC display "@ + id)), displays),
    }
}

/// What follows when a display is written: `replies` are the outcomes so far,
/// `used` of them stand for the first `k` handles, which have failed with the
/// messages `failures`. Handles without a range are passed over.
pub open spec fn write_from(
    display: crate::grouping::ManagedDisplayView,
    id: Seq<char>,
    percent: u16,
    replies: Seq<Result<(), Seq<char>>>,
    k: nat,
    used: nat,
    failures: Seq<Seq<char>>,
) -> (WriteStepView, crate::grouping::ManagedDisplayView)
    decreases display.handles.len() - k,
{
    let count = display.handles.len();
    let i = tried_order(display.active as int, count as int)[k as int] as int;
    let handle = display.handles[i];
    let value = crate::ddc::scaled(percent, handle.maximum);
    if k >= count {
        let message = "failed to set DDC brightness for "@ + id + ": "@ + crate::text::joined(
            failures,
            "; "@,
        );
        (WriteStepView::Done(Err(message)), display)
    } else if handle.maximum == 0 {
        write_from(
            display,
            id,
            percent,
            replies,
            k + 1,
            used,
            failures.push(no_range(handle.i2c_bus)),
        )
    } else if used >= replies.len() {
        (WriteStepView::Write { slot: handle.slot, value }, display)
    } else {
        match replies[used as int] {
            Ok(_) => {
                let after = refreshed(display, i, value, handle.maximum);
                (WriteStepView::Done(Ok(after.snapshot)), after)
            },
            Err(error) => write_from(
                display,
                id,
                percent,
                replies,
                k + 1,
                used + 1,
                failures.push(unusable(handle.i2c_bus, error)),
            ),
        }
    }
}

/// What follows when the display `id` is set to a percentage, and what becomes
/// of the displays.
pub open spec fn write_step(
    displays: Seq<crate::grouping::ManagedDisplayView>,
    id: Seq<char>,
    percent: u16,
    replies: Seq<Result<(), Seq<char>>>,
) -> (WriteStepView, Seq<crate::grouping::ManagedDisplayView>) {
    if percent > 100 {
        (
            WriteStepView::Done(
                Err(
                    "DDC brightness must be between 0 and 100, got "@ + crate::text::decimal(
                        percent as nat,
                    ),
                ),
            ),
            displays,
        )
    } else {
        match crate::text::first_position(display_ids(displays), id) {
            Some(i) => {
                let (step, display) = write_from(
                    displays[i],
                    id,
                    percent,
                    replies,
                    0,
                    0,
                    Seq::empty(),
                );
                (step, displays.update(i, display))
            },
            None => (WriteStepView::Done(Err("unknown DDC display "@ + id)), displays),
        }
    }
}

/// Persistent collection of DDC displays and the handles that lead to them.
///
/// Enumeration is deliberately tolerant: a machine without I2C devices,
/// permissions, or DDC-capable monitors produces an empty backend.
#[derive(Debug)]
pub struct DdcBackend {
    displays: Vec<ManagedDisplay>,
}

impl View for DdcBackend {
    type V = Seq<crate::grouping::ManagedDisplayView>;

    closed spec fn view(&self) -> Seq<crate::grouping::ManagedDisplayView> {
        crate::model::views(self.displays@)
    }
}

impl DdcBackend {
    /// The displays that the probes of all open transports give.
    pub fn enumerate(listings: &Vec<ConnectorListing>, probes: &Vec<Probe>) -> (r: Self)
        requires
            probes@.len() + 2 <= u32::MAX,
        ensures
            r@ == crate::grouping::grouped(
                crate::ddc::candidates_of(crate::drm::connectors_described(listings@), probes@),
            ),
            usable(r@),
    {
        let connectors = scan_drm_connectors(listings);
        let found = candidates(&connectors, probes);
        let ghost candidates = crate::model::views(found@);
        let displays = group_candidates(found);
        proof {
            enumerated_displays_are_usable(candidates);
        }
        DdcBackend { displays }
    }

    /// Return the most recent snapshot without performing I/O.
    pub fn displays(&self) -> (r: Vec<DdcDisplay>)
        ensures
            crate::model::views(r@) == snapshots(self@),
    {
        let mut out: Vec<DdcDisplay> = Vec::new();
        for i in 0..self.displays.len()
            invariant
                crate::model::views(out@) =~= snapshots(self@).take(i as int),
        {
            assert(self@[i as int] == self.displays@[i as int]@);
            let snapshot = self.displays[i].snapshot.clone();
            proof {
                crate::model::views_push(out@, snapshot);
            }
            out.push(snapshot);
        }
        assert(crate::model::views(out@) =~= snapshots(self@));
        out
    }

    /// Replaces the displays by those that a new enumeration gives.
    pub fn refresh(
        &mut self,
        listings: &Vec<ConnectorListing>,
        probes: &Vec<Probe>,
    ) -> (r: Vec<DdcDisplay>)
        requires
            probes@.len() + 2 <= u32::MAX,
        ensures
            final(self)@ == crate::grouping::grouped(
                crate::ddc::candidates_of(crate::drm::connectors_described(listings@), probes@),
            ),
            usable(final(self)@),
            crate::model::views(r@) == snapshots(final(self)@),
    {
        *self = DdcBackend::enumerate(listings, probes);
        self.displays()
    }

    /// The position of the display with this identifier.
    fn position(&self, id: &str) -> (r: Option<usize>)
        ensures
            match r {
                Some(i) => crate::text::first_position(display_ids(self@), id@) == Some(i as int) && i
                    < self@.len(),
                None => crate::text::first_position(display_ids(self@), id@) is None,
            },
    {
        let ghost ids = display_ids(self@);
        for i in 0..self.displays.len()
            invariant
                ids == display_ids(self@),
                forall|j: int| 0 <= j < i ==> #[trigger] ids[j] != id@,
        {
            assert(self@[i as int] == self.displays@[i as int]@);
            assert(ids[i as int] == self.displays@[i as int].snapshot.id@);
            if same_text(self.displays[i].snapshot.id.as_str(), id) {
                proof {
                    crate::text::first_position_is_first(ids, id@, i as int);
                }
                return Some(i);
            }
        }
        proof {
            crate::text::first_position_exists(ids, id@);
        }
        None
    }

    /// What a working handle leaves behind.
    fn keep(&mut self, at: usize, index: usize, current: u16, maximum: u16) -> (r: DdcDisplay)
        requires
            at < old(self)@.len(),
            index < old(self)@[at as int].handles.len(),
        ensures
            final(self)@ == old(self)@.update(
                at as int,
                refreshed(old(self)@[at as int], index as int, current, maximum),
            ),
            r@ == final(self)@[at as int].snapshot,
    {
        let ghost before = self@;
        assert(before[at as int] == self.displays@[at as int]@);
        let mut handle: ManagedHandle = self.displays[at].handles[index];
        handle.maximum = maximum;
        self.displays[at].handles.set(index, handle);
        self.displays[at].active = index;
        self.displays[at].snapshot.i2c_bus = handle.i2c_bus;
        self.displays[at].snapshot.current = current;
        self.displays[at].snapshot.maximum = maximum;
        proof {
            let after = refreshed(before[at as int], index as int, current, maximum);
            assert(self.displays@[at as int]@ =~= after);
            assert(self@ =~= before.update(at as int, after));
        }
        self.displays[at].snapshot.clone()
    }

    /// The next step of re-reading VCP feature `0x10` and updating the cached
    /// snapshot, after the given readings.
    pub fn get_brightness(
        &mut self,
        id: &str,
        replies: &Vec<Result<VcpValue, String>>,
    ) -> (r: ReadStep)
        requires
            usable(old(self)@),
        ensures
            (r@, final(self)@) == read_step(
                old(self)@,
                id@,
                crate::model::all_heard(replies@),
            ),
            usable(final(self)@),
    {
        proof {
            accesses_leave_other_displays_alone(
                self@,
                id@,
                0,
                crate::model::all_heard(replies@),
                Seq::empty(),
            );
        }
        let at = match self.position(id) {
            Some(at) => at,
            None => return ReadStep::Done(Err("unknown DDC display ".to_owned().concat(id))),
        };
        let ghost heard = crate::model::all_heard(replies@);
        let ghost display = self@[at as int];
        assert(display == self.displays@[at as int]@);
        assert(self@.update(at as int, display) =~= self@);
        let count = self.displays[at].handles.len();
        let order = handle_order(self.displays[at].active, count);
        let mut failures: Vec<String> = Vec::new();
        assert(crate::model::views(failures@) =~= Seq::<Seq<char>>::empty());
        for k in 0..order.len()
            invariant
                self@ == old(self)@,
                usable(self@),
                usable(read_step(self@, id@, heard).1),
                at < self@.len(),
                display == self@[at as int],
                display == self.displays@[at as int]@,
                self@.update(at as int, display) == self@,
                count == display.handles.len(),
                display.active < count,
                order@ == tried_order(display.active as int, count as int),
                heard == crate::model::all_heard(replies@),
                crate::text::first_position(display_ids(self@), id@) == Some(at as int),
                read_from(display, id@, heard, 0, Seq::empty()) == read_from(
                    display,
                    id@,
                    heard,
                    k as nat,
                    crate::model::views(failures@),
                ),
        {
            let index = order[k];
            proof {
                lemma_round(display.active as int, k as int, count as int);
            }
            let handle: ManagedHandle = self.displays[at].handles[index];
            if k >= replies.len() {
                return ReadStep::Read { slot: handle.slot };
            }
            assert(heard[k as int] == crate::model::heard(replies@[k as int]));
            let failure = match &replies[k] {
                Ok(value) => {
                    let maximum = value.maximum();
                    if maximum != 0 {
                        let current = value.current();
                        return ReadStep::Done(Ok(self.keep(at, index, current, maximum)));
                    }
                    bus_label(handle.i2c_bus).concat(" reported maximum 0")
                },
                Err(error) => bus_label(handle.i2c_bus).concat(": ").concat(error.as_str()),
            };
            proof {
                crate::model::views_push(failures@, failure);
            }
            failures.push(failure);
        }
        ReadStep::Done(
            Err(
                "failed to read DDC brightness for ".to_owned().concat(id).concat(": ").concat(
                    join(&failures, "; ").as_str(),
                ),
            ),
        )
    }

    /// The next step of setting the brightness as a percentage in the inclusive
    /// range `0..=100`, after the given outcomes of writing.
    ///
    /// The percentage is scaled to the monitor's raw VCP maximum.
    pub fn set_brightness(
        &mut self,
        id: &str,
        percent: u16,
        replies: &Vec<Result<(), String>>,
    ) -> (r: WriteStep)
        requires
            usable(old(self)@),
        ensures
            (r@, final(self)@) == write_step(
                old(self)@,
                id@,
                percent,
                crate::model::all_heard(replies@),
            ),
            usable(final(self)@),
    {
        proof {
            accesses_leave_other_displays_alone(
                self@,
                id@,
                percent,
                Seq::empty(),
                crate::model::all_heard(replies@),
            );
        }
        if percent > 100 {
            return WriteStep::Done(
                Err(
                    "DDC brightness must be between 0 and 100, got ".to_owned().concat(
                        decimal_text(percent as u64).as_str(),
                    ),
                ),
            );
        }
        let at = match self.position(id) {
            Some(at) => at,
            None => return WriteStep::Done(Err("unknown DDC display ".to_owned().concat(id))),
        };
        let ghost heard = crate::model::all_heard(replies@);
        let ghost display = self@[at as int];
        assert(display == self.displays@[at as int]@);
        assert(self@.update(at as int, display) =~= self@);
        let count = self.displays[at].handles.len();
        let order = handle_order(self.displays[at].active, count);
        let mut failures: Vec<String> = Vec::new();
        let mut used: usize = 0;
        assert(crate::model::views(failures@) =~= Seq::<Seq<char>>::empty());
        for k in 0..order.len()
            invariant
                self@ == old(self)@,
                usable(self@),
                usable(write_step(self@, id@, percent, heard).1),
                at < self@.len(),
                percent <= 100,
                display == self@[at as int],
                display == self.displays@[at as int]@,
                self@.update(at as int, display) == self@,
                count == display.handles.len(),
                display.active < count,
                order@ == tried_order(display.active as int, count as int),
                heard == crate::model::all_heard(replies@),
                used <= k,
                crate::text::first_position(display_ids(self@), id@) == Some(at as int),
                write_from(display, id@, percent, heard, 0, 0, Seq::empty()) == write_from(
                    display,
                    id@,
                    percent,
                    heard,
                    k as nat,
                    used as nat,
                    crate::model::views(failures@),
                ),
        {
            let index = order[k];
            proof {
                lemma_round(display.active as int, k as int, count as int);
            }
            let handle: ManagedHandle = self.displays[at].handles[index];
            let maximum: u16 = handle.maximum;
            let failure = if maximum == 0 {
                bus_label(handle.i2c_bus).concat(" reported maximum 0")
            } else {
                let value = scaled_value(percent, maximum);
                if used >= replies.len() {
                    return WriteStep::Write { slot: handle.slot, value };
                }
                assert(heard[used as int] == crate::model::heard(replies@[used as int]));
                match &replies[used] {
                    Ok(_) => {
                        return WriteStep::Done(Ok(self.keep(at, index, value, maximum)));
                    },
                    Err(error) => {
                        used = used + 1;
                        bus_label(handle.i2c_bus).concat(": ").concat(error.as_str())
                    },
                }
            };
            proof {
                crate::model::views_push(failures@, failure);
            }
            failures.push(failure);
        }
        WriteStep::Done(
            Err(
                "failed to set DDC brightness for ".to_owned().concat(id).concat(": ").concat(
                    join(&failures, "; ").as_str(),
                ),
            ),
        )
    }
}

/// The raw value nearest to a percentage of the maximum.
pub(crate) fn scaled_value(percent: u16, maximum: u16) -> (r: u16)
    requires
        percent <= 100,
    ensures
        r == crate::ddc::scaled(percent, maximum),
{
    assert(percent * maximum <= 100 * maximum) by (nonlinear_arith)
        requires
            percent <= 100,
    ;
    let n: u32 = percent as u32 * maximum as u32;
    ((n + 50) / 100) as u16
}

/// How many of the first `k` handles tried have a range.
pub open spec fn with_range(display: crate::grouping::ManagedDisplayView, k: nat) -> nat
    decreases k,
{
    if k == 0 {
        0
    } else {
        let i = tried_order(display.active as int, display.handles.len() as int)[k - 1] as int;
        if display.handles[i].maximum == 0 {
            with_range(display, (k - 1) as nat)
        } else {
            with_range(display, (k - 1) as nat) + 1
        }
    }
}

proof fn lemma_with_range_grows(display: crate::grouping::ManagedDisplayView, a: nat, b: nat)
    requires
        a <= b,
    ensures
        with_range(display, a) <= with_range(display, b),
    decreases b,
{
    if a < b {
        lemma_with_range_grows(display, a, (b - 1) as nat);
    }
}

proof fn lemma_read_from(
    display: crate::grouping::ManagedDisplayView,
    id: Seq<char>,
    replies: Seq<Result<VcpValue, Seq<char>>>,
    k: nat,
    failures: Seq<Seq<char>>,
)
    requires
        display.active < display.handles.len(),
        k <= display.handles.len(),
        forall|j: int|
            0 <= j < k && j < replies.len() ==> {
                ||| #[trigger] replies[j] is Err
                ||| replies[j]->Ok_0.maximum_value() == 0
            },
        k <= replies.len(),
    ensures
        ({
            let (step, after) = read_from(display, id, replies, k, failures);
            &&& after.active < after.handles.len()
            &&& after.handles.len() == display.handles.len()
            &&& after.snapshot.id == display.snapshot.id
            &&& after.snapshot.name == display.snapshot.name
            &&& after.snapshot.connector == display.snapshot.connector
            &&& step is Read ==> after == display && replies.len() < display.handles.len()
            &&& step matches ReadStepView::Done(Err(_)) ==> {
                &&& after == display
                &&& display.handles.len() <= replies.len()
                &&& forall|j: int|
                    0 <= j < display.handles.len() ==> {
                        ||| #[trigger] replies[j] is Err
                        ||| replies[j]->Ok_0.maximum_value() == 0
                    }
            }
            &&& step matches ReadStepView::Done(Ok(shown)) ==> {
                &&& shown == after.snapshot
                &&& shown.maximum > 0
                &&& shown.i2c_bus == after.handles[after.active as int].i2c_bus
                &&& shown.maximum == after.handles[after.active as int].maximum
            }
        }),
    decreases display.handles.len() - k,
{
    let count = display.handles.len();
    if k < count && k < replies.len() {
        lemma_round(display.active as int, k as int, count as int);
        let i = tried_order(display.active as int, count as int)[k as int] as int;
        let bus = display.handles[i].i2c_bus;
        match replies[k as int] {
            Ok(value) => if value.maximum_value() == 0 {
                lemma_read_from(display, id, replies, k + 1, failures.push(no_range(bus)));
            },
            Err(error) => {
                lemma_read_from(display, id, replies, k + 1, failures.push(unusable(bus, error)));
            },
        }
    }
}

proof fn lemma_write_from(
    display: crate::grouping::ManagedDisplayView,
    id: Seq<char>,
    percent: u16,
    replies: Seq<Result<(), Seq<char>>>,
    k: nat,
    used: nat,
    failures: Seq<Seq<char>>,
)
    requires
        display.active < display.handles.len(),
        k <= display.handles.len(),
        used == with_range(display, k),
        used <= replies.len(),
        forall|j: int| 0 <= j < used ==> #[trigger] replies[j] is Err,
    ensures
        ({
            let (step, after) = write_from(display, id, percent, replies, k, used, failures);
            let needed = with_range(display, display.handles.len());
            &&& after.active < after.handles.len()
            &&& after.handles == display.handles
            &&& after.snapshot.id == display.snapshot.id
            &&& after.snapshot.name == display.snapshot.name
            &&& after.snapshot.connector == display.snapshot.connector
            &&& step is Write ==> after == display && replies.len() < needed
            &&& step matches WriteStepView::Done(Err(_)) ==> {
                &&& after == display
                &&& needed <= replies.len()
                &&& forall|j: int| 0 <= j < needed ==> #[trigger] replies[j] is Err
            }
            &&& step matches WriteStepView::Done(Ok(shown)) ==> {
                &&& shown == after.snapshot
                &&& shown.maximum > 0
                &&& shown.current == crate::ddc::scaled(percent, shown.maximum)
                &&& shown.i2c_bus == after.handles[after.active as int].i2c_bus
                &&& shown.maximum == after.handles[after.active as int].maximum
            }
        }),
    decreases display.handles.len() - k,
{
    let count = display.handles.len();
    if k < count {
        lemma_round(display.active as int, k as int, count as int);
        let i = tried_order(display.active as int, count as int)[k as int] as int;
        let handle = display.handles[i];
        lemma_with_range_grows(display, k + 1, count);
        if handle.maximum == 0 {
            lemma_write_from(
                display,
                id,
                percent,
                replies,
                k + 1,
                used,
                failures.push(no_range(handle.i2c_bus)),
            );
        } else if used < replies.len() {
            match replies[used as int] {
                Ok(_) => {
                    assert(ManagedHandle { maximum: handle.maximum, ..handle } == handle);
                    assert(display.handles.update(i, handle) =~= display.handles);
                },
                Err(error) => {
                    lemma_write_from(
                        display,
                        id,
                        percent,
                        replies,
                        k + 1,
                        used + 1,
                        failures.push(unusable(handle.i2c_bus, error)),
                    );
                },
            }
        }
    }
}

/// Reading falls back on every handle: it fails only after all of them have
/// failed or have reported no range, and then nothing has changed. It asks for
/// no more readings than there are handles. A reading that succeeds shows what
/// the handle now in use reported.
pub proof fn reading_falls_back(
    displays: Seq<crate::grouping::ManagedDisplayView>,
    id: Seq<char>,
    replies: Seq<Result<VcpValue, Seq<char>>>,
    at: int,
)
    requires
        usable(displays),
        crate::text::first_position(display_ids(displays), id) == Some(at),
    ensures
        ({
            let (step, after) = read_step(displays, id, replies);
            let handles = displays[at].handles;
            &&& step is Read ==> after == displays && replies.len() < handles.len()
            &&& step matches ReadStepView::Done(Err(_)) ==> {
                &&& after == displays
                &&& handles.len() <= replies.len()
                &&& forall|j: int|
                    0 <= j < handles.len() ==> {
                        ||| #[trigger] replies[j] is Err
                        ||| replies[j]->Ok_0.maximum_value() == 0
                    }
            }
            &&& step matches ReadStepView::Done(Ok(shown)) ==> {
                &&& shown == after[at].snapshot
                &&& shown.id == id
                &&& shown.i2c_bus == after[at].handles[after[at].active as int].i2c_bus
                &&& shown.maximum == after[at].handles[after[at].active as int].maximum
            }
        }),
{
    crate::text::first_position_exists(display_ids(displays), id);
    lemma_read_from(displays[at], id, replies, 0, Seq::empty());
    assert(displays.update(at, displays[at]) =~= displays);
    assert(display_ids(displays)[at] == displays[at].snapshot.id);
}

/// Writing falls back on every handle: it fails only after all handles with a
/// range have failed, and then nothing has changed. It asks for no more writes
/// than there are such handles. A write that succeeds shows the level that was
/// sent. What the display is called, and which handles lead to it, stays.
pub proof fn writing_falls_back(
    displays: Seq<crate::grouping::ManagedDisplayView>,
    id: Seq<char>,
    percent: u16,
    replies: Seq<Result<(), Seq<char>>>,
    at: int,
)
    requires
        usable(displays),
        percent <= 100,
        crate::text::first_position(display_ids(displays), id) == Some(at),
    ensures
        ({
            let (step, after) = write_step(displays, id, percent, replies);
            let needed = with_range(displays[at], displays[at].handles.len());
            &&& step is Write ==> after == displays && replies.len() < needed
            &&& step matches WriteStepView::Done(Err(_)) ==> {
                &&& after == displays
                &&& needed <= replies.len()
                &&& forall|j: int| 0 <= j < needed ==> #[trigger] replies[j] is Err
            }
            &&& step matches WriteStepView::Done(Ok(shown)) ==> {
                &&& shown == after[at].snapshot
                &&& shown.id == id
                &&& shown.current == crate::ddc::scaled(percent, shown.maximum)
                &&& shown.i2c_bus == after[at].handles[after[at].active as int].i2c_bus
                &&& shown.maximum == after[at].handles[after[at].active as int].maximum
            }
            &&& after[at].active < after[at].handles.len()
            &&& after[at].handles == displays[at].handles
            &&& after[at].snapshot.name == displays[at].snapshot.name
            &&& after[at].snapshot.connector == displays[at].snapshot.connector
        }),
{
    crate::text::first_position_exists(display_ids(displays), id);
    lemma_write_from(displays[at], id, percent, replies, 0, 0, Seq::empty());
    assert(displays.update(at, displays[at]) =~= displays);
    assert(display_ids(displays)[at] == displays[at].snapshot.id);
}

proof fn lemma_one_changed(
    displays: Seq<crate::grouping::ManagedDisplayView>,
    at: int,
    display: crate::grouping::ManagedDisplayView,
)
    requires
        usable(displays),
        0 <= at < displays.len(),
        display.active < display.handles.len(),
        display.snapshot.id == displays[at].snapshot.id,
    ensures
        usable(displays.update(at, display)),
        display_ids(displays.update(at, display)) == display_ids(displays),
{
    assert(display_ids(displays.update(at, display)) =~= display_ids(displays));
}

/// Whatever came of an access, the displays stay usable, keep their
/// identifiers, and all but the one accessed stay as they were.
pub proof fn accesses_leave_other_displays_alone(
    displays: Seq<crate::grouping::ManagedDisplayView>,
    id: Seq<char>,
    percent: u16,
    readings: Seq<Result<VcpValue, Seq<char>>>,
    writes: Seq<Result<(), Seq<char>>>,
)
    requires
        usable(displays),
    ensures
        ({
            let read = read_step(displays, id, readings).1;
            let written = write_step(displays, id, percent, writes).1;
            &&& usable(read)
            &&& usable(written)
            &&& display_ids(read) == display_ids(displays)
            &&& display_ids(written) == display_ids(displays)
            &&& forall|j: int|
                0 <= j < displays.len() && (#[trigger] displays[j]).snapshot.id != id ==> read[j]
                    == displays[j] && written[j] == displays[j]
        }),
{
    crate::text::first_position_exists(display_ids(displays), id);
    if let Some(at) = crate::text::first_position(display_ids(displays), id) {
        lemma_read_from(displays[at], id, readings, 0, Seq::empty());
        lemma_one_changed(
            displays,
            at,
            read_from(displays[at], id, readings, 0, Seq::empty()).1,
        );
        lemma_write_from(displays[at], id, percent, writes, 0, 0, Seq::empty());
        lemma_one_changed(
            displays,
            at,
            write_from(displays[at], id, percent, writes, 0, 0, Seq::empty()).1,
        );
        assert(display_ids(displays)[at] == displays[at].snapshot.id);
    }
}

/// An access is tried again while it fails, up to three times, at once and then
/// after 50 ms each. The first success is the result, and after three failures
/// the message of the third one.
pub proof fn accesses_are_tried_three_times<T>(
    attempts: Seq<Result<T, Seq<char>>>,
    failure: Seq<char>,
    n: int,
)
    requires
        0 <= n <= 3,
        n <= attempts.len(),
        forall|j: int| 0 <= j < n ==> (#[trigger] attempts[j]) is Err,
    ensures
        n == 0 && attempts.len() == 0 ==> retried(attempts, failure) == (VcpStepView::<T>::Attempt {
            delay_ms: 0,
        }),
        0 < n < 3 && attempts.len() == n ==> retried(attempts, failure) == (
        VcpStepView::<T>::Attempt { delay_ms: 50 }),
        n < 3 && n < attempts.len() ==> (attempts[n] matches Ok(value) ==> retried(
            attempts,
            failure,
        ) == VcpStepView::<T>::Done(Ok(value))),
        n == 3 ==> retried(attempts, failure) == VcpStepView::<T>::Done(
            Err(failure + attempts[2]->Err_0),
        ),
{
    if n == 3 || n == attempts.len() {
        lemma_no_success(attempts, n);
    } else if attempts[n] is Ok {
        assert(first_success(attempts, n));
        lemma_first_success(attempts, n);
    }
}

/// Handles are tried in their order from the active one on, and round from
/// there.
pub proof fn handles_are_tried_in_turn(active: int, count: int, k: int)
    requires
        0 <= active < count <= usize::MAX,
        0 <= k < count,
    ensures
        active + k < count ==> tried_order(active, count)[k] == active + k,
        active + k >= count ==> tried_order(active, count)[k] == active + k - count,
{
    lemma_round(active, k, count);
}

/// Which handle is tried after `k` others.
spec fn turn_of(display: crate::grouping::ManagedDisplayView, k: int) -> int {
    if display.active + k < display.handles.len() {
        display.active + k
    } else {
        display.active + k - display.handles.len()
    }
}

/// What is said of a handle that could not be read.
pub open spec fn read_failure(bus: Option<u32>, reply: Result<VcpValue, Seq<char>>) -> Seq<char> {
    let place = match bus {
        Some(number) => "i2c-"@ + crate::text::decimal(number as nat),
        None => "unknown-bus"@,
    };
    match reply {
        Ok(_) => place + " reported maximum 0"@,
        Err(error) => place + ": "@ + error,
    }
}

proof fn lemma_read_reaches(
    display: crate::grouping::ManagedDisplayView,
    id: Seq<char>,
    replies: Seq<Result<VcpValue, Seq<char>>>,
    j: nat,
    k: nat,
    failures: Seq<Seq<char>>,
) -> (f: Seq<Seq<char>>)
    requires
        display.active < display.handles.len() <= usize::MAX,
        j <= k <= display.handles.len(),
        k <= replies.len(),
        failures.len() == j,
        forall|m: int|
            0 <= m < k ==> (#[trigger] replies[m]) is Err || replies[m]->Ok_0.maximum_value() == 0,
    ensures
        read_from(display, id, replies, j, failures) == read_from(display, id, replies, k, f),
        f.len() == k,
        forall|m: int| 0 <= m < j ==> #[trigger] f[m] == failures[m],
        forall|m: int|
            j <= m < k ==> #[trigger] f[m] == read_failure(
                display.handles[turn_of(display, m)].i2c_bus,
                replies[m],
            ),
    decreases k - j,
{
    if j == k {
        failures
    } else {
        let count = display.handles.len();
        handles_are_tried_in_turn(display.active as int, count as int, j as int);
        let bus = display.handles[turn_of(display, j as int)].i2c_bus;
        assert(replies[j as int] is Err || replies[j as int]->Ok_0.maximum_value() == 0);
        let next = failures.push(read_failure(bus, replies[j as int]));
        let f = lemma_read_reaches(display, id, replies, j + 1, k, next);
        assert forall|m: int| 0 <= m < j implies #[trigger] f[m] == failures[m] by {
            assert(f[m] == next[m]);
        }
        assert(f[j as int] == next[j as int]);
        f
    }
}

proof fn lemma_position(
    displays: Seq<crate::grouping::ManagedDisplayView>,
    id: Seq<char>,
    at: int,
)
    requires
        usable(displays),
        0 <= at < displays.len(),
        displays[at].snapshot.id == id,
    ensures
        crate::text::first_position(display_ids(displays), id) == Some(at),
        displays.update(at, displays[at]) == displays,
{
    let ids = display_ids(displays);
    assert(ids[at] == id);
    assert forall|j: int| 0 <= j < at implies #[trigger] ids[j] != id by {
        assert(ids[j] != ids[at]);
    }
    crate::text::first_position_is_first(ids, id, at);
    assert(displays.update(at, displays[at]) =~= displays);
}

/// Reading tries one handle after the other, from the active one on. The first
/// one that answers with a range is used from then on, and what it has said is
/// shown; its display is the same otherwise. Where none answers, the message
/// names all of them and nothing changes.
pub proof fn reading_takes_the_first_answer(
    displays: Seq<crate::grouping::ManagedDisplayView>,
    id: Seq<char>,
    replies: Seq<Result<VcpValue, Seq<char>>>,
    at: int,
    k: int,
) -> (failures: Seq<Seq<char>>)
    requires
        usable(displays),
        0 <= at < displays.len(),
        displays[at].snapshot.id == id,
        displays[at].handles.len() <= usize::MAX,
        0 <= k <= displays[at].handles.len(),
        k <= replies.len(),
        forall|m: int|
            0 <= m < k ==> (#[trigger] replies[m]) is Err || replies[m]->Ok_0.maximum_value() == 0,
    ensures
        ({
            let display = displays[at];
            let count = display.handles.len();
            let (step, after) = read_step(displays, id, replies);
            let i = if display.active + k < count {
                display.active + k
            } else {
                display.active + k - count
            };
            &&& k < count && replies.len() == k ==> after == displays && step == (
            ReadStepView::Read { slot: display.handles[i].slot })
            &&& k < count && replies.len() > k && replies[k] is Ok
                && replies[k]->Ok_0.maximum_value() > 0 ==> {
                let value = replies[k]->Ok_0;
                &&& after == displays.update(at, after[at])
                &&& after[at].active == i
                &&& after[at].handles == display.handles.update(i, after[at].handles[i])
                &&& after[at].handles[i] == (ManagedHandle {
                    maximum: value.maximum_value(),
                    ..display.handles[i]
                })
                &&& step == ReadStepView::Done(Ok(after[at].snapshot))
                &&& after[at].snapshot == (crate::ddc::DdcDisplayView {
                    current: value.current_value(),
                    maximum: value.maximum_value(),
                    i2c_bus: display.handles[i].i2c_bus,
                    ..display.snapshot
                })
            }
            &&& k == count ==> {
                &&& after == displays
                &&& step == ReadStepView::Done(
                    Err(
                        "failed to read DDC brightness for "@ + id + ": "@ + crate::text::joined(
                            failures,
                            "; "@,
                        ),
                    ),
                )
                &&& failures.len() == count
                &&& forall|m: int|
                    0 <= m < count ==> #[trigger] failures[m] == read_failure(
                        display.handles[if display.active + m < count {
                            display.active + m
                        } else {
                            display.active + m - count
                        }].i2c_bus,
                        replies[m],
                    )
            }
        }),
{
    lemma_position(displays, id, at);
    let display = displays[at];
    let count = display.handles.len();
    let failures = lemma_read_reaches(display, id, replies, 0, k as nat, Seq::empty());
    if k < count {
        handles_are_tried_in_turn(display.active as int, count as int, k);
    } else {
        assert forall|m: int| 0 <= m < count implies #[trigger] failures[m] == read_failure(
            display.handles[if display.active + m < count {
                display.active + m
            } else {
                display.active + m - count
            }].i2c_bus,
            replies[m],
        ) by {
            assert(turn_of(display, m) == (if display.active + m < count {
                display.active + m
            } else {
                display.active + m - count
            }));
        }
    }
    failures
}

/// Every handle has its turn where all of them have a range.
pub proof fn handles_with_a_range_are_all_tried(
    display: crate::grouping::ManagedDisplayView,
    k: nat,
)
    requires
        display.active < display.handles.len() <= usize::MAX,
        k <= display.handles.len(),
    ensures
        with_range(display, k) <= k,
        (forall|m: int|
            0 <= m < display.handles.len() ==> (#[trigger] display.handles[m]).maximum > 0)
            ==> with_range(display, k) == k,
        (forall|m: int|
            0 <= m < display.handles.len() ==> (#[trigger] display.handles[m]).maximum == 0)
            ==> with_range(display, k) == 0,
    decreases k,
{
    if k > 0 {
        handles_with_a_range_are_all_tried(display, (k - 1) as nat);
        handles_are_tried_in_turn(
            display.active as int,
            display.handles.len() as int,
            k as int - 1,
        );
        let i = tried_order(display.active as int, display.handles.len() as int)[k - 1] as int;
        assert(0 <= i < display.handles.len());
        assert(display.handles[i].maximum >= 0);
    }
}

proof fn lemma_write_reaches(
    display: crate::grouping::ManagedDisplayView,
    id: Seq<char>,
    percent: u16,
    replies: Seq<Result<(), Seq<char>>>,
    j: nat,
    k: nat,
    failures: Seq<Seq<char>>,
) -> (f: Seq<Seq<char>>)
    requires
        display.active < display.handles.len() <= usize::MAX,
        j <= k <= display.handles.len(),
        with_range(display, k) <= replies.len(),
        forall|m: int| 0 <= m < with_range(display, k) ==> (#[trigger] replies[m]) is Err,
        failures.len() == j,
    ensures
        write_from(display, id, percent, replies, j, with_range(display, j), failures)
            == write_from(display, id, percent, replies, k, with_range(display, k), f),
        f.len() == k,
        forall|m: int| 0 <= m < j ==> #[trigger] f[m] == failures[m],
        forall|m: int|
            j <= m < k ==> #[trigger] f[m] == write_failure(
                display.handles[turn_of(display, m)],
                replies[with_range(display, m as nat) as int],
            ),
    decreases k - j,
{
    if j == k {
        failures
    } else {
        let count = display.handles.len();
        handles_are_tried_in_turn(display.active as int, count as int, j as int);
        lemma_with_range_grows(display, j + 1, k);
        let handle = display.handles[turn_of(display, j as int)];
        let used = with_range(display, j) as int;
        if handle.maximum > 0 {
            assert(replies[used] is Err);
        }
        let next = failures.push(write_failure(handle, replies[used]));
        let f = lemma_write_reaches(display, id, percent, replies, j + 1, k, next);
        assert forall|m: int| 0 <= m < j implies #[trigger] f[m] == failures[m] by {
            assert(f[m] == next[m]);
        }
        assert(f[j as int] == next[j as int]);
        f
    }
}

/// What is said of a handle that could not be written.
pub open spec fn write_failure(handle: ManagedHandle, reply: Result<(), Seq<char>>) -> Seq<char> {
    let place = match handle.i2c_bus {
        Some(number) => "i2c-"@ + crate::text::decimal(number as nat),
        None => "unknown-bus"@,
    };
    if handle.maximum == 0 {
        place + " reported maximum 0"@
    } else {
        place + ": "@ + reply->Err_0
    }
}

/// Writing tries one handle with a range after the other, from the active one
/// on, with the level of its range that is nearest to the percentage. The first
/// one that takes it is used from then on, and that level is shown; its display
/// is the same otherwise. Where none takes it, the message names all of them and
/// nothing changes.
pub proof fn writing_takes_the_first_handle_that_works(
    displays: Seq<crate::grouping::ManagedDisplayView>,
    id: Seq<char>,
    percent: u16,
    replies: Seq<Result<(), Seq<char>>>,
    at: int,
    k: int,
) -> (failures: Seq<Seq<char>>)
    requires
        usable(displays),
        0 <= at < displays.len(),
        displays[at].snapshot.id == id,
        displays[at].handles.len() <= usize::MAX,
        percent <= 100,
        0 <= k <= displays[at].handles.len(),
        with_range(displays[at], k as nat) <= replies.len(),
        forall|m: int|
            0 <= m < with_range(displays[at], k as nat) ==> (#[trigger] replies[m]) is Err,
    ensures
        ({
            let display = displays[at];
            let count = display.handles.len();
            let used = with_range(display, k as nat);
            let (step, after) = write_step(displays, id, percent, replies);
            let i = if display.active + k < count {
                display.active + k
            } else {
                display.active + k - count
            };
            let maximum = display.handles[i].maximum;
            &&& k < count && maximum > 0 && replies.len() == used ==> after == displays && {
                &&& step matches WriteStepView::Write { slot, value }
                &&& slot == display.handles[i].slot
                &&& value <= maximum
                &&& crate::binary64::gap(100 * value, percent * maximum) <= 50
                &&& value == (percent * maximum + 50) / 100
            }
            &&& k < count && maximum > 0 && replies.len() > used && replies[used as int] is Ok
                ==> {
                let shown = after[at].snapshot;
                &&& after == displays.update(at, after[at])
                &&& after[at].active == i
                &&& after[at].handles == display.handles
                &&& step == WriteStepView::Done(Ok(shown))
                &&& shown == (crate::ddc::DdcDisplayView {
                    current: shown.current,
                    maximum,
                    i2c_bus: display.handles[i].i2c_bus,
                    ..display.snapshot
                })
                &&& shown.current == (percent * maximum + 50) / 100
            }
            &&& k == count ==> {
                &&& after == displays
                &&& step == WriteStepView::Done(
                    Err(
                        "failed to set DDC brightness for "@ + id + ": "@ + crate::text::joined(
                            failures,
                            "; "@,
                        ),
                    ),
                )
                &&& failures.len() == count
                &&& forall|m: int|
                    0 <= m < count ==> #[trigger] failures[m] == write_failure(
                        display.handles[if display.active + m < count {
                            display.active + m
                        } else {
                            display.active + m - count
                        }],
                        replies[with_range(display, m as nat) as int],
                    )
            }
        }),
{
    lemma_position(displays, id, at);
    let display = displays[at];
    let count = display.handles.len();
    let failures = lemma_write_reaches(
        display,
        id,
        percent,
        replies,
        0,
        k as nat,
        Seq::empty(),
    );
    if k < count {
        handles_are_tried_in_turn(display.active as int, count as int, k);
        let i = turn_of(display, k);
        let handle = display.handles[i];
        let maximum = handle.maximum;
        crate::ddc::levels_are_nearest(percent, maximum);
        assert(0 <= percent * maximum <= 100 * 65535) by (nonlinear_arith)
            requires
                0 <= percent <= 100,
                0 <= maximum <= 65535,
        ;
        assert(ManagedHandle { maximum: handle.maximum, ..handle } == handle);
        assert(display.handles.update(i, handle) =~= display.handles);
    } else {
        assert forall|m: int| 0 <= m < count implies #[trigger] failures[m] == write_failure(
            display.handles[if display.active + m < count {
                display.active + m
            } else {
                display.active + m - count
            }],
            replies[with_range(display, m as nat) as int],
        ) by {
            assert(turn_of(display, m) == (if display.active + m < count {
                display.active + m
            } else {
                display.active + m - count
            }));
        }
    }
    failures
}

/// A display that is not there is neither read nor written, and no display is
/// set beyond a hundred.
pub proof fn unknown_displays_are_not_accessed(
    displays: Seq<crate::grouping::ManagedDisplayView>,
    id: Seq<char>,
    percent: u16,
    readings: Seq<Result<VcpValue, Seq<char>>>,
    writes: Seq<Result<(), Seq<char>>>,
)
    ensures
        (forall|j: int| 0 <= j < displays.len() ==> (#[trigger] displays[j]).snapshot.id != id) ==> {
            &&& read_step(displays, id, readings) == (
                ReadStepView::Done(Err("unknown DDC display "@ + id)),
                displays,
            )
            &&& percent <= 100 ==> write_step(displays, id, percent, writes) == (
                WriteStepView::Done(Err("unknown DDC display "@ + id)),
                displays,
            )
        },
        percent > 100 ==> write_step(displays, id, percent, writes) == (
            WriteStepView::Done(
                Err(
                    "DDC brightness must be between 0 and 100, got "@ + crate::text::decimal(
                        percent as nat,
                    ),
                ),
            ),
            displays,
        ),
{
    let ids = display_ids(displays);
    crate::text::first_position_exists(ids, id);
    if let Some(i) = crate::text::first_position(ids, id) {
        assert(ids[i] == displays[i].snapshot.id);
    }
}

/// Wherever the round begins, it takes one handle after the other: the position
/// of each is that of the start and the turn together, counted round.
pub proof fn rounds_begin_anywhere(active: int, count: int, k: int)
    requires
        0 <= active,
        0 < count <= usize::MAX,
        0 <= k < count,
    ensures
        tried_order(active, count).len() == count,
        0 <= tried_order(active, count)[k] < count,
        exists|rounds: int| active + k == #[trigger] (rounds * count) + tried_order(active, count)[k],
{
    let n = active + k;
    vstd::arithmetic::div_mod::lemma_fundamental_div_mod(n, count);
    let rounds = n / count;
    assert(count * rounds == rounds * count) by (nonlinear_arith);
    assert(n == (rounds * count) + tried_order(active, count)[k]);
}

/// Steps say what they hold.
pub proof fn steps_say_what_they_hold(
    attempt: VcpStep<VcpValue>,
    read: ReadStep,
    write: WriteStep,
)
    ensures
        match attempt {
            VcpStep::Attempt { delay_ms } => attempt@ == (VcpStepView::<VcpValue>::Attempt {
                delay_ms,
            }),
            VcpStep::Done(Ok(value)) => attempt@ == VcpStepView::<VcpValue>::Done(Ok(value)),
            VcpStep::Done(Err(message)) => attempt@ == VcpStepView::<VcpValue>::Done(Err(message@)),
        },
        match read {
            ReadStep::Read { slot } => read@ == (ReadStepView::Read { slot }),
            ReadStep::Done(Ok(display)) => read@ == ReadStepView::Done(Ok(display@)),
            ReadStep::Done(Err(message)) => read@ == ReadStepView::Done(Err(message@)),
        },
        match write {
            WriteStep::Write { slot, value } => write@ == (WriteStepView::Write { slot, value }),
            WriteStep::Done(Ok(display)) => write@ == WriteStepView::Done(Ok(display@)),
            WriteStep::Done(Err(message)) => write@ == WriteStepView::Done(Err(message@)),
        },
{
}

} // verus!
