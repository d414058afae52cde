//! The applet's state: a draft for every display, writes that wait for the
//! slider to rest, and requests that the daemon has not answered yet.

use vstd::prelude::*;

use crate::binary64::{hundred, unity, zero, Binary64};
use crate::brightness::{hardware_fraction, light_percent, DisplayInfo};
use crate::keyed::{Key, KeyedMap};
use crate::order::{push_text, sort, Ranked};
use crate::text::{same_text, trim};

verus! {

/// How long a write waits for the slider to rest, in nanoseconds.
pub const WRITE_DEBOUNCE: u64 = 180_000_000;

/// How long a write waits when the worker is busy, in nanoseconds.
pub const BUSY_DELAY: u64 = 40_000_000;

/// Which control a write is for.
#[derive(Debug, Clone, Copy, PartialEq, Eq, Structural)]
pub enum WriteKind {
    Unified,
    Ddc,
    Gamma,
}

impl WriteKind {
    /// The place of the kind in the order of kinds.
    pub open spec fn place(self) -> u64 {
        match self {
            WriteKind::Unified => 0,
            WriteKind::Ddc => 1,
            WriteKind::Gamma => 2,
        }
    }

    fn number(self) -> (r: u64)
        ensures
            r == self.place(),
    {
        match self {
            WriteKind::Unified => 0,
            WriteKind::Ddc => 1,
            WriteKind::Gamma => 2,
        }
    }
}

/// What is to be written.
#[derive(Debug, Clone, Copy, PartialEq, Eq, Structural)]
pub enum WriteValue {
    Unified(Binary64),
    Ddc(u16),
    Gamma(Binary64),
}

/// What the worker is asked to do.
#[derive(Debug)]
pub enum WorkerCommand {
    Refresh { request_id: u64, rescan: bool },
    Write { request_id: u64, display_id: String, value: WriteValue },
    Shutdown,
}

/// What a `WorkerCommand` says.
#[verifier::ext_equal]
pub enum WorkerCommandView {
    Refresh { request_id: u64, rescan: bool },
    Write { request_id: u64, display_id: Seq<char>, value: WriteValue },
    Shutdown,
}

impl View for WorkerCommand {
    type V = WorkerCommandView;

    open spec fn view(&self) -> WorkerCommandView {
        match *self {
            WorkerCommand::Refresh { request_id, rescan } => WorkerCommandView::Refresh {
                request_id,
                rescan,
            },
            WorkerCommand::Write { request_id, display_id, value } => WorkerCommandView::Write {
                request_id,
                display_id: display_id@,
                value,
            },
            WorkerCommand::Shutdown => WorkerCommandView::Shutdown,
        }
    }
}

impl WorkerCommand {
    /// The number of the request and the display that it is about; a shutdown
    /// is no request.
    pub fn request_context(&self) -> (r: Option<(u64, Option<String>)>)
        ensures
            match self@ {
                WorkerCommandView::Refresh { request_id, .. } => r == Some(
                    (request_id, None::<String>),
                ),
                WorkerCommandView::Write { request_id, display_id, .. } => r is Some
                    && r->Some_0.0 == request_id && crate::model::seen(r->Some_0.1) == Some(
                    display_id,
                ),
                WorkerCommandView::Shutdown => r is None,
            },
    {
        match self {
            WorkerCommand::Refresh { request_id, .. } => Some((*request_id, None)),
            WorkerCommand::Write { request_id, display_id, .. } => Some(
                (*request_id, Some(display_id.clone())),
            ),
            WorkerCommand::Shutdown => None,
        }
    }
}

/// What the daemon is asked.
#[derive(Debug)]
pub enum DaemonCall {
    ListDisplays,
    Refresh,
    SetBrightness { id: String, brightness: Binary64 },
    SetDdcBrightness { id: String, percent: u16 },
    SetGammaBrightness { id: String, brightness: Binary64 },
}

/// What a `DaemonCall` says.
pub enum DaemonCallView {
    ListDisplays,
    Refresh,
    SetBrightness { id: Seq<char>, brightness: Binary64 },
    SetDdcBrightness { id: Seq<char>, percent: u16 },
    SetGammaBrightness { id: Seq<char>, brightness: Binary64 },
}

impl View for DaemonCall {
    type V = DaemonCallView;

    open spec fn view(&self) -> DaemonCallView {
        match *self {
            DaemonCall::ListDisplays => DaemonCallView::ListDisplays,
            DaemonCall::Refresh => DaemonCallView::Refresh,
            DaemonCall::SetBrightness { id, brightness } => DaemonCallView::SetBrightness {
                id: id@,
                brightness,
            },
            DaemonCall::SetDdcBrightness { id, percent } => DaemonCallView::SetDdcBrightness {
                id: id@,
                percent,
            },
            DaemonCall::SetGammaBrightness {
                id,
                brightness,
            } => DaemonCallView::SetGammaBrightness { id: id@, brightness },
        }
    }
}

/// What the daemon is asked for a command: a refresh lists what the daemon
/// knows, unless the displays are to be found anew.
pub open spec fn asked(command: WorkerCommandView) -> Option<DaemonCallView> {
    match command {
        WorkerCommandView::Refresh { rescan, .. } => Some(
            if rescan {
                DaemonCallView::Refresh
            } else {
                DaemonCallView::ListDisplays
            },
        ),
        WorkerCommandView::Write { display_id, value, .. } => Some(
            match value {
                WriteValue::Unified(brightness) => DaemonCallView::SetBrightness {
                    id: display_id,
                    brightness,
                },
                WriteValue::Ddc(percent) => DaemonCallView::SetDdcBrightness {
                    id: display_id,
                    percent,
                },
                WriteValue::Gamma(brightness) => DaemonCallView::SetGammaBrightness {
                    id: display_id,
                    brightness,
                },
            },
        ),
        WorkerCommandView::Shutdown => None,
    }
}

/// What the daemon is asked for a command, if anything.
pub fn daemon_call(command: &WorkerCommand) -> (r: Option<DaemonCall>)
    ensures
        crate::model::seen(r) == asked(command@),
{
    match command {
        WorkerCommand::Refresh { rescan, .. } => Some(
            if *rescan {
                DaemonCall::Refresh
            } else {
                DaemonCall::ListDisplays
            },
        ),
        WorkerCommand::Write { display_id, value, .. } => {
            let id = display_id.clone();
            Some(
                match value {
                    WriteValue::Unified(brightness) => DaemonCall::SetBrightness {
                        id,
                        brightness: *brightness,
                    },
                    WriteValue::Ddc(percent) => DaemonCall::SetDdcBrightness {
                        id,
                        percent: *percent,
                    },
                    WriteValue::Gamma(brightness) => DaemonCall::SetGammaBrightness {
                        id,
                        brightness: *brightness,
                    },
                },
            )
        },
        WorkerCommand::Shutdown => None,
    }
}

/// What the daemon has answered.
#[derive(Debug)]
pub enum DaemonReply {
    Displays(Vec<DisplayInfo>),
    Display(DisplayInfo),
}

/// What the worker reports.
#[derive(Debug)]
pub enum WorkerEvent {
    Snapshot { request_id: u64, displays: Vec<DisplayInfo> },
    DisplayUpdated { request_id: u64, display: DisplayInfo },
    Failed { request_id: u64, display_id: Option<String>, message: String },
}

/// What a `WorkerEvent` says.
pub enum WorkerEventView {
    Snapshot { request_id: u64, displays: Seq<crate::brightness::DisplayInfoView> },
    DisplayUpdated { request_id: u64, display: crate::brightness::DisplayInfoView },
    Failed { request_id: u64, display_id: Option<Seq<char>>, message: Seq<char> },
}

impl View for WorkerEvent {
    type V = WorkerEventView;

    open spec fn view(&self) -> WorkerEventView {
        match *self {
            WorkerEvent::Snapshot { request_id, displays } => WorkerEventView::Snapshot {
                request_id,
                displays: crate::model::views(displays@),
            },
            WorkerEvent::DisplayUpdated { request_id, display } => WorkerEventView::DisplayUpdated {
                request_id,
                display: display@,
            },
            WorkerEvent::Failed { request_id, display_id, message } => WorkerEventView::Failed {
                request_id,
                display_id: crate::model::seen(display_id),
                message: message@,
            },
        }
    }
}

/// What is said when the daemon has refused a request.
pub open spec fn refusal(command: WorkerCommandView, error: Seq<char>) -> Seq<char> {
    match command {
        WorkerCommandView::Refresh { rescan, .. } => if rescan {
            "Could not refresh displays: "@ + error
        } else {
            "Could not list displays: "@ + error
        },
        WorkerCommandView::Write { display_id, value, .. } => match value {
            WriteValue::Unified(_) => "Could not set brightness for "@ + display_id + ": "@ + error,
            WriteValue::Ddc(_) => "Could not set DDC brightness for "@ + display_id + ": "@ + error,
            WriteValue::Gamma(_) => "Could not set gamma brightness for "@ + display_id + ": "@
                + error,
        },
        WorkerCommandView::Shutdown => "The D-Bus worker is shutting down."@,
    }
}

/// What is said when the daemon has refused a request.
pub fn refusal_message(command: &WorkerCommand, error: &str) -> (r: String)
    ensures
        r@ == refusal(command@, error@),
{
    match command {
        WorkerCommand::Refresh { rescan, .. } => if *rescan {
            "Could not refresh displays: ".to_owned().concat(error)
        } else {
            "Could not list displays: ".to_owned().concat(error)
        },
        WorkerCommand::Write { display_id, value, .. } => match value {
            WriteValue::Unified(_) => "Could not set brightness for ".to_owned().concat(
                display_id.as_str(),
            ).concat(": ").concat(error),
            WriteValue::Ddc(_) => "Could not set DDC brightness for ".to_owned().concat(
                display_id.as_str(),
            ).concat(": ").concat(error),
            WriteValue::Gamma(_) => "Could not set gamma brightness for ".to_owned().concat(
                display_id.as_str(),
            ).concat(": ").concat(error),
        },
        WorkerCommand::Shutdown => "The D-Bus worker is shutting down.".to_owned(),
    }
}

/// What the worker reports about a request, given the daemon's answer or the
/// message of a failure. A shutdown is not reported.
pub fn worker_event(
    command: &WorkerCommand,
    answer: Result<DaemonReply, String>,
) -> (r: Option<WorkerEvent>)
    ensures
        match command@ {
            WorkerCommandView::Shutdown => r is None,
            WorkerCommandView::Refresh { request_id, .. } => r is Some && r->Some_0@
                == reported(request_id, None, answer),
            WorkerCommandView::Write { request_id, display_id, .. } => r is Some && r->Some_0@
                == reported(request_id, Some(display_id), answer),
        },
{
    match command.request_context() {
        Some((request_id, display_id)) => Some(
            match answer {
                Ok(DaemonReply::Displays(displays)) => WorkerEvent::Snapshot {
                    request_id,
                    displays,
                },
                Ok(DaemonReply::Display(display)) => WorkerEvent::DisplayUpdated {
                    request_id,
                    display,
                },
                Err(message) => WorkerEvent::Failed { request_id, display_id, message },
            },
        ),
        None => None,
    }
}

/// What is reported about a request.
pub open spec fn reported(
    request_id: u64,
    display_id: Option<Seq<char>>,
    answer: Result<DaemonReply, String>,
) -> WorkerEventView {
    match answer {
        Ok(DaemonReply::Displays(displays)) => WorkerEventView::Snapshot {
            request_id,
            displays: crate::model::views(displays@),
        },
        Ok(DaemonReply::Display(display)) => WorkerEventView::DisplayUpdated {
            request_id,
            display: display@,
        },
        Err(message) => WorkerEventView::Failed { request_id, display_id, message: message@ },
    }
}

/// What a waiting write is for: at most one write waits for each control of a
/// display.
#[derive(Debug)]
pub struct PendingKey {
    pub display_id: String,
    pub kind: WriteKind,
}

impl View for PendingKey {
    type V = (Seq<char>, WriteKind);

    open spec fn view(&self) -> (Seq<char>, WriteKind) {
        (self.display_id@, self.kind)
    }
}

impl Clone for PendingKey {
    fn clone(&self) -> (r: Self)
        ensures
            r == *self,
    {
        PendingKey { display_id: self.display_id.clone(), kind: self.kind }
    }
}

impl Ranked for PendingKey {
    open spec fn rank_of(v: (Seq<char>, WriteKind)) -> Seq<u64> {
        crate::order::text_rank(v.0).push(v.1.place())
    }

    fn rank_key(&self) -> (k: Vec<u64>) {
        let mut k: Vec<u64> = Vec::new();
        push_text(&mut k, self.display_id.as_str());
        k.push(self.kind.number());
        assert(k@ =~= Self::rank_of(self@));
        k
    }
}

impl Key for PendingKey {
    proof fn rank_is_injective(a: (Seq<char>, WriteKind), b: (Seq<char>, WriteKind)) {
        let x = crate::order::text_rank(a.0);
        let y = crate::order::text_rank(b.0);
        assert(x.push(a.1.place()).drop_last() =~= x);
        assert(y.push(b.1.place()).drop_last() =~= y);
        assert(x.push(a.1.place()).last() == a.1.place());
        assert(y.push(b.1.place()).last() == b.1.place());
        crate::order::text_rank_is_injective(a.0, b.0);
    }
}

/// A write that waits.
#[derive(Debug, Clone, Copy, PartialEq, Eq, Structural)]
pub struct PendingWrite {
    pub request_id: u64,
    pub value: WriteValue,
    /// When it is due, in nanoseconds.
    pub due_at: u64,
}

impl View for PendingWrite {
    type V = PendingWrite;

    open spec fn view(&self) -> PendingWrite {
        *self
    }
}

impl PendingWrite {
    /// The command that carries the write to the worker.
    pub fn command(self, display_id: String) -> (r: WorkerCommand)
        ensures
            r@ == (WorkerCommandView::Write {
                request_id: self.request_id,
                display_id: display_id@,
                value: self.value,
            }),
    {
        WorkerCommand::Write { request_id: self.request_id, display_id, value: self.value }
    }
}

/// What the sliders of a display show.
#[derive(Debug)]
pub struct DisplayDraft {
    pub info: DisplayInfo,
    pub effective_percent: Binary64,
    pub ddc_percent: u16,
    pub gamma_percent: Binary64,
    pub latest_request_id: u64,
}

/// What a `DisplayDraft` says.
#[verifier::ext_equal]
pub struct DraftView {
    pub info: crate::brightness::DisplayInfoView,
    pub effective_percent: Binary64,
    pub ddc_percent: u16,
    pub gamma_percent: Binary64,
    pub latest_request_id: u64,
}

impl View for DisplayDraft {
    type V = DraftView;

    open spec fn view(&self) -> DraftView {
        DraftView {
            info: self.info@,
            effective_percent: self.effective_percent,
            ddc_percent: self.ddc_percent,
            gamma_percent: self.gamma_percent,
            latest_request_id: self.latest_request_id,
        }
    }
}

impl Clone for DisplayDraft {
    fn clone(&self) -> (r: Self)
        ensures
            r == *self,
    {
        DisplayDraft {
            info: self.info.clone(),
            effective_percent: self.effective_percent,
            ddc_percent: self.ddc_percent,
            gamma_percent: self.gamma_percent,
            latest_request_id: self.latest_request_id,
        }
    }
}

/// A fraction as a percentage from zero to a hundred.
pub open spec fn slider_percent(fraction: Binary64) -> Binary64 {
    crate::binary64::clamped(
        crate::binary64::product(fraction, hundred()),
        zero(),
        hundred(),
    )
}

/// A percentage as a fraction from zero to one.
pub open spec fn slider_fraction(percent: Binary64) -> Binary64 {
    crate::binary64::clamped(
        crate::binary64::quotient(percent, hundred()),
        zero(),
        unity(),
    )
}

/// The draft that shows what a display is, as of a request.
pub open spec fn draft_of(
    info: crate::brightness::DisplayInfoView,
    request_id: u64,
) -> DraftView {
    DraftView {
        info,
        effective_percent: info.effective(),
        ddc_percent: if info.ddc_brightness < 100 {
            info.ddc_brightness
        } else {
            100
        },
        gamma_percent: slider_percent(info.gamma_brightness),
        latest_request_id: request_id,
    }
}

impl DraftView {
    /// The effective brightness that the two single sliders make.
    pub open spec fn effective(self) -> Binary64 {
        crate::brightness::emitted_percent(
            if self.info.ddc_supported {
                crate::brightness::hardware_share(self.ddc_percent)
            } else {
                unity()
            },
            if self.info.gamma_supported {
                crate::binary64::quotient(self.gamma_percent, hundred())
            } else {
                unity()
            },
        )
    }
}

impl DraftView {
    /// The draft once a slider has been moved: the effective brightness follows
    /// the two single sliders.
    pub open spec fn after_moving(self, kind: WriteKind) -> DraftView {
        match kind {
            WriteKind::Unified => self,
            _ => DraftView { effective_percent: self.effective(), ..self },
        }
    }

    /// What a slider asks for.
    pub open spec fn asked_by(self, kind: WriteKind) -> WriteValue {
        match kind {
            WriteKind::Unified => WriteValue::Unified(slider_fraction(self.effective_percent)),
            WriteKind::Ddc => WriteValue::Ddc(self.ddc_percent),
            WriteKind::Gamma => WriteValue::Gamma(slider_fraction(self.gamma_percent)),
        }
    }
}

impl DisplayDraft {
    /// The draft that shows what a display is, as of a request.
    pub fn new(info: DisplayInfo, request_id: u64) -> (r: Self)
        ensures
            r@ == draft_of(info@, request_id),
    {
        let effective_percent = info.effective_percent();
        let ddc_percent: u16 = if info.ddc_brightness < 100 {
            info.ddc_brightness
        } else {
            100
        };
        let gamma_percent = info.gamma_brightness.times(hundred()).clamp(zero(), hundred());
        DisplayDraft {
            info,
            effective_percent,
            ddc_percent,
            gamma_percent,
            latest_request_id: request_id,
        }
    }

    /// Shows what a display has become, as of a request.
    pub fn synchronize(&mut self, info: DisplayInfo, request_id: u64)
        ensures
            final(self)@ == draft_of(info@, request_id),
    {
        *self = DisplayDraft::new(info, request_id);
    }

    /// Makes the effective brightness follow the two single sliders.
    pub fn recompute_effective(&mut self)
        ensures
            final(self)@ == (DraftView {
                effective_percent: old(self)@.effective(),
                ..old(self)@
            }),
    {
        let hardware = if self.info.ddc_supported {
            hardware_fraction(self.ddc_percent)
        } else {
            unity()
        };
        let gamma = if self.info.gamma_supported {
            self.gamma_percent.over(hundred())
        } else {
            unity()
        };
        self.effective_percent = light_percent(hardware, gamma);
    }

    /// What the slider for the effective brightness asks for.
    pub fn unified_write(&self) -> (r: WriteValue)
        ensures
            r == WriteValue::Unified(slider_fraction(self@.effective_percent)),
    {
        WriteValue::Unified(self.effective_percent.over(hundred()).clamp(zero(), unity()))
    }

    /// What the slider for the hardware brightness asks for.
    pub fn ddc_write(&self) -> (r: WriteValue)
        ensures
            r == WriteValue::Ddc(self@.ddc_percent),
    {
        WriteValue::Ddc(self.ddc_percent)
    }

    /// What the slider for the gamma brightness asks for.
    pub fn gamma_write(&self) -> (r: WriteValue)
        ensures
            r == WriteValue::Gamma(slider_fraction(self@.gamma_percent)),
    {
        WriteValue::Gamma(self.gamma_percent.over(hundred()).clamp(zero(), unity()))
    }

    /// What follows when a slider has been moved: what it asks for. The slider
    /// for the effective brightness follows the two single ones.
    pub fn moved(&mut self, kind: WriteKind) -> (r: WriteValue)
        ensures
            final(self)@ == old(self)@.after_moving(kind),
            r == final(self)@.asked_by(kind),
    {
        match kind {
            WriteKind::Unified => self.unified_write(),
            WriteKind::Ddc => {
                self.recompute_effective();
                self.ddc_write()
            },
            WriteKind::Gamma => {
                self.recompute_effective();
                self.gamma_write()
            },
        }
    }

    /// What the display is called: by its identifier where its name is blank.
    pub fn title(&self) -> (r: String)
        ensures
            r@ == (if crate::text::trimmed(self@.info.name).len() == 0 {
                self@.info.id
            } else {
                self@.info.name
            }),
    {
        if trim(self.info.name.as_str()).as_str().is_empty() {
            self.info.id.clone()
        } else {
            self.info.name.clone()
        }
    }
}

/// The lower-case form of a text.
pub uninterp spec fn lowered(s: Seq<char>) -> Seq<char>;

/// `str::to_lowercase` of std: the lower-case form, by the Unicode mapping that
/// std carries. It depends on the text alone; what it is, is not stated.
#[verifier::external_body]
fn lowercase(s: &str) -> (r: String)
    ensures
        r@ == lowered(s@),
{
    s.to_lowercase()
}

/// What decides where a display stands in the list.
#[derive(Debug)]
pub struct ListEntry {
    /// The display's name in lower case.
    pub name: String,
    /// Its identifier.
    pub id: String,
}

impl View for ListEntry {
    type V = (Seq<char>, Seq<char>);

    open spec fn view(&self) -> (Seq<char>, Seq<char>) {
        (self.name@, self.id@)
    }
}

/// Displays are listed by name, and by identifier where the names are the same.
impl Ranked for ListEntry {
    open spec fn rank_of(v: (Seq<char>, Seq<char>)) -> Seq<u64> {
        crate::order::text_rank(v.0) + crate::order::text_rank(v.1)
    }

    fn rank_key(&self) -> (k: Vec<u64>) {
        let mut k: Vec<u64> = Vec::new();
        push_text(&mut k, self.name.as_str());
        push_text(&mut k, self.id.as_str());
        assert(k@ =~= Self::rank_of(self@));
        k
    }
}

/// The identifiers of list entries.
pub open spec fn listed(entries: Seq<(Seq<char>, Seq<char>)>) -> Seq<Seq<char>> {
    Seq::new(entries.len(), |i: int| entries[i].1)
}

/// The identifiers in the order in which displays are listed.
pub fn list_order(entries: Vec<ListEntry>) -> (r: Vec<String>)
    ensures
        crate::model::views(r@) == listed(
            crate::order::stably_sorted::<ListEntry>(crate::model::views(entries@)),
        ),
{
    let sorted = sort(entries);
    let ghost all = crate::model::views(sorted@);
    let mut out: Vec<String> = Vec::new();
    for i in 0..sorted.len()
        invariant
            all == crate::model::views(sorted@),
            crate::model::views(out@) =~= listed(all).take(i as int),
    {
        assert(all[i as int] == sorted@[i as int]@);
        let id = sorted[i].id.clone();
        proof {
            crate::model::views_push(out@, id);
        }
        out.push(id);
    }
    assert(crate::model::views(out@) =~= listed(all));
    out
}

/// Where a display stands in the list.
pub open spec fn list_rank(drafts: Map<Seq<char>, DraftView>, id: Seq<char>) -> Seq<u64> {
    ListEntry::rank_of((lowered(drafts[id].info.name), id))
}

/// Whether identifiers are those of all drafts, in the order in which displays
/// are listed.
pub open spec fn lists(order: Seq<Seq<char>>, drafts: Map<Seq<char>, DraftView>) -> bool {
    &&& order.no_duplicates()
    &&& order.to_set() == drafts.dom()
    &&& forall|i: int, j: int|
        0 <= i < j < order.len() ==> crate::order::precedes(
            list_rank(drafts, #[trigger] order[i]),
            list_rank(drafts, #[trigger] order[j]),
        )
}

/// There is only one such list.
pub proof fn the_list_is_determined(
    a: Seq<Seq<char>>,
    b: Seq<Seq<char>>,
    drafts: Map<Seq<char>, DraftView>,
)
    requires
        lists(a, drafts),
        lists(b, drafts),
    ensures
        a == b,
{
    a.unique_seq_to_set();
    b.unique_seq_to_set();
    lemma_same_list(a, b, drafts, a.len());
    assert(a =~= b);
}

proof fn lemma_same_list(
    a: Seq<Seq<char>>,
    b: Seq<Seq<char>>,
    drafts: Map<Seq<char>, DraftView>,
    n: nat,
)
    requires
        lists(a, drafts),
        lists(b, drafts),
        a.len() == b.len(),
        n <= a.len(),
    ensures
        forall|i: int| 0 <= i < n ==> #[trigger] a[i] == b[i],
    decreases n,
{
    if n > 0 {
        lemma_same_list(a, b, drafts, (n - 1) as nat);
        let i = n - 1;
        assert(drafts.dom().contains(a[i])) by {
            assert(a.to_set().contains(a[i]));
        }
        assert(b.to_set().contains(a[i]));
        let j = choose|j: int| 0 <= j < b.len() && b[j] == a[i];
        assert(drafts.dom().contains(b[i])) by {
            assert(b.to_set().contains(b[i]));
        }
        assert(a.to_set().contains(b[i]));
        let k = choose|k: int| 0 <= k < a.len() && a[k] == b[i];
        if j < i {
            assert(a[j] == b[j]);
        }
        if k < i {
            assert(a[k] == b[k]);
        }
        if j > i && k > i {
            let x = list_rank(drafts, a[i]);
            let y = list_rank(drafts, b[i]);
            assert(crate::order::precedes(list_rank(drafts, b[i]), list_rank(drafts, b[j])));
            assert(crate::order::precedes(list_rank(drafts, a[i]), list_rank(drafts, a[k])));
            crate::order::precedes_is_total(x, y);
        }
    }
}

/// What a `WlightApplet` says.
#[verifier::ext_equal]
pub struct AppletView {
    pub displays: Map<Seq<char>, DraftView>,
    pub display_order: Seq<Seq<char>>,
    pub pending_writes: Map<(Seq<char>, WriteKind), PendingWrite>,
    pub in_flight: Map<u64, Seq<char>>,
    pub next_request_id: u64,
    pub refresh_request_id: Option<u64>,
    pub loading: bool,
    pub worker_running: bool,
    pub last_error: Option<Seq<char>>,
}

/// The applet's state.
#[derive(Debug)]
pub struct WlightApplet {
    displays: KeyedMap<String, DisplayDraft>,
    display_order: Vec<String>,
    pending_writes: KeyedMap<PendingKey, PendingWrite>,
    in_flight: KeyedMap<u64, String>,
    next_request_id: u64,
    refresh_request_id: Option<u64>,
    loading: bool,
    worker_running: bool,
    last_error: Option<String>,
}

impl View for WlightApplet {
    type V = AppletView;

    closed spec fn view(&self) -> AppletView {
        AppletView {
            displays: self.displays@,
            display_order: crate::model::views(self.display_order@),
            pending_writes: self.pending_writes@,
            in_flight: self.in_flight@,
            next_request_id: self.next_request_id,
            refresh_request_id: self.refresh_request_id,
            loading: self.loading,
            worker_running: self.worker_running,
            last_error: crate::model::seen(self.last_error),
        }
    }
}

/// Whether writes that wait have lower numbers than the next request, as long as
/// there are numbers.
pub open spec fn well_numbered(state: AppletView) -> bool {
    state.next_request_id < u64::MAX ==> forall|key: (Seq<char>, WriteKind)| #[trigger]
        state.pending_writes.contains_key(key) ==> state.pending_writes[key].request_id
            < state.next_request_id
}

impl AppletView {
    /// Whether a write to a display waits.
    pub open spec fn waits(self, id: Seq<char>) -> bool {
        exists|kind: WriteKind| #[trigger] self.pending_writes.contains_key((id, kind))
    }

    /// Whether a write to a display is on its way.
    pub open spec fn is_in_flight(self, id: Seq<char>) -> bool {
        exists|request: u64| #[trigger]
            self.in_flight.contains_key(request) && self.in_flight[request] == id
    }

    /// Whether a display is being written.
    pub open spec fn busy(self, id: Seq<char>) -> bool {
        self.waits(id) || self.is_in_flight(id)
    }

    /// The state without what only a running worker can finish.
    pub open spec fn without_worker(self, message: Seq<char>) -> AppletView {
        AppletView {
            worker_running: false,
            pending_writes: Map::empty(),
            in_flight: Map::empty(),
            last_error: Some(message),
            ..self
        }
    }
}

impl WlightApplet {
    /// Whether the parts of the state are in order: the list holds every
    /// display once, and requests are numbered in their order.
    pub closed spec fn wf(&self) -> bool {
        &&& self.displays.wf()
        &&& self.pending_writes.wf()
        &&& self.in_flight.wf()
        &&& self@.display_order.no_duplicates()
        &&& self@.display_order.to_set() == self@.displays.dom()
        &&& well_numbered(self@)
    }

    /// The list holds every display once, and writes that wait were asked for
    /// before the next request.
    pub proof fn the_state_is_in_order(&self)
        requires
            self.wf(),
        ensures
            self@.display_order.no_duplicates(),
            self@.display_order.to_set() == self@.displays.dom(),
            well_numbered(self@),
    {
    }

    /// The state of an applet whose worker was started, or could not be.
    pub fn new(startup_error: Option<String>) -> (r: Self)
        ensures
            r.wf(),
            r@ == (AppletView {
                displays: Map::empty(),
                display_order: Seq::empty(),
                pending_writes: Map::empty(),
                in_flight: Map::empty(),
                next_request_id: 1,
                refresh_request_id: None,
                loading: startup_error is None,
                worker_running: startup_error is None,
                last_error: crate::model::seen(startup_error),
            }),
    {
        let started = startup_error.is_none();
        let r = WlightApplet {
            displays: KeyedMap::new(),
            display_order: Vec::new(),
            pending_writes: KeyedMap::new(),
            in_flight: KeyedMap::new(),
            next_request_id: 1,
            refresh_request_id: None,
            loading: started,
            worker_running: started,
            last_error: startup_error,
        };
        assert(r@.display_order =~= Seq::empty());
        assert(r@.display_order.to_set() =~= r@.displays.dom());
        r
    }

    /// The number of the next request.
    pub fn allocate_request_id(&mut self) -> (r: u64)
        requires
            old(self).wf(),
        ensures
            final(self).wf(),
            r == old(self)@.next_request_id,
            final(self)@ == (AppletView {
                next_request_id: if r < u64::MAX {
                    (r + 1) as u64
                } else {
                    u64::MAX
                },
                ..old(self)@
            }),
    {
        let request_id = self.next_request_id;
        self.next_request_id = self.next_request_id.saturating_add(1);
        request_id
    }

    /// Whether a display is being written.
    pub fn display_is_busy(&self, display_id: &str) -> (r: bool)
        requires
            self.wf(),
        ensures
            r == self@.busy(display_id@),
    {
        self.busy_with(display_id)
    }

    /// Lists the displays anew.
    fn rebuild_display_order(&mut self)
        requires
            old(self).displays.wf(),
            old(self).pending_writes.wf(),
            old(self).in_flight.wf(),
            well_numbered(old(self)@),
        ensures
            final(self).wf(),
            lists(final(self)@.display_order, final(self)@.displays),
            final(self)@ == (AppletView {
                display_order: final(self)@.display_order,
                ..old(self)@
            }),
    {
        let ghost drafts = self@.displays;
        let ghost ids = self.displays.keys();
        let mut entries: Vec<ListEntry> = Vec::new();
        let count = self.displays.len();
        for i in 0..count
            invariant
                self.displays.wf(),
                drafts == self@.displays,
                ids == self.displays.keys(),
                count == ids.len(),
                entries@.len() == i,
                forall|j: int|
                    0 <= j < i ==> (#[trigger] entries@[j])@ == (
                        lowered(drafts[ids[j]].info.name),
                        ids[j],
                    ),
        {
            proof {
                self.displays.entry_at(i as int);
            }
            let draft = self.displays.value_at(i);
            entries.push(
                ListEntry {
                    name: lowercase(draft.info.name.as_str()),
                    id: self.displays.key_at(i).clone(),
                },
            );
        }
        let ghost all = crate::model::views(entries@);
        self.display_order = list_order(entries);
        proof {
            let order = self@.display_order;
            let sorted = crate::order::stably_sorted::<ListEntry>(all);
            self.displays.keys_are_distinct();
            let p = crate::order::sorting_permutes::<ListEntry>(all);
            crate::order::sorting_keeps_the_values::<ListEntry>(all);
            assert forall|i: int| 0 <= i < order.len() implies {
                &&& 0 <= #[trigger] p[i] < ids.len()
                &&& order[i] == ids[p[i]]
                &&& sorted[i] == (lowered(drafts[order[i]].info.name), order[i])
            } by {
                assert(sorted[i] == all[p[i]]);
                assert(all[p[i]] == entries@[p[i]]@);
            }
            assert forall|i: int, j: int|
                0 <= i < order.len() && 0 <= j < order.len() && i != j implies order[i]
                != order[j] by {
                assert(p[i] != p[j]);
                assert(ids[p[i]] != ids[p[j]]);
            }
            assert forall|id: Seq<char>| order.to_set().contains(id) == drafts.dom().contains(
                id,
            ) by {
                if order.contains(id) {
                    let i = choose|i: int| 0 <= i < order.len() && order[i] == id;
                    assert(order[i] == ids[p[i]]);
                    assert(ids.to_set().contains(id));
                }
                if drafts.dom().contains(id) {
                    assert(ids.to_set().contains(id));
                    let k = choose|k: int| 0 <= k < ids.len() && ids[k] == id;
                    assert(all[k] == entries@[k]@);
                    crate::order::sorting_keeps_membership::<ListEntry>(all, all[k]);
                    let i = choose|i: int| 0 <= i < sorted.len() && sorted[i] == all[k];
                    assert(order[i] == id);
                }
            }
            assert(order.to_set() =~= drafts.dom());
            assert forall|i: int, j: int| 0 <= i < j < order.len() implies crate::order::precedes(
                list_rank(drafts, #[trigger] order[i]),
                list_rank(drafts, #[trigger] order[j]),
            ) by {
                assert(p[i] != p[j]);
                let x = ListEntry::rank_of(sorted[i]);
                let y = ListEntry::rank_of(sorted[j]);
                assert(!crate::order::precedes(y, x));
                crate::order::precedes_is_total(x, y);
                if x == y {
                    lemma_list_ranks(sorted[i], sorted[j]);
                }
            }
        }
    }
}

/// The rank of a list entry tells identifiers apart.
proof fn lemma_list_ranks(a: (Seq<char>, Seq<char>), b: (Seq<char>, Seq<char>))
    requires
        ListEntry::rank_of(a) == ListEntry::rank_of(b),
    ensures
        a == b,
{
    crate::order::leading_texts_are_told_apart(
        a.0,
        crate::order::text_rank(a.1),
        b.0,
        crate::order::text_rank(b.1),
    );
    crate::order::text_rank_is_injective(a.1, b.1);
}

/// The drafts after something was heard of a display: a draft that a later
/// request has touched stays as it is.
pub open spec fn heard_of(
    drafts: Map<Seq<char>, DraftView>,
    info: crate::brightness::DisplayInfoView,
    request_id: u64,
) -> Map<Seq<char>, DraftView> {
    if drafts.contains_key(info.id) && drafts[info.id].latest_request_id > request_id {
        drafts
    } else {
        drafts.insert(info.id, draft_of(info, request_id))
    }
}

/// The drafts after something was heard of displays, one after the other.
pub open spec fn heard_of_all(
    drafts: Map<Seq<char>, DraftView>,
    infos: Seq<crate::brightness::DisplayInfoView>,
    request_id: u64,
) -> Map<Seq<char>, DraftView>
    decreases infos.len(),
{
    if infos.len() == 0 {
        drafts
    } else {
        heard_of(
            heard_of_all(drafts, infos.drop_last(), request_id),
            infos.last(),
            request_id,
        )
    }
}

/// Whether displays hold one with an identifier.
pub open spec fn mentions(
    infos: Seq<crate::brightness::DisplayInfoView>,
    id: Seq<char>,
) -> bool {
    exists|i: int| 0 <= i < infos.len() && (#[trigger] infos[i]).id == id
}

/// Whether a draft outlives a snapshot: the snapshot holds its display, or the
/// display is being written, or a later request has touched it.
pub open spec fn outlives(
    state: AppletView,
    infos: Seq<crate::brightness::DisplayInfoView>,
    request_id: u64,
    id: Seq<char>,
    draft: DraftView,
) -> bool {
    mentions(infos, id) || state.busy(id) || draft.latest_request_id > request_id
}

/// The drafts after a snapshot.
pub open spec fn drafts_after_snapshot(
    state: AppletView,
    infos: Seq<crate::brightness::DisplayInfoView>,
    request_id: u64,
) -> Map<Seq<char>, DraftView> {
    let all = heard_of_all(state.displays, infos, request_id);
    Map::new(
        |id: Seq<char>|
            all.contains_key(id) && outlives(state, infos, request_id, id, all[id]),
        |id: Seq<char>| all[id],
    )
}

/// What becomes of the state when the worker reports something, but for the
/// list; and whether the displays are listed anew.
pub open spec fn after_event(state: AppletView, event: WorkerEventView) -> (AppletView, bool) {
    match event {
        WorkerEventView::Snapshot { request_id, displays } => (
            AppletView {
                displays: drafts_after_snapshot(state, displays, request_id),
                loading: false,
                refresh_request_id: if state.refresh_request_id == Some(request_id) {
                    None
                } else {
                    state.refresh_request_id
                },
                last_error: None,
                ..state
            },
            true,
        ),
        WorkerEventView::DisplayUpdated { request_id, display } => (
            AppletView {
                displays: heard_of(state.displays, display, request_id),
                in_flight: state.in_flight.remove(request_id),
                last_error: None,
                ..state
            },
            !state.displays.contains_key(display.id),
        ),
        WorkerEventView::Failed { request_id, display_id, message } => (
            AppletView {
                displays: match display_id {
                    Some(id) => if state.displays.contains_key(id)
                        && state.displays[id].latest_request_id <= request_id {
                        state.displays.insert(id, with_error(state.displays[id], message))
                    } else {
                        state.displays
                    },
                    None => state.displays,
                },
                loading: false,
                in_flight: state.in_flight.remove(request_id),
                refresh_request_id: if state.refresh_request_id == Some(request_id) {
                    None
                } else {
                    state.refresh_request_id
                },
                last_error: Some(message),
                ..state
            },
            false,
        ),
    }
}

/// A draft that shows what has gone wrong.
pub open spec fn with_error(draft: DraftView, message: Seq<char>) -> DraftView {
    DraftView {
        info: crate::brightness::DisplayInfoView { last_error: message, ..draft.info },
        ..draft
    }
}

/// Whether a state is the one expected, with the displays listed anew or as
/// before.
pub open spec fn follows(after: AppletView, expected: AppletView, relisted: bool) -> bool {
    &&& after == (AppletView { display_order: after.display_order, ..expected })
    &&& if relisted {
        lists(after.display_order, after.displays)
    } else {
        after.display_order == expected.display_order
    }
}

/// Whether displays hold one with an identifier.
fn is_mentioned(infos: &Vec<String>, id: &str) -> (r: bool)
    ensures
        r == crate::model::views(infos@).contains(id@),
{
    let ghost all = crate::model::views(infos@);
    for i in 0..infos.len()
        invariant
            all == crate::model::views(infos@),
            forall|j: int| 0 <= j < i ==> #[trigger] all[j] != id@,
    {
        assert(all[i as int] == infos@[i as int]@);
        if same_text(infos[i].as_str(), id) {
            assert(all.contains(all[i as int]));
            return true;
        }
    }
    false
}

impl WlightApplet {
    /// Takes in what was heard of a display. The result says whether it is a
    /// new one.
    fn hear_of(&mut self, info: DisplayInfo, request_id: u64) -> (r: bool)
        requires
            old(self).displays.wf(),
        ensures
            final(self).displays.wf(),
            final(self).pending_writes == old(self).pending_writes,
            final(self).in_flight == old(self).in_flight,
            r == !old(self)@.displays.contains_key(info@.id),
            final(self)@ == (AppletView {
                displays: heard_of(old(self)@.displays, info@, request_id),
                ..old(self)@
            }),
    {
        let id = info.id.clone();
        match self.displays.get(&id) {
            Some(draft) => {
                if request_id >= draft.latest_request_id {
                    let mut draft = draft.clone();
                    draft.synchronize(info, request_id);
                    self.displays.insert(id, draft);
                }
                false
            },
            None => {
                self.displays.insert(id, DisplayDraft::new(info, request_id));
                true
            },
        }
    }

    /// Drops the drafts that a snapshot leaves without a display.
    fn retain_drafts(&mut self, seen: &Vec<String>, request_id: u64)
        requires
            old(self).displays.wf(),
            old(self).pending_writes.wf(),
            old(self).in_flight.wf(),
        ensures
            final(self).displays.wf(),
            final(self).pending_writes == old(self).pending_writes,
            final(self).in_flight == old(self).in_flight,
            final(self)@ == (AppletView {
                displays: Map::new(
                    |id: Seq<char>|
                        old(self)@.displays.contains_key(id) && (crate::model::views(
                            seen@,
                        ).contains(id) || old(self)@.busy(id)
                            || old(self)@.displays[id].latest_request_id > request_id),
                    |id: Seq<char>| old(self)@.displays[id],
                ),
                ..old(self)@
            }),
    {
        let ghost all = self@.displays;
        let ghost ids = self.displays.keys();
        let ghost keeps = |id: Seq<char>|
            crate::model::views(seen@).contains(id) || self@.busy(id)
                || all[id].latest_request_id > request_id;
        let mut kept: KeyedMap<String, DisplayDraft> = KeyedMap::new();
        let count = self.displays.len();
        for i in 0..count
            invariant
                *self == *old(self),
                self.displays.wf(),
                self.pending_writes.wf(),
                self.in_flight.wf(),
                all == self@.displays,
                ids == self.displays.keys(),
                count == ids.len(),
                kept.wf(),
                forall|id: Seq<char>| #[trigger]
                    keeps(id) == (crate::model::views(seen@).contains(id) || self@.busy(id)
                        || all[id].latest_request_id > request_id),
                forall|id: Seq<char>| #[trigger]
                    kept@.contains_key(id) <==> exists|j: int|
                        0 <= j < i && #[trigger] ids[j] == id && keeps(id),
                forall|id: Seq<char>| #[trigger]
                    kept@.contains_key(id) ==> all.contains_key(id) && kept@[id] == all[id],
        {
            proof {
                self.displays.entry_at(i as int);
            }
            let id = self.displays.key_at(i).clone();
            let draft = self.displays.value_at(i);
            let ghost before = kept@;
            if is_mentioned(seen, id.as_str()) || self.busy_with(id.as_str())
                || draft.latest_request_id > request_id {
                kept.insert(id, draft.clone());
                assert(keeps(ids[i as int]));
            }
            assert forall|other: Seq<char>| #[trigger]
                kept@.contains_key(other) <==> exists|j: int|
                    0 <= j < i + 1 && #[trigger] ids[j] == other && keeps(other) by {
                if exists|j: int| 0 <= j < i && #[trigger] ids[j] == other && keeps(other) {
                    let j = choose|j: int|
                        0 <= j < i && #[trigger] ids[j] == other && keeps(other);
                    assert(0 <= j < i + 1 && ids[j] == other);
                }
                if exists|j: int| 0 <= j < i + 1 && #[trigger] ids[j] == other && keeps(other) {
                    let j = choose|j: int|
                        0 <= j < i + 1 && #[trigger] ids[j] == other && keeps(other);
                    if j < i {
                        assert(before.contains_key(other));
                    }
                }
                if kept@.contains_key(other) && !before.contains_key(other) {
                    assert(ids[i as int] == other);
                }
            }
        }
        proof {
            self.displays.keys_are_distinct();
            let expected = Map::new(
                |id: Seq<char>|
                    all.contains_key(id) && (crate::model::views(seen@).contains(id) || self@.busy(
                        id,
                    ) || all[id].latest_request_id > request_id),
                |id: Seq<char>| all[id],
            );
            assert forall|id: Seq<char>| #[trigger] kept@.contains_key(id)
                == expected.contains_key(id) by {
                assert(keeps(id) == (crate::model::views(seen@).contains(id) || self@.busy(id)
                    || all[id].latest_request_id > request_id));
                if all.contains_key(id) {
                    assert(ids.to_set().contains(id));
                    let j = choose|j: int| 0 <= j < ids.len() && ids[j] == id;
                    assert(ids[j] == id);
                }
            }
            assert(kept@ =~= expected);
        }
        self.displays = kept;
    }

    /// Whether a display is being written.
    fn busy_with(&self, display_id: &str) -> (r: bool)
        requires
            self.pending_writes.wf(),
            self.in_flight.wf(),
        ensures
            r == self@.busy(display_id@),
    {
        let waiting = self.pending_writes.len();
        let ghost keys = self.pending_writes.keys();
        for i in 0..waiting
            invariant
                self.pending_writes.wf(),
                keys == self.pending_writes.keys(),
                waiting == keys.len(),
                forall|j: int| 0 <= j < i ==> (#[trigger] keys[j]).0 != display_id@,
        {
            let key = self.pending_writes.key_at(i);
            if same_text(key.display_id.as_str(), display_id) {
                proof {
                    self.pending_writes.entry_at(i as int);
                    assert(self@.pending_writes.contains_key((display_id@, key.kind)));
                }
                return true;
            }
        }
        proof {
            assert forall|kind: WriteKind| !#[trigger] self@.pending_writes.contains_key(
                (display_id@, kind),
            ) by {
                if self@.pending_writes.contains_key((display_id@, kind)) {
                    let p = self.pending_writes.position((display_id@, kind));
                    assert(keys[p].0 == display_id@);
                }
            }
        }
        let sent = self.in_flight.len();
        let ghost ids = self.in_flight.values();
        for i in 0..sent
            invariant
                self.in_flight.wf(),
                ids == self.in_flight.values(),
                sent == ids.len(),
                !self@.waits(display_id@),
                forall|j: int| 0 <= j < i ==> #[trigger] ids[j] != display_id@,
        {
            let id = self.in_flight.value_at(i);
            if same_text(id.as_str(), display_id) {
                proof {
                    self.in_flight.entry_at(i as int);
                    assert(self@.in_flight.contains_key(self.in_flight.keys()[i as int]));
                }
                return true;
            }
        }
        proof {
            assert forall|request: u64| #[trigger]
                self@.in_flight.contains_key(request) implies self@.in_flight[request]
                != display_id@ by {
                let p = self.in_flight.position(request);
                assert(self.in_flight.keys()[p] == request);
                self.in_flight.entry_at(p);
                assert(ids[p] != display_id@);
            }
        }
        false
    }
}

/// What came of handing a command to the worker.
#[derive(Debug, Clone, Copy, PartialEq, Eq, Structural)]
pub enum Handover {
    /// It was taken.
    Sent,
    /// The queue is full.
    Full,
    /// The worker is gone.
    Disconnected,
}

/// A write that is due, with the command that carries it.
#[derive(Debug)]
pub struct DueWrite {
    pub key: PendingKey,
    pub command: WorkerCommand,
}

/// The writes that wait, once another control of the same display is moved:
/// those for the display's other controls are due at once.
pub open spec fn hastened(
    pending: Map<(Seq<char>, WriteKind), PendingWrite>,
    id: Seq<char>,
    kind: WriteKind,
    now: u64,
) -> Map<(Seq<char>, WriteKind), PendingWrite> {
    Map::new(
        |key: (Seq<char>, WriteKind)| pending.contains_key(key),
        |key: (Seq<char>, WriteKind)|
            if key.0 == id && key.1 != kind {
                PendingWrite { due_at: now, ..pending[key] }
            } else {
                pending[key]
            },
    )
}

/// The number after a number, as far as there is one.
pub open spec fn successor(n: u64) -> u64 {
    if n < u64::MAX {
        (n + 1) as u64
    } else {
        u64::MAX
    }
}

/// What becomes of the state when a write is asked for.
pub open spec fn after_queueing(
    state: AppletView,
    id: Seq<char>,
    kind: WriteKind,
    value: WriteValue,
    now: u64,
) -> AppletView {
    if !state.worker_running {
        state
    } else {
        let request_id = state.next_request_id;
        AppletView {
            pending_writes: hastened(state.pending_writes, id, kind, now).insert(
                (id, kind),
                PendingWrite { request_id, value, due_at: (now + WRITE_DEBOUNCE) as u64 },
            ),
            displays: if state.displays.contains_key(id) {
                state.displays.insert(
                    id,
                    DraftView { latest_request_id: request_id, ..state.displays[id] },
                )
            } else {
                state.displays
            },
            next_request_id: successor(request_id),
            ..state
        }
    }
}

/// Whether a waiting write is due.
pub open spec fn due(state: AppletView, key: (Seq<char>, WriteKind), now: u64) -> bool {
    state.pending_writes.contains_key(key) && state.pending_writes[key].due_at <= now
}

/// Whether a due write comes before all others that are due: it was asked for
/// first, and among those of one number its key comes first.
pub open spec fn due_first(state: AppletView, key: (Seq<char>, WriteKind), now: u64) -> bool {
    &&& due(state, key, now)
    &&& forall|other: (Seq<char>, WriteKind)| #[trigger]
        due(state, other, now) ==> {
            ||| state.pending_writes[key].request_id < state.pending_writes[other].request_id
            ||| {
                &&& state.pending_writes[key].request_id == state.pending_writes[other].request_id
                &&& !crate::order::precedes(PendingKey::rank_of(other), PendingKey::rank_of(key))
            }
        }
}

/// What becomes of the state when a due write was handed to the worker, or
/// could not be.
pub open spec fn after_handover(
    state: AppletView,
    key: (Seq<char>, WriteKind),
    outcome: Handover,
    now: u64,
) -> AppletView {
    if !state.pending_writes.contains_key(key) {
        state
    } else {
        let write = state.pending_writes[key];
        match outcome {
            Handover::Sent => AppletView {
                pending_writes: state.pending_writes.remove(key),
                in_flight: state.in_flight.insert(write.request_id, key.0),
                ..state
            },
            Handover::Full => AppletView {
                pending_writes: state.pending_writes.insert(
                    key,
                    PendingWrite { due_at: (now + BUSY_DELAY) as u64, ..write },
                ),
                ..state
            },
            Handover::Disconnected => state.without_worker(
                "The D-Bus worker is no longer available."@,
            ),
        }
    }
}

proof fn lemma_busy(a: AppletView, b: AppletView, id: Seq<char>)
    requires
        a.pending_writes == b.pending_writes,
        a.in_flight == b.in_flight,
    ensures
        a.busy(id) == b.busy(id),
{
    if a.waits(id) {
        let kind = choose|kind: WriteKind| #[trigger] a.pending_writes.contains_key((id, kind));
        assert(b.pending_writes.contains_key((id, kind)));
    }
    if b.waits(id) {
        let kind = choose|kind: WriteKind| #[trigger] b.pending_writes.contains_key((id, kind));
        assert(a.pending_writes.contains_key((id, kind)));
    }
    if a.is_in_flight(id) {
        let request = choose|request: u64| #[trigger]
            a.in_flight.contains_key(request) && a.in_flight[request] == id;
        assert(b.in_flight.contains_key(request));
    }
    if b.is_in_flight(id) {
        let request = choose|request: u64| #[trigger]
            b.in_flight.contains_key(request) && b.in_flight[request] == id;
        assert(a.in_flight.contains_key(request));
    }
}

impl WlightApplet {
    /// Takes in what a snapshot says about the displays.
    fn apply_snapshot(&mut self, request_id: u64, displays: Vec<DisplayInfo>)
        requires
            old(self).wf(),
        ensures
            final(self).wf(),
            follows(
                final(self)@,
                AppletView {
                    displays: drafts_after_snapshot(
                        old(self)@,
                        crate::model::views(displays@),
                        request_id,
                    ),
                    ..old(self)@
                },
                true,
            ),
    {
        let ghost infos = crate::model::views(displays@);
        let ghost before = self@;
        let mut rest: Vec<DisplayInfo> = displays;
        let mut seen: Vec<String> = Vec::new();
        let ghost mut done: int = 0;
        assert(infos.skip(0) =~= infos);
        while rest.len() > 0
            invariant
                0 <= done <= infos.len(),
                crate::model::views(rest@) == infos.skip(done),
                seen@.len() == done,
                forall|i: int| 0 <= i < done ==> (#[trigger] seen@[i])@ == infos[i].id,
                self.displays.wf(),
                self.pending_writes.wf(),
                self.in_flight.wf(),
                self.pending_writes == old(self).pending_writes,
                self.in_flight == old(self).in_flight,
                before == old(self)@,
                self@ == (AppletView {
                    displays: heard_of_all(before.displays, infos.take(done), request_id),
                    ..before
                }),
            decreases rest.len(),
        {
            let ghost earlier = rest@;
            assert(crate::model::views(earlier).len() == infos.len() - done);
            let info = rest.remove(0);
            proof {
                assert(crate::model::views(earlier)[0] == infos.skip(done)[0]);
                assert(infos.take(done + 1).drop_last() =~= infos.take(done));
                assert(infos.take(done + 1).last() == info@);
                assert(crate::model::views(rest@) =~= crate::model::views(earlier).skip(1));
                assert(infos.skip(done).skip(1) =~= infos.skip(done + 1));
            }
            seen.push(info.id.clone());
            let _ = self.hear_of(info, request_id);
            proof {
                done = done + 1;
            }
        }
        proof {
            assert(infos.take(done) =~= infos);
            assert forall|id: Seq<char>| #[trigger]
                crate::model::views(seen@).contains(id) == mentions(infos, id) by {
                if mentions(infos, id) {
                    let i = choose|i: int| 0 <= i < infos.len() && (#[trigger] infos[i]).id == id;
                    assert(crate::model::views(seen@)[i] == seen@[i]@);
                }
                if crate::model::views(seen@).contains(id) {
                    let i = choose|i: int|
                        0 <= i < seen@.len() && crate::model::views(seen@)[i] == id;
                    assert(seen@[i]@ == infos[i].id);
                }
            }
        }
        self.retain_drafts(&seen, request_id);
        proof {
            let expected = drafts_after_snapshot(before, infos, request_id);
            let all = heard_of_all(before.displays, infos, request_id);
            assert forall|id: Seq<char>| self@.displays.contains_key(id)
                == expected.contains_key(id) by {
                assert(crate::model::views(seen@).contains(id) == mentions(infos, id));
            }
            assert(self@.displays =~= expected);
        }
        self.rebuild_display_order();
    }

    /// Takes in what the worker reports.
    pub fn apply_worker_event(&mut self, event: WorkerEvent)
        requires
            old(self).wf(),
        ensures
            final(self).wf(),
            follows(
                final(self)@,
                after_event(old(self)@, event@).0,
                after_event(old(self)@, event@).1,
            ),
    {
        match event {
            WorkerEvent::Snapshot { request_id, displays } => {
                let ghost before = self@;
                let ghost infos = crate::model::views(displays@);
                self.loading = false;
                self.forget_refresh(request_id);
                self.last_error = None;
                proof {
                    assert(self@.pending_writes == before.pending_writes);
                    assert(self@.in_flight == before.in_flight);
                    assert forall|id: Seq<char>| self@.busy(id) == before.busy(id) by {
                        lemma_busy(self@, before, id);
                    }
                    assert(drafts_after_snapshot(self@, infos, request_id)
                        =~= drafts_after_snapshot(before, infos, request_id));
                }
                self.apply_snapshot(request_id, displays);
            },
            WorkerEvent::DisplayUpdated { request_id, display } => {
                let ghost before = self@;
                let ghost id = display@.id;
                self.in_flight.remove(&request_id);
                let new = self.hear_of(display, request_id);
                self.last_error = None;
                if new {
                    self.rebuild_display_order();
                } else {
                    assert(self@.displays.dom() =~= before.displays.dom());
                }
            },
            WorkerEvent::Failed { request_id, display_id, message } => {
                let ghost before = self@;
                self.loading = false;
                self.in_flight.remove(&request_id);
                self.forget_refresh(request_id);
                if let Some(id) = display_id {
                    if let Some(draft) = self.displays.get(&id) {
                        if request_id >= draft.latest_request_id {
                            let mut draft = draft.clone();
                            draft.info.last_error = message.clone();
                            self.displays.insert(id, draft);
                        }
                    }
                }
                assert(self@.displays.dom() =~= before.displays.dom());
                self.last_error = Some(message);
            },
        }
    }

    /// A refresh with this number is waited for no more.
    fn forget_refresh(&mut self, request_id: u64)
        requires
            old(self).wf(),
        ensures
            final(self).wf(),
            final(self)@ == (AppletView {
                refresh_request_id: if old(self)@.refresh_request_id == Some(request_id) {
                    None
                } else {
                    old(self)@.refresh_request_id
                },
                ..old(self)@
            }),
    {
        if let Some(waiting) = self.refresh_request_id {
            if waiting == request_id {
                self.refresh_request_id = None;
            }
        }
    }

    /// The worker has gone away without being asked to.
    pub fn worker_stopped(&mut self)
        requires
            old(self).wf(),
        ensures
            final(self).wf(),
            final(self)@ == (if old(self)@.worker_running {
                AppletView {
                    loading: false,
                    refresh_request_id: None,
                    ..old(self)@.without_worker("The D-Bus worker stopped unexpectedly."@)
                }
            } else {
                old(self)@
            }),
    {
        if self.worker_running {
            self.worker_running = false;
            self.loading = false;
            self.refresh_request_id = None;
            self.pending_writes = KeyedMap::new();
            self.in_flight = KeyedMap::new();
            self.last_error = Some("The D-Bus worker stopped unexpectedly.".to_owned());
        }
    }

    /// Makes a waiting write due at once, if there is one.
    fn hasten(&mut self, display_id: &str, kind: WriteKind, now: u64)
        requires
            old(self).wf(),
        ensures
            final(self).wf(),
            final(self)@ == (AppletView {
                pending_writes: if old(self)@.pending_writes.contains_key((display_id@, kind)) {
                    old(self)@.pending_writes.insert(
                        (display_id@, kind),
                        PendingWrite {
                            due_at: now,
                            ..old(self)@.pending_writes[(display_id@, kind)]
                        },
                    )
                } else {
                    old(self)@.pending_writes
                },
                ..old(self)@
            }),
    {
        let key = PendingKey { display_id: display_id.to_owned(), kind };
        let mut write: PendingWrite = match self.pending_writes.get(&key) {
            Some(write) => *write,
            None => return,
        };
        write.due_at = now;
        self.pending_writes.insert(key, write);
    }

    /// Asks for a write. It waits until the slider rests; writes for the other
    /// controls of the display are due at once, so that the display is written
    /// in the order in which its controls were moved.
    pub fn queue_write(&mut self, display_id: &str, kind: WriteKind, value: WriteValue, now: u64)
        requires
            old(self).wf(),
            now + WRITE_DEBOUNCE <= u64::MAX,
        ensures
            final(self).wf(),
            final(self)@ == after_queueing(old(self)@, display_id@, kind, value, now),
    {
        if !self.worker_running {
            return;
        }
        let ghost before = self@;
        if kind != WriteKind::Unified {
            self.hasten(display_id, WriteKind::Unified, now);
        }
        if kind != WriteKind::Ddc {
            self.hasten(display_id, WriteKind::Ddc, now);
        }
        if kind != WriteKind::Gamma {
            self.hasten(display_id, WriteKind::Gamma, now);
        }
        proof {
            let expected = hastened(before.pending_writes, display_id@, kind, now);
            assert forall|key: (Seq<char>, WriteKind)| #[trigger]
                self@.pending_writes.contains_key(key) implies self@.pending_writes[key]
                == expected[key] by {
                assert(key.1 == WriteKind::Unified || key.1 == WriteKind::Ddc || key.1
                    == WriteKind::Gamma);
            }
            assert(self@.pending_writes =~= expected);
        }
        let request_id = self.allocate_request_id();
        self.pending_writes.insert(
            PendingKey { display_id: display_id.to_owned(), kind },
            PendingWrite { request_id, value, due_at: now + WRITE_DEBOUNCE },
        );
        let id = display_id.to_owned();
        if let Some(draft) = self.displays.get(&id) {
            let mut draft = draft.clone();
            draft.latest_request_id = request_id;
            self.displays.insert(id, draft);
            assert(self@.displays.dom() =~= before.displays.dom());
        }
    }

    /// The write that is to be handed to the worker next, if one is due.
    pub fn next_due_write(&self, now: u64) -> (r: Option<DueWrite>)
        requires
            self.wf(),
        ensures
            match r {
                Some(write) => {
                    &&& self@.worker_running
                    &&& due_first(self@, write.key@, now)
                    &&& write.command@ == (WorkerCommandView::Write {
                        request_id: self@.pending_writes[write.key@].request_id,
                        display_id: write.key@.0,
                        value: self@.pending_writes[write.key@].value,
                    })
                },
                None => self@.worker_running ==> forall|key: (Seq<char>, WriteKind)|
                    !#[trigger] due(self@, key, now),
            },
    {
        if !self.worker_running {
            return None;
        }
        let ghost keys = self.pending_writes.keys();
        let ghost writes = self.pending_writes.values();
        let mut best: Option<usize> = None;
        let count = self.pending_writes.len();
        for i in 0..count
            invariant
                self.pending_writes.wf(),
                keys == self.pending_writes.keys(),
                writes == self.pending_writes.values(),
                count == keys.len(),
                match best {
                    Some(b) => {
                        &&& b < i
                        &&& writes[b as int].due_at <= now
                        &&& forall|j: int|
                            0 <= j < i && (#[trigger] writes[j]).due_at <= now
                                ==> writes[b as int].request_id < writes[j].request_id || (
                            writes[b as int].request_id == writes[j].request_id && b <= j)
                    },
                    None => forall|j: int| 0 <= j < i ==> (#[trigger] writes[j]).due_at > now,
                },
        {
            let write = self.pending_writes.value_at(i);
            if write.due_at <= now {
                let better = match best {
                    Some(b) => write.request_id < self.pending_writes.value_at(b).request_id,
                    None => true,
                };
                if better {
                    best = Some(i);
                }
            }
        }
        match best {
            Some(b) => {
                let key = self.pending_writes.key_at(b).clone();
                let write: PendingWrite = *self.pending_writes.value_at(b);
                let command = write.command(key.display_id.clone());
                proof {
                    self.pending_writes.entry_at(b as int);
                    assert forall|other: (Seq<char>, WriteKind)| #[trigger]
                        due(self@, other, now) implies {
                        ||| self@.pending_writes[key@].request_id
                            < self@.pending_writes[other].request_id
                        ||| {
                            &&& self@.pending_writes[key@].request_id
                                == self@.pending_writes[other].request_id
                            &&& !crate::order::precedes(
                                PendingKey::rank_of(other),
                                PendingKey::rank_of(key@),
                            )
                        }
                    } by {
                        let p = self.pending_writes.position(other);
                        assert(keys[p] == other);
                        self.pending_writes.entry_at(p);
                        assert(writes[p].due_at <= now);
                        crate::order::precedes_is_total(
                            PendingKey::rank_of(keys[b as int]),
                            PendingKey::rank_of(other),
                        );
                        crate::order::precedes_is_irreflexive(PendingKey::rank_of(other));
                    }
                }
                Some(DueWrite { key, command })
            },
            None => {
                proof {
                    assert forall|key: (Seq<char>, WriteKind)| !#[trigger] due(
                        self@,
                        key,
                        now,
                    ) by {
                        if due(self@, key, now) {
                            let p = self.pending_writes.position(key);
                            assert(keys[p] == key);
                            self.pending_writes.entry_at(p);
                            assert(writes[p].due_at > now);
                        }
                    }
                }
                None
            },
        }
    }

    /// Notes what came of handing a due write to the worker. The result says
    /// whether to go on with the next one.
    pub fn write_handed_over(&mut self, key: PendingKey, outcome: Handover, now: u64) -> (r: bool)
        requires
            old(self).wf(),
            now + BUSY_DELAY <= u64::MAX,
        ensures
            final(self).wf(),
            final(self)@ == after_handover(old(self)@, key@, outcome, now),
            r == (outcome == Handover::Sent || !old(self)@.pending_writes.contains_key(key@)),
    {
        let mut write: PendingWrite = match self.pending_writes.remove(&key) {
            Some(write) => write,
            None => {
                assert(self@.pending_writes =~= old(self)@.pending_writes);
                return true;
            },
        };
        match outcome {
            Handover::Sent => {
                self.in_flight.insert(write.request_id, key.display_id);
                true
            },
            Handover::Full => {
                write.due_at = now + BUSY_DELAY;
                let ghost expected = old(self)@.pending_writes.insert(key@, write);
                self.pending_writes.insert(key, write);
                assert(self@.pending_writes =~= expected);
                false
            },
            Handover::Disconnected => {
                self.worker_running = false;
                self.pending_writes = KeyedMap::new();
                self.in_flight = KeyedMap::new();
                self.last_error = Some("The D-Bus worker is no longer available.".to_owned());
                false
            },
        }
    }

    /// When the next waiting write is due.
    pub fn next_due_at(&self) -> (r: Option<u64>)
        requires
            self.wf(),
        ensures
            match r {
                Some(at) => {
                    &&& exists|key: (Seq<char>, WriteKind)| #[trigger]
                        self@.pending_writes.contains_key(key) && self@.pending_writes[key].due_at
                            == at
                    &&& forall|key: (Seq<char>, WriteKind)| #[trigger]
                        self@.pending_writes.contains_key(key)
                            ==> self@.pending_writes[key].due_at >= at
                },
                None => forall|key: (Seq<char>, WriteKind)|
                    !#[trigger] self@.pending_writes.contains_key(key),
            },
    {
        let ghost keys = self.pending_writes.keys();
        let ghost writes = self.pending_writes.values();
        let mut best: Option<u64> = None;
        let ghost mut at: int = 0;
        let count = self.pending_writes.len();
        for i in 0..count
            invariant
                self.pending_writes.wf(),
                keys == self.pending_writes.keys(),
                writes == self.pending_writes.values(),
                count == keys.len(),
                match best {
                    Some(due_at) => {
                        &&& 0 <= at < i
                        &&& writes[at].due_at == due_at
                        &&& forall|j: int| 0 <= j < i ==> (#[trigger] writes[j]).due_at >= due_at
                    },
                    None => i == 0,
                },
        {
            let due_at: u64 = self.pending_writes.value_at(i).due_at;
            let earlier = match best {
                Some(known) => due_at < known,
                None => true,
            };
            if earlier {
                best = Some(due_at);
                proof {
                    at = i as int;
                }
            }
        }
        proof {
            assert forall|key: (Seq<char>, WriteKind)| #[trigger]
                self@.pending_writes.contains_key(key) implies best is Some
                && self@.pending_writes[key].due_at >= best->Some_0 by {
                let p = self.pending_writes.position(key);
                assert(keys[p] == key);
                self.pending_writes.entry_at(p);
                assert(writes[p].due_at == self@.pending_writes[key].due_at);
            }
            if best is Some {
                self.pending_writes.entry_at(at);
            }
        }
        best
    }

    /// The refresh to hand to the worker, unless one is waited for already.
    pub fn request_refresh(&mut self) -> (r: Option<WorkerCommand>)
        requires
            old(self).wf(),
        ensures
            final(self).wf(),
            if old(self)@.worker_running && old(self)@.refresh_request_id is None {
                &&& r is Some
                &&& r->Some_0@ == (WorkerCommandView::Refresh {
                    request_id: old(self)@.next_request_id,
                    rescan: true,
                })
                &&& final(self)@ == (AppletView {
                    next_request_id: successor(old(self)@.next_request_id),
                    ..old(self)@
                })
            } else {
                r is None && final(self)@ == old(self)@
            },
    {
        if !self.worker_running || self.refresh_request_id.is_some() {
            return None;
        }
        let request_id = self.allocate_request_id();
        Some(WorkerCommand::Refresh { request_id, rescan: true })
    }

    /// Notes what came of handing a refresh to the worker.
    pub fn refresh_handed_over(&mut self, request_id: u64, outcome: Handover)
        requires
            old(self).wf(),
        ensures
            final(self).wf(),
            final(self)@ == match outcome {
                Handover::Sent => AppletView {
                    refresh_request_id: Some(request_id),
                    last_error: None,
                    ..old(self)@
                },
                Handover::Full => AppletView {
                    last_error: Some("The D-Bus worker is busy; try refreshing again."@),
                    ..old(self)@
                },
                Handover::Disconnected => AppletView {
                    worker_running: false,
                    last_error: Some("The D-Bus worker is no longer available."@),
                    ..old(self)@
                },
            },
    {
        match outcome {
            Handover::Sent => {
                self.refresh_request_id = Some(request_id);
                self.last_error = None;
            },
            Handover::Full => {
                self.last_error =
                    Some("The D-Bus worker is busy; try refreshing again.".to_owned());
            },
            Handover::Disconnected => {
                self.worker_running = false;
                self.last_error = Some("The D-Bus worker is no longer available.".to_owned());
            },
        }
    }
}

impl WlightApplet {
    /// The identifiers of the displays, in the order in which they are listed.
    pub fn display_order(&self) -> (r: Vec<String>)
        ensures
            crate::model::views(r@) == self@.display_order,
    {
        let mut out: Vec<String> = Vec::new();
        for i in 0..self.display_order.len()
            invariant
                crate::model::views(out@) =~= self@.display_order.take(i as int),
        {
            let id = self.display_order[i].clone();
            proof {
                crate::model::views_push(out@, id);
            }
            out.push(id);
        }
        assert(crate::model::views(out@) =~= self@.display_order);
        out
    }

    /// The draft of a display.
    pub fn draft(&self, id: &str) -> (r: Option<DisplayDraft>)
        requires
            self.wf(),
        ensures
            crate::model::seen(r) == (if self@.displays.contains_key(id@) {
                Some(self@.displays[id@])
            } else {
                None
            }),
    {
        match self.displays.get(&id.to_owned()) {
            Some(draft) => Some(draft.clone()),
            None => None,
        }
    }

    /// Puts a draft back after its sliders were moved.
    pub fn put_draft(&mut self, id: &str, draft: DisplayDraft)
        requires
            old(self).wf(),
        ensures
            final(self).wf(),
            final(self)@ == (AppletView {
                displays: if old(self)@.displays.contains_key(id@) {
                    old(self)@.displays.insert(id@, draft@)
                } else {
                    old(self)@.displays
                },
                ..old(self)@
            }),
    {
        let key = id.to_owned();
        if self.displays.contains(&key) {
            self.displays.insert(key, draft);
            assert(self@.displays.dom() =~= old(self)@.displays.dom());
        }
    }

    /// Whether a refresh can be asked for: not while one is waited for, nor
    /// while writes wait.
    pub fn can_refresh(&self) -> (r: bool)
        requires
            self.wf(),
        ensures
            r == (self@.worker_running && self@.refresh_request_id is None
                && self@.pending_writes.dom() == Set::<(Seq<char>, WriteKind)>::empty()),
    {
        proof {
            let keys = self.pending_writes.keys();
            self.pending_writes.keys_are_distinct();
            if keys.len() == 0 {
                assert(self@.pending_writes.dom() =~= Set::empty());
            } else {
                assert(keys.to_set().contains(keys[0]));
            }
        }
        self.worker_running && self.refresh_request_id.is_none() && self.pending_writes.len() == 0
    }

    /// Whether the daemon's first answer is waited for.
    pub fn is_loading(&self) -> (r: bool)
        ensures
            r == self@.loading,
    {
        self.loading
    }

    /// Whether an answer about all displays is waited for.
    pub fn is_refreshing(&self) -> (r: bool)
        ensures
            r == (self@.loading || self@.refresh_request_id is Some),
    {
        self.loading || self.refresh_request_id.is_some()
    }

    /// Whether the worker runs.
    pub fn is_worker_running(&self) -> (r: bool)
        ensures
            r == self@.worker_running,
    {
        self.worker_running
    }

    /// What went wrong last.
    pub fn last_error(&self) -> (r: Option<String>)
        ensures
            crate::model::seen(r) == self@.last_error,
    {
        match &self.last_error {
            Some(message) => Some(message.clone()),
            None => None,
        }
    }
}

/// An answer to an earlier request does not overwrite a draft that a later
/// request has touched: neither a display that was updated, nor a snapshot, nor
/// a failure.
pub proof fn later_requests_win(
    state: AppletView,
    id: Seq<char>,
    request_id: u64,
    infos: Seq<crate::brightness::DisplayInfoView>,
    message: Seq<char>,
)
    requires
        state.displays.contains_key(id),
        state.displays[id].latest_request_id > request_id,
    ensures
        ({
            let snapshot = after_event(
                state,
                WorkerEventView::Snapshot { request_id, displays: infos },
            ).0.displays;
            let failed = after_event(
                state,
                WorkerEventView::Failed { request_id, display_id: Some(id), message },
            ).0.displays;
            &&& snapshot.contains_key(id) && snapshot[id] == state.displays[id]
            &&& failed.contains_key(id) && failed[id] == state.displays[id]
            &&& forall|k: int|
                0 <= k < infos.len() ==> {
                    let updated = after_event(
                        state,
                        WorkerEventView::DisplayUpdated {
                            request_id,
                            display: #[trigger] infos[k],
                        },
                    ).0.displays;
                    updated.contains_key(id) && updated[id] == state.displays[id]
                }
        }),
{
    lemma_later_draft_stays(state.displays, infos, request_id, id);
}

proof fn lemma_later_draft_stays(
    drafts: Map<Seq<char>, DraftView>,
    infos: Seq<crate::brightness::DisplayInfoView>,
    request_id: u64,
    id: Seq<char>,
)
    requires
        drafts.contains_key(id),
        drafts[id].latest_request_id > request_id,
    ensures
        heard_of_all(drafts, infos, request_id).contains_key(id),
        heard_of_all(drafts, infos, request_id)[id] == drafts[id],
    decreases infos.len(),
{
    if infos.len() > 0 {
        lemma_later_draft_stays(drafts, infos.drop_last(), request_id, id);
    }
}

proof fn lemma_drafts_stay(
    drafts: Map<Seq<char>, DraftView>,
    infos: Seq<crate::brightness::DisplayInfoView>,
    request_id: u64,
)
    ensures
        forall|id: Seq<char>| #[trigger]
            heard_of_all(drafts, infos, request_id).contains_key(id) == (drafts.contains_key(id)
                || mentions(infos, id)),
    decreases infos.len(),
{
    if infos.len() > 0 {
        let front = infos.drop_last();
        lemma_drafts_stay(drafts, front, request_id);
        assert forall|id: Seq<char>| #[trigger]
            heard_of_all(drafts, infos, request_id).contains_key(id) == (drafts.contains_key(id)
                || mentions(infos, id)) by {
            if mentions(front, id) {
                let i = choose|i: int| 0 <= i < front.len() && (#[trigger] front[i]).id == id;
                assert(infos[i].id == id);
            }
            if mentions(infos, id) {
                let i = choose|i: int| 0 <= i < infos.len() && (#[trigger] infos[i]).id == id;
                if i < front.len() {
                    assert(front[i].id == id);
                }
            }
            if infos.last().id == id {
                assert(infos[infos.len() - 1].id == id);
            }
            assert(heard_of_all(drafts, front, request_id).contains_key(id) == (
            drafts.contains_key(id) || mentions(front, id)));
        }
    }
}

/// After a snapshot there is a draft for every display in it and for every
/// display that is being written; a display that is neither is dropped, unless
/// a later request has touched it.
pub proof fn snapshots_keep_displays_in_use(
    state: AppletView,
    infos: Seq<crate::brightness::DisplayInfoView>,
    request_id: u64,
    id: Seq<char>,
)
    ensures
        mentions(infos, id) ==> drafts_after_snapshot(state, infos, request_id).contains_key(id),
        state.displays.contains_key(id) && state.busy(id) ==> drafts_after_snapshot(
            state,
            infos,
            request_id,
        ).contains_key(id),
        !mentions(infos, id) && !state.busy(id) && (state.displays.contains_key(id)
            ==> state.displays[id].latest_request_id <= request_id) ==> !drafts_after_snapshot(
            state,
            infos,
            request_id,
        ).contains_key(id),
{
    lemma_drafts_stay(state.displays, infos, request_id);
    assert(heard_of_all(state.displays, infos, request_id).contains_key(id) == (
    state.displays.contains_key(id) || mentions(infos, id)));
    if !mentions(infos, id) && state.displays.contains_key(id) {
        lemma_unmentioned_draft_stays(state.displays, infos, request_id, id);
    }
}

proof fn lemma_unmentioned_draft_stays(
    drafts: Map<Seq<char>, DraftView>,
    infos: Seq<crate::brightness::DisplayInfoView>,
    request_id: u64,
    id: Seq<char>,
)
    requires
        drafts.contains_key(id),
        !mentions(infos, id),
    ensures
        heard_of_all(drafts, infos, request_id).contains_key(id),
        heard_of_all(drafts, infos, request_id)[id] == drafts[id],
    decreases infos.len(),
{
    if infos.len() > 0 {
        let front = infos.drop_last();
        assert(infos[infos.len() - 1].id != id);
        if mentions(front, id) {
            let i = choose|i: int| 0 <= i < front.len() && (#[trigger] front[i]).id == id;
            assert(infos[i].id == id);
        }
        lemma_unmentioned_draft_stays(drafts, front, request_id, id);
    }
}

/// Moving a slider again replaces the write that waits for it: the last value
/// is written, and only once the slider has rested.
pub proof fn only_the_last_value_waits(
    state: AppletView,
    id: Seq<char>,
    kind: WriteKind,
    first: WriteValue,
    second: WriteValue,
    then: u64,
    now: u64,
)
    requires
        state.worker_running,
        then <= now,
        now + WRITE_DEBOUNCE <= u64::MAX,
    ensures
        ({
            let after = after_queueing(
                after_queueing(state, id, kind, first, then),
                id,
                kind,
                second,
                now,
            );
            &&& after.busy(id)
            &&& after.pending_writes[(id, kind)].value == second
            &&& after.pending_writes[(id, kind)].due_at == now + WRITE_DEBOUNCE
            &&& forall|at: u64|
                at < now + WRITE_DEBOUNCE ==> !#[trigger] due(after, (id, kind), at)
            &&& after.displays.contains_key(id) ==> after.displays[id].latest_request_id
                == after.pending_writes[(id, kind)].request_id
        }),
{
    let after = after_queueing(
        after_queueing(state, id, kind, first, then),
        id,
        kind,
        second,
        now,
    );
    assert(after.pending_writes.contains_key((id, kind)));
}

/// A control that was moved before another one of the same display is written
/// before it: once the other is moved, it is due at once, and what was asked
/// for first is handed over first.
pub proof fn controls_are_written_in_the_order_they_were_moved(
    state: AppletView,
    id: Seq<char>,
    kind: WriteKind,
    other: WriteKind,
    value: WriteValue,
    now: u64,
)
    requires
        state.worker_running,
        kind != other,
        now + WRITE_DEBOUNCE <= u64::MAX,
        state.pending_writes.contains_key((id, other)),
        well_numbered(state),
        state.next_request_id < u64::MAX,
    ensures
        ({
            let after = after_queueing(state, id, kind, value, now);
            &&& due(after, (id, other), now)
            &&& after.pending_writes[(id, other)].request_id
                < after.pending_writes[(id, kind)].request_id
            &&& after.pending_writes[(id, other)].value == state.pending_writes[(id, other)].value
            &&& forall|at: u64| at >= now ==> !#[trigger] due_first(after, (id, kind), at)
        }),
{
    let after = after_queueing(state, id, kind, value, now);
    assert forall|at: u64| at >= now implies !#[trigger] due_first(after, (id, kind), at) by {
        assert(due(after, (id, other), at));
    }
}

/// A write that was handed over is on its way until it is answered, and a write
/// that could not be handed over is not lost while the worker runs.
pub proof fn writes_are_not_lost(
    state: AppletView,
    key: (Seq<char>, WriteKind),
    outcome: Handover,
    now: u64,
)
    requires
        state.pending_writes.contains_key(key),
        now + BUSY_DELAY <= u64::MAX,
    ensures
        ({
            let after = after_handover(state, key, outcome, now);
            let write = state.pending_writes[key];
            &&& outcome != Handover::Disconnected ==> after.busy(key.0)
            &&& outcome == Handover::Sent ==> after.in_flight.contains_key(write.request_id)
                && after.in_flight[write.request_id] == key.0
            &&& outcome == Handover::Full ==> after.pending_writes.contains_key(key)
                && after.pending_writes[key].value == write.value
                && after.pending_writes[key].request_id == write.request_id
        }),
{
    let after = after_handover(state, key, outcome, now);
    let write = state.pending_writes[key];
    if outcome == Handover::Sent {
        assert(after.in_flight.contains_key(write.request_id));
    } else if outcome == Handover::Full {
        assert(after.pending_writes.contains_key((key.0, key.1)));
    }
}

/// What a slider asks for is a fraction that the daemon accepts.
pub proof fn sliders_ask_for_fractions(percent: Binary64)
    requires
        !percent.nan(),
    ensures
        slider_fraction(percent).fraction(),
{
    crate::binary64::lemma_literals();
    crate::binary64::lemma_size_zero(0);
    let x = crate::binary64::quotient(percent, hundred());
    if percent.finite() {
        crate::rounding::rounding_is_monotone(
            percent.size() * crate::rounding::one(),
            percent.size() * crate::rounding::one(),
            hundred().size(),
        );
    }
    assert(!x.nan());
}

/// A draft shows what a display is: its values are those of the display, with
/// gamma in hundredths, and the effective brightness is what both controls let
/// through.
pub proof fn drafts_show_their_display(
    info: crate::brightness::DisplayInfoView,
    request_id: u64,
)
    requires
        info.ddc_supported ==> info.ddc_brightness <= 100,
        !info.gamma_brightness.nan(),
        0 <= info.gamma_brightness.value() <= crate::rounding::one(),
    ensures
        ({
            let draft = draft_of(info, request_id);
            let percent = if info.ddc_supported {
                info.ddc_brightness as int
            } else {
                100
            };
            let gamma = if info.gamma_supported {
                info.gamma_brightness.value()
            } else {
                crate::rounding::one() as int
            };
            &&& draft.info == info
            &&& draft.latest_request_id == request_id
            &&& draft.ddc_percent <= 100
            &&& info.ddc_brightness <= 100 ==> draft.ddc_percent == info.ddc_brightness
            &&& info.ddc_brightness > 100 ==> draft.ddc_percent == 100
            &&& !draft.gamma_percent.nan()
            &&& crate::binary64::gap(
                draft.gamma_percent.value(),
                100 * info.gamma_brightness.value(),
            ) <= 32 * crate::binary64::epsilon().value()
            &&& !draft.effective_percent.nan()
            &&& crate::binary64::gap(draft.effective_percent.value(), percent * gamma) <= 164
                * crate::binary64::epsilon().value()
        }),
{
    crate::binary64::lemma_literals();
    crate::brightness::lemma_fraction_is_finite(info.gamma_brightness);
    crate::brightness::lemma_near_percent(info.gamma_brightness);
    crate::brightness::light_is_what_both_controls_let_through(info);
}

/// A slider asks for a hundredth of where it stands, or for the limit that it
/// stands beyond.
pub proof fn sliders_ask_for_where_they_stand(draft: DraftView)
    requires
        !draft.effective_percent.nan(),
        !draft.gamma_percent.nan(),
        0 <= draft.effective_percent.value() <= 100 * crate::rounding::one(),
        0 <= draft.gamma_percent.value() <= 100 * crate::rounding::one(),
    ensures
        draft.asked_by(WriteKind::Unified) matches WriteValue::Unified(brightness) && {
            &&& !brightness.nan()
            &&& 0 <= brightness.value() <= crate::rounding::one()
            &&& crate::binary64::gap(100 * brightness.value(), draft.effective_percent.value())
                <= 50 * crate::binary64::epsilon().value()
        },
        draft.asked_by(WriteKind::Gamma) matches WriteValue::Gamma(brightness) && {
            &&& !brightness.nan()
            &&& 0 <= brightness.value() <= crate::rounding::one()
            &&& crate::binary64::gap(100 * brightness.value(), draft.gamma_percent.value()) <= 50
                * crate::binary64::epsilon().value()
        },
        draft.asked_by(WriteKind::Ddc) == WriteValue::Ddc(draft.ddc_percent),
{
    crate::binary64::lemma_literals();
    crate::brightness::lemma_near_hundredth(draft.effective_percent);
    crate::brightness::lemma_near_hundredth(draft.gamma_percent);
}

/// Once a single slider was moved, the slider for the effective brightness shows
/// what the two single ones let through; moving it itself moves nothing else.
pub proof fn the_effective_slider_follows_the_single_ones(draft: DraftView)
    requires
        draft.info.ddc_supported ==> draft.ddc_percent <= 100,
        !draft.gamma_percent.nan(),
        0 <= draft.gamma_percent.value() <= 100 * crate::rounding::one(),
    ensures
        draft.after_moving(WriteKind::Unified) == draft,
        draft.after_moving(WriteKind::Ddc) == draft.after_moving(WriteKind::Gamma),
        ({
            let after = draft.after_moving(WriteKind::Ddc);
            let percent = if draft.info.ddc_supported {
                draft.ddc_percent as int
            } else {
                100
            };
            let gamma = if draft.info.gamma_supported {
                draft.gamma_percent.value()
            } else {
                100 * (crate::rounding::one() as int)
            };
            &&& after == (DraftView { effective_percent: after.effective_percent, ..draft })
            &&& !after.effective_percent.nan()
            &&& 0 <= after.effective_percent.value() <= 100 * crate::rounding::one()
            &&& crate::binary64::gap(100 * after.effective_percent.value(), percent * gamma)
                <= 21400 * crate::binary64::epsilon().value()
        }),
{
    crate::binary64::lemma_literals();
    crate::brightness::lemma_near_hundredth(draft.gamma_percent);
    let o = crate::rounding::one();
    let e = crate::binary64::epsilon().size();
    let percent: nat = if draft.info.ddc_supported {
        draft.ddc_percent as nat
    } else {
        100
    };
    let hardware = if draft.info.ddc_supported {
        crate::brightness::hardware_share(draft.ddc_percent)
    } else {
        unity()
    };
    let q = crate::binary64::quotient(draft.gamma_percent, hundred());
    let gamma = if draft.info.gamma_supported {
        q
    } else {
        unity()
    };
    let level: nat = if draft.info.gamma_supported {
        draft.gamma_percent.size()
    } else {
        100 * o
    };
    if draft.info.ddc_supported {
        crate::brightness::shares_are_hundredths(draft.ddc_percent);
    }
    crate::brightness::lemma_fraction_is_finite(hardware);
    crate::brightness::lemma_fraction_is_finite(gamma);
    crate::brightness::lemma_near_emitted(hardware, gamma);
    let s = hardware.size();
    let g = gamma.size();
    let shown = crate::brightness::emitted_percent(hardware, gamma).value();
    let lit = s * g;
    assert(draft.gamma_percent.value() == draft.gamma_percent.size());
    assert(100 * g <= level + 50 * e && level <= 100 * g + 50 * e);
    assert(100 * s <= percent * o + 82 * e && percent * o <= 100 * s + 82 * e);
    assert(shown <= percent * g + 164 * e && percent * g <= shown + 164 * e) by (nonlinear_arith)
        requires
            lit == s * g,
            2 * (shown * o) <= 200 * lit + (164 * e) * o,
            200 * lit <= 2 * (shown * o) + (164 * e) * o,
            100 * s <= percent * o + 82 * e,
            percent * o <= 100 * s + 82 * e,
            g <= o,
            o > 0,
    {
        assert((100 * s) * g <= (percent * o + 82 * e) * g);
        assert((percent * o) * g <= (100 * s + 82 * e) * g);
        assert((82 * e) * g <= (82 * e) * o);
        assert((percent * o) * g == (percent * g) * o);
    }
    assert(100 * (percent * g) <= percent * level + 5000 * e && percent * level <= 100 * (percent
        * g) + 5000 * e) by (nonlinear_arith)
        requires
            100 * g <= level + 50 * e,
            level <= 100 * g + 50 * e,
            percent <= 100,
    {
        assert(percent * (100 * g) <= percent * (level + 50 * e));
        assert(percent * level <= percent * (100 * g + 50 * e));
        assert(percent * (50 * e) <= 100 * (50 * e));
    }
}

proof fn lemma_heard_last(
    drafts: Map<Seq<char>, DraftView>,
    infos: Seq<crate::brightness::DisplayInfoView>,
    request_id: u64,
    k: int,
)
    requires
        0 <= k < infos.len(),
        forall|j: int| k < j < infos.len() ==> (#[trigger] infos[j]).id != infos[k].id,
        drafts.contains_key(infos[k].id) ==> drafts[infos[k].id].latest_request_id <= request_id,
    ensures
        heard_of_all(drafts, infos, request_id).contains_key(infos[k].id),
        heard_of_all(drafts, infos, request_id)[infos[k].id] == draft_of(infos[k], request_id),
    decreases infos.len(),
{
    let front = infos.drop_last();
    if k < front.len() {
        assert(front[k] == infos[k]);
        assert forall|j: int| k < j < front.len() implies (#[trigger] front[j]).id
            != front[k].id by {
            assert(infos[j].id != infos[k].id);
        }
        lemma_heard_last(drafts, front, request_id, k);
        assert(infos[infos.len() - 1].id != infos[k].id);
    } else {
        lemma_not_later(drafts, front, request_id, infos[k].id);
    }
}

proof fn lemma_not_later(
    drafts: Map<Seq<char>, DraftView>,
    infos: Seq<crate::brightness::DisplayInfoView>,
    request_id: u64,
    id: Seq<char>,
)
    requires
        drafts.contains_key(id) ==> drafts[id].latest_request_id <= request_id,
    ensures
        ({
            let all = heard_of_all(drafts, infos, request_id);
            all.contains_key(id) ==> all[id].latest_request_id <= request_id
        }),
    decreases infos.len(),
{
    if infos.len() > 0 {
        lemma_not_later(drafts, infos.drop_last(), request_id, id);
    }
}

/// A snapshot is taken over: each of its displays that no later request has
/// touched is shown as the snapshot has it, by a draft that was made from it;
/// a display that is not in the snapshot keeps its draft or is dropped.
pub proof fn snapshots_are_taken_over(
    state: AppletView,
    infos: Seq<crate::brightness::DisplayInfoView>,
    request_id: u64,
    k: int,
    other: Seq<char>,
)
    requires
        0 <= k < infos.len(),
        forall|j: int| k < j < infos.len() ==> (#[trigger] infos[j]).id != infos[k].id,
        state.displays.contains_key(infos[k].id) ==> state.displays[infos[k].id].latest_request_id
            <= request_id,
        forall|j: int| 0 <= j < infos.len() ==> (#[trigger] infos[j]).id != other,
    ensures
        ({
            let after = after_event(
                state,
                WorkerEventView::Snapshot { request_id, displays: infos },
            ).0.displays;
            let id = infos[k].id;
            &&& drafts_after_snapshot(state, infos, request_id).contains_key(id)
            &&& drafts_after_snapshot(state, infos, request_id)[id] == draft_of(
                infos[k],
                request_id,
            )
            &&& after.contains_key(id)
            &&& after[id].info == infos[k]
            &&& after[id].latest_request_id == request_id
            &&& after[id] == draft_of(infos[k], request_id)
            &&& after.contains_key(other) ==> state.displays.contains_key(other) && after[other]
                == state.displays[other]
        }),
{
    lemma_heard_last(state.displays, infos, request_id, k);
    assert(mentions(infos, infos[k].id));
    lemma_drafts_stay(state.displays, infos, request_id);
    assert(heard_of_all(state.displays, infos, request_id).contains_key(other) == (
    state.displays.contains_key(other) || mentions(infos, other)));
    if state.displays.contains_key(other) {
        lemma_unmentioned_draft_stays(state.displays, infos, request_id, other);
    }
}

/// A snapshot ends the waiting for its refresh, and with it what was wrong;
/// writes that wait or are on their way go on.
pub proof fn snapshots_end_a_refresh(
    state: AppletView,
    infos: Seq<crate::brightness::DisplayInfoView>,
    request_id: u64,
)
    ensures
        ({
            let (after, relisted) = after_event(
                state,
                WorkerEventView::Snapshot { request_id, displays: infos },
            );
            &&& relisted
            &&& !after.loading
            &&& after.last_error is None
            &&& state.refresh_request_id == Some(request_id) ==> after.refresh_request_id is None
            &&& state.refresh_request_id != Some(request_id) ==> after.refresh_request_id
                == state.refresh_request_id
            &&& after.pending_writes == state.pending_writes
            &&& after.in_flight == state.in_flight
            &&& after.next_request_id == state.next_request_id
            &&& after.worker_running == state.worker_running
        }),
{
}

/// An answer about one display is taken over unless a later request has touched
/// the display; the request is no longer on its way, nothing is wrong any more,
/// and other displays and requests are left alone.
pub proof fn updates_are_taken_over(
    state: AppletView,
    info: crate::brightness::DisplayInfoView,
    request_id: u64,
    other: Seq<char>,
    request: u64,
)
    requires
        other != info.id,
        request != request_id,
    ensures
        ({
            let (after, relisted) = after_event(
                state,
                WorkerEventView::DisplayUpdated { request_id, display: info },
            );
            let known = state.displays.contains_key(info.id);
            &&& after.displays.contains_key(info.id)
            &&& !known || state.displays[info.id].latest_request_id <= request_id
                ==> after.displays[info.id] == draft_of(info, request_id)
                && after.displays[info.id].info == info
                && after.displays[info.id].latest_request_id == request_id
            &&& known && state.displays[info.id].latest_request_id > request_id
                ==> after.displays[info.id] == state.displays[info.id]
            &&& after.displays.contains_key(other) == state.displays.contains_key(other)
            &&& state.displays.contains_key(other) ==> after.displays[other]
                == state.displays[other]
            &&& !after.in_flight.contains_key(request_id)
            &&& after.in_flight.contains_key(request) == state.in_flight.contains_key(request)
            &&& state.in_flight.contains_key(request) ==> after.in_flight[request]
                == state.in_flight[request]
            &&& after.last_error is None
            &&& relisted == !known
            &&& after.pending_writes == state.pending_writes
            &&& after.next_request_id == state.next_request_id
            &&& after.refresh_request_id == state.refresh_request_id
            &&& after.loading == state.loading
            &&& after.worker_running == state.worker_running
            &&& after.display_order == state.display_order
        }),
{
}

/// A failure is shown, and by its display too unless a later request has touched
/// that; what the sliders show stays as it is. The request is no longer waited
/// for.
pub proof fn failures_are_shown(
    state: AppletView,
    request_id: u64,
    display_id: Option<Seq<char>>,
    message: Seq<char>,
    id: Seq<char>,
    request: u64,
)
    requires
        request != request_id,
    ensures
        ({
            let (after, relisted) = after_event(
                state,
                WorkerEventView::Failed { request_id, display_id, message },
            );
            let known = state.displays.contains_key(id);
            let concerned = display_id == Some(id) && known
                && state.displays[id].latest_request_id <= request_id;
            &&& after.last_error == Some(message)
            &&& after.displays.contains_key(id) == known
            &&& concerned ==> after.displays[id].info.last_error == message
            &&& known && !concerned ==> after.displays[id] == state.displays[id]
            &&& known ==> {
                let draft = state.displays[id];
                let shown = after.displays[id];
                &&& shown.effective_percent == draft.effective_percent
                &&& shown.ddc_percent == draft.ddc_percent
                &&& shown.gamma_percent == draft.gamma_percent
                &&& shown.latest_request_id == draft.latest_request_id
                &&& shown.info == (crate::brightness::DisplayInfoView {
                    last_error: shown.info.last_error,
                    ..draft.info
                })
            }
            &&& !relisted
            &&& !after.loading
            &&& !after.in_flight.contains_key(request_id)
            &&& after.in_flight.contains_key(request) == state.in_flight.contains_key(request)
            &&& state.in_flight.contains_key(request) ==> after.in_flight[request]
                == state.in_flight[request]
            &&& state.refresh_request_id == Some(request_id) ==> after.refresh_request_id is None
            &&& state.refresh_request_id != Some(request_id) ==> after.refresh_request_id
                == state.refresh_request_id
            &&& after.pending_writes == state.pending_writes
            &&& after.next_request_id == state.next_request_id
            &&& after.worker_running == state.worker_running
            &&& after.display_order == state.display_order
        }),
{
}

/// A state that follows is the one expected in everything but the list. The list
/// holds every display once and is in its order where it was made anew, and is
/// the old one otherwise.
pub proof fn what_follows_is_what_was_expected(
    after: AppletView,
    expected: AppletView,
    relisted: bool,
)
    requires
        follows(after, expected, relisted),
    ensures
        after.displays == expected.displays,
        after.pending_writes == expected.pending_writes,
        after.in_flight == expected.in_flight,
        after.next_request_id == expected.next_request_id,
        after.refresh_request_id == expected.refresh_request_id,
        after.loading == expected.loading,
        after.worker_running == expected.worker_running,
        after.last_error == expected.last_error,
        !relisted ==> after.display_order == expected.display_order,
        relisted ==> {
            &&& after.display_order.no_duplicates()
            &&& forall|id: Seq<char>| #[trigger]
                after.display_order.contains(id) == after.displays.contains_key(id)
        },
{
    if relisted {
        assert forall|id: Seq<char>| #[trigger]
            after.display_order.contains(id) == after.displays.contains_key(id) by {
            assert(after.display_order.to_set().contains(id) == after.displays.dom().contains(id));
        }
    }
}

/// Displays are listed by their names without regard to case, and by their
/// identifiers where the names are the same.
pub proof fn displays_are_listed_by_name(
    order: Seq<Seq<char>>,
    drafts: Map<Seq<char>, DraftView>,
    i: int,
    j: int,
)
    requires
        lists(order, drafts),
        0 <= i < j < order.len(),
    ensures
        ({
            let first = lowered(drafts[order[i]].info.name);
            let second = lowered(drafts[order[j]].info.name);
            &&& !crate::order::text_before(second, first)
            &&& first == second ==> crate::order::text_before(order[i], order[j])
        }),
{
    let first = lowered(drafts[order[i]].info.name);
    let second = lowered(drafts[order[j]].info.name);
    let a = crate::order::text_rank(order[i]);
    let b = crate::order::text_rank(order[j]);
    let none = Seq::<u64>::empty();
    assert(crate::order::precedes(list_rank(drafts, order[i]), list_rank(drafts, order[j])));
    crate::order::leading_texts_decide(second, b, first, a);
    crate::order::leading_texts_decide(first, a, second, b);
    crate::order::leading_texts_decide(order[j], none, order[i], none);
    crate::order::texts_are_totally_ordered(order[i], order[j]);
    crate::order::precedes_is_irreflexive(a);
    assert(a + none =~= a);
    assert(b + none =~= b);
}

/// Moving a slider queues its value under a number of its own, due once the
/// slider has rested for 180 ms. What waits for other controls of the display is
/// due at once, with the values and numbers that it had; everything else stays
/// as it is. Without a worker nothing happens.
pub proof fn moving_a_slider_queues_its_value(
    state: AppletView,
    id: Seq<char>,
    kind: WriteKind,
    value: WriteValue,
    now: u64,
    key: (Seq<char>, WriteKind),
    other: Seq<char>,
)
    requires
        now + 180_000_000 <= u64::MAX,
        key != (id, kind),
        other != id,
    ensures
        ({
            let after = after_queueing(state, id, kind, value, now);
            &&& !state.worker_running ==> after == state
            &&& state.worker_running ==> {
                let waits = state.pending_writes.contains_key(key);
                &&& after.pending_writes.contains_key((id, kind))
                &&& after.pending_writes[(id, kind)].value == value
                &&& after.pending_writes[(id, kind)].request_id == state.next_request_id
                &&& after.pending_writes[(id, kind)].due_at == now + 180_000_000
                &&& after.pending_writes.contains_key(key) == waits
                &&& waits ==> after.pending_writes[key].value == state.pending_writes[key].value
                &&& waits ==> after.pending_writes[key].request_id
                    == state.pending_writes[key].request_id
                &&& waits && key.0 == id ==> after.pending_writes[key].due_at == now
                &&& waits && key.0 != id ==> after.pending_writes[key].due_at
                    == state.pending_writes[key].due_at
                &&& after.displays.contains_key(id) == state.displays.contains_key(id)
                &&& state.displays.contains_key(id) ==> after.displays[id] == (DraftView {
                    latest_request_id: state.next_request_id,
                    ..state.displays[id]
                })
                &&& after.displays.contains_key(other) == state.displays.contains_key(other)
                &&& state.displays.contains_key(other) ==> after.displays[other]
                    == state.displays[other]
                &&& state.next_request_id < u64::MAX ==> after.next_request_id
                    == state.next_request_id + 1
                &&& state.next_request_id == u64::MAX ==> after.next_request_id == u64::MAX
                &&& after.display_order == state.display_order
                &&& after.in_flight == state.in_flight
                &&& after.refresh_request_id == state.refresh_request_id
                &&& after.loading == state.loading
                &&& after.worker_running
                &&& after.last_error == state.last_error
            }
        }),
{
}

/// The write that is handed over next is due, and of all that are due it was
/// asked for first; among those of one number the display's identifier decides,
/// and then the control.
pub proof fn due_writes_go_in_the_order_of_requests(
    state: AppletView,
    key: (Seq<char>, WriteKind),
    other: (Seq<char>, WriteKind),
    now: u64,
)
    requires
        due_first(state, key, now),
        state.pending_writes.contains_key(other),
        state.pending_writes[other].due_at <= now,
    ensures
        state.pending_writes.contains_key(key),
        state.pending_writes[key].due_at <= now,
        state.pending_writes[key].request_id <= state.pending_writes[other].request_id,
        state.pending_writes[key].request_id == state.pending_writes[other].request_id ==> {
            &&& !crate::order::text_before(other.0, key.0)
            &&& key.0 == other.0 ==> match (key.1, other.1) {
                (WriteKind::Gamma, WriteKind::Ddc) => false,
                (WriteKind::Gamma, WriteKind::Unified) => false,
                (WriteKind::Ddc, WriteKind::Unified) => false,
                _ => true,
            }
        },
{
    assert(due(state, other, now));
    let a = seq![key.1.place()];
    let b = seq![other.1.place()];
    crate::order::leading_texts_decide(other.0, b, key.0, a);
    assert(PendingKey::rank_of(key) =~= crate::order::text_rank(key.0) + a);
    assert(PendingKey::rank_of(other) =~= crate::order::text_rank(other.0) + b);
    if other.1.place() < key.1.place() {
        crate::order::the_first_difference_decides(b, a, 0);
    }
}

/// What was handed to the worker no longer waits and is on its way. Where the
/// worker was busy, it waits another 40 ms. Where the worker is gone, nothing
/// waits or is on its way. Nothing else changes.
pub proof fn handing_over_moves_one_write(
    state: AppletView,
    key: (Seq<char>, WriteKind),
    outcome: Handover,
    now: u64,
    other: (Seq<char>, WriteKind),
    request: u64,
)
    requires
        state.pending_writes.contains_key(key),
        now + 40_000_000 <= u64::MAX,
        other != key,
        request != state.pending_writes[key].request_id,
    ensures
        ({
            let after = after_handover(state, key, outcome, now);
            let write = state.pending_writes[key];
            &&& after.displays == state.displays
            &&& after.display_order == state.display_order
            &&& after.next_request_id == state.next_request_id
            &&& after.refresh_request_id == state.refresh_request_id
            &&& after.loading == state.loading
            &&& outcome == Handover::Disconnected ==> {
                &&& !after.worker_running
                &&& forall|k: (Seq<char>, WriteKind)| !#[trigger] after.pending_writes.contains_key(k)
                &&& forall|r: u64| !#[trigger] after.in_flight.contains_key(r)
                &&& after.last_error == Some("The D-Bus worker is no longer available."@)
            }
            &&& outcome != Handover::Disconnected ==> {
                &&& after.worker_running == state.worker_running
                &&& after.last_error == state.last_error
                &&& after.pending_writes.contains_key(other) == state.pending_writes.contains_key(
                    other,
                )
                &&& state.pending_writes.contains_key(other) ==> after.pending_writes[other]
                    == state.pending_writes[other]
                &&& after.in_flight.contains_key(request) == state.in_flight.contains_key(request)
                &&& state.in_flight.contains_key(request) ==> after.in_flight[request]
                    == state.in_flight[request]
            }
            &&& outcome == Handover::Sent ==> {
                &&& !after.pending_writes.contains_key(key)
                &&& after.in_flight.contains_key(write.request_id)
                &&& after.in_flight[write.request_id] == key.0
            }
            &&& outcome == Handover::Full ==> {
                &&& after.in_flight == state.in_flight
                &&& after.pending_writes.contains_key(key)
                &&& after.pending_writes[key].value == write.value
                &&& after.pending_writes[key].request_id == write.request_id
                &&& after.pending_writes[key].due_at == now + 40_000_000
            }
        }),
{
}

/// What no longer waits cannot be handed over.
pub proof fn only_waiting_writes_are_handed_over(
    state: AppletView,
    key: (Seq<char>, WriteKind),
    outcome: Handover,
    now: u64,
)
    requires
        !state.pending_writes.contains_key(key),
    ensures
        after_handover(state, key, outcome, now) == state,
{
}

/// A display is busy while a write to it waits or is on its way, and only then.
pub proof fn displays_are_busy_while_they_are_written(
    state: AppletView,
    id: Seq<char>,
    kind: WriteKind,
    request: u64,
)
    ensures
        state.pending_writes.contains_key((id, kind)) ==> state.busy(id),
        state.in_flight.contains_key(request) && state.in_flight[request] == id ==> state.busy(id),
        !state.pending_writes.contains_key((id, WriteKind::Unified))
            && !state.pending_writes.contains_key((id, WriteKind::Ddc))
            && !state.pending_writes.contains_key((id, WriteKind::Gamma)) && (forall|r: u64|
            #[trigger] state.in_flight.contains_key(r) ==> state.in_flight[r] != id)
            ==> !state.busy(id),
{
    if state.waits(id) {
        let kind = choose|kind: WriteKind| #[trigger] state.pending_writes.contains_key((id, kind));
        assert(kind == WriteKind::Unified || kind == WriteKind::Ddc || kind == WriteKind::Gamma);
    }
}

/// Without a worker nothing waits and nothing is on its way; everything else is
/// as it was.
pub proof fn nothing_waits_without_a_worker(state: AppletView, message: Seq<char>)
    ensures
        ({
            let after = state.without_worker(message);
            &&& !after.worker_running
            &&& forall|k: (Seq<char>, WriteKind)| !#[trigger] after.pending_writes.contains_key(k)
            &&& forall|r: u64| !#[trigger] after.in_flight.contains_key(r)
            &&& after.last_error == Some(message)
            &&& after.displays == state.displays
            &&& after.display_order == state.display_order
            &&& after.next_request_id == state.next_request_id
            &&& after.refresh_request_id == state.refresh_request_id
            &&& after.loading == state.loading
        }),
{
}

/// A write reaches the daemon as it was asked for: for the same display, through
/// the call of its control, with the same value. A refresh lists the displays,
/// or has them found anew; a shutdown is not passed on.
pub proof fn commands_reach_the_daemon_unchanged(
    request_id: u64,
    id: Seq<char>,
    brightness: Binary64,
    percent: u16,
)
    ensures
        asked(
            WorkerCommandView::Write {
                request_id,
                display_id: id,
                value: WriteValue::Unified(brightness),
            },
        ) == Some(DaemonCallView::SetBrightness { id, brightness }),
        asked(
            WorkerCommandView::Write {
                request_id,
                display_id: id,
                value: WriteValue::Ddc(percent),
            },
        ) == Some(DaemonCallView::SetDdcBrightness { id, percent }),
        asked(
            WorkerCommandView::Write {
                request_id,
                display_id: id,
                value: WriteValue::Gamma(brightness),
            },
        ) == Some(DaemonCallView::SetGammaBrightness { id, brightness }),
        asked(WorkerCommandView::Refresh { request_id, rescan: true }) == Some(
            DaemonCallView::Refresh,
        ),
        asked(WorkerCommandView::Refresh { request_id, rescan: false }) == Some(
            DaemonCallView::ListDisplays,
        ),
        asked(WorkerCommandView::Shutdown) is None,
{
}

/// A refusal says what was asked for, of which display, and why it was refused.
pub proof fn refusals_say_what_was_refused(
    request_id: u64,
    id: Seq<char>,
    value: WriteValue,
    rescan: bool,
    error: Seq<char>,
)
    ensures
        refusal(WorkerCommandView::Write { request_id, display_id: id, value }, error) == (
        match value {
            WriteValue::Unified(_) => "Could not set brightness for "@,
            WriteValue::Ddc(_) => "Could not set DDC brightness for "@,
            WriteValue::Gamma(_) => "Could not set gamma brightness for "@,
        }) + id + ": "@ + error,
        refusal(WorkerCommandView::Refresh { request_id, rescan }, error) == (if rescan {
            "Could not refresh displays: "@
        } else {
            "Could not list displays: "@
        }) + error,
{
}

/// What is reported of a request has its number; a failure names the display.
pub proof fn reports_carry_the_request(
    request_id: u64,
    display_id: Option<Seq<char>>,
    answer: Result<DaemonReply, String>,
)
    ensures
        match (reported(request_id, display_id, answer), answer) {
            (
                WorkerEventView::Snapshot { request_id: number, displays },
                Ok(DaemonReply::Displays(infos)),
            ) => number == request_id && displays.len() == infos@.len() && forall|i: int|
                0 <= i < displays.len() ==> #[trigger] displays[i] == infos@[i]@,
            (
                WorkerEventView::DisplayUpdated { request_id: number, display },
                Ok(DaemonReply::Display(info)),
            ) => number == request_id && display == info@,
            (
                WorkerEventView::Failed { request_id: number, display_id: about, message },
                Err(cause),
            ) => number == request_id && about == display_id && message == cause@,
            _ => false,
        },
{
}

/// A draft that a snapshot does not mention is not touched by it: it is kept as
/// it is, or dropped.
pub proof fn unmentioned_drafts_are_not_touched(
    state: AppletView,
    infos: Seq<crate::brightness::DisplayInfoView>,
    request_id: u64,
    id: Seq<char>,
)
    requires
        forall|j: int| 0 <= j < infos.len() ==> (#[trigger] infos[j]).id != id,
    ensures
        ({
            let after = after_event(
                state,
                WorkerEventView::Snapshot { request_id, displays: infos },
            ).0.displays;
            let known = state.displays.contains_key(id);
            &&& after.contains_key(id) ==> known && after[id] == state.displays[id]
            &&& known && state.displays[id].latest_request_id > request_id ==> after.contains_key(id)
            &&& known && state.busy(id) ==> after.contains_key(id)
            &&& known && !state.busy(id) && state.displays[id].latest_request_id <= request_id
                ==> !after.contains_key(id)
        }),
{
    lemma_drafts_stay(state.displays, infos, request_id);
    assert(heard_of_all(state.displays, infos, request_id).contains_key(id) == (
    state.displays.contains_key(id) || mentions(infos, id)));
    assert(!mentions(infos, id));
    if state.displays.contains_key(id) {
        lemma_unmentioned_draft_stays(state.displays, infos, request_id, id);
    }
}

/// Entries are listed by name, and by identifier where names are the same; every
/// entry is listed, and nothing else is.
pub proof fn entries_are_listed_by_name(entries: Seq<(Seq<char>, Seq<char>)>) -> (p: Seq<int>)
    ensures
        ({
            let order = listed(crate::order::stably_sorted::<ListEntry>(entries));
            &&& order.len() == entries.len()
            &&& p.len() == entries.len()
            &&& p.no_duplicates()
            &&& forall|i: int|
                0 <= i < entries.len() ==> 0 <= #[trigger] p[i] < entries.len() && order[i]
                    == entries[p[i]].1
            &&& forall|i: int, j: int|
                0 <= i < j < entries.len() ==> {
                    &&& !crate::order::text_before(
                        entries[#[trigger] p[j]].0,
                        entries[#[trigger] p[i]].0,
                    )
                    &&& entries[p[i]].0 == entries[p[j]].0 ==> !crate::order::text_before(
                        entries[p[j]].1,
                        entries[p[i]].1,
                    )
                }
        }),
{
    let sorted = crate::order::stably_sorted::<ListEntry>(entries);
    crate::order::sorting_keeps_the_values::<ListEntry>(entries);
    let p = crate::order::sorting_permutes::<ListEntry>(entries);
    assert forall|i: int, j: int| 0 <= i < j < entries.len() implies {
        &&& !crate::order::text_before(entries[#[trigger] p[j]].0, entries[#[trigger] p[i]].0)
        &&& entries[p[i]].0 == entries[p[j]].0 ==> !crate::order::text_before(
            entries[p[j]].1,
            entries[p[i]].1,
        )
    } by {
        let first = sorted[i];
        let second = sorted[j];
        assert(first == entries[p[i]] && second == entries[p[j]]);
        let a = crate::order::text_rank(first.1);
        let b = crate::order::text_rank(second.1);
        let none = Seq::<u64>::empty();
        assert(!crate::order::precedes(ListEntry::rank_of(second), ListEntry::rank_of(first)));
        crate::order::leading_texts_decide(second.0, b, first.0, a);
        crate::order::leading_texts_decide(second.1, none, first.1, none);
        assert(a + none =~= a);
        assert(b + none =~= b);
    }
    p
}

/// Commands, calls and events say what they hold.
pub proof fn messages_say_what_they_hold(
    command: WorkerCommand,
    call: DaemonCall,
    event: WorkerEvent,
    draft: DisplayDraft,
    key: PendingKey,
)
    ensures
        match command {
            WorkerCommand::Refresh { request_id, rescan } => command@ == (
            WorkerCommandView::Refresh { request_id, rescan }),
            WorkerCommand::Write { request_id, display_id, value } => command@ == (
            WorkerCommandView::Write { request_id, display_id: display_id@, value }),
            WorkerCommand::Shutdown => command@ is Shutdown,
        },
        match call {
            DaemonCall::ListDisplays => call@ is ListDisplays,
            DaemonCall::Refresh => call@ is Refresh,
            DaemonCall::SetBrightness { id, brightness } => call@ == (
            DaemonCallView::SetBrightness { id: id@, brightness }),
            DaemonCall::SetDdcBrightness { id, percent } => call@ == (
            DaemonCallView::SetDdcBrightness { id: id@, percent }),
            DaemonCall::SetGammaBrightness { id, brightness } => call@ == (
            DaemonCallView::SetGammaBrightness { id: id@, brightness }),
        },
        match event {
            WorkerEvent::Snapshot { request_id, displays } => event@ == (
            WorkerEventView::Snapshot { request_id, displays: crate::model::views(displays@) }),
            WorkerEvent::DisplayUpdated { request_id, display } => event@ == (
            WorkerEventView::DisplayUpdated { request_id, display: display@ }),
            WorkerEvent::Failed { request_id, display_id, message } => event@ == (
            WorkerEventView::Failed {
                request_id,
                display_id: crate::model::seen(display_id),
                message: message@,
            }),
        },
        draft@.info == draft.info@,
        draft@.effective_percent == draft.effective_percent,
        draft@.ddc_percent == draft.ddc_percent,
        draft@.gamma_percent == draft.gamma_percent,
        draft@.latest_request_id == draft.latest_request_id,
        key@ == (key.display_id@, key.kind),
{
}

/// A slider beyond its range asks for the limit.
pub proof fn sliders_beyond_their_range_ask_for_the_limit(percent: Binary64)
    requires
        !percent.nan(),
    ensures
        percent.value() >= 100 * crate::rounding::one() ==> slider_fraction(percent).value()
            == crate::rounding::one(),
        percent.value() <= 0 ==> slider_fraction(percent).value() == 0,
{
    crate::binary64::lemma_literals();
    crate::binary64::lemma_size_zero(0);
    let o = crate::rounding::one();
    let x = crate::binary64::quotient(percent, hundred());
    let h = hundred().size();
    let s = percent.size();
    let n = s * o;
    if percent.finite() {
        crate::rounding::rounding_is_monotone(n, n, h);
        let m = crate::rounding::rounded(n, h);
        let top = unity().bits as nat;
        crate::rounding::rounding_respects_magnitudes(n, h, top);
        if percent.value() >= 100 * o {
            assert(n >= o * h) by (nonlinear_arith)
                requires
                    n == s * o,
                    s >= 100 * o,
                    h == 100 * o,
            ;
            assert(m >= top);
            if m > top {
                crate::rounding::units_increase(top, m as nat);
            }
            assert(x == crate::binary64::signed(false, m));
            assert(x.value() >= o);
        }
        if percent.value() <= 0 {
            if s == 0 {
                assert(n == 0) by (nonlinear_arith)
                    requires
                        n == s * o,
                        s == 0,
                ;
                crate::rounding::zero_is_kept(h);
            }
            assert(x.value() <= 0);
        }
    } else {
        assert(x.infinite());
        crate::rounding::units_increase(unity().bits as nat, crate::rounding::INFINITE as nat);
        crate::rounding::units_increase(0, crate::rounding::INFINITE as nat);
    }
}

/// A draft holds what its display shows, with the sliders within their range.
pub proof fn drafts_hold_what_is_shown(info: crate::brightness::DisplayInfoView, request_id: u64)
    ensures
        ({
            let draft = draft_of(info, request_id);
            let level = crate::binary64::product(info.gamma_brightness, hundred());
            &&& draft.info == info
            &&& draft.latest_request_id == request_id
            &&& draft.effective_percent == info.effective()
            &&& draft.ddc_percent <= 100 && draft.ddc_percent <= info.ddc_brightness
            &&& draft.ddc_percent == 100 || draft.ddc_percent == info.ddc_brightness
            &&& level.nan() ==> draft.gamma_percent.nan()
            &&& !level.nan() && 0 <= level.value() <= 100 * crate::rounding::one()
                ==> draft.gamma_percent == level
            &&& !level.nan() && level.value() < 0 ==> draft.gamma_percent.value() == 0
            &&& !level.nan() && level.value() > 100 * crate::rounding::one()
                ==> draft.gamma_percent.value() == 100 * crate::rounding::one()
        }),
{
    crate::binary64::lemma_literals();
    assert(!zero().nan() && !hundred().nan());
}

/// The effective slider of a draft goes by the single sliders of the controls
/// that its display has.
pub proof fn effective_sliders_go_by_the_controls(draft: DraftView)
    ensures
        ({
            let share = if draft.info.ddc_supported {
                crate::brightness::hardware_share(draft.ddc_percent)
            } else {
                unity()
            };
            let gamma = if draft.info.gamma_supported {
                crate::binary64::quotient(draft.gamma_percent, hundred())
            } else {
                unity()
            };
            &&& draft.effective() == crate::brightness::emitted_percent(share, gamma)
            &&& draft.after_moving(WriteKind::Unified) == draft
            &&& draft.after_moving(WriteKind::Ddc) == (DraftView {
                effective_percent: crate::brightness::emitted_percent(share, gamma),
                ..draft
            })
            &&& draft.after_moving(WriteKind::Gamma) == draft.after_moving(WriteKind::Ddc)
        }),
{
}

} // verus!
