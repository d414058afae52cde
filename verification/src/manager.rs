//! The daemon's state: which displays there are, what is wrong with them, and
//! what is wanted of them.
//!
//! Requests that touch hardware are told as replays: given what came of the
//! changes so far, a method says which change comes next, or how the request
//! ends.

use vstd::prelude::*;

use crate::adjustment::{apply_adjustment, apply_plan, is_different, Adjustment, Attempt, PlanStep};
use crate::backend::{scaled_value, DdcBackend, WriteStep};
use crate::binary64::{unity, Binary64};
use crate::brightness::{BrightnessPlan, DisplayInfo};
use crate::config::Config;
use crate::ddc::{DdcDisplay, Probe};
use crate::drm::ConnectorListing;
use crate::gamma::GammaOutput;
use crate::keyed::KeyedMap;
use crate::order::{push_text, sort, Ranked};
use crate::text::same_text;

verus! {

/// Displays are ordered by connector and by identifier.
impl Ranked for DisplayInfo {
    open spec fn rank_of(v: crate::brightness::DisplayInfoView) -> Seq<u64> {
        crate::order::text_rank(v.connector) + crate::order::text_rank(v.id)
    }

    fn rank_key(&self) -> (k: Vec<u64>) {
        let mut k: Vec<u64> = Vec::new();
        push_text(&mut k, self.connector.as_str());
        push_text(&mut k, self.id.as_str());
        assert(k@ =~= Self::rank_of(self@));
        k
    }
}

/// Whether an output has a name.
pub open spec fn output_named(name: Seq<char>) -> spec_fn(crate::gamma::GammaOutputView) -> bool {
    |output: crate::gamma::GammaOutputView| output.name == name
}

/// The output that belongs to a connector, if the connector is known.
pub open spec fn output_at(
    outputs: Seq<crate::gamma::GammaOutputView>,
    connector: Seq<char>,
) -> Option<crate::gamma::GammaOutputView> {
    if connector.len() == 0 {
        None
    } else {
        match crate::model::first_where(outputs, output_named(connector)) {
            Some(i) => Some(outputs[i]),
            None => None,
        }
    }
}

/// What is wrong with a display.
pub open spec fn error_of(errors: Map<Seq<char>, Seq<char>>, id: Seq<char>) -> Seq<char> {
    if errors.contains_key(id) {
        errors[id]
    } else {
        Seq::empty()
    }
}

/// What is shown of a DDC display: with the gamma control of its connector,
/// where there is one.
pub open spec fn ddc_info(
    display: crate::ddc::DdcDisplayView,
    outputs: Seq<crate::gamma::GammaOutputView>,
    errors: Map<Seq<char>, Seq<char>>,
) -> crate::brightness::DisplayInfoView {
    let output = output_at(outputs, display.connector);
    crate::brightness::DisplayInfoView {
        id: display.id,
        name: display.name,
        connector: display.connector,
        ddc_brightness: crate::ddc::raw_percent(display.current, display.maximum),
        ddc_supported: true,
        gamma_brightness: match output {
            Some(output) => output.brightness,
            None => unity(),
        },
        gamma_supported: output is Some,
        last_error: error_of(errors, display.id),
    }
}

/// The identifier of an output without DDC: it stands for the connector, not
/// for a monitor.
pub open spec fn wayland_id(name: Seq<char>) -> Seq<char> {
    "wayland:"@ + name
}

/// What is shown of an output without DDC.
pub open spec fn output_info(
    output: crate::gamma::GammaOutputView,
    errors: Map<Seq<char>, Seq<char>>,
) -> crate::brightness::DisplayInfoView {
    crate::brightness::DisplayInfoView {
        id: wayland_id(output.name),
        name: output.name,
        connector: output.name,
        ddc_brightness: 100,
        ddc_supported: false,
        gamma_brightness: output.brightness,
        gamma_supported: true,
        last_error: error_of(errors, wayland_id(output.name)),
    }
}

/// Whether a DDC display stands for the connector `name`.
pub open spec fn claimed(displays: Seq<crate::ddc::DdcDisplayView>, name: Seq<char>) -> bool {
    name.len() > 0 && exists|i: int|
        0 <= i < displays.len() && (#[trigger] displays[i]).connector == name
}

/// What is shown of the outputs that no DDC display stands for.
pub open spec fn output_infos(
    displays: Seq<crate::ddc::DdcDisplayView>,
    outputs: Seq<crate::gamma::GammaOutputView>,
    errors: Map<Seq<char>, Seq<char>>,
) -> Seq<crate::brightness::DisplayInfoView>
    decreases outputs.len(),
{
    if outputs.len() == 0 {
        Seq::empty()
    } else {
        let front = output_infos(displays, outputs.drop_last(), errors);
        if claimed(displays, outputs.last().name) {
            front
        } else {
            front.push(output_info(outputs.last(), errors))
        }
    }
}

/// Everything that is shown of the displays and outputs, before it is ordered.
pub open spec fn unordered(
    displays: Seq<crate::ddc::DdcDisplayView>,
    outputs: Seq<crate::gamma::GammaOutputView>,
    errors: Map<Seq<char>, Seq<char>>,
) -> Seq<crate::brightness::DisplayInfoView> {
    Seq::new(displays.len(), |i: int| ddc_info(displays[i], outputs, errors)) + output_infos(
        displays,
        outputs,
        errors,
    )
}

/// What is shown of all displays and outputs, ordered by connector and
/// identifier.
pub open spec fn merged(
    displays: Seq<crate::ddc::DdcDisplayView>,
    outputs: Seq<crate::gamma::GammaOutputView>,
    errors: Map<Seq<char>, Seq<char>>,
) -> Seq<crate::brightness::DisplayInfoView> {
    crate::order::stably_sorted::<DisplayInfo>(unordered(displays, outputs, errors))
}

/// Finds the output of a connector.
fn find_output<'a>(outputs: &'a Vec<GammaOutput>, connector: &str) -> (r: Option<&'a GammaOutput>)
    ensures
        match r {
            Some(output) => output_at(crate::model::views(outputs@), connector@) == Some(output@),
            None => output_at(crate::model::views(outputs@), connector@) is None,
        },
{
    if connector.is_empty() {
        return None;
    }
    let ghost all = crate::model::views(outputs@);
    for i in 0..outputs.len()
        invariant
            connector@.len() > 0,
            all == crate::model::views(outputs@),
            forall|j: int| 0 <= j < i ==> !output_named(connector@)(#[trigger] all[j]),
    {
        assert(all[i as int] == outputs@[i as int]@);
        if same_text(outputs[i].name.as_str(), connector) {
            proof {
                assert(output_named(connector@)(all[i as int]));
                crate::model::first_is_unique(all, output_named(connector@), i as int);
            }
            return Some(&outputs[i]);
        }
    }
    proof {
        crate::model::first_exists(all, output_named(connector@));
    }
    None
}

/// Whether a DDC display stands for the connector `name`.
fn is_claimed(displays: &Vec<DdcDisplay>, name: &str) -> (r: bool)
    ensures
        r == claimed(crate::model::views(displays@), name@),
{
    if name.is_empty() {
        return false;
    }
    let ghost all = crate::model::views(displays@);
    for i in 0..displays.len()
        invariant
            all == crate::model::views(displays@),
            name@.len() > 0,
            forall|j: int| 0 <= j < i ==> (#[trigger] all[j]).connector != name@,
    {
        assert(all[i as int] == displays@[i as int]@);
        if same_text(displays[i].connector.as_str(), name) {
            assert(all[i as int].connector == name@);
            return true;
        }
    }
    false
}

/// What is wrong with a display.
fn error_text(errors: &KeyedMap<String, String>, id: &String) -> (r: String)
    requires
        errors.wf(),
    ensures
        r@ == error_of(errors@, id@),
{
    match errors.get(id) {
        Some(message) => message.clone(),
        None => String::new(),
    }
}

/// What is shown of all displays and outputs.
fn merge(
    displays: &Vec<DdcDisplay>,
    outputs: &Vec<GammaOutput>,
    errors: &KeyedMap<String, String>,
) -> (r: Vec<DisplayInfo>)
    requires
        errors.wf(),
    ensures
        crate::model::views(r@) == merged(
            crate::model::views(displays@),
            crate::model::views(outputs@),
            errors@,
        ),
{
    let ghost known = crate::model::views(displays@);
    let ghost all = crate::model::views(outputs@);
    let ghost first = Seq::new(known.len(), |i: int| ddc_info(known[i], all, errors@));
    let mut infos: Vec<DisplayInfo> = Vec::new();
    for i in 0..displays.len()
        invariant
            errors.wf(),
            known == crate::model::views(displays@),
            all == crate::model::views(outputs@),
            first == Seq::new(known.len(), |i: int| ddc_info(known[i], all, errors@)),
            crate::model::views(infos@) =~= first.take(i as int),
    {
        let display = &displays[i];
        assert(known[i as int] == display@);
        let output = find_output(outputs, display.connector.as_str());
        let info = DisplayInfo {
            id: display.id.clone(),
            name: display.name.clone(),
            connector: display.connector.clone(),
            ddc_brightness: display.percent(),
            ddc_supported: true,
            gamma_brightness: match output {
                Some(output) => output.brightness,
                None => unity(),
            },
            gamma_supported: output.is_some(),
            last_error: error_text(errors, &display.id),
        };
        assert(info@ =~= first[i as int]);
        proof {
            crate::model::views_push(infos@, info);
        }
        infos.push(info);
    }
    assert(crate::model::views(infos@) =~= first + output_infos(known, all.take(0), errors@));
    for i in 0..outputs.len()
        invariant
            errors.wf(),
            known == crate::model::views(displays@),
            all == crate::model::views(outputs@),
            crate::model::views(infos@) == first + output_infos(
                known,
                all.take(i as int),
                errors@,
            ),
    {
        let output = &outputs[i];
        proof {
            assert(all[i as int] == output@);
            assert(all.take(i + 1).drop_last() =~= all.take(i as int));
        }
        if !is_claimed(displays, output.name.as_str()) {
            let id = "wayland:".to_owned().concat(output.name.as_str());
            let last_error = error_text(errors, &id);
            let info = DisplayInfo {
                id,
                name: output.name.clone(),
                connector: output.name.clone(),
                ddc_brightness: 100,
                ddc_supported: false,
                gamma_brightness: output.brightness,
                gamma_supported: true,
                last_error,
            };
            proof {
                let before = output_infos(known, all.take(i as int), errors@);
                assert(info@ =~= output_info(all[i as int], errors@));
                crate::model::views_push(infos@, info);
                assert((first + before).push(info@) =~= first + before.push(info@));
            }
            infos.push(info);
        }
    }
    assert(all.take(all.len() as int) =~= all);
    sort(infos)
}

/// What a `ManagerState` says.
#[verifier::ext_equal]
pub struct ManagerView {
    /// The DDC displays and the handles that lead to them.
    pub ddc: Seq<crate::grouping::ManagedDisplayView>,
    /// Whether there is a gamma backend.
    pub gamma_available: bool,
    /// What is shown of the displays.
    pub displays: Seq<crate::brightness::DisplayInfoView>,
    /// What had been read of the DDC displays when they were last shown.
    pub readings: Seq<crate::ddc::DdcDisplayView>,
    /// What is wrong with displays, by their identifiers.
    pub errors: Map<Seq<char>, Seq<char>>,
    /// The configuration.
    pub config: crate::config::ConfigView,
    /// The hardware floor in force.
    pub hardware_floor: Binary64,
}

/// The identifiers of displays.
pub open spec fn info_ids(
    displays: Seq<crate::brightness::DisplayInfoView>,
) -> Seq<Seq<char>> {
    Seq::new(displays.len(), |i: int| displays[i].id)
}

/// What follows on a request.
#[derive(Debug)]
pub enum RequestStep {
    /// This change is to be tried on the display that the request is about.
    Apply { connector: String, adjustment: Adjustment },
    /// The hardware is set: the configuration is to be saved.
    Save,
    /// The request has failed.
    Failed(String),
}

/// What a `RequestStep` says.
pub enum RequestStepView {
    Apply { connector: Seq<char>, adjustment: Adjustment },
    Save,
    Failed(Seq<char>),
}

impl View for RequestStep {
    type V = RequestStepView;

    open spec fn view(&self) -> RequestStepView {
        match *self {
            RequestStep::Apply { connector, adjustment } => RequestStepView::Apply {
                connector: connector@,
                adjustment,
            },
            RequestStep::Save => RequestStepView::Save,
            RequestStep::Failed(message) => RequestStepView::Failed(message@),
        }
    }
}

impl ManagerView {
    /// The state with what is shown brought up to date.
    pub open spec fn rebuilt(self, outputs: Seq<crate::gamma::GammaOutputView>) -> ManagerView {
        ManagerView {
            displays: merged(crate::backend::snapshots(self.ddc), outputs, self.errors),
            readings: crate::backend::snapshots(self.ddc),
            ..self
        }
    }

    /// The state after a new enumeration has found the displays `ddc`.
    pub open spec fn found_anew(
        self,
        ddc: Seq<crate::grouping::ManagedDisplayView>,
        gamma_available: bool,
        outputs: Seq<crate::gamma::GammaOutputView>,
    ) -> ManagerView {
        ManagerView { ddc, gamma_available, ..self }.rebuilt(outputs)
    }

    /// The display with an identifier.
    pub open spec fn find(self, id: Seq<char>) -> Option<crate::brightness::DisplayInfoView> {
        match crate::text::first_position(info_ids(self.displays), id) {
            Some(i) => Some(self.displays[i]),
            None => None,
        }
    }

    /// A request that has failed on the hardware: the failure is noted.
    pub open spec fn failed(
        self,
        id: Seq<char>,
        message: Seq<char>,
        outputs: Seq<crate::gamma::GammaOutputView>,
    ) -> (RequestStepView, ManagerView) {
        (
            RequestStepView::Failed(message),
            ManagerView { errors: self.errors.insert(id, message), ..self }.rebuilt(outputs),
        )
    }

    /// A request that the hardware has carried out: what was set is to be
    /// saved, and what was wrong is forgotten.
    pub open spec fn succeeded(
        self,
        id: Seq<char>,
        config: crate::config::ConfigView,
        outputs: Seq<crate::gamma::GammaOutputView>,
    ) -> (RequestStepView, ManagerView) {
        (
            RequestStepView::Save,
            ManagerView { errors: self.errors.remove(id), config, ..self }.rebuilt(outputs),
        )
    }
}

/// The configuration after a plan was carried out.
pub open spec fn with_plan(
    config: crate::config::ConfigView,
    id: Seq<char>,
    plan: BrightnessPlan,
) -> crate::config::ConfigView {
    let first = match plan.hardware_percent {
        Some(percent) => config.with_ddc(id, percent),
        None => config,
    };
    match plan.gamma_brightness {
        Some(brightness) => first.with_gamma(id, brightness),
        None => first,
    }
}

/// What follows when a display is set to an effective brightness, after the
/// outcomes of the changes so far, and what becomes of the state.
pub open spec fn unified_request(
    state: ManagerView,
    id: Seq<char>,
    target: Binary64,
    outcomes: Seq<Result<(), Seq<char>>>,
    outputs: Seq<crate::gamma::GammaOutputView>,
) -> (RequestStepView, ManagerView) {
    match state.find(id) {
        None => (RequestStepView::Failed("unknown display "@ + id), state),
        Some(current) => match crate::brightness::planned(
            target,
            state.hardware_floor,
            current.ddc_supported,
            current.gamma_supported,
        ) {
            Err(error) => (RequestStepView::Failed(error.message_text()), state),
            Ok(plan) => match crate::adjustment::plan_run(
                current,
                plan,
                state.gamma_available,
                outcomes,
                0,
            ).step {
                crate::adjustment::PlanStepView::Apply(adjustment) => (
                    RequestStepView::Apply { connector: current.connector, adjustment },
                    state,
                ),
                crate::adjustment::PlanStepView::Done(Ok(_)) => state.succeeded(
                    id,
                    with_plan(state.config, id, plan),
                    outputs,
                ),
                crate::adjustment::PlanStepView::Done(Err(message)) => state.failed(
                    id,
                    message,
                    outputs,
                ),
            },
        },
    }
}

/// What follows when the hardware brightness of a display is set, after the
/// outcome of the change, and what becomes of the state.
pub open spec fn ddc_request(
    state: ManagerView,
    id: Seq<char>,
    percent: u16,
    outcomes: Seq<Result<(), Seq<char>>>,
    outputs: Seq<crate::gamma::GammaOutputView>,
) -> (RequestStepView, ManagerView) {
    if percent > 100 {
        (RequestStepView::Failed("DDC brightness must be between 0 and 100"@), state)
    } else {
        match state.find(id) {
            None => (RequestStepView::Failed("unknown display "@ + id), state),
            Some(current) => {
                let change = Adjustment::Ddc { from: current.ddc_brightness, to: percent };
                let saved = state.config.with_ddc(id, percent);
                if !current.ddc_supported {
                    (
                        RequestStepView::Failed(
                            "display "@ + id + " does not support DDC brightness"@,
                        ),
                        state,
                    )
                } else if current.ddc_brightness == percent {
                    state.succeeded(id, saved, outputs)
                } else {
                    match crate::adjustment::attempt(
                        current.connector,
                        state.gamma_available,
                        change,
                        outcomes,
                        0,
                    ) {
                        crate::adjustment::AttemptView::Pending => (
                            RequestStepView::Apply {
                                connector: current.connector,
                                adjustment: change,
                            },
                            state,
                        ),
                        crate::adjustment::AttemptView::Made => state.succeeded(
                            id,
                            saved,
                            outputs,
                        ),
                        crate::adjustment::AttemptView::Failed(message) => state.failed(
                            id,
                            message,
                            outputs,
                        ),
                    }
                }
            },
        }
    }
}

/// What follows when the gamma brightness of a display is set, after the
/// outcome of the change, and what becomes of the state.
pub open spec fn gamma_request(
    state: ManagerView,
    id: Seq<char>,
    brightness: Binary64,
    outcomes: Seq<Result<(), Seq<char>>>,
    outputs: Seq<crate::gamma::GammaOutputView>,
) -> (RequestStepView, ManagerView) {
    if !brightness.fraction() {
        (
            RequestStepView::Failed("gamma brightness must be finite and between 0.0 and 1.0"@),
            state,
        )
    } else {
        match state.find(id) {
            None => (RequestStepView::Failed("unknown display "@ + id), state),
            Some(current) => {
                let change = Adjustment::Gamma { from: current.gamma_brightness, to: brightness };
                let saved = state.config.with_gamma(id, brightness);
                if !current.gamma_supported {
                    (
                        RequestStepView::Failed(
                            "display "@ + id + " does not support Wayland gamma control"@,
                        ),
                        state,
                    )
                } else if !crate::adjustment::differs(current.gamma_brightness, brightness) {
                    state.succeeded(id, saved, outputs)
                } else {
                    match crate::adjustment::attempt(
                        current.connector,
                        state.gamma_available,
                        change,
                        outcomes,
                        0,
                    ) {
                        crate::adjustment::AttemptView::Pending => (
                            RequestStepView::Apply {
                                connector: current.connector,
                                adjustment: change,
                            },
                            state,
                        ),
                        crate::adjustment::AttemptView::Made => state.succeeded(
                            id,
                            saved,
                            outputs,
                        ),
                        crate::adjustment::AttemptView::Failed(message) => state.failed(
                            id,
                            "gamma update failed: "@ + message,
                            outputs,
                        ),
                    }
                }
            },
        }
    }
}

/// What a request returns once the configuration was saved, or could not be,
/// and what becomes of the state.
pub open spec fn saved_request(
    state: ManagerView,
    id: Seq<char>,
    outcome: Result<(), Seq<char>>,
    outputs: Seq<crate::gamma::GammaOutputView>,
) -> (Result<crate::brightness::DisplayInfoView, Seq<char>>, ManagerView) {
    match outcome {
        Ok(_) => match state.find(id) {
            Some(info) => (Ok(info), state),
            None => (Err("unknown display "@ + id), state),
        },
        Err(error) => {
            let message = "hardware changed, but configuration could not be saved: "@ + error;
            (Err(message), state.failed(id, message, outputs).1)
        },
    }
}

/// The identifiers of readings.
pub open spec fn reading_ids(readings: Seq<crate::ddc::DdcDisplayView>) -> Seq<Seq<char>> {
    Seq::new(readings.len(), |i: int| readings[i].id)
}

/// What was read of a display.
pub open spec fn reading_of(
    readings: Seq<crate::ddc::DdcDisplayView>,
    id: Seq<char>,
) -> Option<crate::ddc::DdcDisplayView> {
    match crate::text::first_position(reading_ids(readings), id) {
        Some(i) => Some(readings[i]),
        None => None,
    }
}

/// Whether a display stands at a percentage: it shows it, or it stands at the
/// raw level that the percentage would be written as. A monitor with few levels
/// shows another percentage than the one that was written.
pub open spec fn stands_at(reading: crate::ddc::DdcDisplayView, percent: u16) -> bool {
    ||| percent == crate::ddc::raw_percent(reading.current, reading.maximum)
    ||| percent <= 100 && crate::ddc::scaled(percent, reading.maximum) == reading.current
}

/// Whether something is saved for a control that a display has.
pub open spec fn concerned(
    config: crate::config::ConfigView,
    display: crate::brightness::DisplayInfoView,
) -> bool {
    let saved = config.saved(display.id);
    ||| display.ddc_supported && saved.ddc_brightness is Some
    ||| display.gamma_supported && saved.gamma_brightness is Some
}

/// The plan that leads a display back to what is saved for it. A hardware level
/// at which the display stands already is left out of it.
pub open spec fn restoration(
    config: crate::config::ConfigView,
    display: crate::brightness::DisplayInfoView,
    readings: Seq<crate::ddc::DdcDisplayView>,
) -> BrightnessPlan {
    let saved = config.saved(display.id);
    BrightnessPlan {
        hardware_percent: match (display.ddc_supported, saved.ddc_brightness) {
            (true, Some(percent)) => match reading_of(readings, display.id) {
                Some(reading) => if stands_at(reading, percent) {
                    None
                } else {
                    Some(percent)
                },
                None => Some(percent),
            },
            _ => None,
        },
        gamma_brightness: if display.gamma_supported {
            saved.gamma_brightness
        } else {
            None
        },
    }
}

/// What follows when saved settings are restored.
#[derive(Debug)]
pub enum RestoreStep {
    /// This change is to be tried on this display.
    Apply { id: String, connector: String, adjustment: Adjustment },
    /// Everything has been tried.
    Done,
}

/// What a `RestoreStep` says.
pub enum RestoreStepView {
    Apply { id: Seq<char>, connector: Seq<char>, adjustment: Adjustment },
    Done,
}

impl View for RestoreStep {
    type V = RestoreStepView;

    open spec fn view(&self) -> RestoreStepView {
        match *self {
            RestoreStep::Apply { id, connector, adjustment } => RestoreStepView::Apply {
                id: id@,
                connector: connector@,
                adjustment,
            },
            RestoreStep::Done => RestoreStepView::Done,
        }
    }
}

/// How the displays from position `i` on are led back to what is saved for
/// them: what follows, and what is known to be wrong by then. One display that
/// cannot be led back does not keep the next ones from it.
pub open spec fn restoring(
    state: ManagerView,
    outcomes: Seq<Result<(), Seq<char>>>,
    i: nat,
    used: nat,
    errors: Map<Seq<char>, Seq<char>>,
) -> (RestoreStepView, Map<Seq<char>, Seq<char>>)
    decreases state.displays.len() - i,
{
    if i >= state.displays.len() {
        (RestoreStepView::Done, errors)
    } else {
        let display = state.displays[i as int];
        let plan = restoration(state.config, display, state.readings);
        let run = crate::adjustment::plan_run(
            display,
            plan,
            state.gamma_available,
            outcomes,
            used,
        );
        if !concerned(state.config, display) {
            restoring(state, outcomes, i + 1, used, errors)
        } else {
            match run.step {
                crate::adjustment::PlanStepView::Apply(adjustment) => (
                    RestoreStepView::Apply {
                        id: display.id,
                        connector: display.connector,
                        adjustment,
                    },
                    errors,
                ),
                crate::adjustment::PlanStepView::Done(Ok(_)) => restoring(
                    state,
                    outcomes,
                    i + 1,
                    run.used,
                    errors.remove(display.id),
                ),
                crate::adjustment::PlanStepView::Done(Err(message)) => restoring(
                    state,
                    outcomes,
                    i + 1,
                    run.used,
                    errors.insert(display.id, "settings restore failed: "@ + message),
                ),
            }
        }
    }
}

/// What follows when saved settings are restored, after the outcomes of the
/// changes so far, and what becomes of the state.
pub open spec fn restore_step(
    state: ManagerView,
    outcomes: Seq<Result<(), Seq<char>>>,
    outputs: Seq<crate::gamma::GammaOutputView>,
) -> (RestoreStepView, ManagerView) {
    let (step, errors) = restoring(state, outcomes, 0, 0, state.errors);
    match step {
        RestoreStepView::Apply { .. } => (step, state),
        RestoreStepView::Done => (step, ManagerView { errors, ..state }.rebuilt(outputs)),
    }
}

/// What is known to be wrong after notes were taken: a display's identifier
/// with what went wrong, or with nothing.
pub open spec fn noted(
    errors: Map<Seq<char>, Seq<char>>,
    notes: Seq<(Seq<char>, Option<Seq<char>>)>,
) -> Map<Seq<char>, Seq<char>>
    decreases notes.len(),
{
    if notes.len() == 0 {
        errors
    } else {
        let before = noted(errors, notes.drop_last());
        match notes.last().1 {
            Some(message) => before.insert(notes.last().0, message),
            None => before.remove(notes.last().0),
        }
    }
}

/// A note of what went wrong with a display, or that nothing did.
#[derive(Debug)]
struct ErrorNote {
    id: String,
    message: Option<String>,
}

impl View for ErrorNote {
    type V = (Seq<char>, Option<Seq<char>>);

    closed spec fn view(&self) -> (Seq<char>, Option<Seq<char>>) {
        (self.id@, crate::model::seen(self.message))
    }
}

/// The daemon's state.
#[derive(Debug)]
pub struct ManagerState {
    ddc: DdcBackend,
    gamma_available: bool,
    displays: Vec<DisplayInfo>,
    readings: Vec<DdcDisplay>,
    errors: KeyedMap<String, String>,
    config: Config,
    hardware_floor: Binary64,
}

impl View for ManagerState {
    type V = ManagerView;

    closed spec fn view(&self) -> ManagerView {
        ManagerView {
            ddc: self.ddc@,
            gamma_available: self.gamma_available,
            displays: crate::model::views(self.displays@),
            readings: crate::model::views(self.readings@),
            errors: self.errors@,
            config: self.config@,
            hardware_floor: self.hardware_floor,
        }
    }
}

impl ManagerState {
    /// Whether the parts of the state are in order.
    pub closed spec fn wf(&self) -> bool {
        &&& crate::backend::usable(self.ddc@)
        &&& self.errors.wf()
        &&& self.config.displays.wf()
    }

    /// The state of a daemon that has just found its displays. Saved settings
    /// are not restored yet.
    pub fn new(
        config: Config,
        hardware_floor: Binary64,
        listings: &Vec<ConnectorListing>,
        probes: &Vec<Probe>,
        gamma_available: bool,
        outputs: &Vec<GammaOutput>,
    ) -> (r: Self)
        requires
            config.displays.wf(),
            probes@.len() + 2 <= u32::MAX,
        ensures
            r.wf(),
            r@ == (ManagerView {
                ddc: crate::grouping::grouped(
                    crate::ddc::candidates_of(
                        crate::drm::connectors_described(listings@),
                        probes@,
                    ),
                ),
                gamma_available,
                displays: Seq::empty(),
                readings: Seq::empty(),
                errors: Map::empty(),
                config: config@,
                hardware_floor,
            }).rebuilt(crate::model::views(outputs@)),
    {
        let mut state = ManagerState {
            ddc: DdcBackend::enumerate(listings, probes),
            gamma_available,
            displays: Vec::new(),
            readings: Vec::new(),
            errors: KeyedMap::new(),
            config,
            hardware_floor,
        };
        state.rebuild_snapshot(outputs);
        state
    }

    /// What is shown of the displays.
    pub fn displays(&self) -> (r: Vec<DisplayInfo>)
        ensures
            crate::model::views(r@) == self@.displays,
    {
        let mut out: Vec<DisplayInfo> = Vec::new();
        for i in 0..self.displays.len()
            invariant
                crate::model::views(out@) =~= self@.displays.take(i as int),
        {
            let info = self.displays[i].clone();
            proof {
                crate::model::views_push(out@, info);
            }
            out.push(info);
        }
        assert(crate::model::views(out@) =~= self@.displays);
        out
    }

    /// The configuration.
    pub fn config(&self) -> (r: &Config)
        requires
            self.wf(),
        ensures
            r@ == self@.config,
            r.displays.wf(),
    {
        &self.config
    }

    /// Takes in what a new enumeration has found. Saved settings are not
    /// restored yet.
    pub fn refresh(
        &mut self,
        listings: &Vec<ConnectorListing>,
        probes: &Vec<Probe>,
        gamma_available: bool,
        outputs: &Vec<GammaOutput>,
    )
        requires
            old(self).wf(),
            probes@.len() + 2 <= u32::MAX,
        ensures
            final(self).wf(),
            final(self)@ == old(self)@.found_anew(
                crate::grouping::grouped(
                    crate::ddc::candidates_of(
                        crate::drm::connectors_described(listings@),
                        probes@,
                    ),
                ),
                gamma_available,
                crate::model::views(outputs@),
            ),
    {
        self.ddc = DdcBackend::enumerate(listings, probes);
        self.gamma_available = gamma_available;
        self.rebuild_snapshot(outputs);
    }

    /// The gamma backend is gone.
    pub fn shutdown(&mut self)
        requires
            old(self).wf(),
        ensures
            final(self).wf(),
            final(self)@ == (ManagerView { gamma_available: false, ..old(self)@ }),
    {
        self.gamma_available = false;
    }

    /// Brings what is shown up to date.
    fn rebuild_snapshot(&mut self, outputs: &Vec<GammaOutput>)
        requires
            old(self).wf(),
        ensures
            final(self).wf(),
            final(self)@ == old(self)@.rebuilt(crate::model::views(outputs@)),
    {
        let known = self.ddc.displays();
        self.displays = merge(&known, outputs, &self.errors);
        self.readings = known;
    }

    /// Notes what is wrong with a display.
    fn record_error(&mut self, id: &str, message: &String, outputs: &Vec<GammaOutput>)
        requires
            old(self).wf(),
        ensures
            final(self).wf(),
            final(self)@ == old(self)@.failed(
                id@,
                message@,
                crate::model::views(outputs@),
            ).1,
    {
        self.errors.insert(id.to_owned(), message.clone());
        self.rebuild_snapshot(outputs);
    }

    /// The position of the display with an identifier.
    fn find(&self, id: &str) -> (r: Option<usize>)
        ensures
            match r {
                Some(i) => i < self@.displays.len() && self@.find(id@) == Some(
                    self@.displays[i as int],
                ),
                None => self@.find(id@) is None,
            },
    {
        let ghost ids = info_ids(self@.displays);
        for i in 0..self.displays.len()
            invariant
                ids == info_ids(self@.displays),
                forall|j: int| 0 <= j < i ==> #[trigger] ids[j] != id@,
        {
            assert(self@.displays[i as int] == self.displays@[i as int]@);
            assert(ids[i as int] == self.displays@[i as int].id@);
            if same_text(self.displays[i].id.as_str(), id) {
                proof {
                    crate::text::first_position_is_first(ids, id@, i as int);
                }
                return Some(i);
            }
        }
        proof {
            crate::text::first_position_exists(ids, id@);
        }
        None
    }

    /// The next step of writing a hardware brightness, after the given
    /// outcomes of writing.
    pub fn write_ddc(
        &mut self,
        id: &str,
        percent: u16,
        replies: &Vec<Result<(), String>>,
    ) -> (r: WriteStep)
        requires
            old(self).wf(),
        ensures
            final(self).wf(),
            ({
                let (step, ddc) = crate::backend::write_step(
                    old(self)@.ddc,
                    id@,
                    percent,
                    crate::model::all_heard(replies@),
                );
                r@ == step && final(self)@ == (ManagerView { ddc, ..old(self)@ })
            }),
    {
        self.ddc.set_brightness(id, percent, replies)
    }

    /// The next step of setting an effective brightness, after the outcomes of
    /// the changes so far.
    pub fn set_brightness(
        &mut self,
        id: &str,
        target: Binary64,
        outcomes: &Vec<Result<(), String>>,
        outputs: &Vec<GammaOutput>,
    ) -> (r: RequestStep)
        requires
            old(self).wf(),
        ensures
            final(self).wf(),
            (r@, final(self)@) == unified_request(
                old(self)@,
                id@,
                target,
                crate::model::all_heard(outcomes@),
                crate::model::views(outputs@),
            ),
    {
        let at = match self.find(id) {
            Some(at) => at,
            None => return RequestStep::Failed("unknown display ".to_owned().concat(id)),
        };
        assert(self@.displays[at as int] == self.displays@[at as int]@);
        let plan = match BrightnessPlan::for_target(
            target,
            self.hardware_floor,
            self.displays[at].ddc_supported,
            self.displays[at].gamma_supported,
        ) {
            Ok(plan) => plan,
            Err(error) => return RequestStep::Failed(error.message()),
        };
        let (step, _) = apply_plan(
            &self.displays[at],
            plan,
            self.gamma_available,
            outcomes,
            0,
        );
        match step {
            PlanStep::Apply(adjustment) => RequestStep::Apply {
                connector: self.displays[at].connector.clone(),
                adjustment,
            },
            PlanStep::Done(Ok(_)) => {
                self.errors.remove(&id.to_owned());
                if let Some(percent) = plan.hardware_percent {
                    self.config.remember_ddc(id, percent);
                }
                if let Some(brightness) = plan.gamma_brightness {
                    self.config.remember_gamma(id, brightness);
                }
                self.rebuild_snapshot(outputs);
                RequestStep::Save
            },
            PlanStep::Done(Err(message)) => {
                self.record_error(id, &message, outputs);
                RequestStep::Failed(message)
            },
        }
    }

    /// The next step of setting a hardware brightness, after the outcome of the
    /// change.
    pub fn set_ddc_brightness(
        &mut self,
        id: &str,
        percent: u16,
        outcomes: &Vec<Result<(), String>>,
        outputs: &Vec<GammaOutput>,
    ) -> (r: RequestStep)
        requires
            old(self).wf(),
        ensures
            final(self).wf(),
            (r@, final(self)@) == ddc_request(
                old(self)@,
                id@,
                percent,
                crate::model::all_heard(outcomes@),
                crate::model::views(outputs@),
            ),
    {
        if percent > 100 {
            return RequestStep::Failed("DDC brightness must be between 0 and 100".to_owned());
        }
        let at = match self.find(id) {
            Some(at) => at,
            None => return RequestStep::Failed("unknown display ".to_owned().concat(id)),
        };
        assert(self@.displays[at as int] == self.displays@[at as int]@);
        if !self.displays[at].ddc_supported {
            return RequestStep::Failed(
                "display ".to_owned().concat(id).concat(" does not support DDC brightness"),
            );
        }
        let current: u16 = self.displays[at].ddc_brightness;
        if current != percent {
            let adjustment = Adjustment::Ddc { from: current, to: percent };
            let (known, _) = apply_adjustment(
                self.displays[at].connector.as_str(),
                self.gamma_available,
                adjustment,
                outcomes,
                0,
            );
            match known {
                Attempt::Pending => {
                    return RequestStep::Apply {
                        connector: self.displays[at].connector.clone(),
                        adjustment,
                    };
                },
                Attempt::Made => {},
                Attempt::Failed(message) => {
                    self.record_error(id, &message, outputs);
                    return RequestStep::Failed(message);
                },
            }
        }
        self.errors.remove(&id.to_owned());
        self.config.remember_ddc(id, percent);
        self.rebuild_snapshot(outputs);
        RequestStep::Save
    }

    /// The next step of setting a gamma brightness, after the outcome of the
    /// change.
    pub fn set_gamma_brightness(
        &mut self,
        id: &str,
        brightness: Binary64,
        outcomes: &Vec<Result<(), String>>,
        outputs: &Vec<GammaOutput>,
    ) -> (r: RequestStep)
        requires
            old(self).wf(),
        ensures
            final(self).wf(),
            (r@, final(self)@) == gamma_request(
                old(self)@,
                id@,
                brightness,
                crate::model::all_heard(outcomes@),
                crate::model::views(outputs@),
            ),
    {
        if !brightness.is_fraction() {
            return RequestStep::Failed(
                "gamma brightness must be finite and between 0.0 and 1.0".to_owned(),
            );
        }
        let at = match self.find(id) {
            Some(at) => at,
            None => return RequestStep::Failed("unknown display ".to_owned().concat(id)),
        };
        assert(self@.displays[at as int] == self.displays@[at as int]@);
        if !self.displays[at].gamma_supported {
            return RequestStep::Failed(
                "display ".to_owned().concat(id).concat(
                    " does not support Wayland gamma control",
                ),
            );
        }
        let current: Binary64 = self.displays[at].gamma_brightness;
        if is_different(current, brightness) {
            let adjustment = Adjustment::Gamma { from: current, to: brightness };
            let (known, _) = apply_adjustment(
                self.displays[at].connector.as_str(),
                self.gamma_available,
                adjustment,
                outcomes,
                0,
            );
            match known {
                Attempt::Pending => {
                    return RequestStep::Apply {
                        connector: self.displays[at].connector.clone(),
                        adjustment,
                    };
                },
                Attempt::Made => {},
                Attempt::Failed(cause) => {
                    let message = "gamma update failed: ".to_owned().concat(cause.as_str());
                    self.record_error(id, &message, outputs);
                    return RequestStep::Failed(message);
                },
            }
        }
        self.errors.remove(&id.to_owned());
        self.config.remember_gamma(id, brightness);
        self.rebuild_snapshot(outputs);
        RequestStep::Save
    }

    /// Ends a request whose hardware part is done, given what came of saving
    /// the configuration.
    pub fn save_config_for(
        &mut self,
        id: &str,
        outcome: Result<(), String>,
        outputs: &Vec<GammaOutput>,
    ) -> (r: Result<DisplayInfo, String>)
        requires
            old(self).wf(),
        ensures
            final(self).wf(),
            (crate::model::known(r), final(self)@) == saved_request(
                old(self)@,
                id@,
                crate::model::heard(outcome),
                crate::model::views(outputs@),
            ),
    {
        if let Err(error) = outcome {
            let message = "hardware changed, but configuration could not be saved: ".to_owned().concat(
                error.as_str(),
            );
            self.record_error(id, &message, outputs);
            return Err(message);
        }
        match self.find(id) {
            Some(at) => {
                assert(self@.displays[at as int] == self.displays@[at as int]@);
                Ok(self.displays[at].clone())
            },
            None => Err("unknown display ".to_owned().concat(id)),
        }
    }

    /// Whether a display stands at a percentage, as far as it was read.
    fn display_stands_at(&self, id: &str, percent: u16) -> (r: bool)
        ensures
            r == match reading_of(self@.readings, id@) {
                Some(reading) => stands_at(reading, percent),
                None => false,
            },
    {
        let ghost ids = reading_ids(self@.readings);
        for i in 0..self.readings.len()
            invariant
                ids == reading_ids(self@.readings),
                forall|j: int| 0 <= j < i ==> #[trigger] ids[j] != id@,
        {
            let reading = &self.readings[i];
            assert(self@.readings[i as int] == reading@);
            assert(ids[i as int] == reading.id@);
            if same_text(reading.id.as_str(), id) {
                proof {
                    crate::text::first_position_is_first(ids, id@, i as int);
                }
                return percent == reading.percent() || (percent <= 100 && scaled_value(
                    percent,
                    reading.maximum,
                ) == reading.current);
            }
        }
        proof {
            crate::text::first_position_exists(ids, id@);
        }
        false
    }

    /// The plan that leads a display back to what is saved for it, or nothing
    /// where nothing is saved for the controls that it has.
    fn restoration_of(&self, display: &DisplayInfo) -> (r: Option<BrightnessPlan>)
        requires
            self.wf(),
        ensures
            match r {
                Some(plan) => concerned(self@.config, display@) && plan == restoration(
                    self@.config,
                    display@,
                    self@.readings,
                ),
                None => !concerned(self@.config, display@),
            },
    {
        let saved = match self.config.saved(&display.id) {
            Some(saved) => saved,
            None => return None,
        };
        let hardware = if display.ddc_supported {
            saved.ddc_brightness
        } else {
            None
        };
        let gamma = if display.gamma_supported {
            saved.gamma_brightness
        } else {
            None
        };
        if hardware.is_none() && gamma.is_none() {
            return None;
        }
        let needed = match hardware {
            Some(percent) => if self.display_stands_at(display.id.as_str(), percent) {
                None
            } else {
                Some(percent)
            },
            None => None,
        };
        Some(BrightnessPlan { hardware_percent: needed, gamma_brightness: gamma })
    }

    /// The next step of restoring what is saved for the displays, after the
    /// outcomes of the changes so far.
    ///
    /// Saved settings are desired state: they are held against the values that
    /// the controls show, and controls that already match are not written. A
    /// monitor at the raw level of its saved percentage matches, whatever
    /// percentage it shows.
    pub fn restore_saved_settings(
        &mut self,
        outcomes: &Vec<Result<(), String>>,
        outputs: &Vec<GammaOutput>,
    ) -> (r: RestoreStep)
        requires
            old(self).wf(),
        ensures
            final(self).wf(),
            (r@, final(self)@) == restore_step(
                old(self)@,
                crate::model::all_heard(outcomes@),
                crate::model::views(outputs@),
            ),
    {
        let ghost before = self@;
        let ghost heard = crate::model::all_heard(outcomes@);
        let ghost whole = restoring(before, heard, 0, 0, before.errors);
        let mut notes: Vec<ErrorNote> = Vec::new();
        let mut used: usize = 0;
        let count = self.displays.len();
        assert(crate::model::views(notes@) =~= Seq::<(Seq<char>, Option<Seq<char>>)>::empty());
        for i in 0..count
            invariant
                self.wf(),
                self@ == before,
                before == old(self)@,
                count == before.displays.len(),
                heard == crate::model::all_heard(outcomes@),
                used <= outcomes@.len(),
                whole == restoring(before, heard, 0, 0, before.errors),
                whole == restoring(
                    before,
                    heard,
                    i as nat,
                    used as nat,
                    noted(before.errors, crate::model::views(notes@)),
                ),
        {
            assert(before.displays[i as int] == self.displays@[i as int]@);
            if let Some(plan) = self.restoration_of(&self.displays[i]) {
                let (step, after) = apply_plan(
                    &self.displays[i],
                    plan,
                    self.gamma_available,
                    outcomes,
                    used,
                );
                let message = match step {
                    PlanStep::Apply(adjustment) => {
                        return RestoreStep::Apply {
                            id: self.displays[i].id.clone(),
                            connector: self.displays[i].connector.clone(),
                            adjustment,
                        };
                    },
                    PlanStep::Done(Ok(_)) => None,
                    PlanStep::Done(Err(cause)) => Some(
                        "settings restore failed: ".to_owned().concat(cause.as_str()),
                    ),
                };
                let note = ErrorNote { id: self.displays[i].id.clone(), message };
                proof {
                    crate::model::views_push(notes@, note);
                    assert(crate::model::views(notes@).push(note@).drop_last() =~= crate::model::views(
                        notes@,
                    ));
                }
                notes.push(note);
                used = after;
            }
        }
        self.note_errors(&notes);
        self.rebuild_snapshot(outputs);
        RestoreStep::Done
    }

    /// Notes what has gone wrong and what has not.
    fn note_errors(&mut self, notes: &Vec<ErrorNote>)
        requires
            old(self).wf(),
        ensures
            final(self).wf(),
            final(self)@ == (ManagerView {
                errors: noted(old(self)@.errors, crate::model::views(notes@)),
                ..old(self)@
            }),
    {
        let ghost all = crate::model::views(notes@);
        assert(noted(self@.errors, all.take(0)) == self@.errors);
        for i in 0..notes.len()
            invariant
                self.wf(),
                all == crate::model::views(notes@),
                self@ == (ManagerView {
                    errors: noted(old(self)@.errors, all.take(i as int)),
                    ..old(self)@
                }),
        {
            proof {
                assert(all[i as int] == notes@[i as int]@);
                assert(all.take(i + 1).drop_last() =~= all.take(i as int));
                assert(all.take(i + 1).last() == notes@[i as int]@);
            }
            match &notes[i].message {
                Some(message) => self.errors.insert(notes[i].id.clone(), message.clone()),
                None => {
                    self.errors.remove(&notes[i].id);
                },
            }
        }
        assert(all.take(all.len() as int) =~= all);
    }
}

proof fn lemma_output_infos(
    displays: Seq<crate::ddc::DdcDisplayView>,
    outputs: Seq<crate::gamma::GammaOutputView>,
    errors: Map<Seq<char>, Seq<char>>,
)
    ensures
        output_infos(displays, outputs, errors).len() <= outputs.len(),
        forall|j: int|
            0 <= j < outputs.len() && !claimed(displays, (#[trigger] outputs[j]).name)
                ==> output_infos(displays, outputs, errors).contains(
                output_info(outputs[j], errors),
            ),
        forall|k: int|
            0 <= k < output_infos(displays, outputs, errors).len() ==> exists|j: int|
                0 <= j < outputs.len() && !claimed(displays, outputs[j].name) && (
                #[trigger] output_infos(displays, outputs, errors)[k]) == output_info(
                    #[trigger] outputs[j],
                    errors,
                ),
    decreases outputs.len(),
{
    if outputs.len() > 0 {
        let front = outputs.drop_last();
        let last = outputs.len() - 1;
        lemma_output_infos(displays, front, errors);
        let before = output_infos(displays, front, errors);
        let all = output_infos(displays, outputs, errors);
        assert forall|j: int|
            0 <= j < outputs.len() && !claimed(
                displays,
                (#[trigger] outputs[j]).name,
            ) implies all.contains(output_info(outputs[j], errors)) by {
            if j < last {
                assert(front[j] == outputs[j]);
                let k = choose|k: int|
                    0 <= k < before.len() && before[k] == output_info(front[j], errors);
                assert(all[k] == before[k]);
            } else {
                assert(all[before.len() as int] == output_info(outputs[j], errors));
            }
        }
        assert forall|k: int| 0 <= k < all.len() implies exists|j: int|
            0 <= j < outputs.len() && !claimed(displays, outputs[j].name) && (#[trigger] all[k])
                == output_info(#[trigger] outputs[j], errors) by {
            if k < before.len() {
                assert(all[k] == before[k]);
                let j = choose|j: int|
                    0 <= j < front.len() && !claimed(displays, front[j].name) && before[k]
                        == output_info(#[trigger] front[j], errors);
                assert(front[j] == outputs[j]);
            } else {
                assert(all[k] == output_info(outputs[last], errors));
            }
        }
    }
}

/// Every DDC display is shown, whether or not there is a gamma control for it.
pub proof fn every_ddc_display_is_shown(
    displays: Seq<crate::ddc::DdcDisplayView>,
    outputs: Seq<crate::gamma::GammaOutputView>,
    errors: Map<Seq<char>, Seq<char>>,
    i: int,
)
    requires
        0 <= i < displays.len(),
    ensures
        merged(displays, outputs, errors).contains(ddc_info(displays[i], outputs, errors)),
{
    let all = unordered(displays, outputs, errors);
    assert(all[i] == ddc_info(displays[i], outputs, errors));
    crate::order::sorting_keeps_membership::<DisplayInfo>(all, all[i]);
}

/// Every gamma output is shown: with the DDC display that stands for its
/// connector, or else by itself.
pub proof fn every_gamma_output_is_shown(
    displays: Seq<crate::ddc::DdcDisplayView>,
    outputs: Seq<crate::gamma::GammaOutputView>,
    errors: Map<Seq<char>, Seq<char>>,
    j: int,
)
    requires
        0 <= j < outputs.len(),
    ensures
        exists|k: int|
            0 <= k < merged(displays, outputs, errors).len() && (#[trigger] merged(
                displays,
                outputs,
                errors,
            )[k]).connector == outputs[j].name && merged(displays, outputs, errors)[k].gamma_supported,
{
    let all = unordered(displays, outputs, errors);
    let shown = merged(displays, outputs, errors);
    let name = outputs[j].name;
    if claimed(displays, name) {
        let i = choose|i: int|
            0 <= i < displays.len() && (#[trigger] displays[i]).connector == name;
        crate::model::first_exists(outputs, output_named(name));
        assert(output_named(name)(outputs[j]));
        every_ddc_display_is_shown(displays, outputs, errors, i);
        let info = ddc_info(displays[i], outputs, errors);
        let k = choose|k: int| 0 <= k < shown.len() && shown[k] == info;
        assert(shown[k].connector == name && shown[k].gamma_supported);
    } else {
        lemma_output_infos(displays, outputs, errors);
        let infos = output_infos(displays, outputs, errors);
        let info = output_info(outputs[j], errors);
        let m = choose|m: int| 0 <= m < infos.len() && infos[m] == info;
        assert(all[displays.len() + m] == info);
        crate::order::sorting_keeps_membership::<DisplayInfo>(all, info);
        let k = choose|k: int| 0 <= k < shown.len() && shown[k] == info;
        assert(shown[k].connector == name && shown[k].gamma_supported);
    }
}

/// Nothing else is shown; what is shown stands in the order of connectors and
/// identifiers, and every display shows what is wrong with it.
pub proof fn what_is_shown_is_there(
    displays: Seq<crate::ddc::DdcDisplayView>,
    outputs: Seq<crate::gamma::GammaOutputView>,
    errors: Map<Seq<char>, Seq<char>>,
    k: int,
)
    requires
        0 <= k < merged(displays, outputs, errors).len(),
    ensures
        crate::order::in_order::<DisplayInfo>(merged(displays, outputs, errors)),
        ({
            let info = merged(displays, outputs, errors)[k];
            &&& info.last_error == error_of(errors, info.id)
            &&& info.ddc_supported || info.gamma_supported
            &&& info.ddc_brightness <= 100
            &&& info.ddc_supported ==> exists|i: int|
                0 <= i < displays.len() && info == ddc_info(#[trigger] displays[i], outputs, errors)
            &&& !info.ddc_supported ==> exists|j: int|
                0 <= j < outputs.len() && info == output_info(#[trigger] outputs[j], errors)
        }),
{
    let all = unordered(displays, outputs, errors);
    let shown = merged(displays, outputs, errors);
    let p = crate::order::sorting_permutes::<DisplayInfo>(all);
    crate::order::sorting_keeps_the_values::<DisplayInfo>(all);
    assert(shown[k] == all[p[k]]);
    if p[k] < displays.len() {
        assert(all[p[k]] == ddc_info(displays[p[k]], outputs, errors));
        crate::ddc::percentages_stay_in_range(
            displays[p[k]].current,
            displays[p[k]].maximum,
        );
    } else {
        lemma_output_infos(displays, outputs, errors);
        let infos = output_infos(displays, outputs, errors);
        assert(all[p[k]] == infos[p[k] - displays.len()]);
    }
}

/// The configuration is changed only by a request whose hardware part is done.
/// While a change is waited for, nothing changes; a request that fails leaves
/// the configuration as it was.
pub proof fn only_finished_requests_change_the_config(
    state: ManagerView,
    id: Seq<char>,
    target: Binary64,
    percent: u16,
    outcomes: Seq<Result<(), Seq<char>>>,
    outputs: Seq<crate::gamma::GammaOutputView>,
)
    ensures
        ({
            let (unified, after_unified) = unified_request(state, id, target, outcomes, outputs);
            let (ddc, after_ddc) = ddc_request(state, id, percent, outcomes, outputs);
            let (gamma, after_gamma) = gamma_request(state, id, target, outcomes, outputs);
            &&& unified !is Save ==> after_unified.config == state.config
            &&& ddc !is Save ==> after_ddc.config == state.config
            &&& gamma !is Save ==> after_gamma.config == state.config
            &&& unified is Apply ==> after_unified == state
            &&& ddc is Apply ==> after_ddc == state
            &&& gamma is Apply ==> after_gamma == state
            &&& saved_request(state, id, Ok(()), outputs).1 == state
        }),
{
}

/// What requests save keeps the configuration valid.
pub proof fn requests_keep_the_config_valid(
    state: ManagerView,
    id: Seq<char>,
    target: Binary64,
    percent: u16,
    outcomes: Seq<Result<(), Seq<char>>>,
    outputs: Seq<crate::gamma::GammaOutputView>,
)
    requires
        state.config.valid(),
    ensures
        unified_request(state, id, target, outcomes, outputs).1.config.valid(),
        ddc_request(state, id, percent, outcomes, outputs).1.config.valid(),
        gamma_request(state, id, target, outcomes, outputs).1.config.valid(),
{
    crate::binary64::lemma_literals();
    if percent <= 100 {
        crate::config::settings_keep_the_config_valid(state.config, id, percent, unity());
    }
    if target.fraction() {
        crate::config::settings_keep_the_config_valid(state.config, id, 0, target);
    }
    if let Some(current) = state.find(id) {
        if let Ok(plan) = crate::brightness::planned(
            target,
            state.hardware_floor,
            current.ddc_supported,
            current.gamma_supported,
        ) {
            crate::brightness::plans_can_be_applied(
                target,
                state.hardware_floor,
                current.ddc_supported,
                current.gamma_supported,
            );
            let level: u16 = match plan.hardware_percent {
                Some(percent) => percent,
                None => 0,
            };
            let brightness = match plan.gamma_brightness {
                Some(brightness) => brightness,
                None => target,
            };
            crate::config::settings_keep_the_config_valid(state.config, id, level, brightness);
            crate::config::settings_keep_the_config_valid(
                state.config.with_ddc(id, level),
                id,
                level,
                brightness,
            );
        }
    }
}

/// A request that succeeds returns what is shown of its display.
pub proof fn requests_return_what_is_shown(
    state: ManagerView,
    id: Seq<char>,
    outcome: Result<(), Seq<char>>,
    outputs: Seq<crate::gamma::GammaOutputView>,
)
    ensures
        saved_request(state, id, outcome, outputs).0 matches Ok(info) ==> info.id == id
            && state.displays.contains(info),
        outcome is Ok && info_ids(state.displays).contains(id) ==> saved_request(
            state,
            id,
            outcome,
            outputs,
        ).0 is Ok,
{
    let ids = info_ids(state.displays);
    crate::text::first_position_exists(ids, id);
    if let Some(i) = crate::text::first_position(ids, id) {
        assert(ids[i] == state.displays[i].id);
    }
}

/// Whether a display stands where what is saved for it wants it.
pub open spec fn settled(
    state: ManagerView,
    display: crate::brightness::DisplayInfoView,
) -> bool {
    let plan = restoration(state.config, display, state.readings);
    &&& plan.hardware_percent matches Some(percent) ==> percent == display.ddc_brightness
    &&& plan.gamma_brightness matches Some(brightness) ==> !crate::adjustment::differs(
        brightness,
        display.gamma_brightness,
    )
}

proof fn lemma_settled(
    state: ManagerView,
    outcomes: Seq<Result<(), Seq<char>>>,
    i: nat,
    used: nat,
    errors: Map<Seq<char>, Seq<char>>,
)
    requires
        forall|k: int|
            0 <= k < state.displays.len() ==> settled(state, #[trigger] state.displays[k]),
    ensures
        restoring(state, outcomes, i, used, errors).0 is Done,
    decreases state.displays.len() - i,
{
    if i < state.displays.len() {
        let display = state.displays[i as int];
        let plan = restoration(state.config, display, state.readings);
        assert(settled(state, display));
        assert(crate::adjustment::wanted(display, plan) =~= Seq::empty());
        let run = crate::adjustment::plan_run(
            display,
            plan,
            state.gamma_available,
            outcomes,
            used,
        );
        lemma_settled(state, outcomes, i + 1, used, errors);
        lemma_settled(state, outcomes, i + 1, run.used, errors.remove(display.id));
    }
}

/// Where every display stands where it is wanted, restoring changes nothing on
/// the hardware: an ordinary refresh makes no redundant writes.
pub proof fn settled_displays_are_left_alone(
    state: ManagerView,
    outcomes: Seq<Result<(), Seq<char>>>,
    outputs: Seq<crate::gamma::GammaOutputView>,
)
    requires
        forall|k: int|
            0 <= k < state.displays.len() ==> settled(state, #[trigger] state.displays[k]),
    ensures
        restore_step(state, outcomes, outputs).0 is Done,
{
    lemma_settled(state, outcomes, 0, 0, state.errors);
}

proof fn lemma_restoring_ends(
    state: ManagerView,
    outcomes: Seq<Result<(), Seq<char>>>,
    i: nat,
    used: nat,
    errors: Map<Seq<char>, Seq<char>>,
)
    requires
        i <= state.displays.len(),
        used + 3 * (state.displays.len() - i) <= outcomes.len(),
    ensures
        restoring(state, outcomes, i, used, errors).0 is Done,
    decreases state.displays.len() - i,
{
    if i < state.displays.len() {
        let display = state.displays[i as int];
        let plan = restoration(state.config, display, state.readings);
        let run = crate::adjustment::plan_run(
            display,
            plan,
            state.gamma_available,
            outcomes,
            used,
        );
        crate::adjustment::plans_end(display, plan, state.gamma_available, outcomes, used);
        lemma_restoring_ends(state, outcomes, i + 1, used, errors);
        lemma_restoring_ends(state, outcomes, i + 1, run.used, errors.remove(display.id));
        if let crate::adjustment::PlanStepView::Done(Err(message)) = run.step {
            lemma_restoring_ends(
                state,
                outcomes,
                i + 1,
                run.used,
                errors.insert(display.id, "settings restore failed: "@ + message),
            );
        }
    }
}

/// Requests end: setting a display takes at most three changes, and restoring
/// at most three for every display, whatever comes of them.
pub proof fn requests_end(
    state: ManagerView,
    id: Seq<char>,
    target: Binary64,
    outcomes: Seq<Result<(), Seq<char>>>,
    outputs: Seq<crate::gamma::GammaOutputView>,
)
    ensures
        outcomes.len() >= 3 ==> unified_request(state, id, target, outcomes, outputs).0 !is Apply,
        outcomes.len() >= 3 * state.displays.len() ==> restore_step(
            state,
            outcomes,
            outputs,
        ).0 is Done,
{
    if outcomes.len() >= 3 {
        if let Some(current) = state.find(id) {
            if let Ok(plan) = crate::brightness::planned(
                target,
                state.hardware_floor,
                current.ddc_supported,
                current.gamma_supported,
            ) {
                crate::adjustment::plans_end(current, plan, state.gamma_available, outcomes, 0);
            }
        }
    }
    if outcomes.len() >= 3 * state.displays.len() {
        lemma_restoring_ends(state, outcomes, 0, 0, state.errors);
    }
}

/// A request is saved only once the controls stand where its plan wants them.
pub proof fn saved_requests_have_reached_their_plan(
    state: ManagerView,
    id: Seq<char>,
    target: Binary64,
    outcomes: Seq<Result<(), Seq<char>>>,
    outputs: Seq<crate::gamma::GammaOutputView>,
)
    requires
        unified_request(state, id, target, outcomes, outputs).0 is Save,
    ensures
        state.find(id) matches Some(current) && crate::brightness::planned(
            target,
            state.hardware_floor,
            current.ddc_supported,
            current.gamma_supported,
        ) matches Ok(plan) && {
            let run = crate::adjustment::plan_run(
                current,
                plan,
                state.gamma_available,
                outcomes,
                0,
            );
            &&& crate::adjustment::all_changed(crate::adjustment::levels_of(current), run.made)
                == crate::adjustment::aimed_at(current, plan)
            &&& unified_request(state, id, target, outcomes, outputs).1.config == with_plan(
                state.config,
                id,
                plan,
            )
        },
{
    let current = state.find(id)->Some_0;
    let plan = crate::brightness::planned(
        target,
        state.hardware_floor,
        current.ddc_supported,
        current.gamma_supported,
    )->Ok_0;
    crate::adjustment::failed_plans_are_taken_back(
        current,
        plan,
        state.gamma_available,
        outcomes,
        0,
    );
}

/// What is asked for is checked before any hardware is touched: a request for an
/// unknown display, or for a value out of range, fails at once and changes
/// nothing.
pub proof fn invalid_requests_touch_nothing(
    state: ManagerView,
    id: Seq<char>,
    target: Binary64,
    percent: u16,
    outcomes: Seq<Result<(), Seq<char>>>,
    outputs: Seq<crate::gamma::GammaOutputView>,
)
    ensures
        ({
            let unified = unified_request(state, id, target, outcomes, outputs);
            let ddc = ddc_request(state, id, percent, outcomes, outputs);
            let gamma = gamma_request(state, id, target, outcomes, outputs);
            let unknown = !info_ids(state.displays).contains(id);
            &&& unknown || !target.fraction() ==> unified.0 is Failed && unified.1 == state
            &&& unknown || !target.fraction() ==> gamma.0 is Failed && gamma.1 == state
            &&& unknown || percent > 100 ==> ddc.0 is Failed && ddc.1 == state
        }),
{
    crate::text::first_position_exists(info_ids(state.displays), id);
}

proof fn lemma_found(state: ManagerView, id: Seq<char>, k: int)
    requires
        0 <= k < state.displays.len(),
        state.displays[k].id == id,
        forall|j: int| 0 <= j < k ==> (#[trigger] state.displays[j]).id != id,
    ensures
        state.find(id) == Some(state.displays[k]),
{
    let ids = info_ids(state.displays);
    assert(ids[k] == id);
    assert forall|j: int| 0 <= j < k implies ids[j] != id by {
        assert(ids[j] == state.displays[j].id);
    }
    crate::text::first_position_exists(ids, id);
    let i = crate::text::first_position(ids, id)->Some_0;
    if i < k {
        assert(ids[i] != id);
    }
}

/// Whether a state is another one after a setting of the display `id` was saved:
/// nothing is wrong with the display any more, other displays have the errors
/// and the settings that they had, and what is shown is what is there.
pub open spec fn follows_on_saving(
    before: ManagerView,
    after: ManagerView,
    id: Seq<char>,
    outputs: Seq<crate::gamma::GammaOutputView>,
) -> bool {
    &&& after.ddc == before.ddc
    &&& after.gamma_available == before.gamma_available
    &&& after.hardware_floor == before.hardware_floor
    &&& after.config.hardware_floor == before.config.hardware_floor
    &&& !after.errors.contains_key(id)
    &&& forall|other: Seq<char>|
        other != id ==> (#[trigger] after.errors.contains_key(other)
            == before.errors.contains_key(other))
    &&& forall|other: Seq<char>|
        other != id && before.errors.contains_key(other) ==> #[trigger] after.errors[other]
            == before.errors[other]
    &&& after.config.displays.contains_key(id)
    &&& forall|other: Seq<char>|
        other != id ==> (#[trigger] after.config.displays.contains_key(other)
            == before.config.displays.contains_key(other))
    &&& forall|other: Seq<char>|
        other != id && before.config.displays.contains_key(other) ==> #[trigger] after.config.displays[other]
            == before.config.displays[other]
    &&& after.readings == crate::backend::snapshots(before.ddc)
    &&& after.displays == merged(crate::backend::snapshots(before.ddc), outputs, after.errors)
}

/// Whether a state is another one after a change on the display `id` has failed:
/// the message is noted, and nothing else is different but what is shown.
pub open spec fn follows_on_failing(
    before: ManagerView,
    after: ManagerView,
    id: Seq<char>,
    message: Seq<char>,
    outputs: Seq<crate::gamma::GammaOutputView>,
) -> bool {
    &&& after.ddc == before.ddc
    &&& after.gamma_available == before.gamma_available
    &&& after.hardware_floor == before.hardware_floor
    &&& after.config == before.config
    &&& after.errors.contains_key(id) && after.errors[id] == message
    &&& forall|other: Seq<char>|
        other != id ==> (#[trigger] after.errors.contains_key(other)
            == before.errors.contains_key(other))
    &&& forall|other: Seq<char>|
        other != id && before.errors.contains_key(other) ==> #[trigger] after.errors[other]
            == before.errors[other]
    &&& after.readings == crate::backend::snapshots(before.ddc)
    &&& after.displays == merged(crate::backend::snapshots(before.ddc), outputs, after.errors)
}

/// A request for a hardware percentage on a display that shows another one asks
/// for exactly that change, and is saved only once the change was made. A
/// display that shows the percentage is not written.
pub proof fn hardware_requests_write_what_differs(
    state: ManagerView,
    id: Seq<char>,
    k: int,
    percent: u16,
    outcomes: Seq<Result<(), Seq<char>>>,
    outputs: Seq<crate::gamma::GammaOutputView>,
)
    requires
        0 <= k < state.displays.len(),
        state.displays[k].id == id,
        forall|j: int| 0 <= j < k ==> (#[trigger] state.displays[j]).id != id,
    ensures
        ({
            let current = state.displays[k];
            let (step, after) = ddc_request(state, id, percent, outcomes, outputs);
            let shown = current.ddc_brightness;
            let able = percent <= 100 && current.ddc_supported;
            &&& percent > 100 ==> after == state && step == RequestStepView::Failed(
                "DDC brightness must be between 0 and 100"@,
            )
            &&& percent <= 100 && !current.ddc_supported ==> after == state && step
                == RequestStepView::Failed("display "@ + id + " does not support DDC brightness"@)
            &&& able && shown == percent ==> step is Save
            &&& able && shown != percent && outcomes.len() == 0 ==> after == state && step == (
            RequestStepView::Apply {
                connector: current.connector,
                adjustment: Adjustment::Ddc { from: shown, to: percent },
            })
            &&& able && shown != percent && outcomes.len() > 0 && outcomes[0] is Ok ==> step is Save
            &&& able && shown != percent && outcomes.len() > 0 ==> (outcomes[0] matches Err(error)
                ==> step == RequestStepView::Failed("DDC write failed: "@ + error)
                && follows_on_failing(state, after, id, "DDC write failed: "@ + error, outputs))
            &&& step is Save ==> {
                &&& able
                &&& follows_on_saving(state, after, id, outputs)
                &&& after.config.displays[id].ddc_brightness == Some(percent)
                &&& state.config.displays.contains_key(id)
                    ==> after.config.displays[id].gamma_brightness
                    == state.config.displays[id].gamma_brightness
                &&& !state.config.displays.contains_key(id)
                    ==> after.config.displays[id].gamma_brightness is None
            }
        }),
{
    lemma_found(state, id, k);
}

/// A request for a gamma brightness on a display that shows a different one asks
/// for exactly that change, and is saved only once the change was made.
pub proof fn gamma_requests_write_what_differs(
    state: ManagerView,
    id: Seq<char>,
    k: int,
    brightness: Binary64,
    outcomes: Seq<Result<(), Seq<char>>>,
    outputs: Seq<crate::gamma::GammaOutputView>,
)
    requires
        0 <= k < state.displays.len(),
        state.displays[k].id == id,
        forall|j: int| 0 <= j < k ==> (#[trigger] state.displays[j]).id != id,
    ensures
        ({
            let current = state.displays[k];
            let (step, after) = gamma_request(state, id, brightness, outcomes, outputs);
            let shown = current.gamma_brightness;
            let good = !brightness.nan() && 0 <= brightness.value() <= crate::rounding::one();
            let able = good && current.gamma_supported;
            let different = crate::adjustment::differs(shown, brightness);
            let reachable = current.connector.len() > 0 && state.gamma_available;
            let cause = if current.connector.len() == 0 {
                "the display is not associated with a Wayland connector"@
            } else {
                "Wayland gamma backend is unavailable"@
            };
            &&& !good ==> after == state && step == RequestStepView::Failed(
                "gamma brightness must be finite and between 0.0 and 1.0"@,
            )
            &&& good && !current.gamma_supported ==> after == state && step
                == RequestStepView::Failed(
                "display "@ + id + " does not support Wayland gamma control"@,
            )
            &&& able && !different ==> step is Save
            &&& able && different && !reachable ==> step == RequestStepView::Failed(
                "gamma update failed: "@ + cause,
            ) && follows_on_failing(state, after, id, "gamma update failed: "@ + cause, outputs)
            &&& able && different && reachable && outcomes.len() == 0 ==> after == state && step
                == (RequestStepView::Apply {
                connector: current.connector,
                adjustment: Adjustment::Gamma { from: shown, to: brightness },
            })
            &&& able && different && reachable && outcomes.len() > 0 && outcomes[0] is Ok ==> step
                is Save
            &&& able && different && reachable && outcomes.len() > 0 ==> (outcomes[0] matches Err(
                error,
            ) ==> {
                let message = "gamma update failed: "@ + ("failed to update gamma for "@
                    + current.connector + ": "@ + error);
                &&& step == RequestStepView::Failed(message)
                &&& follows_on_failing(state, after, id, message, outputs)
            })
            &&& step is Save ==> {
                &&& able
                &&& follows_on_saving(state, after, id, outputs)
                &&& after.config.displays[id].gamma_brightness == Some(brightness)
                &&& state.config.displays.contains_key(id)
                    ==> after.config.displays[id].ddc_brightness
                    == state.config.displays[id].ddc_brightness
                &&& !state.config.displays.contains_key(id)
                    ==> after.config.displays[id].ddc_brightness is None
            }
        }),
{
    lemma_found(state, id, k);
}

/// A request for an effective brightness asks for the changes that lead from
/// what the display shows to the plan for that brightness, one after the other
/// while they are made, and is saved with the values of the plan once all were
/// made. A request that needs a change is never saved without it.
pub proof fn unified_requests_carry_out_their_plan(
    state: ManagerView,
    id: Seq<char>,
    k: int,
    target: Binary64,
    outcomes: Seq<Result<(), Seq<char>>>,
    outputs: Seq<crate::gamma::GammaOutputView>,
)
    requires
        0 <= k < state.displays.len(),
        state.displays[k].id == id,
        forall|j: int| 0 <= j < k ==> (#[trigger] state.displays[j]).id != id,
    ensures
        ({
            let current = state.displays[k];
            let (step, after) = unified_request(state, id, target, outcomes, outputs);
            let able = current.gamma_supported ==> current.connector.len() > 0
                && state.gamma_available;
            match crate::brightness::planned(
                target,
                state.hardware_floor,
                current.ddc_supported,
                current.gamma_supported,
            ) {
                Err(error) => step == RequestStepView::Failed(error.message_text()) && after
                    == state,
                Ok(plan) => {
                    let changes = crate::adjustment::ordered(current, plan);
                    let made = forall|i: int|
                        0 <= i < outcomes.len() ==> (#[trigger] outcomes[i]) is Ok;
                    &&& able && made && outcomes.len() < changes.len() ==> after == state && step == (
                    RequestStepView::Apply {
                        connector: current.connector,
                        adjustment: changes[outcomes.len() as int],
                    })
                    &&& able && made && outcomes.len() >= changes.len() ==> step is Save
                    &&& step is Save ==> {
                        &&& outcomes.len() >= changes.len()
                        &&& forall|i: int|
                            0 <= i < changes.len() ==> (#[trigger] outcomes[i]) is Ok
                        &&& plan.hardware_percent matches Some(percent)
                            ==> after.config.displays[id].ddc_brightness == Some(percent)
                        &&& plan.gamma_brightness matches Some(brightness)
                            ==> after.config.displays[id].gamma_brightness == Some(brightness)
                        &&& plan.hardware_percent is None && state.config.displays.contains_key(id)
                            ==> after.config.displays[id].ddc_brightness
                            == state.config.displays[id].ddc_brightness
                        &&& plan.gamma_brightness is None && state.config.displays.contains_key(id)
                            ==> after.config.displays[id].gamma_brightness
                            == state.config.displays[id].gamma_brightness
                        &&& follows_on_saving(state, after, id, outputs)
                    }
                    &&& step matches RequestStepView::Failed(message) ==> follows_on_failing(
                        state,
                        after,
                        id,
                        message,
                        outputs,
                    ) && (able ==> !made)
                    &&& step is Apply ==> after == state
                    &&& match crate::adjustment::plan_run(
                        current,
                        plan,
                        state.gamma_available,
                        outcomes,
                        0,
                    ).step {
                        crate::adjustment::PlanStepView::Apply(adjustment) => step == (
                        RequestStepView::Apply { connector: current.connector, adjustment }),
                        crate::adjustment::PlanStepView::Done(Ok(_)) => step is Save,
                        crate::adjustment::PlanStepView::Done(Err(message)) => step
                            == RequestStepView::Failed(message),
                    }
                },
            }
        }),
{
    lemma_found(state, id, k);
    let current = state.displays[k];
    if let Ok(plan) = crate::brightness::planned(
        target,
        state.hardware_floor,
        current.ddc_supported,
        current.gamma_supported,
    ) {
        let changes = crate::adjustment::ordered(current, plan);
        crate::adjustment::plans_are_pairs(current, plan);
        let able = current.gamma_supported ==> current.connector.len() > 0
            && state.gamma_available;
        if able && (forall|i: int| 0 <= i < outcomes.len() ==> (#[trigger] outcomes[i]) is Ok) {
            crate::adjustment::plans_make_one_change_after_the_other(
                current,
                plan,
                state.gamma_available,
                outcomes,
                0,
            );
        }
        assert forall|i: int| 0 <= i < changes.len() implies plan.gamma_brightness is Some || (
        #[trigger] changes[i]) is Ddc by {
            assert(crate::adjustment::wanted(current, plan).contains(changes[i]));
        }
        reveal_with_fuel(crate::adjustment::making, 4);
        reveal_with_fuel(crate::adjustment::taking_back, 3);
    }
}

/// A request for an unknown display fails and changes nothing.
pub proof fn unknown_displays_are_refused(
    state: ManagerView,
    id: Seq<char>,
    target: Binary64,
    percent: u16,
    outcomes: Seq<Result<(), Seq<char>>>,
    outputs: Seq<crate::gamma::GammaOutputView>,
)
    requires
        forall|j: int| 0 <= j < state.displays.len() ==> (#[trigger] state.displays[j]).id != id,
    ensures
        ({
            let refusal = RequestStepView::Failed("unknown display "@ + id);
            let good = !target.nan() && 0 <= target.value() <= crate::rounding::one();
            &&& unified_request(state, id, target, outcomes, outputs) == (refusal, state)
            &&& percent <= 100 ==> ddc_request(state, id, percent, outcomes, outputs) == (
                refusal,
                state,
            )
            &&& good ==> gamma_request(state, id, target, outcomes, outputs) == (refusal, state)
            &&& saved_request(state, id, Ok(()), outputs) == (
                Err::<crate::brightness::DisplayInfoView, Seq<char>>("unknown display "@ + id),
                state,
            )
        }),
{
    let ids = info_ids(state.displays);
    crate::text::first_position_exists(ids, id);
    if let Some(i) = crate::text::first_position(ids, id) {
        assert(ids[i] == state.displays[i].id);
    }
}

/// A request whose setting was saved returns what is shown of its display. One
/// whose setting could not be saved says so, and the display shows that.
pub proof fn unsaved_settings_are_reported(
    state: ManagerView,
    id: Seq<char>,
    k: int,
    outcome: Result<(), Seq<char>>,
    outputs: Seq<crate::gamma::GammaOutputView>,
)
    requires
        0 <= k < state.displays.len(),
        state.displays[k].id == id,
        forall|j: int| 0 <= j < k ==> (#[trigger] state.displays[j]).id != id,
    ensures
        ({
            let (result, after) = saved_request(state, id, outcome, outputs);
            match outcome {
                Ok(_) => result == Ok::<crate::brightness::DisplayInfoView, Seq<char>>(
                    state.displays[k],
                ) && after == state,
                Err(error) => {
                    let message = "hardware changed, but configuration could not be saved: "@
                        + error;
                    &&& result == Err::<crate::brightness::DisplayInfoView, Seq<char>>(message)
                    &&& follows_on_failing(state, after, id, message, outputs)
                },
            }
        }),
{
    lemma_found(state, id, k);
}

proof fn lemma_plan_needs_no_more(
    display: crate::brightness::DisplayInfoView,
    plan: BrightnessPlan,
    gamma_available: bool,
    outcomes: Seq<Result<(), Seq<char>>>,
    used: nat,
    m: nat,
)
    requires
        used <= outcomes.len(),
        m <= outcomes.len(),
        crate::adjustment::plan_run(display, plan, gamma_available, outcomes, used).step is Done,
    ensures
        ({
            let run = crate::adjustment::plan_run(display, plan, gamma_available, outcomes, used);
            &&& used <= run.used <= outcomes.len()
            &&& run.used <= m ==> crate::adjustment::plan_run(
                display,
                plan,
                gamma_available,
                outcomes.take(m as int),
                used,
            ) == run
        }),
{
    crate::adjustment::plans_are_pairs(display, plan);
    reveal_with_fuel(crate::adjustment::making, 4);
    reveal_with_fuel(crate::adjustment::taking_back, 3);
}

/// Whether the same is wrong with a display.
spec fn agree_on(
    a: Map<Seq<char>, Seq<char>>,
    b: Map<Seq<char>, Seq<char>>,
    id: Seq<char>,
) -> bool {
    &&& a.contains_key(id) == b.contains_key(id)
    &&& a.contains_key(id) ==> a[id] == b[id]
}

/// Whether none of the displays from `i` on, and before `k`, has an identifier.
spec fn passed_over(state: ManagerView, i: int, k: int, id: Seq<char>) -> bool {
    forall|j: int| i <= j < k ==> (#[trigger] state.displays[j]).id != id
}

/// Restoring comes to every display: the outcomes used up by then, and what is
/// known to be wrong.
proof fn lemma_restoring_comes_to(
    state: ManagerView,
    outcomes: Seq<Result<(), Seq<char>>>,
    i: nat,
    used: nat,
    errors: Map<Seq<char>, Seq<char>>,
    k: nat,
) -> (r: (nat, Map<Seq<char>, Seq<char>>))
    requires
        i <= k <= state.displays.len(),
        used <= outcomes.len(),
        restoring(state, outcomes, i, used, errors).0 is Done,
    ensures
        used <= r.0 <= outcomes.len(),
        restoring(state, outcomes, i, used, errors) == restoring(state, outcomes, k, r.0, r.1),
        forall|m: int|
            r.0 <= m <= outcomes.len() ==> restoring(
                state,
                #[trigger] outcomes.take(m),
                i,
                used,
                errors,
            ) == restoring(state, outcomes.take(m), k, r.0, r.1),
        forall|id: Seq<char>|
            #[trigger] passed_over(state, i as int, k as int, id) ==> agree_on(errors, r.1, id),
    decreases k - i,
{
    if i == k {
        (used, errors)
    } else {
        let display = state.displays[i as int];
        let plan = restoration(state.config, display, state.readings);
        let run = crate::adjustment::plan_run(
            display,
            plan,
            state.gamma_available,
            outcomes,
            used,
        );
        if !concerned(state.config, display) {
            let r = lemma_restoring_comes_to(state, outcomes, i + 1, used, errors, k);
            assert forall|id: Seq<char>| #[trigger]
                passed_over(state, i as int, k as int, id) implies agree_on(errors, r.1, id) by {
                assert(passed_over(state, i as int + 1, k as int, id));
            }
            r
        } else {
            lemma_plan_needs_no_more(display, plan, state.gamma_available, outcomes, used, 0);
            let next = match run.step {
                crate::adjustment::PlanStepView::Done(Err(message)) => errors.insert(
                    display.id,
                    "settings restore failed: "@ + message,
                ),
                _ => errors.remove(display.id),
            };
            let r = lemma_restoring_comes_to(state, outcomes, i + 1, run.used, next, k);
            assert forall|m: int| r.0 <= m <= outcomes.len() implies restoring(
                state,
                #[trigger] outcomes.take(m),
                i,
                used,
                errors,
            ) == restoring(state, outcomes.take(m), k, r.0, r.1) by {
                lemma_plan_needs_no_more(
                    display,
                    plan,
                    state.gamma_available,
                    outcomes,
                    used,
                    m as nat,
                );
            }
            assert forall|id: Seq<char>| #[trigger]
                passed_over(state, i as int, k as int, id) implies agree_on(errors, r.1, id) by {
                assert(state.displays[i as int].id != id);
                assert(passed_over(state, i as int + 1, k as int, id));
            }
            r
        }
    }
}

/// Whether a display has to be written over DDC to stand at `percent`: it shows
/// another percentage, and its raw level is another one too.
pub open spec fn needs_writing(
    state: ManagerView,
    display: crate::brightness::DisplayInfoView,
    percent: u16,
) -> bool {
    &&& display.ddc_supported
    &&& percent <= 100
    &&& display.ddc_brightness != percent
    &&& forall|x: int|
        0 <= x < state.readings.len() && (#[trigger] state.readings[x]).id == display.id ==> {
            let reading = state.readings[x];
            &&& reading.current != (percent * reading.maximum + 50) / 100
            &&& display.ddc_brightness == crate::ddc::raw_percent(reading.current, reading.maximum)
        }
}

proof fn lemma_written(
    state: ManagerView,
    display: crate::brightness::DisplayInfoView,
    percent: u16,
)
    requires
        needs_writing(state, display, percent),
        state.config.displays.contains_key(display.id),
        state.config.displays[display.id].ddc_brightness == Some(percent),
    ensures
        concerned(state.config, display),
        restoration(state.config, display, state.readings).hardware_percent == Some(percent),
        crate::adjustment::ordered(
            display,
            restoration(state.config, display, state.readings),
        ).contains(Adjustment::Ddc { from: display.ddc_brightness, to: percent }),
{
    let ids = reading_ids(state.readings);
    crate::text::first_position_exists(ids, display.id);
    if let Some(x) = crate::text::first_position(ids, display.id) {
        assert(ids[x] == state.readings[x].id);
        let maximum = state.readings[x].maximum;
        assert(0 <= percent * maximum <= 100 * 65535) by (nonlinear_arith)
            requires
                0 <= percent <= 100,
                0 <= maximum <= 65535,
        ;
    }
    crate::adjustment::plans_change_what_differs(
        display,
        restoration(state.config, display, state.readings),
        Adjustment::Ddc { from: display.ddc_brightness, to: percent },
    );
}

/// Restoring writes what is saved: a display that shows another hardware
/// percentage than the one saved for it, and whose raw level is another one, is
/// asked for that percentage before restoring ends, once every change before it
/// was made.
pub proof fn restoring_writes_the_saved_percentage(
    state: ManagerView,
    outcomes: Seq<Result<(), Seq<char>>>,
    outputs: Seq<crate::gamma::GammaOutputView>,
    k: int,
    percent: u16,
) -> (j: int)
    requires
        0 <= k < state.displays.len(),
        needs_writing(state, state.displays[k], percent),
        state.config.displays.contains_key(state.displays[k].id),
        state.config.displays[state.displays[k].id].ddc_brightness == Some(percent),
        state.displays[k].gamma_supported ==> state.displays[k].connector.len() > 0
            && state.gamma_available,
        forall|i: int| 0 <= i < outcomes.len() ==> (#[trigger] outcomes[i]) is Ok,
        restore_step(state, outcomes, outputs).0 is Done,
    ensures
        0 <= j < outcomes.len(),
        restore_step(state, outcomes.take(j), outputs) == (
            RestoreStepView::Apply {
                id: state.displays[k].id,
                connector: state.displays[k].connector,
                adjustment: Adjustment::Ddc {
                    from: state.displays[k].ddc_brightness,
                    to: percent,
                },
            },
            state,
        ),
{
    let display = state.displays[k];
    let plan = restoration(state.config, display, state.readings);
    let changes = crate::adjustment::ordered(display, plan);
    let change = Adjustment::Ddc { from: display.ddc_brightness, to: percent };
    lemma_written(state, display, percent);
    let (used, errors) = lemma_restoring_comes_to(state, outcomes, 0, 0, state.errors, k as nat);
    crate::adjustment::plans_are_pairs(display, plan);
    let i = choose|i: int| 0 <= i < changes.len() && changes[i] == change;
    assert(changes[i] == change);
    let run = crate::adjustment::plan_run(
        display,
        plan,
        state.gamma_available,
        outcomes,
        used,
    );
    crate::adjustment::plans_make_one_change_after_the_other(
        display,
        plan,
        state.gamma_available,
        outcomes,
        used,
    );
    assert(outcomes.len() >= used + changes.len());
    let j = used + i;
    let first = outcomes.take(j);
    assert forall|n: int| used <= n < first.len() implies (#[trigger] first[n]) is Ok by {
        assert(first[n] == outcomes[n]);
    }
    crate::adjustment::plans_make_one_change_after_the_other(
        display,
        plan,
        state.gamma_available,
        first,
        used,
    );
    j
}

/// One display that cannot be led back does not keep the next ones from it: a
/// display for which only a hardware percentage is saved is asked for it,
/// whatever came of the changes before.
pub proof fn restoring_goes_on_after_failures(
    state: ManagerView,
    outcomes: Seq<Result<(), Seq<char>>>,
    outputs: Seq<crate::gamma::GammaOutputView>,
    k: int,
    percent: u16,
) -> (j: int)
    requires
        0 <= k < state.displays.len(),
        needs_writing(state, state.displays[k], percent),
        state.config.displays.contains_key(state.displays[k].id),
        state.config.displays[state.displays[k].id].ddc_brightness == Some(percent),
        !state.displays[k].gamma_supported
            || state.config.displays[state.displays[k].id].gamma_brightness is None,
        restore_step(state, outcomes, outputs).0 is Done,
    ensures
        0 <= j < outcomes.len(),
        restore_step(state, outcomes.take(j), outputs).0 == (RestoreStepView::Apply {
            id: state.displays[k].id,
            connector: state.displays[k].connector,
            adjustment: Adjustment::Ddc { from: state.displays[k].ddc_brightness, to: percent },
        }),
        (forall|i: int|
            0 <= i < state.displays.len() && i != k ==> (#[trigger] state.displays[i]).id
                != state.displays[k].id) ==> {
            let after = restore_step(state, outcomes, outputs).1;
            let id = state.displays[k].id;
            match outcomes[j] {
                Ok(_) => !after.errors.contains_key(id),
                Err(error) => after.errors.contains_key(id) && after.errors[id]
                    == "settings restore failed: "@ + ("DDC write failed: "@ + error),
            }
        },
{
    let display = state.displays[k];
    let plan = restoration(state.config, display, state.readings);
    let changes = crate::adjustment::ordered(display, plan);
    let change = Adjustment::Ddc { from: display.ddc_brightness, to: percent };
    lemma_written(state, display, percent);
    let (used, errors) = lemma_restoring_comes_to(state, outcomes, 0, 0, state.errors, k as nat);
    crate::adjustment::plans_are_pairs(display, plan);
    let i = choose|i: int| 0 <= i < changes.len() && changes[i] == change;
    assert(changes[i] == change);
    assert(crate::adjustment::wanted(display, plan) =~= seq![change]);
    assert(changes =~= seq![change]);
    reveal_with_fuel(crate::adjustment::making, 3);
    reveal_with_fuel(crate::adjustment::taking_back, 2);
    let run = crate::adjustment::plan_run(
        display,
        plan,
        state.gamma_available,
        outcomes,
        used,
    );
    assert(used < outcomes.len());
    let first = outcomes.take(used as int);
    assert(restoring(state, first, 0, 0, state.errors) == restoring(
        state,
        first,
        k as nat,
        used,
        errors,
    ));
    let next = match run.step {
        crate::adjustment::PlanStepView::Done(Err(message)) => errors.insert(
            display.id,
            "settings restore failed: "@ + message,
        ),
        _ => errors.remove(display.id),
    };
    assert(restoring(state, outcomes, k as nat, used, errors) == restoring(
        state,
        outcomes,
        k as nat + 1,
        run.used,
        next,
    ));
    let r = lemma_restoring_comes_to(
        state,
        outcomes,
        k as nat + 1,
        run.used,
        next,
        state.displays.len(),
    );
    if forall|i: int|
        0 <= i < state.displays.len() && i != k ==> (#[trigger] state.displays[i]).id
            != display.id {
        assert(passed_over(state, k + 1, state.displays.len() as int, display.id));
        assert(agree_on(next, r.1, display.id));
    }
    used as int
}

/// Restoring dims what is to be dimmed as well: a display whose gamma differs
/// from the one saved for it is asked for that before restoring ends, once every
/// change before it was made.
pub proof fn restoring_sends_the_saved_gamma(
    state: ManagerView,
    outcomes: Seq<Result<(), Seq<char>>>,
    outputs: Seq<crate::gamma::GammaOutputView>,
    k: int,
    brightness: Binary64,
) -> (j: int)
    requires
        0 <= k < state.displays.len(),
        state.displays[k].gamma_supported,
        state.displays[k].connector.len() > 0,
        state.gamma_available,
        state.config.displays.contains_key(state.displays[k].id),
        state.config.displays[state.displays[k].id].gamma_brightness == Some(brightness),
        crate::adjustment::differs(brightness, state.displays[k].gamma_brightness),
        forall|i: int| 0 <= i < outcomes.len() ==> (#[trigger] outcomes[i]) is Ok,
        restore_step(state, outcomes, outputs).0 is Done,
    ensures
        0 <= j < outcomes.len(),
        restore_step(state, outcomes.take(j), outputs) == (
            RestoreStepView::Apply {
                id: state.displays[k].id,
                connector: state.displays[k].connector,
                adjustment: Adjustment::Gamma {
                    from: state.displays[k].gamma_brightness,
                    to: brightness,
                },
            },
            state,
        ),
{
    let display = state.displays[k];
    let plan = restoration(state.config, display, state.readings);
    let changes = crate::adjustment::ordered(display, plan);
    let change = Adjustment::Gamma { from: display.gamma_brightness, to: brightness };
    let (used, errors) = lemma_restoring_comes_to(state, outcomes, 0, 0, state.errors, k as nat);
    crate::adjustment::plans_are_pairs(display, plan);
    crate::adjustment::plans_change_what_differs(display, plan, change);
    let i = choose|i: int| 0 <= i < changes.len() && changes[i] == change;
    assert(changes[i] == change);
    crate::adjustment::plans_make_one_change_after_the_other(
        display,
        plan,
        state.gamma_available,
        outcomes,
        used,
    );
    let j = used + i;
    let first = outcomes.take(j);
    assert forall|n: int| used <= n < first.len() implies (#[trigger] first[n]) is Ok by {
        assert(first[n] == outcomes[n]);
    }
    crate::adjustment::plans_make_one_change_after_the_other(
        display,
        plan,
        state.gamma_available,
        first,
        used,
    );
    j
}

/// Whether the gamma control of a display, if it shows one, can be reached.
pub open spec fn reachable(
    state: ManagerView,
    display: crate::brightness::DisplayInfoView,
) -> bool {
    display.gamma_supported ==> display.connector.len() > 0 && state.gamma_available
}

proof fn lemma_restoring_asks(
    state: ManagerView,
    outcomes: Seq<Result<(), Seq<char>>>,
    i: nat,
    used: nat,
    errors: Map<Seq<char>, Seq<char>>,
) -> (k: int)
    requires
        used <= outcomes.len(),
        forall|n: int| 0 <= n < outcomes.len() ==> (#[trigger] outcomes[n]) is Ok,
        forall|n: int|
            0 <= n < state.displays.len() ==> reachable(state, #[trigger] state.displays[n]),
        restoring(state, outcomes, i, used, errors).0 is Apply,
    ensures
        i <= k < state.displays.len(),
        ({
            let display = state.displays[k];
            let plan = restoration(state.config, display, state.readings);
            restoring(state, outcomes, i, used, errors).0 matches RestoreStepView::Apply {
                id,
                connector,
                adjustment,
            } && id == display.id && connector == display.connector
                && crate::adjustment::ordered(display, plan).contains(adjustment)
        }),
    decreases state.displays.len() - i,
{
    let display = state.displays[i as int];
    let plan = restoration(state.config, display, state.readings);
    let run = crate::adjustment::plan_run(
        display,
        plan,
        state.gamma_available,
        outcomes,
        used,
    );
    let changes = crate::adjustment::ordered(display, plan);
    if !concerned(state.config, display) {
        lemma_restoring_asks(state, outcomes, i + 1, used, errors)
    } else {
        crate::adjustment::plans_are_pairs(display, plan);
        assert(reachable(state, display));
        crate::adjustment::plans_make_one_change_after_the_other(
            display,
            plan,
            state.gamma_available,
            outcomes,
            used,
        );
        match run.step {
            crate::adjustment::PlanStepView::Apply(adjustment) => {
                assert(changes[outcomes.len() - used] == adjustment);
                i as int
            },
            crate::adjustment::PlanStepView::Done(Ok(_)) => lemma_restoring_asks(
                state,
                outcomes,
                i + 1,
                run.used,
                errors.remove(display.id),
            ),
            crate::adjustment::PlanStepView::Done(Err(message)) => lemma_restoring_asks(
                state,
                outcomes,
                i + 1,
                run.used,
                errors.insert(display.id, "settings restore failed: "@ + message),
            ),
        }
    }
}

/// Restoring asks for nothing else: while every change is made, it asks for a
/// change only on a display that has the control, for the value saved for it,
/// and only where the display shows a different one. A display at the raw level
/// of its saved percentage is not written.
pub proof fn restoring_asks_only_for_what_is_saved(
    state: ManagerView,
    outcomes: Seq<Result<(), Seq<char>>>,
    outputs: Seq<crate::gamma::GammaOutputView>,
) -> (k: int)
    requires
        forall|n: int| 0 <= n < outcomes.len() ==> (#[trigger] outcomes[n]) is Ok,
        forall|n: int|
            0 <= n < state.displays.len() ==> reachable(state, #[trigger] state.displays[n]),
        restore_step(state, outcomes, outputs).0 is Apply,
    ensures
        0 <= k < state.displays.len(),
        restore_step(state, outcomes, outputs).1 == state,
        state.config.displays.contains_key(state.displays[k].id),
        ({
            let display = state.displays[k];
            let saved = state.config.displays[display.id];
            restore_step(state, outcomes, outputs).0 matches RestoreStepView::Apply {
                id,
                connector,
                adjustment,
            } && id == display.id && connector == display.connector && match adjustment {
                Adjustment::Ddc { from, to } => {
                    &&& display.ddc_supported
                    &&& saved.ddc_brightness == Some(to)
                    &&& from == display.ddc_brightness
                    &&& from != to
                    &&& forall|x: int|
                        0 <= x < state.readings.len() && (#[trigger] state.readings[x]).id == id
                            && to <= 100 && (forall|y: int|
                            0 <= y < x ==> (#[trigger] state.readings[y]).id != id)
                            ==> state.readings[x].current != (to * state.readings[x].maximum + 50)
                            / 100
                },
                Adjustment::Gamma { from, to } => {
                    &&& display.gamma_supported
                    &&& saved.gamma_brightness == Some(to)
                    &&& from == display.gamma_brightness
                    &&& crate::adjustment::differs(to, from)
                },
            }
        }),
{
    let k = lemma_restoring_asks(state, outcomes, 0, 0, state.errors);
    let display = state.displays[k];
    let plan = restoration(state.config, display, state.readings);
    let adjustment = restoring(state, outcomes, 0, 0, state.errors).0->adjustment;
    crate::adjustment::plans_change_what_differs(display, plan, adjustment);
    if let Adjustment::Ddc { from, to } = adjustment {
        let ids = reading_ids(state.readings);
        assert forall|x: int|
            0 <= x < state.readings.len() && (#[trigger] state.readings[x]).id == display.id && to
                <= 100 && (forall|y: int|
                0 <= y < x ==> (#[trigger] state.readings[y]).id != display.id) implies
            state.readings[x].current != (to * state.readings[x].maximum + 50) / 100 by {
            assert(ids[x] == display.id);
            assert forall|y: int| 0 <= y < x implies #[trigger] ids[y] != display.id by {
                assert(ids[y] == state.readings[y].id);
            }
            crate::text::first_position_is_first(ids, display.id, x);
            let maximum = state.readings[x].maximum;
            assert(0 <= to * maximum <= 100 * 65535) by (nonlinear_arith)
                requires
                    0 <= to <= 100,
                    0 <= maximum <= 65535,
            ;
        }
    }
    k
}

/// Restoring leaves the configuration alone, and what is wrong with a display
/// for which nothing is saved; at its end everything is shown anew.
pub proof fn restoring_keeps_what_does_not_concern_it(
    state: ManagerView,
    outcomes: Seq<Result<(), Seq<char>>>,
    outputs: Seq<crate::gamma::GammaOutputView>,
    id: Seq<char>,
)
    requires
        restore_step(state, outcomes, outputs).0 is Done,
    ensures
        ({
            let after = restore_step(state, outcomes, outputs).1;
            &&& after.config == state.config
            &&& after.ddc == state.ddc
            &&& after.gamma_available == state.gamma_available
            &&& after.hardware_floor == state.hardware_floor
            &&& after.readings == crate::backend::snapshots(state.ddc)
            &&& after.displays == merged(
                crate::backend::snapshots(state.ddc),
                outputs,
                after.errors,
            )
            &&& !state.config.displays.contains_key(id) ==> {
                &&& after.errors.contains_key(id) == state.errors.contains_key(id)
                &&& state.errors.contains_key(id) ==> after.errors[id] == state.errors[id]
            }
        }),
{
    if !state.config.displays.contains_key(id) {
        lemma_unsaved_is_kept(state, outcomes, 0, 0, state.errors, id);
    }
}

proof fn lemma_unsaved_is_kept(
    state: ManagerView,
    outcomes: Seq<Result<(), Seq<char>>>,
    i: nat,
    used: nat,
    errors: Map<Seq<char>, Seq<char>>,
    id: Seq<char>,
)
    requires
        !state.config.displays.contains_key(id),
    ensures
        agree_on(errors, restoring(state, outcomes, i, used, errors).1, id),
    decreases state.displays.len() - i,
{
    if i < state.displays.len() {
        let display = state.displays[i as int];
        let plan = restoration(state.config, display, state.readings);
        let run = crate::adjustment::plan_run(
            display,
            plan,
            state.gamma_available,
            outcomes,
            used,
        );
        if !concerned(state.config, display) {
            lemma_unsaved_is_kept(state, outcomes, i + 1, used, errors, id);
        } else {
            assert(display.id != id);
            lemma_unsaved_is_kept(
                state,
                outcomes,
                i + 1,
                run.used,
                errors.remove(display.id),
                id,
            );
            if let crate::adjustment::PlanStepView::Done(Err(message)) = run.step {
                lemma_unsaved_is_kept(
                    state,
                    outcomes,
                    i + 1,
                    run.used,
                    errors.insert(display.id, "settings restore failed: "@ + message),
                    id,
                );
            }
        }
    }
}

/// Every DDC display is shown as it was read, with the gamma brightness of the
/// first output at its connector and with what is wrong with it. A display whose
/// connector is unknown, or at which there is no output, shows no gamma control.
pub proof fn ddc_displays_are_shown_as_they_were_read(
    displays: Seq<crate::ddc::DdcDisplayView>,
    outputs: Seq<crate::gamma::GammaOutputView>,
    errors: Map<Seq<char>, Seq<char>>,
    i: int,
) -> (k: int)
    requires
        0 <= i < displays.len(),
    ensures
        0 <= k < merged(displays, outputs, errors).len(),
        ({
            let display = displays[i];
            let info = merged(displays, outputs, errors)[k];
            let reached: int = if display.current < display.maximum {
                display.current as int
            } else {
                display.maximum as int
            };
            let here = |output: crate::gamma::GammaOutputView|
                display.connector.len() > 0 && output.name == display.connector;
            &&& info.id == display.id
            &&& info.name == display.name
            &&& info.connector == display.connector
            &&& info.ddc_supported
            &&& info.ddc_brightness <= 100
            &&& 2 * crate::binary64::gap(
                info.ddc_brightness * display.maximum,
                100 * reached,
            ) <= display.maximum
            &&& display.maximum == 0 ==> info.ddc_brightness == 0
            &&& errors.contains_key(info.id) ==> info.last_error == errors[info.id]
            &&& !errors.contains_key(info.id) ==> info.last_error.len() == 0
            &&& info.gamma_supported == exists|j: int| 0 <= j < outputs.len() && here(outputs[j])
            &&& forall|j: int|
                0 <= j < outputs.len() && #[trigger] here(outputs[j]) && (forall|m: int|
                    0 <= m < j ==> !here(outputs[m])) ==> info.gamma_brightness
                    == outputs[j].brightness
            &&& !info.gamma_supported ==> info.gamma_brightness == unity()
        }),
{
    let shown = merged(displays, outputs, errors);
    let display = displays[i];
    let info = ddc_info(display, outputs, errors);
    every_ddc_display_is_shown(displays, outputs, errors, i);
    let k = choose|k: int| 0 <= k < shown.len() && shown[k] == info;
    crate::ddc::percentages_are_nearest(display.current, display.maximum);
    let here = |output: crate::gamma::GammaOutputView|
        display.connector.len() > 0 && output.name == display.connector;
    let named = output_named(display.connector);
    crate::model::first_exists(outputs, named);
    if display.connector.len() > 0 {
        if info.gamma_supported {
            let j = crate::model::first_where(outputs, named)->Some_0;
            assert(named(outputs[j]));
            assert(here(outputs[j]));
        }
        if exists|j: int| 0 <= j < outputs.len() && here(outputs[j]) {
            let j = choose|j: int| 0 <= j < outputs.len() && here(outputs[j]);
            assert(named(outputs[j]));
        }
        assert forall|j: int|
            0 <= j < outputs.len() && #[trigger] here(outputs[j]) && (forall|m: int|
                0 <= m < j ==> !here(outputs[m])) implies info.gamma_brightness
            == outputs[j].brightness by {
            assert forall|m: int| 0 <= m < j implies !named(#[trigger] outputs[m]) by {
                assert(!here(outputs[m]));
            }
            crate::model::first_is_unique(outputs, named, j);
        }
    }
    k
}

/// An output that no DDC display stands for is shown by itself, with its name as
/// its connector and its own gamma brightness.
pub proof fn lone_outputs_are_shown_by_themselves(
    displays: Seq<crate::ddc::DdcDisplayView>,
    outputs: Seq<crate::gamma::GammaOutputView>,
    errors: Map<Seq<char>, Seq<char>>,
    j: int,
) -> (k: int)
    requires
        0 <= j < outputs.len(),
        forall|i: int|
            0 <= i < displays.len() ==> (#[trigger] displays[i]).connector != outputs[j].name
                || outputs[j].name.len() == 0,
    ensures
        0 <= k < merged(displays, outputs, errors).len(),
        ({
            let info = merged(displays, outputs, errors)[k];
            &&& info.id == "wayland:"@ + outputs[j].name
            &&& info.name == outputs[j].name
            &&& info.connector == outputs[j].name
            &&& !info.ddc_supported
            &&& info.ddc_brightness == 100
            &&& info.gamma_supported
            &&& info.gamma_brightness == outputs[j].brightness
            &&& errors.contains_key(info.id) ==> info.last_error == errors[info.id]
            &&& !errors.contains_key(info.id) ==> info.last_error.len() == 0
        }),
{
    let all = unordered(displays, outputs, errors);
    let shown = merged(displays, outputs, errors);
    lemma_output_infos(displays, outputs, errors);
    let infos = output_infos(displays, outputs, errors);
    let info = output_info(outputs[j], errors);
    assert(!claimed(displays, outputs[j].name));
    let m = choose|m: int| 0 <= m < infos.len() && infos[m] == info;
    assert(all[displays.len() + m] == info);
    crate::order::sorting_keeps_membership::<DisplayInfo>(all, info);
    choose|k: int| 0 <= k < shown.len() && shown[k] == info
}

/// Nothing else is shown: there are as many entries as DDC displays and outputs
/// that none of them stands for, and an entry without hardware brightness is an
/// output whose connector no DDC display has.
pub proof fn nothing_is_shown_twice(
    displays: Seq<crate::ddc::DdcDisplayView>,
    outputs: Seq<crate::gamma::GammaOutputView>,
    errors: Map<Seq<char>, Seq<char>>,
)
    ensures
        displays.len() <= merged(displays, outputs, errors).len() <= displays.len() + outputs.len(),
        (forall|j: int|
            0 <= j < outputs.len() ==> exists|i: int|
                0 <= i < displays.len() && (#[trigger] displays[i]).connector == (
                #[trigger] outputs[j]).name && outputs[j].name.len() > 0) ==> merged(
            displays,
            outputs,
            errors,
        ).len() == displays.len(),
        forall|k: int|
            0 <= k < merged(displays, outputs, errors).len() && !(#[trigger] merged(
                displays,
                outputs,
                errors,
            )[k]).ddc_supported ==> forall|i: int|
                0 <= i < displays.len() ==> (#[trigger] displays[i]).connector != merged(
                    displays,
                    outputs,
                    errors,
                )[k].connector || displays[i].connector.len() == 0,
{
    let all = unordered(displays, outputs, errors);
    let shown = merged(displays, outputs, errors);
    let infos = output_infos(displays, outputs, errors);
    let p = crate::order::sorting_permutes::<DisplayInfo>(all);
    lemma_output_infos(displays, outputs, errors);
    assert(all.len() == displays.len() + infos.len());
    if forall|j: int|
        0 <= j < outputs.len() ==> exists|i: int|
            0 <= i < displays.len() && (#[trigger] displays[i]).connector == (
            #[trigger] outputs[j]).name && outputs[j].name.len() > 0 {
        if infos.len() > 0 {
            let j = choose|j: int|
                0 <= j < outputs.len() && !claimed(displays, outputs[j].name) && infos[0]
                    == output_info(#[trigger] outputs[j], errors);
            assert(claimed(displays, outputs[j].name));
        }
    }
    assert forall|k: int| 0 <= k < shown.len() && !(#[trigger] shown[k]).ddc_supported implies
        forall|i: int|
            0 <= i < displays.len() ==> (#[trigger] displays[i]).connector != shown[k].connector
                || displays[i].connector.len() == 0 by {
        assert(shown[k] == all[p[k]]);
        if p[k] < displays.len() {
            assert(all[p[k]] == ddc_info(displays[p[k]], outputs, errors));
        } else {
            let n = p[k] - displays.len();
            assert(all[p[k]] == infos[n]);
            let j = choose|j: int|
                0 <= j < outputs.len() && !claimed(displays, outputs[j].name) && infos[n]
                    == output_info(#[trigger] outputs[j], errors);
            assert(!claimed(displays, outputs[j].name));
        }
    }
}

/// What is shown stands in the order of connectors, and of identifiers where
/// connectors are the same.
pub proof fn displays_are_shown_by_connector(
    displays: Seq<crate::ddc::DdcDisplayView>,
    outputs: Seq<crate::gamma::GammaOutputView>,
    errors: Map<Seq<char>, Seq<char>>,
    i: int,
    j: int,
)
    requires
        0 <= i < j < merged(displays, outputs, errors).len(),
    ensures
        ({
            let first = merged(displays, outputs, errors)[i];
            let second = merged(displays, outputs, errors)[j];
            &&& !crate::order::text_before(second.connector, first.connector)
            &&& first.connector == second.connector ==> !crate::order::text_before(
                second.id,
                first.id,
            )
        }),
{
    let all = unordered(displays, outputs, errors);
    let shown = merged(displays, outputs, errors);
    crate::order::sorting_keeps_the_values::<DisplayInfo>(all);
    let first = shown[i];
    let second = shown[j];
    let a = crate::order::text_rank(first.id);
    let b = crate::order::text_rank(second.id);
    let none = Seq::<u64>::empty();
    assert(!crate::order::precedes(DisplayInfo::rank_of(second), DisplayInfo::rank_of(first)));
    crate::order::leading_texts_decide(second.connector, b, first.connector, a);
    crate::order::leading_texts_decide(second.id, none, first.id, none);
    assert(a + none =~= a);
    assert(b + none =~= b);
}

/// A new enumeration replaces the displays and nothing that was configured or
/// noted: what is wrong with a display stays known, and is shown where the
/// display is found again.
pub proof fn enumerations_keep_what_is_known(
    state: ManagerView,
    ddc: Seq<crate::grouping::ManagedDisplayView>,
    gamma_available: bool,
    outputs: Seq<crate::gamma::GammaOutputView>,
)
    ensures
        ({
            let after = state.found_anew(ddc, gamma_available, outputs);
            &&& after.ddc == ddc
            &&& after.gamma_available == gamma_available
            &&& after.config == state.config
            &&& after.errors == state.errors
            &&& after.hardware_floor == state.hardware_floor
            &&& after.readings.len() == ddc.len()
            &&& forall|i: int|
                0 <= i < ddc.len() ==> #[trigger] after.readings[i] == ddc[i].snapshot
            &&& after.displays == merged(after.readings, outputs, state.errors)
        }),
{
}

/// Every display has its turn: whatever came of the changes before, restoring
/// does not end before the first change that leads a display to its plan was
/// asked for, unless it can be neither tried nor made.
pub proof fn every_display_has_its_turn(
    state: ManagerView,
    outcomes: Seq<Result<(), Seq<char>>>,
    outputs: Seq<crate::gamma::GammaOutputView>,
    k: int,
) -> (j: int)
    requires
        0 <= k < state.displays.len(),
        restore_step(state, outcomes, outputs).0 is Done,
        crate::adjustment::ordered(
            state.displays[k],
            restoration(state.config, state.displays[k], state.readings),
        ).len() > 0,
        crate::adjustment::ordered(
            state.displays[k],
            restoration(state.config, state.displays[k], state.readings),
        )[0] is Ddc || reachable(state, state.displays[k]),
    ensures
        0 <= j < outcomes.len(),
        restore_step(state, outcomes.take(j), outputs) == (
            RestoreStepView::Apply {
                id: state.displays[k].id,
                connector: state.displays[k].connector,
                adjustment: crate::adjustment::ordered(
                    state.displays[k],
                    restoration(state.config, state.displays[k], state.readings),
                )[0],
            },
            state,
        ),
{
    let display = state.displays[k];
    let plan = restoration(state.config, display, state.readings);
    let changes = crate::adjustment::ordered(display, plan);
    crate::adjustment::plans_are_pairs(display, plan);
    assert(crate::adjustment::wanted(display, plan).contains(changes[0]));
    let (used, errors) = lemma_restoring_comes_to(state, outcomes, 0, 0, state.errors, k as nat);
    let first = outcomes.take(used as int);
    assert(restoring(state, first, 0, 0, state.errors) == restoring(
        state,
        first,
        k as nat,
        used,
        errors,
    ));
    reveal_with_fuel(crate::adjustment::making, 2);
    if used == outcomes.len() {
        assert(first =~= outcomes);
    }
    used as int
}

/// At the end of restoring, a display for which something is saved that it has a
/// control for shows what came of its plan: nothing is wrong, or the failure. A
/// display for which no such thing is saved shows what it showed before.
pub proof fn restoring_notes_what_came_of_it(
    state: ManagerView,
    outcomes: Seq<Result<(), Seq<char>>>,
    outputs: Seq<crate::gamma::GammaOutputView>,
    k: int,
) -> (used: nat)
    requires
        0 <= k < state.displays.len(),
        forall|i: int|
            0 <= i < state.displays.len() && i != k ==> (#[trigger] state.displays[i]).id
                != state.displays[k].id,
        restore_step(state, outcomes, outputs).0 is Done,
    ensures
        used <= outcomes.len(),
        ({
            let display = state.displays[k];
            let id = display.id;
            let after = restore_step(state, outcomes, outputs).1;
            let saved = state.config.displays[id];
            let relevant = state.config.displays.contains_key(id) && {
                ||| display.ddc_supported && saved.ddc_brightness is Some
                ||| display.gamma_supported && saved.gamma_brightness is Some
            };
            let run = crate::adjustment::plan_run(
                display,
                restoration(state.config, display, state.readings),
                state.gamma_available,
                outcomes,
                used,
            );
            &&& relevant ==> match run.step {
                crate::adjustment::PlanStepView::Done(Ok(_)) => !after.errors.contains_key(id),
                crate::adjustment::PlanStepView::Done(Err(message)) => after.errors.contains_key(id)
                    && after.errors[id] == "settings restore failed: "@ + message,
                _ => false,
            }
            &&& !relevant ==> {
                &&& after.errors.contains_key(id) == state.errors.contains_key(id)
                &&& state.errors.contains_key(id) ==> after.errors[id] == state.errors[id]
            }
            &&& relevant && reachable(state, display) && (forall|i: int|
                0 <= i < outcomes.len() ==> (#[trigger] outcomes[i]) is Ok)
                ==> !after.errors.contains_key(id)
        }),
{
    let display = state.displays[k];
    let id = display.id;
    let plan = restoration(state.config, display, state.readings);
    let (used, errors) = lemma_restoring_comes_to(state, outcomes, 0, 0, state.errors, k as nat);
    assert(passed_over(state, 0, k, id));
    let run = crate::adjustment::plan_run(
        display,
        plan,
        state.gamma_available,
        outcomes,
        used,
    );
    let (next, spent) = if !concerned(state.config, display) {
        (errors, used)
    } else {
        lemma_plan_needs_no_more(display, plan, state.gamma_available, outcomes, used, 0);
        match run.step {
            crate::adjustment::PlanStepView::Done(Err(message)) => (
                errors.insert(id, "settings restore failed: "@ + message),
                run.used,
            ),
            _ => (errors.remove(id), run.used),
        }
    };
    assert(restoring(state, outcomes, k as nat, used, errors) == restoring(
        state,
        outcomes,
        k as nat + 1,
        spent,
        next,
    ));
    let r = lemma_restoring_comes_to(
        state,
        outcomes,
        k as nat + 1,
        spent,
        next,
        state.displays.len(),
    );
    assert(passed_over(state, k + 1, state.displays.len() as int, id));
    assert(agree_on(next, r.1, id));
    assert(agree_on(state.errors, errors, id));
    if reachable(state, display) && (forall|i: int|
        0 <= i < outcomes.len() ==> (#[trigger] outcomes[i]) is Ok) {
        crate::adjustment::plans_make_one_change_after_the_other(
            display,
            plan,
            state.gamma_available,
            outcomes,
            used,
        );
    }
    used
}

/// Steps say what they hold.
pub proof fn steps_say_what_they_hold(request: RequestStep, restore: RestoreStep)
    ensures
        match request {
            RequestStep::Apply { connector, adjustment } => request@ == (RequestStepView::Apply {
                connector: connector@,
                adjustment,
            }),
            RequestStep::Save => request@ is Save,
            RequestStep::Failed(message) => request@ == RequestStepView::Failed(message@),
        },
        match restore {
            RestoreStep::Apply { id, connector, adjustment } => restore@ == (
            RestoreStepView::Apply { id: id@, connector: connector@, adjustment }),
            RestoreStep::Done => restore@ is Done,
        },
{
}

} // verus!
