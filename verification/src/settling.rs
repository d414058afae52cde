//! Refreshing again: what a refresh has restored, the next one finds settled.

use vstd::prelude::*;

use crate::adjustment::Adjustment;
use crate::brightness::DisplayInfo;
use crate::order::Ranked;

verus! {

/// Everything that a refresh works on: the daemon's state, and that of the
/// gamma worker.
pub struct World {
    pub manager: crate::manager::ManagerView,
    pub gamma: crate::gamma::GammaBackendView,
}

/// What came back from the hardware when a change was tried.
pub struct Feedback {
    /// The outcomes of writing over DDC transports.
    pub writes: Seq<Result<(), Seq<char>>>,
    /// What came of handing over a gamma table.
    pub delivery: Option<crate::gamma::DeliveryView>,
}

/// Whether a change was made on the hardware, and what has become of everything
/// by then.
pub open spec fn tried(
    world: World,
    id: Seq<char>,
    connector: Seq<char>,
    adjustment: Adjustment,
    feedback: Feedback,
) -> (bool, World) {
    match adjustment {
        Adjustment::Ddc { to, .. } => {
            let (step, ddc) = crate::backend::write_step(
                world.manager.ddc,
                id,
                to,
                feedback.writes,
            );
            (
                step is Done && step->Done_0 is Ok,
                World { manager: crate::manager::ManagerView { ddc, ..world.manager }, ..world },
            )
        },
        Adjustment::Gamma { to, .. } => {
            let (step, gamma) = crate::gamma::gamma_step(
                world.gamma,
                connector,
                to,
                feedback.delivery,
            );
            (step is Done && step->Done_0 is Ok, World { gamma, ..world })
        },
    }
}

/// The outcomes of `n` changes that were all made.
pub open spec fn all_made(n: nat) -> Seq<Result<(), Seq<char>>> {
    Seq::new(n, |i: int| Ok(()))
}

/// What follows when saved settings are restored, after `n` changes that were
/// all made.
pub open spec fn next_change(world: World, n: nat) -> crate::manager::RestoreStepView {
    crate::manager::restore_step(world.manager, all_made(n), world.gamma.cache).0
}

/// Everything after the first `n` changes of a restoration.
pub open spec fn restore_run(first: World, feedback: Seq<Feedback>, n: nat) -> World
    decreases n,
{
    if n == 0 {
        first
    } else {
        let before = restore_run(first, feedback, (n - 1) as nat);
        match next_change(before, (n - 1) as nat) {
            crate::manager::RestoreStepView::Apply { id, connector, adjustment } => tried(
                before,
                id,
                connector,
                adjustment,
                feedback[n - 1],
            ).1,
            crate::manager::RestoreStepView::Done => before,
        }
    }
}

/// Whether the change `n` of a restoration was asked for and was made.
pub open spec fn change_was_made(first: World, feedback: Seq<Feedback>, n: nat) -> bool {
    let before = restore_run(first, feedback, n);
    match next_change(before, n) {
        crate::manager::RestoreStepView::Apply { id, connector, adjustment } => tried(
            before,
            id,
            connector,
            adjustment,
            feedback[n as int],
        ).0,
        crate::manager::RestoreStepView::Done => false,
    }
}

/// Whether a restoration has ended and every change that it asked for was made.
pub open spec fn restored(first: World, feedback: Seq<Feedback>) -> bool {
    &&& forall|n: nat| n < feedback.len() ==> #[trigger] change_was_made(first, feedback, n)
    &&& next_change(restore_run(first, feedback, feedback.len()), feedback.len()) is Done
}

/// Everything after a restoration that has ended.
pub open spec fn after_restoring(first: World, feedback: Seq<Feedback>) -> World {
    let last = restore_run(first, feedback, feedback.len());
    World {
        manager: crate::manager::restore_step(
            last.manager,
            all_made(feedback.len()),
            last.gamma.cache,
        ).1,
        ..last
    }
}

/// Everything after a new enumeration has found the displays `found`; saved
/// settings are not restored yet.
pub open spec fn refreshed(
    world: World,
    found: Seq<crate::grouping::ManagedDisplayView>,
    gamma_available: bool,
) -> World {
    World {
        manager: world.manager.found_anew(found, gamma_available, world.gamma.cache),
        ..world
    }
}

/// Whether a display can only be asked for what no backend can do: it is an
/// output without a name.
spec fn mute(display: crate::brightness::DisplayInfoView) -> bool {
    !display.ddc_supported && display.connector.len() == 0
}

/// Whether the controls that a display shows are there.
spec fn grounded(
    state: crate::manager::ManagerView,
    display: crate::brightness::DisplayInfoView,
) -> bool {
    &&& display.gamma_supported ==> state.gamma_available
    &&& display.connector.len() == 0 ==> !display.ddc_supported || !display.gamma_supported
}

/// The changes that restoring asks for on a display.
spec fn asked(
    state: crate::manager::ManagerView,
    display: crate::brightness::DisplayInfoView,
) -> Seq<Adjustment> {
    if mute(display) {
        Seq::empty()
    } else {
        crate::adjustment::ordered(display, crate::manager::restoration(state.config, display, state.readings))
    }
}

/// What is noted of a display once the changes asked for were made.
spec fn verdict(
    state: crate::manager::ManagerView,
    display: crate::brightness::DisplayInfoView,
) -> Option<Seq<char>> {
    let plan = crate::manager::restoration(state.config, display, state.readings);
    if mute(display) && crate::adjustment::ordered(display, plan).len() > 0 {
        Some(
            "settings restore failed: "@ + "the display is not associated with a Wayland connector"@,
        )
    } else {
        None
    }
}

proof fn lemma_plan_shape(
    state: crate::manager::ManagerView,
    display: crate::brightness::DisplayInfoView,
)
    ensures
        ({
            let plan = crate::manager::restoration(state.config, display, state.readings);
            let s = crate::adjustment::ordered(display, plan);
            let w = crate::adjustment::wanted(display, plan);
            &&& s.len() <= 2
            &&& s.len() == w.len()
            &&& forall|i: int| 0 <= i < s.len() ==> w.contains(#[trigger] s[i])
            &&& forall|i: int|
                0 <= i < s.len() ==> match #[trigger] s[i] {
                    Adjustment::Ddc { to, .. } => display.ddc_supported
                        && plan.hardware_percent == Some(to),
                    Adjustment::Gamma { to, .. } => display.gamma_supported
                        && plan.gamma_brightness == Some(to),
                }
            &&& w.len() == 2 ==> (s[0] == w[0] && s[1] == w[1]) || (s[0] == w[1] && s[1] == w[0])
        }),
{
    let plan = crate::manager::restoration(state.config, display, state.readings);
    crate::adjustment::plans_are_pairs(display, plan);
    let s = crate::adjustment::ordered(display, plan);
    let w = crate::adjustment::wanted(display, plan);
    assert forall|i: int| 0 <= i < s.len() implies match #[trigger] s[i] {
        Adjustment::Ddc { to, .. } => display.ddc_supported && plan.hardware_percent == Some(to),
        Adjustment::Gamma { to, .. } => display.gamma_supported && plan.gamma_brightness == Some(
            to,
        ),
    } by {
        assert(w.contains(s[i]));
    }
}

/// While all changes are made, a plan asks for one change after the other, and
/// then ends with what is noted of its display.
proof fn lemma_plan_made(
    state: crate::manager::ManagerView,
    display: crate::brightness::DisplayInfoView,
    n: nat,
    used: nat,
)
    requires
        grounded(state, display),
        used <= n,
    ensures
        ({
            let plan = crate::manager::restoration(state.config, display, state.readings);
            let run = crate::adjustment::plan_run(
                display,
                plan,
                state.gamma_available,
                all_made(n),
                used,
            );
            let changes = asked(state, display);
            if n - used < changes.len() {
                run.step == crate::adjustment::PlanStepView::Apply(changes[n - used])
            } else {
                ended(run, used + changes.len(), verdict(state, display))
            }
        }),
{
    lemma_plan_shape(state, display);
    reveal_with_fuel(crate::adjustment::making, 4);
    reveal_with_fuel(crate::adjustment::taking_back, 2);
}

/// Whether a plan has ended with `used` outcomes and with what is noted.
spec fn ended(run: crate::adjustment::PlanRun, used: nat, note: Option<Seq<char>>) -> bool {
    &&& run.used == used
    &&& match run.step {
        crate::adjustment::PlanStepView::Apply(_) => false,
        crate::adjustment::PlanStepView::Done(Ok(_)) => note is None,
        crate::adjustment::PlanStepView::Done(Err(message)) => note == Some(
            "settings restore failed: "@ + message,
        ),
    }
}

/// A display of which no change is asked is passed by, whatever comes of other
/// changes.
proof fn lemma_plan_idle(
    state: crate::manager::ManagerView,
    display: crate::brightness::DisplayInfoView,
    outcomes: Seq<Result<(), Seq<char>>>,
    used: nat,
)
    requires
        grounded(state, display),
        asked(state, display).len() == 0,
    ensures
        ended(
            crate::adjustment::plan_run(
                display,
                crate::manager::restoration(state.config, display, state.readings),
                state.gamma_available,
                outcomes,
                used,
            ),
            used,
            verdict(state, display),
        ),
{
    lemma_plan_shape(state, display);
    reveal_with_fuel(crate::adjustment::making, 4);
    reveal_with_fuel(crate::adjustment::taking_back, 2);
}

/// Whether the controls that the displays show are there.
spec fn all_grounded(state: crate::manager::ManagerView) -> bool {
    forall|k: int|
        0 <= k < state.displays.len() ==> grounded(state, #[trigger] state.displays[k])
}

/// How many changes are asked for on the first `i` displays.
spec fn changes_before(state: crate::manager::ManagerView, i: nat) -> nat
    decreases i,
{
    if i == 0 {
        0
    } else {
        changes_before(state, (i - 1) as nat) + asked(state, state.displays[i - 1]).len()
    }
}

/// What is noted of the first `i` displays.
spec fn notes_before(
    state: crate::manager::ManagerView,
    i: nat,
) -> Seq<(Seq<char>, Option<Seq<char>>)>
    decreases i,
{
    if i == 0 {
        Seq::empty()
    } else {
        let front = notes_before(state, (i - 1) as nat);
        let display = state.displays[i - 1];
        if crate::manager::concerned(state.config, display) {
            front.push((display.id, verdict(state, display)))
        } else {
            front
        }
    }
}

proof fn lemma_noted_push(
    errors: Map<Seq<char>, Seq<char>>,
    notes: Seq<(Seq<char>, Option<Seq<char>>)>,
    note: (Seq<char>, Option<Seq<char>>),
)
    ensures
        crate::manager::noted(errors, notes.push(note)) == (match note.1 {
            Some(message) => crate::manager::noted(errors, notes).insert(note.0, message),
            None => crate::manager::noted(errors, notes).remove(note.0),
        }),
{
    assert(notes.push(note).drop_last() =~= notes);
}

proof fn lemma_unconcerned(
    state: crate::manager::ManagerView,
    display: crate::brightness::DisplayInfoView,
)
    requires
        !crate::manager::concerned(state.config, display),
    ensures
        asked(state, display).len() == 0,
{
    lemma_plan_shape(state, display);
}

proof fn lemma_reach(
    state: crate::manager::ManagerView,
    errors: Map<Seq<char>, Seq<char>>,
    n: nat,
    i: nat,
)
    requires
        all_grounded(state),
        i <= state.displays.len(),
        changes_before(state, i) <= n,
    ensures
        crate::manager::restoring(state, all_made(n), 0, 0, errors) == crate::manager::restoring(
            state,
            all_made(n),
            i,
            changes_before(state, i),
            crate::manager::noted(errors, notes_before(state, i)),
        ),
    decreases i,
{
    if i > 0 {
        let h = (i - 1) as nat;
        let display = state.displays[h as int];
        lemma_reach(state, errors, n, h);
        assert(grounded(state, display));
        lemma_plan_made(state, display, n, changes_before(state, h));
        if crate::manager::concerned(state.config, display) {
            lemma_noted_push(
                errors,
                notes_before(state, h),
                (display.id, verdict(state, display)),
            );
        } else {
            lemma_unconcerned(state, display);
        }
    }
}

proof fn lemma_next_asked(
    state: crate::manager::ManagerView,
    errors: Map<Seq<char>, Seq<char>>,
    n: nat,
    i: nat,
)
    requires
        all_grounded(state),
        i < state.displays.len(),
        changes_before(state, i) <= n < changes_before(state, i + 1),
    ensures
        crate::manager::restoring(state, all_made(n), 0, 0, errors).0
            == (crate::manager::RestoreStepView::Apply {
            id: state.displays[i as int].id,
            connector: state.displays[i as int].connector,
            adjustment: asked(state, state.displays[i as int])[n - changes_before(state, i)],
        }),
{
    let display = state.displays[i as int];
    lemma_reach(state, errors, n, i);
    assert(grounded(state, display));
    lemma_plan_made(state, display, n, changes_before(state, i));
    if !crate::manager::concerned(state.config, display) {
        lemma_unconcerned(state, display);
    }
}

proof fn lemma_passed_by(
    state: crate::manager::ManagerView,
    outcomes: Seq<Result<(), Seq<char>>>,
    errors: Map<Seq<char>, Seq<char>>,
    i: nat,
    used: nat,
)
    requires
        all_grounded(state),
        i <= state.displays.len(),
        forall|k: int|
            0 <= k < state.displays.len() ==> asked(state, #[trigger] state.displays[k]).len()
                == 0,
    ensures
        crate::manager::restoring(
            state,
            outcomes,
            i,
            used,
            crate::manager::noted(errors, notes_before(state, i)),
        ) == (
            crate::manager::RestoreStepView::Done,
            crate::manager::noted(errors, notes_before(state, state.displays.len())),
        ),
    decreases state.displays.len() - i,
{
    if i < state.displays.len() {
        let display = state.displays[i as int];
        assert(grounded(state, display));
        lemma_plan_idle(state, display, outcomes, used);
        if crate::manager::concerned(state.config, display) {
            lemma_noted_push(
                errors,
                notes_before(state, i),
                (display.id, verdict(state, display)),
            );
        }
        lemma_passed_by(state, outcomes, errors, i + 1, used);
    }
}

/// Which transports lead to the displays makes no difference to what is
/// restored.
proof fn lemma_transports_do_not_count(
    a: crate::manager::ManagerView,
    b: crate::manager::ManagerView,
    outcomes: Seq<Result<(), Seq<char>>>,
    i: nat,
    used: nat,
    errors: Map<Seq<char>, Seq<char>>,
)
    requires
        a.displays == b.displays,
        a.readings == b.readings,
        a.config == b.config,
        a.gamma_available == b.gamma_available,
    ensures
        crate::manager::restoring(a, outcomes, i, used, errors) == crate::manager::restoring(
            b,
            outcomes,
            i,
            used,
            errors,
        ),
    decreases a.displays.len() - i,
{
    if i < a.displays.len() {
        let display = a.displays[i as int];
        let run = crate::adjustment::plan_run(
            display,
            crate::manager::restoration(a.config, display, a.readings),
            a.gamma_available,
            outcomes,
            used,
        );
        lemma_transports_do_not_count(a, b, outcomes, i + 1, used, errors);
        lemma_transports_do_not_count(
            a,
            b,
            outcomes,
            i + 1,
            run.used,
            errors.remove(display.id),
        );
        if let crate::adjustment::PlanStepView::Done(Err(message)) = run.step {
            lemma_transports_do_not_count(
                a,
                b,
                outcomes,
                i + 1,
                run.used,
                errors.insert(display.id, "settings restore failed: "@ + message),
            );
        }
    }
}

/// Whether two maps say the same of a key.
spec fn agree_on(a: Map<Seq<char>, Seq<char>>, b: Map<Seq<char>, Seq<char>>, id: Seq<char>) -> bool {
    &&& a.contains_key(id) == b.contains_key(id)
    &&& a.contains_key(id) ==> a[id] == b[id]
}

/// Whether a display is mentioned in notes.
spec fn mentioned(notes: Seq<(Seq<char>, Option<Seq<char>>)>, id: Seq<char>) -> bool {
    exists|k: int| 0 <= k < notes.len() && (#[trigger] notes[k]).0 == id
}

proof fn lemma_noted_at(
    a: Map<Seq<char>, Seq<char>>,
    b: Map<Seq<char>, Seq<char>>,
    notes: Seq<(Seq<char>, Option<Seq<char>>)>,
    id: Seq<char>,
)
    ensures
        mentioned(notes, id) ==> agree_on(
            crate::manager::noted(a, notes),
            crate::manager::noted(b, notes),
            id,
        ),
        !mentioned(notes, id) ==> agree_on(crate::manager::noted(a, notes), a, id),
    decreases notes.len(),
{
    if notes.len() > 0 {
        let front = notes.drop_last();
        lemma_noted_at(a, b, front, id);
        assert(notes[notes.len() - 1] == notes.last());
        if notes.last().0 != id && mentioned(notes, id) {
            let k = choose|k: int| 0 <= k < notes.len() && (#[trigger] notes[k]).0 == id;
            assert(front[k].0 == id);
        }
        if mentioned(front, id) {
            let k = choose|k: int| 0 <= k < front.len() && (#[trigger] front[k]).0 == id;
            assert(notes[k].0 == id);
        }
    }
}

proof fn lemma_noted_twice(
    errors: Map<Seq<char>, Seq<char>>,
    notes: Seq<(Seq<char>, Option<Seq<char>>)>,
)
    ensures
        crate::manager::noted(crate::manager::noted(errors, notes), notes)
            == crate::manager::noted(errors, notes),
{
    let once = crate::manager::noted(errors, notes);
    let twice = crate::manager::noted(once, notes);
    assert forall|id: Seq<char>| #[trigger] agree_on(twice, once, id) by {
        lemma_noted_at(once, errors, notes, id);
    }
    assert forall|id: Seq<char>| twice.contains_key(id) == once.contains_key(id) by {
        assert(agree_on(twice, once, id));
    }
    assert forall|id: Seq<char>| #[trigger] twice.contains_key(id) implies twice[id]
        == once[id] by {
        assert(agree_on(twice, once, id));
    }
    assert(twice =~= once);
}

proof fn lemma_run_keeps(first: World, feedback: Seq<Feedback>, n: nat)
    ensures
        restore_run(first, feedback, n).manager == (crate::manager::ManagerView {
            ddc: restore_run(first, feedback, n).manager.ddc,
            ..first.manager
        }),
    decreases n,
{
    if n > 0 {
        lemma_run_keeps(first, feedback, (n - 1) as nat);
    }
}

/// What a restoration asks for next, by the display that it has come to.
proof fn lemma_run_asks(first: World, feedback: Seq<Feedback>, n: nat, i: nat)
    requires
        all_grounded(first.manager),
        i < first.manager.displays.len(),
        changes_before(first.manager, i) <= n < changes_before(first.manager, i + 1),
    ensures
        next_change(restore_run(first, feedback, n), n)
            == (crate::manager::RestoreStepView::Apply {
            id: first.manager.displays[i as int].id,
            connector: first.manager.displays[i as int].connector,
            adjustment: asked(first.manager, first.manager.displays[i as int])[n - changes_before(
                first.manager,
                i,
            )],
        }),
{
    let now = restore_run(first, feedback, n).manager;
    lemma_run_keeps(first, feedback, n);
    lemma_transports_do_not_count(now, first.manager, all_made(n), 0, 0, now.errors);
    lemma_next_asked(first.manager, now.errors, n, i);
}

proof fn lemma_run_is_long_enough(first: World, feedback: Seq<Feedback>, i: nat)
    requires
        all_grounded(first.manager),
        restored(first, feedback),
        i <= first.manager.displays.len(),
    ensures
        changes_before(first.manager, i) <= feedback.len(),
    decreases i,
{
    if i > 0 {
        let h = (i - 1) as nat;
        lemma_run_is_long_enough(first, feedback, h);
        if feedback.len() < changes_before(first.manager, i) {
            lemma_run_asks(first, feedback, feedback.len(), h);
        }
    }
}

proof fn lemma_run_changes(first: World, feedback: Seq<Feedback>, n: nat, i: nat)
    requires
        all_grounded(first.manager),
        restored(first, feedback),
        i < first.manager.displays.len(),
        changes_before(first.manager, i) <= n < changes_before(first.manager, i + 1),
    ensures
        ({
            let display = first.manager.displays[i as int];
            tried(
                restore_run(first, feedback, n),
                display.id,
                display.connector,
                asked(first.manager, display)[n - changes_before(first.manager, i)],
                feedback[n as int],
            ) == (true, restore_run(first, feedback, n + 1))
        }),
{
    lemma_run_is_long_enough(first, feedback, i + 1);
    lemma_run_asks(first, feedback, n, i);
    assert(change_was_made(first, feedback, n));
}

/// Whether no two displays that share an output want it at different gamma
/// brightnesses.
pub open spec fn wishes_agree(
    config: crate::config::ConfigView,
    displays: Seq<crate::brightness::DisplayInfoView>,
) -> bool {
    forall|k: int, l: int|
        0 <= k < displays.len() && 0 <= l < displays.len() && k != l && (
        #[trigger] displays[k]).gamma_supported && (#[trigger] displays[l]).gamma_supported
            && displays[k].connector == displays[l].connector ==> match (
            config.saved(displays[k].id).gamma_brightness,
            config.saved(displays[l].id).gamma_brightness,
        ) {
            (Some(a), Some(b)) => !crate::adjustment::differs(a, b),
            _ => true,
        }
}

/// Whether the gamma worker has published what there is, under different names.
pub open spec fn at_rest(gamma: crate::gamma::GammaBackendView) -> bool {
    &&& crate::gamma::up_to_date(gamma)
    &&& !gamma.dirty
    &&& crate::gamma::differently_named(crate::gamma::all_published(gamma.outputs))
}

/// What has to hold when a restoration begins.
spec fn ready(first: World) -> bool {
    &&& crate::backend::usable(first.manager.ddc)
    &&& first.manager.readings == crate::backend::snapshots(first.manager.ddc)
    &&& first.manager.gamma_available || first.gamma.cache.len() == 0
    &&& at_rest(first.gamma)
    &&& wishes_agree(first.manager.config, first.manager.displays)
    &&& first.manager.displays == crate::manager::merged(
        crate::backend::snapshots(first.manager.ddc),
        first.gamma.cache,
        first.manager.errors,
    )
}

/// Whether a display stands at the hardware brightness that is saved for it.
spec fn reached(
    config: crate::config::ConfigView,
    display: crate::grouping::ManagedDisplayView,
) -> bool {
    config.saved(display.snapshot.id).ddc_brightness matches Some(percent)
        && crate::manager::stands_at(display.snapshot, percent)
}

/// Whether an output stands at a gamma brightness that is saved for one of its
/// displays.
spec fn granted(
    state: crate::manager::ManagerView,
    output: crate::gamma::GammaOutputView,
) -> bool {
    &&& output.name.len() > 0
    &&& output.brightness.fraction()
    &&& exists|k: int|
        0 <= k < state.displays.len() && (#[trigger] state.displays[k]).gamma_supported
            && state.displays[k].connector == output.name && state.config.saved(
            state.displays[k].id,
        ).gamma_brightness == Some(output.brightness)
}

/// What holds of the DDC displays while settings are restored.
spec fn ddc_on_course(
    state: crate::manager::ManagerView,
    now: Seq<crate::grouping::ManagedDisplayView>,
    i: nat,
) -> bool {
    &&& crate::backend::usable(now)
    &&& now.len() == state.ddc.len()
    &&& forall|x: int| #![trigger now[x]]
        0 <= x < now.len() ==> {
            &&& now[x].handles == state.ddc[x].handles
            &&& now[x].snapshot.id == state.ddc[x].snapshot.id
            &&& now[x].snapshot.name == state.ddc[x].snapshot.name
            &&& now[x].snapshot.connector == state.ddc[x].snapshot.connector
            &&& now[x].snapshot == state.ddc[x].snapshot || reached(state.config, now[x])
        }
    &&& forall|x: int, k: int|
        0 <= x < now.len() && 0 <= k < i && (#[trigger] state.displays[k]).ddc_supported
            && state.displays[k].id == (#[trigger] now[x]).snapshot.id && state.config.saved(
            state.displays[k].id,
        ).ddc_brightness is Some ==> reached(state.config, now[x])
}

/// What holds of the gamma outputs while settings are restored.
spec fn gamma_on_course(
    state: crate::manager::ManagerView,
    before: Seq<crate::gamma::GammaOutputView>,
    now: Seq<crate::gamma::GammaOutputView>,
    i: nat,
) -> bool {
    &&& now.len() == before.len()
    &&& forall|o: int| #![trigger now[o]]
        0 <= o < now.len() ==> {
            &&& now[o].name == before[o].name
            &&& now[o].brightness == before[o].brightness || granted(state, now[o])
        }
    &&& forall|o: int, k: int|
        0 <= o < now.len() && 0 <= k < i && (#[trigger] state.displays[k]).gamma_supported
            && state.displays[k].connector == (#[trigger] now[o]).name && now[o].name.len() > 0
            ==> match state.config.saved(state.displays[k].id).gamma_brightness {
            Some(a) => !crate::adjustment::differs(a, now[o].brightness),
            None => true,
        }
}

/// What holds while settings are restored, the first `i` displays being done.
spec fn on_course(first: World, now: World, i: nat) -> bool {
    &&& ddc_on_course(first.manager, now.manager.ddc, i)
    &&& at_rest(now.gamma)
    &&& gamma_on_course(first.manager, first.gamma.cache, now.gamma.cache, i)
}

proof fn lemma_ddc_made(
    first: World,
    now: World,
    i: nat,
    id: Seq<char>,
    connector: Seq<char>,
    adjustment: Adjustment,
    feedback: Feedback,
)
    requires
        ready(first),
        on_course(first, now, i),
        tried(now, id, connector, adjustment, feedback).0,
        adjustment matches Adjustment::Ddc { to, .. } && first.manager.config.saved(
            id,
        ).ddc_brightness == Some(to),
    ensures
        ({
            let after = tried(now, id, connector, adjustment, feedback).1;
            &&& on_course(first, after, i)
            &&& after.gamma == now.gamma
            &&& forall|x: int|
                0 <= x < after.manager.ddc.len() && (
                #[trigger] after.manager.ddc[x]).snapshot.id == id ==> reached(
                    first.manager.config,
                    after.manager.ddc[x],
                )
        }),
{
    let to = adjustment->Ddc_to;
    let ddc = now.manager.ddc;
    let (step, after) = crate::backend::write_step(ddc, id, to, feedback.writes);
    let ids = crate::backend::display_ids(ddc);
    crate::text::first_position_exists(ids, id);
    let at = crate::text::first_position(ids, id)->Some_0;
    assert(ids[at] == ddc[at].snapshot.id);
    crate::backend::accesses_leave_other_displays_alone(
        ddc,
        id,
        to,
        Seq::empty(),
        feedback.writes,
    );
    crate::backend::writing_falls_back(ddc, id, to, feedback.writes, at);
    assert(after[at].snapshot.id == id);
    assert(reached(first.manager.config, after[at]));
    assert forall|x: int| 0 <= x < after.len() && x != at implies #[trigger] after[x] == ddc[x] by {
        assert(ids[x] == ddc[x].snapshot.id);
        assert(ids[x] != ids[at]);
    }
    assert(ddc_on_course(first.manager, after, i));
    let later = tried(now, id, connector, adjustment, feedback).1;
    assert(later.manager.ddc == after);
    assert forall|x: int| 0 <= x < after.len() && (#[trigger] after[x]).snapshot.id == id implies reached(
        first.manager.config,
        after[x],
    ) by {
        assert(ids[x] == ddc[x].snapshot.id);
        if x != at {
            assert(ids[x] != ids[at]);
        }
    }
}

proof fn lemma_gamma_made(
    first: World,
    now: World,
    i: nat,
    k: int,
    adjustment: Adjustment,
    feedback: Feedback,
)
    requires
        ready(first),
        i <= first.manager.displays.len(),
        on_course(first, now, i),
        0 <= k < first.manager.displays.len(),
        first.manager.displays[k].gamma_supported,
        first.manager.displays[k].connector.len() > 0,
        tried(
            now,
            first.manager.displays[k].id,
            first.manager.displays[k].connector,
            adjustment,
            feedback,
        ).0,
        adjustment matches Adjustment::Gamma { to, .. } && first.manager.config.saved(
            first.manager.displays[k].id,
        ).gamma_brightness == Some(to),
    ensures
        ({
            let display = first.manager.displays[k];
            let after = tried(now, display.id, display.connector, adjustment, feedback).1;
            &&& on_course(first, after, i)
            &&& after.manager == now.manager
            &&& forall|o: int|
                0 <= o < after.gamma.cache.len() && (#[trigger] after.gamma.cache[o]).name
                    == display.connector ==> after.gamma.cache[o].brightness == adjustment->Gamma_to
                    && !crate::adjustment::differs(
                    adjustment->Gamma_to,
                    after.gamma.cache[o].brightness,
                )
        }),
{
    let to = adjustment->Gamma_to;
    let state = first.manager;
    let display = state.displays[k];
    crate::gamma::deliveries_change_one_output(
        now.gamma,
        display.connector,
        to,
        feedback.delivery,
    );
    let before = now.gamma.cache;
    let after = crate::gamma::delivered(before, display.connector, to);
    crate::brightness::lemma_fraction_is_finite(to);
    crate::adjustment::nothing_differs_from_itself(to);
    assert forall|o: int| #![trigger after[o]] 0 <= o < after.len() implies {
        &&& after[o].name == first.gamma.cache[o].name
        &&& after[o].brightness == first.gamma.cache[o].brightness || granted(state, after[o])
    } by {
        assert(before[o].name == first.gamma.cache[o].name);
        if before[o].name == display.connector {
            assert(granted(state, after[o]));
        } else {
            assert(after[o] == before[o]);
        }
    }
    assert forall|o: int, l: int|
        0 <= o < after.len() && 0 <= l < i && (#[trigger] state.displays[l]).gamma_supported
            && state.displays[l].connector == (#[trigger] after[o]).name && after[o].name.len()
            > 0 implies match state.config.saved(state.displays[l].id).gamma_brightness {
        Some(a) => !crate::adjustment::differs(a, after[o].brightness),
        None => true,
    } by {
        if before[o].name == display.connector {
            assert(after[o].brightness == to);
        } else {
            assert(after[o] == before[o]);
        }
    }
    assert(gamma_on_course(state, first.gamma.cache, after, i));
}

/// What a display shows is what the hardware says.
proof fn lemma_shown(first: World, k: int)
    requires
        ready(first),
        0 <= k < first.manager.displays.len(),
    ensures
        ({
            let display = first.manager.displays[k];
            &&& grounded(first.manager, display)
            &&& forall|x: int|
                0 <= x < first.manager.ddc.len() && display.ddc_supported && (
                #[trigger] first.manager.ddc[x]).snapshot.id == display.id
                    ==> display.ddc_brightness == crate::ddc::raw_percent(
                    first.manager.ddc[x].snapshot.current,
                    first.manager.ddc[x].snapshot.maximum,
                )
            &&& forall|o: int|
                0 <= o < first.gamma.cache.len() && display.gamma_supported && (
                #[trigger] first.gamma.cache[o]).name == display.connector
                    ==> display.gamma_brightness == first.gamma.cache[o].brightness
        }),
{
    let ddc = first.manager.ddc;
    let displays = crate::backend::snapshots(ddc);
    let outputs = first.gamma.cache;
    let errors = first.manager.errors;
    let display = first.manager.displays[k];
    crate::gamma::cached_outputs_are_differently_named(first.gamma);
    crate::manager::what_is_shown_is_there(displays, outputs, errors, k);
    if display.ddc_supported {
        let y = choose|y: int|
            0 <= y < displays.len() && display == crate::manager::ddc_info(
                #[trigger] displays[y],
                outputs,
                errors,
            );
        let ids = crate::backend::display_ids(ddc);
        assert(ids[y] == ddc[y].snapshot.id);
        assert forall|x: int|
            0 <= x < ddc.len() && (#[trigger] ddc[x]).snapshot.id == display.id implies x == y by {
            assert(ids[x] == ddc[x].snapshot.id);
        }
        crate::model::first_exists(outputs, crate::manager::output_named(display.connector));
        if display.gamma_supported {
            let m = crate::model::first_where(
                outputs,
                crate::manager::output_named(display.connector),
            )->Some_0;
            assert(crate::manager::output_named(display.connector)(outputs[m]));
            assert forall|o: int|
                0 <= o < outputs.len() && (#[trigger] outputs[o]).name
                    == display.connector implies o == m by {
                if o < m {
                    assert(outputs[o].name != outputs[m].name);
                } else if m < o {
                    assert(outputs[m].name != outputs[o].name);
                }
            }
        }
    } else {
        let m = choose|m: int|
            0 <= m < outputs.len() && display == crate::manager::output_info(
                #[trigger] outputs[m],
                errors,
            );
        assert forall|o: int|
            0 <= o < outputs.len() && (#[trigger] outputs[o]).name == display.connector implies o
            == m by {
            if o < m {
                assert(outputs[o].name != outputs[m].name);
            } else if m < o {
                assert(outputs[m].name != outputs[o].name);
            }
        }
    }
}

/// What was read of a display is found by its identifier.
proof fn lemma_reading(displays: Seq<crate::grouping::ManagedDisplayView>, x: int)
    requires
        crate::backend::usable(displays),
        0 <= x < displays.len(),
    ensures
        crate::manager::reading_of(
            crate::backend::snapshots(displays),
            displays[x].snapshot.id,
        ) == Some(displays[x].snapshot),
{
    let readings = crate::backend::snapshots(displays);
    let ids = crate::manager::reading_ids(readings);
    assert(ids =~= crate::backend::display_ids(displays));
    assert forall|j: int| 0 <= j < x implies #[trigger] ids[j] != ids[x] by {}
    crate::text::first_position_is_first(ids, displays[x].snapshot.id, x);
}

/// Whether a change of a display has taken effect.
spec fn in_effect(
    config: crate::config::ConfigView,
    display: crate::brightness::DisplayInfoView,
    adjustment: Adjustment,
    now: World,
) -> bool {
    match adjustment {
        Adjustment::Ddc { .. } => forall|x: int|
            0 <= x < now.manager.ddc.len() && (#[trigger] now.manager.ddc[x]).snapshot.id
                == display.id ==> reached(config, now.manager.ddc[x]),
        Adjustment::Gamma { to, .. } => forall|o: int|
            0 <= o < now.gamma.cache.len() && (#[trigger] now.gamma.cache[o]).name
                == display.connector ==> !crate::adjustment::differs(
                to,
                now.gamma.cache[o].brightness,
            ),
    }
}

proof fn lemma_all_grounded(first: World)
    requires
        ready(first),
    ensures
        all_grounded(first.manager),
{
    assert forall|k: int| 0 <= k < first.manager.displays.len() implies grounded(
        first.manager,
        #[trigger] first.manager.displays[k],
    ) by {
        lemma_shown(first, k);
    }
}

proof fn lemma_change_takes_effect(first: World, feedback: Seq<Feedback>, i: nat, j: nat)
    requires
        ready(first),
        restored(first, feedback),
        i < first.manager.displays.len(),
        j < asked(first.manager, first.manager.displays[i as int]).len(),
        on_course(
            first,
            restore_run(first, feedback, changes_before(first.manager, i) + j),
            i,
        ),
    ensures
        ({
            let display = first.manager.displays[i as int];
            let change = asked(first.manager, display)[j as int];
            let before = restore_run(first, feedback, changes_before(first.manager, i) + j);
            let after = restore_run(first, feedback, changes_before(first.manager, i) + j + 1);
            &&& on_course(first, after, i)
            &&& in_effect(first.manager.config, display, change, after)
            &&& change is Ddc ==> after.gamma == before.gamma
            &&& change is Gamma ==> after.manager == before.manager
        }),
{
    let display = first.manager.displays[i as int];
    let n = changes_before(first.manager, i) + j;
    let change = asked(first.manager, display)[j as int];
    let before = restore_run(first, feedback, n);
    lemma_all_grounded(first);
    lemma_run_changes(first, feedback, n, i);
    lemma_plan_shape(first.manager, display);
    match change {
        Adjustment::Ddc { from, to } => {
            lemma_ddc_made(
                first,
                before,
                i,
                display.id,
                display.connector,
                change,
                feedback[n as int],
            );
        },
        Adjustment::Gamma { from, to } => {
            assert(grounded(first.manager, display));
            lemma_gamma_made(first, before, i, i as int, change, feedback[n as int]);
        },
    }
}

proof fn lemma_display_done(first: World, now: World, i: nat)
    requires
        ready(first),
        i < first.manager.displays.len(),
        on_course(first, now, i),
        forall|j: int|
            0 <= j < asked(first.manager, first.manager.displays[i as int]).len() ==> in_effect(
                first.manager.config,
                first.manager.displays[i as int],
                #[trigger] asked(first.manager, first.manager.displays[i as int])[j],
                now,
            ),
    ensures
        on_course(first, now, i + 1),
{
    let state = first.manager;
    let display = state.displays[i as int];
    let saved = state.config.saved(display.id);
    let plan = crate::manager::restoration(state.config, display, state.readings);
    let s = asked(state, display);
    let w = crate::adjustment::wanted(display, plan);
    lemma_shown(first, i as int);
    lemma_plan_shape(state, display);
    let ddc = now.manager.ddc;
    assert forall|x: int|
        0 <= x < ddc.len() && display.ddc_supported && display.id == (
        #[trigger] ddc[x]).snapshot.id && saved.ddc_brightness is Some implies reached(
        state.config,
        ddc[x],
    ) by {
        let percent = saved.ddc_brightness->Some_0;
        assert(state.ddc[x].snapshot.id == display.id);
        lemma_reading(state.ddc, x);
        if plan.hardware_percent is Some {
            let change = Adjustment::Ddc { from: display.ddc_brightness, to: percent };
            assert(w[0] == change);
            let j: int = if s[0] == change {
                0
            } else {
                1
            };
            assert(s[j] == change);
            assert(in_effect(state.config, display, s[j], now));
        }
    }
    let outputs = now.gamma.cache;
    assert forall|o: int|
        0 <= o < outputs.len() && display.gamma_supported && display.connector == (
        #[trigger] outputs[o]).name && outputs[o].name.len() > 0 implies match saved.gamma_brightness {
        Some(a) => !crate::adjustment::differs(a, outputs[o].brightness),
        None => true,
    } by {
        if let Some(a) = saved.gamma_brightness {
            assert(first.gamma.cache[o].name == display.connector);
            if crate::adjustment::differs(a, display.gamma_brightness) {
                let change = Adjustment::Gamma { from: display.gamma_brightness, to: a };
                assert(w[w.len() - 1] == change);
                let j: int = if s[0] == change {
                    0
                } else {
                    1
                };
                assert(s[j] == change);
                assert(in_effect(state.config, display, s[j], now));
            } else if outputs[o].brightness != first.gamma.cache[o].brightness {
                let l = choose|l: int|
                    0 <= l < state.displays.len() && (
                    #[trigger] state.displays[l]).gamma_supported && state.displays[l].connector
                        == outputs[o].name && state.config.saved(
                        state.displays[l].id,
                    ).gamma_brightness == Some(outputs[o].brightness);
                if l == i {
                    crate::brightness::lemma_fraction_is_finite(a);
                    crate::adjustment::nothing_differs_from_itself(a);
                } else {
                    assert(state.displays[i as int].connector == state.displays[l].connector);
                }
            }
        }
    }
}

/// Restoring leads one display after the other to what is saved for it.
proof fn lemma_walk(first: World, feedback: Seq<Feedback>, i: nat)
    requires
        ready(first),
        restored(first, feedback),
        i <= first.manager.displays.len(),
    ensures
        on_course(first, restore_run(first, feedback, changes_before(first.manager, i)), i),
    decreases i,
{
    if i > 0 {
        let h = (i - 1) as nat;
        let display = first.manager.displays[h as int];
        let n = changes_before(first.manager, h);
        let s = asked(first.manager, display);
        lemma_walk(first, feedback, h);
        lemma_plan_shape(first.manager, display);
        if s.len() >= 1 {
            lemma_change_takes_effect(first, feedback, h, 0);
        }
        if s.len() == 2 {
            lemma_change_takes_effect(first, feedback, h, 1);
            let plan = crate::manager::restoration(
                first.manager.config,
                display,
                first.manager.readings,
            );
            let w = crate::adjustment::wanted(display, plan);
            assert(w[0] is Ddc && w[1] is Gamma);
        }
        let now = restore_run(first, feedback, n + s.len());
        assert forall|j: int| 0 <= j < s.len() implies in_effect(
            first.manager.config,
            display,
            #[trigger] s[j],
            now,
        ) by {}
        lemma_display_done(first, now, h);
    }
}

/// A restoration ends once every display is done.
proof fn lemma_run_ends(first: World, feedback: Seq<Feedback>)
    requires
        ready(first),
        restored(first, feedback),
    ensures
        ({
            let count = first.manager.displays.len();
            let last = restore_run(first, feedback, feedback.len());
            &&& changes_before(first.manager, count) == feedback.len()
            &&& crate::manager::restoring(
                last.manager,
                all_made(feedback.len()),
                0,
                0,
                last.manager.errors,
            ).1 == crate::manager::noted(
                first.manager.errors,
                notes_before(first.manager, count),
            )
        }),
{
    let count = first.manager.displays.len();
    let n = changes_before(first.manager, count);
    lemma_all_grounded(first);
    lemma_run_is_long_enough(first, feedback, count);
    let now = restore_run(first, feedback, n).manager;
    lemma_run_keeps(first, feedback, n);
    lemma_transports_do_not_count(now, first.manager, all_made(n), 0, 0, now.errors);
    lemma_reach(first.manager, now.errors, n, count);
    if n < feedback.len() {
        assert(change_was_made(first, feedback, n));
    }
}

/// Whether `a` and `b` are what is shown of one DDC display, before and after.
spec fn same_display(
    a: crate::brightness::DisplayInfoView,
    b: crate::brightness::DisplayInfoView,
    before: Scene,
    after: Scene,
) -> bool {
    exists|x: int|
        0 <= x < before.displays.len() && a == crate::manager::ddc_info(
            #[trigger] before.displays[x],
            before.outputs,
            before.errors,
        ) && b == crate::manager::ddc_info(after.displays[x], after.outputs, after.errors)
}

/// Whether `a` and `b` are what is shown of one output, before and after.
spec fn same_output(
    a: crate::brightness::DisplayInfoView,
    b: crate::brightness::DisplayInfoView,
    before: Scene,
    after: Scene,
) -> bool {
    exists|o: int|
        0 <= o < before.outputs.len() && a == crate::manager::output_info(
            #[trigger] before.outputs[o],
            before.errors,
        ) && b == crate::manager::output_info(after.outputs[o], after.errors)
}

/// What the displays that are shown are made from.
struct Scene {
    displays: Seq<crate::ddc::DdcDisplayView>,
    outputs: Seq<crate::gamma::GammaOutputView>,
    errors: Map<Seq<char>, Seq<char>>,
}

/// What is shown of a scene.
spec fn shown_of(scene: Scene) -> Seq<crate::brightness::DisplayInfoView> {
    crate::manager::merged(scene.displays, scene.outputs, scene.errors)
}

/// Whether displays and outputs go by the same names before and after.
spec fn same_names(before: Scene, after: Scene) -> bool {
    &&& before.displays.len() == after.displays.len()
    &&& before.outputs.len() == after.outputs.len()
    &&& forall|x: int|
        0 <= x < before.displays.len() ==> (#[trigger] before.displays[x]).id
            == after.displays[x].id && before.displays[x].connector == after.displays[x].connector
    &&& forall|o: int|
        0 <= o < before.outputs.len() ==> (#[trigger] before.outputs[o]).name
            == after.outputs[o].name
}

proof fn lemma_claimed_alike(
    displays: Seq<crate::ddc::DdcDisplayView>,
    changed: Seq<crate::ddc::DdcDisplayView>,
    name: Seq<char>,
)
    requires
        displays.len() == changed.len(),
        forall|x: int|
            0 <= x < displays.len() ==> (#[trigger] displays[x]).connector == changed[x].connector,
    ensures
        crate::manager::claimed(displays, name) == crate::manager::claimed(changed, name),
{
    if crate::manager::claimed(displays, name) {
        let x = choose|x: int|
            0 <= x < displays.len() && (#[trigger] displays[x]).connector == name;
        assert(changed[x].connector == name);
    }
    if crate::manager::claimed(changed, name) {
        let x = choose|x: int| 0 <= x < changed.len() && (#[trigger] changed[x]).connector == name;
        assert(displays[x].connector == name);
    }
}

proof fn lemma_outputs_alike(before: Scene, after: Scene)
    requires
        same_names(before, after),
    ensures
        ({
            let a = crate::manager::output_infos(before.displays, before.outputs, before.errors);
            let b = crate::manager::output_infos(after.displays, after.outputs, after.errors);
            &&& a.len() == b.len()
            &&& forall|m: int|
                0 <= m < a.len() ==> same_output(#[trigger] a[m], b[m], before, after)
        }),
    decreases before.outputs.len(),
{
    if before.outputs.len() > 0 {
        let last = before.outputs.len() - 1;
        let front = Scene { outputs: before.outputs.drop_last(), ..before };
        let other = Scene { outputs: after.outputs.drop_last(), ..after };
        assert forall|o: int| 0 <= o < front.outputs.len() implies (
        #[trigger] front.outputs[o]).name == other.outputs[o].name by {
            assert(before.outputs[o].name == after.outputs[o].name);
        }
        lemma_outputs_alike(front, other);
        assert(before.outputs[last].name == after.outputs[last].name);
        lemma_claimed_alike(before.displays, after.displays, before.outputs[last].name);
        let a = crate::manager::output_infos(front.displays, front.outputs, front.errors);
        let b = crate::manager::output_infos(other.displays, other.outputs, other.errors);
        let whole = crate::manager::output_infos(before.displays, before.outputs, before.errors);
        let rest = crate::manager::output_infos(after.displays, after.outputs, after.errors);
        assert forall|m: int| 0 <= m < whole.len() implies same_output(
            #[trigger] whole[m],
            rest[m],
            before,
            after,
        ) by {
            if m < a.len() {
                assert(whole[m] == a[m] && rest[m] == b[m]);
                assert(same_output(a[m], b[m], front, other));
                let o = choose|o: int|
                    0 <= o < front.outputs.len() && a[m] == crate::manager::output_info(
                        #[trigger] front.outputs[o],
                        front.errors,
                    ) && b[m] == crate::manager::output_info(other.outputs[o], other.errors);
                assert(before.outputs[o] == front.outputs[o]);
                assert(after.outputs[o] == other.outputs[o]);
            } else {
                assert(whole[m] == crate::manager::output_info(before.outputs[last], before.errors));
                assert(rest[m] == crate::manager::output_info(after.outputs[last], after.errors));
            }
        }
    }
}

/// Where the names have stayed, every display is shown at the same place as
/// before.
proof fn lemma_places_stay(before: Scene, after: Scene)
    requires
        same_names(before, after),
    ensures
        shown_of(before).len() == shown_of(after).len(),
        forall|k: int|
            0 <= k < shown_of(before).len() ==> {
                ||| same_display(#[trigger] shown_of(before)[k], shown_of(after)[k], before, after)
                ||| same_output(shown_of(before)[k], shown_of(after)[k], before, after)
            },
{
    let a = crate::manager::unordered(before.displays, before.outputs, before.errors);
    let b = crate::manager::unordered(after.displays, after.outputs, after.errors);
    let count = before.displays.len();
    lemma_outputs_alike(before, after);
    assert forall|m: int| 0 <= m < a.len() implies {
        ||| same_display(#[trigger] a[m], b[m], before, after)
        ||| same_output(a[m], b[m], before, after)
    } by {
        if m < count {
            assert(a[m] == crate::manager::ddc_info(
                before.displays[m],
                before.outputs,
                before.errors,
            ));
            assert(b[m] == crate::manager::ddc_info(
                after.displays[m],
                after.outputs,
                after.errors,
            ));
        } else {
            let infos = crate::manager::output_infos(
                before.displays,
                before.outputs,
                before.errors,
            );
            assert(a[m] == infos[m - count]);
        }
    }
    assert forall|m: int| 0 <= m < a.len() implies DisplayInfo::rank_of(#[trigger] a[m])
        == DisplayInfo::rank_of(b[m]) by {
        assert(same_display(a[m], b[m], before, after) || same_output(a[m], b[m], before, after));
        assert(a[m].connector == b[m].connector && a[m].id == b[m].id);
    }
    let p = crate::order::sorting_goes_by_rank::<DisplayInfo>(a, b);
    assert forall|k: int| 0 <= k < shown_of(before).len() implies {
        ||| same_display(#[trigger] shown_of(before)[k], shown_of(after)[k], before, after)
        ||| same_output(shown_of(before)[k], shown_of(after)[k], before, after)
    } by {
        assert(0 <= p[k] < a.len());
        assert(shown_of(before)[k] == a[p[k]]);
    }
}

/// Where the names have stayed, a connector leads to an output as before.
proof fn lemma_output_stays(before: Scene, after: Scene, connector: Seq<char>)
    requires
        same_names(before, after),
    ensures
        match (
            crate::manager::output_at(before.outputs, connector),
            crate::manager::output_at(after.outputs, connector),
        ) {
            (Some(_), Some(output)) => exists|o: int|
                0 <= o < after.outputs.len() && output == #[trigger] after.outputs[o]
                    && after.outputs[o].name == connector,
            (None, None) => true,
            _ => false,
        },
{
    let named = crate::manager::output_named(connector);
    crate::model::first_exists(before.outputs, named);
    crate::model::first_exists(after.outputs, named);
    if let Some(o) = crate::model::first_where(before.outputs, named) {
        assert(named(before.outputs[o]));
        assert(named(after.outputs[o]));
    }
    if let Some(o) = crate::model::first_where(after.outputs, named) {
        assert(named(after.outputs[o]));
        assert(named(before.outputs[o]));
    }
}

/// Once a restoration was carried through, nothing more is asked of any display,
/// and the same is noted of it as before.
proof fn lemma_display_settled(
    first: World,
    now: World,
    settled: crate::manager::ManagerView,
    a: crate::brightness::DisplayInfoView,
    b: crate::brightness::DisplayInfoView,
    k: int,
    again: Seq<crate::grouping::ManagedDisplayView>,
    before: Scene,
    after: Scene,
)
    requires
        ready(first),
        on_course(first, now, first.manager.displays.len()),
        found_as_left(again, now.manager.ddc),
        settled.readings == crate::backend::snapshots(again),
        settled.config == first.manager.config,
        settled.gamma_available == first.manager.gamma_available,
        before.displays == crate::backend::snapshots(first.manager.ddc),
        before.outputs == first.gamma.cache,
        after.displays == crate::backend::snapshots(now.manager.ddc),
        after.outputs == now.gamma.cache,
        same_names(before, after),
        0 <= k < first.manager.displays.len(),
        a == first.manager.displays[k],
        same_display(a, b, before, after) || same_output(a, b, before, after),
    ensures
        grounded(settled, b),
        asked(settled, b).len() == 0,
        b.id == a.id,
        crate::manager::concerned(settled.config, b) == crate::manager::concerned(
            first.manager.config,
            a,
        ),
        verdict(settled, b) == verdict(first.manager, a),
{
    let state = first.manager;
    let plan = crate::manager::restoration(settled.config, b, settled.readings);
    lemma_plan_shape(settled, b);
    lemma_plan_shape(state, a);
    if same_display(a, b, before, after) {
        let x = choose|x: int|
            0 <= x < before.displays.len() && a == crate::manager::ddc_info(
                #[trigger] before.displays[x],
                before.outputs,
                before.errors,
            ) && b == crate::manager::ddc_info(after.displays[x], after.outputs, after.errors);
        assert(before.displays[x].connector == after.displays[x].connector);
        let ddc = now.manager.ddc;
        assert(after.displays[x] == ddc[x].snapshot);
        assert(before.displays[x] == state.ddc[x].snapshot);
        lemma_output_stays(before, after, b.connector);
        assert(a.gamma_supported == b.gamma_supported);
        assert(state.displays[k].id == ddc[x].snapshot.id);
        if let Some(percent) = state.config.saved(b.id).ddc_brightness {
            assert(reached(state.config, ddc[x]));
            assert(as_left(again[x].snapshot, ddc[x].snapshot));
            lemma_stands_as_left(again[x].snapshot, ddc[x].snapshot, percent);
            lemma_found_reading(again, ddc, x);
        }
        assert(plan.hardware_percent is None);
        if let Some(wish) = plan.gamma_brightness {
            let output = crate::manager::output_at(after.outputs, b.connector)->Some_0;
            let o = choose|o: int|
                0 <= o < after.outputs.len() && output == #[trigger] after.outputs[o]
                    && after.outputs[o].name == b.connector;
            assert(state.displays[k].connector == now.gamma.cache[o].name);
            assert(!crate::adjustment::differs(wish, b.gamma_brightness));
        }
        assert(crate::adjustment::wanted(b, plan) =~= Seq::empty());
    } else {
        let o = choose|o: int|
            0 <= o < before.outputs.len() && a == crate::manager::output_info(
                #[trigger] before.outputs[o],
                before.errors,
            ) && b == crate::manager::output_info(after.outputs[o], after.errors);
        assert(before.outputs[o].name == after.outputs[o].name);
        let output = now.gamma.cache[o];
        assert(output == after.outputs[o]);
        if b.connector.len() > 0 {
            if let Some(wish) = plan.gamma_brightness {
                assert(state.displays[k].connector == output.name);
                assert(!crate::adjustment::differs(wish, b.gamma_brightness));
            }
            assert(crate::adjustment::wanted(b, plan) =~= Seq::empty());
        } else {
            assert(output.brightness == first.gamma.cache[o].brightness);
            assert(a.gamma_brightness == b.gamma_brightness);
        }
    }
}

/// Whether a new enumeration finds the displays as they were left: the same
/// displays in the same order, at the same levels. It may have found another
/// transport to one of them.
pub open spec fn found_as_left(
    again: Seq<crate::grouping::ManagedDisplayView>,
    left: Seq<crate::grouping::ManagedDisplayView>,
) -> bool {
    &&& again.len() == left.len()
    &&& forall|x: int|
        0 <= x < left.len() ==> as_left((#[trigger] again[x]).snapshot, left[x].snapshot)
}

/// Whether a display is found as it was left.
pub open spec fn as_left(
    again: crate::ddc::DdcDisplayView,
    left: crate::ddc::DdcDisplayView,
) -> bool {
    &&& again.id == left.id
    &&& again.name == left.name
    &&& again.connector == left.connector
    &&& same_level(again.current, again.maximum, left)
}

/// Whether a reading is at the level at which a display was left: at the same
/// raw level of the same range or, over ranges of at least a hundred levels, at
/// the same percentage.
pub open spec fn same_level(
    current: u16,
    maximum: u16,
    left: crate::ddc::DdcDisplayView,
) -> bool {
    ||| current == left.current && maximum == left.maximum
    ||| maximum >= 100 && left.maximum >= 100 && crate::ddc::raw_percent(current, maximum)
        == crate::ddc::raw_percent(left.current, left.maximum)
}

proof fn lemma_stands_as_left(
    again: crate::ddc::DdcDisplayView,
    left: crate::ddc::DdcDisplayView,
    percent: u16,
)
    requires
        as_left(again, left),
        crate::manager::stands_at(left, percent),
    ensures
        crate::manager::stands_at(again, percent),
{
    if percent <= 100 && left.maximum >= 100 {
        crate::ddc::written_percent_reads_back(percent, left.maximum);
    }
}

proof fn lemma_found_reading(
    again: Seq<crate::grouping::ManagedDisplayView>,
    left: Seq<crate::grouping::ManagedDisplayView>,
    x: int,
)
    requires
        found_as_left(again, left),
        crate::backend::usable(left),
        0 <= x < left.len(),
    ensures
        crate::manager::reading_of(crate::backend::snapshots(again), left[x].snapshot.id) == Some(
            again[x].snapshot,
        ),
{
    let ids = crate::manager::reading_ids(crate::backend::snapshots(again));
    let known = crate::backend::display_ids(left);
    assert forall|j: int| 0 <= j < left.len() implies #[trigger] ids[j] == known[j] by {
        assert(as_left(again[j].snapshot, left[j].snapshot));
    }
    assert forall|j: int| 0 <= j < x implies #[trigger] ids[j] != ids[x] by {
        assert(known[j] != known[x]);
    }
    crate::text::first_position_is_first(ids, left[x].snapshot.id, x);
}

proof fn lemma_output_infos_alike(
    displays: Seq<crate::ddc::DdcDisplayView>,
    again: Seq<crate::ddc::DdcDisplayView>,
    outputs: Seq<crate::gamma::GammaOutputView>,
    errors: Map<Seq<char>, Seq<char>>,
)
    requires
        displays.len() == again.len(),
        forall|x: int|
            0 <= x < displays.len() ==> (#[trigger] displays[x]).connector == again[x].connector,
    ensures
        crate::manager::output_infos(displays, outputs, errors) == crate::manager::output_infos(
            again,
            outputs,
            errors,
        ),
    decreases outputs.len(),
{
    if outputs.len() > 0 {
        lemma_output_infos_alike(displays, again, outputs.drop_last(), errors);
        lemma_claimed_alike(displays, again, outputs.last().name);
    }
}

/// Which transport leads to a display is not shown.
proof fn lemma_shown_alike(
    left: Seq<crate::grouping::ManagedDisplayView>,
    again: Seq<crate::grouping::ManagedDisplayView>,
    outputs: Seq<crate::gamma::GammaOutputView>,
    errors: Map<Seq<char>, Seq<char>>,
)
    requires
        found_as_left(again, left),
    ensures
        crate::manager::merged(crate::backend::snapshots(again), outputs, errors)
            == crate::manager::merged(crate::backend::snapshots(left), outputs, errors),
{
    let a = crate::backend::snapshots(left);
    let b = crate::backend::snapshots(again);
    assert forall|x: int| 0 <= x < a.len() implies crate::manager::ddc_info(
        #[trigger] a[x],
        outputs,
        errors,
    ) == crate::manager::ddc_info(b[x], outputs, errors) && a[x].connector == b[x].connector by {
        assert(as_left(again[x].snapshot, left[x].snapshot));
    }
    lemma_output_infos_alike(a, b, outputs, errors);
    assert(crate::manager::unordered(a, outputs, errors) =~= crate::manager::unordered(
        b,
        outputs,
        errors,
    ));
}

proof fn lemma_notes_alike(
    a: crate::manager::ManagerView,
    b: crate::manager::ManagerView,
    i: nat,
)
    requires
        a.displays.len() == b.displays.len(),
        i <= a.displays.len(),
        forall|k: int|
            0 <= k < a.displays.len() ==> {
                &&& (#[trigger] a.displays[k]).id == b.displays[k].id
                &&& crate::manager::concerned(a.config, a.displays[k])
                    == crate::manager::concerned(b.config, b.displays[k])
                &&& verdict(a, a.displays[k]) == verdict(b, b.displays[k])
            },
    ensures
        notes_before(a, i) == notes_before(b, i),
    decreases i,
{
    if i > 0 {
        lemma_notes_alike(a, b, (i - 1) as nat);
        assert(a.displays[i - 1].id == b.displays[i - 1].id);
    }
}

/// Refreshing is idempotent. After a refresh whose changes were all made, and
/// with nothing changed since, another refresh asks for no change at all,
/// whatever the outcomes, and shows the same list.
///
/// Displays that share an output do not want it at different brightnesses:
/// otherwise only one of them can be met.
pub proof fn refreshing_again_changes_nothing(
    world: World,
    found: Seq<crate::grouping::ManagedDisplayView>,
    gamma_available: bool,
    feedback: Seq<Feedback>,
    again: Seq<crate::grouping::ManagedDisplayView>,
    outcomes: Seq<Result<(), Seq<char>>>,
)
    requires
        crate::backend::usable(found),
        gamma_available || world.gamma.cache.len() == 0,
        at_rest(world.gamma),
        wishes_agree(
            world.manager.config,
            refreshed(world, found, gamma_available).manager.displays,
        ),
        restored(refreshed(world, found, gamma_available), feedback),
        found_as_left(
            again,
            after_restoring(refreshed(world, found, gamma_available), feedback).manager.ddc,
        ),
    ensures
        ({
            let left = after_restoring(refreshed(world, found, gamma_available), feedback);
            let second = refreshed(left, again, gamma_available);
            let (step, after) = crate::manager::restore_step(
                second.manager,
                outcomes,
                second.gamma.cache,
            );
            &&& step is Done
            &&& second.manager.displays == left.manager.displays
            &&& after.displays == left.manager.displays
            &&& after == (crate::manager::ManagerView {
                ddc: again,
                readings: crate::backend::snapshots(again),
                ..left.manager
            })
        }),
{
    let first = refreshed(world, found, gamma_available);
    let left = after_restoring(first, feedback);
    let second = refreshed(left, again, gamma_available);
    let last = restore_run(first, feedback, feedback.len());
    let count = first.manager.displays.len();
    let notes = notes_before(first.manager, count);
    let errors = crate::manager::noted(first.manager.errors, notes);
    lemma_all_grounded(first);
    lemma_run_keeps(first, feedback, feedback.len());
    lemma_run_ends(first, feedback);
    lemma_walk(first, feedback, count);
    assert(left.manager.errors == errors);
    let before = Scene {
        displays: crate::backend::snapshots(found),
        outputs: world.gamma.cache,
        errors: world.manager.errors,
    };
    let after = Scene {
        displays: crate::backend::snapshots(last.manager.ddc),
        outputs: last.gamma.cache,
        errors,
    };
    assert forall|x: int| 0 <= x < before.displays.len() implies (
    #[trigger] before.displays[x]).id == after.displays[x].id && before.displays[x].connector
        == after.displays[x].connector by {
        assert(last.manager.ddc[x].snapshot.id == found[x].snapshot.id);
    }
    assert forall|o: int| 0 <= o < before.outputs.len() implies (
    #[trigger] before.outputs[o]).name == after.outputs[o].name by {
        assert(last.gamma.cache[o].name == world.gamma.cache[o].name);
    }
    lemma_places_stay(before, after);
    assert(left.manager.displays == shown_of(after));
    lemma_shown_alike(left.manager.ddc, again, last.gamma.cache, errors);
    assert(second.manager.displays == shown_of(after));
    assert forall|k: int| 0 <= k < count implies {
        &&& grounded(second.manager, #[trigger] second.manager.displays[k])
        &&& asked(second.manager, second.manager.displays[k]).len() == 0
        &&& first.manager.displays[k].id == second.manager.displays[k].id
        &&& crate::manager::concerned(first.manager.config, first.manager.displays[k])
            == crate::manager::concerned(second.manager.config, second.manager.displays[k])
        &&& verdict(first.manager, first.manager.displays[k]) == verdict(
            second.manager,
            second.manager.displays[k],
        )
    } by {
        assert(first.manager.displays[k] == shown_of(before)[k]);
        lemma_display_settled(
            first,
            last,
            second.manager,
            first.manager.displays[k],
            second.manager.displays[k],
            k,
            again,
            before,
            after,
        );
    }
    assert forall|k: int| 0 <= k < count implies {
        &&& (#[trigger] first.manager.displays[k]).id == second.manager.displays[k].id
        &&& crate::manager::concerned(first.manager.config, first.manager.displays[k])
            == crate::manager::concerned(second.manager.config, second.manager.displays[k])
        &&& verdict(first.manager, first.manager.displays[k]) == verdict(
            second.manager,
            second.manager.displays[k],
        )
    } by {
        assert(grounded(second.manager, second.manager.displays[k]));
    }
    lemma_notes_alike(first.manager, second.manager, count);
    lemma_passed_by(second.manager, outcomes, errors, 0, 0);
    lemma_noted_twice(first.manager.errors, notes);
}

/// What a refresh enumerates.
pub open spec fn enumerated(
    connectors: Seq<crate::drm::DrmConnectorView>,
    probes: Seq<crate::ddc::Probe>,
) -> Seq<crate::grouping::ManagedDisplayView> {
    crate::grouping::grouped(crate::ddc::candidates_of(connectors, probes))
}

/// Whether every transport reads its display at the level at which that was
/// left.
pub open spec fn read_as_left(
    probes: Seq<crate::ddc::Probe>,
    left: Seq<crate::grouping::ManagedDisplayView>,
) -> bool {
    forall|q: int, x: int, h: int|
        0 <= q < probes.len() && 0 <= x < left.len() && 0 <= h < left[x].handles.len() && (
        #[trigger] left[x].handles[h]).slot == (#[trigger] probes[q]).slot
            && crate::grouping::reads(probes[q]) ==> same_level(
            probes[q].reading->Some_0.current_value(),
            probes[q].reading->Some_0.maximum_value(),
            left[x].snapshot,
        )
}

/// An ordinary refresh writes nothing. After a refresh whose changes were all
/// made, let the same monitors be found on the same connectors, each read at the
/// level at which it was left, and let no output and no saved setting have
/// changed: then another refresh asks for no change, and shows the same list.
pub proof fn an_ordinary_refresh_writes_nothing(
    world: World,
    connectors: Seq<crate::drm::DrmConnectorView>,
    probes: Seq<crate::ddc::Probe>,
    gamma_available: bool,
    feedback: Seq<Feedback>,
    later: Seq<crate::ddc::Probe>,
    outcomes: Seq<Result<(), Seq<char>>>,
)
    requires
        gamma_available || world.gamma.cache.len() == 0,
        at_rest(world.gamma),
        ({
            let first = refreshed(world, enumerated(connectors, probes), gamma_available);
            &&& wishes_agree(world.manager.config, first.manager.displays)
            &&& restored(first, feedback)
            &&& read_as_left(later, after_restoring(first, feedback).manager.ddc)
        }),
        later.len() == probes.len(),
        forall|q: int|
            0 <= q < probes.len() ==> crate::grouping::same_probe(#[trigger] probes[q], later[q]),
    ensures
        ({
            let first = refreshed(world, enumerated(connectors, probes), gamma_available);
            let left = after_restoring(first, feedback);
            let second = refreshed(left, enumerated(connectors, later), gamma_available);
            let (step, after) = crate::manager::restore_step(
                second.manager,
                outcomes,
                second.gamma.cache,
            );
            &&& step is Done
            &&& after.displays == left.manager.displays
            &&& after.errors == left.manager.errors
            &&& after.config == left.manager.config
        }),
{
    let found = enumerated(connectors, probes);
    let again = enumerated(connectors, later);
    let first = refreshed(world, found, gamma_available);
    let left = after_restoring(first, feedback);
    let last = restore_run(first, feedback, feedback.len());
    let a = crate::ddc::candidates_of(connectors, probes);
    let b = crate::ddc::candidates_of(connectors, later);
    crate::backend::enumerated_displays_are_usable(a);
    crate::grouping::probes_make_the_same_candidates(connectors, probes, later);
    crate::grouping::readings_do_not_move_displays(a, b);
    lemma_run_keeps(first, feedback, feedback.len());
    lemma_run_ends(first, feedback);
    lemma_walk(first, feedback, first.manager.displays.len());
    assert(left.manager.ddc == last.manager.ddc);
    assert forall|x: int| 0 <= x < left.manager.ddc.len() implies as_left(
        (#[trigger] again[x]).snapshot,
        left.manager.ddc[x].snapshot,
    ) by {
        let display = left.manager.ddc[x];
        assert(last.manager.ddc[x].handles == found[x].handles);
        assert(crate::grouping::same_monitor(found[x], again[x]));
        crate::grouping::displays_begin_with_their_first_handle(b, x);
        let m = choose|m: int|
            0 <= m < b.len() && (#[trigger] b[m]).handle == again[x].handles[0] && b[m].current
                == again[x].snapshot.current && b[m].handle.maximum == again[x].snapshot.maximum;
        let q = choose|q: int|
            0 <= q < later.len() && crate::ddc::candidate_of(connectors, #[trigger] later[q])
                == Some(b[m]);
        assert(found[x].handles[0].slot == again[x].handles[0].slot);
        assert(display.handles[0].slot == later[q].slot);
    }
    refreshing_again_changes_nothing(world, found, gamma_available, feedback, again, outcomes);
}

/// Once settings were restored and every change was made, each DDC display
/// stands at the percentage saved for it: at the raw level that the percentage
/// is written as, or at one that shows it. Each output of a display stands at
/// the gamma brightness saved for that, but for rounding.
pub proof fn restored_displays_stand_at_what_is_saved(
    world: World,
    found: Seq<crate::grouping::ManagedDisplayView>,
    gamma_available: bool,
    feedback: Seq<Feedback>,
    k: int,
)
    requires
        crate::backend::usable(found),
        gamma_available || world.gamma.cache.len() == 0,
        at_rest(world.gamma),
        wishes_agree(
            world.manager.config,
            refreshed(world, found, gamma_available).manager.displays,
        ),
        restored(refreshed(world, found, gamma_available), feedback),
        0 <= k < refreshed(world, found, gamma_available).manager.displays.len(),
        world.manager.config.displays.contains_key(
            refreshed(world, found, gamma_available).manager.displays[k].id,
        ),
    ensures
        ({
            let display = refreshed(world, found, gamma_available).manager.displays[k];
            let saved = world.manager.config.displays[display.id];
            let left = after_restoring(refreshed(world, found, gamma_available), feedback);
            &&& display.ddc_supported && saved.ddc_brightness is Some ==> forall|x: int|
                0 <= x < left.manager.ddc.len() && (#[trigger] left.manager.ddc[x]).snapshot.id
                    == display.id ==> {
                    let percent = saved.ddc_brightness->Some_0;
                    let shown = left.manager.ddc[x].snapshot;
                    let reached = if shown.current < shown.maximum {
                        shown.current as int
                    } else {
                        shown.maximum as int
                    };
                    ||| percent <= 100 && shown.current == (percent * shown.maximum + 50) / 100
                    ||| 2 * crate::binary64::gap(percent * shown.maximum, 100 * reached)
                        <= shown.maximum
                }
            &&& display.gamma_supported && display.connector.len() > 0 && saved.gamma_brightness
                is Some ==> forall|o: int|
                0 <= o < left.gamma.cache.len() && (#[trigger] left.gamma.cache[o]).name
                    == display.connector ==> !crate::adjustment::differs(
                    saved.gamma_brightness->Some_0,
                    left.gamma.cache[o].brightness,
                )
        }),
{
    let first = refreshed(world, found, gamma_available);
    let left = after_restoring(first, feedback);
    let last = restore_run(first, feedback, feedback.len());
    let count = first.manager.displays.len();
    let display = first.manager.displays[k];
    let saved = world.manager.config.displays[display.id];
    lemma_all_grounded(first);
    lemma_run_keeps(first, feedback, feedback.len());
    lemma_run_ends(first, feedback);
    lemma_walk(first, feedback, count);
    assert(on_course(first, last, count));
    assert(left.manager.ddc == last.manager.ddc);
    assert(left.gamma == last.gamma);
    if display.ddc_supported && saved.ddc_brightness is Some {
        let percent = saved.ddc_brightness->Some_0;
        assert forall|x: int|
            0 <= x < left.manager.ddc.len() && (#[trigger] left.manager.ddc[x]).snapshot.id
                == display.id implies {
            let shown = left.manager.ddc[x].snapshot;
            let reached = if shown.current < shown.maximum {
                shown.current as int
            } else {
                shown.maximum as int
            };
            ||| percent <= 100 && shown.current == (percent * shown.maximum + 50) / 100
            ||| 2 * crate::binary64::gap(percent * shown.maximum, 100 * reached) <= shown.maximum
        } by {
            let now = last.manager.ddc[x];
            assert(first.manager.displays[k].id == now.snapshot.id);
            assert(reached(first.manager.config, now));
            let shown = now.snapshot;
            assert(crate::manager::stands_at(shown, percent));
            crate::ddc::percentages_are_nearest(shown.current, shown.maximum);
            if percent <= 100 {
                let maximum = shown.maximum;
                assert(0 <= percent * maximum <= 100 * 65535) by (nonlinear_arith)
                    requires
                        0 <= percent <= 100,
                        0 <= maximum <= 65535,
                ;
            }
        }
    }
    if display.gamma_supported && display.connector.len() > 0 && saved.gamma_brightness is Some {
        assert forall|o: int|
            0 <= o < left.gamma.cache.len() && (#[trigger] left.gamma.cache[o]).name
                == display.connector implies !crate::adjustment::differs(
            saved.gamma_brightness->Some_0,
            left.gamma.cache[o].brightness,
        ) by {
            assert(first.manager.displays[k].connector == last.gamma.cache[o].name);
        }
    }
}

} // verus!
