//! Changes of a display's controls: in which order they are made, and how they
//! are taken back.

use vstd::prelude::*;

use crate::binary64::{epsilon, Binary64};
use crate::brightness::{BrightnessPlan, DisplayInfo};
use crate::order::{sort, Ranked};
use crate::text::join;

verus! {

/// A change of one control.
#[allow(inconsistent_fields)]
#[derive(Debug, Clone, Copy, PartialEq, Eq, Structural)]
pub enum Adjustment {
    Ddc { from: u16, to: u16 },
    Gamma { from: Binary64, to: Binary64 },
}

impl View for Adjustment {
    type V = Adjustment;

    open spec fn view(&self) -> Adjustment {
        *self
    }
}

impl Adjustment {
    /// Whether the change takes light away.
    pub open spec fn dims(self) -> bool {
        match self {
            Adjustment::Ddc { from, to } => to < from,
            Adjustment::Gamma { from, to } => to.below(from),
        }
    }

    /// When the change is made: what dims comes before what brightens, gamma
    /// first among the former and last among the latter.
    pub open spec fn turn(self) -> u8 {
        match (self, self.dims()) {
            (Adjustment::Gamma { .. }, true) => 0,
            (Adjustment::Ddc { .. }, true) => 1,
            (Adjustment::Ddc { .. }, false) => 2,
            (Adjustment::Gamma { .. }, false) => 3,
        }
    }

    /// The change that takes this one back.
    pub open spec fn undone(self) -> Adjustment {
        match self {
            Adjustment::Ddc { from, to } => Adjustment::Ddc { from: to, to: from },
            Adjustment::Gamma { from, to } => Adjustment::Gamma { from: to, to: from },
        }
    }

    /// When the change is made.
    pub fn order_key(self) -> (r: u8)
        ensures
            r == self.turn(),
    {
        match self {
            Adjustment::Gamma { from, to } => if to.is_below(from) {
                0
            } else {
                3
            },
            Adjustment::Ddc { from, to } => if to < from {
                1
            } else {
                2
            },
        }
    }

    /// The change that takes this one back.
    pub fn rollback(self) -> (r: Self)
        ensures
            r == self.undone(),
    {
        match self {
            Adjustment::Ddc { from, to } => Adjustment::Ddc { from: to, to: from },
            Adjustment::Gamma { from, to } => Adjustment::Gamma { from: to, to: from },
        }
    }
}

impl Ranked for Adjustment {
    open spec fn rank_of(v: Adjustment) -> Seq<u64> {
        seq![v.turn() as u64]
    }

    fn rank_key(&self) -> (k: Vec<u64>) {
        let mut k: Vec<u64> = Vec::new();
        k.push(self.order_key() as u64);
        assert(k@ =~= Self::rank_of(self@));
        k
    }
}

/// Whether two gamma brightnesses are further apart than rounding explains.
pub open spec fn differs(a: Binary64, b: Binary64) -> bool {
    epsilon().below(crate::binary64::apart(a, b))
}

/// Whether two gamma brightnesses are further apart than rounding explains.
pub fn is_different(a: Binary64, b: Binary64) -> (r: bool)
    ensures
        r == differs(a, b),
{
    epsilon().is_below(a.distance(b))
}

/// The changes that lead from what a display shows to a plan: none for a
/// control that the plan leaves alone or that is there already.
pub open spec fn wanted(
    current: crate::brightness::DisplayInfoView,
    plan: BrightnessPlan,
) -> Seq<Adjustment> {
    let hardware = match plan.hardware_percent {
        Some(to) => if to != current.ddc_brightness {
            seq![Adjustment::Ddc { from: current.ddc_brightness, to }]
        } else {
            Seq::empty()
        },
        None => Seq::empty(),
    };
    let gamma = match plan.gamma_brightness {
        Some(to) => if differs(to, current.gamma_brightness) {
            seq![Adjustment::Gamma { from: current.gamma_brightness, to }]
        } else {
            Seq::empty()
        },
        None => Seq::empty(),
    };
    hardware + gamma
}

/// The changes that lead from what a display shows to a plan, in the order in
/// which they are made.
pub open spec fn ordered(
    current: crate::brightness::DisplayInfoView,
    plan: BrightnessPlan,
) -> Seq<Adjustment> {
    crate::order::stably_sorted::<Adjustment>(wanted(current, plan))
}

/// The changes that lead from what a display shows to a plan, in the order in
/// which they are made.
pub fn ordered_adjustments(current: &DisplayInfo, plan: BrightnessPlan) -> (r: Vec<Adjustment>)
    ensures
        r@ == ordered(current@, plan),
{
    let mut adjustments: Vec<Adjustment> = Vec::new();
    if let Some(to) = plan.hardware_percent {
        if to != current.ddc_brightness {
            adjustments.push(Adjustment::Ddc { from: current.ddc_brightness, to });
        }
    }
    if let Some(to) = plan.gamma_brightness {
        if is_different(to, current.gamma_brightness) {
            adjustments.push(Adjustment::Gamma { from: current.gamma_brightness, to });
        }
    }
    assert(crate::model::views(adjustments@) =~= wanted(current@, plan));
    let r = sort(adjustments);
    assert(crate::model::views(r@) =~= r@);
    r
}

/// Dimming comes before brightening: no change that takes light away stands
/// behind one that does not.
pub proof fn dimming_comes_first(
    current: crate::brightness::DisplayInfoView,
    plan: BrightnessPlan,
    i: int,
    j: int,
)
    requires
        0 <= i < j < ordered(current, plan).len(),
        ordered(current, plan)[j].dims(),
    ensures
        ordered(current, plan)[i].dims(),
{
    let s = ordered(current, plan);
    crate::order::sorting_keeps_the_values::<Adjustment>(wanted(current, plan));
    let a = Adjustment::rank_of(s[i]);
    let b = Adjustment::rank_of(s[j]);
    assert(!crate::order::precedes(b, a));
    assert(a.len() == 1 && b.len() == 1);
    assert(a[0] == s[i].turn() && b[0] == s[j].turn());
}

/// A control is changed at most once, and only where the plan says so.
pub proof fn only_needed_changes_are_made(
    current: crate::brightness::DisplayInfoView,
    plan: BrightnessPlan,
)
    ensures
        ordered(current, plan).len() <= 2,
        ordered(current, plan).to_multiset() == wanted(current, plan).to_multiset(),
        plan.hardware_percent == Some(current.ddc_brightness) && plan.gamma_brightness == Some(
            current.gamma_brightness,
        ) && current.gamma_brightness.finite() ==> ordered(current, plan).len() == 0,
        plan.hardware_percent is None && plan.gamma_brightness is None ==> ordered(
            current,
            plan,
        ).len() == 0,
{
    crate::order::sorting_keeps_the_values::<Adjustment>(wanted(current, plan));
    let g = current.gamma_brightness;
    if g.finite() {
        nothing_differs_from_itself(g);
    }
}

/// A number is not apart from itself.
pub proof fn nothing_differs_from_itself(x: Binary64)
    requires
        x.finite(),
    ensures
        !differs(x, x),
{
    crate::binary64::lemma_literals();
    crate::binary64::lemma_size_zero(0);
    crate::rounding::zero_is_kept(1);
    assert(crate::binary64::gap(x.value(), x.value()) == 0);
    assert(crate::binary64::apart(x, x) == Binary64 { bits: 0 });
}

/// Taking a change back leads to where it started, and taking that back leads
/// to where it ended.
pub proof fn taking_back_reverses(adjustment: Adjustment)
    ensures
        adjustment.undone().undone() == adjustment,
        match (adjustment, adjustment.undone()) {
            (
                Adjustment::Ddc { from, to },
                Adjustment::Ddc { from: start, to: end },
            ) => start == to && end == from,
            (
                Adjustment::Gamma { from, to },
                Adjustment::Gamma { from: start, to: end },
            ) => start == to && end == from,
            _ => false,
        },
{
}

/// Why a change cannot even be tried: gamma needs a connector and a backend.
pub open spec fn obstacle(
    connector: Seq<char>,
    gamma_available: bool,
    adjustment: Adjustment,
) -> Option<Seq<char>> {
    match adjustment {
        Adjustment::Ddc { .. } => None,
        Adjustment::Gamma { .. } => if connector.len() == 0 {
            Some("the display is not associated with a Wayland connector"@)
        } else if !gamma_available {
            Some("Wayland gamma backend is unavailable"@)
        } else {
            None
        },
    }
}

/// What is said when a change that was tried has failed.
pub open spec fn adjustment_failure(
    connector: Seq<char>,
    adjustment: Adjustment,
    error: Seq<char>,
) -> Seq<char> {
    match adjustment {
        Adjustment::Ddc { .. } => "DDC write failed: "@ + error,
        Adjustment::Gamma { .. } => "failed to update gamma for "@ + connector + ": "@ + error,
    }
}

/// What is known of a change.
pub enum AttemptView {
    /// It has to be tried.
    Pending,
    /// It was made.
    Made,
    /// It was not made.
    Failed(Seq<char>),
}

/// What is known of a change, `used` outcomes having gone to changes before it.
pub open spec fn attempt(
    connector: Seq<char>,
    gamma_available: bool,
    adjustment: Adjustment,
    outcomes: Seq<Result<(), Seq<char>>>,
    used: nat,
) -> AttemptView {
    match obstacle(connector, gamma_available, adjustment) {
        Some(message) => AttemptView::Failed(message),
        None => if used >= outcomes.len() {
            AttemptView::Pending
        } else {
            match outcomes[used as int] {
                Ok(_) => AttemptView::Made,
                Err(error) => AttemptView::Failed(
                    adjustment_failure(connector, adjustment, error),
                ),
            }
        },
    }
}

/// How many outcomes a change takes.
pub open spec fn taken(connector: Seq<char>, gamma_available: bool, adjustment: Adjustment) -> nat {
    if obstacle(connector, gamma_available, adjustment) is None {
        1
    } else {
        0
    }
}

/// What follows when changes are made one after the other.
pub enum PlanStepView {
    /// This change is to be tried.
    Apply(Adjustment),
    /// Nothing more: this is what came of it.
    Done(Result<(), Seq<char>>),
}

/// How far a run of changes has come.
pub struct PlanRun {
    /// What follows.
    pub step: PlanStepView,
    /// How many outcomes have been used up.
    pub used: nat,
    /// The changes that were made, in their order.
    pub made: Seq<Adjustment>,
    /// What went wrong while changes were taken back.
    pub failures: Seq<Seq<char>>,
}

/// What a failed run says: the failure, and what else went wrong while the
/// changes before it were taken back.
pub open spec fn run_failure(error: Seq<char>, failures: Seq<Seq<char>>) -> Seq<char> {
    if failures.len() == 0 {
        error
    } else {
        error + "; rollback also failed: "@ + crate::text::joined(failures, "; "@)
    }
}

/// How the first `k` changes are taken back, the last one first.
pub open spec fn taking_back(
    connector: Seq<char>,
    gamma_available: bool,
    adjustments: Seq<Adjustment>,
    outcomes: Seq<Result<(), Seq<char>>>,
    k: nat,
    used: nat,
    made: Seq<Adjustment>,
    error: Seq<char>,
    failures: Seq<Seq<char>>,
) -> PlanRun
    decreases k,
{
    if k == 0 {
        PlanRun { step: PlanStepView::Done(Err(run_failure(error, failures))), used, made, failures }
    } else {
        let back = adjustments[k - 1].undone();
        let after = used + taken(connector, gamma_available, back);
        match attempt(connector, gamma_available, back, outcomes, used) {
            AttemptView::Pending => PlanRun { step: PlanStepView::Apply(back), used, made, failures },
            AttemptView::Made => taking_back(
                connector,
                gamma_available,
                adjustments,
                outcomes,
                (k - 1) as nat,
                after,
                made.push(back),
                error,
                failures,
            ),
            AttemptView::Failed(message) => taking_back(
                connector,
                gamma_available,
                adjustments,
                outcomes,
                (k - 1) as nat,
                after,
                made,
                error,
                failures.push(message),
            ),
        }
    }
}

/// How the changes from position `k` on are made. Once one fails, those before
/// it are taken back.
pub open spec fn making(
    connector: Seq<char>,
    gamma_available: bool,
    adjustments: Seq<Adjustment>,
    outcomes: Seq<Result<(), Seq<char>>>,
    k: nat,
    used: nat,
    made: Seq<Adjustment>,
) -> PlanRun
    decreases adjustments.len() - k,
{
    if k >= adjustments.len() {
        PlanRun { step: PlanStepView::Done(Ok(())), used, made, failures: Seq::empty() }
    } else {
        let next = adjustments[k as int];
        let after = used + taken(connector, gamma_available, next);
        match attempt(connector, gamma_available, next, outcomes, used) {
            AttemptView::Pending => PlanRun { step: PlanStepView::Apply(next), used, made, failures: Seq::empty() },
            AttemptView::Made => making(
                connector,
                gamma_available,
                adjustments,
                outcomes,
                k + 1,
                after,
                made.push(next),
            ),
            AttemptView::Failed(message) => taking_back(
                connector,
                gamma_available,
                adjustments,
                outcomes,
                k,
                after,
                made,
                message,
                Seq::empty(),
            ),
        }
    }
}

/// How a plan is carried out on a display: `used` outcomes have gone elsewhere
/// before.
pub open spec fn plan_run(
    current: crate::brightness::DisplayInfoView,
    plan: BrightnessPlan,
    gamma_available: bool,
    outcomes: Seq<Result<(), Seq<char>>>,
    used: nat,
) -> PlanRun {
    making(
        current.connector,
        gamma_available,
        ordered(current, plan),
        outcomes,
        0,
        used,
        Seq::empty(),
    )
}

/// What follows when a plan is carried out.
#[derive(Debug)]
pub enum PlanStep {
    /// This change is to be tried.
    Apply(Adjustment),
    /// Nothing more: this is what came of it.
    Done(Result<(), String>),
}

impl View for PlanStep {
    type V = PlanStepView;

    open spec fn view(&self) -> PlanStepView {
        match *self {
            PlanStep::Apply(adjustment) => PlanStepView::Apply(adjustment),
            PlanStep::Done(result) => PlanStepView::Done(crate::model::heard(result)),
        }
    }
}

/// What is known of a change.
pub enum Attempt {
    Pending,
    Made,
    Failed(String),
}

impl View for Attempt {
    type V = AttemptView;

    open spec fn view(&self) -> AttemptView {
        match *self {
            Attempt::Pending => AttemptView::Pending,
            Attempt::Made => AttemptView::Made,
            Attempt::Failed(message) => AttemptView::Failed(message@),
        }
    }
}

/// What is known of a change, and how many outcomes are used up with it.
pub fn apply_adjustment(
    connector: &str,
    gamma_available: bool,
    adjustment: Adjustment,
    outcomes: &Vec<Result<(), String>>,
    used: usize,
) -> (r: (Attempt, usize))
    requires
        used <= outcomes@.len(),
    ensures
        r.0@ == attempt(
            connector@,
            gamma_available,
            adjustment,
            crate::model::all_heard(outcomes@),
            used as nat,
        ),
        r.0@ !is Pending ==> r.1 == used + taken(connector@, gamma_available, adjustment),
        used <= r.1 <= outcomes@.len(),
{
    if let Adjustment::Gamma { .. } = adjustment {
        if connector.is_empty() {
            return (
                Attempt::Failed(
                    "the display is not associated with a Wayland connector".to_owned(),
                ),
                used,
            );
        }
        if !gamma_available {
            return (Attempt::Failed("Wayland gamma backend is unavailable".to_owned()), used);
        }
    }
    if used >= outcomes.len() {
        return (Attempt::Pending, used);
    }
    let ghost heard = crate::model::all_heard(outcomes@);
    assert(heard[used as int] == crate::model::heard(outcomes@[used as int]));
    match &outcomes[used] {
        Ok(_) => (Attempt::Made, used + 1),
        Err(error) => {
            let message = match adjustment {
                Adjustment::Ddc { .. } => "DDC write failed: ".to_owned().concat(error.as_str()),
                Adjustment::Gamma { .. } => "failed to update gamma for ".to_owned().concat(
                    connector,
                ).concat(": ").concat(error.as_str()),
            };
            (Attempt::Failed(message), used + 1)
        },
    }
}

/// Takes the first `k` changes back.
fn take_back(
    connector: &str,
    gamma_available: bool,
    adjustments: &Vec<Adjustment>,
    outcomes: &Vec<Result<(), String>>,
    k: usize,
    used: usize,
    error: String,
    Ghost(made): Ghost<Seq<Adjustment>>,
) -> (r: (PlanStep, usize))
    requires
        k <= adjustments@.len(),
        used <= outcomes@.len(),
    ensures
        ({
            let run = taking_back(
                connector@,
                gamma_available,
                adjustments@,
                crate::model::all_heard(outcomes@),
                k as nat,
                used as nat,
                made,
                error@,
                Seq::empty(),
            );
            r.0@ == run.step && r.1 == run.used && r.1 <= outcomes@.len()
        }),
{
    let ghost heard = crate::model::all_heard(outcomes@);
    let ghost run = taking_back(
        connector@,
        gamma_available,
        adjustments@,
        heard,
        k as nat,
        used as nat,
        made,
        error@,
        Seq::empty(),
    );
    let ghost mut so_far = made;
    let mut left: usize = k;
    let mut taken_up: usize = used;
    let mut failures: Vec<String> = Vec::new();
    assert(crate::model::views(failures@) =~= Seq::<Seq<char>>::empty());
    while left > 0
        invariant
            left <= adjustments@.len(),
            taken_up <= outcomes@.len(),
            heard == crate::model::all_heard(outcomes@),
            run == taking_back(
                connector@,
                gamma_available,
                adjustments@,
                heard,
                k as nat,
                used as nat,
                made,
                error@,
                Seq::empty(),
            ),
            run == taking_back(
                connector@,
                gamma_available,
                adjustments@,
                heard,
                left as nat,
                taken_up as nat,
                so_far,
                error@,
                crate::model::views(failures@),
            ),
        decreases left,
    {
        let back = adjustments[left - 1].rollback();
        let (known, after) = apply_adjustment(
            connector,
            gamma_available,
            back,
            outcomes,
            taken_up,
        );
        match known {
            Attempt::Pending => {
                return (PlanStep::Apply(back), taken_up);
            },
            Attempt::Made => {
                proof {
                    so_far = so_far.push(back);
                }
            },
            Attempt::Failed(message) => {
                proof {
                    crate::model::views_push(failures@, message);
                }
                failures.push(message);
            },
        }
        taken_up = after;
        left = left - 1;
    }
    assert(crate::model::views(failures@).len() == failures@.len());
    if failures.len() == 0 {
        return (PlanStep::Done(Err(error)), taken_up);
    }
    let message = error.concat("; rollback also failed: ").concat(join(&failures, "; ").as_str());
    (PlanStep::Done(Err(message)), taken_up)
}

/// How far a plan has come on a display, and how many outcomes are used up.
pub fn apply_plan(
    current: &DisplayInfo,
    plan: BrightnessPlan,
    gamma_available: bool,
    outcomes: &Vec<Result<(), String>>,
    used: usize,
) -> (r: (PlanStep, usize))
    requires
        used <= outcomes@.len(),
    ensures
        ({
            let run = plan_run(
                current@,
                plan,
                gamma_available,
                crate::model::all_heard(outcomes@),
                used as nat,
            );
            r.0@ == run.step && r.1 == run.used && r.1 <= outcomes@.len()
        }),
{
    let adjustments = ordered_adjustments(current, plan);
    let connector = current.connector.as_str();
    let ghost heard = crate::model::all_heard(outcomes@);
    let ghost run = plan_run(current@, plan, gamma_available, heard, used as nat);
    let ghost mut made = Seq::<Adjustment>::empty();
    let mut taken_up: usize = used;
    for k in 0..adjustments.len()
        invariant
            taken_up <= outcomes@.len(),
            connector@ == current@.connector,
            heard == crate::model::all_heard(outcomes@),
            run == plan_run(current@, plan, gamma_available, heard, used as nat),
            run == making(
                connector@,
                gamma_available,
                adjustments@,
                heard,
                k as nat,
                taken_up as nat,
                made,
            ),
    {
        let next = adjustments[k];
        let (known, after) = apply_adjustment(
            connector,
            gamma_available,
            next,
            outcomes,
            taken_up,
        );
        match known {
            Attempt::Pending => {
                return (PlanStep::Apply(next), taken_up);
            },
            Attempt::Made => {
                proof {
                    made = made.push(next);
                }
            },
            Attempt::Failed(message) => {
                return take_back(
                    connector,
                    gamma_available,
                    &adjustments,
                    outcomes,
                    k,
                    after,
                    message,
                    Ghost(made),
                );
            },
        }
        taken_up = after;
    }
    (PlanStep::Done(Ok(())), taken_up)
}

/// Where the controls of a display stand.
pub struct Levels {
    pub ddc: u16,
    pub gamma: Binary64,
}

/// Where the controls stand after a change.
pub open spec fn changed(levels: Levels, adjustment: Adjustment) -> Levels {
    match adjustment {
        Adjustment::Ddc { to, .. } => Levels { ddc: to, ..levels },
        Adjustment::Gamma { to, .. } => Levels { gamma: to, ..levels },
    }
}

/// Where the controls stand after changes.
pub open spec fn all_changed(levels: Levels, adjustments: Seq<Adjustment>) -> Levels
    decreases adjustments.len(),
{
    if adjustments.len() == 0 {
        levels
    } else {
        changed(all_changed(levels, adjustments.drop_last()), adjustments.last())
    }
}

/// Where the controls of a display stand.
pub open spec fn levels_of(current: crate::brightness::DisplayInfoView) -> Levels {
    Levels { ddc: current.ddc_brightness, gamma: current.gamma_brightness }
}

/// Where a plan wants the controls: a gamma brightness that the display shows
/// but for rounding is left alone.
pub open spec fn aimed_at(
    current: crate::brightness::DisplayInfoView,
    plan: BrightnessPlan,
) -> Levels {
    Levels {
        ddc: match plan.hardware_percent {
            Some(to) => to,
            None => current.ddc_brightness,
        },
        gamma: match plan.gamma_brightness {
            Some(to) => if differs(to, current.gamma_brightness) {
                to
            } else {
                current.gamma_brightness
            },
            None => current.gamma_brightness,
        },
    }
}

/// A plan takes at most two changes, each of them wanted.
pub proof fn plans_are_pairs(current: crate::brightness::DisplayInfoView, plan: BrightnessPlan)
    ensures
        ordered(current, plan).len() <= 2,
        ordered(current, plan).len() == wanted(current, plan).len(),
        forall|i: int|
            0 <= i < ordered(current, plan).len() ==> wanted(current, plan).contains(
                #[trigger] ordered(current, plan)[i],
            ),
        ordered(current, plan).len() == 2 ==> {
            let s = ordered(current, plan);
            let w = wanted(current, plan);
            (s[0] == w[0] && s[1] == w[1]) || (s[0] == w[1] && s[1] == w[0])
        },
{
    let w = wanted(current, plan);
    let s = ordered(current, plan);
    let p = crate::order::sorting_permutes::<Adjustment>(w);
    assert forall|i: int| 0 <= i < s.len() implies w.contains(#[trigger] s[i]) by {
        assert(s[i] == w[p[i]]);
    }
    if s.len() == 2 {
        assert(p[0] != p[1]);
        assert(s[0] == w[p[0]] && s[1] == w[p[1]]);
    }
}

/// A plan that was carried out leaves the controls where it wants them. One
/// that failed leaves them where they were, unless taking something back has
/// failed too; in that case the message says so.
pub proof fn failed_plans_are_taken_back(
    current: crate::brightness::DisplayInfoView,
    plan: BrightnessPlan,
    gamma_available: bool,
    outcomes: Seq<Result<(), Seq<char>>>,
    used: nat,
)
    ensures
        ({
            let run = plan_run(current, plan, gamma_available, outcomes, used);
            let levels = all_changed(levels_of(current), run.made);
            &&& run.step matches PlanStepView::Done(Ok(_)) ==> levels == aimed_at(current, plan)
            &&& run.step matches PlanStepView::Done(Err(_)) ==> (run.failures.len() == 0 ==> levels
                == levels_of(current))
            &&& used <= run.used <= used + 3
        }),
{
    let run = plan_run(current, plan, gamma_available, outcomes, used);
    let s = ordered(current, plan);
    plans_are_pairs(current, plan);
    reveal_with_fuel(making, 4);
    reveal_with_fuel(taking_back, 3);
    reveal_with_fuel(all_changed, 3);
    let none = Seq::<Adjustment>::empty();
    if s.len() >= 1 {
        let a = s[0];
        assert(wanted(current, plan).contains(a));
        let one = none.push(a);
        assert(one.drop_last() =~= none);
        let back = one.push(a.undone());
        assert(back.drop_last() =~= one);
        if s.len() == 2 {
            let two = one.push(s[1]);
            assert(two.drop_last() =~= one);
        }
    }
}

/// A run asks for another change only once all outcomes are used up, and has
/// ended by the third.
pub proof fn plans_end(
    current: crate::brightness::DisplayInfoView,
    plan: BrightnessPlan,
    gamma_available: bool,
    outcomes: Seq<Result<(), Seq<char>>>,
    used: nat,
)
    requires
        used + 3 <= outcomes.len(),
    ensures
        plan_run(current, plan, gamma_available, outcomes, used).step is Done,
        used <= plan_run(current, plan, gamma_available, outcomes, used).used <= used + 3,
{
    plans_are_pairs(current, plan);
    reveal_with_fuel(making, 4);
    reveal_with_fuel(taking_back, 3);
}

/// Gamma brightnesses that are within rounding of each other do not differ, and
/// those that are twice as far apart do. What is no number differs from nothing.
pub proof fn differences_begin_beyond_rounding(a: Binary64, b: Binary64)
    ensures
        a.nan() || b.nan() ==> !differs(a, b),
        a.finite() && b.finite() ==> {
            let e = epsilon().value();
            &&& a.value() <= b.value() + e && b.value() <= a.value() + e ==> !differs(a, b)
            &&& a.value() >= b.value() + 2 * e ==> differs(a, b)
            &&& b.value() >= a.value() + 2 * e ==> differs(a, b)
        },
{
    crate::binary64::lemma_literals();
    let g = crate::binary64::gap(a.value(), b.value());
    let e = epsilon().size();
    let m = crate::rounding::rounded(g, 1);
    let top = epsilon().bits as nat;
    vstd::arithmetic::power2::lemma_pow2_pos(1022);
    assert(g * 1 == g);
    crate::rounding::rounding_respects_magnitudes(g, 1, top);
    if g >= 2 * e {
        // The first number beyond epsilon is less than twice as large.
        crate::rounding::next_magnitude(top);
        let width = vstd::arithmetic::power2::pow2(crate::rounding::step(top));
        let count = crate::rounding::significand(top);
        assert(width <= count * width) by (nonlinear_arith)
            requires
                count >= 1,
        ;
        assert(crate::rounding::units(top + 1) <= 2 * e);
        crate::rounding::rounding_respects_magnitudes(g, 1, top + 1);
        crate::rounding::units_increase(top, top + 1);
        if m > top + 1 {
            crate::rounding::units_increase(top + 1, m as nat);
        }
    } else if g <= e {
        if m < top {
            crate::rounding::units_increase(m as nat, top);
        }
    }
}

/// The changes that lead to a plan are those of the controls that show something
/// else than it wants, from what they show to what it wants.
pub proof fn plans_change_what_differs(
    current: crate::brightness::DisplayInfoView,
    plan: BrightnessPlan,
    change: Adjustment,
)
    ensures
        ordered(current, plan).contains(change) <==> match change {
            Adjustment::Ddc { from, to } => {
                &&& plan.hardware_percent == Some(to)
                &&& from == current.ddc_brightness
                &&& from != to
            },
            Adjustment::Gamma { from, to } => {
                &&& plan.gamma_brightness == Some(to)
                &&& from == current.gamma_brightness
                &&& differs(to, from)
            },
        },
{
    let w = wanted(current, plan);
    let s = ordered(current, plan);
    plans_are_pairs(current, plan);
    if s.contains(change) {
        let i = choose|i: int| 0 <= i < s.len() && s[i] == change;
        assert(w.contains(s[i]));
    }
    if w.contains(change) {
        crate::order::sorting_keeps_membership::<Adjustment>(w, change);
    }
    if let Adjustment::Ddc { from, to } = change {
        if plan.hardware_percent == Some(to) && from == current.ddc_brightness && from != to {
            assert(w[0] == change);
        }
    }
    if let Adjustment::Gamma { from, to } = change {
        if plan.gamma_brightness == Some(to) && from == current.gamma_brightness && differs(
            to,
            from,
        ) {
            assert(w[w.len() - 1] == change);
        }
    }
}

/// Of two changes, that of gamma is the first exactly where it takes light away.
pub proof fn gamma_dims_first_and_brightens_last(
    current: crate::brightness::DisplayInfoView,
    percent: u16,
    brightness: Binary64,
)
    requires
        percent != current.ddc_brightness,
        differs(brightness, current.gamma_brightness),
        !brightness.nan(),
        !current.gamma_brightness.nan(),
    ensures
        ({
            let plan = BrightnessPlan {
                hardware_percent: Some(percent),
                gamma_brightness: Some(brightness),
            };
            let ddc = Adjustment::Ddc { from: current.ddc_brightness, to: percent };
            let gamma = Adjustment::Gamma { from: current.gamma_brightness, to: brightness };
            &&& brightness.value() < current.gamma_brightness.value() ==> ordered(current, plan)
                == seq![gamma, ddc]
            &&& brightness.value() >= current.gamma_brightness.value() ==> ordered(current, plan)
                == seq![ddc, gamma]
        }),
{
    let plan = BrightnessPlan {
        hardware_percent: Some(percent),
        gamma_brightness: Some(brightness),
    };
    let s = ordered(current, plan);
    let w = wanted(current, plan);
    plans_are_pairs(current, plan);
    let ddc = Adjustment::Ddc { from: current.ddc_brightness, to: percent };
    let gamma = Adjustment::Gamma { from: current.gamma_brightness, to: brightness };
    assert(w[0] == ddc && w[1] == gamma && w.len() == 2);
    crate::order::sorting_keeps_the_values::<Adjustment>(w);
    let a = Adjustment::rank_of(s[0]);
    let b = Adjustment::rank_of(s[1]);
    assert(!crate::order::precedes(b, a));
    assert(a.len() == 1 && b.len() == 1);
    assert(a[0] == s[0].turn() && b[0] == s[1].turn());
    if brightness.value() < current.gamma_brightness.value() {
        assert(s =~= seq![gamma, ddc]);
    } else {
        assert(s =~= seq![ddc, gamma]);
    }
}

/// Changes take turns: gamma that dims, hardware that dims, hardware that
/// brightens, gamma that brightens.
pub proof fn changes_take_turns(
    less: u16,
    more: u16,
    low: Binary64,
    high: Binary64,
    level: u16,
    share: Binary64,
)
    requires
        less < more,
        !low.nan(),
        !high.nan(),
        !share.nan(),
        low.value() < high.value(),
    ensures
        (Adjustment::Gamma { from: high, to: low }).turn() < (Adjustment::Ddc {
            from: more,
            to: less,
        }).turn(),
        (Adjustment::Ddc { from: more, to: less }).turn() < (Adjustment::Ddc {
            from: less,
            to: more,
        }).turn(),
        (Adjustment::Ddc { from: less, to: more }).turn() < (Adjustment::Gamma {
            from: low,
            to: high,
        }).turn(),
        (Adjustment::Ddc { from: level, to: level }).turn() == (Adjustment::Ddc {
            from: less,
            to: more,
        }).turn(),
        (Adjustment::Gamma { from: share, to: share }).turn() == (Adjustment::Gamma {
            from: low,
            to: high,
        }).turn(),
{
}

/// A hardware change waits for its outcome and then goes by it. A gamma change
/// does too, where there is a connector and a backend; elsewhere it fails
/// without being tried.
pub proof fn changes_go_by_their_outcomes(
    connector: Seq<char>,
    gamma_available: bool,
    adjustment: Adjustment,
    outcomes: Seq<Result<(), Seq<char>>>,
    used: nat,
)
    ensures
        ({
            let known = attempt(connector, gamma_available, adjustment, outcomes, used);
            let possible = adjustment is Ddc || (connector.len() > 0 && gamma_available);
            &&& possible && used >= outcomes.len() ==> known is Pending
            &&& possible && used < outcomes.len() && outcomes[used as int] is Ok ==> known is Made
            &&& possible && used < outcomes.len() ==> (outcomes[used as int] matches Err(error)
                ==> known == AttemptView::Failed(
                match adjustment {
                    Adjustment::Ddc { .. } => "DDC write failed: "@ + error,
                    Adjustment::Gamma { .. } => "failed to update gamma for "@ + connector + ": "@
                        + error,
                },
            ))
            &&& adjustment is Gamma && connector.len() == 0 ==> known == AttemptView::Failed(
                "the display is not associated with a Wayland connector"@,
            )
            &&& adjustment is Gamma && connector.len() > 0 && !gamma_available ==> known
                == AttemptView::Failed("Wayland gamma backend is unavailable"@)
            &&& taken(connector, gamma_available, adjustment) == if possible {
                1nat
            } else {
                0nat
            }
        }),
{
}

/// A plan is carried out one change after the other. While every change is made,
/// the next one is asked for, and after the last one the plan has succeeded.
pub proof fn plans_make_one_change_after_the_other(
    current: crate::brightness::DisplayInfoView,
    plan: BrightnessPlan,
    gamma_available: bool,
    outcomes: Seq<Result<(), Seq<char>>>,
    used: nat,
)
    requires
        used <= outcomes.len(),
        forall|i: int| used <= i < outcomes.len() ==> (#[trigger] outcomes[i]) is Ok,
        plan.gamma_brightness is Some ==> current.connector.len() > 0 && gamma_available,
    ensures
        ({
            let changes = ordered(current, plan);
            let run = plan_run(current, plan, gamma_available, outcomes, used);
            &&& outcomes.len() < used + changes.len() ==> run.step == PlanStepView::Apply(
                changes[outcomes.len() - used],
            )
            &&& outcomes.len() >= used + changes.len() ==> run.step == PlanStepView::Done(Ok(()))
                && run.used == used + changes.len()
        }),
{
    let s = ordered(current, plan);
    plans_are_pairs(current, plan);
    assert forall|i: int| 0 <= i < s.len() implies plan.gamma_brightness is Some || (
    #[trigger] s[i]) is Ddc by {
        assert(wanted(current, plan).contains(s[i]));
    }
    reveal_with_fuel(making, 4);
}

/// Where the first change of a plan fails, nothing else is tried, and the plan
/// has failed for that reason.
pub proof fn plans_stop_at_a_failure(
    current: crate::brightness::DisplayInfoView,
    plan: BrightnessPlan,
    gamma_available: bool,
    outcomes: Seq<Result<(), Seq<char>>>,
    used: nat,
)
    requires
        ordered(current, plan).len() > 0,
        used < outcomes.len(),
        outcomes[used as int] is Err,
        ordered(current, plan)[0] is Gamma ==> current.connector.len() > 0 && gamma_available,
    ensures
        ({
            let error = outcomes[used as int]->Err_0;
            plan_run(current, plan, gamma_available, outcomes, used).step == PlanStepView::Done(
                Err(
                    match ordered(current, plan)[0] {
                        Adjustment::Ddc { .. } => "DDC write failed: "@ + error,
                        Adjustment::Gamma { .. } => "failed to update gamma for "@
                            + current.connector + ": "@ + error,
                    },
                ),
            )
        }),
{
    reveal_with_fuel(making, 2);
    reveal_with_fuel(taking_back, 2);
}

/// Where the second change of a plan fails, the first one is taken back: it is
/// asked for the other way round. The plan then has failed for the reason of the
/// second change, and the message adds what went wrong while the first was taken
/// back.
pub proof fn plans_take_back_what_they_made(
    current: crate::brightness::DisplayInfoView,
    plan: BrightnessPlan,
    outcomes: Seq<Result<(), Seq<char>>>,
    used: nat,
)
    requires
        ordered(current, plan).len() == 2,
        current.connector.len() > 0,
        used + 2 <= outcomes.len(),
        outcomes[used as int] is Ok,
        outcomes[used as int + 1] is Err,
    ensures
        ({
            let changes = ordered(current, plan);
            let step = plan_run(current, plan, true, outcomes, used).step;
            let error = outcomes[used as int + 1]->Err_0;
            let message = match changes[1] {
                Adjustment::Ddc { .. } => "DDC write failed: "@ + error,
                Adjustment::Gamma { .. } => "failed to update gamma for "@ + current.connector
                    + ": "@ + error,
            };
            &&& outcomes.len() == used + 2 ==> step == PlanStepView::Apply(
                match changes[0] {
                    Adjustment::Ddc { from, to } => Adjustment::Ddc { from: to, to: from },
                    Adjustment::Gamma { from, to } => Adjustment::Gamma { from: to, to: from },
                },
            )
            &&& outcomes.len() > used + 2 && outcomes[used as int + 2] is Ok ==> step
                == PlanStepView::Done(Err(message))
            &&& outcomes.len() > used + 2 ==> (outcomes[used as int + 2] matches Err(second) ==> step
                == PlanStepView::Done(
                Err(
                    message + "; rollback also failed: "@ + match changes[0] {
                        Adjustment::Ddc { .. } => "DDC write failed: "@ + second,
                        Adjustment::Gamma { .. } => "failed to update gamma for "@
                            + current.connector + ": "@ + second,
                    },
                ),
            ))
        }),
{
    reveal_with_fuel(making, 3);
    reveal_with_fuel(taking_back, 3);
    reveal_with_fuel(crate::text::joined, 2);
    let s = ordered(current, plan);
    if outcomes.len() > used + 2 {
        if let Err(second) = outcomes[used as int + 2] {
            let failure = adjustment_failure(current.connector, s[0].undone(), second);
            let failures = Seq::<Seq<char>>::empty().push(failure);
            assert(failures[0] == failure);
            assert(crate::text::joined(failures, "; "@) =~= failure);
        }
    }
}

/// A gamma change without a connector or a backend fails a plan without being
/// tried; a hardware change that was made before it is taken back.
pub proof fn plans_cannot_change_gamma_without_a_backend(
    current: crate::brightness::DisplayInfoView,
    plan: BrightnessPlan,
    gamma_available: bool,
    outcomes: Seq<Result<(), Seq<char>>>,
    used: nat,
)
    requires
        current.connector.len() == 0 || !gamma_available,
        plan.gamma_brightness is Some,
        differs(plan.gamma_brightness->Some_0, current.gamma_brightness),
    ensures
        ({
            let changes = ordered(current, plan);
            let step = plan_run(current, plan, gamma_available, outcomes, used).step;
            let message = if current.connector.len() == 0 {
                "the display is not associated with a Wayland connector"@
            } else {
                "Wayland gamma backend is unavailable"@
            };
            &&& changes[0] is Gamma ==> step == PlanStepView::Done(Err(message))
            &&& changes[0] matches Adjustment::Ddc { from, to } ==> {
                &&& outcomes.len() <= used ==> step == PlanStepView::Apply(changes[0])
                &&& outcomes.len() == used + 1 && outcomes[used as int] is Ok ==> step
                    == PlanStepView::Apply(Adjustment::Ddc { from: to, to: from })
                &&& outcomes.len() > used + 1 && outcomes[used as int] is Ok && outcomes[used as int + 1]
                    is Ok ==> step == PlanStepView::Done(Err(message))
            }
        }),
{
    let w = wanted(current, plan);
    let s = ordered(current, plan);
    plans_are_pairs(current, plan);
    assert(w[w.len() - 1] is Gamma);
    assert(w.contains(s[0]));
    reveal_with_fuel(making, 3);
    reveal_with_fuel(taking_back, 3);
}

} // verus!
