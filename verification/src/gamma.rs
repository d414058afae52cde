//! The Wayland gamma backend: which outputs there are, what is published of
//! them, and what is sent to the compositor.

use vstd::prelude::*;

use crate::binary64::{unity, Binary64};
use crate::brightness::gamma_table;
use crate::order::{push_text, sort, Ranked};
use crate::text::same_text;

verus! {

/// A Wayland output with an active gamma-control object.
#[derive(Debug)]
pub struct GammaOutput {
    /// Name advertised by `wl_output`, commonly a DRM connector such as `DP-1`.
    pub name: String,
    /// Number of entries in each of the red, green, and blue ramps.
    pub ramp_size: u32,
    /// Last brightness multiplier requested through this backend.
    pub brightness: Binary64,
}

/// What a `GammaOutput` says.
#[verifier::ext_equal]
pub struct GammaOutputView {
    pub name: Seq<char>,
    pub ramp_size: u32,
    pub brightness: Binary64,
}

impl View for GammaOutput {
    type V = GammaOutputView;

    open spec fn view(&self) -> GammaOutputView {
        GammaOutputView {
            name: self.name@,
            ramp_size: self.ramp_size,
            brightness: self.brightness,
        }
    }
}

impl Clone for GammaOutput {
    fn clone(&self) -> (r: Self)
        ensures
            r == *self,
    {
        GammaOutput {
            name: self.name.clone(),
            ramp_size: self.ramp_size,
            brightness: self.brightness,
        }
    }
}

/// Outputs are ordered by name.
impl Ranked for GammaOutput {
    open spec fn rank_of(v: GammaOutputView) -> Seq<u64> {
        crate::order::text_rank(v.name)
    }

    fn rank_key(&self) -> (k: Vec<u64>) {
        let mut k: Vec<u64> = Vec::new();
        push_text(&mut k, self.name.as_str());
        assert(k@ =~= Self::rank_of(self@));
        k
    }
}

/// An output that the worker has bound. The compositor's objects are known by
/// their numbers.
#[derive(Debug)]
pub struct ManagedOutput {
    /// Name of the global in the registry.
    pub registry_name: u32,
    /// The `wl_output` object.
    pub wl_output: u32,
    /// The gamma-control object.
    pub gamma_control: u32,
    /// Name, once it has been advertised.
    pub name: Option<String>,
    /// Ramp size, once it has been advertised.
    pub ramp_size: Option<u32>,
    /// Last brightness multiplier that was sent.
    pub brightness: Binary64,
    /// Whether the gamma control still works.
    pub active: bool,
}

/// What a `ManagedOutput` says.
#[verifier::ext_equal]
pub struct ManagedOutputView {
    pub registry_name: u32,
    pub wl_output: u32,
    pub gamma_control: u32,
    pub name: Option<Seq<char>>,
    pub ramp_size: Option<u32>,
    pub brightness: Binary64,
    pub active: bool,
}

impl View for ManagedOutput {
    type V = ManagedOutputView;

    open spec fn view(&self) -> ManagedOutputView {
        ManagedOutputView {
            registry_name: self.registry_name,
            wl_output: self.wl_output,
            gamma_control: self.gamma_control,
            name: crate::model::seen(self.name),
            ramp_size: self.ramp_size,
            brightness: self.brightness,
            active: self.active,
        }
    }
}

/// What to give back to the compositor for an output that is gone.
#[derive(Debug, Clone, Copy, PartialEq, Eq, Structural)]
pub struct Release {
    /// The gamma control to destroy, unless that was done before.
    pub gamma_control: Option<u32>,
    /// The output to release.
    pub wl_output: u32,
}

impl View for Release {
    type V = Release;

    open spec fn view(&self) -> Release {
        *self
    }
}

impl ManagedOutputView {
    /// What is published of an output: nothing before its name and its ramp
    /// size are known, nor once its control has failed.
    pub open spec fn published(self) -> Option<GammaOutputView> {
        match (self.active, self.name, self.ramp_size) {
            (true, Some(name), Some(ramp_size)) => Some(
                GammaOutputView { name, ramp_size, brightness: self.brightness },
            ),
            _ => None,
        }
    }

    /// What to give back for the output.
    pub open spec fn released(self) -> Release {
        Release {
            gamma_control: if self.active {
                Some(self.gamma_control)
            } else {
                None
            },
            wl_output: self.wl_output,
        }
    }
}

/// An output just bound: nothing is known of it, and its light is not
/// attenuated.
pub open spec fn bound(registry_name: u32, wl_output: u32, gamma_control: u32) -> ManagedOutputView {
    ManagedOutputView {
        registry_name,
        wl_output,
        gamma_control,
        name: None,
        ramp_size: None,
        brightness: unity(),
        active: true,
    }
}

impl ManagedOutput {
    /// An output just bound.
    pub fn bind(registry_name: u32, wl_output: u32, gamma_control: u32) -> (r: Self)
        ensures
            r@ == bound(registry_name, wl_output, gamma_control),
    {
        ManagedOutput {
            registry_name,
            wl_output,
            gamma_control,
            name: None,
            ramp_size: None,
            brightness: unity(),
            active: true,
        }
    }

    /// What is published of the output.
    pub fn snapshot(&self) -> (r: Option<GammaOutput>)
        ensures
            crate::model::seen(r) == self@.published(),
    {
        if !self.active {
            return None;
        }
        match (&self.name, self.ramp_size) {
            (Some(name), Some(ramp_size)) => Some(
                GammaOutput { name: name.clone(), ramp_size, brightness: self.brightness },
            ),
            _ => None,
        }
    }

    /// What to give back for the output.
    pub fn destroy(self) -> (r: Release)
        ensures
            r == self@.released(),
    {
        Release {
            gamma_control: if self.active {
                Some(self.gamma_control)
            } else {
                None
            },
            wl_output: self.wl_output,
        }
    }
}

/// What is published of outputs, in their order.
pub open spec fn all_published(outputs: Seq<ManagedOutputView>) -> Seq<GammaOutputView>
    decreases outputs.len(),
{
    if outputs.len() == 0 {
        Seq::empty()
    } else {
        let front = all_published(outputs.drop_last());
        match outputs.last().published() {
            Some(output) => front.push(output),
            None => front,
        }
    }
}

/// State of the Wayland gamma worker.
#[derive(Debug)]
pub struct GammaBackend {
    outputs: Vec<ManagedOutput>,
    cache: Vec<GammaOutput>,
    failed_outputs: bool,
    dirty: bool,
    running: bool,
}

/// What a `GammaBackend` says.
#[verifier::ext_equal]
pub struct GammaBackendView {
    /// The outputs that the worker has bound.
    pub outputs: Seq<ManagedOutputView>,
    /// What was last published of them.
    pub cache: Seq<GammaOutputView>,
    /// Whether a gamma control was refused or taken away.
    pub failed_outputs: bool,
    /// Whether something has changed since it was published.
    pub dirty: bool,
    /// Whether the worker runs.
    pub running: bool,
}

impl View for GammaBackend {
    type V = GammaBackendView;

    closed spec fn view(&self) -> GammaBackendView {
        GammaBackendView {
            outputs: crate::model::views(self.outputs@),
            cache: crate::model::views(self.cache@),
            failed_outputs: self.failed_outputs,
            dirty: self.dirty,
            running: self.running,
        }
    }
}

impl GammaBackendView {
    /// The state after what changed has been published, in the order of the
    /// names.
    pub open spec fn after_publishing(self) -> GammaBackendView {
        if self.dirty {
            GammaBackendView {
                cache: crate::order::stably_sorted::<GammaOutput>(all_published(self.outputs)),
                dirty: false,
                ..self
            }
        } else {
            self
        }
    }
}

/// Whether an output belongs to a global of the registry.
pub open spec fn has_registry_name(registry_name: u32) -> spec_fn(ManagedOutputView) -> bool {
    |output: ManagedOutputView| output.registry_name == registry_name
}

/// Whether an output is a `wl_output` object.
pub open spec fn has_wl_output(wl_output: u32) -> spec_fn(ManagedOutputView) -> bool {
    |output: ManagedOutputView| output.wl_output == wl_output
}

/// Whether an output has a gamma control.
pub open spec fn has_gamma_control(gamma_control: u32) -> spec_fn(ManagedOutputView) -> bool {
    |output: ManagedOutputView| output.gamma_control == gamma_control
}

/// Whether an output can be addressed by a name.
pub open spec fn answers_to(name: Seq<char>) -> spec_fn(ManagedOutputView) -> bool {
    |output: ManagedOutputView| output.active && output.name == Some(name)
}

/// What the compositor says about a gamma control.
#[derive(Debug, Clone, Copy, PartialEq, Eq, Structural)]
pub enum GammaEvent {
    /// How many entries a ramp has.
    GammaSize(u32),
    /// The control was rejected or is owned by another client.
    Failed,
}

/// An output after the compositor has said something about its control.
pub open spec fn told(output: ManagedOutputView, event: GammaEvent) -> ManagedOutputView {
    match event {
        GammaEvent::GammaSize(size) => ManagedOutputView { ramp_size: Some(size), ..output },
        GammaEvent::Failed => ManagedOutputView { active: false, ramp_size: None, ..output },
    }
}

/// A list without the value at `i`, whose place the last value takes.
pub open spec fn swap_removed<T>(s: Seq<T>, i: int) -> Seq<T> {
    s.update(i, s.last()).drop_last()
}

fn is_named(known: &Option<String>, name: &str) -> (r: bool)
    ensures
        r == (crate::model::seen(*known) == Some(name@)),
{
    match known {
        Some(text) => same_text(text.as_str(), name),
        None => false,
    }
}

impl GammaBackend {
    /// State of a worker that has just connected to the compositor.
    pub fn connect() -> (r: Self)
        ensures
            r@ == (GammaBackendView {
                outputs: Seq::empty(),
                cache: Seq::empty(),
                failed_outputs: false,
                dirty: true,
                running: true,
            }),
    {
        let r = GammaBackend {
            outputs: Vec::new(),
            cache: Vec::new(),
            failed_outputs: false,
            dirty: true,
            running: true,
        };
        assert(r@.outputs =~= Seq::empty());
        assert(r@.cache =~= Seq::empty());
        r
    }

    /// Return the latest output snapshot without Wayland I/O.
    pub fn outputs(&self) -> (r: Vec<GammaOutput>)
        ensures
            crate::model::views(r@) == self@.cache,
    {
        let mut out: Vec<GammaOutput> = Vec::new();
        for i in 0..self.cache.len()
            invariant
                crate::model::views(out@) =~= self@.cache.take(i as int),
        {
            let output = self.cache[i].clone();
            proof {
                crate::model::views_push(out@, output);
            }
            out.push(output);
        }
        assert(crate::model::views(out@) =~= self@.cache);
        out
    }

    /// Return whether the worker is still alive.
    pub fn is_running(&self) -> (r: bool)
        ensures
            r == self@.running,
    {
        self.running
    }

    /// Return whether the worker or one of its per-output controls must be
    /// recreated. A compositor reports `failed` when another client already
    /// owns an output; reconnecting after that client exits is the only retry.
    pub fn needs_reconnect(&self) -> (r: bool)
        ensures
            r == (!self@.running || self@.failed_outputs),
    {
        !self.is_running() || self.failed_outputs
    }

    /// Return the latest automatically maintained output snapshot.
    ///
    /// Hotplug is driven by registry events, so refresh itself never waits for
    /// a compositor roundtrip.
    pub fn refresh(&self) -> (r: Vec<GammaOutput>)
        ensures
            crate::model::views(r@) == self@.cache,
    {
        self.outputs()
    }

    /// The position of the output that belongs to a global.
    fn registry_position(&self, registry_name: u32) -> (r: Option<usize>)
        ensures
            match r {
                Some(i) => i < self@.outputs.len() && crate::model::first_where(
                    self@.outputs,
                    has_registry_name(registry_name),
                ) == Some(i as int),
                None => crate::model::first_where(self@.outputs, has_registry_name(registry_name)) is None,
            },
    {
        let ghost all = self@.outputs;
        for i in 0..self.outputs.len()
            invariant
                all == self@.outputs,
                forall|j: int| 0 <= j < i ==> !has_registry_name(registry_name)(#[trigger] all[j]),
        {
            assert(all[i as int] == self.outputs@[i as int]@);
            if self.outputs[i].registry_name == registry_name {
                proof {
                    assert(has_registry_name(registry_name)(all[i as int]));
                    crate::model::first_is_unique(all, has_registry_name(registry_name), i as int);
                }
                return Some(i);
            }
        }
        proof {
            crate::model::first_exists(all, has_registry_name(registry_name));
        }
        None
    }

    /// The position of the output that is a `wl_output` object.
    fn wl_output_position(&self, wl_output: u32) -> (r: Option<usize>)
        ensures
            match r {
                Some(i) => i < self@.outputs.len() && crate::model::first_where(
                    self@.outputs,
                    has_wl_output(wl_output),
                ) == Some(i as int),
                None => crate::model::first_where(self@.outputs, has_wl_output(wl_output)) is None,
            },
    {
        let ghost all = self@.outputs;
        for i in 0..self.outputs.len()
            invariant
                all == self@.outputs,
                forall|j: int| 0 <= j < i ==> !has_wl_output(wl_output)(#[trigger] all[j]),
        {
            assert(all[i as int] == self.outputs@[i as int]@);
            if self.outputs[i].wl_output == wl_output {
                proof {
                    assert(has_wl_output(wl_output)(all[i as int]));
                    crate::model::first_is_unique(all, has_wl_output(wl_output), i as int);
                }
                return Some(i);
            }
        }
        proof {
            crate::model::first_exists(all, has_wl_output(wl_output));
        }
        None
    }

    /// The position of the output that has a gamma control.
    fn control_position(&self, gamma_control: u32) -> (r: Option<usize>)
        ensures
            match r {
                Some(i) => i < self@.outputs.len() && crate::model::first_where(
                    self@.outputs,
                    has_gamma_control(gamma_control),
                ) == Some(i as int),
                None => crate::model::first_where(self@.outputs, has_gamma_control(gamma_control)) is None,
            },
    {
        let ghost all = self@.outputs;
        for i in 0..self.outputs.len()
            invariant
                all == self@.outputs,
                forall|j: int| 0 <= j < i ==> !has_gamma_control(gamma_control)(#[trigger] all[j]),
        {
            assert(all[i as int] == self.outputs@[i as int]@);
            if self.outputs[i].gamma_control == gamma_control {
                proof {
                    assert(has_gamma_control(gamma_control)(all[i as int]));
                    crate::model::first_is_unique(all, has_gamma_control(gamma_control), i as int);
                }
                return Some(i);
            }
        }
        proof {
            crate::model::first_exists(all, has_gamma_control(gamma_control));
        }
        None
    }

    /// The position of the output that can be addressed by a name.
    fn named_position(&self, name: &str) -> (r: Option<usize>)
        ensures
            match r {
                Some(i) => i < self@.outputs.len() && crate::model::first_where(
                    self@.outputs,
                    answers_to(name@),
                ) == Some(i as int),
                None => crate::model::first_where(self@.outputs, answers_to(name@)) is None,
            },
    {
        let ghost all = self@.outputs;
        for i in 0..self.outputs.len()
            invariant
                all == self@.outputs,
                forall|j: int| 0 <= j < i ==> !answers_to(name@)(#[trigger] all[j]),
        {
            assert(all[i as int] == self.outputs@[i as int]@);
            if self.outputs[i].active && is_named(&self.outputs[i].name, name) {
                proof {
                    assert(answers_to(name@)(all[i as int]));
                    crate::model::first_is_unique(all, answers_to(name@), i as int);
                }
                return Some(i);
            }
        }
        proof {
            crate::model::first_exists(all, answers_to(name@));
        }
        None
    }

    /// Takes in an output that the worker has bound.
    pub fn output_added(&mut self, output: ManagedOutput)
        ensures
            final(self)@ == (GammaBackendView {
                outputs: old(self)@.outputs.push(output@),
                dirty: true,
                ..old(self)@
            }),
    {
        proof {
            crate::model::views_push(self.outputs@, output);
        }
        self.outputs.push(output);
        self.dirty = true;
    }

    /// Drops the output of a global that is gone, and says what to give back.
    pub fn output_removed(&mut self, registry_name: u32) -> (r: Option<Release>)
        ensures
            match crate::model::first_where(
                old(self)@.outputs,
                has_registry_name(registry_name),
            ) {
                Some(i) => {
                    &&& r == Some(old(self)@.outputs[i].released())
                    &&& final(self)@ == (GammaBackendView {
                        outputs: swap_removed(old(self)@.outputs, i),
                        dirty: true,
                        ..old(self)@
                    })
                },
                None => r is None && final(self)@ == old(self)@,
            },
    {
        let ghost before = self@.outputs;
        match self.registry_position(registry_name) {
            Some(i) => {
                let output = self.outputs.swap_remove(i);
                self.dirty = true;
                assert(self@.outputs =~= swap_removed(before, i as int));
                assert(output@ == before[i as int]);
                Some(output.destroy())
            },
            None => None,
        }
    }

    /// Notes the name that a `wl_output` has advertised.
    pub fn output_event(&mut self, wl_output: u32, name: String)
        ensures
            match crate::model::first_where(old(self)@.outputs, has_wl_output(wl_output)) {
                Some(i) => final(self)@ == (GammaBackendView {
                    outputs: old(self)@.outputs.update(
                        i,
                        ManagedOutputView { name: Some(name@), ..old(self)@.outputs[i] },
                    ),
                    dirty: true,
                    ..old(self)@
                }),
                None => final(self)@ == old(self)@,
            },
    {
        let ghost before = self@.outputs;
        let ghost text = name@;
        if let Some(i) = self.wl_output_position(wl_output) {
            self.outputs[i].name = Some(name);
            self.dirty = true;
            assert(self@.outputs =~= before.update(
                i as int,
                ManagedOutputView { name: Some(text), ..before[i as int] },
            ));
        }
    }

    /// Notes what the compositor says about a gamma control. The result says
    /// whether the control is to be destroyed.
    pub fn gamma_event(&mut self, gamma_control: u32, event: GammaEvent) -> (r: bool)
        ensures
            match crate::model::first_where(
                old(self)@.outputs,
                has_gamma_control(gamma_control),
            ) {
                Some(i) => {
                    &&& r == (event == GammaEvent::Failed)
                    &&& final(self)@ == (GammaBackendView {
                        outputs: old(self)@.outputs.update(i, told(old(self)@.outputs[i], event)),
                        failed_outputs: old(self)@.failed_outputs || event == GammaEvent::Failed,
                        dirty: true,
                        ..old(self)@
                    })
                },
                None => !r && final(self)@ == old(self)@,
            },
    {
        let ghost before = self@.outputs;
        let i = match self.control_position(gamma_control) {
            Some(i) => i,
            None => return false,
        };
        let destroy = match event {
            GammaEvent::GammaSize(size) => {
                self.outputs[i].ramp_size = Some(size);
                false
            },
            GammaEvent::Failed => {
                self.outputs[i].active = false;
                self.outputs[i].ramp_size = None;
                self.failed_outputs = true;
                true
            },
        };
        self.dirty = true;
        assert(self@.outputs =~= before.update(i as int, told(before[i as int], event)));
        destroy
    }

    /// Publishes the outputs, in the order of their names, if something has
    /// changed.
    pub fn publish_outputs(&mut self)
        ensures
            final(self)@ == old(self)@.after_publishing(),
    {
        if !self.dirty {
            return;
        }
        let ghost all = self@.outputs;
        let mut found: Vec<GammaOutput> = Vec::new();
        assert(crate::model::views(found@) =~= all_published(all.take(0)));
        let count = self.outputs.len();
        for i in 0..count
            invariant
                self@ == old(self)@,
                all == self@.outputs,
                count == all.len(),
                crate::model::views(found@) == all_published(all.take(i as int)),
        {
            assert(all.take(i + 1).drop_last() =~= all.take(i as int));
            assert(all.take(i + 1).last() == self.outputs@[i as int]@);
            if let Some(output) = self.outputs[i].snapshot() {
                proof {
                    crate::model::views_push(found@, output);
                }
                found.push(output);
            }
        }
        assert(all.take(all.len() as int) =~= all);
        self.cache = sort(found);
        self.dirty = false;
    }

    /// The worker stops by request: what to give back to the compositor.
    pub fn shutdown(&mut self) -> (r: Vec<Release>)
        ensures
            r@ == Seq::new(
                old(self)@.outputs.len(),
                |i: int| old(self)@.outputs[i].released(),
            ),
            final(self)@ == (GammaBackendView {
                outputs: Seq::empty(),
                running: false,
                ..old(self)@
            }),
    {
        let ghost all = self@.outputs;
        let mut out: Vec<Release> = Vec::new();
        while self.outputs.len() > 0
            invariant
                out@.len() + self.outputs@.len() == all.len(),
                crate::model::views(self.outputs@) == all.skip(out@.len() as int),
                forall|i: int| 0 <= i < out@.len() ==> #[trigger] out@[i] == all[i].released(),
                self@.cache == old(self)@.cache,
                self@.failed_outputs == old(self)@.failed_outputs,
                self@.dirty == old(self)@.dirty,
            decreases self.outputs@.len(),
        {
            let ghost rest = self.outputs@;
            assert(crate::model::views(rest)[0] == rest[0]@);
            assert(all.skip(out@.len() as int)[0] == all[out@.len() as int]);
            let output = self.outputs.remove(0);
            assert(crate::model::views(self.outputs@) =~= crate::model::views(rest).skip(1));
            assert(all.skip(out@.len() as int).skip(1) =~= all.skip((out@.len() + 1) as int));
            out.push(output.destroy());
        }
        self.running = false;
        assert(self@.outputs =~= Seq::empty());
        assert(out@ =~= Seq::new(all.len(), |i: int| all[i].released()));
        out
    }

    /// The worker has stopped on an error: nothing can be controlled any more.
    pub fn lost(&mut self)
        ensures
            final(self)@ == (GammaBackendView {
                cache: Seq::empty(),
                running: false,
                ..old(self)@
            }),
    {
        self.cache = Vec::new();
        self.running = false;
        assert(self@.cache =~= Seq::empty());
    }
}

/// The bytes of 16-bit words, the low byte of each first.
pub open spec fn little_endian(words: Seq<u16>) -> Seq<u8> {
    Seq::new(
        2 * words.len(),
        |i: int|
            if i % 2 == 0 {
                (words[i / 2] % 256) as u8
            } else {
                (words[i / 2] / 256) as u8
            },
    )
}

/// The bytes of 16-bit words, the high byte of each first.
pub open spec fn big_endian(words: Seq<u16>) -> Seq<u8> {
    Seq::new(
        2 * words.len(),
        |i: int|
            if i % 2 == 0 {
                (words[i / 2] / 256) as u8
            } else {
                (words[i / 2] % 256) as u8
            },
    )
}

/// The bytes of 16-bit words in the byte order of the machine.
pub open spec fn native_endian(words: Seq<u16>) -> Seq<u8> {
    match vstd::endian::endianness() {
        vstd::endian::Endian::Little => little_endian(words),
        vstd::endian::Endian::Big => big_endian(words),
    }
}

/// Whether bytes are those of 16-bit words in the byte order of the machine.
pub open spec fn carries(bytes: Seq<u8>, words: Seq<u16>) -> bool {
    bytes == native_endian(words)
}

/// `bytemuck::cast_slice` from `u16` to `u8`: the bytes of the words one after
/// the other, as they stand in memory, so that the byte order within a word is
/// the machine's own.
#[verifier::external_body]
fn native_bytes(words: &[u16]) -> (r: Vec<u8>)
    ensures
        r@ == native_endian(words@),
{
    bytemuck::cast_slice::<u16, u8>(words).to_vec()
}

/// The contents of the file that carries a gamma table to the compositor.
pub fn gamma_file(table: &[u16]) -> (r: Vec<u8>)
    ensures
        r@ == native_endian(table@),
        r@.len() == 2 * table@.len(),
{
    native_bytes(table)
}

/// What came of handing a gamma table to the compositor.
#[derive(Debug)]
pub enum Delivery {
    /// It was sent.
    Sent,
    /// The file could not be made.
    NotPrepared(String),
    /// The request could not be sent.
    NotSent(String),
}

/// What a `Delivery` says.
pub enum DeliveryView {
    Sent,
    NotPrepared(Seq<char>),
    NotSent(Seq<char>),
}

impl View for Delivery {
    type V = DeliveryView;

    open spec fn view(&self) -> DeliveryView {
        match *self {
            Delivery::Sent => DeliveryView::Sent,
            Delivery::NotPrepared(error) => DeliveryView::NotPrepared(error@),
            Delivery::NotSent(error) => DeliveryView::NotSent(error@),
        }
    }
}

/// What to do next to set the brightness of an output.
#[derive(Debug)]
pub enum GammaStep {
    /// Send a file with these contents to this gamma control.
    Send { gamma_control: u32, contents: Vec<u8> },
    /// Nothing more: this is what came of it.
    Done(Result<GammaOutput, String>),
}

/// What a `GammaStep` says, with the table in place of the file.
pub enum GammaStepView {
    Send { gamma_control: u32, table: Seq<u16> },
    Done(Result<GammaOutputView, Seq<char>>),
}

/// Whether a step is the one described.
pub open spec fn carries_out(step: GammaStep, described: GammaStepView) -> bool {
    match (step, described) {
        (
            GammaStep::Send { gamma_control, contents },
            GammaStepView::Send { gamma_control: control, table },
        ) => gamma_control == control && carries(contents@, table),
        (GammaStep::Done(result), GammaStepView::Done(expected)) => crate::model::known(result)
            == expected,
        _ => false,
    }
}

/// What follows when the output `name` is set to a brightness, given what came
/// of handing over the table, and what becomes of the worker's state.
pub open spec fn gamma_step(
    state: GammaBackendView,
    name: Seq<char>,
    brightness: Binary64,
    delivery: Option<DeliveryView>,
) -> (GammaStepView, GammaBackendView) {
    if !brightness.fraction() {
        (
            GammaStepView::Done(
                Err("gamma brightness must be finite and between 0.0 and 1.0"@),
            ),
            state,
        )
    } else {
        match crate::model::first_where(state.outputs, answers_to(name)) {
            None => (
                GammaStepView::Done(Err("unknown or unsupported Wayland output "@ + name)),
                state,
            ),
            Some(i) => {
                let output = state.outputs[i];
                match output.ramp_size {
                    None => (
                        GammaStepView::Done(
                            Err("gamma ramp size is not available for "@ + name),
                        ),
                        state,
                    ),
                    Some(size) => if size < 2 {
                        (
                            GammaStepView::Done(
                                Err(
                                    "invalid gamma table: "@
                                        + crate::brightness::BrightnessError::InvalidRampSize.message_text(),
                                ),
                            ),
                            state,
                        )
                    } else {
                        match delivery {
                            None => (
                                GammaStepView::Send {
                                    gamma_control: output.gamma_control,
                                    table: crate::brightness::three_ramps(size as nat, brightness),
                                },
                                state,
                            ),
                            Some(DeliveryView::NotPrepared(error)) => (
                                GammaStepView::Done(Err(error)),
                                state,
                            ),
                            Some(DeliveryView::NotSent(error)) => (
                                GammaStepView::Done(
                                    Err("failed to send gamma table for "@ + name + ": "@ + error),
                                ),
                                state,
                            ),
                            Some(DeliveryView::Sent) => (
                                GammaStepView::Done(
                                    Ok(GammaOutputView { name, ramp_size: size, brightness }),
                                ),
                                GammaBackendView {
                                    outputs: state.outputs.update(
                                        i,
                                        ManagedOutputView { brightness, ..output },
                                    ),
                                    dirty: true,
                                    ..state
                                }.after_publishing(),
                            ),
                        }
                    },
                }
            },
        }
    }
}

/// Checks a gamma brightness before it is handed to the worker.
pub fn check_gamma_brightness(brightness: Binary64) -> (r: Result<(), String>)
    ensures
        r is Ok <==> brightness.fraction(),
        r matches Err(message) ==> message@
            == "gamma brightness must be finite and between 0.0 and 1.0"@,
{
    if brightness.is_fraction() {
        Ok(())
    } else {
        Err("gamma brightness must be finite and between 0.0 and 1.0".to_owned())
    }
}

impl GammaBackend {
    /// The next step of applying a software brightness multiplier to one named
    /// Wayland output, given what came of handing over the table.
    pub fn set_brightness(
        &mut self,
        name: &str,
        brightness: Binary64,
        delivery: Option<Delivery>,
    ) -> (r: GammaStep)
        ensures
            carries_out(
                r,
                gamma_step(old(self)@, name@, brightness, crate::model::seen(delivery)).0,
            ),
            final(self)@ == gamma_step(
                old(self)@,
                name@,
                brightness,
                crate::model::seen(delivery),
            ).1,
    {
        if let Err(message) = check_gamma_brightness(brightness) {
            return GammaStep::Done(Err(message));
        }
        let i = match self.named_position(name) {
            Some(i) => i,
            None => {
                return GammaStep::Done(
                    Err("unknown or unsupported Wayland output ".to_owned().concat(name)),
                );
            },
        };
        let ghost before = self@.outputs;
        proof {
            crate::model::first_exists(before, answers_to(name@));
            assert(before[i as int] == self.outputs@[i as int]@);
        }
        let size = match self.outputs[i].ramp_size {
            Some(size) => size,
            None => {
                return GammaStep::Done(
                    Err("gamma ramp size is not available for ".to_owned().concat(name)),
                );
            },
        };
        let table = match gamma_table(size as usize, brightness) {
            Ok(table) => table,
            Err(error) => {
                return GammaStep::Done(
                    Err("invalid gamma table: ".to_owned().concat(error.message().as_str())),
                );
            },
        };
        match delivery {
            None => GammaStep::Send {
                gamma_control: self.outputs[i].gamma_control,
                contents: gamma_file(table.as_slice()),
            },
            Some(Delivery::NotPrepared(error)) => GammaStep::Done(Err(error)),
            Some(Delivery::NotSent(error)) => GammaStep::Done(
                Err(
                    "failed to send gamma table for ".to_owned().concat(name).concat(": ").concat(
                        error.as_str(),
                    ),
                ),
            ),
            Some(Delivery::Sent) => {
                self.outputs[i].brightness = brightness;
                self.dirty = true;
                assert(self@.outputs =~= before.update(
                    i as int,
                    ManagedOutputView { brightness, ..before[i as int] },
                ));
                let shown = match self.outputs[i].snapshot() {
                    Some(shown) => shown,
                    None => {
                        return GammaStep::Done(
                            Err(
                                "Wayland output ".to_owned().concat(name).concat(
                                    " became unavailable",
                                ),
                            ),
                        );
                    },
                };
                self.publish_outputs();
                GammaStep::Done(Ok(shown))
            },
        }
    }
}

/// Whether what is published is what there is, unless a change is waiting.
pub open spec fn up_to_date(state: GammaBackendView) -> bool {
    !state.dirty ==> state.cache == crate::order::stably_sorted::<GammaOutput>(
        all_published(state.outputs),
    )
}

/// What is published of an output is published of all, and nothing else is.
pub proof fn only_working_outputs_are_published(
    outputs: Seq<ManagedOutputView>,
    shown: GammaOutputView,
)
    ensures
        all_published(outputs).contains(shown) <==> exists|i: int|
            0 <= i < outputs.len() && #[trigger] outputs[i].published() == Some(shown),
    decreases outputs.len(),
{
    if outputs.len() > 0 {
        let front = outputs.drop_last();
        let last = outputs.len() - 1;
        only_working_outputs_are_published(front, shown);
        let before = all_published(front);
        let all = all_published(outputs);
        if all.contains(shown) {
            let k = choose|k: int| 0 <= k < all.len() && all[k] == shown;
            if k < before.len() {
                assert(before.contains(before[k]));
                let i = choose|i: int|
                    0 <= i < front.len() && #[trigger] front[i].published() == Some(shown);
                assert(outputs[i].published() == Some(shown));
            } else {
                assert(outputs[last].published() == Some(shown));
            }
        }
        if exists|i: int|
            0 <= i < outputs.len() && #[trigger] outputs[i].published() == Some(shown) {
            let i = choose|i: int|
                0 <= i < outputs.len() && #[trigger] outputs[i].published() == Some(shown);
            if i < last {
                assert(front[i].published() == Some(shown));
                let k = choose|k: int| 0 <= k < before.len() && before[k] == shown;
                assert(all[k] == shown);
            } else {
                assert(all[before.len() as int] == shown);
            }
        }
    }
}

/// What is published stands in the order of the names.
pub proof fn published_outputs_are_in_order(state: GammaBackendView)
    requires
        up_to_date(state),
    ensures
        up_to_date(state.after_publishing()),
        !state.after_publishing().dirty,
        crate::order::in_order::<GammaOutput>(state.after_publishing().cache),
{
    crate::order::sorting_keeps_the_values::<GammaOutput>(all_published(state.outputs));
}

/// A gamma control that has failed is published no more, and stays so whatever
/// size is advertised for it later.
pub proof fn failed_outputs_are_not_published(output: ManagedOutputView, later: GammaEvent)
    ensures
        told(output, GammaEvent::Failed).published() is None,
        told(told(output, GammaEvent::Failed), later).published() is None,
{
}

/// Setting a brightness that is refused, or that could not be delivered,
/// changes nothing; one that was delivered is published.
pub proof fn delivered_brightness_is_published(
    state: GammaBackendView,
    name: Seq<char>,
    brightness: Binary64,
    delivery: Option<DeliveryView>,
)
    requires
        up_to_date(state),
    ensures
        ({
            let (step, after) = gamma_step(state, name, brightness, delivery);
            &&& up_to_date(after)
            &&& step is Send ==> after == state
            &&& step matches GammaStepView::Done(Err(_)) ==> after == state
            &&& step matches GammaStepView::Done(Ok(shown)) ==> {
                &&& shown.name == name
                &&& shown.brightness == brightness
                &&& after.cache.contains(shown)
            }
        }),
{
    let (step, after) = gamma_step(state, name, brightness, delivery);
    if let GammaStepView::Done(Ok(shown)) = step {
        crate::model::first_exists(state.outputs, answers_to(name));
        let i = crate::model::first_where(state.outputs, answers_to(name))->Some_0;
        assert(answers_to(name)(state.outputs[i]));
        assert(after.outputs[i].published() == Some(shown));
        only_working_outputs_are_published(after.outputs, shown);
        crate::order::sorting_keeps_membership::<GammaOutput>(
            all_published(after.outputs),
            shown,
        );
    }
}

/// Whether no two outputs share a name.
pub open spec fn differently_named(outputs: Seq<GammaOutputView>) -> bool {
    forall|i: int, j: int|
        0 <= i < j < outputs.len() ==> (#[trigger] outputs[i]).name != (#[trigger] outputs[j]).name
}

/// What is published of outputs once the one called `name` has another
/// brightness.
pub open spec fn delivered(
    outputs: Seq<GammaOutputView>,
    name: Seq<char>,
    brightness: Binary64,
) -> Seq<GammaOutputView> {
    Seq::new(
        outputs.len(),
        |i: int|
            if outputs[i].name == name {
                GammaOutputView { brightness, ..outputs[i] }
            } else {
                outputs[i]
            },
    )
}

proof fn lemma_one_republished(
    outputs: Seq<ManagedOutputView>,
    i: int,
    brightness: Binary64,
) -> (m: int)
    requires
        0 <= i < outputs.len(),
        outputs[i].published() is Some,
    ensures
        0 <= m < all_published(outputs).len(),
        outputs[i].published() == Some(all_published(outputs)[m]),
        all_published(
            outputs.update(i, ManagedOutputView { brightness, ..outputs[i] }),
        ) == all_published(outputs).update(
            m,
            GammaOutputView { brightness, ..all_published(outputs)[m] },
        ),
    decreases outputs.len(),
{
    let after = outputs.update(i, ManagedOutputView { brightness, ..outputs[i] });
    let front = outputs.drop_last();
    let all = all_published(outputs);
    let before = all_published(front);
    if i == outputs.len() - 1 {
        assert(after.drop_last() =~= front);
        let m = before.len() as int;
        assert(all_published(after) =~= all.update(
            m,
            GammaOutputView { brightness, ..all[m] },
        ));
        m
    } else {
        assert(after.drop_last() =~= front.update(
            i,
            ManagedOutputView { brightness, ..front[i] },
        ));
        assert(after.last() == outputs.last());
        let m = lemma_one_republished(front, i, brightness);
        assert(all[m] == before[m]);
        assert(all_published(after) =~= all.update(
            m,
            GammaOutputView { brightness, ..all[m] },
        ));
        m
    }
}

/// What is published under different names stands in the cache under different
/// names.
pub proof fn cached_outputs_are_differently_named(state: GammaBackendView)
    requires
        up_to_date(state),
        !state.dirty,
        differently_named(all_published(state.outputs)),
    ensures
        differently_named(state.cache),
{
    let all = all_published(state.outputs);
    let p = crate::order::sorting_permutes::<GammaOutput>(all);
    assert forall|i: int, j: int| 0 <= i < j < state.cache.len() implies (
    #[trigger] state.cache[i]).name != (#[trigger] state.cache[j]).name by {
        assert(p[i] != p[j]);
        if p[i] < p[j] {
            assert(all[p[i]].name != all[p[j]].name);
        } else {
            assert(all[p[j]].name != all[p[i]].name);
        }
    }
}

/// A delivered brightness changes what is published of its output, and of no
/// other.
pub proof fn deliveries_change_one_output(
    state: GammaBackendView,
    name: Seq<char>,
    brightness: Binary64,
    delivery: Option<DeliveryView>,
)
    requires
        up_to_date(state),
        !state.dirty,
        differently_named(all_published(state.outputs)),
        gamma_step(state, name, brightness, delivery).0 matches GammaStepView::Done(Ok(_)),
    ensures
        brightness.fraction(),
        ({
            let after = gamma_step(state, name, brightness, delivery).1;
            &&& after.cache == delivered(state.cache, name, brightness)
            &&& up_to_date(after)
            &&& !after.dirty
            &&& differently_named(all_published(after.outputs))
        }),
{
    let after = gamma_step(state, name, brightness, delivery).1;
    crate::model::first_exists(state.outputs, answers_to(name));
    let i = crate::model::first_where(state.outputs, answers_to(name))->Some_0;
    assert(answers_to(name)(state.outputs[i]));
    let m = lemma_one_republished(state.outputs, i, brightness);
    let all = all_published(state.outputs);
    let changed = all_published(after.outputs);
    assert forall|j: int| 0 <= j < all.len() implies #[trigger] changed[j] == (if all[j].name
        == name {
        GammaOutputView { brightness, ..all[j] }
    } else {
        all[j]
    }) by {
        if j < m {
            assert(all[j].name != all[m].name);
        } else if j > m {
            assert(all[m].name != all[j].name);
        }
    }
    assert forall|j: int| 0 <= j < all.len() implies GammaOutput::rank_of(#[trigger] all[j])
        == GammaOutput::rank_of(changed[j]) by {
        assert(changed[j].name == all[j].name);
    }
    let p = crate::order::sorting_goes_by_rank::<GammaOutput>(all, changed);
    assert forall|k: int| 0 <= k < all.len() implies #[trigger] after.cache[k] == delivered(
        state.cache,
        name,
        brightness,
    )[k] by {
        assert(0 <= p[k] < all.len());
        assert(changed[p[k]].name == all[p[k]].name);
    }
    assert(after.cache =~= delivered(state.cache, name, brightness));
}

/// A file carries one table only: words that are carried by the same bytes are
/// the same.
pub proof fn gamma_files_keep_the_table(bytes: Seq<u8>, a: Seq<u16>, b: Seq<u16>)
    requires
        carries(bytes, a),
        carries(bytes, b),
    ensures
        a == b,
{
    assert(bytes.len() == 2 * a.len() && bytes.len() == 2 * b.len());
    assert forall|i: int| 0 <= i < a.len() implies a[i] == b[i] by {
        let first = 2 * i;
        let second = 2 * i + 1;
        assert(first / 2 == i && first % 2 == 0);
        assert(second / 2 == i && second % 2 == 1);
        assert(native_endian(a)[first] == native_endian(b)[first]);
        assert(native_endian(a)[second] == native_endian(b)[second]);
    }
    assert(a =~= b);
}

/// A brightness goes to the first working output of that name: a table with
/// three linear ramps of its size is sent to its control. Once the table was
/// sent, the output has the brightness and nothing else about it is different;
/// a brightness that is no fraction, a size that is unknown or too small, and a
/// table that could not be sent are reported and change nothing.
pub proof fn brightness_goes_to_the_named_output(
    state: GammaBackendView,
    name: Seq<char>,
    brightness: Binary64,
    delivery: Option<DeliveryView>,
    i: int,
)
    requires
        0 <= i < state.outputs.len(),
        state.outputs[i].active,
        state.outputs[i].name == Some(name),
        forall|j: int|
            0 <= j < i ==> !((#[trigger] state.outputs[j]).active && state.outputs[j].name == Some(
                name,
            )),
    ensures
        ({
            let (step, after) = gamma_step(state, name, brightness, delivery);
            let output = state.outputs[i];
            let good = !brightness.nan() && 0 <= brightness.value() <= crate::rounding::one();
            &&& !good ==> after == state && step == GammaStepView::Done(
                Err("gamma brightness must be finite and between 0.0 and 1.0"@),
            )
            &&& good && output.ramp_size is None ==> after == state && step == GammaStepView::Done(
                Err("gamma ramp size is not available for "@ + name),
            )
            &&& good ==> (output.ramp_size matches Some(size) ==> {
                &&& size < 2 ==> after == state && step == GammaStepView::Done(
                    Err(
                        "invalid gamma table: "@
                            + crate::brightness::BrightnessError::InvalidRampSize.message_text(),
                    ),
                )
                &&& size >= 2 && delivery is None ==> after == state && {
                    &&& step matches GammaStepView::Send { gamma_control, table }
                    &&& gamma_control == output.gamma_control
                    &&& table.len() == 3 * size
                    &&& forall|channel: int, index: int|
                        #![trigger table[channel * size + index]]
                        0 <= channel < 3 && 0 <= index < size ==> 2 * crate::binary64::gap(
                            table[channel * size + index] * ((size - 1) * crate::rounding::one()),
                            index * (brightness.value() * 65535),
                        ) <= (size - 1) * (crate::rounding::one() + 557048
                            * crate::binary64::epsilon().value())
                }
                &&& size >= 2 ==> (delivery matches Some(DeliveryView::NotPrepared(error)) ==> after
                    == state && step == GammaStepView::Done(Err(error)))
                &&& size >= 2 ==> (delivery matches Some(DeliveryView::NotSent(error)) ==> after
                    == state && step == GammaStepView::Done(
                    Err("failed to send gamma table for "@ + name + ": "@ + error),
                ))
                &&& size >= 2 ==> (delivery matches Some(DeliveryView::Sent) ==> {
                    &&& step == GammaStepView::Done(
                        Ok(GammaOutputView { name, ramp_size: size, brightness }),
                    )
                    &&& after.outputs.len() == state.outputs.len()
                    &&& after.outputs[i] == (ManagedOutputView { brightness, ..output })
                    &&& forall|j: int|
                        0 <= j < state.outputs.len() && j != i ==> #[trigger] after.outputs[j]
                            == state.outputs[j]
                    &&& !after.dirty
                    &&& after.running == state.running
                    &&& after.failed_outputs == state.failed_outputs
                })
            })
        }),
{
    assert forall|j: int| 0 <= j < i implies !answers_to(name)(#[trigger] state.outputs[j]) by {
        assert(!(state.outputs[j].active && state.outputs[j].name == Some(name)));
    }
    assert(answers_to(name)(state.outputs[i]));
    crate::model::first_is_unique(state.outputs, answers_to(name), i);
    if !brightness.nan() && 0 <= brightness.value() <= crate::rounding::one() {
        if let Some(size) = state.outputs[i].ramp_size {
            if size >= 2 {
                let table = crate::brightness::three_ramps(size as nat, brightness);
                assert forall|channel: int, index: int|
                    #![trigger table[channel * size + index]]
                    0 <= channel < 3 && 0 <= index < size implies 2 * crate::binary64::gap(
                    table[channel * size + index] * ((size - 1) * crate::rounding::one()),
                    index * (brightness.value() * 65535),
                ) <= (size - 1) * (crate::rounding::one() + 557048
                    * crate::binary64::epsilon().value()) by {
                    crate::brightness::ramps_are_linear(size as nat, brightness, index as nat);
                }
                crate::brightness::ramps_are_linear(size as nat, brightness, 0);
            }
        }
    }
}

/// A brightness for a name that no working output has is refused.
pub proof fn unknown_outputs_are_refused(
    state: GammaBackendView,
    name: Seq<char>,
    brightness: Binary64,
    delivery: Option<DeliveryView>,
)
    requires
        !brightness.nan(),
        0 <= brightness.value() <= crate::rounding::one(),
        forall|j: int|
            0 <= j < state.outputs.len() ==> !((#[trigger] state.outputs[j]).active
                && state.outputs[j].name == Some(name)),
    ensures
        gamma_step(state, name, brightness, delivery) == (
            GammaStepView::Done(Err("unknown or unsupported Wayland output "@ + name)),
            state,
        ),
{
    crate::model::first_exists(state.outputs, answers_to(name));
    if let Some(i) = crate::model::first_where(state.outputs, answers_to(name)) {
        assert(answers_to(name)(state.outputs[i]));
        assert(!(state.outputs[i].active && state.outputs[i].name == Some(name)));
    }
}

/// A file holds a table word by word, each as the machine keeps it.
pub proof fn gamma_files_hold_the_words(bytes: Seq<u8>, words: Seq<u16>, i: int)
    requires
        carries(bytes, words),
        0 <= i < words.len(),
    ensures
        bytes.len() == 2 * words.len(),
        match vstd::endian::endianness() {
            vstd::endian::Endian::Little => bytes[2 * i] + 256 * bytes[2 * i + 1] == words[i],
            vstd::endian::Endian::Big => 256 * bytes[2 * i] + bytes[2 * i + 1] == words[i],
        },
{
    let first = 2 * i;
    let second = 2 * i + 1;
    assert(first / 2 == i && first % 2 == 0);
    assert(second / 2 == i && second % 2 == 1);
    assert(bytes[first] == native_endian(words)[first]);
    assert(bytes[second] == native_endian(words)[second]);
}

/// A step that carries out a description sends the table to the control that is
/// described, or ends as is described.
pub proof fn steps_do_what_is_described(step: GammaStep, described: GammaStepView)
    requires
        carries_out(step, described),
    ensures
        match described {
            GammaStepView::Send { gamma_control: control, table } => {
                &&& step matches GammaStep::Send { gamma_control, contents }
                &&& gamma_control == control
                &&& carries(contents@, table)
                &&& contents@.len() == 2 * table.len()
            },
            GammaStepView::Done(Ok(output)) => step matches GammaStep::Done(Ok(shown)) && shown@
                == output,
            GammaStepView::Done(Err(message)) => step matches GammaStep::Done(Err(text)) && text@
                == message,
        },
{
}

/// An output is published while it works and once its name and its size are
/// known, with its brightness; it is not published otherwise.
pub proof fn outputs_are_published_as_they_are(output: ManagedOutputView, shown: GammaOutputView)
    ensures
        output.published() == Some(shown) <==> {
            &&& output.active
            &&& output.name == Some(shown.name)
            &&& output.ramp_size == Some(shown.ramp_size)
            &&& output.brightness == shown.brightness
        },
        output.published() is None <==> !output.active || output.name is None || output.ramp_size
            is None,
{
}

/// What was published last is what there is: every output that works and is
/// known, in the order of the names, and nothing else.
pub proof fn publishing_shows_what_there_is(state: GammaBackendView, shown: GammaOutputView)
    requires
        state.dirty,
    ensures
        ({
            let after = state.after_publishing();
            &&& after.cache.contains(shown) <==> exists|i: int|
                0 <= i < state.outputs.len() && {
                    &&& (#[trigger] state.outputs[i]).active
                    &&& state.outputs[i].name == Some(shown.name)
                    &&& state.outputs[i].ramp_size == Some(shown.ramp_size)
                    &&& state.outputs[i].brightness == shown.brightness
                }
            &&& after.cache.len() <= state.outputs.len()
            &&& (forall|i: int|
                0 <= i < state.outputs.len() ==> (#[trigger] state.outputs[i]).published() is Some)
                ==> after.cache.len() == state.outputs.len()
            &&& forall|i: int, j: int|
                0 <= i < j < after.cache.len() ==> !crate::order::text_before(
                    (#[trigger] after.cache[j]).name,
                    (#[trigger] after.cache[i]).name,
                )
            &&& after.outputs == state.outputs
            &&& after.running == state.running
            &&& after.failed_outputs == state.failed_outputs
            &&& !after.dirty
        }),
{
    let after = state.after_publishing();
    let all = all_published(state.outputs);
    crate::order::sorting_keeps_membership::<GammaOutput>(all, shown);
    crate::order::sorting_keeps_the_values::<GammaOutput>(all);
    let p = crate::order::sorting_permutes::<GammaOutput>(all);
    only_working_outputs_are_published(state.outputs, shown);
    lemma_published_count(state.outputs);
    if after.cache.contains(shown) {
        let i = choose|i: int|
            0 <= i < state.outputs.len() && #[trigger] state.outputs[i].published() == Some(shown);
        assert(state.outputs[i].active);
    }
    if exists|i: int|
        0 <= i < state.outputs.len() && {
            &&& (#[trigger] state.outputs[i]).active
            &&& state.outputs[i].name == Some(shown.name)
            &&& state.outputs[i].ramp_size == Some(shown.ramp_size)
            &&& state.outputs[i].brightness == shown.brightness
        } {
        let i = choose|i: int|
            0 <= i < state.outputs.len() && {
                &&& (#[trigger] state.outputs[i]).active
                &&& state.outputs[i].name == Some(shown.name)
                &&& state.outputs[i].ramp_size == Some(shown.ramp_size)
                &&& state.outputs[i].brightness == shown.brightness
            };
        assert(state.outputs[i].published() == Some(shown));
        assert(all.contains(shown));
        let m = choose|m: int| 0 <= m < all.len() && all[m] == shown;
        assert(after.cache.contains(all[m]));
    }
    assert forall|i: int, j: int| 0 <= i < j < after.cache.len() implies
        !crate::order::text_before(
            (#[trigger] after.cache[j]).name,
            (#[trigger] after.cache[i]).name,
        ) by {
        let none = Seq::<u64>::empty();
        let a = GammaOutput::rank_of(after.cache[i]);
        let b = GammaOutput::rank_of(after.cache[j]);
        assert(!crate::order::precedes(b, a));
        crate::order::leading_texts_decide(after.cache[j].name, none, after.cache[i].name, none);
        assert(a + none =~= a);
        assert(b + none =~= b);
    }
}

proof fn lemma_published_count(outputs: Seq<ManagedOutputView>)
    ensures
        all_published(outputs).len() <= outputs.len(),
        (forall|i: int| 0 <= i < outputs.len() ==> (#[trigger] outputs[i]).published() is Some)
            ==> all_published(outputs).len() == outputs.len(),
    decreases outputs.len(),
{
    if outputs.len() > 0 {
        let front = outputs.drop_last();
        lemma_published_count(front);
        if forall|i: int| 0 <= i < outputs.len() ==> (#[trigger] outputs[i]).published() is Some {
            assert forall|i: int| 0 <= i < front.len() implies (
            #[trigger] front[i]).published() is Some by {
                assert(outputs[i].published() is Some);
            }
            assert(outputs[outputs.len() - 1].published() is Some);
        }
    }
}

/// Where nothing has changed, publishing does nothing.
pub proof fn unchanged_outputs_are_not_published_again(state: GammaBackendView)
    requires
        !state.dirty,
    ensures
        state.after_publishing() == state,
{
}

/// What is told of a control changes nothing else about its output: its size is
/// noted, or it works no more and its size is unknown.
pub proof fn events_are_noted(output: ManagedOutputView, size: u32)
    ensures
        told(output, GammaEvent::GammaSize(size)).ramp_size == Some(size),
        told(output, GammaEvent::GammaSize(size)).active == output.active,
        !told(output, GammaEvent::Failed).active,
        told(output, GammaEvent::Failed).ramp_size is None,
        forall|event: GammaEvent| #[trigger]
            told(output, event) == (ManagedOutputView {
                active: told(output, event).active,
                ramp_size: told(output, event).ramp_size,
                ..output
            }),
{
}

/// What is given back for an output is its own: the `wl_output`, and the control
/// unless that has failed and is gone already.
pub proof fn outputs_give_back_what_is_theirs(output: ManagedOutputView)
    ensures
        output.released().wl_output == output.wl_output,
        output.active ==> output.released().gamma_control == Some(output.gamma_control),
        !output.active ==> output.released().gamma_control is None,
{
}

/// An output that was just bound is not attenuated and not published, and is
/// published once its name and its size are known.
pub proof fn bound_outputs_wait_for_their_name(
    registry_name: u32,
    wl_output: u32,
    gamma_control: u32,
    name: Seq<char>,
    size: u32,
)
    ensures
        ({
            let output = bound(registry_name, wl_output, gamma_control);
            &&& output.registry_name == registry_name
            &&& output.wl_output == wl_output
            &&& output.gamma_control == gamma_control
            &&& output.published() is None
            &&& told(output, GammaEvent::GammaSize(size)).published() is None
            &&& output.brightness.value() == crate::rounding::one()
            &&& told(
                ManagedOutputView { name: Some(name), ..output },
                GammaEvent::GammaSize(size),
            ).published() == Some(
                GammaOutputView { name, ramp_size: size, brightness: output.brightness },
            )
        }),
{
    crate::binary64::lemma_literals();
}

/// Taking a value out leaves all others in the list, those before its place
/// where they were.
pub proof fn taking_out_leaves_the_others<T>(s: Seq<T>, i: int, j: int)
    requires
        0 <= i < s.len(),
        0 <= j < s.len(),
        i != j,
    ensures
        swap_removed(s, i).len() == s.len() - 1,
        swap_removed(s, i).contains(s[j]),
        j < s.len() - 1 ==> swap_removed(s, i)[j] == s[j],
        swap_removed(s, i).to_multiset() == s.to_multiset().remove(s[i]),
{
    let r = swap_removed(s, i);
    if j < s.len() - 1 {
        assert(r[j] == s[j]);
    } else {
        assert(r[i] == s[j]);
    }
    broadcast use vstd::seq_lib::group_to_multiset_ensures;

    let last = s.len() - 1;
    if i == last {
        assert(r =~= s.remove(i));
    } else {
        let t = s.update(i, s.last());
        assert(t.remove(last) =~= r);
        assert(t.to_multiset() =~= s.to_multiset().insert(s.last()).remove(s[i])) by {
            vstd::seq_lib::lemma_update_is_remove_insert(s, i, s.last());
        }
    }
    assert(r.to_multiset() =~= s.to_multiset().remove(s[i]));
}

/// Whatever the compositor says reaches the first output that it is about: the
/// one of that global, that `wl_output` or that gamma control.
pub proof fn events_reach_their_output(
    outputs: Seq<ManagedOutputView>,
    registry_name: u32,
    wl_output: u32,
    gamma_control: u32,
    i: int,
)
    requires
        0 <= i < outputs.len(),
    ensures
        outputs[i].registry_name == registry_name && (forall|j: int|
            0 <= j < i ==> (#[trigger] outputs[j]).registry_name != registry_name)
            ==> crate::model::first_where(outputs, has_registry_name(registry_name)) == Some(i),
        outputs[i].wl_output == wl_output && (forall|j: int|
            0 <= j < i ==> (#[trigger] outputs[j]).wl_output != wl_output)
            ==> crate::model::first_where(outputs, has_wl_output(wl_output)) == Some(i),
        outputs[i].gamma_control == gamma_control && (forall|j: int|
            0 <= j < i ==> (#[trigger] outputs[j]).gamma_control != gamma_control)
            ==> crate::model::first_where(outputs, has_gamma_control(gamma_control)) == Some(i),
        (forall|j: int|
            0 <= j < outputs.len() ==> (#[trigger] outputs[j]).registry_name != registry_name)
            ==> crate::model::first_where(outputs, has_registry_name(registry_name)) is None,
        (forall|j: int| 0 <= j < outputs.len() ==> (#[trigger] outputs[j]).wl_output != wl_output)
            ==> crate::model::first_where(outputs, has_wl_output(wl_output)) is None,
        (forall|j: int|
            0 <= j < outputs.len() ==> (#[trigger] outputs[j]).gamma_control != gamma_control)
            ==> crate::model::first_where(outputs, has_gamma_control(gamma_control)) is None,
{
    let global = has_registry_name(registry_name);
    let object = has_wl_output(wl_output);
    let control = has_gamma_control(gamma_control);
    assert(forall|j: int| #![trigger outputs[j]] global(outputs[j]) == (outputs[j].registry_name
        == registry_name));
    assert(forall|j: int| #![trigger outputs[j]] object(outputs[j]) == (outputs[j].wl_output
        == wl_output));
    assert(forall|j: int| #![trigger outputs[j]] control(outputs[j]) == (outputs[j].gamma_control
        == gamma_control));
    if crate::model::first_meets(outputs, global, i) {
        crate::model::first_is_unique(outputs, global, i);
    }
    if crate::model::first_meets(outputs, object, i) {
        crate::model::first_is_unique(outputs, object, i);
    }
    if crate::model::first_meets(outputs, control, i) {
        crate::model::first_is_unique(outputs, control, i);
    }
    crate::model::first_exists(outputs, global);
    crate::model::first_exists(outputs, object);
    crate::model::first_exists(outputs, control);
}

/// What is known of an output is what it holds.
pub proof fn outputs_say_what_they_hold(output: ManagedOutput, shown: GammaOutput)
    ensures
        output@.registry_name == output.registry_name,
        output@.wl_output == output.wl_output,
        output@.gamma_control == output.gamma_control,
        output@.ramp_size == output.ramp_size,
        output@.brightness == output.brightness,
        output@.active == output.active,
        match output.name {
            Some(name) => output@.name == Some(name@),
            None => output@.name is None,
        },
        shown@.name == shown.name@,
        shown@.ramp_size == shown.ramp_size,
        shown@.brightness == shown.brightness,
{
}

} // verus!
