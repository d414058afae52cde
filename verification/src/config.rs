//! The persisted configuration: the hardware floor, and the desired state of
//! every display that was ever set.

use vstd::prelude::*;

use crate::binary64::Binary64;
use crate::brightness::DEFAULT_HARDWARE_FLOOR;
use crate::keyed::KeyedMap;

verus! {

/// What was last set for a display.
#[derive(Debug, Clone, Copy, PartialEq, Eq, Structural)]
pub struct SavedDisplay {
    pub ddc_brightness: Option<u16>,
    pub gamma_brightness: Option<Binary64>,
}

impl View for SavedDisplay {
    type V = SavedDisplay;

    open spec fn view(&self) -> SavedDisplay {
        *self
    }
}

/// What is saved for a display that was never set.
pub open spec fn nothing_saved() -> SavedDisplay {
    SavedDisplay { ddc_brightness: None, gamma_brightness: None }
}

impl Default for SavedDisplay {
    fn default() -> (r: Self)
        ensures
            r == nothing_saved(),
    {
        SavedDisplay { ddc_brightness: None, gamma_brightness: None }
    }
}

/// The configuration.
#[derive(Debug)]
pub struct Config {
    pub hardware_floor: Binary64,
    pub displays: KeyedMap<String, SavedDisplay>,
}

/// What a `Config` says.
#[verifier::ext_equal]
pub struct ConfigView {
    pub hardware_floor: Binary64,
    pub displays: Map<Seq<char>, SavedDisplay>,
}

impl View for Config {
    type V = ConfigView;

    open spec fn view(&self) -> ConfigView {
        ConfigView { hardware_floor: self.hardware_floor, displays: self.displays@ }
    }
}

/// The hardware floor of a configuration that says nothing about it.
pub open spec fn default_floor() -> Binary64 {
    Binary64 { bits: DEFAULT_HARDWARE_FLOOR }
}

impl Default for Config {
    fn default() -> (r: Self)
        ensures
            r@ == (ConfigView { hardware_floor: default_floor(), displays: Map::empty() }),
            r.displays.wf(),
    {
        Config {
            hardware_floor: Binary64 { bits: DEFAULT_HARDWARE_FLOOR },
            displays: KeyedMap::new(),
        }
    }
}

/// Whether a hardware brightness that was saved can be set.
pub open spec fn ddc_in_range(saved: SavedDisplay) -> bool {
    saved.ddc_brightness matches Some(percent) ==> percent <= 100
}

/// Whether a gamma brightness that was saved can be set.
pub open spec fn gamma_in_range(saved: SavedDisplay) -> bool {
    saved.gamma_brightness matches Some(brightness) ==> brightness.fraction()
}

impl ConfigView {
    /// Whether the floor and everything saved can be set.
    pub open spec fn valid(self) -> bool {
        &&& self.hardware_floor.fraction()
        &&& forall|id: Seq<char>| #[trigger]
            self.displays.contains_key(id) ==> ddc_in_range(self.displays[id]) && gamma_in_range(
                self.displays[id],
            )
    }

    /// What is saved for a display.
    pub open spec fn saved(self, id: Seq<char>) -> SavedDisplay {
        if self.displays.contains_key(id) {
            self.displays[id]
        } else {
            nothing_saved()
        }
    }

    /// The configuration after a hardware brightness was set.
    pub open spec fn with_ddc(self, id: Seq<char>, percent: u16) -> ConfigView {
        ConfigView {
            displays: self.displays.insert(
                id,
                SavedDisplay { ddc_brightness: Some(percent), ..self.saved(id) },
            ),
            ..self
        }
    }

    /// The configuration after a gamma brightness was set.
    pub open spec fn with_gamma(self, id: Seq<char>, brightness: Binary64) -> ConfigView {
        ConfigView {
            displays: self.displays.insert(
                id,
                SavedDisplay { gamma_brightness: Some(brightness), ..self.saved(id) },
            ),
            ..self
        }
    }
}

/// What is wrong with what is saved for a display.
pub open spec fn saved_fault(id: Seq<char>, saved: SavedDisplay) -> Option<Seq<char>> {
    if !ddc_in_range(saved) {
        Some("display "@ + id + " has an invalid DDC brightness"@)
    } else if !gamma_in_range(saved) {
        Some("display "@ + id + " has an invalid gamma brightness"@)
    } else {
        None
    }
}

/// What is first wrong with what is saved for the displays from position `i`
/// on.
pub open spec fn first_fault(
    ids: Seq<Seq<char>>,
    saved: Seq<SavedDisplay>,
    i: nat,
) -> Option<Seq<char>>
    decreases ids.len() - i,
{
    if i >= ids.len() {
        None
    } else if saved_fault(ids[i as int], saved[i as int]) is Some {
        saved_fault(ids[i as int], saved[i as int])
    } else {
        first_fault(ids, saved, i + 1)
    }
}

/// What is first wrong with a configuration: the floor comes first, then the
/// displays in the order of their identifiers.
pub open spec fn config_fault(
    floor: Binary64,
    ids: Seq<Seq<char>>,
    saved: Seq<SavedDisplay>,
) -> Option<Seq<char>> {
    if !floor.fraction() {
        Some("hardware_floor must be finite and between 0.0 and 1.0"@)
    } else {
        first_fault(ids, saved, 0)
    }
}

impl Config {
    /// Checks that the floor and everything saved can be set.
    pub fn validate(&self) -> (r: Result<(), String>)
        requires
            self.displays.wf(),
        ensures
            r is Ok <==> self@.valid(),
            match r {
                Ok(_) => config_fault(
                    self.hardware_floor,
                    self.displays.keys(),
                    self.displays.values(),
                ) is None,
                Err(message) => config_fault(
                    self.hardware_floor,
                    self.displays.keys(),
                    self.displays.values(),
                ) == Some(message@),
            },
    {
        if !self.hardware_floor.is_fraction() {
            return Err("hardware_floor must be finite and between 0.0 and 1.0".to_owned());
        }
        let ghost ids = self.displays.keys();
        let ghost saved = self.displays.values();
        let count = self.displays.len();
        for i in 0..count
            invariant
                count == ids.len(),
                self.displays.wf(),
                self.hardware_floor.fraction(),
                ids == self.displays.keys(),
                saved == self.displays.values(),
                first_fault(ids, saved, 0) == first_fault(ids, saved, i as nat),
                forall|j: int|
                    0 <= j < i ==> ddc_in_range(#[trigger] saved[j]) && gamma_in_range(saved[j]),
        {
            let id = self.displays.key_at(i);
            let display = self.displays.value_at(i);
            proof {
                self.displays.entry_at(i as int);
            }
            if let Some(percent) = display.ddc_brightness {
                if percent > 100 {
                    assert(!ddc_in_range(self@.displays[ids[i as int]]));
                    return Err(
                        "display ".to_owned().concat(id.as_str()).concat(
                            " has an invalid DDC brightness",
                        ),
                    );
                }
            }
            if let Some(brightness) = display.gamma_brightness {
                if !brightness.is_fraction() {
                    assert(!gamma_in_range(self@.displays[ids[i as int]]));
                    return Err(
                        "display ".to_owned().concat(id.as_str()).concat(
                            " has an invalid gamma brightness",
                        ),
                    );
                }
            }
        }
        proof {
            assert forall|id: Seq<char>| #[trigger] self@.displays.contains_key(id) implies
                ddc_in_range(self@.displays[id]) && gamma_in_range(self@.displays[id]) by {
                let i = self.displays.position(id);
                assert(ids[i] == id);
                self.displays.entry_at(i);
            }
        }
        Ok(())
    }

    /// What is saved for a display, if anything is.
    pub fn saved(&self, id: &String) -> (r: Option<SavedDisplay>)
        requires
            self.displays.wf(),
        ensures
            r is Some <==> self@.displays.contains_key(id@),
            r matches Some(saved) ==> saved == self@.displays[id@],
    {
        match self.displays.get(id) {
            Some(saved) => Some(*saved),
            None => None,
        }
    }

    /// Saves a hardware brightness.
    pub fn remember_ddc(&mut self, id: &str, percent: u16)
        requires
            old(self).displays.wf(),
        ensures
            final(self).displays.wf(),
            final(self)@ == old(self)@.with_ddc(id@, percent),
    {
        let key = id.to_owned();
        let mut saved: SavedDisplay = match self.saved(&key) {
            Some(saved) => saved,
            None => SavedDisplay::default(),
        };
        saved.ddc_brightness = Some(percent);
        self.displays.insert(key, saved);
    }

    /// Saves a gamma brightness.
    pub fn remember_gamma(&mut self, id: &str, brightness: Binary64)
        requires
            old(self).displays.wf(),
        ensures
            final(self).displays.wf(),
            final(self)@ == old(self)@.with_gamma(id@, brightness),
    {
        let key = id.to_owned();
        let mut saved: SavedDisplay = match self.saved(&key) {
            Some(saved) => saved,
            None => SavedDisplay::default(),
        };
        saved.gamma_brightness = Some(brightness);
        self.displays.insert(key, saved);
    }
}

/// What was found where the configuration is kept.
#[derive(Debug)]
pub enum ConfigSource {
    /// There is no file.
    Missing,
    /// The file could not be read.
    Unreadable(String),
    /// The file does not hold a configuration.
    Unparsable(String),
    /// The file holds this configuration.
    Parsed(Config),
}

/// What comes of loading: what the file holds where that is valid, the default
/// configuration where there is no file, and otherwise what went wrong.
pub open spec fn loaded(path: Seq<char>, source: ConfigSource) -> Result<ConfigView, Seq<char>> {
    match source {
        ConfigSource::Missing => Ok(
            ConfigView { hardware_floor: default_floor(), displays: Map::empty() },
        ),
        ConfigSource::Unreadable(error) => Err("failed to read "@ + path + ": "@ + error@),
        ConfigSource::Unparsable(error) => Err("failed to parse "@ + path + ": "@ + error@),
        ConfigSource::Parsed(config) => match config_fault(
            config.hardware_floor,
            config.displays.keys(),
            config.displays.values(),
        ) {
            Some(message) => Err(message),
            None => Ok(config@),
        },
    }
}

impl Config {
    /// The configuration that was found at a path. Where there is no file, it
    /// is the default one.
    pub fn load(path: &str, source: ConfigSource) -> (r: Result<Self, String>)
        requires
            source matches ConfigSource::Parsed(config) ==> config.displays.wf(),
        ensures
            crate::model::known(r) == loaded(path@, source),
            r matches Ok(config) ==> config.displays.wf() && (source is Parsed
                ==> config@.valid()),
    {
        match source {
            ConfigSource::Missing => Ok(Config::default()),
            ConfigSource::Unreadable(error) => Err(
                "failed to read ".to_owned().concat(path).concat(": ").concat(error.as_str()),
            ),
            ConfigSource::Unparsable(error) => Err(
                "failed to parse ".to_owned().concat(path).concat(": ").concat(error.as_str()),
            ),
            ConfigSource::Parsed(config) => match config.validate() {
                Ok(_) => Ok(config),
                Err(message) => Err(message),
            },
        }
    }
}

/// The default configuration is valid.
pub proof fn default_config_is_valid()
    ensures
        (ConfigView { hardware_floor: default_floor(), displays: Map::empty() }).valid(),
{
    crate::binary64::lemma_literals();
    crate::rounding::units_increase(
        DEFAULT_HARDWARE_FLOOR as nat,
        crate::binary64::unity().bits as nat,
    );
}

/// What is set keeps a configuration valid.
pub proof fn settings_keep_the_config_valid(
    config: ConfigView,
    id: Seq<char>,
    percent: u16,
    brightness: Binary64,
)
    requires
        config.valid(),
        percent <= 100,
        brightness.fraction(),
    ensures
        config.with_ddc(id, percent).valid(),
        config.with_gamma(id, brightness).valid(),
{
    assert(ddc_in_range(config.saved(id)) && gamma_in_range(config.saved(id)));
}

/// A setting that was saved is found again, the other setting of the display is
/// kept, and so is everything saved for other displays.
pub proof fn settings_are_found_again(
    config: ConfigView,
    id: Seq<char>,
    percent: u16,
    brightness: Binary64,
    other: Seq<char>,
)
    requires
        other != id,
    ensures
        config.with_ddc(id, percent).saved(id).ddc_brightness == Some(percent),
        config.with_ddc(id, percent).saved(id).gamma_brightness == config.saved(
            id,
        ).gamma_brightness,
        config.with_ddc(id, percent).saved(other) == config.saved(other),
        config.with_gamma(id, brightness).saved(id).gamma_brightness == Some(brightness),
        config.with_gamma(id, brightness).saved(id).ddc_brightness == config.saved(
            id,
        ).ddc_brightness,
        config.with_gamma(id, brightness).saved(other) == config.saved(other),
{
}

/// Where the configuration is kept.
#[derive(Debug)]
pub struct ConfigPaths {
    /// The file.
    pub path: String,
    /// The directory that holds it, if there is one.
    pub parent: Option<String>,
    /// The file that the configuration is first written to.
    pub temporary: String,
}

/// What to do next to save the configuration.
#[derive(Debug)]
pub enum SaveStep {
    /// Create the directory that holds the file.
    CreateDirectory,
    /// Encode the configuration.
    Encode,
    /// Write it to the temporary file.
    WriteTemporary,
    /// Put the temporary file in the place of the file.
    Replace,
    /// Nothing more: this is what came of it.
    Done(Result<(), String>),
}

/// What a `SaveStep` says.
pub enum SaveStepView {
    CreateDirectory,
    Encode,
    WriteTemporary,
    Replace,
    Done(Result<(), Seq<char>>),
}

impl View for SaveStep {
    type V = SaveStepView;

    open spec fn view(&self) -> SaveStepView {
        match *self {
            SaveStep::CreateDirectory => SaveStepView::CreateDirectory,
            SaveStep::Encode => SaveStepView::Encode,
            SaveStep::WriteTemporary => SaveStepView::WriteTemporary,
            SaveStep::Replace => SaveStepView::Replace,
            SaveStep::Done(result) => SaveStepView::Done(crate::model::heard(result)),
        }
    }
}

/// The steps of saving, by number.
pub open spec fn save_action(n: nat) -> SaveStepView {
    if n == 0 {
        SaveStepView::CreateDirectory
    } else if n == 1 {
        SaveStepView::Encode
    } else if n == 2 {
        SaveStepView::WriteTemporary
    } else if n == 3 {
        SaveStepView::Replace
    } else {
        SaveStepView::Done(Ok(()))
    }
}

/// What is said when a step of saving has failed.
pub open spec fn save_context(paths: &ConfigPaths, parent: Seq<char>, n: nat) -> Seq<char> {
    if n == 0 {
        "failed to create "@ + parent
    } else if n == 1 {
        "failed to encode configuration"@
    } else if n == 2 {
        "failed to write "@ + paths.temporary@
    } else {
        "failed to atomically replace "@ + paths.path@ + " with "@ + paths.temporary@
    }
}

/// What follows when a configuration is saved, after the outcomes of the steps
/// so far: the first failure ends it.
pub open spec fn save_step(
    fault: Option<Seq<char>>,
    paths: &ConfigPaths,
    outcomes: Seq<Result<(), Seq<char>>>,
    n: nat,
) -> SaveStepView
    decreases 4 - n,
{
    match (fault, paths.parent) {
        (Some(message), _) => SaveStepView::Done(Err(message)),
        (None, None) => SaveStepView::Done(
            Err("configuration path has no parent directory"@),
        ),
        (None, Some(parent)) => if n >= 4 || n >= outcomes.len() {
            save_action(n)
        } else {
            match outcomes[n as int] {
                Ok(_) => save_step(fault, paths, outcomes, n + 1),
                Err(error) => SaveStepView::Done(
                    Err(save_context(paths, parent@, n) + ": "@ + error),
                ),
            }
        },
    }
}

/// What is said when a step of saving has failed.
fn save_failure(paths: &ConfigPaths, parent: &String, n: usize) -> (r: String)
    ensures
        r@ == save_context(paths, parent@, n as nat),
{
    if n == 0 {
        "failed to create ".to_owned().concat(parent.as_str())
    } else if n == 1 {
        "failed to encode configuration".to_owned()
    } else if n == 2 {
        "failed to write ".to_owned().concat(paths.temporary.as_str())
    } else {
        "failed to atomically replace ".to_owned().concat(paths.path.as_str()).concat(
            " with ",
        ).concat(paths.temporary.as_str())
    }
}

impl Config {
    /// The next step of saving the configuration, after the outcomes of the
    /// steps so far.
    pub fn save(&self, paths: &ConfigPaths, outcomes: &Vec<Result<(), String>>) -> (r: SaveStep)
        requires
            self.displays.wf(),
        ensures
            r@ == save_step(
                config_fault(self.hardware_floor, self.displays.keys(), self.displays.values()),
                paths,
                crate::model::all_heard(outcomes@),
                0,
            ),
    {
        if let Err(message) = self.validate() {
            return SaveStep::Done(Err(message));
        }
        let parent = match &paths.parent {
            Some(parent) => parent,
            None => {
                return SaveStep::Done(
                    Err("configuration path has no parent directory".to_owned()),
                );
            },
        };
        let ghost fault = config_fault(
            self.hardware_floor,
            self.displays.keys(),
            self.displays.values(),
        );
        let ghost heard = crate::model::all_heard(outcomes@);
        let mut n: usize = 0;
        while n < 4 && n < outcomes.len()
            invariant
                n <= 4,
                n <= outcomes@.len(),
                fault is None,
                fault == config_fault(
                    self.hardware_floor,
                    self.displays.keys(),
                    self.displays.values(),
                ),
                paths.parent == Some(*parent),
                heard == crate::model::all_heard(outcomes@),
                save_step(fault, paths, heard, 0) == save_step(fault, paths, heard, n as nat),
            decreases 4 - n,
        {
            assert(heard[n as int] == crate::model::heard(outcomes@[n as int]));
            if let Err(error) = &outcomes[n] {
                return SaveStep::Done(
                    Err(save_failure(paths, parent, n).concat(": ").concat(error.as_str())),
                );
            }
            n = n + 1;
        }
        if n == 0 {
            SaveStep::CreateDirectory
        } else if n == 1 {
            SaveStep::Encode
        } else if n == 2 {
            SaveStep::WriteTemporary
        } else if n == 3 {
            SaveStep::Replace
        } else {
            SaveStep::Done(Ok(()))
        }
    }
}

proof fn lemma_save_step(
    fault: Option<Seq<char>>,
    paths: &ConfigPaths,
    outcomes: Seq<Result<(), Seq<char>>>,
    n: nat,
)
    requires
        n <= 4,
        n <= outcomes.len(),
        forall|i: int| 0 <= i < n ==> #[trigger] outcomes[i] is Ok,
    ensures
        save_step(fault, paths, outcomes, n) is Replace ==> outcomes.len() == 3 && forall|i: int|
            0 <= i < 3 ==> #[trigger] outcomes[i] is Ok,
        save_step(fault, paths, outcomes, n) matches SaveStepView::Done(Ok(_)) ==> outcomes.len()
            >= 4 && forall|i: int| 0 <= i < 4 ==> #[trigger] outcomes[i] is Ok,
    decreases 4 - n,
{
    if fault is None && paths.parent is Some && n < 4 && n < outcomes.len() && outcomes[n as int] is Ok {
        lemma_save_step(fault, paths, outcomes, n + 1);
    }
}

proof fn lemma_first_fault(ids: Seq<Seq<char>>, saved: Seq<SavedDisplay>, i: nat)
    ensures
        first_fault(ids, saved, i) is None <==> forall|j: int|
            i <= j < ids.len() ==> ddc_in_range(#[trigger] saved[j]) && gamma_in_range(saved[j]),
    decreases ids.len() - i,
{
    if i < ids.len() {
        lemma_first_fault(ids, saved, i + 1);
        assert(saved_fault(ids[i as int], saved[i as int]) is None <==> ddc_in_range(
            saved[i as int],
        ) && gamma_in_range(saved[i as int]));
    }
}

proof fn lemma_config_fault(config: &Config)
    requires
        config.displays.wf(),
    ensures
        config_fault(config.hardware_floor, config.displays.keys(), config.displays.values()) is None
            <==> config@.valid(),
{
    let ids = config.displays.keys();
    let saved = config.displays.values();
    lemma_first_fault(ids, saved, 0);
    assert forall|i: int| 0 <= i < ids.len() && config@.valid() implies ddc_in_range(
        #[trigger] saved[i],
    ) && gamma_in_range(saved[i]) by {
        config.displays.entry_at(i);
        assert(config@.displays.contains_key(ids[i]));
    }
    assert forall|id: Seq<char>|
        first_fault(ids, saved, 0) is None && #[trigger] config@.displays.contains_key(
            id,
        ) implies ddc_in_range(config@.displays[id]) && gamma_in_range(config@.displays[id]) by {
        let i = config.displays.position(id);
        assert(ids[i] == id);
        config.displays.entry_at(i);
    }
}

/// A configuration survives a round trip: once saving it has succeeded, loading
/// a file that says the same gives back what was saved.
pub proof fn saved_configurations_load_again(
    config: &Config,
    paths: &ConfigPaths,
    outcomes: Seq<Result<(), Seq<char>>>,
    path: Seq<char>,
    found: Config,
)
    requires
        config.displays.wf(),
        found.displays.wf(),
        save_step(
            config_fault(config.hardware_floor, config.displays.keys(), config.displays.values()),
            paths,
            outcomes,
            0,
        ) == SaveStepView::Done(Ok(())),
        found@ == config@,
    ensures
        loaded(path, ConfigSource::Parsed(found)) == Ok::<ConfigView, Seq<char>>(config@),
{
    lemma_config_fault(config);
    lemma_config_fault(&found);
}

/// The file is replaced atomically: it is touched only by putting another file
/// in its place, and only once the whole configuration has been written there.
/// An invalid configuration is not written at all.
pub proof fn the_file_is_replaced_atomically(
    fault: Option<Seq<char>>,
    paths: &ConfigPaths,
    outcomes: Seq<Result<(), Seq<char>>>,
)
    ensures
        save_step(fault, paths, outcomes, 0) is Replace ==> outcomes.len() == 3 && forall|i: int|
            0 <= i < 3 ==> #[trigger] outcomes[i] is Ok,
        save_step(fault, paths, outcomes, 0) matches SaveStepView::Done(Ok(_)) ==> outcomes.len()
            >= 4 && forall|i: int| 0 <= i < 4 ==> #[trigger] outcomes[i] is Ok,
        fault is Some ==> save_step(fault, paths, outcomes, 0) is Done,
{
    lemma_save_step(fault, paths, outcomes, 0);
}

/// A configuration is valid where its floor is a fraction, every hardware
/// brightness saved in it is at most a hundred, and every gamma brightness is a
/// fraction; nothing else is asked of it.
pub proof fn valid_configs_can_be_set(config: ConfigView)
    ensures
        config.valid() <==> {
            let o = crate::rounding::one();
            &&& !config.hardware_floor.nan() && 0 <= config.hardware_floor.value() <= o
            &&& forall|id: Seq<char>| #[trigger]
                config.displays.contains_key(id) ==> {
                    &&& config.displays[id].ddc_brightness matches Some(percent) ==> percent <= 100
                    &&& config.displays[id].gamma_brightness matches Some(brightness)
                        ==> !brightness.nan() && 0 <= brightness.value() <= o
                }
        },
{
    let o = crate::rounding::one();
    if !config.hardware_floor.nan() && 0 <= config.hardware_floor.value() <= o && (forall|
        id: Seq<char>,
    | #[trigger]
        config.displays.contains_key(id) ==> {
            &&& config.displays[id].ddc_brightness matches Some(percent) ==> percent <= 100
            &&& config.displays[id].gamma_brightness matches Some(brightness) ==> !brightness.nan()
                && 0 <= brightness.value() <= o
        }) {
        assert forall|id: Seq<char>| #[trigger] config.displays.contains_key(id) implies
            ddc_in_range(config.displays[id]) && gamma_in_range(config.displays[id]) by {}
    }
    if config.valid() {
        assert forall|id: Seq<char>| #[trigger] config.displays.contains_key(id) implies {
            &&& config.displays[id].ddc_brightness matches Some(percent) ==> percent <= 100
            &&& config.displays[id].gamma_brightness matches Some(brightness) ==> !brightness.nan()
                && 0 <= brightness.value() <= o
        } by {
            assert(ddc_in_range(config.displays[id]) && gamma_in_range(config.displays[id]));
        }
    }
}

/// What is reported of a configuration is the first fault: that of the floor,
/// or else that of the first display that has one, its hardware brightness
/// before its gamma brightness.
pub proof fn the_first_fault_is_reported(
    floor: Binary64,
    ids: Seq<Seq<char>>,
    saved: Seq<SavedDisplay>,
    i: nat,
)
    requires
        ids.len() == saved.len(),
        i <= ids.len(),
        forall|j: int|
            0 <= j < i ==> {
                &&& (#[trigger] saved[j]).ddc_brightness matches Some(percent) ==> percent <= 100
                &&& saved[j].gamma_brightness matches Some(brightness) ==> !brightness.nan() && 0
                    <= brightness.value() <= crate::rounding::one()
            },
    ensures
        ({
            let o = crate::rounding::one();
            let fault = config_fault(floor, ids, saved);
            let sound = !floor.nan() && 0 <= floor.value() <= o;
            &&& !sound ==> fault == Some("hardware_floor must be finite and between 0.0 and 1.0"@)
            &&& sound && i == ids.len() ==> fault is None
            &&& sound && i < ids.len() ==> {
                let entry = saved[i as int];
                let high = entry.ddc_brightness is Some && entry.ddc_brightness->Some_0 > 100;
                let wild = entry.gamma_brightness is Some && !(
                !entry.gamma_brightness->Some_0.nan() && 0 <= entry.gamma_brightness->Some_0.value()
                    <= o);
                &&& high ==> fault == Some(
                    "display "@ + ids[i as int] + " has an invalid DDC brightness"@,
                )
                &&& !high && wild ==> fault == Some(
                    "display "@ + ids[i as int] + " has an invalid gamma brightness"@,
                )
            }
        }),
{
    lemma_faults_begin_at(ids, saved, i);
}

proof fn lemma_faults_begin_at(ids: Seq<Seq<char>>, saved: Seq<SavedDisplay>, i: nat)
    requires
        i <= ids.len(),
        forall|j: int|
            0 <= j < i ==> {
                &&& (#[trigger] saved[j]).ddc_brightness matches Some(percent) ==> percent <= 100
                &&& saved[j].gamma_brightness matches Some(brightness) ==> !brightness.nan() && 0
                    <= brightness.value() <= crate::rounding::one()
            },
    ensures
        first_fault(ids, saved, 0) == first_fault(ids, saved, i),
    decreases i,
{
    if i > 0 {
        lemma_faults_begin_at(ids, saved, (i - 1) as nat);
        assert(ddc_in_range(saved[i - 1]));
        assert(gamma_in_range(saved[i - 1]));
    }
}

/// Where there is no file, the configuration is the default one, with nothing
/// saved. A file that cannot be read or parsed is reported with its path; what
/// was parsed is taken as it is, unless it has a fault.
pub proof fn files_are_taken_as_they_are(path: Seq<char>, source: ConfigSource)
    requires
        source matches ConfigSource::Parsed(config) ==> config.displays.wf(),
    ensures
        match (source, loaded(path, source)) {
            (ConfigSource::Missing, Ok(config)) => config.hardware_floor.bits
                == DEFAULT_HARDWARE_FLOOR && forall|id: Seq<char>|
                !#[trigger] config.displays.contains_key(id),
            (ConfigSource::Unreadable(error), Err(message)) => message == "failed to read "@ + path
                + ": "@ + error@,
            (ConfigSource::Unparsable(error), Err(message)) => message == "failed to parse "@ + path
                + ": "@ + error@,
            (ConfigSource::Parsed(found), Ok(config)) => config == found@ && found@.valid(),
            (ConfigSource::Parsed(found), Err(message)) => !found@.valid() && config_fault(
                found.hardware_floor,
                found.displays.keys(),
                found.displays.values(),
            ) == Some(message),
            _ => false,
        },
{
    if let ConfigSource::Parsed(config) = source {
        lemma_config_fault(&config);
    }
}

/// Saving takes four steps in this order: the directory is made, the
/// configuration is encoded, it is written beside the file, and it takes the
/// place of the file. The first step that fails ends it and is named.
pub proof fn saving_takes_four_steps(
    paths: &ConfigPaths,
    outcomes: Seq<Result<(), Seq<char>>>,
    n: nat,
)
    requires
        paths.parent is Some,
        n <= 4,
        n <= outcomes.len(),
        forall|i: int| 0 <= i < n ==> (#[trigger] outcomes[i]) is Ok,
    ensures
        ({
            let step = save_step(None, paths, outcomes, 0);
            &&& n == 0 && outcomes.len() == 0 ==> step is CreateDirectory
            &&& n == 1 && outcomes.len() == 1 ==> step is Encode
            &&& n == 2 && outcomes.len() == 2 ==> step is WriteTemporary
            &&& n == 3 && outcomes.len() == 3 ==> step is Replace
            &&& n == 4 ==> step == SaveStepView::Done(Ok(()))
            &&& n < 4 && n < outcomes.len() ==> (outcomes[n as int] matches Err(error) ==> step
                == SaveStepView::Done(
                Err(
                    (if n == 0 {
                        "failed to create "@ + paths.parent->Some_0@
                    } else if n == 1 {
                        "failed to encode configuration"@
                    } else if n == 2 {
                        "failed to write "@ + paths.temporary@
                    } else {
                        "failed to atomically replace "@ + paths.path@ + " with "@
                            + paths.temporary@
                    }) + ": "@ + error,
                ),
            ))
        }),
{
    lemma_save_reaches(paths, outcomes, n);
}

proof fn lemma_save_reaches(
    paths: &ConfigPaths,
    outcomes: Seq<Result<(), Seq<char>>>,
    n: nat,
)
    requires
        paths.parent is Some,
        n <= 4,
        n <= outcomes.len(),
        forall|i: int| 0 <= i < n ==> (#[trigger] outcomes[i]) is Ok,
    ensures
        save_step(None, paths, outcomes, 0) == save_step(None, paths, outcomes, n),
    decreases n,
{
    if n > 0 {
        lemma_save_reaches(paths, outcomes, (n - 1) as nat);
        assert(outcomes[n - 1] is Ok);
    }
}

/// A configuration with a fault, or without a directory to go to, is not saved.
pub proof fn faulty_configs_are_not_saved(
    message: Seq<char>,
    paths: &ConfigPaths,
    outcomes: Seq<Result<(), Seq<char>>>,
)
    ensures
        save_step(Some(message), paths, outcomes, 0) == SaveStepView::Done(Err(message)),
        paths.parent is None ==> save_step(None, paths, outcomes, 0) == SaveStepView::Done(
            Err("configuration path has no parent directory"@),
        ),
{
}

/// Saving a setting changes that setting of that display and nothing else.
pub proof fn settings_change_one_value(
    config: ConfigView,
    id: Seq<char>,
    percent: u16,
    brightness: Binary64,
    other: Seq<char>,
)
    requires
        other != id,
    ensures
        ({
            let ddc = config.with_ddc(id, percent);
            let gamma = config.with_gamma(id, brightness);
            let known = config.displays.contains_key(id);
            &&& ddc.hardware_floor == config.hardware_floor
            &&& gamma.hardware_floor == config.hardware_floor
            &&& ddc.displays.contains_key(id)
            &&& gamma.displays.contains_key(id)
            &&& ddc.displays[id].ddc_brightness == Some(percent)
            &&& gamma.displays[id].gamma_brightness == Some(brightness)
            &&& known ==> ddc.displays[id].gamma_brightness == config.displays[id].gamma_brightness
            &&& known ==> gamma.displays[id].ddc_brightness == config.displays[id].ddc_brightness
            &&& !known ==> ddc.displays[id].gamma_brightness is None
            &&& !known ==> gamma.displays[id].ddc_brightness is None
            &&& ddc.displays.contains_key(other) == config.displays.contains_key(other)
            &&& gamma.displays.contains_key(other) == config.displays.contains_key(other)
            &&& config.displays.contains_key(other) ==> ddc.displays[other]
                == config.displays[other]
            &&& config.displays.contains_key(other) ==> gamma.displays[other]
                == config.displays[other]
        }),
{
}

/// The displays of a configuration stand in the order of their identifiers, so
/// that the first fault is that of the first identifier that has one.
pub proof fn displays_are_kept_by_identifier(config: &Config, i: int, j: int)
    requires
        config.displays.wf(),
        0 <= i < j < config.displays.keys().len(),
    ensures
        crate::order::text_before(config.displays.keys()[i], config.displays.keys()[j]),
{
    let a = config.displays.keys()[i];
    let b = config.displays.keys()[j];
    let none = Seq::<u64>::empty();
    let x = <String as crate::order::Ranked>::rank_of(a);
    let y = <String as crate::order::Ranked>::rank_of(b);
    assert(crate::order::precedes(x, y));
    crate::order::leading_texts_decide(b, none, a, none);
    crate::order::texts_are_totally_ordered(a, b);
    crate::order::precedes_is_irreflexive(x);
    assert(x + none =~= x);
    assert(y + none =~= y);
}

/// Steps of saving say what they hold, and a configuration its floor and what is
/// saved.
pub proof fn steps_say_what_they_hold(step: SaveStep, config: Config)
    ensures
        match step {
            SaveStep::CreateDirectory => step@ is CreateDirectory,
            SaveStep::Encode => step@ is Encode,
            SaveStep::WriteTemporary => step@ is WriteTemporary,
            SaveStep::Replace => step@ is Replace,
            SaveStep::Done(Ok(_)) => step@ == SaveStepView::Done(Ok(())),
            SaveStep::Done(Err(message)) => step@ == SaveStepView::Done(Err(message@)),
        },
        config@.hardware_floor == config.hardware_floor,
        config@.displays == config.displays@,
{
}

/// The hardware floor of a configuration that says nothing about it is a fifth,
/// but for rounding.
pub proof fn the_default_floor_is_a_fifth()
    ensures
        default_floor().finite(),
        crate::binary64::gap(5 * default_floor().value(), crate::rounding::one() as int)
            <= crate::binary64::epsilon().value(),
{
    crate::binary64::lemma_literals();
    crate::binary64::encodings_denote_numbers(1020, 0x9_9999_9999_999a);
    let p = vstd::arithmetic::power2::pow2(1019);
    assert(default_floor().value() == 0x19_9999_9999_999a * p);
    vstd::arithmetic::power2::lemma2_to64();
    vstd::arithmetic::power2::lemma2_to64_rest();
    vstd::arithmetic::power2::lemma_pow2_adds(55, 1019);
    vstd::arithmetic::power2::lemma_pow2_adds(3, 1019);
    assert(crate::rounding::one() == 0x80_0000_0000_0000 * p);
    assert(crate::binary64::epsilon().value() == 8 * p);
    assert(5 * (0x19_9999_9999_999a * p) == 0x80_0000_0000_0002 * p) by (nonlinear_arith);
    assert(0x80_0000_0000_0002 * p == 0x80_0000_0000_0000 * p + 2 * p) by (nonlinear_arith);
}

} // verus!
