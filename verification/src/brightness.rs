//! Hardware-independent brightness policy and public monitor model.

use vstd::prelude::*;

use crate::binary64::{epsilon, full_scale, hundred, unity, zero, Binary64};

verus! {

/// Default hardware level below which unified control switches to a gamma
/// table, by its encoding: 0.2.
pub const DEFAULT_HARDWARE_FLOOR: u64 = 0x3fc9_9999_9999_999a;

/// A monitor as exposed over D-Bus.
///
/// Empty `connector` and `last_error` strings represent an unavailable value.
#[derive(Debug)]
pub struct DisplayInfo {
    pub id: String,
    pub name: String,
    pub connector: String,
    pub ddc_brightness: u16,
    pub ddc_supported: bool,
    pub gamma_brightness: Binary64,
    pub gamma_supported: bool,
    pub last_error: String,
}

/// What a `DisplayInfo` says.
#[verifier::ext_equal]
pub struct DisplayInfoView {
    pub id: Seq<char>,
    pub name: Seq<char>,
    pub connector: Seq<char>,
    pub ddc_brightness: u16,
    pub ddc_supported: bool,
    pub gamma_brightness: Binary64,
    pub gamma_supported: bool,
    pub last_error: Seq<char>,
}

impl View for DisplayInfo {
    type V = DisplayInfoView;

    open spec fn view(&self) -> DisplayInfoView {
        DisplayInfoView {
            id: self.id@,
            name: self.name@,
            connector: self.connector@,
            ddc_brightness: self.ddc_brightness,
            ddc_supported: self.ddc_supported,
            gamma_brightness: self.gamma_brightness,
            gamma_supported: self.gamma_supported,
            last_error: self.last_error@,
        }
    }
}

impl Clone for DisplayInfo {
    fn clone(&self) -> (r: Self)
        ensures
            r == *self,
    {
        DisplayInfo {
            id: self.id.clone(),
            name: self.name.clone(),
            connector: self.connector.clone(),
            ddc_brightness: self.ddc_brightness,
            ddc_supported: self.ddc_supported,
            gamma_brightness: self.gamma_brightness,
            gamma_supported: self.gamma_supported,
            last_error: self.last_error.clone(),
        }
    }
}

/// The share of light that a whole percentage of hardware brightness lets
/// through.
pub open spec fn hardware_share(percent: u16) -> Binary64 {
    crate::binary64::quotient(crate::binary64::whole_number(percent as nat), hundred())
}

/// The emitted light, as a percentage, behind a hardware share and a gamma
/// multiplier.
pub open spec fn emitted_percent(hardware: Binary64, gamma: Binary64) -> Binary64 {
    crate::binary64::clamped(
        crate::binary64::product(crate::binary64::product(hardware, gamma), hundred()),
        zero(),
        hundred(),
    )
}

/// The share of light that a whole percentage lets through.
pub fn hardware_fraction(percent: u16) -> (r: Binary64)
    ensures
        r == hardware_share(percent),
{
    Binary64::whole(percent as u64).over(hundred())
}

/// The emitted light as a percentage.
pub fn light_percent(hardware: Binary64, gamma: Binary64) -> (r: Binary64)
    ensures
        r == emitted_percent(hardware, gamma),
{
    hardware.times(gamma).times(hundred()).clamp(zero(), hundred())
}

impl DisplayInfoView {
    /// The estimated emitted-light percentage after both controls; a control
    /// that the display lacks lets everything through.
    pub open spec fn effective(self) -> Binary64 {
        emitted_percent(
            if self.ddc_supported {
                hardware_share(self.ddc_brightness)
            } else {
                unity()
            },
            if self.gamma_supported {
                self.gamma_brightness
            } else {
                unity()
            },
        )
    }
}

impl DisplayInfo {
    /// Returns the estimated emitted-light percentage after both controls.
    pub fn effective_percent(&self) -> (r: Binary64)
        ensures
            r == self@.effective(),
    {
        let hardware = if self.ddc_supported {
            hardware_fraction(self.ddc_brightness)
        } else {
            unity()
        };
        let gamma = if self.gamma_supported {
            self.gamma_brightness
        } else {
            unity()
        };
        light_percent(hardware, gamma)
    }
}

/// Values that the unified brightness control should apply.
#[derive(Debug, Clone, Copy, PartialEq, Eq, Structural)]
pub struct BrightnessPlan {
    pub hardware_percent: Option<u16>,
    pub gamma_brightness: Option<Binary64>,
}

/// Input validation and capability errors from the brightness policy.
#[derive(Debug, Clone, Copy, PartialEq, Eq, Structural)]
pub enum BrightnessError {
    InvalidTarget,
    InvalidFloor,
    Unsupported,
    InvalidRampSize,
}

impl BrightnessError {
    /// The message of each error.
    pub open spec fn message_text(self) -> Seq<char> {
        match self {
            BrightnessError::InvalidTarget => "brightness must be finite and between 0.0 and 1.0"@,
            BrightnessError::InvalidFloor => "hardware floor must be finite and between 0.0 and 1.0"@,
            BrightnessError::Unsupported => "the display exposes neither DDC nor gamma control"@,
            BrightnessError::InvalidRampSize => "gamma ramp size must be at least 2"@,
        }
    }

    /// The message of the error.
    pub fn message(&self) -> (r: String)
        ensures
            r@ == self.message_text(),
    {
        match self {
            BrightnessError::InvalidTarget => {
                "brightness must be finite and between 0.0 and 1.0".to_owned()
            },
            BrightnessError::InvalidFloor => {
                "hardware floor must be finite and between 0.0 and 1.0".to_owned()
            },
            BrightnessError::Unsupported => {
                "the display exposes neither DDC nor gamma control".to_owned()
            },
            BrightnessError::InvalidRampSize => "gamma ramp size must be at least 2".to_owned(),
        }
    }
}

/// Whether a whole percentage of hardware brightness lets at least `x` through.
pub open spec fn covers(percent: u16, x: Binary64) -> bool {
    x.value() <= hardware_share(percent).value()
}

/// Whether `percent` is the least whole percentage that lets at least `x`
/// through.
pub open spec fn just_covers(percent: u16, x: Binary64) -> bool {
    &&& percent <= 100
    &&& covers(percent, x)
    &&& forall|less: u16| less < percent ==> !#[trigger] covers(less, x)
}

/// A fraction as a percentage, rounded up to a whole one: the least that lets
/// at least the fraction through.
pub open spec fn quantized(x: Binary64) -> u16 {
    choose|percent: u16| just_covers(percent, x)
}

/// A fraction as a percentage, rounded to the nearest whole one.
pub open spec fn nearest_percent(x: Binary64) -> u16 {
    crate::binary64::saturated(
        crate::binary64::nearest_whole(crate::binary64::product(x, hundred()).value() as nat),
    )
}

/// The hardware percentage of a display with both controls: neither the target
/// nor the floor, each rounded up, lies above it.
pub open spec fn hardware_level(target: Binary64, floor: Binary64) -> u16 {
    if quantized(floor) > quantized(target) {
        quantized(floor)
    } else {
        quantized(target)
    }
}

/// The gamma multiplier that leads from a hardware percentage to the target.
pub open spec fn gamma_remainder(target: Binary64, percent: u16) -> Binary64 {
    if percent == 0 {
        unity()
    } else {
        crate::binary64::clamped(
            crate::binary64::quotient(target, hardware_share(percent)),
            zero(),
            unity(),
        )
    }
}

/// How an effective target is split between the controls of a display.
pub open spec fn planned(
    target: Binary64,
    hardware_floor: Binary64,
    ddc_available: bool,
    gamma_available: bool,
) -> Result<BrightnessPlan, BrightnessError> {
    if !target.fraction() {
        Err(BrightnessError::InvalidTarget)
    } else if !hardware_floor.fraction() {
        Err(BrightnessError::InvalidFloor)
    } else if ddc_available && gamma_available {
        let percent = hardware_level(target, hardware_floor);
        Ok(
            BrightnessPlan {
                hardware_percent: Some(percent),
                gamma_brightness: Some(gamma_remainder(target, percent)),
            },
        )
    } else if ddc_available {
        Ok(
            BrightnessPlan {
                hardware_percent: Some(nearest_percent(target)),
                gamma_brightness: None,
            },
        )
    } else if gamma_available {
        Ok(BrightnessPlan { hardware_percent: None, gamma_brightness: Some(target) })
    } else {
        Err(BrightnessError::Unsupported)
    }
}

/// Products of fractions and of numbers from one up are numbers from zero up.
proof fn lemma_product_sign(a: Binary64, b: Binary64)
    requires
        a.finite(),
        b.finite(),
        a.value() >= 0,
        b.value() >= 0,
    ensures
        !crate::binary64::product(a, b).nan(),
        crate::binary64::product(a, b).value() >= 0,
        crate::binary64::product(a, b).size() == crate::rounding::units(
            crate::rounding::rounded(a.size() * b.size(), crate::rounding::one()) as nat,
        ),
{
    crate::binary64::lemma_literals();
    let n = a.size() * b.size();
    crate::rounding::rounding_is_monotone(n, n, crate::rounding::one());
    if a.negative() || b.negative() {
        let x = a.size();
        let y = b.size();
        assert(x * y == 0) by (nonlinear_arith)
            requires
                x == 0 || y == 0,
        ;
        crate::rounding::zero_is_kept(crate::rounding::one());
    }
}

/// A hundred times a fraction is at most a hundred, rounded up or to the nearest
/// whole number.
proof fn lemma_percent_range(x: Binary64)
    requires
        x.fraction(),
    ensures
        !crate::binary64::product(x, hundred()).nan(),
        crate::binary64::product(x, hundred()).value() >= 0,
        crate::binary64::saturated(
            crate::binary64::ceiling(crate::binary64::product(x, hundred()).value() as nat),
        ) <= 100,
        nearest_percent(x) <= 100,
{
    crate::binary64::lemma_literals();
    lemma_fraction_is_finite(x);
    lemma_product_sign(x, hundred());
    let o = crate::rounding::one();
    let p = crate::binary64::product(x, hundred());
    let v = p.value() as nat;
    let n = x.size() * hundred().size();
    let s = x.size();
    assert(n <= (100 * o) * o) by (nonlinear_arith)
        requires
            n == s * (100 * o),
            s <= o,
    ;
    crate::rounding::rounding_respects_magnitudes(n, o, hundred().bits as nat);
    let m = crate::rounding::rounded(n, o) as nat;
    if m < hundred().bits {
        crate::rounding::units_increase(m, hundred().bits as nat);
    }
    assert(v <= 100 * o);
    lemma_ceiling(v, 100);
    lemma_nearest_whole(v, 100);
}

/// A greater percentage does not let less through; none lets nothing through,
/// and a hundred percent everything.
proof fn lemma_share_order(less: u16, percent: u16)
    requires
        less <= percent <= 100,
    ensures
        !hardware_share(less).nan(),
        hardware_share(less).value() == hardware_share(less).size(),
        hardware_share(less).value() <= hardware_share(percent).value(),
        less == 0 ==> hardware_share(less).value() == 0,
        hardware_share(100) == unity(),
{
    crate::binary64::lemma_literals();
    let o = crate::rounding::one();
    let a = crate::binary64::whole_number(less as nat);
    let b = crate::binary64::whole_number(percent as nat);
    let c = crate::binary64::whole_number(100);
    lemma_whole_range(less as nat);
    lemma_whole_range(percent as nat);
    lemma_whole_range(100);
    lemma_whole_order(less as nat, percent as nat);
    lemma_quotient_order(a, b, hundred());
    lemma_quotient_order(b, b, hundred());
    // A hundred is a number, so it is its own nearest number.
    crate::rounding::representable_is_kept(hundred().bits as nat);
    assert(c.size() == 100 * o);
    let n = c.size() * o;
    let d = hundred().size();
    assert(n == o * d) by (nonlinear_arith)
        requires
            n == (100 * o) * o,
            d == 100 * o,
    ;
    crate::rounding::rounding_respects_magnitudes(n, d, unity().bits as nat);
}

proof fn lemma_least_covering(x: Binary64, percent: u16)
    requires
        percent <= 100,
        covers(percent, x),
    ensures
        exists|least: u16| just_covers(least, x),
    decreases percent,
{
    if forall|less: u16| less < percent ==> !#[trigger] covers(less, x) {
        assert(just_covers(percent, x));
    } else {
        let less = choose|less: u16| less < percent && #[trigger] covers(less, x);
        lemma_least_covering(x, less);
    }
}

/// A fraction is rounded up to the least percentage that lets it through: at
/// most a hundred, and none only for zero. The percentage below lets less
/// through.
pub proof fn quantized_range(x: Binary64)
    requires
        x.fraction(),
    ensures
        just_covers(quantized(x), x),
        x.value() <= hardware_share(quantized(x)).value(),
        quantized(x) > 0 ==> hardware_share((quantized(x) - 1) as u16).value() < x.value(),
        quantized(x) <= 100,
        quantized(x) == 0 <==> x.value() == 0,
        forall|percent: u16| #[trigger] just_covers(percent, x) ==> percent == quantized(x),
{
    crate::binary64::lemma_literals();
    lemma_share_order(0, 100);
    lemma_share_order(100, 100);
    assert(covers(100, x));
    lemma_least_covering(x, 100);
    let percent = quantized(x);
    if percent > 0 {
        assert(!covers((percent - 1) as u16, x));
        assert(!covers(0, x));
    }
    assert forall|other: u16| #[trigger] just_covers(other, x) implies other == percent by {
        if other < percent {
            assert(!covers(other, x));
        } else if percent < other {
            assert(!covers(percent, x));
        }
    }
}

proof fn lemma_units_of_one()
    ensures
        crate::rounding::units(1) == 1,
{
    crate::rounding::lemma_powers();
    assert(crate::rounding::units(1) == 1 * vstd::arithmetic::power2::pow2(0));
}

pub(crate) proof fn lemma_fraction_is_finite(x: Binary64)
    requires
        x.fraction(),
    ensures
        x.finite(),
        x.negative() ==> x.size() == 0,
{
    crate::binary64::lemma_literals();
    if x.infinite() {
        crate::rounding::units_increase(
            unity().bits as nat,
            crate::rounding::INFINITE as nat,
        );
    }
}

proof fn lemma_ceiling(v: nat, k: nat)
    requires
        v <= k * crate::rounding::one(),
    ensures
        crate::binary64::ceiling(v) <= k,
        v <= crate::binary64::ceiling(v) * crate::rounding::one(),
        crate::binary64::ceiling(v) == 0 <==> v == 0,
{
    crate::binary64::lemma_literals();
    let o = crate::rounding::one();
    let q = v / o;
    let r = v % o;
    vstd::arithmetic::div_mod::lemma_fundamental_div_mod(v as int, o as int);
    assert(q * o == o * q) by (nonlinear_arith);
    assert((q + 1) * o == q * o + o) by (nonlinear_arith);
    assert(q <= k) by (nonlinear_arith)
        requires
            q * o <= k * o,
            o > 0,
    ;
    if r > 0 {
        assert(q < k) by (nonlinear_arith)
            requires
                q * o < k * o,
                o > 0,
        ;
    }
}

proof fn lemma_nearest_whole(v: nat, k: nat)
    requires
        v <= k * crate::rounding::one(),
    ensures
        crate::binary64::nearest_whole(v) <= k,
{
    crate::binary64::lemma_literals();
    let o = crate::rounding::one();
    let q = crate::binary64::nearest_whole(v);
    vstd::arithmetic::div_mod::lemma_fundamental_div_mod((2 * v + o) as int, (2 * o) as int);
    assert(q <= k) by (nonlinear_arith)
        requires
            (2 * o) * q <= 2 * v + o,
            v <= k * o,
            o > 0,
    ;
}

fn quantized_percent(x: Binary64) -> (r: u16)
    requires
        x.fraction(),
    ensures
        r == quantized(x),
        r <= 100,
{
    proof {
        lemma_percent_range(x);
        quantized_range(x);
        lemma_share_order(0, 100);
        crate::binary64::lemma_literals();
    }
    // The product is rounded, so its ceiling can miss the percentage by one.
    let mut percent: u16 = x.times(hundred()).ceil_u16();
    while percent < 100 && hardware_fraction(percent).is_below(x)
        invariant
            percent <= 100,
            x.fraction(),
        decreases 100 - percent,
    {
        percent = percent + 1;
    }
    assert(covers(percent, x)) by {
        lemma_share_order(percent, 100);
    }
    while percent > 0 && !hardware_fraction(percent - 1).is_below(x)
        invariant
            percent <= 100,
            x.fraction(),
            covers(percent, x),
        decreases percent,
    {
        proof {
            lemma_share_order((percent - 1) as u16, 100);
        }
        percent = percent - 1;
    }
    proof {
        assert forall|less: u16| less < percent implies !#[trigger] covers(less, x) by {
            lemma_share_order(less, (percent - 1) as u16);
            lemma_share_order((percent - 1) as u16, 100);
        }
        assert(just_covers(percent, x));
    }
    percent
}

impl BrightnessPlan {
    /// Split an effective target between DDC and a software gamma multiplier.
    ///
    /// With both mechanisms available, DDC is used down to `hardware_floor`.
    /// Targets below it keep that hardware level and attenuate the gamma table.
    /// DDC takes whole percentages, so both are rounded up to one: the hardware
    /// never undershoots the target, and gamma provides the remainder.
    pub fn for_target(
        target: Binary64,
        hardware_floor: Binary64,
        ddc_available: bool,
        gamma_available: bool,
    ) -> (r: Result<BrightnessPlan, BrightnessError>)
        ensures
            r == planned(target, hardware_floor, ddc_available, gamma_available),
    {
        if !target.is_fraction() {
            return Err(BrightnessError::InvalidTarget);
        }
        if !hardware_floor.is_fraction() {
            return Err(BrightnessError::InvalidFloor);
        }
        match (ddc_available, gamma_available) {
            (true, true) => {
                let floor_percent: u16 = quantized_percent(hardware_floor);
                let target_percent: u16 = quantized_percent(target);
                let percent: u16 = if floor_percent > target_percent {
                    floor_percent
                } else {
                    target_percent
                };
                let gamma = if percent == 0 {
                    unity()
                } else {
                    target.over(hardware_fraction(percent)).clamp(zero(), unity())
                };
                Ok(BrightnessPlan { hardware_percent: Some(percent), gamma_brightness: Some(gamma) })
            },
            (true, false) => {
                proof {
                    crate::binary64::lemma_literals();
                    lemma_fraction_is_finite(target);
                    lemma_product_sign(target, hundred());
                }
                Ok(
                    BrightnessPlan {
                        hardware_percent: Some(target.times(hundred()).round_u16()),
                        gamma_brightness: None,
                    },
                )
            },
            (false, true) => Ok(
                BrightnessPlan { hardware_percent: None, gamma_brightness: Some(target) },
            ),
            (false, false) => Err(BrightnessError::Unsupported),
        }
    }
}

/// Entry `index` of a ramp with `size` entries: the linear ramp from zero to the
/// greatest entry, dimmed by `brightness`.
pub open spec fn ramp_entry(size: nat, brightness: Binary64, index: nat) -> u16 {
    let normalized = crate::binary64::quotient(
        crate::binary64::whole_number(index),
        crate::binary64::whole_number((size - 1) as nat),
    );
    let level = crate::binary64::product(
        crate::binary64::product(normalized, brightness),
        full_scale(),
    );
    crate::binary64::saturated(crate::binary64::nearest_whole(level.value() as nat))
}

/// The ramp of one colour.
pub open spec fn ramp(size: nat, brightness: Binary64) -> Seq<u16> {
    Seq::new(size, |i: int| ramp_entry(size, brightness, i as nat))
}

/// A whole number of 64 bits is encoded as a positive finite number, and zero
/// as zero.
proof fn lemma_whole_range(n: nat)
    requires
        n <= u64::MAX,
    ensures
        crate::binary64::whole_number(n).finite(),
        !crate::binary64::whole_number(n).negative(),
        n > 0 ==> crate::binary64::whole_number(n).size() >= crate::rounding::one(),
        n == 0 ==> crate::binary64::whole_number(n).size() == 0,
        crate::binary64::whole_number(n).size() <= crate::rounding::units(0x43f0_0000_0000_0000),
{
    crate::binary64::lemma_literals();
    let o = crate::rounding::one();
    let v = n * o;
    let m = crate::rounding::rounded(v, 1) as nat;
    // 2^64 is a number, so nothing up to it is rounded beyond it.
    let top = 0x43f0_0000_0000_0000nat;
    let b = crate::rounding::BAND as nat;
    crate::rounding::lemma_powers();
    assert(top / b - 1 == 1086 && top % b == 0);
    vstd::arithmetic::power2::lemma_pow2_adds(52, 1086);
    vstd::arithmetic::power2::lemma_pow2_adds(64, 1074);
    assert(v <= 0x1_0000_0000_0000_0000 * o) by (nonlinear_arith)
        requires
            v == n * o,
            n <= 0x1_0000_0000_0000_0000,
    ;
    assert(crate::rounding::units(top) * 1 == crate::rounding::units(top));
    crate::rounding::rounding_respects_magnitudes(v, 1, top);
    if m < top {
        crate::rounding::units_increase(m, top);
    }
    if n > 0 {
        assert(v >= o) by (nonlinear_arith)
            requires
                v == n * o,
                n >= 1,
        ;
        let one = unity().bits as nat;
        assert(crate::rounding::units(one) * 1 == crate::rounding::units(one));
        crate::rounding::rounding_respects_magnitudes(v, 1, one);
        if one < m {
            crate::rounding::units_increase(one, m);
        }
    } else {
        assert(0 * o == 0);
        crate::rounding::zero_is_kept(1);
        crate::binary64::lemma_size_zero(0);
    }
}

/// A greater dividend does not give a lesser quotient.
proof fn lemma_quotient_order(a: Binary64, b: Binary64, d: Binary64)
    requires
        a.finite(),
        b.finite(),
        d.finite(),
        !a.negative(),
        !b.negative(),
        !d.negative(),
        a.size() <= b.size(),
        d.size() > 0,
    ensures
        !crate::binary64::quotient(a, d).nan(),
        !crate::binary64::quotient(a, d).negative(),
        crate::binary64::quotient(a, d).size() <= crate::binary64::quotient(b, d).size(),
        a.size() <= d.size() ==> crate::binary64::quotient(a, d).size() <= crate::rounding::one(),
        a.size() == 0 ==> crate::binary64::quotient(a, d).size() == 0,
{
    crate::binary64::lemma_literals();
    let o = crate::rounding::one();
    let x = a.size();
    let y = b.size();
    let z = d.size();
    assert(x * o <= y * o) by (nonlinear_arith)
        requires
            x <= y,
    ;
    crate::rounding::rounding_is_monotone(x * o, y * o, z);
    let m = crate::rounding::rounded(x * o, z) as nat;
    let k = crate::rounding::rounded(y * o, z) as nat;
    if m < k {
        crate::rounding::units_increase(m, k);
    }
    if x <= z {
        assert(x * o <= o * z) by (nonlinear_arith)
            requires
                x <= z,
        ;
        let one = unity().bits as nat;
        crate::rounding::rounding_respects_magnitudes(x * o, z, one);
        if m < one {
            crate::rounding::units_increase(m, one);
        }
    }
    if x == 0 {
        assert(0 * o == 0);
        crate::rounding::zero_is_kept(z);
        crate::binary64::lemma_size_zero(0);
    }
}

/// A greater factor does not give a lesser product.
proof fn lemma_product_order(a: Binary64, b: Binary64, c: Binary64)
    requires
        a.finite(),
        b.finite(),
        c.finite(),
        a.value() >= 0,
        b.value() >= 0,
        c.value() >= 0,
        a.size() <= b.size(),
    ensures
        !crate::binary64::product(a, c).nan(),
        crate::binary64::product(a, c).value() >= 0,
        crate::binary64::product(a, c).size() <= crate::binary64::product(b, c).size(),
        a.size() <= crate::rounding::one() ==> crate::binary64::product(a, c).size() <= c.size(),
        c.size() <= crate::rounding::one() ==> crate::binary64::product(a, c).size() <= a.size(),
        a.size() == 0 || c.size() == 0 ==> crate::binary64::product(a, c).size() == 0,
{
    crate::binary64::lemma_literals();
    lemma_product_sign(a, c);
    lemma_product_sign(b, c);
    let o = crate::rounding::one();
    let x = a.size();
    let y = b.size();
    let z = c.size();
    assert(x * z <= y * z) by (nonlinear_arith)
        requires
            x <= y,
    ;
    crate::rounding::rounding_is_monotone(x * z, y * z, o);
    let m = crate::rounding::rounded(x * z, o) as nat;
    let k = crate::rounding::rounded(y * z, o) as nat;
    if m < k {
        crate::rounding::units_increase(m, k);
    }
    if x <= o {
        assert(x * z <= z * o) by (nonlinear_arith)
            requires
                x <= o,
        ;
        let t = c.magnitude() as nat;
        crate::rounding::rounding_respects_magnitudes(x * z, o, t);
        if m < t {
            crate::rounding::units_increase(m, t);
        }
    }
    if z <= o {
        assert(x * z <= x * o) by (nonlinear_arith)
            requires
                z <= o,
        ;
        let t = a.magnitude() as nat;
        crate::rounding::rounding_respects_magnitudes(x * z, o, t);
        if m < t {
            crate::rounding::units_increase(m, t);
        }
    }
    if x == 0 || z == 0 {
        assert(x * z == 0) by (nonlinear_arith)
            requires
                x == 0 || z == 0,
        ;
        crate::rounding::zero_is_kept(o);
        crate::binary64::lemma_size_zero(0);
    }
}

/// What is computed on the way to a ramp entry.
proof fn lemma_ramp_steps(size: nat, brightness: Binary64, index: nat)
    requires
        2 <= size <= u64::MAX,
        index < size,
        brightness.fraction(),
    ensures
        ({
            let normalized = crate::binary64::quotient(
                crate::binary64::whole_number(index),
                crate::binary64::whole_number((size - 1) as nat),
            );
            let dimmed = crate::binary64::product(normalized, brightness);
            let level = crate::binary64::product(dimmed, full_scale());
            &&& normalized.finite() && !normalized.negative()
            &&& normalized.size() <= crate::rounding::one()
            &&& dimmed.finite() && dimmed.value() >= 0
            &&& dimmed.size() <= crate::rounding::one()
            &&& !level.nan() && level.value() >= 0
            &&& level.value() == level.size()
            &&& brightness.size() == 0 || index == 0 ==> level.size() == 0
        }),
{
    crate::binary64::lemma_literals();
    lemma_fraction_is_finite(brightness);
    let last = crate::binary64::whole_number((size - 1) as nat);
    let this = crate::binary64::whole_number(index);
    lemma_whole_range((size - 1) as nat);
    lemma_whole_range(index);
    lemma_whole_order(index, (size - 1) as nat);
    lemma_quotient_order(this, this, last);
    let normalized = crate::binary64::quotient(this, last);
    lemma_at_most_one_is_finite(normalized);
    lemma_product_order(normalized, normalized, brightness);
    let dimmed = crate::binary64::product(normalized, brightness);
    lemma_at_most_one_is_finite(dimmed);
    lemma_product_order(dimmed, dimmed, full_scale());
}

proof fn lemma_at_most_one_is_finite(x: Binary64)
    requires
        !x.nan(),
        x.size() <= crate::rounding::one(),
    ensures
        x.finite(),
{
    crate::binary64::lemma_literals();
    if x.infinite() {
        crate::rounding::units_increase(unity().bits as nat, crate::rounding::INFINITE as nat);
    }
}

proof fn lemma_whole_order(a: nat, b: nat)
    requires
        a <= b,
    ensures
        crate::binary64::whole_number(a).size() <= crate::binary64::whole_number(b).size(),
{
    let o = crate::rounding::one();
    assert(a * o <= b * o) by (nonlinear_arith)
        requires
            a <= b,
    ;
    crate::rounding::rounding_is_monotone(a * o, b * o, 1);
    let m = crate::rounding::rounded(a * o, 1) as nat;
    let k = crate::rounding::rounded(b * o, 1) as nat;
    if m < k {
        crate::rounding::units_increase(m, k);
    }
}

/// The ramps of the three colours, which are the same.
pub open spec fn three_ramps(size: nat, brightness: Binary64) -> Seq<u16> {
    ramp(size, brightness) + ramp(size, brightness) + ramp(size, brightness)
}

/// Build the native-endian `RRR…GGG…BBB…` table required by
/// `wlr-gamma-control-unstable-v1`.
pub fn gamma_table(size: usize, brightness: Binary64) -> (r: Result<Vec<u16>, BrightnessError>)
    ensures
        size < 2 ==> r == Err::<Vec<u16>, BrightnessError>(BrightnessError::InvalidRampSize),
        size >= 2 && !brightness.fraction() ==> r == Err::<Vec<u16>, BrightnessError>(
            BrightnessError::InvalidTarget,
        ),
        size >= 2 && brightness.fraction() ==> {
            &&& r is Ok
            &&& r->Ok_0@ == three_ramps(size as nat, brightness)
        },
{
    if size < 2 {
        return Err(BrightnessError::InvalidRampSize);
    }
    if !brightness.is_fraction() {
        return Err(BrightnessError::InvalidTarget);
    }
    let mut channel: Vec<u16> = Vec::new();
    let last = Binary64::whole((size - 1) as u64);
    for index in 0..size
        invariant
            size >= 2,
            brightness.fraction(),
            last == crate::binary64::whole_number((size - 1) as nat),
            channel@ =~= ramp(size as nat, brightness).take(index as int),
    {
        proof {
            lemma_ramp_steps(size as nat, brightness, index as nat);
        }
        let normalized = Binary64::whole(index as u64).over(last);
        let entry: u16 = normalized.times(brightness).times(full_scale()).round_u16();
        channel.push(entry);
    }
    let mut table: Vec<u16> = Vec::new();
    table.extend_from_slice(channel.as_slice());
    table.extend_from_slice(channel.as_slice());
    table.extend_from_slice(channel.as_slice());
    proof {
        let one = ramp(size as nat, brightness);
        assert(channel@ =~= one);
        assert(table@ =~= one + one + one);
    }
    Ok(table)
}

/// The share that a whole percentage from one to a hundred lets through is a
/// number above zero and at most one.
proof fn lemma_share_range(percent: u16)
    requires
        1 <= percent <= 100,
    ensures
        hardware_share(percent).finite(),
        !hardware_share(percent).negative(),
        0 < hardware_share(percent).size() <= crate::rounding::one(),
{
    crate::binary64::lemma_literals();
    let o = crate::rounding::one();
    let h = crate::binary64::whole_number(percent as nat);
    lemma_whole_range(percent as nat);
    lemma_whole_order(percent as nat, 100);
    // A hundred is a number, so it is its own nearest number.
    crate::rounding::representable_is_kept(hundred().bits as nat);
    assert(crate::binary64::whole_number(100).size() == 100 * o);
    lemma_quotient_order(h, h, hundred());
    lemma_at_most_one_is_finite(hardware_share(percent));
    let n = h.size() * o;
    let d = hundred().size();
    let s = h.size();
    lemma_units_of_one();
    vstd::arithmetic::power2::lemma_pow2_strictly_increases(7, 1074);
    vstd::arithmetic::power2::lemma2_to64();
    assert(n >= 1 * d) by (nonlinear_arith)
        requires
            n == s * o,
            s >= o,
            d == 100 * o,
            o >= 128,
    ;
    crate::rounding::rounding_respects_magnitudes(n, d, 1);
    crate::binary64::lemma_size_zero(crate::rounding::rounded(n, d) as nat);
}

/// The gamma multiplier of a plan is a fraction.
proof fn lemma_remainder_is_fraction(target: Binary64, percent: u16)
    requires
        target.fraction(),
        percent <= 100,
    ensures
        gamma_remainder(target, percent).fraction(),
        percent > 0 && target.value() == 0 ==> gamma_remainder(target, percent).value() == 0,
{
    crate::binary64::lemma_literals();
    if percent > 0 {
        lemma_fraction_is_finite(target);
        lemma_share_range(percent);
        let share = hardware_share(percent);
        let o = crate::rounding::one();
        let x = target.size();
        let n = x * o;
        crate::rounding::rounding_is_monotone(n, n, share.size());
        if x == 0 {
            assert(0 * o == 0);
            crate::rounding::zero_is_kept(share.size());
            crate::binary64::lemma_size_zero(0);
        }
    }
}

/// A plan is made exactly for a fraction as the target, a fraction as the floor
/// and a display with a control; it sets the controls that the display has, to
/// a percentage and to a fraction.
pub proof fn plans_can_be_applied(
    target: Binary64,
    hardware_floor: Binary64,
    ddc_available: bool,
    gamma_available: bool,
)
    ensures
        ({
            let r = planned(target, hardware_floor, ddc_available, gamma_available);
            &&& r is Ok <==> target.fraction() && hardware_floor.fraction() && (ddc_available
                || gamma_available)
            &&& r matches Ok(plan) ==> {
                &&& plan.hardware_percent is Some <==> ddc_available
                &&& plan.gamma_brightness is Some <==> gamma_available
                &&& plan.hardware_percent matches Some(percent) ==> percent <= 100
                &&& plan.gamma_brightness matches Some(gamma) ==> gamma.fraction()
            }
        }),
{
    if target.fraction() && hardware_floor.fraction() {
        lemma_percent_range(target);
        quantized_range(target);
        quantized_range(hardware_floor);
        lemma_remainder_is_fraction(target, hardware_level(target, hardware_floor));
    }
}

/// On a display with both controls the hardware never undershoots: it lets at
/// least the target and at least the floor through. It lets no more through
/// than that takes: the percentage below would undershoot one of them.
pub proof fn hardware_never_undershoots(target: Binary64, hardware_floor: Binary64)
    requires
        target.fraction(),
        hardware_floor.fraction(),
    ensures
        ({
            let level = hardware_level(target, hardware_floor);
            &&& level <= 100
            &&& target.value() <= hardware_share(level).value()
            &&& hardware_floor.value() <= hardware_share(level).value()
            &&& level > 0 ==> {
                ||| hardware_share((level - 1) as u16).value() < target.value()
                ||| hardware_share((level - 1) as u16).value() < hardware_floor.value()
            }
        }),
{
    quantized_range(target);
    quantized_range(hardware_floor);
    let level = hardware_level(target, hardware_floor);
    lemma_share_order(quantized(target), level);
    lemma_share_order(quantized(hardware_floor), level);
}

/// The hardware level is zero only where target and floor both are; gamma then
/// stays at one.
pub proof fn hardware_goes_dark_last(target: Binary64, hardware_floor: Binary64)
    requires
        target.fraction(),
        hardware_floor.fraction(),
    ensures
        hardware_level(target, hardware_floor) == 0 <==> target.value() == 0
            && hardware_floor.value() == 0,
        target.value() == 0 && hardware_floor.value() == 0 ==> planned(
            target,
            hardware_floor,
            true,
            true,
        ) == Ok::<BrightnessPlan, BrightnessError>(
            BrightnessPlan { hardware_percent: Some(0), gamma_brightness: Some(unity()) },
        ),
{
    quantized_range(target);
    quantized_range(hardware_floor);
}

/// With a floor above zero a zero target gives a black gamma table.
pub proof fn zero_target_is_black(target: Binary64, hardware_floor: Binary64, size: nat)
    requires
        target.fraction(),
        target.value() == 0,
        hardware_floor.fraction(),
        hardware_floor.value() > 0,
        2 <= size <= u64::MAX,
    ensures
        ({
            let plan = planned(target, hardware_floor, true, true)->Ok_0;
            forall|i: int|
                0 <= i < size ==> #[trigger] ramp(size, plan.gamma_brightness->Some_0)[i] == 0
        }),
{
    quantized_range(target);
    quantized_range(hardware_floor);
    let percent = hardware_level(target, hardware_floor);
    lemma_remainder_is_fraction(target, percent);
    let gamma = gamma_remainder(target, percent);
    crate::binary64::lemma_literals();
    assert forall|i: int| 0 <= i < size implies #[trigger] ramp(size, gamma)[i] == 0 by {
        lemma_ramp_steps(size, gamma, i as nat);
        lemma_nearest_whole(0, 0);
    }
}

/// A ramp begins at zero and never falls.
pub proof fn ramps_rise_from_zero(size: nat, brightness: Binary64, i: int, j: int)
    requires
        2 <= size <= u64::MAX,
        brightness.fraction(),
        0 <= i <= j < size,
    ensures
        ramp(size, brightness)[0] == 0,
        ramp(size, brightness)[i] <= ramp(size, brightness)[j],
{
    crate::binary64::lemma_literals();
    lemma_ramp_steps(size, brightness, 0);
    lemma_nearest_whole(0, 0);
    lemma_ramp_steps(size, brightness, i as nat);
    lemma_ramp_steps(size, brightness, j as nat);
    lemma_fraction_is_finite(brightness);
    let last = crate::binary64::whole_number((size - 1) as nat);
    let a = crate::binary64::whole_number(i as nat);
    let b = crate::binary64::whole_number(j as nat);
    lemma_whole_range((size - 1) as nat);
    lemma_whole_range(i as nat);
    lemma_whole_range(j as nat);
    lemma_whole_order(i as nat, j as nat);
    lemma_quotient_order(a, b, last);
    let x = crate::binary64::quotient(a, last);
    let y = crate::binary64::quotient(b, last);
    lemma_product_order(x, y, brightness);
    let u = crate::binary64::product(x, brightness);
    let v = crate::binary64::product(y, brightness);
    lemma_product_order(u, v, full_scale());
    let s = crate::binary64::product(u, full_scale()).size();
    let t = crate::binary64::product(v, full_scale()).size();
    let o = crate::rounding::one();
    vstd::arithmetic::div_mod::lemma_div_is_ordered(
        (2 * s + o) as int,
        (2 * t + o) as int,
        (2 * o) as int,
    );
}

/// A greater target never lowers the hardware.
pub proof fn hardware_follows_the_target(a: Binary64, b: Binary64, hardware_floor: Binary64)
    requires
        a.fraction(),
        b.fraction(),
        hardware_floor.fraction(),
        a.value() <= b.value(),
    ensures
        hardware_level(a, hardware_floor) <= hardware_level(b, hardware_floor),
{
    quantized_range(a);
    quantized_range(b);
    if quantized(b) < quantized(a) {
        assert(!covers(quantized(b), a));
    }
}

/// Gamma supplies the remainder: where the hardware lets at least the target
/// through, the gamma multiplier is the number nearest to what is missing, the
/// target over the hardware share.
pub proof fn gamma_supplies_the_remainder(target: Binary64, percent: u16)
    requires
        target.fraction(),
        1 <= percent <= 100,
        target.value() <= hardware_share(percent).value(),
    ensures
        crate::rounding::closest(
            target.size() * crate::rounding::one(),
            hardware_share(percent).size(),
            gamma_remainder(target, percent).magnitude() as nat,
        ),
        gamma_remainder(target, percent).fraction(),
{
    crate::binary64::lemma_literals();
    lemma_remainder_is_fraction(target, percent);
    lemma_fraction_is_finite(target);
    lemma_share_range(percent);
    let share = hardware_share(percent);
    let o = crate::rounding::one();
    let x = target.size();
    let n = x * o;
    let d = share.size();
    let top = unity().bits as nat;
    assert(n <= o * d) by (nonlinear_arith)
        requires
            n == x * o,
            x <= d,
    ;
    crate::rounding::rounding_respects_magnitudes(n, d, top);
    crate::rounding::some_magnitude_is_closest(n, d);
    let m = choose|m: nat| crate::rounding::closest(n, d, m);
    crate::rounding::closest_is_rounded(n, d, m);
    assert(m == crate::rounding::rounded(n, d));
    if m < top {
        crate::rounding::units_increase(m, top);
    }
    if target.negative() {
        assert(0 * o == 0);
        crate::rounding::zero_is_kept(d);
        crate::binary64::lemma_size_zero(0);
    }
}

/// What is at most one is moved by rounding by at most half the distance from
/// one to the next number.
proof fn lemma_near_one(n: nat, d: nat)
    requires
        d > 0,
        n <= crate::rounding::one() * d,
    ensures
        ({
            let u = crate::rounding::units(crate::rounding::rounded(n, d) as nat);
            let e = epsilon().size();
            &&& crate::rounding::rounded(n, d) <= unity().bits
            &&& u <= crate::rounding::one()
            &&& 2 * (u * d) <= 2 * n + e * d
            &&& 2 * n <= 2 * (u * d) + e * d
        }),
{
    crate::binary64::lemma_literals();
    let top = unity().bits as nat;
    crate::rounding::rounding_is_near(n, d, top);
    let m = crate::rounding::rounded(n, d) as nat;
    if m < top {
        crate::rounding::units_increase(m, top);
    }
    assert(crate::rounding::step(top) == 1022);
}

/// What is at most a hundred is moved by rounding by at most half the distance
/// from a hundred to the next number.
proof fn lemma_near_hundred(n: nat, d: nat)
    requires
        d > 0,
        n <= (100 * crate::rounding::one()) * d,
    ensures
        ({
            let u = crate::rounding::units(crate::rounding::rounded(n, d) as nat);
            let e = epsilon().size();
            &&& crate::rounding::rounded(n, d) <= hundred().bits
            &&& u <= 100 * crate::rounding::one()
            &&& 2 * (u * d) <= 2 * n + (64 * e) * d
            &&& 2 * n <= 2 * (u * d) + (64 * e) * d
        }),
{
    crate::binary64::lemma_literals();
    let top = hundred().bits as nat;
    crate::rounding::rounding_is_near(n, d, top);
    let m = crate::rounding::rounded(n, d) as nat;
    if m < top {
        crate::rounding::units_increase(m, top);
    }
    assert(crate::rounding::step(top) == 1028);
    vstd::arithmetic::power2::lemma_pow2_adds(6, 1022);
    vstd::arithmetic::power2::lemma2_to64();
}

/// Cancels a common factor from the bounds of a rounding.
proof fn lemma_cancel_factor(a: nat, b: nat, e: nat, o: nat)
    requires
        o > 0,
        2 * (a * o) <= 2 * (b * o) + e * o,
        2 * (b * o) <= 2 * (a * o) + e * o,
    ensures
        2 * a <= 2 * b + e,
        2 * b <= 2 * a + e,
{
    assert(2 * a <= 2 * b + e) by (nonlinear_arith)
        requires
            o > 0,
            2 * (a * o) <= 2 * (b * o) + e * o,
    ;
    assert(2 * b <= 2 * a + e) by (nonlinear_arith)
        requires
            o > 0,
            2 * (b * o) <= 2 * (a * o) + e * o,
    ;
}

/// A product with a hundred is near a hundred times its factor.
pub(crate) proof fn lemma_near_percent(x: Binary64)
    requires
        x.finite(),
        x.value() >= 0,
        x.size() <= crate::rounding::one(),
    ensures
        ({
            let p = crate::binary64::product(x, hundred());
            let e = epsilon().size();
            &&& !p.nan()
            &&& p.value() == p.size()
            &&& p.size() <= 100 * crate::rounding::one()
            &&& 2 * p.size() <= 200 * x.size() + 64 * e
            &&& 200 * x.size() <= 2 * p.size() + 64 * e
        }),
{
    crate::binary64::lemma_literals();
    lemma_product_sign(x, hundred());
    let o = crate::rounding::one();
    let s = x.size();
    let n = s * hundred().size();
    assert(n <= (100 * o) * o) by (nonlinear_arith)
        requires
            n == s * (100 * o),
            s <= o,
    ;
    lemma_near_hundred(n, o);
    assert(n == (100 * s) * o) by (nonlinear_arith)
        requires
            n == s * (100 * o),
    ;
    let p = crate::binary64::product(x, hundred());
    lemma_cancel_factor(p.size(), 100 * s, 64 * epsilon().size(), o);
}

/// The share that a percentage lets through is near a hundredth of it.
proof fn lemma_near_share(percent: u16)
    requires
        1 <= percent <= 100,
    ensures
        ({
            let s = hardware_share(percent).size();
            let level = percent as nat * crate::rounding::one();
            let e = epsilon().size();
            &&& 200 * s <= 2 * level + 164 * e
            &&& 2 * level <= 200 * s + 164 * e
        }),
{
    crate::binary64::lemma_literals();
    lemma_share_range(percent);
    lemma_whole_range(percent as nat);
    let o = crate::rounding::one();
    let level = percent as nat * o;
    let e = epsilon().size();
    assert(level <= 100 * o) by (nonlinear_arith)
        requires
            level == percent as nat * o,
            percent <= 100,
    ;
    lemma_near_hundred(level, 1);
    let w = crate::binary64::whole_number(percent as nat).size();
    assert(w == crate::rounding::units(crate::rounding::rounded(level, 1) as nat));
    let n = w * o;
    let d = 100 * o;
    assert(n <= o * d) by (nonlinear_arith)
        requires
            n == w * o,
            d == 100 * o,
            w <= 100 * o,
    ;
    lemma_near_one(n, d);
    let s = hardware_share(percent).size();
    assert(s == crate::rounding::units(crate::rounding::rounded(n, d) as nat));
    assert(s * d == (100 * s) * o && e * d == (100 * e) * o) by (nonlinear_arith)
        requires
            d == 100 * o,
    ;
    lemma_cancel_factor(100 * s, w, 100 * e, o);
}

/// The multiplier that supplies the remainder leads from the hardware share to
/// the target, but for rounding.
proof fn lemma_near_remainder(target: Binary64, percent: u16)
    requires
        target.fraction(),
        1 <= percent <= 100,
        covers(percent, target),
    ensures
        ({
            let o = crate::rounding::one();
            let lit = hardware_share(percent).size() * gamma_remainder(target, percent).size();
            let wanted = target.size() * o;
            let e = epsilon().size();
            &&& 2 * lit <= 2 * wanted + e * o
            &&& 2 * wanted <= 2 * lit + e * o
        }),
{
    crate::binary64::lemma_literals();
    lemma_fraction_is_finite(target);
    lemma_share_range(percent);
    lemma_remainder_is_fraction(target, percent);
    let o = crate::rounding::one();
    let e = epsilon().size();
    let x = target.size();
    let s = hardware_share(percent).size();
    let g = gamma_remainder(target, percent).size();
    let n = x * o;
    let raw = crate::binary64::quotient(target, hardware_share(percent));
    let m = crate::rounding::rounded(n, s);
    crate::rounding::rounding_is_monotone(n, n, s);
    assert(n <= o * s) by (nonlinear_arith)
        requires
            n == x * o,
            x <= s,
    ;
    lemma_near_one(n, s);
    if target.negative() {
        assert(n == 0) by (nonlinear_arith)
            requires
                n == x * o,
                x == 0,
        ;
        crate::rounding::zero_is_kept(s);
        crate::binary64::lemma_size_zero(0);
    }
    assert(raw.size() == crate::rounding::units(m as nat));
    assert(g == crate::rounding::units(m as nat));
    assert(2 * (s * g) <= 2 * n + e * o && 2 * n <= 2 * (s * g) + e * o) by (nonlinear_arith)
        requires
            2 * (g * s) <= 2 * n + e * s,
            2 * n <= 2 * (g * s) + e * s,
            s <= o,
    ;
}

/// The light behind a hardware share and a gamma multiplier is near their
/// product.
pub(crate) proof fn lemma_near_emitted(hardware: Binary64, gamma: Binary64)
    requires
        hardware.fraction(),
        gamma.fraction(),
    ensures
        ({
            let o = crate::rounding::one();
            let shown = emitted_percent(hardware, gamma);
            let lit = hardware.size() * gamma.size();
            let e = epsilon().size();
            &&& !shown.nan()
            &&& 0 <= shown.value() <= 100 * o
            &&& 2 * (shown.value() * o) <= 200 * lit + (164 * e) * o
            &&& 200 * lit <= 2 * (shown.value() * o) + (164 * e) * o
        }),
{
    crate::binary64::lemma_literals();
    lemma_fraction_is_finite(hardware);
    lemma_fraction_is_finite(gamma);
    lemma_product_sign(hardware, gamma);
    let o = crate::rounding::one();
    let e = epsilon().size();
    let s = hardware.size();
    let g = gamma.size();
    let n = s * g;
    assert(n <= o * o) by (nonlinear_arith)
        requires
            n == s * g,
            s <= o,
            g <= o,
    ;
    lemma_near_one(n, o);
    let part = crate::binary64::product(hardware, gamma);
    let p = part.size();
    lemma_at_most_one_is_finite(part);
    lemma_near_percent(part);
    let q = crate::binary64::product(part, hundred()).size();
    assert(emitted_percent(hardware, gamma).value() == q);
    assert(2 * (q * o) <= 200 * n + (164 * e) * o) by (nonlinear_arith)
        requires
            2 * q <= 200 * p + 64 * e,
            2 * (p * o) <= 2 * n + e * o,
            o > 0,
    ;
    assert(200 * n <= 2 * (q * o) + (164 * e) * o) by (nonlinear_arith)
        requires
            200 * p <= 2 * q + 64 * e,
            2 * n <= 2 * (p * o) + e * o,
            o > 0,
    ;
}

/// A plan leads to its target. A display with a gamma control that stands where
/// the plan for a target wants it shows a hundred times the target as its
/// effective percentage, to within 2^-44.
pub proof fn plans_lead_to_their_target(
    target: Binary64,
    hardware_floor: Binary64,
    display: DisplayInfoView,
)
    requires
        display.gamma_supported,
        planned(
            target,
            hardware_floor,
            display.ddc_supported,
            display.gamma_supported,
        ) matches Ok(plan) && plan.gamma_brightness == Some(display.gamma_brightness) && (
        display.ddc_supported ==> plan.hardware_percent == Some(display.ddc_brightness)),
    ensures
        !display.effective().nan(),
        crate::binary64::gap(display.effective().value(), 100 * target.value()) <= 256
            * epsilon().size(),
{
    crate::binary64::lemma_literals();
    lemma_fraction_is_finite(target);
    let o = crate::rounding::one();
    let e = epsilon().size();
    let x = target.size();
    let gamma = display.gamma_brightness;
    if display.ddc_supported {
        let percent = display.ddc_brightness;
        quantized_range(target);
        quantized_range(hardware_floor);
        hardware_never_undershoots(target, hardware_floor);
        lemma_remainder_is_fraction(target, percent);
        if percent == 0 {
            crate::rounding::zero_is_kept(1);
            crate::rounding::zero_is_kept(100 * o);
            assert(0 * o == 0);
            crate::binary64::lemma_size_zero(0);
            assert(hardware_share(0).size() == 0);
            lemma_near_emitted(hardware_share(0), gamma);
        } else {
            lemma_share_range(percent);
            lemma_near_remainder(target, percent);
            lemma_near_emitted(hardware_share(percent), gamma);
        }
    } else {
        lemma_near_emitted(unity(), gamma);
    }
    let hardware = if display.ddc_supported {
        hardware_share(display.ddc_brightness)
    } else {
        unity()
    };
    let lit = hardware.size() * gamma.size();
    let q = display.effective().value();
    assert(2 * lit <= 2 * (x * o) + e * o && 2 * (x * o) <= 2 * lit + e * o) by {
        if !display.ddc_supported {
            assert(lit == x * o) by (nonlinear_arith)
                requires
                    lit == o * x,
            ;
            assert(e * o >= 0) by (nonlinear_arith)
                requires
                    e >= 0,
                    o >= 0,
            ;
        } else if display.ddc_brightness == 0 {
            assert(lit == 0) by (nonlinear_arith)
                requires
                    lit == hardware.size() * gamma.size(),
                    hardware.size() == 0,
            ;
            assert(x * o == 0) by (nonlinear_arith)
                requires
                    x == 0,
            ;
            assert(e * o >= 0) by (nonlinear_arith)
                requires
                    e >= 0,
                    o >= 0,
            ;
        }
    }
    assert(q <= 100 * x + 256 * e && 100 * x <= q + 256 * e) by (nonlinear_arith)
        requires
            2 * (q * o) <= 200 * lit + (164 * e) * o,
            200 * lit <= 2 * (q * o) + (164 * e) * o,
            2 * lit <= 2 * (x * o) + e * o,
            2 * (x * o) <= 2 * lit + e * o,
            o > 0,
    ;
}

/// Hardware alone comes within half a percent of the target, but for rounding.
pub proof fn hardware_alone_comes_near(
    target: Binary64,
    hardware_floor: Binary64,
    display: DisplayInfoView,
)
    requires
        display.ddc_supported,
        !display.gamma_supported,
        planned(target, hardware_floor, true, false) matches Ok(plan) && plan.hardware_percent
            == Some(display.ddc_brightness),
    ensures
        !display.effective().nan(),
        2 * crate::binary64::gap(display.effective().value(), 100 * target.value())
            <= crate::rounding::one() + 512 * epsilon().size(),
{
    crate::binary64::lemma_literals();
    lemma_fraction_is_finite(target);
    quantized_range(target);
    lemma_near_percent(target);
    let o = crate::rounding::one();
    let e = epsilon().size();
    let x = target.size();
    let percent = display.ddc_brightness;
    let share = hardware_share(percent);
    let v = crate::binary64::product(target, hundred()).size();
    let level = percent as nat * o;
    lemma_nearest_whole(v, 100);
    vstd::arithmetic::div_mod::lemma_fundamental_div_mod((2 * v + o) as int, (2 * o) as int);
    assert(2 * level <= 2 * v + o && 2 * v <= 2 * level + o) by (nonlinear_arith)
        requires
            level == percent as nat * o,
            2 * v + o == (2 * o) * (percent as int) + (2 * v + o) % (2 * o),
            0 <= (2 * v + o) % (2 * o) < 2 * o,
    ;
    if percent == 0 {
        crate::rounding::zero_is_kept(1);
        crate::rounding::zero_is_kept(100 * o);
        assert(0 * o == 0);
        crate::binary64::lemma_size_zero(0);
        assert(share.size() == 0);
    } else {
        lemma_share_range(percent);
        lemma_near_share(percent);
    }
    lemma_near_emitted(share, unity());
    let s = share.size();
    let q = display.effective().value();
    let lit = s * unity().size();
    assert(2 * q <= 200 * s + 164 * e && 200 * s <= 2 * q + 164 * e) by (nonlinear_arith)
        requires
            lit == s * o,
            2 * (q * o) <= 200 * lit + (164 * e) * o,
            200 * lit <= 2 * (q * o) + (164 * e) * o,
            o > 0,
    ;
}

/// A whole percentage lets more through than the one below.
proof fn lemma_shares_differ(percent: u16)
    requires
        1 <= percent <= 100,
    ensures
        hardware_share((percent - 1) as u16).value() < hardware_share(percent).value(),
{
    crate::binary64::lemma_literals();
    let less = (percent - 1) as u16;
    let o = crate::rounding::one();
    let e = epsilon().size();
    lemma_share_order(less, percent);
    lemma_share_order(percent, 100);
    lemma_share_range(percent);
    lemma_near_share(percent);
    vstd::arithmetic::power2::lemma_pow2_adds(52, 1022);
    crate::rounding::lemma_powers();
    assert(o == crate::rounding::BAND as nat * e);
    assert(o >= 1000 * e && e > 0) by (nonlinear_arith)
        requires
            o == crate::rounding::BAND as nat * e,
            o > 0,
            crate::rounding::BAND >= 1000,
            e >= 0,
    ;
    let level = percent as nat * o;
    let below = less as nat * o;
    assert(level == below + o) by (nonlinear_arith)
        requires
            level == percent as nat * o,
            below == less as nat * o,
            percent == less + 1,
    ;
    if less > 0 {
        lemma_near_share(less);
    }
}

/// A target that is a whole percentage is met by the hardware alone: its level
/// is that percentage, and gamma stays at one, unless the floor is higher.
pub proof fn whole_percentages_are_kept(percent: u16, hardware_floor: Binary64)
    requires
        percent <= 100,
        hardware_floor.fraction(),
    ensures
        quantized(hardware_share(percent)) == percent,
        hardware_floor.value() <= hardware_share(percent).value() ==> planned(
            hardware_share(percent),
            hardware_floor,
            true,
            true,
        ) == Ok::<BrightnessPlan, BrightnessError>(
            BrightnessPlan { hardware_percent: Some(percent), gamma_brightness: Some(unity()) },
        ),
{
    crate::binary64::lemma_literals();
    let share = hardware_share(percent);
    let o = crate::rounding::one();
    lemma_share_order(percent, 100);
    assert(share.fraction());
    quantized_range(share);
    quantized_range(hardware_floor);
    assert forall|less: u16| less < percent implies !#[trigger] covers(less, share) by {
        lemma_shares_differ(percent);
        lemma_share_order(less, (percent - 1) as u16);
    }
    assert(just_covers(percent, share));
    if hardware_floor.value() <= share.value() {
        assert(covers(percent, hardware_floor));
        assert(quantized(hardware_floor) <= percent) by {
            if percent < quantized(hardware_floor) {
                assert(!covers(percent, hardware_floor));
            }
        }
    }
    if percent > 0 {
        lemma_share_range(percent);
        let s = share.size();
        assert(s * o == o * s) by (nonlinear_arith);
        crate::rounding::rounding_respects_magnitudes(s * o, s, unity().bits as nat);
        assert(crate::binary64::quotient(share, share) == unity());
    }
}

/// A plan for both controls uses the least hardware that suffices: the share of
/// its percentage is at least the target and at least the floor, and the share
/// of the percentage below is not. Counted in hundredths, it is the target or
/// the floor, rounded up.
pub proof fn plans_use_the_least_hardware_that_suffices(
    target: Binary64,
    hardware_floor: Binary64,
)
    requires
        !target.nan(),
        !hardware_floor.nan(),
        0 <= target.value() <= crate::rounding::one(),
        0 <= hardware_floor.value() <= crate::rounding::one(),
    ensures
        planned(target, hardware_floor, true, true) matches Ok(plan) && {
            &&& plan.hardware_percent matches Some(percent) && {
                let o = crate::rounding::one() as int;
                let e = epsilon().value();
                let wanted = if target.value() < hardware_floor.value() {
                    hardware_floor.value()
                } else {
                    target.value()
                };
                &&& percent <= 100
                &&& target.value() <= hardware_share(percent).value()
                &&& hardware_floor.value() <= hardware_share(percent).value()
                &&& percent > 0 ==> {
                    ||| hardware_share((percent - 1) as u16).value() < target.value()
                    ||| hardware_share((percent - 1) as u16).value() < hardware_floor.value()
                }
                &&& 100 * wanted <= percent * o + 82 * e
                &&& percent > 0 ==> (percent - 1) * o <= 100 * wanted + 82 * e
            }
        },
{
    crate::binary64::lemma_literals();
    hardware_never_undershoots(target, hardware_floor);
    let percent = hardware_level(target, hardware_floor);
    let o = crate::rounding::one();
    shares_are_hundredths(percent);
    if percent > 0 {
        let less = (percent - 1) as u16;
        shares_are_hundredths(less);
    }
}

/// The share of a whole percentage is a hundredth of it, but for rounding.
pub proof fn shares_are_hundredths(percent: u16)
    requires
        percent <= 100,
    ensures
        !hardware_share(percent).nan(),
        0 <= hardware_share(percent).value() <= crate::rounding::one(),
        crate::binary64::gap(
            100 * hardware_share(percent).value(),
            percent * crate::rounding::one(),
        ) <= 82 * epsilon().value(),
{
    crate::binary64::lemma_literals();
    lemma_share_order(percent, 100);
    if percent > 0 {
        lemma_share_range(percent);
        lemma_near_share(percent);
    } else {
        assert(0 * crate::rounding::one() == 0);
    }
}

/// Gamma makes up the difference: the percentage of a plan for both controls,
/// times its multiplier, is a hundred times the target, but for rounding.
/// Without hardware gamma stays at one.
pub proof fn gamma_makes_up_the_difference(target: Binary64, hardware_floor: Binary64)
    requires
        !target.nan(),
        !hardware_floor.nan(),
        0 <= target.value() <= crate::rounding::one(),
        0 <= hardware_floor.value() <= crate::rounding::one(),
    ensures
        planned(target, hardware_floor, true, true) matches Ok(plan)
            && plan.hardware_percent matches Some(percent)
            && plan.gamma_brightness matches Some(gamma) && {
            &&& !gamma.nan()
            &&& 0 <= gamma.value() <= crate::rounding::one()
            &&& percent == 0 ==> gamma == unity() && target.value() == 0
            &&& percent > 0 ==> crate::binary64::gap(percent * gamma.value(), 100 * target.value())
                <= 132 * epsilon().value()
        },
{
    crate::binary64::lemma_literals();
    hardware_never_undershoots(target, hardware_floor);
    quantized_range(target);
    let percent = hardware_level(target, hardware_floor);
    lemma_remainder_is_fraction(target, percent);
    lemma_fraction_is_finite(target);
    if percent > 0 {
        let gamma = gamma_remainder(target, percent);
        lemma_fraction_is_finite(gamma);
        lemma_share_range(percent);
        lemma_near_share(percent);
        lemma_near_remainder(target, percent);
        let o = crate::rounding::one();
        let e = epsilon().size();
        let s = hardware_share(percent).size();
        let g = gamma.size();
        let x = target.size();
        let h = percent as nat;
        let level = h * o;
        assert(2 * (h * g) <= 200 * x + 264 * e && 200 * x <= 2 * (h * g) + 264 * e)
            by (nonlinear_arith)
            requires
                level == h * o,
                200 * s <= 2 * level + 164 * e,
                2 * level <= 200 * s + 164 * e,
                2 * (s * g) <= 2 * (x * o) + e * o,
                2 * (x * o) <= 2 * (s * g) + e * o,
                g <= o,
                o > 0,
        {
            assert(2 * (level * g) <= (200 * s + 164 * e) * g);
            assert((200 * s) * g <= (2 * level + 164 * e) * g);
            assert((164 * e) * g <= (164 * e) * o);
            assert(level * g == (h * g) * o);
        }
    } else {
        assert(covers(0, target));
        lemma_share_order(0, 100);
    }
}

/// A single control takes the whole target: gamma exactly, hardware to the
/// nearest whole percentage. A control that the display lacks is left out.
pub proof fn single_controls_take_the_whole_target(target: Binary64, hardware_floor: Binary64)
    requires
        !target.nan(),
        !hardware_floor.nan(),
        0 <= target.value() <= crate::rounding::one(),
        0 <= hardware_floor.value() <= crate::rounding::one(),
    ensures
        planned(target, hardware_floor, false, true) matches Ok(plan) && plan.hardware_percent
            is None && plan.gamma_brightness == Some(target),
        planned(target, hardware_floor, true, false) matches Ok(plan)
            && plan.hardware_percent matches Some(percent) && plan.gamma_brightness is None
            && percent <= 100 && 2 * crate::binary64::gap(
            percent * crate::rounding::one(),
            100 * target.value(),
        ) <= crate::rounding::one() + 64 * epsilon().value() && ({
            let level = crate::binary64::product(target, hundred()).value();
            let o = crate::rounding::one();
            2 * (percent * o) <= 2 * level + o && 2 * level < 2 * (percent * o) + o
        }),
{
    crate::binary64::lemma_literals();
    lemma_fraction_is_finite(target);
    lemma_percent_range(target);
    lemma_near_percent(target);
    let o = crate::rounding::one();
    let v = crate::binary64::product(target, hundred()).size();
    let percent = nearest_percent(target);
    let level = percent as nat * o;
    lemma_nearest_whole(v, 100);
    vstd::arithmetic::div_mod::lemma_fundamental_div_mod((2 * v + o) as int, (2 * o) as int);
    assert(2 * level <= 2 * v + o && 2 * v < 2 * level + o) by (nonlinear_arith)
        requires
            level == percent as nat * o,
            2 * v + o == (2 * o) * (percent as int) + (2 * v + o) % (2 * o),
            0 <= (2 * v + o) % (2 * o) < 2 * o,
    ;
}

/// A plan is refused for a reason: a target that is no fraction, a floor that is
/// none, or a display without controls, in this order.
pub proof fn plans_are_refused_for_a_reason(
    target: Binary64,
    hardware_floor: Binary64,
    ddc_available: bool,
    gamma_available: bool,
)
    ensures
        ({
            let o = crate::rounding::one();
            let good = !target.nan() && 0 <= target.value() <= o;
            let sound = !hardware_floor.nan() && 0 <= hardware_floor.value() <= o;
            match planned(target, hardware_floor, ddc_available, gamma_available) {
                Ok(_) => good && sound && (ddc_available || gamma_available),
                Err(BrightnessError::InvalidTarget) => !good,
                Err(BrightnessError::InvalidFloor) => good && !sound,
                Err(BrightnessError::Unsupported) => good && sound && !ddc_available
                    && !gamma_available,
                Err(BrightnessError::InvalidRampSize) => false,
            }
        }),
{
}

/// The effective brightness is what both controls let through: the hardware
/// percentage times the gamma multiplier, but for rounding, where a control
/// that is missing lets everything through.
pub proof fn light_is_what_both_controls_let_through(display: DisplayInfoView)
    requires
        display.ddc_supported ==> display.ddc_brightness <= 100,
        display.gamma_supported ==> !display.gamma_brightness.nan() && 0
            <= display.gamma_brightness.value() <= crate::rounding::one(),
    ensures
        ({
            let o = crate::rounding::one() as int;
            let percent = if display.ddc_supported {
                display.ddc_brightness as int
            } else {
                100
            };
            let gamma = if display.gamma_supported {
                display.gamma_brightness.value()
            } else {
                o
            };
            &&& !display.effective().nan()
            &&& 0 <= display.effective().value() <= 100 * o
            &&& crate::binary64::gap(display.effective().value(), percent * gamma) <= 164
                * epsilon().value()
        }),
{
    crate::binary64::lemma_literals();
    let o = crate::rounding::one();
    let e = epsilon().size();
    let percent: nat = if display.ddc_supported {
        display.ddc_brightness as nat
    } else {
        100
    };
    let hardware = if display.ddc_supported {
        hardware_share(display.ddc_brightness)
    } else {
        unity()
    };
    let gamma = if display.gamma_supported {
        display.gamma_brightness
    } else {
        unity()
    };
    if display.ddc_supported {
        shares_are_hundredths(display.ddc_brightness);
    }
    lemma_fraction_is_finite(hardware);
    lemma_fraction_is_finite(gamma);
    lemma_near_emitted(hardware, gamma);
    let s = hardware.size();
    let g = gamma.size();
    let q = display.effective().value();
    let lit = s * g;
    assert(100 * s <= percent * o + 82 * e && percent * o <= 100 * s + 82 * e);
    assert(q <= percent * g + 164 * e && percent * g <= q + 164 * e) by (nonlinear_arith)
        requires
            lit == s * g,
            2 * (q * o) <= 200 * lit + (164 * e) * o,
            200 * lit <= 2 * (q * o) + (164 * e) * o,
            100 * s <= percent * o + 82 * e,
            percent * o <= 100 * s + 82 * e,
            g <= o,
            o > 0,
    {
        assert((100 * s) * g <= (percent * o + 82 * e) * g);
        assert((percent * o) * g <= (100 * s + 82 * e) * g);
        assert((82 * e) * g <= (82 * e) * o);
        assert((percent * o) * g == (percent * g) * o);
    }
}

/// A whole number is encoded exactly, but for rounding in proportion.
proof fn lemma_near_whole(n: nat)
    requires
        1 <= n <= u64::MAX,
    ensures
        ({
            let w = crate::binary64::whole_number(n).size();
            let o = crate::rounding::one();
            let b = 2 * crate::rounding::BAND as nat;
            &&& b * w <= b * (n * o) + w
            &&& b * (n * o) <= b * w + w
        }),
{
    crate::binary64::lemma_literals();
    lemma_whole_range(n);
    let o = crate::rounding::one();
    let v = n * o;
    let m = crate::rounding::rounded(v, 1) as nat;
    if m < unity().bits {
        crate::rounding::units_increase(m, unity().bits as nat);
    }
    crate::rounding::rounding_is_near_in_proportion(v, 1);
}

/// Where an entry stands along a ramp, from zero to one, is near its index over
/// that of the last entry.
proof fn lemma_near_position(index: nat, last: nat)
    requires
        index <= last,
        1 <= last <= u64::MAX,
    ensures
        ({
            let x = crate::binary64::quotient(
                crate::binary64::whole_number(index),
                crate::binary64::whole_number(last),
            ).size();
            let o = crate::rounding::one();
            let e = epsilon().size();
            &&& x <= o
            &&& x * last <= index * o + (3 * e) * last
            &&& index * o <= x * last + (3 * e) * last
        }),
{
    crate::binary64::lemma_literals();
    let o = crate::rounding::one();
    let e = epsilon().size();
    let first = crate::binary64::whole_number(index);
    let whole = crate::binary64::whole_number(last);
    lemma_whole_range(index);
    lemma_whole_range(last);
    lemma_whole_order(index, last);
    lemma_quotient_order(first, first, whole);
    let x = crate::binary64::quotient(first, whole).size();
    let a = first.size();
    let l = whole.size();
    if index == 0 {
        assert(0 * o == 0);
        assert(x * last == 0) by (nonlinear_arith)
            requires
                x == 0,
        ;
        assert((3 * e) * last >= 0) by (nonlinear_arith)
            requires
                e >= 0,
                last >= 0,
        ;
    } else {
        lemma_near_whole(index);
        lemma_near_whole(last);
        let b = crate::rounding::BAND as nat;
        vstd::arithmetic::power2::lemma_pow2_adds(52, 1022);
        vstd::arithmetic::power2::lemma_pow2_pos(1022);
        crate::rounding::lemma_powers();
        assert(o == b * e);
        let n = a * o;
        assert(n <= o * l) by (nonlinear_arith)
            requires
                n == a * o,
                a <= l,
        ;
        lemma_near_one(n, l);
        lemma_position_bounds(x, a, l, index, last, o, e, b);
    }
}

proof fn lemma_position_bounds(x: nat, a: nat, l: nat, i: nat, k: nat, o: nat, e: nat, b: nat)
    requires
        o == b * e,
        b >= 4,
        e > 0,
        x <= o,
        a <= l,
        (2 * b) * a <= (2 * b) * (i * o) + a,
        (2 * b) * (i * o) <= (2 * b) * a + a,
        (2 * b) * l <= (2 * b) * (k * o) + l,
        (2 * b) * (k * o) <= (2 * b) * l + l,
        2 * (x * l) <= 2 * (a * o) + e * l,
        2 * (a * o) <= 2 * (x * l) + e * l,
    ensures
        x * k <= i * o + (3 * e) * k,
        i * o <= x * k + (3 * e) * k,
{
    assert(o > 0) by (nonlinear_arith)
        requires
            o == b * e,
            b >= 4,
            e > 0,
    ;
    // Twice the distance of `k * o` from `l`, scaled by `x`, is at most `e * l`.
    let ko = k * o;
    let io = i * o;
    assert(2 * (x * ko) <= 2 * (x * l) + e * l && 2 * (x * l) <= 2 * (x * ko) + e * l)
        by (nonlinear_arith)
        requires
            (2 * b) * l <= (2 * b) * ko + l,
            (2 * b) * ko <= (2 * b) * l + l,
            o == b * e,
            x <= o,
            b > 0,
            e > 0,
    {
        assert(x * ((2 * b) * ko) <= x * ((2 * b) * l + l));
        assert(x * ((2 * b) * l) <= x * ((2 * b) * ko + l));
        assert(x * l <= (b * e) * l);
        assert(b * (2 * (x * ko)) <= b * (2 * (x * l)) + b * (e * l));
        assert(b * (2 * (x * l)) <= b * (2 * (x * ko)) + b * (e * l));
    }
    assert(2 * (a * o) <= 2 * (io * o) + e * l && 2 * (io * o) <= 2 * (a * o) + e * l)
        by (nonlinear_arith)
        requires
            (2 * b) * a <= (2 * b) * io + a,
            (2 * b) * io <= (2 * b) * a + a,
            o == b * e,
            a <= l,
            b > 0,
            e > 0,
    {
        assert(e * ((2 * b) * a) <= e * ((2 * b) * io + a));
        assert(e * ((2 * b) * io) <= e * ((2 * b) * a + a));
        assert(e * a <= e * l);
        assert(e * ((2 * b) * a) == 2 * (a * (b * e)));
        assert(e * ((2 * b) * io) == 2 * (io * (b * e)));
    }
    assert(l <= 2 * ko) by (nonlinear_arith)
        requires
            (2 * b) * l <= (2 * b) * ko + l,
            b >= 4,
    ;
    assert(x * ko <= io * o + (3 * e) * ko && io * o <= x * ko + (3 * e) * ko)
        by (nonlinear_arith)
        requires
            2 * (x * ko) <= 2 * (x * l) + e * l,
            2 * (x * l) <= 2 * (x * ko) + e * l,
            2 * (a * o) <= 2 * (io * o) + e * l,
            2 * (io * o) <= 2 * (a * o) + e * l,
            2 * (x * l) <= 2 * (a * o) + e * l,
            2 * (a * o) <= 2 * (x * l) + e * l,
            l <= 2 * ko,
            e > 0,
    {
        assert(e * l <= e * (2 * ko));
    }
    assert(x * k <= io + (3 * e) * k && io <= x * k + (3 * e) * k) by (nonlinear_arith)
        requires
            ko == k * o,
            x * ko <= io * o + (3 * e) * ko,
            io * o <= x * ko + (3 * e) * ko,
            o > 0,
    {
        assert(x * ko == (x * k) * o);
        assert((3 * e) * ko == ((3 * e) * k) * o);
    }
}

/// Ramps are linear: an entry is the whole number nearest to the greatest one,
/// times the brightness, times its index over that of the last entry, but for
/// rounding before.
pub proof fn ramps_are_linear(size: nat, brightness: Binary64, index: nat)
    requires
        2 <= size <= u64::MAX,
        !brightness.nan(),
        0 <= brightness.value() <= crate::rounding::one(),
        index < size,
    ensures
        three_ramps(size, brightness).len() == 3 * size,
        forall|channel: int|
            0 <= channel < 3 ==> 2 * crate::binary64::gap(
                #[trigger] three_ramps(size, brightness)[channel * size + index] * ((size - 1)
                    * crate::rounding::one()),
                index * (brightness.value() * 65535),
            ) <= (size - 1) * (crate::rounding::one() + 557048 * epsilon().value()),
{
    crate::binary64::lemma_literals();
    lemma_fraction_is_finite(brightness);
    let o = crate::rounding::one();
    let e = epsilon().size();
    let last = (size - 1) as nat;
    let position = crate::binary64::quotient(
        crate::binary64::whole_number(index),
        crate::binary64::whole_number(last),
    );
    let dimmed = crate::binary64::product(position, brightness);
    let level = crate::binary64::product(dimmed, full_scale());
    lemma_ramp_steps(size, brightness, index);
    lemma_near_position(index, last);
    let x = position.size();
    let g = brightness.size();
    let y = dimmed.size();
    let z = level.size();
    lemma_product_sign(position, brightness);
    assert(x * g <= o * o) by (nonlinear_arith)
        requires
            x <= o,
            g <= o,
    ;
    lemma_near_one(x * g, o);
    lemma_product_sign(dimmed, full_scale());
    let n = y * full_scale().size();
    assert(n <= (65535 * o) * o) by (nonlinear_arith)
        requires
            n == y * (65535 * o),
            y <= o,
    ;
    let top = full_scale().bits as nat;
    crate::rounding::rounding_is_near(n, o, top);
    if crate::rounding::rounded(n, o) < top {
        crate::rounding::units_increase(crate::rounding::rounded(n, o) as nat, top);
    }
    assert(crate::rounding::step(top) == 1037);
    vstd::arithmetic::power2::lemma_pow2_adds(15, 1022);
    vstd::arithmetic::power2::lemma2_to64();
    vstd::arithmetic::power2::lemma_pow2_adds(52, 1022);
    vstd::arithmetic::power2::lemma_pow2_pos(1022);
    crate::rounding::lemma_powers();
    let entry = ramp_entry(size, brightness, index);
    assert(z <= 65535 * o);
    lemma_nearest_whole(z, 65535);
    vstd::arithmetic::div_mod::lemma_fundamental_div_mod((2 * z + o) as int, (2 * o) as int);
    let w = crate::binary64::nearest_whole(z);
    assert(entry == w);
    assert(2 * (w * o) <= 2 * z + o && 2 * z <= 2 * (w * o) + o) by (nonlinear_arith)
        requires
            2 * z + o == (2 * o) * w + (2 * z + o) % (2 * o),
            0 <= (2 * z + o) % (2 * o) < 2 * o,
    ;
    assert(n == (65535 * y) * o) by (nonlinear_arith)
        requires
            n == y * (65535 * o),
    ;
    lemma_cancel_factor(z, 65535 * y, 32768 * e, o);
    lemma_entry_bounds(w, z, y, x, g, index, last, o, e);
    let one = ramp(size, brightness);
    assert forall|channel: int| 0 <= channel < 3 implies 2 * crate::binary64::gap(
        #[trigger] three_ramps(size, brightness)[channel * size + index] * ((size - 1) * o),
        index * (brightness.value() * 65535),
    ) <= (size - 1) * (o + 557048 * epsilon().value()) by {
        assert(one.len() == size);
        if channel == 0 {
            assert(channel * size == 0) by (nonlinear_arith)
                requires
                    channel == 0,
            ;
        } else if channel == 1 {
            assert(channel * size == size) by (nonlinear_arith)
                requires
                    channel == 1,
            ;
        } else {
            assert(channel * size == 2 * size) by (nonlinear_arith)
                requires
                    channel == 2,
            ;
        }
        assert(three_ramps(size, brightness)[channel * size + index] == one[index as int]);
    }
}

proof fn lemma_entry_bounds(
    w: nat,
    z: nat,
    y: nat,
    x: nat,
    g: nat,
    i: nat,
    k: nat,
    o: nat,
    e: nat,
)
    requires
        o == 0x10_0000_0000_0000 * e,
        e > 0,
        g <= o,
        2 * (w * o) <= 2 * z + o,
        2 * z <= 2 * (w * o) + o,
        2 * z <= 2 * (65535 * y) + 32768 * e,
        2 * (65535 * y) <= 2 * z + 32768 * e,
        2 * (y * o) <= 2 * (x * g) + e * o,
        2 * (x * g) <= 2 * (y * o) + e * o,
        x * k <= i * o + (3 * e) * k,
        i * o <= x * k + (3 * e) * k,
    ensures
        2 * (w * (k * o)) <= 2 * (i * (g * 65535)) + k * (o + 557048 * e),
        2 * (i * (g * 65535)) <= 2 * (w * (k * o)) + k * (o + 557048 * e),
{
    // The dimmed position, scaled to the ramp, is near index times brightness.
    assert((x * g) * k <= (i * g) * o + ((3 * e) * k) * o && (i * g) * o <= (x * g) * k + ((3 * e)
        * k) * o) by (nonlinear_arith)
        requires
            x * k <= i * o + (3 * e) * k,
            i * o <= x * k + (3 * e) * k,
            g <= o,
    {
        assert((x * k) * g <= (i * o + (3 * e) * k) * g);
        assert((i * o) * g <= (x * k + (3 * e) * k) * g);
        assert(((3 * e) * k) * g <= ((3 * e) * k) * o);
    }
    assert(2 * ((y * k) * o) <= 2 * ((x * g) * k) + (e * k) * o && 2 * ((x * g) * k) <= 2 * ((y * k)
        * o) + (e * k) * o) by (nonlinear_arith)
        requires
            2 * (y * o) <= 2 * (x * g) + e * o,
            2 * (x * g) <= 2 * (y * o) + e * o,
    {
        assert((2 * (y * o)) * k <= (2 * (x * g) + e * o) * k);
        assert((2 * (x * g)) * k <= (2 * (y * o) + e * o) * k);
    }
    let near = (e * k) * o;
    assert(((3 * e) * k) * o == 3 * near && ((4 * e) * k) * o == 4 * near) by (nonlinear_arith)
        requires
            near == (e * k) * o,
    ;
    assert(y * k <= i * g + (4 * e) * k && i * g <= y * k + (4 * e) * k) by (nonlinear_arith)
        requires
            (y * k) * o <= (i * g) * o + ((4 * e) * k) * o,
            (i * g) * o <= (y * k) * o + ((4 * e) * k) * o,
            o > 0,
    ;
    let p = y * k;
    let q = i * g;
    let f = e * k;
    let r = (w * o) * k;
    assert(2 * r <= 2 * (65535 * p) + 32768 * f + k * o && 2 * (65535 * p) <= 2 * r + 32768 * f + k
        * o) by (nonlinear_arith)
        requires
            p == y * k,
            f == e * k,
            r == (w * o) * k,
            2 * (w * o) <= 2 * (65535 * y) + 32768 * e + o,
            2 * (65535 * y) <= 2 * (w * o) + 32768 * e + o,
    {
        assert((2 * (w * o)) * k <= (2 * (65535 * y) + 32768 * e + o) * k);
        assert((2 * (65535 * y)) * k <= (2 * (w * o) + 32768 * e + o) * k);
    }
    assert((4 * e) * k == 4 * f) by (nonlinear_arith)
        requires
            f == e * k,
    ;
    assert(k * (o + 557048 * e) == k * o + 557048 * f) by (nonlinear_arith)
        requires
            f == e * k,
    ;
    assert(w * (k * o) == (w * o) * k) by (nonlinear_arith);
    assert(i * (g * 65535) == 65535 * q) by (nonlinear_arith)
        requires
            q == i * g,
    ;
}

/// A hundredth of a percentage is near it.
pub(crate) proof fn lemma_near_hundredth(percent: Binary64)
    requires
        percent.percentage(),
    ensures
        ({
            let q = crate::binary64::quotient(percent, hundred());
            &&& q.fraction()
            &&& crate::binary64::gap(100 * q.value(), percent.value()) <= 50 * epsilon().value()
        }),
{
    crate::binary64::lemma_literals();
    crate::binary64::lemma_size_zero(0);
    let o = crate::rounding::one();
    let e = epsilon().size();
    let s = percent.size();
    if percent.magnitude() >= crate::rounding::INFINITE {
        crate::rounding::units_increase(hundred().bits as nat, percent.magnitude() as nat);
    }
    assert(percent.finite());
    let h = hundred().size();
    let n = s * o;
    assert(s <= 100 * o);
    assert(n <= o * h) by (nonlinear_arith)
        requires
            n == s * o,
            s <= 100 * o,
            h == 100 * o,
    ;
    lemma_near_one(n, h);
    let q = crate::binary64::quotient(percent, hundred());
    let m = crate::rounding::rounded(n, h);
    let u = crate::rounding::units(m as nat);
    assert(2 * (100 * u) <= 2 * s + 100 * e && 2 * s <= 2 * (100 * u) + 100 * e)
        by (nonlinear_arith)
        requires
            n == s * o,
            h == 100 * o,
            2 * (u * h) <= 2 * n + e * h,
            2 * n <= 2 * (u * h) + e * h,
            o > 0,
    {
        assert(u * h == (100 * u) * o);
        assert(e * h == (100 * e) * o);
    }
    assert(m <= unity().bits);
    if percent.negative() {
        assert(s == 0);
        assert(n == 0) by (nonlinear_arith)
            requires
                n == s * o,
                s == 0,
        ;
        crate::rounding::zero_is_kept(h);
        assert(m == 0);
        assert(q == crate::binary64::signed(true, 0));
        assert(q.magnitude() == 0);
        assert(q.size() == 0);
    } else {
        assert(q == crate::binary64::signed(false, m));
        assert(q.bits == m);
        assert(!q.negative());
        assert(q.size() == u);
    }
    assert(q.size() == u);
    assert(q.value() == q.size());
}

/// Every error says what is wrong.
pub proof fn errors_say_what_is_wrong(error: BrightnessError)
    ensures
        error.message_text() == (match error {
            BrightnessError::InvalidTarget => "brightness"@,
            BrightnessError::InvalidFloor => "hardware floor"@,
            BrightnessError::Unsupported => "the display exposes neither DDC nor gamma control"@,
            BrightnessError::InvalidRampSize => "gamma ramp size must be at least 2"@,
        }) + (if error is InvalidTarget || error is InvalidFloor {
            " must be finite and between 0.0 and 1.0"@
        } else {
            ""@
        }),
{
    reveal_strlit("brightness");
    reveal_strlit("hardware floor");
    reveal_strlit("");
    reveal_strlit(" must be finite and between 0.0 and 1.0");
    reveal_strlit("brightness must be finite and between 0.0 and 1.0");
    reveal_strlit("hardware floor must be finite and between 0.0 and 1.0");
    assert("brightness"@ + " must be finite and between 0.0 and 1.0"@
        =~= "brightness must be finite and between 0.0 and 1.0"@);
    assert("hardware floor"@ + " must be finite and between 0.0 and 1.0"@
        =~= "hardware floor must be finite and between 0.0 and 1.0"@);
    assert(error.message_text() + ""@ =~= error.message_text());
}

/// The share of a percentage is the number nearest to its hundredth, also beyond
/// a hundred.
pub proof fn shares_are_nearest_to_hundredths(percent: u16, other: Binary64)
    ensures
        hardware_share(percent).finite(),
        hardware_share(percent).value() >= 0,
        crate::binary64::gap(
            100 * hardware_share(percent).value(),
            percent * crate::rounding::one(),
        ) <= crate::binary64::gap(
            (100 * other.size()) as int,
            percent * crate::rounding::one(),
        ),
{
    crate::binary64::lemma_literals();
    let o = crate::rounding::one();
    let top = crate::binary64::whole_number(percent as nat);
    crate::binary64::small_whole_numbers_are_exact(percent as nat);
    crate::binary64::results_within_range_are_finite(top, hundred());
    let greatest = crate::rounding::units(0x7fef_ffff_ffff_ffff);
    let h = hundred().size();
    let full = full_scale().size();
    crate::rounding::units_increase(full_scale().bits as nat, 0x7fef_ffff_ffff_ffff);
    assert(top.size() <= 65535 * o) by (nonlinear_arith)
        requires
            top.size() == percent * o,
            percent <= 65535,
    ;
    assert(top.size() * o <= greatest * h) by (nonlinear_arith)
        requires
            top.size() <= 65535 * o,
            full == 65535 * o,
            full < greatest,
            h == 100 * o,
            o > 0,
    ;
    crate::binary64::quotients_are_nearest(top, hundred(), other);
    let s = hardware_share(percent).size();
    let t = other.size();
    let v = percent * o;
    assert(s * h == (100 * s) * o && t * h == (100 * t) * o && top.size() * o == v * o)
        by (nonlinear_arith)
        requires
            h == 100 * o,
            top.size() == v,
    ;
    let near = crate::binary64::gap((100 * s) as int, v);
    let far = crate::binary64::gap((100 * t) as int, v);
    assert(crate::binary64::gap(((100 * s) * o) as int, v * o) == near * o) by (nonlinear_arith)
        requires
            near == (if 100 * s < v {
                v - 100 * s
            } else {
                100 * s - v
            }),
            crate::binary64::gap(((100 * s) * o) as int, v * o) == (if (100 * s) * o < v * o {
                v * o - (100 * s) * o
            } else {
                (100 * s) * o - v * o
            }),
            o > 0,
    ;
    assert(crate::binary64::gap(((100 * t) * o) as int, v * o) == far * o) by (nonlinear_arith)
        requires
            far == (if 100 * t < v {
                v - 100 * t
            } else {
                100 * t - v
            }),
            crate::binary64::gap(((100 * t) * o) as int, v * o) == (if (100 * t) * o < v * o {
                v * o - (100 * t) * o
            } else {
                (100 * t) * o - v * o
            }),
            o > 0,
    ;
    assert(near <= far) by (nonlinear_arith)
        requires
            near * o <= far * o,
            o > 0,
    ;
}

/// The emitted light is the product of both multipliers in hundredths, within
/// its limits; what is no number stays none.
pub proof fn light_stays_within_limits(hardware: Binary64, gamma: Binary64)
    ensures
        ({
            let light = crate::binary64::product(
                crate::binary64::product(hardware, gamma),
                hundred(),
            );
            let shown = emitted_percent(hardware, gamma);
            let o = crate::rounding::one();
            &&& light.nan() <==> shown.nan()
            &&& !light.nan() ==> 0 <= shown.value() <= 100 * o
            &&& !light.nan() && 0 <= light.value() <= 100 * o ==> shown == light
            &&& !light.nan() && light.value() < 0 ==> shown.value() == 0
            &&& !light.nan() && light.value() > 100 * o ==> shown.value() == 100 * o
        }),
{
    crate::binary64::lemma_literals();
    assert(!zero().nan() && !hundred().nan());
}

/// An entry of a ramp is its level rounded to the nearest whole number, and
/// upward where two are equally near.
pub proof fn ramp_entries_are_rounded_upward(size: nat, brightness: Binary64, index: nat)
    requires
        2 <= size <= u64::MAX,
        !brightness.nan(),
        0 <= brightness.value() <= crate::rounding::one(),
        index < size,
    ensures
        ({
            let level = crate::binary64::product(
                crate::binary64::product(
                    crate::binary64::quotient(
                        crate::binary64::whole_number(index),
                        crate::binary64::whole_number((size - 1) as nat),
                    ),
                    brightness,
                ),
                full_scale(),
            ).value();
            let entry = ramp(size, brightness)[index as int];
            let o = crate::rounding::one();
            2 * (entry * o) <= 2 * level + o && 2 * level < 2 * (entry * o) + o
        }),
{
    crate::binary64::lemma_literals();
    lemma_ramp_steps(size, brightness, index);
    let level = crate::binary64::product(
        crate::binary64::product(
            crate::binary64::quotient(
                crate::binary64::whole_number(index),
                crate::binary64::whole_number((size - 1) as nat),
            ),
            brightness,
        ),
        full_scale(),
    );
    let z = level.size();
    let dimmed = crate::binary64::product(
        crate::binary64::quotient(
            crate::binary64::whole_number(index),
            crate::binary64::whole_number((size - 1) as nat),
        ),
        brightness,
    );
    lemma_product_sign(dimmed, full_scale());
    let o = crate::rounding::one();
    let y = dimmed.size();
    let n = y * full_scale().size();
    assert(n <= (65535 * o) * o) by (nonlinear_arith)
        requires
            n == y * (65535 * o),
            y <= o,
    ;
    let most = full_scale().bits as nat;
    crate::rounding::rounding_respects_magnitudes(n, o, most);
    if crate::rounding::rounded(n, o) < most {
        crate::rounding::units_increase(crate::rounding::rounded(n, o) as nat, most);
    }
    assert(z <= 65535 * o);
    crate::binary64::whole_numbers_are_found(z);
    lemma_nearest_whole(z, 65535);
}

/// What is shown of a display is what it holds.
pub proof fn displays_show_what_they_hold(info: DisplayInfo)
    ensures
        info@.id == info.id@,
        info@.name == info.name@,
        info@.connector == info.connector@,
        info@.ddc_brightness == info.ddc_brightness,
        info@.ddc_supported == info.ddc_supported,
        info@.gamma_brightness == info.gamma_brightness,
        info@.gamma_supported == info.gamma_supported,
        info@.last_error == info.last_error@,
{
}

/// A control that a display lacks lets everything through, whatever is noted of
/// it: the effective brightness goes by the other one alone.
pub proof fn missing_controls_let_everything_through(display: DisplayInfoView, other: DisplayInfoView)
    ensures
        display.ddc_supported && display.gamma_supported ==> display.effective()
            == emitted_percent(hardware_share(display.ddc_brightness), display.gamma_brightness),
        display.ddc_supported && !display.gamma_supported ==> display.effective()
            == emitted_percent(hardware_share(display.ddc_brightness), unity()),
        !display.ddc_supported && display.gamma_supported ==> display.effective()
            == emitted_percent(unity(), display.gamma_brightness),
        !display.ddc_supported && !display.gamma_supported ==> display.effective()
            == emitted_percent(unity(), unity()),
        display.ddc_supported == other.ddc_supported && display.gamma_supported
            == other.gamma_supported && (display.ddc_supported ==> display.ddc_brightness
            == other.ddc_brightness) && (display.gamma_supported ==> display.gamma_brightness
            == other.gamma_brightness) ==> display.effective() == other.effective(),
{
}

} // verus!
