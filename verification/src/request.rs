//! What is asked for from outside: checked before it reaches any hardware.

use vstd::prelude::*;

use crate::binary64::{hundred, Binary64};
use crate::gamma::GammaBackend;

verus! {

/// Checks a fraction that came over D-Bus.
pub fn validate_fraction(value: Binary64, name: &str) -> (r: Result<(), String>)
    ensures
        r is Ok <==> value.fraction(),
        r matches Err(message) ==> message@ == name@
            + " must be finite and between 0.0 and 1.0"@,
{
    if value.is_fraction() {
        Ok(())
    } else {
        Err(name.to_owned().concat(" must be finite and between 0.0 and 1.0"))
    }
}

/// Checks a hardware percentage that came over D-Bus.
pub fn validate_ddc_brightness(percent: u16) -> (r: Result<(), String>)
    ensures
        r is Ok <==> percent <= 100,
        r matches Err(message) ==> message@ == "DDC brightness must be between 0 and 100"@,
{
    if percent > 100 {
        Err("DDC brightness must be between 0 and 100".to_owned())
    } else {
        Ok(())
    }
}

/// A percentage as a fraction.
pub open spec fn as_fraction(percent: Binary64) -> Binary64 {
    crate::binary64::quotient(percent, hundred())
}

/// A percentage from the command line as a fraction.
pub fn percentage_fraction(percent: Binary64) -> (r: Result<Binary64, String>)
    ensures
        match r {
            Ok(fraction) => percent.percentage() && fraction == as_fraction(percent),
            Err(message) => !percent.percentage() && message@
                == "percentage must be finite and between 0 and 100"@,
        },
{
    if percent.is_percentage() {
        Ok(percent.over(hundred()))
    } else {
        Err("percentage must be finite and between 0 and 100".to_owned())
    }
}

/// A percentage becomes a fraction that the daemon accepts.
pub proof fn percentages_become_fractions(percent: Binary64)
    requires
        percent.percentage(),
    ensures
        as_fraction(percent).fraction(),
{
    crate::binary64::lemma_literals();
    crate::binary64::lemma_size_zero(0);
    let o = crate::rounding::one();
    let top = crate::binary64::unity().bits as nat;
    let infinite = crate::rounding::INFINITE as nat;
    let last = hundred().bits as nat;
    if percent.magnitude() >= infinite {
        crate::rounding::units_increase(last, infinite);
    }
    let n = percent.size() * o;
    let d = hundred().size();
    assert(d == 100 * o);
    assert(n <= o * d) by (nonlinear_arith)
        requires
            n == percent.size() * o,
            percent.size() <= 100 * o,
            d == 100 * o,
            o > 0,
    ;
    crate::rounding::rounding_respects_magnitudes(n, d, top);
    let m = crate::rounding::rounded(n, d) as nat;
    if m < top {
        crate::rounding::units_increase(m, top);
    }
    if percent.negative() {
        assert(percent.size() == 0);
        assert(n == 0) by (nonlinear_arith)
            requires
                n == percent.size() * o,
                percent.size() == 0,
        ;
        crate::rounding::zero_is_kept(d);
    }
}

/// What the command line asks for.
#[allow(inconsistent_fields)]
#[derive(Debug)]
pub enum Command {
    /// List the cached monitor state.
    List { json: bool },
    /// Re-enumerate DDC and Wayland outputs.
    Refresh { json: bool },
    /// Set unified effective brightness.
    SetUnified { id: String, percent: Binary64 },
    /// Set hardware brightness directly through DDC/CI.
    SetDdc { id: String, percent: u16 },
    /// Set the software gamma multiplier directly.
    SetGamma { id: String, percent: Binary64 },
}

/// What is wrong with a command.
pub open spec fn command_fault(command: Command) -> Option<Seq<char>> {
    match command {
        Command::SetUnified { percent, .. } => percentage_fault(percent),
        Command::SetGamma { percent, .. } => percentage_fault(percent),
        Command::SetDdc { percent, .. } => if percent > 100 {
            Some("DDC percentage must be between 0 and 100"@)
        } else {
            None
        },
        Command::List { .. } => None,
        Command::Refresh { .. } => None,
    }
}

/// What is wrong with a percentage.
pub open spec fn percentage_fault(percent: Binary64) -> Option<Seq<char>> {
    if percent.percentage() {
        None
    } else {
        Some("percentage must be finite and between 0 and 100"@)
    }
}

/// Checks a command before the daemon is asked.
pub fn validate_command(command: &Command) -> (r: Result<(), String>)
    ensures
        match r {
            Ok(_) => command_fault(*command) is None,
            Err(message) => command_fault(*command) == Some(message@),
        },
{
    match command {
        Command::SetUnified { percent, .. } => match percentage_fraction(*percent) {
            Ok(_) => Ok(()),
            Err(message) => Err(message),
        },
        Command::SetGamma { percent, .. } => match percentage_fraction(*percent) {
            Ok(_) => Ok(()),
            Err(message) => Err(message),
        },
        Command::SetDdc { percent, .. } => if *percent > 100 {
            Err("DDC percentage must be between 0 and 100".to_owned())
        } else {
            Ok(())
        },
        Command::List { .. } => Ok(()),
        Command::Refresh { .. } => Ok(()),
    }
}

/// The hardware floor in force: the configured one, unless the command line
/// gives another as a percentage.
pub fn resolve_hardware_floor(
    given: Option<Binary64>,
    configured: Binary64,
) -> (r: Result<Binary64, String>)
    ensures
        match given {
            None => r == Ok::<Binary64, String>(configured),
            Some(percent) => if percent.percentage() {
                r == Ok::<Binary64, String>(as_fraction(percent))
            } else {
                r is Err && r->Err_0@ == "--hardware-floor must be finite and between 0 and 100"@
            },
        },
{
    match given {
        Some(percent) => if percent.is_percentage() {
            Ok(percent.over(hundred()))
        } else {
            Err("--hardware-floor must be finite and between 0 and 100".to_owned())
        },
        None => Ok(configured),
    }
}

/// Whether a refresh has to connect to the compositor anew: where there is no
/// gamma backend, or where the one there is must be recreated.
pub fn refresh_gamma(gamma: Option<&GammaBackend>) -> (r: bool)
    ensures
        r == match gamma {
            Some(backend) => !backend@.running || backend@.failed_outputs,
            None => true,
        },
{
    match gamma {
        Some(backend) => backend.needs_reconnect(),
        None => true,
    }
}

/// A percentage becomes the hundredth of it, but for rounding.
pub proof fn percentages_become_their_hundredth(percent: Binary64)
    requires
        !percent.nan(),
        0 <= percent.value() <= 100 * crate::rounding::one(),
    ensures
        !as_fraction(percent).nan(),
        0 <= as_fraction(percent).value() <= crate::rounding::one(),
        crate::binary64::gap(100 * as_fraction(percent).value(), percent.value()) <= 50
            * crate::binary64::epsilon().value(),
{
    crate::brightness::lemma_near_hundredth(percent);
}

/// A command is refused only for a percentage out of range: no number, below
/// zero, or above a hundred.
pub proof fn commands_are_refused_for_their_percentage(
    id: String,
    percent: Binary64,
    level: u16,
    json: bool,
)
    ensures
        ({
            let good = !percent.nan() && 0 <= percent.value() <= 100 * crate::rounding::one();
            let message = "percentage must be finite and between 0 and 100"@;
            &&& good ==> command_fault(Command::SetUnified { id, percent }) is None
            &&& good ==> command_fault(Command::SetGamma { id, percent }) is None
            &&& !good ==> command_fault(Command::SetUnified { id, percent }) == Some(message)
            &&& !good ==> command_fault(Command::SetGamma { id, percent }) == Some(message)
            &&& percent.percentage() <==> good
            &&& level <= 100 ==> command_fault(Command::SetDdc { id, percent: level }) is None
            &&& level > 100 ==> command_fault(Command::SetDdc { id, percent: level }) == Some(
                "DDC percentage must be between 0 and 100"@,
            )
            &&& command_fault(Command::List { json }) is None
            &&& command_fault(Command::Refresh { json }) is None
        }),
{
}

} // verus!
