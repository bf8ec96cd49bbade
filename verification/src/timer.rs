//! Timers: the local APIC timer's arithmetic and the decisions of its
//! calibration and configuration. The timer registers and the CPUID reads
//! are the caller's.
use vstd::prelude::*;

verus! {

/// Possible errors that a timer might encounter
#[derive(Debug, Clone, Copy, PartialEq, Eq, Structural)]
pub enum TimerError {
    /// The time period is invalid
    InvalidTimePeriod,
    /// No timer is currently available for allocation
    NoTimerAvailable,
    /// Timer mode isn't supported by the hardware
    UnsupportedTimerMode,
    /// Invalid timer flags passed
    InvalidTimerFlags,
    /// An error encountered while working with the IDT
    IdtError,
    /// IRQ mapping error (eg not IRQ lines available, IRQ line already taken)
    IrqError,
}

/// The possible divider values for the APIC timer
#[derive(Debug, Clone, Copy, PartialEq, Eq, Structural)]
pub enum TimerDivisor {
    /// Divide by 2
    Div2,
    /// Divide by 4
    Div4,
    /// Divide by 8
    Div8,
    /// Divide by 16
    Div16,
    /// Divide by 32
    Div32,
    /// Divide by 64
    Div64,
    /// Divide by 128
    Div128,
    /// Divide by 1
    Div1,
}

impl TimerDivisor {
    /// The divisor's encoding in the divide configuration register.
    pub fn bits(self) -> (r: u8)
        ensures
            r == match self {
                TimerDivisor::Div2 => 0b000u8,
                TimerDivisor::Div4 => 0b001u8,
                TimerDivisor::Div8 => 0b010u8,
                TimerDivisor::Div16 => 0b011u8,
                TimerDivisor::Div32 => 0b100u8,
                TimerDivisor::Div64 => 0b101u8,
                TimerDivisor::Div128 => 0b110u8,
                TimerDivisor::Div1 => 0b111u8,
            },
    {
        match self {
            TimerDivisor::Div2 => 0b000,
            TimerDivisor::Div4 => 0b001,
            TimerDivisor::Div8 => 0b010,
            TimerDivisor::Div16 => 0b011,
            TimerDivisor::Div32 => 0b100,
            TimerDivisor::Div64 => 0b101,
            TimerDivisor::Div128 => 0b110,
            TimerDivisor::Div1 => 0b111,
        }
    }
}

/// The local APICs possible timer modes
#[derive(Debug, Clone, Copy, PartialEq, Eq, Structural)]
pub enum TimerMode {
    /// The timer will tick the specified amount and then stop
    OneShot,
    /// The timer will tick the specified amount regularly
    Periodic,
    /// The timer will tick until the specified amount matches the current TSC value
    Tsc,
    /// Reserved
    _Reserved,
}

/// The local APIC timer instance
#[derive(Debug, Clone, Copy, PartialEq, Eq, Structural)]
pub struct ApicTimer {
    /// The **base** frequency of the timer **in MHz**.
    pub base_frequency: u32,
    /// Caching of whether TSC deadline mode is supported
    pub tsc_deadline_supported: bool,
    /// The local APIC this timer belongs to
    pub apic_id: u32,
}

impl ApicTimer {
    /// The timer of local APIC `apic_id`, ticking at `base_frequency` MHz
    /// before division.
    pub fn new(apic_id: u32, base_frequency: u32, tsc_deadline_supported: bool) -> (r: Self)
        ensures
            r == (ApicTimer { base_frequency, tsc_deadline_supported, apic_id }),
    {
        ApicTimer { base_frequency, tsc_deadline_supported, apic_id }
    }

    /// The base frequency in MHz that CPUID leaf 0x15 gives, when both of
    /// its registers are set: its ECX is the core crystal clock in Hz.
    pub fn frequency_from_cpuid(ecx: u32, ebx: u32) -> (r: Option<u32>)
        ensures
            r == (if ecx != 0 && ebx != 0 {
                Some(ecx / 1_000_000)
            } else {
                None::<u32>
            }),
    {
        if ecx != 0 && ebx != 0 {
            Some(ecx / 1_000_000)
        } else {
            None
        }
    }

    /// The base frequency in MHz measured over one second: the ticks the
    /// timer counted down from `u32::MAX`, in millions.
    pub fn frequency_from_count(current_count: u32) -> (r: u32)
        ensures
            r == (u32::MAX - current_count) / 1_000_000,
    {
        let ticks_delta = u32::MAX - current_count;
        ticks_delta / 1_000_000
    }

    /// Whether CPUID leaf 1's ECX reports the TSC deadline mode.
    pub fn tsc_deadline_from_cpuid(ecx: u32) -> (r: bool)
        ensures
            r == ((ecx / 0x100_0000) % 2 == 1),
    {
        let r = (ecx >> 24u32) & 0b1 == 1;
        assert(r == ((ecx / 0x100_0000) % 2 == 1)) by (bit_vector)
            requires
                r == ((ecx >> 24u32) & 0b1 == 1),
        ;
        r
    }

    /// Convert a duration in microseconds into APIC timer clock ticks: the
    /// frequency in MHz is the ticks in a microsecond, so the ticks are the
    /// frequency times the duration's microseconds, taken as a `u32`.
    pub fn time_to_ticks(&self, time_micros: u128) -> (r: u32)
        requires
            self.base_frequency * (time_micros % 0x1_0000_0000) <= u32::MAX,
        ensures
            r == self.base_frequency * (time_micros % 0x1_0000_0000),
    {
        let micros = (time_micros % 0x1_0000_0000) as u32;
        self.base_frequency * micros
    }

    /// Configures the timer for `time_micros` in `timer_mode`: the reserved
    /// mode, and the TSC mode where the CPU lacks it, are refused; otherwise
    /// the ticks the timer is set to.
    pub fn configure(&self, time_micros: u128, timer_mode: TimerMode) -> (r: Result<u64, TimerError>)
        requires
            self.base_frequency * (time_micros % 0x1_0000_0000) <= u32::MAX,
        ensures
            timer_mode == TimerMode::_Reserved || (timer_mode == TimerMode::Tsc
                && !self.tsc_deadline_supported) ==> r == Err::<u64, TimerError>(
                TimerError::UnsupportedTimerMode,
            ),
            !(timer_mode == TimerMode::_Reserved || (timer_mode == TimerMode::Tsc
                && !self.tsc_deadline_supported)) ==> r == Ok::<u64, TimerError>(
                (self.base_frequency * (time_micros % 0x1_0000_0000)) as u64,
            ),
    {
        let reserved = match timer_mode {
            TimerMode::_Reserved => true,
            _ => false,
        };
        let tsc = match timer_mode {
            TimerMode::Tsc => true,
            _ => false,
        };
        if reserved || (tsc && !self.tsc_deadline_supported) {
            return Err(TimerError::UnsupportedTimerMode);
        }
        let ticks = self.time_to_ticks(time_micros);
        Ok(ticks as u64)
    }
}

/// The real-time clock.
pub struct Rtc {}

} // verus!
