//! The HPET: the layout of its registers, the conversion of times to ticks
//! of its main counter, and the table of its timers. The volatile register
//! accesses are the caller's: it reads a register, hands the value here, and
//! writes what comes back.
use vstd::prelude::*;
use crate::mmio::MmioArea;
use crate::timer::TimerError;

verus! {

/// Offset of the general capabilities register
pub const GENERAL_CAPABILITIES: usize = 0x0;

/// Offset of the general configuration register
pub const GENERAL_CONFIGURATION: usize = 0x10;

/// Offset of the general interrupt status register
pub const GENERAL_INTERRUPT_STATUS: usize = 0x20;

/// Offset of the main counter value register
pub const MAIN_COUNTER_VALUE: usize = 0xf0;

/// Femtoseconds in a second: the longest period a timer can have
pub const FEMTOSEC: u64 = 1_000_000_000_000_000;

/// Femtoseconds in a nanosecond
pub const NANO_TO_FEMTOSEC: u128 = 1_000_000;

/// The maximum amount of timers supported by the HPET
///
/// NOTE: This is not a guarantee, but a limit. The hardware might have less
/// (usually it has 3)
pub const MAX_TIMER_AMOUNT: u64 = 32;

/// Bit of the general configuration register that enables the main counter
pub const ENABLE_BIT: u64 = 0;

/// Bit of the general configuration register that turns on legacy routing
pub const LEGACY_ROUTE_BIT: u64 = 1;

/// Bit of a timer's configuration register: level (set) or edge triggered
pub const INT_TYPE_BIT: u64 = 1;

/// Bit of a timer's configuration register that enables its interrupts
pub const INT_ENABLE_BIT: u64 = 2;

/// Bit of a timer's configuration register: periodic (set) or one shot
pub const TIMER_TYPE_BIT: u64 = 3;

/// Bit of a timer's configuration register telling that it can be periodic
pub const PERIODIC_CAPABLE_BIT: u64 = 4;

/// Errors of the HPET's timer table
#[derive(Debug, Clone, Copy, PartialEq, Eq, Structural)]
pub enum HpetError {
    /// Every timer is in use
    NoFreeTimer,
    /// No timer has the given index
    NoSuchTimer,
    /// The timer cannot run in the given mode
    UnsupportedTimerMode,
    /// The period is longer than a second
    InvalidTimePeriod,
    /// The timer is not in use
    UnusedTimer,
}

/// How a timer's interrupt is triggered
#[derive(Debug, Clone, Copy, PartialEq, Eq, Structural)]
pub enum TriggerMode {
    EdgeTriggered,
    LevelTriggered,
}

/// Whether a timer fires once or periodically
#[derive(Debug, Clone, Copy, PartialEq, Eq, Structural)]
pub enum TimerMode {
    OneShot,
    Periodic,
}

impl TriggerMode {
    /// The mode's value in a timer's configuration register
    pub fn bit(self) -> (r: u64)
        ensures
            r == (if self == TriggerMode::LevelTriggered {
                1u64
            } else {
                0u64
            }),
    {
        match self {
            TriggerMode::EdgeTriggered => 0,
            TriggerMode::LevelTriggered => 1,
        }
    }
}

impl TimerMode {
    /// The mode's value in a timer's configuration register
    pub fn bit(self) -> (r: u64)
        ensures
            r == (if self == TimerMode::Periodic {
                1u64
            } else {
                0u64
            }),
    {
        match self {
            TimerMode::OneShot => 0,
            TimerMode::Periodic => 1,
        }
    }
}

/// Bit `i` of `x` is set.
pub open spec fn bit_set(x: u64, i: u64) -> bool {
    (x >> i) & 1 == 1
}

/// `x` with bit `i` set to `v`.
pub open spec fn with_bit_spec(x: u64, i: u64, v: bool) -> u64 {
    if v {
        x | (1u64 << i)
    } else {
        x & !(1u64 << i)
    }
}

/// Sets bit `i` of `x` to `v`, leaving the other bits.
pub fn with_bit(x: u64, i: u64, v: bool) -> (r: u64)
    requires
        i < 64,
    ensures
        r == with_bit_spec(x, i, v),
        bit_set(r, i) == v,
        forall|j: u64| j < 64 && j != i ==> bit_set(r, j) == bit_set(x, j),
{
    let r = if v {
        x | (1u64 << i)
    } else {
        x & !(1u64 << i)
    };
    proof {
        lemma_with_bit(x, i, v);
    }
    r
}

/// Reads bit `i` of `x`.
pub fn get_bit(x: u64, i: u64) -> (r: bool)
    requires
        i < 64,
    ensures
        r == bit_set(x, i),
{
    (x >> i) & 1 == 1
}

/// The period of the main counter's clock in femtoseconds, from the general
/// capabilities register: its upper half.
pub fn counter_clock_period(capabilities: u64) -> (r: u32)
    ensures
        r == capabilities / 0x1_0000_0000,
{
    assert((capabilities >> 32u64) == capabilities / 0x1_0000_0000) by (bit_vector);
    (capabilities >> 32u64) as u32
}

/// The number of timers, from the general capabilities register: its five
/// bits from bit 8 on hold the index of the last timer.
pub fn timer_count(capabilities: u64) -> (r: usize)
    ensures
        r == (capabilities / 0x100) % 32 + 1,
        1 <= r <= MAX_TIMER_AMOUNT,
{
    assert((capabilities >> 8u64) & 0x1f == (capabilities / 0x100) % 32) by (bit_vector);
    (((capabilities >> 8u64) & 0x1f) + 1) as usize
}

/// Whether the HPET can route its interrupts the legacy way, from the
/// general capabilities register: its bit 15.
pub fn legacy_route_capable(capabilities: u64) -> (r: bool)
    ensures
        r == bit_set(capabilities, 15),
{
    get_bit(capabilities, 15)
}

/// The general configuration with the main counter enabled, or halted when
/// `disabled`; that halts every timer.
pub fn general_config_with_disabled(config: u64, disabled: bool) -> (r: u64)
    ensures
        r == with_bit_spec(config, ENABLE_BIT, !disabled),
{
    with_bit(config, ENABLE_BIT, !disabled)
}

/// The general configuration with legacy interrupt routing turned on.
pub fn general_config_with_legacy_route(config: u64) -> (r: u64)
    ensures
        r == with_bit_spec(config, LEGACY_ROUTE_BIT, true),
{
    with_bit(config, LEGACY_ROUTE_BIT, true)
}

/// A timer's configuration set up to run in `mode`, triggered by
/// `trigger_mode`, with its interrupts enabled.
pub open spec fn setup_config(config: u64, mode: TimerMode, trigger_mode: TriggerMode) -> u64 {
    with_bit_spec(
        with_bit_spec(
            with_bit_spec(config, TIMER_TYPE_BIT, mode == TimerMode::Periodic),
            INT_TYPE_BIT,
            trigger_mode == TriggerMode::LevelTriggered,
        ),
        INT_ENABLE_BIT,
        true,
    )
}

/// Sets a timer's configuration up to run in `mode`, triggered by
/// `trigger_mode`, with its interrupts enabled; the other bits stay.
pub fn timer_setup_config(config: u64, mode: TimerMode, trigger_mode: TriggerMode) -> (r: u64)
    ensures
        r == setup_config(config, mode, trigger_mode),
        bit_set(r, TIMER_TYPE_BIT) == (mode == TimerMode::Periodic),
        bit_set(r, INT_TYPE_BIT) == (trigger_mode == TriggerMode::LevelTriggered),
        bit_set(r, INT_ENABLE_BIT),
        forall|j: u64|
            j < 64 && j != TIMER_TYPE_BIT && j != INT_TYPE_BIT && j != INT_ENABLE_BIT ==> bit_set(r, j)
                == bit_set(config, j),
{
    let a = with_bit(config, TIMER_TYPE_BIT, mode == TimerMode::Periodic);
    let b = with_bit(a, INT_TYPE_BIT, trigger_mode == TriggerMode::LevelTriggered);
    with_bit(b, INT_ENABLE_BIT, true)
}

/// A timer's configuration with its interrupts masked off, when `disabled`,
/// or enabled; the timer is then effectively disabled.
pub fn timer_config_with_disabled(config: u64, disabled: bool) -> (r: u64)
    ensures
        r == with_bit_spec(config, INT_ENABLE_BIT, !disabled),
{
    with_bit(config, INT_ENABLE_BIT, !disabled)
}

/// Get the timer's configuration register address
pub fn index_to_config_reg(index: usize) -> (r: usize)
    requires
        index < MAX_TIMER_AMOUNT,
    ensures
        r == 0x100 + 0x20 * index,
{
    0x100 + (0x20 * index)
}

/// Get the timer's comparator register address
pub fn index_to_comparator_reg(index: usize) -> (r: usize)
    requires
        index < MAX_TIMER_AMOUNT,
    ensures
        r == 0x108 + 0x20 * index,
{
    0x108 + (0x20 * index)
}

/// Get the timer's FSB interrupt route register address
pub fn index_to_fsb_interrupt_route_reg(index: usize) -> (r: usize)
    requires
        index < MAX_TIMER_AMOUNT,
    ensures
        r == 0x110 + 0x20 * index,
{
    0x110 + (0x20 * index)
}

/// `a / b` rounded up.
pub open spec fn div_ceil(a: int, b: int) -> int {
    if a % b == 0 {
        a / b
    } else {
        a / b + 1
    }
}

/// A timer of the HPET that is in use
#[derive(Debug, Clone, Copy, PartialEq, Eq, Structural)]
pub struct Timer {
    /// Ticks of the main counter between the timer's interrupts
    pub cycles_per_period: u64,
    /// How the timer's interrupt is triggered
    pub trigger_mode: TriggerMode,
    /// Whether the timer fires once or periodically
    pub mode: TimerMode,
}

impl Timer {
    /// Create a new timer with the given parameters
    pub fn new(cycles_per_period: u64, trigger_mode: TriggerMode, mode: TimerMode) -> (r: Self)
        ensures
            r == (Timer { cycles_per_period, trigger_mode, mode }),
    {
        Timer { cycles_per_period, trigger_mode, mode }
    }
}

/// What the HPET holds, as plain values.
pub struct HpetState {
    /// Address of the HPET's registers
    pub base: usize,
    /// Period of the main counter's clock, in femtoseconds
    pub main_clock_period: u64,
    /// The fewest ticks a timer's period may have
    pub minimum_tick: u16,
    /// The HPET's timers, each in use or not
    pub timers: Seq<Option<Timer>>,
}

/// The HPET is consistent: its clock has a period, and it has at most
/// `MAX_TIMER_AMOUNT` timers.
pub open spec fn hpet_ok(h: HpetState) -> bool {
    &&& 0 < h.main_clock_period < 0x5F5E100
    &&& h.timers.len() <= MAX_TIMER_AMOUNT
}

/// The ticks of the main counter in a period of `time` femtoseconds: rounded
/// up, and at least the minimum tick.
pub open spec fn cycles_for(h: HpetState, time: u64) -> u64 {
    let c = div_ceil(time as int, h.main_clock_period as int);
    if c >= h.minimum_tick {
        c as u64
    } else {
        h.minimum_tick as u64
    }
}

/// The first timer from `i` on that is not in use, or the number of timers.
pub open spec fn first_unused(timers: Seq<Option<Timer>>, i: int) -> int
    decreases timers.len() - i,
{
    if i < 0 || i >= timers.len() {
        timers.len() as int
    } else if timers[i] is None {
        i
    } else {
        first_unused(timers, i + 1)
    }
}

/// `first_unused` finds the first timer not in use.
proof fn lemma_first_unused(timers: Seq<Option<Timer>>, i: int)
    requires
        0 <= i <= timers.len(),
    ensures
        i <= first_unused(timers, i) <= timers.len(),
        first_unused(timers, i) < timers.len() ==> timers[first_unused(timers, i)] is None,
        forall|k: int| i <= k < first_unused(timers, i) ==> timers[k] is Some,
    decreases timers.len() - i,
{
    if i < timers.len() && timers[i] is Some {
        lemma_first_unused(timers, i + 1);
    }
}

/// What the caller writes to set a timer up: at its index, the comparator
/// and then the configuration.
#[derive(Debug, Clone, Copy, PartialEq, Eq, Structural)]
pub struct TimerSetup {
    /// Index of the timer
    pub index: usize,
    /// Value of the main counter at which the timer fires first
    pub comparator: u64,
    /// The timer's configuration
    pub config: u64,
}

/// The index `alloc_timer` picks for a period of `time` femtoseconds: the
/// first timer not in use.
pub open spec fn alloc_index(h: HpetState, time: u64) -> Result<usize, HpetError> {
    let k = first_unused(h.timers, 0);
    if time > FEMTOSEC {
        Err(HpetError::InvalidTimePeriod)
    } else if k >= h.timers.len() {
        Err(HpetError::NoFreeTimer)
    } else {
        Ok(k as usize)
    }
}

/// The outcome of allocating a timer for a period of `time` femtoseconds,
/// given the configuration register of the timer it picks and the main
/// counter: what to write and the HPET after it, or an error.
pub open spec fn alloc_outcome(
    h: HpetState,
    time: u64,
    mode: TimerMode,
    trigger_mode: TriggerMode,
    timer_config: u64,
    main_counter: u64,
) -> (Result<TimerSetup, HpetError>, HpetState) {
    match alloc_index(h, time) {
        Err(e) => (Err(e), h),
        Ok(k) => if mode == TimerMode::Periodic && !bit_set(timer_config, PERIODIC_CAPABLE_BIT) {
            (Err(HpetError::UnsupportedTimerMode), h)
        } else {
            let cycles = cycles_for(h, time);
            (
                Ok(
                    TimerSetup {
                        index: k,
                        comparator: (main_counter + cycles) as u64,
                        config: setup_config(timer_config, mode, trigger_mode),
                    },
                ),
                HpetState {
                    timers: h.timers.update(k as int, Some(Timer { cycles_per_period: cycles, trigger_mode, mode })),
                    ..h
                },
            )
        },
    }
}

/// The outcome of freeing the timer at `index`, given its configuration
/// register: the configuration to write and the HPET after it, or an error.
pub open spec fn free_outcome(h: HpetState, index: usize, timer_config: u64) -> (
    Result<u64, HpetError>,
    HpetState,
) {
    if index >= h.timers.len() {
        (Err(HpetError::NoSuchTimer), h)
    } else if h.timers[index as int] is None {
        (Err(HpetError::UnusedTimer), h)
    } else if !bit_set(timer_config, INT_ENABLE_BIT) {
        (Err(HpetError::UnusedTimer), h)
    } else {
        (
            Ok(with_bit_spec(timer_config, INT_ENABLE_BIT, false)),
            HpetState { timers: h.timers.update(index as int, None), ..h },
        )
    }
}

/// The HPET and the table of its timers
pub struct Hpet {
    area: MmioArea<usize, usize, u64>,
    main_clock_period: u64,
    minimum_tick: u16,
    timers: Vec<Option<Timer>>,
}

impl View for Hpet {
    type V = HpetState;

    closed spec fn view(&self) -> HpetState {
        HpetState {
            base: self.area.address(),
            main_clock_period: self.main_clock_period,
            minimum_tick: self.minimum_tick,
            timers: self.timers@,
        }
    }
}

impl Hpet {
    /// Create the HPET of the registers at `base`, from its general
    /// capabilities register: the period of its clock, which must be set
    /// and under 100 ns, and the number of its timers, none in use.
    pub fn new(base: usize, minimum_tick: u16, capabilities: u64) -> (r: Self)
        requires
            0 < capabilities / 0x1_0000_0000 < 0x5F5E100,
        ensures
            r@.base == base,
            r@.main_clock_period == capabilities / 0x1_0000_0000,
            r@.minimum_tick == minimum_tick,
            r@.timers == Seq::new(((capabilities / 0x100) % 32 + 1) as nat, |i: int| None::<Timer>),
            hpet_ok(r@),
    {
        let main_clock_period = counter_clock_period(capabilities) as u64;
        let count = timer_count(capabilities);
        let mut timers: Vec<Option<Timer>> = Vec::new();
        let mut i: usize = 0;
        while i < count
            invariant
                i <= count,
                timers@ == Seq::new(i as nat, |k: int| None::<Timer>),
            decreases count - i,
        {
            timers.push(None);
            i = i + 1;
            assert(timers@ =~= Seq::new(i as nat, |k: int| None::<Timer>));
        }
        Hpet { area: MmioArea::new(base), main_clock_period, minimum_tick, timers }
    }

    /// Address of the HPET's registers
    pub fn base(&self) -> (r: usize)
        ensures
            r == self@.base,
    {
        self.area.base()
    }

    /// The number of the HPET's timers
    pub fn timer_count(&self) -> (r: usize)
        ensures
            r == self@.timers.len(),
    {
        self.timers.len()
    }

    /// Converts the time to cycles.
    ///
    /// IMPORTANT NOTE: If the time is not a multiple of the main clock
    /// period, it will be rounded up to the next multiple of the main clock
    /// period.
    pub fn time_to_cycles(&self, nanos: u128) -> (r: u64)
        requires
            hpet_ok(self@),
            nanos * NANO_TO_FEMTOSEC + self@.main_clock_period <= u128::MAX,
        ensures
            r == div_ceil(nanos * NANO_TO_FEMTOSEC, self@.main_clock_period as int) as u64,
    {
        let femtos = nanos * NANO_TO_FEMTOSEC;
        let period = self.main_clock_period as u128;
        let cycles = femtos / period + if femtos % period == 0 {
            0
        } else {
            1
        };
        cycles as u64
    }

    /// Converts a period in femtoseconds to ticks of the main counter:
    /// rounded up, and at least the minimum tick.
    pub fn femtosec_to_cycles(&self, time: u64) -> (r: u64)
        requires
            hpet_ok(self@),
        ensures
            r == cycles_for(self@, time),
    {
        proof {
            if time == 0 {
                vstd::arithmetic::div_mod::lemma_small_mod(0, self.main_clock_period as nat);
            }
            if time % self.main_clock_period != 0 {
                vstd::arithmetic::div_mod::lemma_div_decreases(
                    time as int,
                    self.main_clock_period as int,
                );
            }
        }
        let c = time / self.main_clock_period + if time % self.main_clock_period == 0 {
            0
        } else {
            1
        };
        if c >= self.minimum_tick as u64 {
            c
        } else {
            self.minimum_tick as u64
        }
    }

    /// The index of the timer `alloc_timer` would pick for a period of
    /// `time` femtoseconds; the caller reads that timer's configuration
    /// register for `alloc_timer`.
    pub fn alloc_index(&self, time: u64) -> (r: Result<usize, HpetError>)
        ensures
            r == alloc_index(self@, time),
    {
        if time > FEMTOSEC {
            return Err(HpetError::InvalidTimePeriod);
        }
        proof {
            lemma_first_unused(self@.timers, 0);
        }
        let mut i: usize = 0;
        while i < self.timers.len()
            invariant
                time <= FEMTOSEC,
                i <= self.timers@.len(),
                forall|k: int| 0 <= k < i ==> self.timers@[k] is Some,
                0 <= first_unused(self@.timers, 0) <= self@.timers.len(),
                first_unused(self@.timers, 0) < self@.timers.len() ==> self@.timers[first_unused(
                    self@.timers,
                    0,
                )] is None,
                forall|k: int| 0 <= k < first_unused(self@.timers, 0) ==> self@.timers[k] is Some,
            decreases self.timers@.len() - i,
        {
            if self.timers[i].is_none() {
                proof {
                    let f = first_unused(self@.timers, 0);
                    if f < i {
                        assert(self@.timers[f] is Some);
                    }
                    if f > i {
                        assert(self@.timers[i as int] is Some);
                    }
                }
                return Ok(i);
            }
            i = i + 1;
        }
        proof {
            let f = first_unused(self@.timers, 0);
            if f < self@.timers.len() {
                assert(self@.timers[f] is Some);
            }
        }
        Err(HpetError::NoFreeTimer)
    }

    /// Allocate a timer for a period of `time` femtoseconds, in `mode`,
    /// triggered by `trigger_mode`: the first timer not in use, which must
    /// be able to run periodically for a periodic mode. Takes that timer's
    /// configuration register and the main counter as the caller read them,
    /// and gives what to write to set the timer up.
    pub fn alloc_timer(
        &mut self,
        time: u64,
        mode: TimerMode,
        trigger_mode: TriggerMode,
        timer_config: u64,
        main_counter: u64,
    ) -> (r: Result<TimerSetup, HpetError>)
        requires
            hpet_ok(old(self)@),
            main_counter + cycles_for(old(self)@, time) <= u64::MAX,
        ensures
            (r, final(self)@) == alloc_outcome(
                old(self)@,
                time,
                mode,
                trigger_mode,
                timer_config,
                main_counter,
            ),
            hpet_ok(final(self)@),
    {
        proof {
            lemma_first_unused(self@.timers, 0);
        }
        let index = match self.alloc_index(time) {
            Ok(index) => index,
            Err(e) => {
                return Err(e);
            },
        };
        if mode == TimerMode::Periodic && !get_bit(timer_config, PERIODIC_CAPABLE_BIT) {
            return Err(HpetError::UnsupportedTimerMode);
        }
        let cycles_per_period = self.femtosec_to_cycles(time);
        self.timers.set(index, Some(Timer::new(cycles_per_period, trigger_mode, mode)));
        let config = timer_setup_config(timer_config, mode, trigger_mode);
        assert(self@ =~= alloc_outcome(old(self)@, time, mode, trigger_mode, timer_config, main_counter).1);
        Ok(TimerSetup { index, comparator: main_counter + cycles_per_period, config })
    }

    /// Disable and free the timer with the given index, given its
    /// configuration register as the caller read it; a timer whose
    /// interrupts are already off counts as unused. Gives the configuration
    /// to write.
    pub fn free_timer(&mut self, index: usize, timer_config: u64) -> (r: Result<u64, HpetError>)
        requires
            hpet_ok(old(self)@),
        ensures
            (r, final(self)@) == free_outcome(old(self)@, index, timer_config),
            hpet_ok(final(self)@),
    {
        if index >= self.timers.len() {
            return Err(HpetError::NoSuchTimer);
        }
        if self.timers[index].is_none() {
            return Err(HpetError::UnusedTimer);
        }
        if !get_bit(timer_config, INT_ENABLE_BIT) {
            return Err(HpetError::UnusedTimer);
        }
        let config = with_bit(timer_config, INT_ENABLE_BIT, false);
        self.timers.set(index, None);
        assert(self@ =~= free_outcome(old(self)@, index, timer_config).1);
        Ok(config)
    }

    /// Get the status of the interrupt line of the timer with index
    /// `timer_index`, from the general interrupt status register as the
    /// caller read it. A level triggered timer that fired has its status
    /// bit cleared by writing back the given mask.
    pub fn get_timer_interrupt_status(&self, timer_index: usize, general_interrupt_status: u64) -> (r:
        Result<(bool, Option<u64>), HpetError>)
        requires
            hpet_ok(self@),
        ensures
            timer_index >= self@.timers.len() ==> r == Err::<(bool, Option<u64>), HpetError>(
                HpetError::NoSuchTimer,
            ),
            timer_index < self@.timers.len() && self@.timers[timer_index as int] is None ==> r
                == Err::<(bool, Option<u64>), HpetError>(HpetError::UnusedTimer),
            timer_index < self@.timers.len() && self@.timers[timer_index as int] is Some ==> ({
                let status = bit_set(general_interrupt_status, timer_index as u64);
                let level = self@.timers[timer_index as int]->Some_0.trigger_mode
                    == TriggerMode::LevelTriggered;
                r == Ok::<(bool, Option<u64>), HpetError>(
                    (
                        status,
                        if status && level {
                            Some(1u64 << timer_index as u64)
                        } else {
                            None
                        },
                    ),
                )
            }),
    {
        if timer_index >= self.timers.len() {
            return Err(HpetError::NoSuchTimer);
        }
        let timer = match self.timers[timer_index] {
            Some(t) => t,
            None => {
                return Err(HpetError::UnusedTimer);
            },
        };
        let status = get_bit(general_interrupt_status, timer_index as u64);
        if status && timer.trigger_mode == TriggerMode::LevelTriggered {
            Ok((status, Some(1u64 << timer_index as u64)))
        } else {
            Ok((status, None))
        }
    }
}

/// A timer of the HPET, by its index
pub struct HpetTimer {
    area: MmioArea<usize, usize, u64>,
    id: usize,
}

impl HpetTimer {
    /// The timer with index `id` of the HPET at `base`
    pub fn new(base: usize, id: usize) -> (r: Self)
        requires
            id < MAX_TIMER_AMOUNT,
        ensures
            r.base() == base,
            r.id() == id,
    {
        HpetTimer { area: MmioArea::new(base), id }
    }

    /// Address of the HPET's registers
    pub closed spec fn base(&self) -> usize {
        self.area.address()
    }

    /// The timer's index
    pub closed spec fn id(&self) -> usize {
        self.id
    }

    /// Get the timer's ID
    pub fn get_id(&self) -> (r: usize)
        ensures
            r == self.id(),
            r < MAX_TIMER_AMOUNT,
    {
        proof {
            use_type_invariant(self);
        }
        self.id
    }

    /// The timer's index is one the HPET can have.
    #[verifier::type_invariant]
    spec fn id_ok(self) -> bool {
        self.id < MAX_TIMER_AMOUNT
    }

    /// Get the timer's configuration register address
    pub fn config_reg_offset(&self) -> (r: usize)
        ensures
            r == 0x100 + 0x20 * self.id(),
    {
        proof {
            use_type_invariant(self);
        }
        index_to_config_reg(self.id)
    }

    /// Get the timer's comparator register address
    pub fn comparator_reg_offset(&self) -> (r: usize)
        ensures
            r == 0x108 + 0x20 * self.id(),
    {
        proof {
            use_type_invariant(self);
        }
        index_to_comparator_reg(self.id)
    }

    /// Get the timer's FSB interrupt route register address
    pub fn fsb_interrupt_route_reg_offset(&self) -> (r: usize)
        ensures
            r == 0x110 + 0x20 * self.id(),
    {
        proof {
            use_type_invariant(self);
        }
        index_to_fsb_interrupt_route_reg(self.id)
    }

    /// Whether the timer has fired, from the general interrupt status
    /// register as the caller read it, and the value to write back to clear
    /// its status bit when it did.
    ///
    /// **NOTE:** This is only valid for timers where the interrupts are level
    /// triggered. For edge triggered interrupts, the status bit will always
    /// be `0` and so `false` will be returned.
    pub fn get_status(&self, general_interrupt_status: u64) -> (r: (bool, Option<u64>))
        ensures
            r.0 == bit_set(general_interrupt_status, self.id() as u64),
            r.1 == (if r.0 {
                Some(general_interrupt_status & (1u64 << self.id() as u64))
            } else {
                None
            }),
    {
        proof {
            use_type_invariant(self);
        }
        let id = self.id as u64;
        let read = general_interrupt_status & (1u64 << id);
        proof {
            assert((read != 0) == bit_set(general_interrupt_status, id)) by (bit_vector)
                requires
                    id < 64,
                    read == general_interrupt_status & (1u64 << id),
            ;
        }
        if read != 0 {
            (true, Some(read))
        } else {
            (false, None)
        }
    }

    /// Configures the timer to fire after `cycles` ticks of the main
    /// counter, in `timer_mode`, level triggered: from its configuration
    /// register and the main counter as the caller read them, the comparator
    /// and configuration to write; a periodic mode needs a timer that can
    /// run periodically.
    pub fn configure(&self, timer_config: u64, main_counter: u64, cycles: u64, timer_mode: TimerMode) -> (r:
        Result<(u64, u64), TimerError>)
        requires
            main_counter + cycles <= u64::MAX,
        ensures
            timer_mode == TimerMode::Periodic && !bit_set(timer_config, PERIODIC_CAPABLE_BIT) ==> r
                == Err::<(u64, u64), TimerError>(TimerError::UnsupportedTimerMode),
            !(timer_mode == TimerMode::Periodic && !bit_set(timer_config, PERIODIC_CAPABLE_BIT)) ==> r
                == Ok::<(u64, u64), TimerError>(
                (
                    (main_counter + cycles) as u64,
                    setup_config(timer_config, timer_mode, TriggerMode::LevelTriggered),
                ),
            ),
    {
        if timer_mode == TimerMode::Periodic && !get_bit(timer_config, PERIODIC_CAPABLE_BIT) {
            return Err(TimerError::UnsupportedTimerMode);
        }
        let config = timer_setup_config(timer_config, timer_mode, TriggerMode::LevelTriggered);
        Ok((main_counter + cycles, config))
    }
}

/// Setting bit `i` of `x` to `v` sets that bit, and leaves the others.
pub proof fn lemma_with_bit(x: u64, i: u64, v: bool)
    requires
        i < 64,
    ensures
        bit_set(with_bit_spec(x, i, v), i) == v,
        forall|j: u64| j < 64 && j != i ==> bit_set(with_bit_spec(x, i, v), j) == bit_set(x, j),
{
    if v {
        assert(bit_set(x | (1u64 << i), i)) by (bit_vector)
            requires
                i < 64,
        ;
        assert forall|j: u64| j < 64 && j != i implies bit_set(x | (1u64 << i), j) == bit_set(x, j) by {
            assert(((x | (1u64 << i)) >> j) & 1 == (x >> j) & 1) by (bit_vector)
                requires
                    i < 64,
                    j < 64,
                    j != i,
            ;
        }
    } else {
        assert(!bit_set(x & !(1u64 << i), i)) by (bit_vector)
            requires
                i < 64,
        ;
        assert forall|j: u64| j < 64 && j != i implies bit_set(x & !(1u64 << i), j) == bit_set(x, j) by {
            assert(((x & !(1u64 << i)) >> j) & 1 == (x >> j) & 1) by (bit_vector)
                requires
                    i < 64,
                    j < 64,
                    j != i,
            ;
        }
    }
}

/// Freeing the timer an allocation just set up, with the configuration it
/// was set up with, is accepted, masks its interrupts off, and leaves the
/// HPET's table as it was before the allocation.
pub proof fn law_alloc_then_free(
    h: HpetState,
    time: u64,
    mode: TimerMode,
    trigger_mode: TriggerMode,
    timer_config: u64,
    main_counter: u64,
)
    requires
        hpet_ok(h),
        alloc_outcome(h, time, mode, trigger_mode, timer_config, main_counter).0 is Ok,
    ensures
        ({
            let (r, h2) = alloc_outcome(h, time, mode, trigger_mode, timer_config, main_counter);
            let setup = r->Ok_0;
            let (f, h3) = free_outcome(h2, setup.index, setup.config);
            &&& f == Ok::<u64, HpetError>(with_bit_spec(setup.config, INT_ENABLE_BIT, false))
            &&& !bit_set(f->Ok_0, INT_ENABLE_BIT)
            &&& h3 == h
        }),
{
    lemma_first_unused(h.timers, 0);
    let a = with_bit_spec(timer_config, TIMER_TYPE_BIT, mode == TimerMode::Periodic);
    let b = with_bit_spec(a, INT_TYPE_BIT, trigger_mode == TriggerMode::LevelTriggered);
    let c = with_bit_spec(b, INT_ENABLE_BIT, true);
    lemma_with_bit(b, INT_ENABLE_BIT, true);
    lemma_with_bit(c, INT_ENABLE_BIT, false);
    let (r, h2) = alloc_outcome(h, time, mode, trigger_mode, timer_config, main_counter);
    let k = r->Ok_0.index;
    let h3 = free_outcome(h2, k, c).1;
    assert(h3.timers =~= h.timers);
}

/// A timer an allocation set up is in use: the next allocation picks
/// another one.
pub proof fn law_alloc_distinct(
    h: HpetState,
    time: u64,
    mode: TimerMode,
    trigger_mode: TriggerMode,
    timer_config: u64,
    main_counter: u64,
    time2: u64,
)
    requires
        hpet_ok(h),
        alloc_outcome(h, time, mode, trigger_mode, timer_config, main_counter).0 is Ok,
    ensures
        ({
            let (r, h2) = alloc_outcome(h, time, mode, trigger_mode, timer_config, main_counter);
            alloc_index(h2, time2) matches Ok(k2) ==> k2 != r->Ok_0.index
        }),
{
    let (r, h2) = alloc_outcome(h, time, mode, trigger_mode, timer_config, main_counter);
    lemma_first_unused(h.timers, 0);
    lemma_first_unused(h2.timers, 0);
}

} // verus!
