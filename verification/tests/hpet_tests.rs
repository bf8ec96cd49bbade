use funderberker::hpet::{
    counter_clock_period, general_config_with_disabled, general_config_with_legacy_route,
    index_to_comparator_reg, index_to_config_reg, index_to_fsb_interrupt_route_reg,
    legacy_route_capable, timer_config_with_disabled, timer_count, timer_setup_config, Hpet,
    HpetError, HpetTimer, TimerMode, TimerSetup, TriggerMode, FEMTOSEC,
};
use funderberker::timer::TimerError;

/// Capabilities of an HPET with a 10 ns clock, three timers and legacy
/// routing.
const CAPABILITIES: u64 = (10_000_000 << 32) | (2 << 8) | (1 << 15);

/// A timer configuration that can run periodically.
const PERIODIC_CAPABLE: u64 = 1 << 4;

#[test]
fn capabilities_fields() {
    assert_eq!(counter_clock_period(CAPABILITIES), 10_000_000);
    assert_eq!(timer_count(CAPABILITIES), 3);
    assert!(legacy_route_capable(CAPABILITIES));
    assert!(!legacy_route_capable(CAPABILITIES & !(1 << 15)));
}

#[test]
fn general_configuration_bits() {
    assert_eq!(general_config_with_disabled(0b11, true), 0b10);
    assert_eq!(general_config_with_disabled(0b10, false), 0b11);
    assert_eq!(general_config_with_legacy_route(0b01), 0b11);
}

#[test]
fn timer_configuration_bits() {
    assert_eq!(
        timer_setup_config(PERIODIC_CAPABLE, TimerMode::Periodic, TriggerMode::LevelTriggered),
        0b1_1110
    );
    assert_eq!(timer_setup_config(0b1010, TimerMode::OneShot, TriggerMode::EdgeTriggered), 0b0100);
    assert_eq!(timer_config_with_disabled(0b1_1110, true), 0b1_1010);
    assert_eq!(timer_config_with_disabled(0, false), 0b100);
}

#[test]
fn timer_register_offsets() {
    assert_eq!(index_to_config_reg(2), 0x140);
    assert_eq!(index_to_comparator_reg(2), 0x148);
    assert_eq!(index_to_fsb_interrupt_route_reg(2), 0x150);
    let timer = HpetTimer::new(0xfed0_0000, 1);
    assert_eq!(timer.get_id(), 1);
    assert_eq!(timer.config_reg_offset(), 0x120);
    assert_eq!(timer.comparator_reg_offset(), 0x128);
    assert_eq!(timer.fsb_interrupt_route_reg_offset(), 0x130);
}

#[test]
fn new_reads_the_capabilities() {
    let hpet = Hpet::new(0xfed0_0000, 1, CAPABILITIES);
    assert_eq!(hpet.base(), 0xfed0_0000);
    assert_eq!(hpet.timer_count(), 3);
}

#[test]
fn time_to_cycles_rounds_up() {
    let hpet = Hpet::new(0xfed0_0000, 1, CAPABILITIES);
    // 10 ns per tick
    assert_eq!(hpet.time_to_cycles(30), 3);
    assert_eq!(hpet.time_to_cycles(25), 3);
    assert_eq!(hpet.time_to_cycles(21), 3);
    assert_eq!(hpet.time_to_cycles(0), 0);
}

#[test]
fn femtosec_to_cycles_keeps_the_minimum_tick() {
    let hpet = Hpet::new(0xfed0_0000, 5, CAPABILITIES);
    assert_eq!(hpet.femtosec_to_cycles(25_000_000), 5);
    assert_eq!(hpet.femtosec_to_cycles(1_000_000_000), 100);
    assert_eq!(hpet.femtosec_to_cycles(1_000_000_001), 101);
}

#[test]
fn alloc_and_free_timers() {
    let mut hpet = Hpet::new(0xfed0_0000, 1, CAPABILITIES);
    assert_eq!(hpet.alloc_index(1_000_000_000), Ok(0));
    let setup = hpet.alloc_timer(
        1_000_000_000,
        TimerMode::Periodic,
        TriggerMode::LevelTriggered,
        PERIODIC_CAPABLE,
        100,
    );
    assert_eq!(setup, Ok(TimerSetup { index: 0, comparator: 200, config: 0b1_1110 }));
    assert_eq!(hpet.alloc_index(1_000_000_000), Ok(1));

    // A timer that cannot be periodic is refused for a periodic mode
    assert_eq!(
        hpet.alloc_timer(1_000_000_000, TimerMode::Periodic, TriggerMode::EdgeTriggered, 0, 0),
        Err(HpetError::UnsupportedTimerMode)
    );
    assert_eq!(
        hpet.alloc_timer(FEMTOSEC + 1, TimerMode::OneShot, TriggerMode::EdgeTriggered, 0, 0),
        Err(HpetError::InvalidTimePeriod)
    );
    let second =
        hpet.alloc_timer(1_000_000_000, TimerMode::OneShot, TriggerMode::EdgeTriggered, 0, 0);
    assert_eq!(second, Ok(TimerSetup { index: 1, comparator: 100, config: 0b100 }));
    let third =
        hpet.alloc_timer(1_000_000_000, TimerMode::OneShot, TriggerMode::EdgeTriggered, 0, 0);
    assert_eq!(third.map(|s| s.index), Ok(2));
    assert_eq!(hpet.alloc_index(1_000_000_000), Err(HpetError::NoFreeTimer));

    assert_eq!(hpet.free_timer(0, 0b1_1110), Ok(0b1_1010));
    assert_eq!(hpet.free_timer(0, 0b1_1110), Err(HpetError::UnusedTimer));
    assert_eq!(hpet.free_timer(3, 0b100), Err(HpetError::NoSuchTimer));
    // A timer whose interrupts are off counts as unused
    assert_eq!(hpet.free_timer(1, 0), Err(HpetError::UnusedTimer));
    assert_eq!(hpet.alloc_index(1_000_000_000), Ok(0));
}

#[test]
fn timer_interrupt_status() {
    let mut hpet = Hpet::new(0xfed0_0000, 1, CAPABILITIES);
    assert_eq!(hpet.get_timer_interrupt_status(0, 1), Err(HpetError::UnusedTimer));
    assert_eq!(hpet.get_timer_interrupt_status(7, 1), Err(HpetError::NoSuchTimer));
    hpet.alloc_timer(1_000_000, TimerMode::OneShot, TriggerMode::LevelTriggered, 0, 0).unwrap();
    hpet.alloc_timer(1_000_000, TimerMode::OneShot, TriggerMode::EdgeTriggered, 0, 0).unwrap();
    assert_eq!(hpet.get_timer_interrupt_status(0, 0b11), Ok((true, Some(1))));
    assert_eq!(hpet.get_timer_interrupt_status(1, 0b11), Ok((true, None)));
    assert_eq!(hpet.get_timer_interrupt_status(0, 0b10), Ok((false, None)));
}

#[test]
fn hpet_timer_status_and_configuration() {
    let timer = HpetTimer::new(0xfed0_0000, 1);
    assert_eq!(timer.get_status(0b10), (true, Some(0b10)));
    assert_eq!(timer.get_status(0b01), (false, None));
    assert_eq!(timer.configure(PERIODIC_CAPABLE, 5, 10, TimerMode::Periodic), Ok((15, 0b1_1110)));
    assert_eq!(
        timer.configure(0, 5, 10, TimerMode::Periodic),
        Err(TimerError::UnsupportedTimerMode)
    );
    assert_eq!(timer.configure(0, 5, 10, TimerMode::OneShot), Ok((15, 0b110)));
}
