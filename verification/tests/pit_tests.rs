use funderberker::pit::{
    command_byte, AccessMode, Channel, ChannelPort, OperatingMode, Pit, BASE_FREQUENCY,
};
use funderberker::timer::TimerError;

#[test]
fn command_byte_fields() {
    assert_eq!(
        command_byte(
            Channel::Channel0.bits(),
            AccessMode::LowAndHighByte.bits(),
            OperatingMode::RateGenerator.bits(),
            0
        ),
        0x2C
    );
    assert_eq!(command_byte(Channel::ReadBack.bits(), 0, 0, 0), 0b11);
    assert_eq!(command_byte(3, 3, 7, 1), 0xFF);
    assert_eq!(ChannelPort::Command.port(), 0x43);
    assert_eq!(ChannelPort::Channel0.port(), 0x40);
}

#[test]
fn time_to_cycles_divides_the_base_frequency() {
    assert_eq!(Pit::time_to_cycles(1000, OperatingMode::RateGenerator), Ok(1193));
    assert_eq!(Pit::time_to_cycles(1000, OperatingMode::InterruptOnTerminalCount), Ok(1193));
    // The quotient keeps its low 16 bits
    assert_eq!(
        Pit::time_to_cycles(1, OperatingMode::SquareWaveGenerator),
        Ok((BASE_FREQUENCY % 0x1_0000) as u16)
    );
    assert_eq!(
        Pit::time_to_cycles(0, OperatingMode::RateGenerator),
        Err(TimerError::InvalidTimePeriod)
    );
    assert_eq!(
        Pit::time_to_cycles(0, OperatingMode::SoftwareTriggeredStrobe),
        Err(TimerError::InvalidTimePeriod)
    );
}

#[test]
fn time_to_divisor_bounds() {
    assert_eq!(Pit::time_to_divisor(1000), Ok(1193));
    assert_eq!(Pit::time_to_divisor(10), Ok(11));
    // One second needs a divisor past 16 bits
    assert_eq!(Pit::time_to_divisor(1_000_000), Err(()));
    // 1 Mhz exceeds nothing, 1193182 Hz is the limit
    assert_eq!(Pit::time_to_divisor(1), Ok(1));
}

#[test]
fn programming_channel_zero() {
    assert_eq!(Pit::write_sequence(0x2C, 0x1234), vec![(0x43, 0x2C), (0x40, 0x34), (0x40, 0x12)]);
    assert_eq!(
        Pit::configure(1000, OperatingMode::RateGenerator),
        Ok(vec![(0x43, 0x2C), (0x40, 0xA9), (0x40, 0x04)])
    );
    assert_eq!(
        Pit::configure(0, OperatingMode::RateGenerator),
        Err(TimerError::InvalidTimePeriod)
    );
    assert_eq!(Pit::new_periodic(1000), Ok(vec![(0x43, 0x2C), (0x40, 0xA9), (0x40, 0x04)]));
    assert_eq!(Pit::new_periodic(1_000_000), Err(()));
    assert_eq!(Pit::read_count_writes(), vec![(0x43, 0b11), (0x40, 0), (0x40, 0)]);
    assert_eq!(Pit::count_from_bytes(0x34, 0x12), 0x1234);
    assert_eq!(Pit::new(2).get_ioapic_id(), 2);
}
