//! The PIT: the encoding of its commands, the conversion of periods to the
//! values its channel 0 counts down from, and the port writes that program
//! it. The port I/O is the caller's.
use vstd::prelude::*;
use crate::timer::TimerError;

verus! {

/// The PIT's input frequency, in Hz
pub const BASE_FREQUENCY: u32 = 1193182;

/// The PIT has three channels (0, 1, and 2) and a command register.
#[derive(Debug, Clone, Copy, PartialEq, Eq, Structural)]
pub enum ChannelPort {
    Channel0,
    Channel1,
    Channel2,
    Command,
}

impl ChannelPort {
    /// The I/O port
    pub fn port(self) -> (r: u16)
        ensures
            r == match self {
                ChannelPort::Channel0 => 0x40u16,
                ChannelPort::Channel1 => 0x41u16,
                ChannelPort::Channel2 => 0x42u16,
                ChannelPort::Command => 0x43u16,
            },
    {
        match self {
            ChannelPort::Channel0 => 0x40,
            ChannelPort::Channel1 => 0x41,
            ChannelPort::Channel2 => 0x42,
            ChannelPort::Command => 0x43,
        }
    }
}

/// The channel a command addresses, or a read back.
#[derive(Debug, Clone, Copy, PartialEq, Eq, Structural)]
pub enum Channel {
    Channel0,
    Channel1,
    Channel2,
    ReadBack,
}

impl Channel {
    /// The channel's value in a command
    pub fn bits(self) -> (r: u8)
        ensures
            r == match self {
                Channel::Channel0 => 0b00u8,
                Channel::Channel1 => 0b01u8,
                Channel::Channel2 => 0b10u8,
                Channel::ReadBack => 0b11u8,
            },
    {
        match self {
            Channel::Channel0 => 0b00,
            Channel::Channel1 => 0b01,
            Channel::Channel2 => 0b10,
            Channel::ReadBack => 0b11,
        }
    }
}

/// The available access modes for the PIT. The access mode determines how
/// the channel port is accessed.
#[derive(Debug, Clone, Copy, PartialEq, Eq, Structural)]
pub enum AccessMode {
    Latch,
    LowByte,
    HighByte,
    LowAndHighByte,
}

impl AccessMode {
    /// The access mode's value in a command
    pub fn bits(self) -> (r: u8)
        ensures
            r == match self {
                AccessMode::Latch => 0b00u8,
                AccessMode::LowByte => 0b01u8,
                AccessMode::HighByte => 0b10u8,
                AccessMode::LowAndHighByte => 0b11u8,
            },
    {
        match self {
            AccessMode::Latch => 0b00,
            AccessMode::LowByte => 0b01,
            AccessMode::HighByte => 0b10,
            AccessMode::LowAndHighByte => 0b11,
        }
    }
}

/// The different operating modes of the PIT.
#[derive(Debug, Clone, Copy, PartialEq, Eq, Structural)]
pub enum OperatingMode {
    /// The output goes low on the command, and high when the count reaches
    /// zero.
    InterruptOnTerminalCount,
    /// A one shot that the hardware can start again.
    HardwareRetriggerableOneShot,
    /// A frequency divider: the output pulses low each time the count
    /// reaches one, and the count reloads.
    RateGenerator,
    /// A rate generator whose output is a square wave.
    SquareWaveGenerator,
    SoftwareTriggeredStrobe,
    HardwareTriggeredStrobe,
    _RateGenerator2,
    _SquareWaveGenerator2,
}

/// The operating mode's value in a command.
pub open spec fn operating_mode_bits(m: OperatingMode) -> u8 {
    match m {
        OperatingMode::InterruptOnTerminalCount => 0b000u8,
        OperatingMode::HardwareRetriggerableOneShot => 0b001u8,
        OperatingMode::RateGenerator => 0b010u8,
        OperatingMode::SquareWaveGenerator => 0b011u8,
        OperatingMode::SoftwareTriggeredStrobe => 0b100u8,
        OperatingMode::HardwareTriggeredStrobe => 0b101u8,
        OperatingMode::_RateGenerator2 => 0b110u8,
        OperatingMode::_SquareWaveGenerator2 => 0b111u8,
    }
}

impl OperatingMode {
    /// The operating mode's value in a command
    pub fn bits(self) -> (r: u8)
        ensures
            r == operating_mode_bits(self),
    {
        match self {
            OperatingMode::InterruptOnTerminalCount => 0b000,
            OperatingMode::HardwareRetriggerableOneShot => 0b001,
            OperatingMode::RateGenerator => 0b010,
            OperatingMode::SquareWaveGenerator => 0b011,
            OperatingMode::SoftwareTriggeredStrobe => 0b100,
            OperatingMode::HardwareTriggeredStrobe => 0b101,
            OperatingMode::_RateGenerator2 => 0b110,
            OperatingMode::_SquareWaveGenerator2 => 0b111,
        }
    }
}

/// Packs a command byte: the channel in bits 0 and 1, the access mode in
/// bits 2 and 3, the operating mode in bits 4 to 6, and the BCD flag in bit 7.
pub fn command_byte(channel: u8, access_mode: u8, operating_mode: u8, bcd: u8) -> (r: u8)
    requires
        channel < 4,
        access_mode < 4,
        operating_mode < 8,
        bcd < 2,
    ensures
        r == channel + access_mode * 4 + operating_mode * 16 + bcd * 128,
{
    let r = channel | (access_mode << 2u8) | (operating_mode << 4u8) | (bcd << 7u8);
    assert(r == channel + access_mode * 4 + operating_mode * 16 + bcd * 128) by (bit_vector)
        requires
            channel < 4,
            access_mode < 4,
            operating_mode < 8,
            bcd < 2,
            r == channel | (access_mode << 2u8) | (operating_mode << 4u8) | (bcd << 7u8),
    ;
    r
}

/// The value channel 0 counts down from for a period of `micros`
/// microseconds: the input frequency over the period, kept to its low 16
/// bits, with 0xffff taken as 0 (the count of 65536).
pub open spec fn cycles_for(micros: int) -> int {
    let c = (1193182int / micros) % 0x1_0000int;
    if c == 0xffffint {
        0int
    } else {
        c
    }
}

/// The frequency and divisor for a period of `micros` microseconds, or
/// `None` when the frequency exceeds the input's or the divisor does not
/// fit 16 bits.
pub open spec fn divisor_for(micros: int) -> Option<int> {
    let frequency = 1_000_000int / micros;
    if frequency > 1193182int {
        None
    } else if 1193182int / frequency > 0xFFFFint {
        None
    } else {
        Some(1193182int / frequency)
    }
}

/// The port writes that program channel 0: the command, then the low and
/// the high byte of the divisor.
pub open spec fn write_sequence_spec(command: u8, divisor: u16) -> Seq<(u16, u8)> {
    seq![(0x43u16, command), (0x40u16, (divisor % 0x100) as u8), (0x40u16, (divisor / 0x100) as u8)]
}

/// The legacy programmable interval timer, through the I/O APIC input it is
/// wired to.
pub struct Pit {
    ioapic_id: u8,
}

impl Pit {
    /// The PIT wired to the I/O APIC `ioapic_id`
    pub fn new(ioapic_id: u8) -> (r: Self)
        ensures
            r.ioapic_id() == ioapic_id,
    {
        Pit { ioapic_id }
    }

    /// The I/O APIC the PIT is wired to
    pub closed spec fn ioapic_id(&self) -> u8 {
        self.ioapic_id
    }

    /// The I/O APIC the PIT is wired to
    pub fn get_ioapic_id(&self) -> (r: u8)
        ensures
            r == self.ioapic_id(),
    {
        self.ioapic_id
    }

    /// The value channel 0 counts down from for `period_micros`
    /// microseconds, in any operating mode: a period of no microseconds is
    /// refused. The period goes through 32 bits.
    pub fn time_to_cycles(period_micros: u128, operating_mode: OperatingMode) -> (r: Result<
        u16,
        TimerError,
    >)
        requires
            period_micros == 0 || period_micros % 0x1_0000_0000 != 0,
        ensures
            period_micros == 0 ==> r == Err::<u16, TimerError>(TimerError::InvalidTimePeriod),
            period_micros != 0 ==> r == Ok::<u16, TimerError>(
                cycles_for((period_micros % 0x1_0000_0000) as int) as u16,
            ),
    {
        match operating_mode {
            OperatingMode::RateGenerator
            | OperatingMode::SquareWaveGenerator
            | OperatingMode::_RateGenerator2
            | OperatingMode::_SquareWaveGenerator2 => {
                if period_micros == 0 {
                    return Err(TimerError::InvalidTimePeriod);
                }
            },
            _ => {},
        }
        if period_micros == 0 {
            return Err(TimerError::InvalidTimePeriod);
        }
        let micros = period_micros as u32;
        assert(micros == period_micros % 0x1_0000_0000) by (bit_vector)
            requires
                micros == period_micros as u32,
        ;
        let q = BASE_FREQUENCY / micros;
        let mut cycles = q as u16;
        assert(cycles == q % 0x1_0000) by (bit_vector)
            requires
                cycles == q as u16,
        ;
        if cycles == 0xffff {
            cycles = 0;
        }
        Ok(cycles)
    }

    /// The divisor of the input frequency for a period of `period_micros`
    /// microseconds: refused when the period's frequency exceeds the input
    /// frequency, or the divisor does not fit 16 bits. The period goes
    /// through 64 bits, and must be of at most a second.
    pub fn time_to_divisor(period_micros: u128) -> (r: Result<u16, ()>)
        requires
            1 <= period_micros % 0x1_0000_0000_0000_0000 <= 1_000_000,
        ensures
            r == match divisor_for((period_micros % 0x1_0000_0000_0000_0000) as int) {
                Some(d) => Ok::<u16, ()>(d as u16),
                None => Err::<u16, ()>(()),
            },
    {
        let micros = period_micros as u64;
        assert(micros == period_micros % 0x1_0000_0000_0000_0000) by (bit_vector)
            requires
                micros == period_micros as u64,
        ;
        let frequency = 1_000_000 / micros;
        proof {
            vstd::arithmetic::div_mod::lemma_fundamental_div_mod(1_000_000int, micros as int);
            if frequency == 0 {
                assert(micros * frequency == 0) by (nonlinear_arith)
                    requires
                        frequency == 0,
                ;
            }
        }
        if frequency > BASE_FREQUENCY as u64 {
            return Err(());
        }
        let divisor = BASE_FREQUENCY as u64 / frequency;
        if divisor > 0xFFFF {
            return Err(());
        }
        Ok(divisor as u16)
    }

    /// The port writes that program channel 0 with `command` and `divisor`:
    /// the command, then the divisor's low and high byte.
    pub fn write_sequence(command: u8, divisor: u16) -> (r: Vec<(u16, u8)>)
        ensures
            r@ == write_sequence_spec(command, divisor),
    {
        let low = (divisor & 0xff) as u8;
        let high = ((divisor >> 8u16) & 0xff) as u8;
        assert(low == divisor % 0x100 && high == divisor / 0x100) by (bit_vector)
            requires
                low == (divisor & 0xff) as u8,
                high == ((divisor >> 8u16) & 0xff) as u8,
        ;
        let mut r: Vec<(u16, u8)> = Vec::new();
        r.push((ChannelPort::Command.port(), command));
        r.push((ChannelPort::Channel0.port(), low));
        r.push((ChannelPort::Channel0.port(), high));
        assert(r@ =~= write_sequence_spec(command, divisor));
        r
    }

    /// Configures channel 0 to count down `period_micros` microseconds in
    /// `operating_mode`, both bytes, in binary: the port writes, or the error
    /// of the conversion.
    pub fn configure(period_micros: u128, operating_mode: OperatingMode) -> (r: Result<
        Vec<(u16, u8)>,
        TimerError,
    >)
        requires
            period_micros == 0 || period_micros % 0x1_0000_0000 != 0,
        ensures
            period_micros == 0 ==> r is Err && r->Err_0 == TimerError::InvalidTimePeriod,
            period_micros != 0 ==> r is Ok && r->Ok_0@ == write_sequence_spec(
                (operating_mode_bits(operating_mode) * 16 + 0b1100) as u8,
                cycles_for((period_micros % 0x1_0000_0000) as int) as u16,
            ),
    {
        let command = command_byte(
            Channel::Channel0.bits(),
            AccessMode::LowAndHighByte.bits(),
            operating_mode.bits(),
            0,
        );
        let divisor = match Pit::time_to_cycles(period_micros, operating_mode) {
            Ok(d) => d,
            Err(e) => {
                return Err(e);
            },
        };
        Ok(Pit::write_sequence(command, divisor))
    }

    /// Sets channel 0 to fire every `period_micros` microseconds, as a rate
    /// generator: the port writes, or `Err` when the period has no divisor.
    /// The caller then unmasks the PIT's line on the I/O APIC.
    pub fn new_periodic(period_micros: u128) -> (r: Result<Vec<(u16, u8)>, ()>)
        requires
            1 <= period_micros % 0x1_0000_0000_0000_0000 <= 1_000_000,
        ensures
            r is Ok <==> divisor_for((period_micros % 0x1_0000_0000_0000_0000) as int) is Some,
            r is Ok ==> r->Ok_0@ == write_sequence_spec(
                0b0010_1100u8,
                divisor_for((period_micros % 0x1_0000_0000_0000_0000) as int)->Some_0 as u16,
            ),
    {
        let command = command_byte(
            Channel::Channel0.bits(),
            AccessMode::LowAndHighByte.bits(),
            OperatingMode::RateGenerator.bits(),
            0,
        );
        let divisor = match Pit::time_to_divisor(period_micros) {
            Ok(d) => d,
            Err(e) => {
                return Err(e);
            },
        };
        Ok(Pit::write_sequence(command, divisor))
    }

    /// The port writes that latch channel 0's count for reading: a read
    /// back command, and a zero divisor.
    pub fn read_count_writes() -> (r: Vec<(u16, u8)>)
        ensures
            r@ == write_sequence_spec(0b11u8, 0),
    {
        let command = command_byte(Channel::ReadBack.bits(), 0b00, 0b000, 0b0);
        Pit::write_sequence(command, 0)
    }

    /// The count of channel 0 from its two bytes, as read from its port: the
    /// low byte first.
    pub fn count_from_bytes(low: u8, high: u8) -> (r: u16)
        ensures
            r == low + high * 0x100,
    {
        let r = (low as u16) | ((high as u16) << 8u16);
        assert(r == low + high * 0x100) by (bit_vector)
            requires
                r == (low as u16) | ((high as u16) << 8u16),
        ;
        r
    }
}

/// The divisor that programs channel 0 for a period of `micros`
/// microseconds (at most a second) is the number of input cycles in the
/// period: the largest `d` with `d` periods of the frequency taking at most
/// the input's 1193182 cycles. It exists exactly when it fits 16 bits, and a
/// divisor that does not fit is refused, never cut short.
pub proof fn law_divisor_fits(micros: int)
    requires
        1 <= micros <= 1_000_000,
    ensures
        ({
            let f = 1_000_000int / micros;
            &&& divisor_for(micros) is Some <==> 1193182 < 0x10000 * f
            &&& divisor_for(micros) matches Some(d) ==> {
                &&& d * f <= 1193182 < (d + 1) * f
                &&& 1 <= d <= 0xFFFF
                &&& (d as u16) as int == d
            }
        }),
{
    let f = 1_000_000int / micros;
    vstd::arithmetic::div_mod::lemma_fundamental_div_mod(1_000_000int, micros);
    assert(1 <= f <= 1_000_000) by (nonlinear_arith)
        requires
            1_000_000int == micros * f + 1_000_000int % micros,
            0 <= 1_000_000int % micros < micros,
            1 <= micros <= 1_000_000,
    ;
    vstd::arithmetic::div_mod::lemma_fundamental_div_mod(1193182int, f);
    let q = 1193182int / f;
    let r = 1193182int % f;
    assert(q * f <= 1193182 < (q + 1) * f) by (nonlinear_arith)
        requires
            1193182 == f * q + r,
            0 <= r < f,
    ;
    vstd::arithmetic::div_mod::lemma_div_pos_is_pos(1193182int, f);
    if q == 0 {
        assert((q + 1) * f == f);
    }
    assert(q <= 0xFFFF <==> 1193182 < 0x10000 * f) by (nonlinear_arith)
        requires
            q * f <= 1193182 < (q + 1) * f,
            f >= 1,
    ;
}

/// The port writes that program channel 0 send the command to the command
/// port, then the divisor to channel 0's port, low byte first: the two bytes
/// put back together give the divisor.
pub proof fn law_write_sequence(command: u8, divisor: u16)
    ensures
        ({
            let w = write_sequence_spec(command, divisor);
            &&& w.len() == 3
            &&& w[0] == (0x43u16, command)
            &&& w[1].0 == 0x40u16 && w[2].0 == 0x40u16
            &&& w[1].1 as int + 0x100 * (w[2].1 as int) == divisor as int
        }),
{
}

} // verus!
