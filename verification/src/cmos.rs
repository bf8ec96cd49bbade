//! Handling of CMOS data: which byte selects a CMOS register.
use vstd::prelude::*;

verus! {

/// The port a CMOS register is selected through.
pub const CMOS_READ_PORT: u16 = 0x70;

/// The port a selected CMOS register is read and written through.
pub const CMOS_WRITE_PORT: u16 = 0x71;

/// List of available CMOS indices
#[derive(Debug, Clone, Copy, PartialEq, Eq, Structural)]
pub enum CmosIndex {
    /// RTC current second
    Seconds,
    /// RTC current minute
    Minutes,
    /// RTC current hour
    Hours,
    /// RTC current day of week
    DayOfWeek,
    /// RTC current day of month
    DayOfMonth,
    /// RTC current month
    Month,
    /// RTC current year
    Year,
    /// RTC current century
    Century,
    /// RTC status register A
    StatusA,
    /// RTC status register B
    StatusB,
    /// RTC status register C
    StatusC,
    /// Getting info about the floppy disks connected to the system; Not used by us though
    _FloppyDiskDrive,
}

/// The index of CMOS register `index`.
pub open spec fn index_of(index: CmosIndex) -> u8 {
    match index {
        CmosIndex::Seconds => 0x00u8,
        CmosIndex::Minutes => 0x02u8,
        CmosIndex::Hours => 0x04u8,
        CmosIndex::DayOfWeek => 0x06u8,
        CmosIndex::DayOfMonth => 0x07u8,
        CmosIndex::Month => 0x08u8,
        CmosIndex::Year => 0x09u8,
        CmosIndex::Century => 0x32u8,
        CmosIndex::StatusA => 0x0Au8,
        CmosIndex::StatusB => 0x0Bu8,
        CmosIndex::StatusC => 0x0Cu8,
        CmosIndex::_FloppyDiskDrive => 0x10u8,
    }
}

/// The bit of NMI status `status` in a select byte.
pub open spec fn nmi_bit(status: NmiStatus) -> u8 {
    match status {
        NmiStatus::Enabled => 0x80u8,
        NmiStatus::Disabled => 0x00u8,
    }
}

impl CmosIndex {
    /// The register's index.
    pub fn value(self) -> (r: u8)
        ensures
            r == index_of(self),
    {
        match self {
            CmosIndex::Seconds => 0x00,
            CmosIndex::Minutes => 0x02,
            CmosIndex::Hours => 0x04,
            CmosIndex::DayOfWeek => 0x06,
            CmosIndex::DayOfMonth => 0x07,
            CmosIndex::Month => 0x08,
            CmosIndex::Year => 0x09,
            CmosIndex::Century => 0x32,
            CmosIndex::StatusA => 0x0A,
            CmosIndex::StatusB => 0x0B,
            CmosIndex::StatusC => 0x0C,
            CmosIndex::_FloppyDiskDrive => 0x10,
        }
    }
}

/// Whether non-maskable interrupts stay enabled while a register is
/// selected.
#[derive(Debug, Clone, Copy, PartialEq, Eq, Structural)]
pub enum NmiStatus {
    /// NMI is enabled
    Enabled,
    /// NMI is disabled
    Disabled,
}

impl NmiStatus {
    /// The status's bit in the select byte.
    pub fn value(self) -> (r: u8)
        ensures
            r == nmi_bit(self),
    {
        match self {
            NmiStatus::Enabled => 0x80,
            NmiStatus::Disabled => 0x00,
        }
    }
}

/// The byte written to the select port to read or write the register at
/// `index`: the index with the NMI bit.
pub fn select_byte(index: CmosIndex, nmi_status: NmiStatus) -> (r: u8)
    ensures
        r == index_of(index) | nmi_bit(nmi_status),
        r == index_of(index) + nmi_bit(nmi_status),
{
    let i = index.value();
    let n = nmi_status.value();
    let r = i | n;
    assert(r == i + n) by (bit_vector)
        requires
            i < 0x80,
            n == 0x80 || n == 0,
            r == i | n,
    ;
    r
}

} // verus!
