//! The local APIC: its registers and where they lie. The register accesses
//! themselves are MMIO, done by the caller.
use vstd::prelude::*;

verus! {

/// The flags of a local APIC.
#[derive(Debug, Clone, Copy, PartialEq, Eq, Structural)]
pub enum ApicFlags {
    /// The processor is enabled
    Enabled,
    /// The processor can be brought online
    OnlineCapable,
}

/// The registers of a local APIC that can be written.
#[derive(Debug, Clone, Copy, PartialEq, Eq, Structural)]
pub enum WriteableRegs {
    /// ID
    Id,
    /// Task priority
    TaskPriority,
    /// End of interrupt
    EndOfInterrupt,
    /// Logical destination
    LogicalDestination,
    /// Destination format
    DestinationFormat,
    /// Spurious interrupt vector
    SpuriousInterruptVector,
    /// LVT corrected machine check interrupt
    LvtCmci,
    /// Interrupt command, low half
    InterruptCommand0,
    /// Interrupt command, high half
    InterruptCommand1,
    /// LVT timer
    LvtTimer,
    /// LVT thermal sensor
    LvtThermal,
    /// LVT performance monitoring counters
    LvtPerformance,
    /// LVT LINT0
    LvtLint0,
    /// LVT LINT1
    LvtLint1,
    /// LVT error
    LvtError,
    /// Timer initial count
    TimerInitialCount,
    /// Timer divide configuration
    TimerDivideConfig,
}

/// The offset of a register that can be written.
pub open spec fn writeable_offset(reg: WriteableRegs) -> usize {
    match reg {
        WriteableRegs::Id => 0x20,
        WriteableRegs::TaskPriority => 0x80,
        WriteableRegs::EndOfInterrupt => 0xb0,
        WriteableRegs::LogicalDestination => 0xd0,
        WriteableRegs::DestinationFormat => 0xe0,
        WriteableRegs::SpuriousInterruptVector => 0xf0,
        WriteableRegs::LvtCmci => 0x2f0,
        WriteableRegs::InterruptCommand0 => 0x300,
        WriteableRegs::InterruptCommand1 => 0x310,
        WriteableRegs::LvtTimer => 0x320,
        WriteableRegs::LvtThermal => 0x330,
        WriteableRegs::LvtPerformance => 0x340,
        WriteableRegs::LvtLint0 => 0x350,
        WriteableRegs::LvtLint1 => 0x360,
        WriteableRegs::LvtError => 0x370,
        WriteableRegs::TimerInitialCount => 0x380,
        WriteableRegs::TimerDivideConfig => 0x3e0,
    }
}

impl WriteableRegs {
    /// The register's offset.
    pub fn value(self) -> (r: usize)
        ensures
            r == writeable_offset(self),
            r <= 0x3e0,
    {
        match self {
            WriteableRegs::Id => 0x20,
            WriteableRegs::TaskPriority => 0x80,
            WriteableRegs::EndOfInterrupt => 0xb0,
            WriteableRegs::LogicalDestination => 0xd0,
            WriteableRegs::DestinationFormat => 0xe0,
            WriteableRegs::SpuriousInterruptVector => 0xf0,
            WriteableRegs::LvtCmci => 0x2f0,
            WriteableRegs::InterruptCommand0 => 0x300,
            WriteableRegs::InterruptCommand1 => 0x310,
            WriteableRegs::LvtTimer => 0x320,
            WriteableRegs::LvtThermal => 0x330,
            WriteableRegs::LvtPerformance => 0x340,
            WriteableRegs::LvtLint0 => 0x350,
            WriteableRegs::LvtLint1 => 0x360,
            WriteableRegs::LvtError => 0x370,
            WriteableRegs::TimerInitialCount => 0x380,
            WriteableRegs::TimerDivideConfig => 0x3e0,
        }
    }
}

/// The registers of a local APIC that can be read.
#[derive(Debug, Clone, Copy, PartialEq, Eq, Structural)]
pub enum ReadableRegs {
    /// ID
    Id,
    /// Version
    Version,
    /// Task priority
    TaskPriority,
    /// Arbitration priority
    ArbitrationPriority,
    /// Processor priority
    ProcessorPriority,
    /// Remote read
    RemoteRead,
    /// Logical destination
    LogicalDestination,
    /// Destination format
    DestinationFormat,
    /// Spurious interrupt vector
    SpuriousInterruptVector,
    /// In-service bits, word 0
    InService0,
    /// In-service bits, word 1
    InService1,
    /// In-service bits, word 2
    InService2,
    /// In-service bits, word 3
    InService3,
    /// In-service bits, word 4
    InService4,
    /// In-service bits, word 5
    InService5,
    /// In-service bits, word 6
    InService6,
    /// In-service bits, word 7
    InService7,
    /// Trigger mode bits, word 0
    TriggerMode0,
    /// Trigger mode bits, word 1
    TriggerMode1,
    /// Trigger mode bits, word 2
    TriggerMode2,
    /// Trigger mode bits, word 3
    TriggerMode3,
    /// Trigger mode bits, word 4
    TriggerMode4,
    /// Trigger mode bits, word 5
    TriggerMode5,
    /// Trigger mode bits, word 6
    TriggerMode6,
    /// Trigger mode bits, word 7
    TriggerMode7,
    /// Interrupt request bits, word 0
    InterruptRequest0,
    /// Interrupt request bits, word 1
    InterruptRequest1,
    /// Interrupt request bits, word 2
    InterruptRequest2,
    /// Interrupt request bits, word 3
    InterruptRequest3,
    /// Interrupt request bits, word 4
    InterruptRequest4,
    /// Interrupt request bits, word 5
    InterruptRequest5,
    /// Interrupt request bits, word 6
    InterruptRequest6,
    /// Interrupt request bits, word 7
    InterruptRequest7,
    /// Error status
    ErrorStatus,
    /// LVT corrected machine check interrupt
    LvtCmci,
    /// Interrupt command, low half
    InterruptCommand0,
    /// Interrupt command, high half
    InterruptCommand1,
    /// LVT timer
    LvtTimer,
    /// LVT thermal sensor
    LvtThermal,
    /// LVT performance monitoring counters
    LvtPerformance,
    /// LVT LINT0
    LvtLint0,
    /// LVT LINT1
    LvtLint1,
    /// LVT error
    LvtError,
    /// Timer initial count
    TimerInitialCount,
    /// Timer current count
    TimerCurrentCount,
    /// Timer divide configuration
    TimerDivideConfig,
}

/// The offset of a register that can be read.
pub open spec fn readable_offset(reg: ReadableRegs) -> usize {
    match reg {
        ReadableRegs::Id => 0x20,
        ReadableRegs::Version => 0x30,
        ReadableRegs::TaskPriority => 0x80,
        ReadableRegs::ArbitrationPriority => 0x90,
        ReadableRegs::ProcessorPriority => 0xa0,
        ReadableRegs::RemoteRead => 0xc0,
        ReadableRegs::LogicalDestination => 0xd0,
        ReadableRegs::DestinationFormat => 0xe0,
        ReadableRegs::SpuriousInterruptVector => 0xf0,
        ReadableRegs::InService0 => 0x100,
        ReadableRegs::InService1 => 0x110,
        ReadableRegs::InService2 => 0x120,
        ReadableRegs::InService3 => 0x130,
        ReadableRegs::InService4 => 0x140,
        ReadableRegs::InService5 => 0x150,
        ReadableRegs::InService6 => 0x160,
        ReadableRegs::InService7 => 0x170,
        ReadableRegs::TriggerMode0 => 0x180,
        ReadableRegs::TriggerMode1 => 0x190,
        ReadableRegs::TriggerMode2 => 0x1a0,
        ReadableRegs::TriggerMode3 => 0x1b0,
        ReadableRegs::TriggerMode4 => 0x1c0,
        ReadableRegs::TriggerMode5 => 0x1d0,
        ReadableRegs::TriggerMode6 => 0x1e0,
        ReadableRegs::TriggerMode7 => 0x1f0,
        ReadableRegs::InterruptRequest0 => 0x200,
        ReadableRegs::InterruptRequest1 => 0x210,
        ReadableRegs::InterruptRequest2 => 0x220,
        ReadableRegs::InterruptRequest3 => 0x230,
        ReadableRegs::InterruptRequest4 => 0x240,
        ReadableRegs::InterruptRequest5 => 0x250,
        ReadableRegs::InterruptRequest6 => 0x260,
        ReadableRegs::InterruptRequest7 => 0x270,
        ReadableRegs::ErrorStatus => 0x280,
        ReadableRegs::LvtCmci => 0x2f0,
        ReadableRegs::InterruptCommand0 => 0x300,
        ReadableRegs::InterruptCommand1 => 0x310,
        ReadableRegs::LvtTimer => 0x320,
        ReadableRegs::LvtThermal => 0x330,
        ReadableRegs::LvtPerformance => 0x340,
        ReadableRegs::LvtLint0 => 0x350,
        ReadableRegs::LvtLint1 => 0x360,
        ReadableRegs::LvtError => 0x370,
        ReadableRegs::TimerInitialCount => 0x380,
        ReadableRegs::TimerCurrentCount => 0x390,
        ReadableRegs::TimerDivideConfig => 0x3e0,
    }
}

impl ReadableRegs {
    /// The register's offset.
    pub fn value(self) -> (r: usize)
        ensures
            r == readable_offset(self),
            r <= 0x3e0,
    {
        match self {
            ReadableRegs::Id => 0x20,
            ReadableRegs::Version => 0x30,
            ReadableRegs::TaskPriority => 0x80,
            ReadableRegs::ArbitrationPriority => 0x90,
            ReadableRegs::ProcessorPriority => 0xa0,
            ReadableRegs::RemoteRead => 0xc0,
            ReadableRegs::LogicalDestination => 0xd0,
            ReadableRegs::DestinationFormat => 0xe0,
            ReadableRegs::SpuriousInterruptVector => 0xf0,
            ReadableRegs::InService0 => 0x100,
            ReadableRegs::InService1 => 0x110,
            ReadableRegs::InService2 => 0x120,
            ReadableRegs::InService3 => 0x130,
            ReadableRegs::InService4 => 0x140,
            ReadableRegs::InService5 => 0x150,
            ReadableRegs::InService6 => 0x160,
            ReadableRegs::InService7 => 0x170,
            ReadableRegs::TriggerMode0 => 0x180,
            ReadableRegs::TriggerMode1 => 0x190,
            ReadableRegs::TriggerMode2 => 0x1a0,
            ReadableRegs::TriggerMode3 => 0x1b0,
            ReadableRegs::TriggerMode4 => 0x1c0,
            ReadableRegs::TriggerMode5 => 0x1d0,
            ReadableRegs::TriggerMode6 => 0x1e0,
            ReadableRegs::TriggerMode7 => 0x1f0,
            ReadableRegs::InterruptRequest0 => 0x200,
            ReadableRegs::InterruptRequest1 => 0x210,
            ReadableRegs::InterruptRequest2 => 0x220,
            ReadableRegs::InterruptRequest3 => 0x230,
            ReadableRegs::InterruptRequest4 => 0x240,
            ReadableRegs::InterruptRequest5 => 0x250,
            ReadableRegs::InterruptRequest6 => 0x260,
            ReadableRegs::InterruptRequest7 => 0x270,
            ReadableRegs::ErrorStatus => 0x280,
            ReadableRegs::LvtCmci => 0x2f0,
            ReadableRegs::InterruptCommand0 => 0x300,
            ReadableRegs::InterruptCommand1 => 0x310,
            ReadableRegs::LvtTimer => 0x320,
            ReadableRegs::LvtThermal => 0x330,
            ReadableRegs::LvtPerformance => 0x340,
            ReadableRegs::LvtLint0 => 0x350,
            ReadableRegs::LvtLint1 => 0x360,
            ReadableRegs::LvtError => 0x370,
            ReadableRegs::TimerInitialCount => 0x380,
            ReadableRegs::TimerCurrentCount => 0x390,
            ReadableRegs::TimerDivideConfig => 0x3e0,
        }
    }
}

/// A local APIC.
#[derive(Debug, Clone, Copy, PartialEq, Eq, Structural)]
pub struct LocalApic {
    /// Address of the APIC's registers
    pub base: usize,
    /// The APIC's ID. This is a 32-bit value, since on x2APIC systems the ID
    /// is 32 bit instead of 8 bit
    pub apic_id: u32,
    /// The APIC's flags
    pub flags: ApicFlags,
}

impl LocalApic {
    /// The local APIC whose registers start at `base`.
    pub fn new(base: usize, apic_id: u32, flags: ApicFlags) -> (r: Self)
        ensures
            r == (LocalApic { base, apic_id, flags }),
    {
        LocalApic { base, apic_id, flags }
    }

    /// The address of the register at offset `reg`: the register array is
    /// indexed in 32-bit words, so the offset counts words.
    pub fn register_address(&self, reg: usize) -> (r: usize)
        requires
            self.base + reg * 4 <= usize::MAX,
        ensures
            r == self.base + reg * 4,
    {
        self.base + reg * 4
    }
}

/// The register that a writable register is read through, where it can be
/// read: the one of the same name (the end-of-interrupt register is write
/// only).
pub open spec fn read_back(reg: WriteableRegs) -> Option<ReadableRegs> {
    match reg {
        WriteableRegs::Id => Some(ReadableRegs::Id),
        WriteableRegs::TaskPriority => Some(ReadableRegs::TaskPriority),
        WriteableRegs::EndOfInterrupt => None,
        WriteableRegs::LogicalDestination => Some(ReadableRegs::LogicalDestination),
        WriteableRegs::DestinationFormat => Some(ReadableRegs::DestinationFormat),
        WriteableRegs::SpuriousInterruptVector => Some(ReadableRegs::SpuriousInterruptVector),
        WriteableRegs::LvtCmci => Some(ReadableRegs::LvtCmci),
        WriteableRegs::InterruptCommand0 => Some(ReadableRegs::InterruptCommand0),
        WriteableRegs::InterruptCommand1 => Some(ReadableRegs::InterruptCommand1),
        WriteableRegs::LvtTimer => Some(ReadableRegs::LvtTimer),
        WriteableRegs::LvtThermal => Some(ReadableRegs::LvtThermal),
        WriteableRegs::LvtPerformance => Some(ReadableRegs::LvtPerformance),
        WriteableRegs::LvtLint0 => Some(ReadableRegs::LvtLint0),
        WriteableRegs::LvtLint1 => Some(ReadableRegs::LvtLint1),
        WriteableRegs::LvtError => Some(ReadableRegs::LvtError),
        WriteableRegs::TimerInitialCount => Some(ReadableRegs::TimerInitialCount),
        WriteableRegs::TimerDivideConfig => Some(ReadableRegs::TimerDivideConfig),
    }
}

/// The writable registers' offsets: no two registers share one, each is a
/// multiple of 16 within the first 1 KiB of the register page, a register
/// that can also be read is read at the offset it is written at, and the
/// local vector table lies in its architectural order from the timer's entry
/// at 0x320: timer, thermal sensor, performance counters, LINT0, LINT1 and
/// error, 16 bytes apart.
pub proof fn law_writeable_offsets()
    ensures
        forall|a: WriteableRegs, b: WriteableRegs|
            #[trigger] writeable_offset(a) == #[trigger] writeable_offset(b) ==> a == b,
        forall|a: WriteableRegs|
            #[trigger] writeable_offset(a) % 16 == 0 && 0x20 <= writeable_offset(a) < 0x400,
        forall|a: WriteableRegs|
            #[trigger] read_back(a) matches Some(r) ==> readable_offset(r) == writeable_offset(a),
        writeable_offset(WriteableRegs::LvtTimer) == 0x320,
        writeable_offset(WriteableRegs::LvtThermal) == writeable_offset(WriteableRegs::LvtTimer) + 0x10,
        writeable_offset(WriteableRegs::LvtPerformance) == writeable_offset(WriteableRegs::LvtThermal)
            + 0x10,
        writeable_offset(WriteableRegs::LvtLint0) == writeable_offset(WriteableRegs::LvtPerformance) + 0x10,
        writeable_offset(WriteableRegs::LvtLint1) == writeable_offset(WriteableRegs::LvtLint0) + 0x10,
        writeable_offset(WriteableRegs::LvtError) == writeable_offset(WriteableRegs::LvtLint1) + 0x10,
{
}

/// The readable registers' offsets: no two registers share one, each is a
/// multiple of 16 within the first 1 KiB of the register page, the eight
/// words of the in-service, trigger-mode and interrupt-request bitmaps lie
/// 16 bytes apart from 0x100, 0x180 and 0x200, the local vector table lies in
/// its architectural order from the timer's entry at 0x320, and the timer's
/// current count follows its initial count.
pub proof fn law_readable_offsets()
    ensures
        forall|a: ReadableRegs, b: ReadableRegs|
            #[trigger] readable_offset(a) == #[trigger] readable_offset(b) ==> a == b,
        forall|a: ReadableRegs|
            #[trigger] readable_offset(a) % 16 == 0 && 0x20 <= readable_offset(a) < 0x400,
        ({
            let isr = seq![
                ReadableRegs::InService0,
                ReadableRegs::InService1,
                ReadableRegs::InService2,
                ReadableRegs::InService3,
                ReadableRegs::InService4,
                ReadableRegs::InService5,
                ReadableRegs::InService6,
                ReadableRegs::InService7,
            ];
            let tmr = seq![
                ReadableRegs::TriggerMode0,
                ReadableRegs::TriggerMode1,
                ReadableRegs::TriggerMode2,
                ReadableRegs::TriggerMode3,
                ReadableRegs::TriggerMode4,
                ReadableRegs::TriggerMode5,
                ReadableRegs::TriggerMode6,
                ReadableRegs::TriggerMode7,
            ];
            let irr = seq![
                ReadableRegs::InterruptRequest0,
                ReadableRegs::InterruptRequest1,
                ReadableRegs::InterruptRequest2,
                ReadableRegs::InterruptRequest3,
                ReadableRegs::InterruptRequest4,
                ReadableRegs::InterruptRequest5,
                ReadableRegs::InterruptRequest6,
                ReadableRegs::InterruptRequest7,
            ];
            let lvt = seq![
                ReadableRegs::LvtTimer,
                ReadableRegs::LvtThermal,
                ReadableRegs::LvtPerformance,
                ReadableRegs::LvtLint0,
                ReadableRegs::LvtLint1,
                ReadableRegs::LvtError,
            ];
            &&& forall|k: int| 0 <= k < 8 ==> readable_offset(#[trigger] isr[k]) == 0x100 + 0x10 * k
            &&& forall|k: int| 0 <= k < 8 ==> readable_offset(#[trigger] tmr[k]) == 0x180 + 0x10 * k
            &&& forall|k: int| 0 <= k < 8 ==> readable_offset(#[trigger] irr[k]) == 0x200 + 0x10 * k
            &&& forall|k: int| 0 <= k < 6 ==> readable_offset(#[trigger] lvt[k]) == 0x320 + 0x10 * k
        }),
        readable_offset(ReadableRegs::TimerCurrentCount) == readable_offset(ReadableRegs::TimerInitialCount)
            + 0x10,
{
}

} // verus!
