//! The I/O APIC: its registers and the redirection table entries that route
//! interrupts.
//!
//! The register accesses themselves are MMIO, done by the caller; this module
//! decides what is written where.
use vstd::prelude::*;

verus! {

/// An I/O APIC, by the addresses of its select and window registers.
#[derive(Debug, Clone, Copy)]
pub struct IoApic {
    /// Address of the register-select register
    pub io_sel: usize,
    /// Address of the data window register
    pub io_win: usize,
    /// The first global system interrupt this I/O APIC handles
    pub gsi_base: u32,
}

/// The registers of an I/O APIC.
#[derive(Debug, Clone, Copy, PartialEq, Eq, Structural)]
pub enum IoApicReg {
    /// Identification
    ApicId,
    /// Version
    ApicVer,
    /// Arbitration
    ApicArb,
    /// The first register of the redirection table
    RedTbl,
}

impl IoApicReg {
    /// The register's index.
    pub fn value(self) -> (r: u32)
        ensures
            r == match self {
                IoApicReg::ApicId => 0x0u32,
                IoApicReg::ApicVer => 0x1u32,
                IoApicReg::ApicArb => 0x2u32,
                IoApicReg::RedTbl => 0x10u32,
            },
    {
        match self {
            IoApicReg::ApicId => 0x0,
            IoApicReg::ApicVer => 0x1,
            IoApicReg::ApicArb => 0x2,
            IoApicReg::RedTbl => 0x10,
        }
    }
}

impl IoApic {
    /// The distance from the select register to the window register.
    pub const OFFSET_FROM_SEL_TO_WIN: usize = 0x10;

    /// The I/O APIC whose registers start at `io_apic_addr`, handling the
    /// interrupts from `gsi_base` on.
    pub fn new(io_apic_addr: u32, gsi_base: u32) -> (r: Self)
        requires
            io_apic_addr + 0x10 <= usize::MAX,
        ensures
            r.io_sel == io_apic_addr,
            r.io_win == io_apic_addr + 0x10,
            r.gsi_base == gsi_base,
    {
        let io_sel = io_apic_addr as usize;
        let io_win = io_apic_addr as usize + Self::OFFSET_FROM_SEL_TO_WIN;
        IoApic { io_sel, io_win, gsi_base }
    }

    /// The register that holds the low half of redirection entry
    /// `irq_index`; the next register holds its high half.
    pub fn red_tbl_index(irq_index: usize) -> (r: u32)
        requires
            irq_index * 2 + 0x10 <= u32::MAX,
        ensures
            r == irq_index * 2 + 0x10,
    {
        (irq_index * 2) as u32 + 0x10
    }

    /// The two register writes that set redirection entry `irq_index` to
    /// `entry`: each a register index and the value written through the
    /// window. Entries below 0x10 and above 0xfe are refused.
    pub fn red_tbl_writes(&self, irq_index: usize, entry: RedirectionEntry) -> (r: Result<
        [(u32, u32); 2],
        (),
    >)
        ensures
            irq_index < 0x10 || irq_index > 0xfe ==> r is Err,
            0x10 <= irq_index <= 0xfe ==> r == Ok::<[(u32, u32); 2], ()>(
                [
                    ((irq_index * 2 + 0x10) as u32, (entry.0 % 0x1_0000_0000) as u32),
                    ((irq_index * 2 + 0x11) as u32, (entry.0 / 0x1_0000_0000) as u32),
                ],
            ),
    {
        if irq_index < 0x10 || irq_index > 0xfe {
            return Err(());
        }
        let offset = Self::red_tbl_index(irq_index);
        Ok([(offset, entry.get_low()), (offset + 1, entry.get_high())])
    }
}

/// How an interrupt is delivered.
#[derive(Debug, Clone, Copy, PartialEq, Eq, Structural)]
pub enum DeliverMode {
    /// To the vector
    Fixed,
    /// To the lowest-priority processor
    LowestPriority,
    /// As a system management interrupt
    Smi,
    /// As a non-maskable interrupt
    Nmi,
    /// As an INIT
    Init,
    /// As an external interrupt
    ExtInt,
}

impl DeliverMode {
    /// The mode's bits in a redirection entry.
    pub fn bits(self) -> (r: u8)
        ensures
            r == match self {
                DeliverMode::Fixed => 0b000u8,
                DeliverMode::LowestPriority => 0b001u8,
                DeliverMode::Smi => 0b010u8,
                DeliverMode::Nmi => 0b100u8,
                DeliverMode::Init => 0b101u8,
                DeliverMode::ExtInt => 0b111u8,
            },
    {
        match self {
            DeliverMode::Fixed => 0b000,
            DeliverMode::LowestPriority => 0b001,
            DeliverMode::Smi => 0b010,
            DeliverMode::Nmi => 0b100,
            DeliverMode::Init => 0b101,
            DeliverMode::ExtInt => 0b111,
        }
    }
}

/// The destination of an interrupt.
#[derive(Debug, Clone, Copy, PartialEq, Eq, Structural)]
pub enum Destination {
    /// A physical APIC ID
    Physical(u8),
    /// A logical destination
    Logical(u8),
}

impl Destination {
    /// The destination mode bit of physical destinations.
    pub const PHYSICAL_MODE: u8 = 0b0;

    /// The destination mode bit of logical destinations.
    pub const LOGICAL_MODE: u8 = 0b1;

    /// A destination. In logical mode the destination is a 4-bit logical
    /// destination ID, and a larger one is refused.
    pub fn new(dest: u8, is_logical: bool) -> (r: Result<Self, ()>)
        ensures
            is_logical && dest > 0x0f ==> r is Err,
            is_logical && dest <= 0x0f ==> r == Ok::<Destination, ()>(Destination::Logical(dest)),
            !is_logical ==> r == Ok::<Destination, ()>(Destination::Physical(dest)),
    {
        if is_logical {
            if dest > 0x0f {
                return Err(());
            }
            Ok(Destination::Logical(dest))
        } else {
            Ok(Destination::Physical(dest))
        }
    }

    /// The destination mode bit and the destination.
    pub fn get(&self) -> (r: (u8, u8))
        ensures
            r == match *self {
                Destination::Physical(d) => (Self::PHYSICAL_MODE, d),
                Destination::Logical(d) => (Self::LOGICAL_MODE, d),
            },
    {
        match self {
            Destination::Physical(dest) => (Self::PHYSICAL_MODE, *dest),
            Destination::Logical(dest) => (Self::LOGICAL_MODE, *dest),
        }
    }
}

/// The polarity of the interrupt pin.
#[derive(Debug, Clone, Copy, PartialEq, Eq, Structural)]
pub enum PinPolarity {
    /// Active when high
    ActiveHigh,
    /// Active when low
    ActiveLow,
}

/// The remote IRR flag of a level-triggered interrupt.
#[derive(Debug, Clone, Copy, PartialEq, Eq, Structural)]
pub enum RemoteIrr {
    /// Not set
    NotSet,
    /// Set
    IsSet,
}

/// How the interrupt is triggered.
#[derive(Debug, Clone, Copy, PartialEq, Eq, Structural)]
pub enum TriggerMode {
    /// On an edge
    Edge,
    /// On a level
    Level,
}

/// Whether the interrupt is masked.
#[derive(Debug, Clone, Copy, PartialEq, Eq, Structural)]
pub enum Mask {
    /// Delivered
    Unmasked,
    /// Not delivered
    Masked,
}

/// An entry of the redirection table, as its raw 64 bits.
#[derive(Debug, Clone, Copy, PartialEq, Eq, Structural)]
pub struct RedirectionEntry(pub u64);

impl RedirectionEntry {
    /// The entry that routes `vector` with the given settings. Each setting
    /// is shifted right by the position of its field before it is combined
    /// with the vector, and every setting is less than 256, so only the
    /// vector remains.
    pub fn new(
        vector: u8,
        delivery_mode: DeliverMode,
        dest: Destination,
        pin_polarity: PinPolarity,
        remote_irr: RemoteIrr,
        trigger_mode: TriggerMode,
        mask: Mask,
    ) -> (r: Self)
        requires
            0x10 <= vector <= 0xfe,
        ensures
            r.0 == vector as u64,
    {
        let dest = dest.get();
        let dm = delivery_mode.bits() as u64;
        let pp: u64 = match pin_polarity {
            PinPolarity::ActiveHigh => 0,
            PinPolarity::ActiveLow => 1,
        };
        let irr: u64 = match remote_irr {
            RemoteIrr::NotSet => 0,
            RemoteIrr::IsSet => 1,
        };
        let tm: u64 = match trigger_mode {
            TriggerMode::Edge => 0,
            TriggerMode::Level => 1,
        };
        let mk: u64 = match mask {
            Mask::Unmasked => 0,
            Mask::Masked => 1,
        };
        let mode = dest.0 as u64;
        let target = dest.1 as u64;
        let v = vector as u64;
        // we skip delivery status...
        let data: u64 = v | (dm >> 8u64) | (mode >> 11u64) | (pp >> 13u64) | (irr >> 14u64) | (tm
            >> 15u64) | (mk >> 16u64) | (target >> 56u64);
        assert(data == v) by (bit_vector)
            requires
                v < 256,
                dm < 256,
                mode < 256,
                pp < 256,
                irr < 256,
                tm < 256,
                mk < 256,
                target < 256,
                data == v | (dm >> 8u64) | (mode >> 11u64) | (pp >> 13u64) | (irr >> 14u64) | (tm
                    >> 15u64) | (mk >> 16u64) | (target >> 56u64),
        ;
        RedirectionEntry(data)
    }

    /// The low 32 bits of the entry.
    pub fn get_low(&self) -> (r: u32)
        ensures
            r == self.0 % 0x1_0000_0000,
    {
        let x = self.0;
        let r = (x & 0xffff_ffff) as u32;
        assert(r == x % 0x1_0000_0000) by (bit_vector)
            requires
                r == (x & 0xffff_ffff) as u32,
        ;
        r
    }

    /// The high 32 bits of the entry.
    pub fn get_high(&self) -> (r: u32)
        ensures
            r == self.0 / 0x1_0000_0000,
    {
        let x = self.0;
        let r = ((x >> 32u64) & 0xffff_ffff) as u32;
        assert(r == x / 0x1_0000_0000) by (bit_vector)
            requires
                r == ((x >> 32u64) & 0xffff_ffff) as u32,
        ;
        r
    }
}

} // verus!
