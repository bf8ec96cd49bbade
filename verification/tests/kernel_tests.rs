use funderberker::addr::{PhysAddr, VirtAddr};
use funderberker::cmos::{select_byte, CmosIndex, NmiStatus};
use funderberker::framebuffer::{glyph_pixels, FramebufferWriter};
use funderberker::ioapic::{
    DeliverMode, Destination, IoApic, IoApicReg, Mask, PinPolarity, RedirectionEntry, RemoteIrr,
    TriggerMode,
};
use funderberker::lapic::{ApicFlags, LocalApic, ReadableRegs, WriteableRegs};
use funderberker::mmio::{MmioArea, MmioCell};
use funderberker::scheduler::{Constant, Schedulable, Scheduler};
use funderberker::serial::{SerialError, SerialPort, SerialWriter};
use funderberker::timer::{ApicTimer, TimerError, TimerMode};

#[test]
fn hhdm_offset_round_trip() {
    let hhdm = 0xffff_8000_0000_0000;
    let virt = PhysAddr(0x1234_5000).add_hhdm_offset(hhdm);
    assert_eq!(virt, VirtAddr(0xffff_8000_1234_5000));
    assert_eq!(virt.subtract_hhdm_offset(hhdm), PhysAddr(0x1234_5000));
}

#[test]
fn next_level_index_of_higher_half_address() {
    let addr = VirtAddr(0xffff_8000_0000_1000);
    assert_eq!(addr.next_level_index(0), 1);
    assert_eq!(addr.next_level_index(1), 0);
    assert_eq!(addr.next_level_index(3), 256);
    assert_eq!(addr.next_level_index(4), 0x1ff);
}

#[test]
fn destination_logical_ids_are_four_bits() {
    assert_eq!(Destination::new(0x10, true), Err(()));
    assert_eq!(Destination::new(0x0f, true), Ok(Destination::Logical(0x0f)));
    assert_eq!(Destination::new(0xff, false), Ok(Destination::Physical(0xff)));
    assert_eq!(Destination::Logical(0x3).get(), (1, 0x3));
    assert_eq!(Destination::Physical(0x7).get(), (0, 0x7));
}

#[test]
fn redirection_entry_keeps_the_vector() {
    let entry = RedirectionEntry::new(
        0x20,
        DeliverMode::Nmi,
        Destination::Physical(3),
        PinPolarity::ActiveLow,
        RemoteIrr::IsSet,
        TriggerMode::Level,
        Mask::Masked,
    );
    assert_eq!(entry.0, 0x20);
    let entry = RedirectionEntry(0x1234_5678_9abc_def0);
    assert_eq!(entry.get_low(), 0x9abc_def0);
    assert_eq!(entry.get_high(), 0x1234_5678);
}

#[test]
fn redirection_table_writes() {
    let apic = IoApic::new(0xfec0_0000, 0);
    assert_eq!(apic.io_sel, 0xfec0_0000);
    assert_eq!(apic.io_win, 0xfec0_0010);
    assert_eq!(IoApic::red_tbl_index(0x10), 0x30);
    assert_eq!(IoApicReg::RedTbl.value(), 0x10);
    let entry = RedirectionEntry(0x1234_5678_9abc_def0);
    assert_eq!(
        apic.red_tbl_writes(0x10, entry),
        Ok([(0x30, 0x9abc_def0), (0x31, 0x1234_5678)])
    );
    assert_eq!(apic.red_tbl_writes(0x0f, entry), Err(()));
    assert_eq!(apic.red_tbl_writes(0xff, entry), Err(()));
}

#[test]
fn cmos_select_byte_sets_the_nmi_bit() {
    assert_eq!(select_byte(CmosIndex::StatusA, NmiStatus::Enabled), 0x8a);
    assert_eq!(select_byte(CmosIndex::Century, NmiStatus::Disabled), 0x32);
}

#[test]
fn apic_timer_ticks_and_modes() {
    let timer = ApicTimer::new(0, 100, false);
    // 100 MHz for 10 ms
    assert_eq!(timer.time_to_ticks(10_000), 1_000_000);
    // Only the low 32 bits of the duration count
    assert_eq!(timer.time_to_ticks(0x1_0000_0000 + 1000), 100_000);
    assert_eq!(timer.configure(1000, TimerMode::Periodic), Ok(100_000));
    assert_eq!(timer.configure(1000, TimerMode::Tsc), Err(TimerError::UnsupportedTimerMode));
    assert_eq!(timer.configure(1000, TimerMode::_Reserved), Err(TimerError::UnsupportedTimerMode));
    let tsc_timer = ApicTimer::new(0, 100, true);
    assert_eq!(tsc_timer.configure(1000, TimerMode::Tsc), Ok(100_000));
}

#[test]
fn apic_timer_calibration() {
    assert_eq!(ApicTimer::frequency_from_cpuid(0, 5), None);
    assert_eq!(ApicTimer::frequency_from_cpuid(24, 0), None);
    // A 25 MHz crystal
    assert_eq!(ApicTimer::frequency_from_cpuid(25_000_000, 2), Some(25));
    assert_eq!(ApicTimer::frequency_from_count(u32::MAX - 2_500_000_000), 2500);
    assert!(ApicTimer::tsc_deadline_from_cpuid(1 << 24));
    assert!(!ApicTimer::tsc_deadline_from_cpuid(1 << 23));
}

#[test]
fn framebuffer_cursor_wraps_and_stops() {
    let mut writer = FramebufferWriter::uninit();
    writer.init_from_limine(16, 32, 64, 32);
    assert_eq!(writer.pixel_offset(2, 3), 2 * 4 + 3 * 64);
    assert_eq!(writer.draw_char(b'a'), Ok(Some((0, 0))));
    assert_eq!(writer.curr_x, 8);
    assert_eq!(writer.draw_char(b'b'), Ok(Some((8, 0))));
    // The line is full: the cursor moves to the next line
    assert_eq!((writer.curr_x, writer.curr_y), (0, 16));
    assert_eq!(writer.draw_char(b'\n'), Ok(Some((0, 16))));
    // The cursor left the screen
    assert!(writer.disabled);
    assert_eq!(writer.draw_char(b'c'), Ok(None));
}

#[test]
fn serial_writes_to_every_working_port() {
    let mut writer = SerialWriter::new();
    let writes = writer.write_byte_all(b'a');
    assert_eq!(writes.len(), 8);
    assert_eq!(writes[0], (0x3f8, b'a'));
    assert_eq!(writes[7], (0x4e8, b'a'));
    writer.disable_port(0);
    let writes = writer.write_byte_all(b'\n');
    assert_eq!(writes.len(), 14);
    assert_eq!(writes[0], (0x2f8, b'\r'));
    assert_eq!(writes[1], (0x2f8, b'\n'));
}

#[test]
fn serial_port_setup() {
    let writes = SerialPort::Comm1.init_writes();
    assert_eq!(writes.len(), 9);
    assert_eq!(writes[0], (0x3f9, 0x00));
    assert_eq!(writes[8], (0x3f8, 0xae));
    assert_eq!(SerialPort::Comm1.finish_init(0xae), Ok((0x3fc, 0xf)));
    assert_eq!(SerialPort::Comm1.finish_init(0x00), Err(SerialError::FaultySerialPort));
}

struct Vessel(usize);

impl Schedulable for Vessel {
    fn id(&self) -> usize {
        self.0
    }
}

#[test]
fn constant_scheduler_holds_one_vessel() {
    let mut scheduler: Constant<Vessel> = Constant::new_const();
    scheduler.add(Box::new(Vessel(7)));
    assert_eq!(scheduler.remove().id(), 7);
    let mut scheduler: Constant<Vessel> = Constant::new(Some(Box::new(Vessel(9))));
    assert_eq!(scheduler.remove().id(), 9);
}

#[test]
fn register_addresses() {
    let mut area: MmioArea<usize, usize, u32> = MmioArea::new(0x1000);
    assert_eq!(area.register_address(0x20), 0x1020);
    area.change_base(0x2000);
    assert_eq!(area.base(), 0x2000);
    let cell: MmioCell<u32> = MmioCell::new(0x3000);
    assert_eq!(cell.base(), 0x3000);
    let apic = LocalApic::new(0xfee0_0000, 0, ApicFlags::Enabled);
    assert_eq!(apic.register_address(WriteableRegs::EndOfInterrupt.value()), 0xfee0_02c0);
}

#[test]
fn glyph_pixels_row_by_row() {
    let mut glyph = [0u8; 16];
    glyph[0] = 0b0000_0101;
    glyph[15] = 0x80;
    assert_eq!(glyph_pixels(&glyph, 100, 32), vec![(100, 32), (102, 32), (107, 47)]);
    assert_eq!(glyph_pixels(&[0u8; 16], 0, 0), vec![]);
    assert_eq!(glyph_pixels(&[0xff; 16], 0, 0).len(), 128);
}

#[test]
fn local_apic_register_offsets() {
    assert_eq!(ReadableRegs::Version.value(), 0x30);
    assert_eq!(ReadableRegs::InService3.value(), 0x130);
    assert_eq!(ReadableRegs::TimerCurrentCount.value(), 0x390);
    assert_eq!(WriteableRegs::TimerInitialCount.value(), 0x380);
    let apic = LocalApic::new(0xfee0_0000, 0, ApicFlags::Enabled);
    assert_eq!(apic.register_address(ReadableRegs::TimerCurrentCount.value()), 0xfee0_0000 + 0x390 * 4);
}

#[test]
fn msr_value_joins_the_halves() {
    assert_eq!(funderberker::msr::msr_value(0x501, 0x1), 0x1_0000_0501);
    assert_eq!(funderberker::msr::msr_value(0xdead_beef, 0), 0xdead_beef);
    assert_eq!(funderberker::msr::msr_value(0, 0xffff_ffff), 0xffff_ffff_0000_0000);
}
