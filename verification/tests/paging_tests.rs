use funderberker::paging::{Flags, PageSize, X86_64Paging};

#[test]
fn flags_set_get_and_join() {
    let flags = Flags::<X86_64Paging>::from_raw(0b011);
    assert_eq!(flags.data(), 0b011);
    assert!(flags.get(0b001));
    assert!(!flags.get(0b100));
    assert_eq!(flags.set(0b100, true).data(), 0b111);
    assert_eq!(flags.set(0b001, false).data(), 0b010);
    // Overlapping flags do not join
    assert!(flags.join(&Flags::from_raw(0b010)).is_none());
    assert_eq!(flags.join(&Flags::from_raw(0b100)).map(|f| f.data()), Some(0b111));
}

#[test]
fn page_sizes_in_basic_pages() {
    let huge = PageSize::<X86_64Paging>::from_raw(0x20_0000);
    assert_eq!(huge.size(), 0x20_0000);
    assert_eq!(huge.page_alignment(), 512);
    assert_eq!(huge.to_default_page_count(), 512);
    assert_eq!(PageSize::<X86_64Paging>::from_raw(0x1000).to_default_page_count(), 1);
}
