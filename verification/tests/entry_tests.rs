use sos_intrusive::entry::{
    Entry, Flags, ACCESSED, ALL_FLAGS, HUGE_PAGE, NO_EXECUTE, PRESENT, WRITABLE,
};

#[test]
fn fresh_entry_is_unused() {
    let e = Entry::new();
    assert!(e.is_unused());
    assert!(!e.is_huge());
    assert_eq!(e.flags().bits(), 0);
    assert!(e.pointed_frame().is_none());
}

#[test]
fn set_unused_clears_the_entry() {
    let mut e = Entry::new();
    e.set(0x2000, Flags::from_bits_truncate(PRESENT | WRITABLE));
    assert!(!e.is_unused());
    e.set_unused();
    assert!(e.is_unused());
    assert!(e.pointed_frame().is_none());
}

#[test]
fn set_points_at_the_frame() {
    let mut e = Entry::new();
    e.set(0x0000_0042_1000, Flags::from_bits_truncate(PRESENT));
    assert_eq!(e.pointed_frame(), Some(0x0000_0042_1000));
    assert!(e.flags().contains(PRESENT));
    assert!(!e.flags().contains(WRITABLE));
}

#[test]
fn absent_entry_points_nowhere() {
    let mut e = Entry::new();
    e.set(0x3000, Flags::from_bits_truncate(WRITABLE));
    assert_eq!(e.pointed_frame(), None);
}

#[test]
fn huge_page_flag() {
    let mut e = Entry::new();
    e.set(0x0, Flags::from_bits_truncate(PRESENT | HUGE_PAGE));
    assert!(e.is_huge());
    e.set(0x0, Flags::from_bits_truncate(PRESENT));
    assert!(!e.is_huge());
}

#[test]
fn from_bits_truncate_drops_unknown_bits() {
    let f = Flags::from_bits_truncate(u64::MAX);
    assert_eq!(f.bits(), ALL_FLAGS);
    let f = Flags::from_bits_truncate(0x1000 | PRESENT);
    assert_eq!(f.bits(), PRESENT);
}

#[test]
fn flag_constants_are_the_documented_bits() {
    assert_eq!(PRESENT, 1);
    assert_eq!(WRITABLE, 2);
    assert_eq!(ACCESSED, 1 << 5);
    assert_eq!(HUGE_PAGE, 1 << 7);
    assert_eq!(NO_EXECUTE, 1 << 63);
}

#[test]
fn union_combines_flags() {
    let f = Flags::from_bits_truncate(PRESENT).union(Flags::from_bits_truncate(WRITABLE));
    assert!(f.contains(PRESENT | WRITABLE));
    assert_eq!(f.bits(), PRESENT | WRITABLE);
}

#[test]
fn empty_flags_contain_nothing_but_zero() {
    let f = Flags::empty();
    assert_eq!(f.bits(), 0);
    assert!(!f.contains(PRESENT));
    assert!(f.contains(0));
}
