use worm_cache::{
    ICountPlugin, PBBMetadata, TraceEntry, VirtualTimeContext, marker_hint,
};

#[test]
fn pbb_metadata_round_trip() {
    let m = PBBMetadata { physical_addr: 0x1234_5678, instruction_count: 16 };
    let w = m.encode();
    assert_eq!(w, (15u64 << 60) | 0x1234_5678);
    assert_eq!(PBBMetadata::get_pa(w), 0x1234_5678);
    assert_eq!(PBBMetadata::get_instruction_count(w), 16);
    assert_eq!(PBBMetadata::from(w), m);
    let one = PBBMetadata { physical_addr: 64, instruction_count: 1 };
    assert_eq!(one.encode(), 64);
}

#[test]
fn trace_entry_bytes() {
    let e = TraceEntry { block_id: 0x0102_0304_0506_0708, timestamp: 9, is_read: true, core_id: 3 };
    let b = e.serialize();
    assert_eq!(&b[0..8], &[8, 7, 6, 5, 4, 3, 2, 1]);
    assert_eq!(&b[8..16], &[9, 0, 0, 0, 0, 0, 0, 0]);
    assert_eq!(b[16], 1);
    assert_eq!(b[17], 3);
    assert_eq!(TraceEntry::from_bytes(&b), e);
    let w = TraceEntry { block_id: 1, timestamp: u64::MAX, is_read: false, core_id: 0 };
    assert_eq!(w.serialize()[16], 0);
    assert_eq!(TraceEntry::from_bytes(&w.serialize()), w);
}

#[test]
fn instruction_counters() {
    let mut c = ICountPlugin::new(2);
    c.increase_icount(1, 5);
    c.increase_icount(1, 2);
    c.increase_icount(0, 1);
    assert_eq!(c.get_icounts(), vec![1, 7]);
    c.reset();
    assert_eq!(c.get_icounts(), vec![0, 0]);
}

#[test]
fn virtual_clock_follows_largest_counter_increase() {
    let mut v = VirtualTimeContext::new(2);
    assert_eq!(v.calculate_virtual_time(100, &vec![10, 4], true, 1000), 1010);
    assert_eq!(v.calculate_virtual_time(150, &vec![12, 9], true, 1000), 1015);
    // no instruction executed: the real time elapsed counts
    assert_eq!(v.calculate_virtual_time(170, &vec![12, 9], true, 1000), 1035);
    // ticks off: the clock stays
    assert_eq!(v.calculate_virtual_time(500, &vec![20, 9], false, 1000), 1035);
    v.reset();
    assert_eq!(v.calculate_virtual_time(7, &vec![0, 0], true, 0), 7);
}

#[test]
fn marker_hints() {
    let hint = |v: u32| 0b1101_0101_0000_0011_0010_0000_0001_1111u32 | (v << 5);
    assert_eq!(marker_hint(hint(91)), Some(91));
    assert_eq!(marker_hint(hint(90)), None);
    assert_eq!(marker_hint(hint(127)), Some(127));
    assert_eq!(marker_hint(0xd503_201f), None);
    assert_eq!(marker_hint(0), None);
}
