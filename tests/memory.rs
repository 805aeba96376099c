use std::sync::Arc;

use tasjr::memory::{Memory, MemorySnapshot};

fn pattern(n: usize) -> Vec<u8> {
    (0..n).map(|i| (i * 7 % 251) as u8).collect()
}

#[test]
fn new_pads_to_whole_chunks() {
    let m = Memory::new(vec![1, 2, 3]);
    assert_eq!(m.size(), 64);
    assert_eq!(m.slice(0, 4), &[1, 2, 3, 0]);
    let e = Memory::new(vec![0; 128]);
    assert_eq!(e.size(), 128);
}

#[test]
fn typed_reads_and_writes_are_little_endian_and_unaligned() {
    let mut m = Memory::new(vec![0; 64]);
    m.write(5, 0x1122_3344);
    assert_eq!(m.slice(5, 4), &[0x44, 0x33, 0x22, 0x11]);
    assert_eq!(m.read(5), 0x1122_3344);
    assert_eq!(m.read_u16(6), 0x2233);
    assert_eq!(m.read_u8(8), 0x11);
    m.write_u16(1, 0xBEEF);
    assert_eq!(m.slice(1, 2), &[0xEF, 0xBE]);
}

#[test]
fn cstr_stops_at_zero() {
    let mut data = vec![0u8; 64];
    data[10..15].copy_from_slice(b"hello");
    let m = Memory::new(data);
    assert_eq!(m.cstr(10).unwrap(), b"hello".to_vec());
    assert_eq!(m.cstr(15).unwrap(), Vec::<u8>::new());
    let full = Memory::new(vec![1u8; 64]);
    assert!(full.cstr(0).is_none());
}

#[test]
fn memset_memcpy_strncpy() {
    let mut m = Memory::new(pattern(128));
    m.memset(3, 9, 4);
    assert_eq!(m.slice(3, 4), &[9, 9, 9, 9]);
    let src: Vec<u8> = m.slice(0, 10).to_vec();
    m.memcpy(2, 0, 10);
    assert_eq!(m.slice(2, 10), &src[..]);
    let mut s = Memory::new(vec![0; 64]);
    s.write_bytes(0, b"ab\0zz");
    s.write_bytes(10, &[7; 6]);
    s.strncpy(10, 0, 6);
    assert_eq!(s.slice(10, 6), &[b'a', b'b', 0, 0, 0, 0]);
    s.write_bytes(20, &[7; 4]);
    s.strncpy(20, 0, 1);
    assert_eq!(s.slice(20, 2), &[b'a', 7]);
}

#[test]
fn snapshot_restores_the_bytes_it_was_taken_from() {
    let mut m = Memory::new(pattern(640));
    m.clear_dirty();
    let baseline = m.take_snapshot(None);
    m.write(70, 0xAABBCCDD);
    m.write_u8(300, 1);
    let snap = m.take_snapshot(Some(&baseline));
    let taken = m.slice(0, m.size()).to_vec();
    m.write(72, 5);
    m.memset(500, 0xFF, 100);
    m.write(0, 1);
    m.restore_from_snapshot(&snap);
    assert_eq!(m.slice(0, m.size()), &taken[..]);
    m.memset(0, 0, 640);
    m.restore_from_snapshot(&baseline);
    assert_eq!(m.slice(0, m.size()), &pattern(640)[..]);
}

#[test]
fn delta_holds_exactly_the_changed_dirty_chunks() {
    let mut m = Memory::new(pattern(640));
    m.clear_dirty();
    let baseline = m.take_snapshot(None);
    m.write(70, 0xAABBCCDD);
    m.write_u8(300, 1);
    // Written but put back: dirty, yet equal to the baseline.
    let old = m.read(400);
    m.write(400, !old);
    m.write(400, old);
    let snap = m.take_snapshot(Some(&baseline));
    match &*snap {
        MemorySnapshot::Delta { baseline: b, chunks } => {
            assert!(Arc::ptr_eq(b, &baseline));
            let mut addrs: Vec<usize> = chunks.keys().cloned().collect();
            addrs.sort();
            assert_eq!(addrs, vec![64, 256]);
            assert!(chunks.values().all(|c| c.len() == 64));
            assert_eq!(chunks[&64][6..10], 0xAABBCCDDu32.to_le_bytes());
        }
        MemorySnapshot::Baseline(_) => panic!("expected a delta"),
    }
}

#[test]
fn snapshot_without_baseline_is_full_copy() {
    let m = Memory::new(pattern(64));
    match &*m.take_snapshot(None) {
        MemorySnapshot::Baseline(b) => assert_eq!(b, &pattern(64)),
        MemorySnapshot::Delta { .. } => panic!("expected a baseline"),
    }
}

#[test]
fn clone_keeps_bytes_and_dirty_chunks() {
    let mut m = Memory::new(pattern(256));
    m.clear_dirty();
    let baseline = m.take_snapshot(None);
    m.write(130, 0xFFFF_FFFF);
    let c = m.clone();
    assert_eq!(c.slice(0, 256), m.slice(0, 256));
    match &*c.take_snapshot(Some(&baseline)) {
        MemorySnapshot::Delta { chunks, .. } => {
            assert_eq!(chunks.keys().cloned().collect::<Vec<_>>(), vec![128]);
        }
        MemorySnapshot::Baseline(_) => panic!("expected a delta"),
    }
}
