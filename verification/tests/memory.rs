//! The memory hierarchy on its own: hit and miss accounting, replacement,
//! the sister protocol, write-back round trips, and the trace buffer.

use minips::hierarchy::Hierarchy;
use minips::loader::{boot, Executable, TEXT_BASE};
use minips::ram::Ram;
use minips::reporter::MemoryEvent;
use minips::err::EmuError;

#[test]
fn direct_mapped_cache_hit_streak_after_one_cold_miss() {
    let mut h = Hierarchy::build(2, false).unwrap();
    for _ in 0..1000 {
        let (v, _) = h.read_word(0x1001_0000).unwrap();
        assert_eq!(v, 0);
    }
    let (hits, misses, accesses) = h.data_cache_stats().unwrap();
    assert_eq!(accesses, 1000);
    assert_eq!(misses, 1);
    assert_eq!(hits, 999);
}

#[test]
fn hit_count_plus_miss_count_equals_access_count() {
    let mut h = Hierarchy::build(2, false).unwrap();
    for i in 0..64u32 {
        h.read_word(0x1001_0000 + 4 * i).unwrap();
        h.write_word(0x2000 + 64 * i, i).unwrap();
    }
    let (hits, misses, accesses) = h.data_cache_stats().unwrap();
    assert_eq!(hits + misses, accesses);
    assert_eq!(accesses, 128);
}

#[test]
fn sister_invalidation_and_fetch_from_the_data_cache() {
    let a = 0x0040_0000u32;
    let w = 0xDEAD_BEEFu32;
    let mut h = Hierarchy::build(3, false).unwrap();
    // the instruction cache takes the block first
    let (v0, _) = h.read_instruction(a).unwrap();
    assert_eq!(v0, 0);
    let (_, im0, _) = h.instr_cache_stats().unwrap();
    // the data-side write invalidates the sister's copy
    h.write_word(a, w).unwrap();
    // the refetch misses, is satisfied from the sister, and sees the write
    let (v1, _) = h.read_instruction(a).unwrap();
    assert_eq!(v1, w);
    let (_, im1, _) = h.instr_cache_stats().unwrap();
    assert_eq!(im1, im0 + 1);
}

#[test]
fn lru_evicts_the_least_recently_used_way() {
    // four-way set: five blocks mapping to set zero
    let mut h = Hierarchy::build(5, false).unwrap();
    let a = 0u32;
    let b = 128u32;
    let c = 256u32;
    let d = 384u32;
    let e = 512u32;
    for addr in [a, b, c, d] {
        h.read_word(addr).unwrap();
    }
    h.read_word(a).unwrap(); // refresh: b is now the least recent
    h.read_word(e).unwrap(); // compulsory miss: evicts b, not a
    let (_, m0, _) = h.data_cache_stats().unwrap();
    assert_eq!(m0, 5);
    h.read_word(a).unwrap(); // still resident
    let (_, m1, _) = h.data_cache_stats().unwrap();
    assert_eq!(m1, 5);
    h.read_word(b).unwrap(); // b was the victim
    let (_, m2, _) = h.data_cache_stats().unwrap();
    assert_eq!(m2, 6);
}

#[test]
fn written_words_survive_conflict_evictions() {
    // direct-mapped: blocks 1024 bytes apart collide in the same set
    let mut h = Hierarchy::build(2, false).unwrap();
    h.write_word(0x1000, 0xAB).unwrap();
    h.write_word(0x1000 + 1024, 0xCD).unwrap();
    h.write_word(0x1000 + 2048, 0xEF).unwrap();
    assert_eq!(h.read_word(0x1000).unwrap().0, 0xAB);
    assert_eq!(h.read_word(0x1000 + 1024).unwrap().0, 0xCD);
    assert_eq!(h.read_word(0x1000 + 2048).unwrap().0, 0xEF);
}

#[test]
fn two_level_hierarchy_serves_writes_and_reads() {
    let mut h = Hierarchy::build(6, false).unwrap();
    for i in 0..32u32 {
        h.write_word(0x1001_0000 + 4 * i, i + 7).unwrap();
    }
    // push the written blocks down by touching conflicting blocks
    for i in 0..64u32 {
        h.read_word(0x2_0000 + 128 * i).unwrap();
    }
    for i in 0..32u32 {
        assert_eq!(h.read_word(0x1001_0000 + 4 * i).unwrap().0, i + 7);
    }
    assert!(h.l2_cache_stats().is_some());
}

#[test]
fn ram_reads_zero_when_untouched_and_counts_accesses() {
    let mut ram = Ram::new(100);
    assert_eq!(ram.read_word(0x40).unwrap(), (0, 100));
    assert_eq!(ram.write_word(0x40, 9).unwrap(), 100);
    assert_eq!(ram.read_word(0x40).unwrap(), (9, 100));
    assert_eq!(ram.accesses(), 3);
    ram.reset_stats();
    assert_eq!(ram.accesses(), 0);
    assert_eq!(
        ram.read_word(0x41).unwrap_err(),
        EmuError::Alignment { addr: 0x41 }
    );
}

#[test]
fn ram_slices_read_and_write_bursts_for_one_latency() {
    let mut ram = Ram::new(100);
    let data = vec![1u32, 2, 3, 4];
    assert_eq!(ram.write_slice(0x100, &data).unwrap(), 100);
    let (v, cycles) = ram.read_slice(0x100, 4).unwrap();
    assert_eq!(v, data);
    assert_eq!(cycles, 100);
    assert_eq!(ram.accesses(), 2);
}

#[test]
fn unaligned_accesses_fail_at_every_level() {
    for conf in 1..=6 {
        let mut h = Hierarchy::build(conf, false).unwrap();
        assert_eq!(
            h.read_word(6).unwrap_err(),
            EmuError::Alignment { addr: 6 },
            "configuration {}",
            conf
        );
        assert_eq!(
            h.write_word(10, 1).unwrap_err(),
            EmuError::Alignment { addr: 10 }
        );
        assert_eq!(
            h.read_instruction(2).unwrap_err(),
            EmuError::Alignment { addr: 2 }
        );
    }
}

#[test]
fn trace_records_reads_writes_and_fetches_in_order() {
    let mut h = Hierarchy::build(2, true).unwrap();
    h.read_word(0x1001_0000).unwrap();
    h.write_word(0x1001_0020, 5).unwrap();
    h.read_instruction(0x0040_0000).unwrap();
    let t = h.take_trace();
    assert_eq!(t.len(), 3);
    match &t[0] {
        MemoryEvent::DataRead(a, line) => {
            assert_eq!(*a, 0x1001_0000);
            assert_eq!(*line, 0x1001_0000 / 32);
        }
        other => panic!("unexpected event {:?}", event_tag(other)),
    }
    match &t[1] {
        MemoryEvent::Write(a, line) => {
            assert_eq!(*a, 0x1001_0020);
            assert_eq!(*line, 0x1001_0020 / 32);
        }
        other => panic!("unexpected event {:?}", event_tag(other)),
    }
    match &t[2] {
        MemoryEvent::InstrRead(a, _) => assert_eq!(*a, 0x0040_0000),
        other => panic!("unexpected event {:?}", event_tag(other)),
    }
    assert_eq!(h.take_trace().len(), 0);
}

fn event_tag(e: &MemoryEvent) -> &'static str {
    match e {
        MemoryEvent::DataRead(_, _) => "data read",
        MemoryEvent::InstrRead(_, _) => "instruction read",
        MemoryEvent::Write(_, _) => "write",
        MemoryEvent::Debug(_) => "debug",
        MemoryEvent::Finish => "finish",
    }
}

#[test]
fn loading_does_not_pollute_the_ram_counter() {
    let exe = Executable::new(
        vec![0x2402000A, 0x0000000C],
        Some(vec![1, 2, 3]),
        Some(vec![9]),
    );
    for conf in 1..=6 {
        let cpu = boot(conf, false, &exe, TEXT_BASE).unwrap();
        assert_eq!(cpu.mem.ram_accesses(), 0, "configuration {}", conf);
    }
}
