use task_core::config::PAGE_SIZE;
use task_core::manager::TaskManager;
use task_core::mm::{MemorySet, MAP_R, MAP_U, MAP_W, PTE_V};
use task_core::mmap::{mmap_page, munmap_page};
use task_core::process::{Kernel, ProcessControlBlock};
use task_core::syscall_process::{sys_get_time, sys_mmap, sys_munmap};
use task_core::task::TaskControlBlock;

fn kernel() -> Kernel {
    let init = ProcessControlBlock::new(0, None, MemorySet::new(100));
    Kernel {
        processes: vec![init],
        manager: TaskManager::new(),
        current: Some(TaskControlBlock::new(0, 0, 0x8000_0000, 0)),
        timers: Vec::new(),
        next_pid: 1,
        next_kstack: 1,
    }
}

fn memory(k: &Kernel) -> &MemorySet {
    &k.processes[0].inner.memory_set
}

fn le_u64(b: &[u8]) -> u64 {
    let mut v: u64 = 0;
    for (i, x) in b.iter().enumerate() {
        v |= (*x as u64) << (8 * i);
    }
    v
}

#[test]
fn mmap_then_double_mmap() {
    let mut k = kernel();
    assert_eq!(sys_mmap(&mut k, 0x10_000, 0x2000, 3), 0);
    assert_eq!(sys_mmap(&mut k, 0x10_000, 0x2000, 3), -1);
    assert_eq!(sys_munmap(&mut k, 0x10_000, 0x2000), 0);
    assert_eq!(sys_mmap(&mut k, 0x10_000, 0x2000, 3), 0);
}

#[test]
fn mmap_sets_permissions_with_user_bit() {
    let mut k = kernel();
    assert_eq!(sys_mmap(&mut k, 0x10_000, 0x1800, 3), 0);
    let ms = memory(&k);
    assert_eq!(ms.pages.len(), 2);
    for vpn in [0x10, 0x11] {
        let e = ms.translate(vpn).unwrap();
        assert!(e.is_valid());
        assert_eq!(e.bits, MAP_R | MAP_W | MAP_U | PTE_V);
    }
    assert!(ms.translate(0x12).is_none());
}

#[test]
fn mmap_refuses_bad_arguments() {
    let mut k = kernel();
    assert_eq!(sys_mmap(&mut k, 0x10_001, 0x1000, 3), -1);
    assert_eq!(sys_mmap(&mut k, 0x10_000, 0x1000, 0), -1);
    assert_eq!(sys_mmap(&mut k, 0x10_000, 0x1000, 8), -1);
    assert_eq!(sys_mmap(&mut k, 0x10_000, 0x1000, 0xf), -1);
    assert!(memory(&k).pages.is_empty());
}

#[test]
fn mmap_of_zero_length_succeeds_without_mapping() {
    let mut k = kernel();
    assert_eq!(sys_mmap(&mut k, 0x10_000, 0, 0), 0);
    assert!(memory(&k).pages.is_empty());
    assert_eq!(sys_mmap(&mut k, 0x10_001, 0, 3), -1);
}

#[test]
fn mmap_overlapping_a_mapped_page_maps_nothing() {
    let mut k = kernel();
    assert_eq!(sys_mmap(&mut k, 0x11_000, 0x1000, 1), 0);
    assert_eq!(sys_mmap(&mut k, 0x10_000, 0x3000, 1), -1);
    assert_eq!(memory(&k).pages.len(), 1);
}

#[test]
fn munmap_rounds_length_up_and_needs_every_page() {
    let mut k = kernel();
    assert_eq!(sys_mmap(&mut k, 0x10_000, 0x2000, 1), 0);
    assert_eq!(sys_munmap(&mut k, 0x10_000, 0x3000), -1);
    assert_eq!(memory(&k).pages.len(), 2);
    assert_eq!(sys_munmap(&mut k, 0x10_001, 0x1000), -1);
    assert_eq!(sys_munmap(&mut k, 0x10_000, 1), 0);
    assert_eq!(memory(&k).pages.len(), 1);
    assert!(memory(&k).translate(0x11).is_some());
}

#[test]
fn mmap_page_and_munmap_page_on_an_address_space() {
    let mut ms = MemorySet::new(7);
    assert!(mmap_page(&mut ms, 0x4000, 0x1000, 4));
    assert!(!mmap_page(&mut ms, 0x4000, 0x1000, 4));
    assert!(!munmap_page(&mut ms, 0x4000, 0x2000));
    assert!(munmap_page(&mut ms, 0x4000, 0x1000));
    assert!(ms.pages.is_empty());
    assert_eq!(ms.token(), 7);
}

#[test]
fn split_page_round_trip() {
    let mut ms = MemorySet::new(1);
    assert!(mmap_page(&mut ms, 0x20_000, 2 * PAGE_SIZE, 3));
    let ptr = 0x20_000 + PAGE_SIZE - 5;
    let data: Vec<u8> = (1..=11).collect();
    ms.write_user_bytes(ptr, &data);
    assert_eq!(ms.read_user_bytes(ptr, data.len()), data);
    assert_eq!(ms.pages[&0x20].data[PAGE_SIZE - 5..], data[..5]);
    assert_eq!(ms.pages[&0x21].data[..6], data[5..]);
    assert_eq!(ms.read_user_bytes(ptr - 1, 1), vec![0]);
}

#[test]
fn split_page_get_time() {
    let mut k = kernel();
    assert_eq!(sys_mmap(&mut k, 0x20_000, 2 * PAGE_SIZE, 3), 0);
    let p = 0x20_000 + PAGE_SIZE - 4;
    let now_us: usize = 3_123_456_789;
    assert_eq!(sys_get_time(&mut k, p, 0, now_us), 0);
    let bytes = memory(&k).read_user_bytes(p, 16);
    let sec = le_u64(&bytes[..8]);
    let usec = le_u64(&bytes[8..]);
    assert_eq!(sec, 3123);
    assert_eq!(usec, 456_789);
    assert_eq!(sec * 1_000_000 + usec, now_us as u64);
}
