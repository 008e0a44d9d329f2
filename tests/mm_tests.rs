use rcore_os::mm::{
    sys_mmap, sys_munmap, user_access, Access, FrameAllocator, MapArea, MemorySet, PERM_R, PERM_U,
    PERM_W, PERM_X, PTE_V,
};
use rcore_os::process::SIGSEGV;

#[test]
fn mmap_write_munmap_then_access_faults() {
    let mut ms = MemorySet::new_bare();
    assert_eq!(sys_mmap(&mut ms, 0x10000000, 8192, 3), 0);
    assert_eq!(user_access(&ms, 0x10000000, Access::Store), None);
    assert_eq!(user_access(&ms, 0x10001fff, Access::Load), None);
    assert_eq!(user_access(&ms, 0x10000000, Access::Fetch), Some(SIGSEGV));
    assert_eq!(sys_munmap(&mut ms, 0x10000000, 8192), 0);
    assert_eq!(user_access(&ms, 0x10000000, Access::Store), Some(SIGSEGV));
    assert_eq!(user_access(&ms, 0x10001000, Access::Load), Some(SIGSEGV));
}

#[test]
fn mmap_sets_user_and_port_permissions() {
    let mut ms = MemorySet::new_bare();
    assert_eq!(sys_mmap(&mut ms, 0x4000, 100, 5), 0);
    assert_eq!(ms.areas, vec![MapArea { start_vpn: 4, end_vpn: 5, perm: PERM_U | PERM_R | PERM_X }]);
    let pte = ms.translate(4).unwrap();
    assert!(pte.is_valid());
    assert_eq!(pte.flags, PERM_U | PERM_R | PERM_X | PTE_V);
    assert!(ms.translate(5).is_none());
    assert_eq!(user_access(&ms, 0x4000, Access::Store), Some(SIGSEGV));
    let _ = PERM_W;
}

#[test]
fn mmap_rejects_bad_arguments_and_overlap() {
    let mut ms = MemorySet::new_bare();
    assert_eq!(sys_mmap(&mut ms, 0x1001, 4096, 1), -1);
    assert_eq!(sys_mmap(&mut ms, 0x1000, 4096, 0), -1);
    assert_eq!(sys_mmap(&mut ms, 0x1000, 4096, 8), -1);
    assert_eq!(sys_mmap(&mut ms, 0x1000, 4096, 0xf), -1);
    assert_eq!(sys_mmap(&mut ms, 0x1000, 8192, 2), 0);
    assert_eq!(sys_mmap(&mut ms, 0x2000, 4096, 2), -1);
    assert_eq!(sys_mmap(&mut ms, 0x0, 4097, 2), -1);
    assert_eq!(sys_mmap(&mut ms, 0x3000, 4096, 2), 0);
    assert_eq!(ms.areas.len(), 2);
}

#[test]
fn munmap_needs_a_whole_area() {
    let mut ms = MemorySet::new_bare();
    assert_eq!(sys_mmap(&mut ms, 0x8000, 3 * 4096, 3), 0);
    assert_eq!(sys_munmap(&mut ms, 0x8000, 4096), -1);
    assert_eq!(sys_munmap(&mut ms, 0x9000, 2 * 4096), -1);
    assert_eq!(sys_munmap(&mut ms, 0x8001, 3 * 4096), -1);
    assert_eq!(sys_munmap(&mut ms, 0x20000, 4096), -1);
    assert_eq!(sys_munmap(&mut ms, 0x8000, 3 * 4096), 0);
    assert!(ms.areas.is_empty());
}

#[test]
fn mmap_then_munmap_restores_areas() {
    let mut ms = MemorySet::new_bare();
    sys_mmap(&mut ms, 0x1000, 4096, 1);
    let before = ms.areas.clone();
    assert_eq!(sys_mmap(&mut ms, 0x5000, 5000, 7), 0);
    assert_eq!(sys_munmap(&mut ms, 0x5000, 5000), 0);
    assert_eq!(ms.areas, before);
}

#[test]
fn zero_length_is_a_no_op() {
    let mut ms = MemorySet::new_bare();
    assert_eq!(sys_mmap(&mut ms, 0x1000, 0, 1), 0);
    assert!(ms.areas.is_empty());
    assert_eq!(sys_munmap(&mut ms, 0x1000, 0), 0);
}

#[test]
fn frames_are_handed_out_once_and_returned() {
    let mut fa = FrameAllocator::new(100, 103);
    let a = fa.frame_alloc().unwrap();
    let b = fa.frame_alloc().unwrap();
    let c = fa.frame_alloc().unwrap();
    assert_eq!((a, b, c), (100, 101, 102));
    assert!(fa.frame_alloc().is_none());
    fa.frame_dealloc(b);
    assert_eq!(fa.frame_alloc(), Some(101));
    fa.frame_dealloc(a);
    fa.frame_dealloc(c);
    assert_eq!(fa.frame_alloc(), Some(102));
    assert_eq!(fa.frame_alloc(), Some(100));
    assert!(fa.frame_alloc().is_none());
}
