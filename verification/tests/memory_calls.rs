use rcore_kernel::memory::{
    prot_to_map_permission, sys_mmap, sys_munmap, va_from, MapArea, MapPermission, PAGE_SIZE,
    PERM_R, PERM_U, PERM_W, PERM_X,
};

#[test]
fn prot_bits_map_to_permissions() {
    assert_eq!(prot_to_map_permission(1).bits, PERM_U | PERM_R);
    assert_eq!(prot_to_map_permission(2).bits, PERM_U | PERM_W);
    assert_eq!(prot_to_map_permission(4).bits, PERM_U | PERM_X);
    assert_eq!(prot_to_map_permission(7).bits, 0b11110);
    assert_eq!(prot_to_map_permission(0).bits, PERM_U);
}

#[test]
fn mmap_refuses_unaligned_start() {
    assert_eq!(sys_mmap(&vec![], 0x1001, 4096, 3), Err(-1));
}

#[test]
fn mmap_refuses_bad_prot() {
    assert_eq!(sys_mmap(&vec![], 0x1000, 4096, 0), Err(-1));
    assert_eq!(sys_mmap(&vec![], 0x1000, 4096, 8), Err(-1));
    assert_eq!(sys_mmap(&vec![], 0x1000, 4096, 9), Err(-1));
}

#[test]
fn mmap_refuses_an_overlap() {
    // Pages 0x10 and 0x11 are asked for; page 0x11 is mapped.
    assert_eq!(sys_mmap(&vec![0x11], 0x10000, 2 * PAGE_SIZE, 1), Err(-1));
    // A partial last page counts too.
    assert_eq!(sys_mmap(&vec![0x11], 0x10000, PAGE_SIZE + 1, 1), Err(-1));
}

#[test]
fn mmap_accepts_a_free_range() {
    let r = sys_mmap(&vec![0x12], 0x10000, 2 * PAGE_SIZE, 3);
    assert_eq!(
        r,
        Ok(MapArea {
            start_va: 0x10000,
            end_va: 0x12000,
            permission: MapPermission { bits: PERM_U | PERM_R | PERM_W },
        })
    );
}

#[test]
fn mmap_of_nothing_is_accepted() {
    let r = sys_mmap(&vec![0x10], 0x10000, 0, 1).unwrap();
    assert_eq!((r.start_va, r.end_va), (0x10000, 0x10000));
}

#[test]
fn munmap_needs_every_page_mapped() {
    assert_eq!(sys_munmap(&vec![0x10], 0x10000, 2 * PAGE_SIZE), Err(-1));
    assert_eq!(sys_munmap(&vec![0x11, 0x10], 0x10000, 2 * PAGE_SIZE), Ok((0x10000, 0x12000)));
    // An unaligned start still checks the page it falls in.
    assert_eq!(sys_munmap(&vec![0x10], 0x10800, 0x100), Ok((0x10800, 0x10900)));
}

#[test]
fn mmap_and_munmap_disagree_on_a_nonempty_range() {
    let mapped = vec![0x20usize];
    let m = sys_mmap(&mapped, 0x20000, PAGE_SIZE, 1);
    let u = sys_munmap(&mapped, 0x20000, PAGE_SIZE);
    assert!(m.is_err() && u.is_ok());
    let m = sys_mmap(&vec![], 0x20000, PAGE_SIZE, 1);
    let u = sys_munmap(&vec![], 0x20000, PAGE_SIZE);
    assert!(m.is_ok() && u.is_err());
}

#[test]
fn virtual_addresses_keep_39_bits() {
    assert_eq!(va_from(1usize << 39), 0);
    assert_eq!(va_from((1usize << 39) + 0x1234), 0x1234);
    assert_eq!(va_from(0x7f_ffff_ffff), 0x7f_ffff_ffff);
}
