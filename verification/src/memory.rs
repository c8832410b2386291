//! The checks of the `mmap` and `munmap` system calls: which requests are
//! refused, and which area of the address space an accepted one maps or
//! unmaps, with which permission.
use vstd::prelude::*;

verus! {

/// Bytes in a page.
pub const PAGE_SIZE: usize = 4096;

/// Bits of a virtual address under Sv39.
pub const VA_WIDTH_SV39: usize = 39;

/// Readable.
pub const PERM_R: u8 = 2;

/// Writable.
pub const PERM_W: u8 = 4;

/// Executable.
pub const PERM_X: u8 = 8;

/// Accessible from user mode.
pub const PERM_U: u8 = 16;

/// The permission bits of a mapped area (`PERM_R`, `PERM_W`, `PERM_X`, `PERM_U`).
#[derive(PartialEq, Eq, Structural, Clone, Copy, Debug)]
pub struct MapPermission {
    pub bits: u8,
}

/// An area to map: from `start_va` up to `end_va`, with `permission`.
#[derive(PartialEq, Eq, Structural, Clone, Copy, Debug)]
pub struct MapArea {
    pub start_va: usize,
    pub end_va: usize,
    pub permission: MapPermission,
}

/// A virtual address keeps the low `VA_WIDTH_SV39` bits of the number it is made from.
pub open spec fn virt_addr(x: int) -> int {
    x % 0x80_0000_0000
}

/// The virtual address made from `x`.
pub fn va_from(x: usize) -> (va: u64)
    ensures
        va == virt_addr(x as int),
        va <= x,
{
    let v = x as u64;
    assert(1u64 << 39u64 == 0x80_0000_0000u64) by (bit_vector);
    let va = v & ((1u64 << (VA_WIDTH_SV39 as u64)) - 1);
    assert(v & 0x7f_ffff_ffffu64 == v % 0x80_0000_0000u64) by (bit_vector);
    assert(v % 0x80_0000_0000u64 <= v) by (bit_vector);
    assert(v == x);
    va
}

/// The permission bits `prot` asks for: user access always, then read for
/// bit 0, write for bit 1, execute for bit 2.
pub open spec fn prot_bits(prot: usize) -> u8 {
    (PERM_U + (if prot % 2 == 1 {
        PERM_R
    } else {
        0u8
    }) + (if (prot / 2) % 2 == 1 {
        PERM_W
    } else {
        0u8
    }) + (if (prot / 4) % 2 == 1 {
        PERM_X
    } else {
        0u8
    })) as u8
}

/// `prot` names at least one of read, write, execute, and nothing else.
pub open spec fn prot_valid(prot: usize) -> bool {
    1 <= prot <= 7
}

/// The page number of the `k`-th page visited from `start_va`.
pub open spec fn page_at(start_va: int, k: int) -> int {
    (start_va + k * PAGE_SIZE) / (PAGE_SIZE as int)
}

/// Whether the `k`-th step from `start_va` is still below `end_va`.
pub open spec fn step_in_range(start_va: int, end_va: int, k: int) -> bool {
    0 <= k && start_va + k * PAGE_SIZE < end_va
}

/// Some page visited from `start_va` below `end_va` is in `mapped`.
pub open spec fn some_page_mapped(mapped: Seq<usize>, start_va: int, end_va: int) -> bool {
    exists|k: int|
        step_in_range(start_va, end_va, k) && mapped.contains(#[trigger] page_at(start_va, k) as usize)
}

/// Every page visited from `start_va` below `end_va` is in `mapped`.
pub open spec fn every_page_mapped(mapped: Seq<usize>, start_va: int, end_va: int) -> bool {
    forall|k: int|
        step_in_range(start_va, end_va, k) ==> mapped.contains(#[trigger] page_at(start_va, k) as usize)
}

/// The permission for a mapping asked for with `prot`.
pub fn prot_to_map_permission(prot: usize) -> (p: MapPermission)
    ensures
        p.bits == prot_bits(prot),
        (p.bits & PERM_R != 0) == (prot & 1usize != 0),
        (p.bits & PERM_W != 0) == (prot & 2usize != 0),
        (p.bits & PERM_X != 0) == (prot & 4usize != 0),
        p.bits & PERM_U != 0,
{
    proof {
        lemma_permission_follows_prot(prot);
    }
    let mut bits = PERM_U;
    assert((prot & 1usize != 0) == (prot % 2 == 1)) by (bit_vector);
    assert((prot & 2usize != 0) == ((prot / 2) % 2 == 1)) by (bit_vector);
    assert((prot & 4usize != 0) == ((prot / 4) % 2 == 1)) by (bit_vector);
    if prot & 0x1 != 0 {
        bits = bits + PERM_R;
    }
    if prot & 0x2 != 0 {
        bits = bits + PERM_W;
    }
    if prot & 0x4 != 0 {
        bits = bits + PERM_X;
    }
    MapPermission { bits }
}

/// Whether `x` occurs in `v`.
fn vec_contains(v: &Vec<usize>, x: usize) -> (found: bool)
    ensures
        found == v@.contains(x),
{
    let mut i: usize = 0;
    while i < v.len()
        invariant
            i <= v.len(),
            forall|k: int| 0 <= k < i ==> v@[k] != x,
        decreases v.len() - i,
    {
        if v[i] == x {
            return true;
        }
        i = i + 1;
    }
    false
}

/// Checks a request to map `len` bytes from `start` with protection `prot`,
/// where `mapped` holds the numbers of the pages that are mapped now. Refused
/// with -1 when `start` is not page aligned, when `prot` is not valid, or when
/// a page of the range is mapped already; otherwise returns the area to map.
pub fn sys_mmap(mapped: &Vec<usize>, start: usize, len: usize, prot: usize) -> (r: Result<MapArea, isize>)
    requires
        start + len <= usize::MAX,
    ensures
        r == (if start % PAGE_SIZE != 0 || !prot_valid(prot) || some_page_mapped(
            mapped@,
            virt_addr(start as int),
            virt_addr(start + len),
        ) {
            Err(-1isize)
        } else {
            Ok(
                (MapArea {
                    start_va: virt_addr(start as int) as usize,
                    end_va: virt_addr(start + len) as usize,
                    permission: MapPermission { bits: prot_bits(prot) },
                }),
            )
        }),
        r is Err <==> start % PAGE_SIZE != 0 || prot == 0 || prot > 7 || exists|k: int|
            0 <= k && virt_addr(start as int) + k * 4096 < virt_addr(start + len) && #[trigger] mapped@.contains(
                ((virt_addr(start as int) + k * 4096) / 4096) as usize,
            ),
        r matches Ok(a) ==> {
            &&& (a.permission.bits & PERM_R != 0) == (prot & 1usize != 0)
            &&& (a.permission.bits & PERM_W != 0) == (prot & 2usize != 0)
            &&& (a.permission.bits & PERM_X != 0) == (prot & 4usize != 0)
            &&& a.permission.bits & PERM_U != 0
        },
{
    proof {
        lemma_some_page_mapped_means(mapped@, virt_addr(start as int), virt_addr(start + len));
        lemma_permission_follows_prot(prot);
    }
    if start % PAGE_SIZE != 0 {
        return Err(-1);
    }
    assert((prot & !0x7usize != 0 || prot & 0x7usize == 0) == (prot < 1 || prot > 7)) by (bit_vector);
    if (prot & !0x7 != 0) || (prot & 0x7) == 0 {
        return Err(-1);
    }
    let permission = prot_to_map_permission(prot);
    let start_va = va_from(start);
    let end_va = va_from(start + len);
    let mut va: u64 = start_va;
    let ghost mut k: int = 0;
    while va < end_va
        invariant
            start_va == virt_addr(start as int),
            end_va == virt_addr(start + len),
            end_va <= usize::MAX,
            0 <= k,
            va == start_va + k * PAGE_SIZE,
            forall|q: int|
                0 <= q < k ==> !mapped@.contains(#[trigger] page_at(start_va as int, q) as usize),
        decreases end_va + 4096 - va,
    {
        if vec_contains(mapped, (va / (PAGE_SIZE as u64)) as usize) {
            assert(step_in_range(start_va as int, end_va as int, k));
            assert(mapped@.contains(page_at(start_va as int, k) as usize));
            return Err(-1);
        }
        va = va + PAGE_SIZE as u64;
        proof {
            k = k + 1;
        }
    }
    proof {
        assert forall|q: int| step_in_range(start_va as int, end_va as int, q) implies !mapped@.contains(
            #[trigger] page_at(start_va as int, q) as usize,
        ) by {
            assert(q < k);
        }
    }
    Ok(MapArea { start_va: start_va as usize, end_va: end_va as usize, permission })
}

/// Checks a request to unmap `len` bytes from `start`, where `mapped` holds
/// the numbers of the pages that are mapped now. Refused with -1 when a page
/// of the range is not mapped; otherwise returns the range of virtual
/// addresses to unmap.
pub fn sys_munmap(mapped: &Vec<usize>, start: usize, len: usize) -> (r: Result<(usize, usize), isize>)
    requires
        start + len <= usize::MAX,
    ensures
        r == (if every_page_mapped(mapped@, virt_addr(start as int), virt_addr(start + len)) {
            Ok((virt_addr(start as int) as usize, virt_addr(start + len) as usize))
        } else {
            Err(-1isize)
        }),
        r is Ok <==> forall|k: int|
            0 <= k && virt_addr(start as int) + k * 4096 < virt_addr(start + len) ==> #[trigger] mapped@.contains(
                ((virt_addr(start as int) + k * 4096) / 4096) as usize,
            ),
{
    proof {
        lemma_every_page_mapped_means(mapped@, virt_addr(start as int), virt_addr(start + len));
    }
    let start_va = va_from(start);
    let end_va = va_from(start + len);
    let mut va: u64 = start_va;
    let ghost mut k: int = 0;
    while va < end_va
        invariant
            start_va == virt_addr(start as int),
            end_va == virt_addr(start + len),
            end_va <= usize::MAX,
            0 <= k,
            va == start_va + k * PAGE_SIZE,
            forall|q: int|
                0 <= q < k ==> mapped@.contains(#[trigger] page_at(start_va as int, q) as usize),
        decreases end_va + 4096 - va,
    {
        if !vec_contains(mapped, (va / (PAGE_SIZE as u64)) as usize) {
            assert(step_in_range(start_va as int, end_va as int, k));
            assert(!mapped@.contains(page_at(start_va as int, k) as usize));
            return Err(-1);
        }
        va = va + PAGE_SIZE as u64;
        proof {
            k = k + 1;
        }
    }
    proof {
        assert forall|q: int| step_in_range(start_va as int, end_va as int, q) implies mapped@.contains(
            #[trigger] page_at(start_va as int, q) as usize,
        ) by {
            assert(q < k);
        }
    }
    Ok((start_va as usize, end_va as usize))
}

/// On a nonempty range, `mmap` and `munmap` never both succeed against the
/// same mapped pages: one needs every page unmapped, the other every page mapped.
pub proof fn lemma_mmap_munmap_exclusive(mapped: Seq<usize>, start_va: int, end_va: int)
    requires
        start_va < end_va,
    ensures
        every_page_mapped(mapped, start_va, end_va) ==> some_page_mapped(mapped, start_va, end_va),
{
    assert(step_in_range(start_va, end_va, 0));
    if every_page_mapped(mapped, start_va, end_va) {
        assert(mapped.contains(page_at(start_va, 0) as usize));
    }
}

/// Which permission bits are set in a sum of distinct permission bits.
proof fn lemma_bits_of_sum(b: u8, r: bool, w: bool, x: bool)
    by (bit_vector)
    requires
        b == 16u8 + (if r { 2u8 } else { 0u8 }) + (if w { 4u8 } else { 0u8 }) + (if x { 8u8 } else { 0u8 }),
    ensures
        (b & 2u8 != 0) == r,
        (b & 4u8 != 0) == w,
        (b & 8u8 != 0) == x,
        b & 16u8 != 0,
        b & 0xe1u8 == 0u8,
{
}

/// The permission asked for with `prot` is readable exactly when bit 0 of
/// `prot` is set, writable exactly when bit 1 is, executable exactly when
/// bit 2 is, always user accessible, and has no other bit.
pub proof fn lemma_permission_follows_prot(prot: usize)
    ensures
        (prot_bits(prot) & PERM_R != 0) == (prot & 1usize != 0),
        (prot_bits(prot) & PERM_W != 0) == (prot & 2usize != 0),
        (prot_bits(prot) & PERM_X != 0) == (prot & 4usize != 0),
        prot_bits(prot) & PERM_U != 0,
        prot_bits(prot) & !(PERM_R | PERM_W | PERM_X | PERM_U) == 0,
{
    assert((prot & 1usize != 0) == (prot % 2 == 1)) by (bit_vector);
    assert((prot & 2usize != 0) == ((prot / 2) % 2 == 1)) by (bit_vector);
    assert((prot & 4usize != 0) == ((prot / 4) % 2 == 1)) by (bit_vector);
    lemma_bits_of_sum(prot_bits(prot), prot % 2 == 1, (prot / 2) % 2 == 1, (prot / 4) % 2 == 1);
    assert(!(2u8 | 4u8 | 8u8 | 16u8) == 0xe1u8) by (bit_vector);
}

/// `munmap`'s condition, spelled out: every page a step of `PAGE_SIZE` from
/// `start_va` visits below `end_va` is mapped.
pub proof fn lemma_every_page_mapped_means(mapped: Seq<usize>, start_va: int, end_va: int)
    ensures
        every_page_mapped(mapped, start_va, end_va) <==> forall|k: int|
            0 <= k && start_va + k * 4096 < end_va ==> #[trigger] mapped.contains(
                ((start_va + k * 4096) / 4096) as usize,
            ),
{
    if every_page_mapped(mapped, start_va, end_va) {
        assert forall|k: int| 0 <= k && start_va + k * 4096 < end_va implies #[trigger] mapped.contains(
            ((start_va + k * 4096) / 4096) as usize,
        ) by {
            assert(step_in_range(start_va, end_va, k));
            assert(mapped.contains(page_at(start_va, k) as usize));
        }
    }
    if forall|k: int|
        0 <= k && start_va + k * 4096 < end_va ==> #[trigger] mapped.contains(
            ((start_va + k * 4096) / 4096) as usize,
        ) {
        assert forall|k: int| step_in_range(start_va, end_va, k) implies mapped.contains(
            #[trigger] page_at(start_va, k) as usize,
        ) by {
            assert(mapped.contains(((start_va + k * 4096) / 4096) as usize));
        }
    }
}

/// `mmap`'s overlap condition, spelled out: some page a step of `PAGE_SIZE`
/// from `start_va` visits below `end_va` is mapped.
pub proof fn lemma_some_page_mapped_means(mapped: Seq<usize>, start_va: int, end_va: int)
    ensures
        some_page_mapped(mapped, start_va, end_va) <==> exists|k: int|
            0 <= k && start_va + k * 4096 < end_va && #[trigger] mapped.contains(
                ((start_va + k * 4096) / 4096) as usize,
            ),
{
    if some_page_mapped(mapped, start_va, end_va) {
        let k = choose|k: int|
            step_in_range(start_va, end_va, k) && mapped.contains(#[trigger] page_at(start_va, k) as usize);
        assert(mapped.contains(((start_va + k * 4096) / 4096) as usize));
    }
    if exists|k: int|
        0 <= k && start_va + k * 4096 < end_va && #[trigger] mapped.contains(
            ((start_va + k * 4096) / 4096) as usize,
        ) {
        let k = choose|k: int|
            0 <= k && start_va + k * 4096 < end_va && #[trigger] mapped.contains(
                ((start_va + k * 4096) / 4096) as usize,
            );
        assert(step_in_range(start_va, end_va, k));
        assert(mapped.contains(page_at(start_va, k) as usize));
    }
}

} // verus!
