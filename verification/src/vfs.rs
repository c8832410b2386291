//! The file system of one volume: looking a name up, creating a file, hard
//! links and unlinking, listing, and reading, writing and clearing a file.
//!
//! The volume has one directory, the root (inode 0), whose entries map names
//! to inode ids. Each file inode counts its names (`nlink`); when unlinking
//! drops the count to zero the inode is freed. New inodes take the lowest free
//! id and start empty. A file's contents are a byte string; the volume counts
//! the data blocks its allocator has left, which growing a file or the root
//! directory takes and clearing a file gives back (which blocks, and the
//! bytes in them, are the block layer's concern).
use vstd::prelude::*;

verus! {

/// Links a fresh file starts with: its one name.
pub const INITIAL_NLINK: u32 = 1;

/// What an inode is.
#[derive(PartialEq, Eq, Structural, Clone, Copy, Debug)]
pub enum InodeKind {
    File,
    Directory,
}

/// The fields of a disk inode the directory operations read and write.
#[derive(PartialEq, Eq, Structural, Clone, Copy, Debug)]
pub struct InodeMeta {
    pub kind: InodeKind,
    pub nlink: u32,
}

/// Why `linkat` or `unlinkat` refused.
#[derive(PartialEq, Eq, Structural, Clone, Copy, Debug)]
pub enum FsError {
    /// `linkat` was asked to link a path to itself.
    SamePath,
    /// `linkat`'s old path names nothing.
    OldPathNotFound,
    /// `unlinkat`'s path names nothing.
    PathNotFound,
}

impl FsError {
    /// The message the error is reported with.
    pub fn message(&self) -> (m: &'static str)
        ensures
            *self == FsError::SamePath ==> m@ == "linkat oldpath and newpath are the same"@,
            *self == FsError::OldPathNotFound ==> m@ == "linkat oldpath not found"@,
            *self == FsError::PathNotFound ==> m@ == "unlinkat path not found"@,
    {
        match self {
            FsError::SamePath => "linkat oldpath and newpath are the same",
            FsError::OldPathNotFound => "linkat oldpath not found",
            FsError::PathNotFound => "unlinkat path not found",
        }
    }
}

/// A directory entry: a name and the inode it names.
pub struct DirEntry {
    pub name: Vec<u8>,
    pub inode_id: u32,
}

/// The index of the first entry from `i` on whose name is `name`; -1 if none.
pub open spec fn find_from(e: Seq<(Seq<u8>, u32)>, name: Seq<u8>, i: int) -> int
    decreases e.len() - i,
{
    if i < 0 || i >= e.len() {
        -1
    } else if e[i].0 == name {
        i
    } else {
        find_from(e, name, i + 1)
    }
}

/// The index of the first entry named `name`; -1 if none.
pub open spec fn first_match(e: Seq<(Seq<u8>, u32)>, name: Seq<u8>) -> int {
    find_from(e, name, 0)
}

/// Number of entries that name inode `id`.
pub open spec fn link_count(e: Seq<(Seq<u8>, u32)>, id: u32) -> int
    decreases e.len(),
{
    if e.len() == 0 {
        0
    } else {
        link_count(e.drop_last(), id) + (if e.last().1 == id {
            1int
        } else {
            0int
        })
    }
}

/// The root is an allocated directory, entries name allocated files, and
/// every allocated file's `nlink` is the number of entries that name it.
pub open spec fn fs_wf(e: Seq<(Seq<u8>, u32)>, inodes: Seq<Option<InodeMeta>>) -> bool {
    &&& 1 <= inodes.len() <= u32::MAX + 1
    &&& inodes[0] matches Some(root) && root.kind == InodeKind::Directory
    &&& forall|i: int|
        0 <= i < e.len() ==> {
            let id = (#[trigger] e[i]).1;
            &&& 1 <= id < inodes.len()
            &&& inodes[id as int] matches Some(m) && m.kind == InodeKind::File
        }
    &&& forall|id: int|
        1 <= id < inodes.len() && (#[trigger] inodes[id]) is Some ==> {
            &&& inodes[id]->0.kind == InodeKind::File
            &&& inodes[id]->0.nlink == link_count(e, id as u32)
        }
}

/// `id` is the lowest free inode id.
pub open spec fn is_lowest_free(inodes: Seq<Option<InodeMeta>>, id: int) -> bool {
    &&& 0 <= id < inodes.len()
    &&& inodes[id] is None
    &&& forall|k: int| 0 <= k < id ==> inodes[k] is Some
}

/// The inode table after unlinking one name of inode `id`: one link fewer,
/// never below zero, and freed when none is left.
pub open spec fn after_unlink(inodes: Seq<Option<InodeMeta>>, id: int) -> Seq<Option<InodeMeta>> {
    let m = inodes[id]->0;
    let n = if m.nlink > 0 {
        (m.nlink - 1) as u32
    } else {
        0u32
    };
    if n == 0 {
        inodes.update(id, None)
    } else {
        inodes.update(id, Some(InodeMeta { kind: m.kind, nlink: n }))
    }
}

proof fn lemma_link_count_push(e: Seq<(Seq<u8>, u32)>, x: (Seq<u8>, u32), id: u32)
    ensures
        link_count(e.push(x), id) == link_count(e, id) + (if x.1 == id {
            1int
        } else {
            0int
        }),
{
    assert(e.push(x).drop_last() =~= e);
}

proof fn lemma_link_count_remove(e: Seq<(Seq<u8>, u32)>, i: int, id: u32)
    requires
        0 <= i < e.len(),
    ensures
        link_count(e.remove(i), id) == link_count(e, id) - (if e[i].1 == id {
            1int
        } else {
            0int
        }),
    decreases e.len(),
{
    if i == e.len() - 1 {
        assert(e.remove(i) =~= e.drop_last());
    } else {
        lemma_link_count_remove(e.drop_last(), i, id);
        assert(e.remove(i).drop_last() =~= e.drop_last().remove(i));
        assert(e.remove(i).last() == e.last());
    }
}

proof fn lemma_find_from_found(e: Seq<(Seq<u8>, u32)>, name: Seq<u8>, i: int)
    requires
        0 <= i <= e.len(),
        find_from(e, name, i) != -1,
    ensures
        i <= find_from(e, name, i) < e.len(),
        e[find_from(e, name, i)].0 == name,
        forall|k: int| i <= k < find_from(e, name, i) ==> e[k].0 != name,
    decreases e.len() - i,
{
    if i < e.len() && e[i].0 != name {
        lemma_find_from_found(e, name, i + 1);
    }
}

proof fn lemma_find_from_none(e: Seq<(Seq<u8>, u32)>, name: Seq<u8>, i: int)
    requires
        0 <= i <= e.len(),
        find_from(e, name, i) == -1,
    ensures
        forall|k: int| i <= k < e.len() ==> e[k].0 != name,
    decreases e.len() - i,
{
    if i < e.len() {
        lemma_find_from_none(e, name, i + 1);
    }
}

/// Whether two byte strings are equal.
fn bytes_eq(a: &Vec<u8>, b: &Vec<u8>) -> (eq: bool)
    ensures
        eq == (a@ == b@),
{
    if a.len() != b.len() {
        return false;
    }
    let mut i: usize = 0;
    while i < a.len()
        invariant
            i <= a.len(),
            a.len() == b.len(),
            forall|k: int| 0 <= k < i ==> a@[k] == b@[k],
        decreases a.len() - i,
    {
        if a[i] != b[i] {
            return false;
        }
        i = i + 1;
    }
    assert(a@ =~= b@);
    true
}

/// A copy of a byte string.
fn copy_bytes(a: &Vec<u8>) -> (c: Vec<u8>)
    ensures
        c@ == a@,
{
    let mut c: Vec<u8> = Vec::new();
    let mut i: usize = 0;
    while i < a.len()
        invariant
            i <= a.len(),
            c@ == a@.subrange(0, i as int),
        decreases a.len() - i,
    {
        c.push(a[i]);
        i = i + 1;
        assert(c@ =~= a@.subrange(0, i as int));
    }
    assert(a@.subrange(0, a.len() as int) =~= a@);
    c
}

/// How many bytes a read of `want` bytes from `offset` gets out of a file of
/// `size` bytes.
pub open spec fn read_len(size: int, offset: int, want: int) -> int {
    let end = if offset + want < size {
        offset + want
    } else {
        size
    };
    if offset >= end {
        0
    } else {
        end - offset
    }
}

/// File contents `old` after writing `buf` at `offset`: grown with zeros to
/// reach `offset + buf.len()` when shorter, and overwritten there.
pub open spec fn written(old: Seq<u8>, offset: int, buf: Seq<u8>) -> Seq<u8> {
    let end = offset + buf.len();
    let total = if end < old.len() {
        old.len() as int
    } else {
        end
    };
    Seq::new(
        total as nat,
        |k: int|
            if offset <= k < end {
                buf[k - offset]
            } else if k < old.len() {
                old[k]
            } else {
                0u8
            },
    )
}

/// Bytes in a block.
pub const BLOCK_SZ: u64 = 512;

/// Block pointers an index block holds.
pub const INODE_INDIRECT1_COUNT: u64 = 128;

/// Bytes in a directory entry.
pub const DIRENT_SZ: u64 = 32;

/// Data blocks a file of `size` bytes occupies.
pub open spec fn data_blocks(size: int) -> int {
    (size + BLOCK_SZ - 1) / (BLOCK_SZ as int)
}

/// Blocks a file of `size` bytes holds in all, when its inode has `direct`
/// direct pointers: its data blocks, the first-level index block once the
/// direct pointers run out, and the second-level index block with as many
/// first-level blocks under it as the rest needs.
pub open spec fn total_blocks(size: int, direct: int) -> int {
    let d = data_blocks(size);
    let bound = direct + INODE_INDIRECT1_COUNT;
    d + (if d > direct {
        1int
    } else {
        0int
    }) + (if d > bound {
        1 + (d - bound + INODE_INDIRECT1_COUNT - 1) / (INODE_INDIRECT1_COUNT as int)
    } else {
        0int
    })
}

/// A bigger file never holds fewer blocks.
pub proof fn lemma_total_blocks_mono(a: int, b: int, direct: int)
    requires
        0 <= a <= b,
        0 <= direct,
    ensures
        total_blocks(a, direct) <= total_blocks(b, direct),
{
    let da = data_blocks(a);
    let db = data_blocks(b);
    assert(da <= db) by (nonlinear_arith)
        requires
            da == (a + 511) / 512,
            db == (b + 511) / 512,
            a <= b,
    ;
    let bound = direct + 128;
    if db > bound && da > bound {
        assert((da - bound + 127) / 128 <= (db - bound + 127) / 128) by (nonlinear_arith)
            requires
                da <= db,
        ;
    }
    if db > bound && da <= bound {
        assert(0 <= (db - bound + 127) / 128) by (nonlinear_arith)
            requires
                db > bound,
        ;
    }
}

/// The number of blocks a file of `size` bytes holds, with `direct` direct pointers.
pub fn blocks_for(size: u64, direct: u64) -> (n: u64)
    requires
        size <= u32::MAX,
        direct <= u32::MAX,
    ensures
        n == total_blocks(size as int, direct as int),
        n <= size + 2,
{
    let d = (size + BLOCK_SZ - 1) / BLOCK_SZ;
    let bound = direct + INODE_INDIRECT1_COUNT;
    let mut n = d;
    if d > direct {
        n = n + 1;
    }
    if d > bound {
        n = n + 1 + (d - bound + INODE_INDIRECT1_COUNT - 1) / INODE_INDIRECT1_COUNT;
    }
    assert(n <= size + 2) by (nonlinear_arith)
        requires
            d == (size + 511) / 512,
            n <= d + 2 + (if d > bound { (d - bound + 127) / 128 } else { 0 }),
            bound >= 128,
    ;
    n
}

/// Blocks a write of `len` bytes at `offset` takes from the allocator: what
/// the file holds at its new size less what it holds now.
pub open spec fn write_growth(fs: FileSystem, id: int, offset: int, len: int) -> int {
    let size = fs.contents()[id].len() as int;
    let new_size = if offset + len < size {
        size
    } else {
        offset + len
    };
    total_blocks(new_size, fs.direct_count()) - total_blocks(size, fs.direct_count())
}

/// The root directory and the inode table of a volume.
pub struct FileSystem {
    root: Vec<DirEntry>,
    inodes: Vec<Option<InodeMeta>>,
    data: Vec<Vec<u8>>,
    free_blocks: u64,
    direct_count: u64,
}

impl FileSystem {
    /// Data blocks the block allocator still has.
    pub closed spec fn free_blocks(&self) -> int {
        self.free_blocks as int
    }

    /// Direct block pointers in an inode.
    pub closed spec fn direct_count(&self) -> int {
        self.direct_count as int
    }

    /// Blocks the root directory holds: one entry per name.
    pub open spec fn root_blocks(&self) -> int {
        total_blocks(self.entries().len() * DIRENT_SZ, self.direct_count())
    }

    /// Blocks the root directory needs to grow by one entry.
    pub open spec fn root_growth(&self) -> int {
        total_blocks((self.entries().len() + 1) * DIRENT_SZ, self.direct_count()) - self.root_blocks()
    }

    /// The root directory's entries, in order: names and inode ids.
    pub closed spec fn entries(&self) -> Seq<(Seq<u8>, u32)> {
        Seq::new(self.root@.len(), |i: int| (self.root@[i].name@, self.root@[i].inode_id))
    }

    /// The inode table by id: `None` for a free inode.
    pub closed spec fn inodes(&self) -> Seq<Option<InodeMeta>> {
        self.inodes@
    }

    /// The contents of each inode's file, by id.
    pub closed spec fn contents(&self) -> Seq<Seq<u8>> {
        Seq::new(self.data@.len(), |i: int| self.data@[i]@)
    }

    /// Inode `id` is an allocated directory.
    pub open spec fn is_directory(&self, id: u32) -> bool {
        &&& (id as int) < self.inodes().len()
        &&& self.inodes()[id as int] matches Some(m) && m.kind == InodeKind::Directory
    }

    /// The volume is consistent.
    pub open spec fn wf(&self) -> bool {
        &&& fs_wf(self.entries(), self.inodes())
        &&& self.contents().len() == self.inodes().len()
        &&& self.direct_count() <= u32::MAX
        &&& forall|k: int| 0 <= k < self.contents().len() ==> (#[trigger] self.contents()[k]).len() <= u32::MAX
    }

    /// A volume with room for `capacity` inodes, `free_blocks` free data
    /// blocks, and `direct_count` direct block pointers per inode: an empty
    /// root directory and every other inode free.
    pub fn new(capacity: usize, free_blocks: u64, direct_count: u64) -> (fs: Self)
        requires
            1 <= capacity <= u32::MAX + 1,
            direct_count <= u32::MAX,
        ensures
            fs.free_blocks() == free_blocks,
            fs.direct_count() == direct_count,
            fs.wf(),
            fs.entries() == Seq::<(Seq<u8>, u32)>::empty(),
            fs.inodes().len() == capacity,
            fs.inodes()[0] == Some(InodeMeta { kind: InodeKind::Directory, nlink: INITIAL_NLINK }),
            forall|k: int| 1 <= k < capacity ==> fs.inodes()[k] is None,
            forall|k: int| 0 <= k < capacity ==> fs.contents()[k] == Seq::<u8>::empty(),
    {
        let mut inodes: Vec<Option<InodeMeta>> = Vec::new();
        inodes.push(Some(InodeMeta { kind: InodeKind::Directory, nlink: INITIAL_NLINK }));
        let mut i: usize = 1;
        while i < capacity
            invariant
                1 <= i <= capacity,
                inodes@.len() == i,
                inodes@[0] == Some(InodeMeta { kind: InodeKind::Directory, nlink: INITIAL_NLINK }),
                forall|k: int| 1 <= k < i ==> inodes@[k] is None,
            decreases capacity - i,
        {
            inodes.push(None);
            i = i + 1;
        }
        let mut data: Vec<Vec<u8>> = Vec::new();
        let mut i: usize = 0;
        while i < capacity
            invariant
                i <= capacity,
                data@.len() == i,
                forall|k: int| 0 <= k < i ==> data@[k]@ == Seq::<u8>::empty(),
            decreases capacity - i,
        {
            data.push(Vec::new());
            i = i + 1;
        }
        let fs = FileSystem { root: Vec::new(), inodes, data, free_blocks, direct_count };
        assert(fs.entries() =~= Seq::<(Seq<u8>, u32)>::empty());
        fs
    }

    /// Takes the blocks the root directory needs to grow by one entry.
    fn take_root_growth(&mut self)
        requires
            (old(self).entries().len() + 1) * DIRENT_SZ <= u32::MAX,
            old(self).direct_count() <= u32::MAX,
            old(self).free_blocks() >= old(self).root_growth(),
        ensures
            final(self).free_blocks() == old(self).free_blocks() - old(self).root_growth(),
            final(self).root@ == old(self).root@,
            final(self).inodes@ == old(self).inodes@,
            final(self).data@ == old(self).data@,
            final(self).direct_count == old(self).direct_count,
    {
        let n = self.root.len() as u64;
        let before = blocks_for(n * DIRENT_SZ, self.direct_count);
        let after = blocks_for((n + 1) * DIRENT_SZ, self.direct_count);
        proof {
            assert(self.entries().len() == n);
            lemma_total_blocks_mono(n * 32, (n + 1) * 32, self.direct_count as int);
        }
        self.free_blocks = self.free_blocks - (after - before);
    }

    /// Index of the first entry named `name`, if any.
    fn find_index(&self, name: &Vec<u8>) -> (r: Option<usize>)
        ensures
            r is None <==> first_match(self.entries(), name@) == -1,
            r matches Some(i) ==> i == first_match(self.entries(), name@) && i < self.root@.len(),
    {
        let ghost e = self.entries();
        let mut i: usize = 0;
        while i < self.root.len()
            invariant
                e == self.entries(),
                i <= self.root.len(),
                find_from(e, name@, 0) == find_from(e, name@, i as int),
            decreases self.root.len() - i,
        {
            if bytes_eq(&self.root[i].name, name) {
                assert(e[i as int].0 == name@);
                return Some(i);
            }
            assert(e[i as int].0 != name@);
            i = i + 1;
        }
        None
    }

    /// The inode with id `id`: `None` when it is free or beyond the table.
    pub fn inode(&self, id: u32) -> (m: Option<InodeMeta>)
        ensures
            m == (if (id as int) < self.inodes().len() {
                self.inodes()[id as int]
            } else {
                None
            }),
    {
        if (id as usize) < self.inodes.len() {
            self.inodes[id as usize]
        } else {
            None
        }
    }

    /// Data blocks the block allocator still has.
    pub fn free_block_count(&self) -> (n: u64)
        ensures
            n == self.free_blocks(),
    {
        self.free_blocks
    }

    /// Direct block pointers in an inode.
    pub fn direct_pointer_count(&self) -> (n: u64)
        ensures
            n == self.direct_count(),
    {
        self.direct_count
    }

    /// Number of inodes the volume has room for.
    pub fn inode_capacity(&self) -> (n: usize)
        ensures
            n == self.inodes().len(),
    {
        self.inodes.len()
    }

    /// Number of entries in the root directory.
    pub fn entry_count(&self) -> (n: usize)
        ensures
            n == self.entries().len(),
    {
        self.root.len()
    }

    /// Whether some inode is free.
    pub fn has_free_inode(&self) -> (b: bool)
        ensures
            b == exists|k: int| 0 <= k < self.inodes().len() && self.inodes()[k] is None,
    {
        let mut i: usize = 0;
        while i < self.inodes.len()
            invariant
                i <= self.inodes@.len(),
                forall|k: int| 0 <= k < i ==> self.inodes@[k] is Some,
            decreases self.inodes.len() - i,
        {
            if self.inodes[i].is_none() {
                return true;
            }
            i = i + 1;
        }
        false
    }

}

/// A handle on an inode of the volume.
#[derive(PartialEq, Eq, Structural, Clone, Copy, Debug)]
pub struct Inode {
    pub id: u32,
}

impl Inode {
    /// The handle on inode `id`.
    pub fn new(id: u32) -> (inode: Inode)
        ensures
            inode.id == id,
    {
        Inode { id }
    }

    /// The inode's id.
    pub fn inode_id(&self) -> (id: u32)
        ensures
            id == self.id,
    {
        self.id
    }

    /// The inode the first entry named `name` in this directory names, if any.
    pub fn find(&self, fs: &FileSystem, name: &Vec<u8>) -> (r: Option<Inode>)
        requires
            fs.is_directory(self.id),
        ensures
            r is None <==> first_match(fs.entries(), name@) == -1,
            r matches Some(inode) ==> inode.id == fs.entries()[first_match(fs.entries(), name@)].1,
    {
        match fs.find_index(name) {
            Some(i) => Some(Inode { id: fs.root[i].inode_id }),
            None => None,
        }
    }

    /// Creates a file named `name` in this directory, in the lowest free
    /// inode, and returns that inode; `None`, changing nothing, when the name
    /// is taken.
    pub fn create(&self, fs: &mut FileSystem, name: Vec<u8>) -> (r: Option<Inode>)
        requires
            old(fs).wf(),
            old(fs).is_directory(self.id),
            first_match(old(fs).entries(), name@) == -1 ==> exists|k: int|
                0 <= k < old(fs).inodes().len() && old(fs).inodes()[k] is None,
            first_match(old(fs).entries(), name@) == -1 ==> (old(fs).entries().len() + 1) * DIRENT_SZ
                <= u32::MAX,
            first_match(old(fs).entries(), name@) == -1 ==> old(fs).free_blocks() >= old(fs).root_growth(),
        ensures
            final(fs).wf(),
            final(fs).direct_count() == old(fs).direct_count(),
            final(fs).free_blocks() == old(fs).free_blocks() - (if first_match(old(fs).entries(), name@)
                == -1 {
                old(fs).root_growth()
            } else {
                0
            }),
            first_match(old(fs).entries(), name@) != -1 ==> r is None && final(fs).entries()
                == old(fs).entries() && final(fs).inodes() == old(fs).inodes(),
            first_match(old(fs).entries(), name@) == -1 ==> {
                &&& r matches Some(inode)
                &&& is_lowest_free(old(fs).inodes(), inode.id as int)
                &&& final(fs).inodes() == old(fs).inodes().update(
                    inode.id as int,
                    Some(InodeMeta { kind: InodeKind::File, nlink: INITIAL_NLINK }),
                )
                &&& final(fs).entries() == old(fs).entries().push((name@, inode.id))
                &&& final(fs).contents() == old(fs).contents().update(inode.id as int, Seq::<u8>::empty())
            },
            first_match(old(fs).entries(), name@) != -1 ==> final(fs).contents() == old(fs).contents(),
    {
        if fs.find_index(&name).is_some() {
            return None;
        }
        fs.take_root_growth();
        let ghost e = fs.entries();
        let ghost old_inodes = fs.inodes@;
        let len = fs.inodes.len();
        let mut id: usize = 0;
        while id < len
            invariant
                len == fs.inodes@.len(),
                id <= len,
                fs.inodes@ == old_inodes,
                forall|k: int| 0 <= k < id ==> fs.inodes@[k] is Some,
            ensures
                id <= len,
                forall|k: int| 0 <= k < id ==> fs.inodes@[k] is Some,
                id < len ==> fs.inodes@[id as int] is None,
            decreases len - id,
        {
            if fs.inodes[id].is_none() {
                break;
            }
            id = id + 1;
        }
        assert(id < len);
        let meta = InodeMeta { kind: InodeKind::File, nlink: INITIAL_NLINK };
        fs.inodes.set(id, Some(meta));
        let ghost old_data = fs.contents();
        fs.data.set(id, Vec::new());
        proof {
            assert(fs.contents() =~= old_data.update(id as int, Seq::<u8>::empty()));
        }
        let ghost name_v = name@;
        let new_id = id as u32;
        fs.root.push(DirEntry { name, inode_id: new_id });
        proof {
            let ne = fs.entries();
            assert(ne =~= e.push((name_v, new_id)));
            lemma_find_from_none(e, name_v, 0);
            assert(id != 0);
            assert forall|k: int| 1 <= k < fs.inodes@.len() && (#[trigger] fs.inodes@[k]) is Some implies {
                &&& fs.inodes@[k]->0.kind == InodeKind::File
                &&& fs.inodes@[k]->0.nlink == link_count(ne, k as u32)
            } by {
                lemma_link_count_push(e, (name_v, new_id), k as u32);
                if k != id {
                    assert(old_inodes[k] is Some);
                } else {
                    assert(link_count(e, new_id) == 0) by {
                        lemma_link_count_absent(e, new_id, old_inodes);
                    }
                }
            }
        }
        Some(Inode { id: new_id })
    }

    /// Gives the file named `oldpath` in this directory one more name,
    /// `newpath`, and returns its inode. Refused with `SamePath` when the two paths are equal and
    /// with `OldPathNotFound` when `oldpath` names nothing; nothing changes then.
    pub fn linkat(&self, fs: &mut FileSystem, oldpath: &Vec<u8>, newpath: Vec<u8>) -> (r: Result<Inode, FsError>)
        requires
            old(fs).wf(),
            oldpath@ != newpath@ ==> old(fs).is_directory(self.id),
            old(fs).entries().len() < u32::MAX,
            oldpath@ != newpath@ && first_match(old(fs).entries(), oldpath@) != -1 ==> (old(fs).entries().len()
                + 1) * DIRENT_SZ <= u32::MAX,
            oldpath@ != newpath@ && first_match(old(fs).entries(), oldpath@) != -1
                ==> old(fs).free_blocks() >= old(fs).root_growth(),
        ensures
            final(fs).wf(),
            final(fs).direct_count() == old(fs).direct_count(),
            final(fs).free_blocks() == old(fs).free_blocks() - (if oldpath@ != newpath@ && first_match(
                old(fs).entries(),
                oldpath@,
            ) != -1 {
                old(fs).root_growth()
            } else {
                0
            }),
            final(fs).contents() == old(fs).contents(),
            oldpath@ == newpath@ ==> r == Err::<Inode, FsError>(FsError::SamePath),
            oldpath@ != newpath@ && first_match(old(fs).entries(), oldpath@) == -1 ==> r == Err::<
                Inode,
                FsError,
            >(FsError::OldPathNotFound),
            r is Err ==> final(fs).entries() == old(fs).entries() && final(fs).inodes()
                == old(fs).inodes(),
            oldpath@ != newpath@ && first_match(old(fs).entries(), oldpath@) != -1 ==> {
                let id = old(fs).entries()[first_match(old(fs).entries(), oldpath@)].1;
                let m = old(fs).inodes()[id as int]->0;
                &&& r == Ok::<Inode, FsError>((Inode { id }))
                &&& final(fs).inodes() == old(fs).inodes().update(
                    id as int,
                    Some(InodeMeta { kind: m.kind, nlink: (m.nlink + 1) as u32 }),
                )
                &&& final(fs).entries() == old(fs).entries().push((newpath@, id))
            },
    {
        if bytes_eq(oldpath, &newpath) {
            return Err(FsError::SamePath);
        }
        let idx = match fs.find_index(oldpath) {
            Some(i) => i,
            None => {
                return Err(FsError::OldPathNotFound);
            },
        };
        fs.take_root_growth();
        let ghost e = fs.entries();
        let ghost old_inodes = fs.inodes@;
        let id = fs.root[idx].inode_id;
        proof {
            lemma_find_from_found(e, oldpath@, 0);
            assert(e[idx as int].1 == id);
            lemma_link_count_bound(e, id);
        }
        let m = fs.inodes[id as usize].unwrap();
        let ghost name_v = newpath@;
        fs.inodes.set(id as usize, Some(InodeMeta { kind: m.kind, nlink: m.nlink + 1 }));
        fs.root.push(DirEntry { name: newpath, inode_id: id });
        proof {
            let ne = fs.entries();
            assert(ne =~= e.push((name_v, id)));
            assert forall|k: int| 1 <= k < fs.inodes@.len() && (#[trigger] fs.inodes@[k]) is Some implies {
                &&& fs.inodes@[k]->0.kind == InodeKind::File
                &&& fs.inodes@[k]->0.nlink == link_count(ne, k as u32)
            } by {
                lemma_link_count_push(e, (name_v, id), k as u32);
                assert(old_inodes[k] is Some);
            }
        }
        Ok(Inode { id })
    }

    /// Removes the first entry named `path` from this directory; the inode it names loses a link
    /// and is freed when none is left. Refused with `PathNotFound`, changing
    /// nothing, when `path` names nothing.
    pub fn unlinkat(&self, fs: &mut FileSystem, path: &Vec<u8>) -> (r: Result<(), FsError>)
        requires
            old(fs).wf(),
            old(fs).is_directory(self.id),
        ensures
            final(fs).wf(),
            final(fs).contents() == old(fs).contents(),
            final(fs).free_blocks() == old(fs).free_blocks(),
            final(fs).direct_count() == old(fs).direct_count(),
            first_match(old(fs).entries(), path@) == -1 ==> r == Err::<(), FsError>(FsError::PathNotFound)
                && final(fs).entries() == old(fs).entries() && final(fs).inodes()
                == old(fs).inodes(),
            first_match(old(fs).entries(), path@) != -1 ==> {
                let idx = first_match(old(fs).entries(), path@);
                let id = old(fs).entries()[idx].1;
                &&& r == Ok::<(), FsError>(())
                &&& final(fs).inodes() == after_unlink(old(fs).inodes(), id as int)
                &&& final(fs).entries() == old(fs).entries().remove(idx)
            },
    {
        let idx = match fs.find_index(path) {
            Some(i) => i,
            None => {
                return Err(FsError::PathNotFound);
            },
        };
        let ghost e = fs.entries();
        let ghost old_inodes = fs.inodes@;
        let id = fs.root[idx].inode_id;
        proof {
            lemma_find_from_found(e, path@, 0);
            assert(e[idx as int].1 == id);
        }
        let m = fs.inodes[id as usize].unwrap();
        let mut nlink = m.nlink;
        if nlink > 0 {
            nlink = nlink - 1;
        }
        if nlink == 0 {
            fs.inodes.set(id as usize, None);
        } else {
            fs.inodes.set(id as usize, Some(InodeMeta { kind: m.kind, nlink }));
        }
        fs.root.remove(idx);
        proof {
            let ne = fs.entries();
            assert(ne =~= e.remove(idx as int));
            assert(fs.inodes@ =~= after_unlink(old_inodes, id as int));
            assert forall|i: int| 0 <= i < ne.len() implies {
                let eid = (#[trigger] ne[i]).1;
                &&& 1 <= eid < fs.inodes@.len()
                &&& fs.inodes@[eid as int] matches Some(mm) && mm.kind == InodeKind::File
            } by {
                let j = if i < idx { i } else { i + 1 };
                assert(ne[i] == e[j]);
                if e[j].1 == id && nlink == 0 {
                    // The inode had one link, the removed entry: no other entry names it.
                    lemma_link_count_remove(e, idx as int, id);
                    lemma_link_count_positive(ne, i, id);
                    assert(false);
                }
            }
            assert forall|k: int| 1 <= k < fs.inodes@.len() && (#[trigger] fs.inodes@[k]) is Some implies {
                &&& fs.inodes@[k]->0.kind == InodeKind::File
                &&& fs.inodes@[k]->0.nlink == link_count(ne, k as u32)
            } by {
                lemma_link_count_remove(e, idx as int, k as u32);
                assert(old_inodes[k] is Some);
                if k == id {
                    lemma_link_count_positive(e, idx as int, id);
                }
            }
        }
        Ok(())
    }

    /// The names in this directory, in order.
    pub fn ls(&self, fs: &FileSystem) -> (names: Vec<Vec<u8>>)
        requires
            fs.is_directory(self.id),
        ensures
            names@.len() == fs.entries().len(),
            forall|i: int| 0 <= i < names@.len() ==> (#[trigger] names@[i])@ == fs.entries()[i].0,
    {
        let mut names: Vec<Vec<u8>> = Vec::new();
        let mut i: usize = 0;
        while i < fs.root.len()
            invariant
                i <= fs.root.len(),
                names@.len() == i,
                forall|k: int| 0 <= k < i ==> (#[trigger] names@[k])@ == fs.entries()[k].0,
            decreases fs.root.len() - i,
        {
            names.push(copy_bytes(&fs.root[i].name));
            i = i + 1;
        }
        names
    }

    /// The number of names of this inode. A free inode reads as having none:
    /// it was freed when its last name went, or it was never used.
    pub fn nlink(&self, fs: &FileSystem) -> (n: u32)
        requires
            (self.id as int) < fs.inodes().len(),
        ensures
            n == (match fs.inodes()[self.id as int] {
                Some(m) => m.nlink,
                None => 0u32,
            }),
    {
        match fs.inodes[self.id as usize] {
            Some(m) => m.nlink,
            None => 0,
        }
    }

    /// Whether this inode is a file. A free inode reads as a file: it was a
    /// file when freed (only files lose their names), or it was never used
    /// and is zeroed, which is the file kind.
    pub fn is_file(&self, fs: &FileSystem) -> (b: bool)
        requires
            (self.id as int) < fs.inodes().len(),
        ensures
            b == (match fs.inodes()[self.id as int] {
                Some(m) => m.kind == InodeKind::File,
                None => true,
            }),
    {
        match fs.inodes[self.id as usize] {
            Some(m) => match m.kind {
                InodeKind::File => true,
                InodeKind::Directory => false,
            },
            None => true,
        }
    }

    /// The size of this file in bytes.
    pub fn size(&self, fs: &FileSystem) -> (n: usize)
        requires
            fs.wf(),
            (self.id as int) < fs.inodes().len(),
        ensures
            n == fs.contents()[self.id as int].len(),
    {
        let n = fs.data[self.id as usize].len();
        assert(fs.data@[self.id as int]@ == fs.contents()[self.id as int]);
        n
    }

    /// Reads from byte `offset` of this file into `buf`, as many bytes as fit
    /// and the file has; returns how many.
    pub fn read_at(&self, fs: &FileSystem, offset: usize, buf: &mut [u8]) -> (n: usize)
        requires
            fs.wf(),
            (self.id as int) < fs.inodes().len(),
            !fs.is_directory(self.id),
            offset + old(buf)@.len() <= usize::MAX,
        ensures
            n == read_len(fs.contents()[self.id as int].len() as int, offset as int, old(buf)@.len() as int),
            n <= old(buf)@.len(),
            offset + n <= fs.contents()[self.id as int].len() || n == 0,
            n < old(buf)@.len() ==> offset + n >= fs.contents()[self.id as int].len(),
            final(buf)@.len() == old(buf)@.len(),
            forall|q: int| 0 <= q < n ==> final(buf)@[q] == fs.contents()[self.id as int][offset + q],
            forall|q: int| n <= q < final(buf)@.len() ==> final(buf)@[q] == old(buf)@[q],
    {
        let data = &fs.data[self.id as usize];
        assert(data@ == fs.contents()[self.id as int]);
        let end_want = offset + buf.len();
        let end = if end_want < data.len() {
            end_want
        } else {
            data.len()
        };
        if offset >= end {
            return 0;
        }
        let n = end - offset;
        let ghost before = buf@;
        let mut k: usize = 0;
        while k < n
            invariant
                k <= n,
                n == end - offset,
                end <= data@.len(),
                offset < end,
                n <= before.len(),
                buf@.len() == before.len(),
                forall|q: int| 0 <= q < k ==> buf@[q] == data@[offset + q],
                forall|q: int| k <= q < buf@.len() ==> buf@[q] == before[q],
            decreases n - k,
        {
            buf[k] = data[offset + k];
            k = k + 1;
        }
        n
    }

    /// Writes `buf` at byte `offset` of this file, growing the file (with
    /// zeros up to `offset`) when it is shorter; returns the number of bytes
    /// written, all of `buf`.
    pub fn write_at(&self, fs: &mut FileSystem, offset: usize, buf: &[u8]) -> (n: usize)
        requires
            old(fs).wf(),
            (self.id as int) < old(fs).inodes().len(),
            !old(fs).is_directory(self.id),
            offset + buf@.len() <= u32::MAX,
            old(fs).free_blocks() >= write_growth(*old(fs), self.id as int, offset as int, buf@.len() as int),
        ensures
            final(fs).wf(),
            n == buf@.len(),
            final(fs).direct_count() == old(fs).direct_count(),
            final(fs).free_blocks() == old(fs).free_blocks() - write_growth(
                *old(fs),
                self.id as int,
                offset as int,
                buf@.len() as int,
            ),
            final(fs).entries() == old(fs).entries(),
            final(fs).inodes() == old(fs).inodes(),
            final(fs).contents() == old(fs).contents().update(
                self.id as int,
                written(old(fs).contents()[self.id as int], offset as int, buf@),
            ),
            final(fs).contents()[self.id as int].len() == (if old(fs).contents()[self.id as int].len()
                > offset + buf@.len() {
                old(fs).contents()[self.id as int].len() as int
            } else {
                offset + buf@.len()
            }),
            forall|q: int|
                0 <= q < buf@.len() ==> #[trigger] final(fs).contents()[self.id as int][offset + q] == buf@[q],
            forall|k: int|
                0 <= k < old(fs).contents()[self.id as int].len() && !(offset <= k < offset + buf@.len())
                    ==> #[trigger] final(fs).contents()[self.id as int][k] == old(fs).contents()[self.id as int][k],
    {
        proof {
            lemma_write_keeps_the_rest(fs.contents()[self.id as int], offset as int, buf@);
        }
        let id = self.id as usize;
        let ghost old_contents = fs.contents();
        let data = &fs.data[id];
        assert(data@ == old_contents[id as int]);
        let end = offset + buf.len();
        let total = if end < data.len() {
            data.len()
        } else {
            end
        };
        let mut nd: Vec<u8> = Vec::new();
        let mut k: usize = 0;
        while k < total
            invariant
                k <= total,
                total == (if end < data@.len() { data@.len() as int } else { end as int }),
                end == offset + buf@.len(),
                nd@.len() == k,
                forall|q: int| 0 <= q < k ==> nd@[q] == written(data@, offset as int, buf@)[q],
            decreases total - k,
        {
            let b = if offset <= k && k < end {
                buf[k - offset]
            } else if k < data.len() {
                data[k]
            } else {
                0u8
            };
            nd.push(b);
            k = k + 1;
        }
        assert(nd@ =~= written(data@, offset as int, buf@));
        let old_size = data.len() as u64;
        let new_size = total as u64;
        let before = blocks_for(old_size, fs.direct_count);
        let after = blocks_for(new_size, fs.direct_count);
        proof {
            lemma_total_blocks_mono(old_size as int, new_size as int, fs.direct_count as int);
        }
        fs.free_blocks = fs.free_blocks - (after - before);
        fs.data.set(id, nd);
        proof {
            assert(fs.contents() =~= old_contents.update(id as int, written(old_contents[id as int], offset as int, buf@)));
        }
        buf.len()
    }

    /// Empties this file.
    pub fn clear(&self, fs: &mut FileSystem)
        requires
            old(fs).wf(),
            (self.id as int) < old(fs).inodes().len(),
            !old(fs).is_directory(self.id),
            old(fs).free_blocks() + total_blocks(
                old(fs).contents()[self.id as int].len() as int,
                old(fs).direct_count(),
            ) <= u64::MAX,
        ensures
            final(fs).wf(),
            final(fs).entries() == old(fs).entries(),
            final(fs).inodes() == old(fs).inodes(),
            final(fs).contents() == old(fs).contents().update(self.id as int, Seq::<u8>::empty()),
            final(fs).direct_count() == old(fs).direct_count(),
            final(fs).free_blocks() == old(fs).free_blocks() + total_blocks(
                old(fs).contents()[self.id as int].len() as int,
                old(fs).direct_count(),
            ),
    {
        let ghost old_contents = fs.contents();
        let size = fs.data[self.id as usize].len() as u64;
        assert(fs.data@[self.id as int]@ == old_contents[self.id as int]);
        let freed = blocks_for(size, fs.direct_count);
        fs.free_blocks = fs.free_blocks + freed;
        fs.data.set(self.id as usize, Vec::new());
        proof {
            assert(fs.contents() =~= old_contents.update(self.id as int, Seq::<u8>::empty()));
        }
    }
}

proof fn lemma_link_count_absent(e: Seq<(Seq<u8>, u32)>, id: u32, inodes: Seq<Option<InodeMeta>>)
    requires
        forall|i: int| 0 <= i < e.len() ==> {
            let x = (#[trigger] e[i]).1;
            &&& 1 <= x < inodes.len()
            &&& inodes[x as int] matches Some(m) && m.kind == InodeKind::File
        },
        (id as int) < inodes.len(),
        inodes[id as int] is None,
    ensures
        link_count(e, id) == 0,
    decreases e.len(),
{
    if e.len() > 0 {
        assert(e.drop_last().len() == e.len() - 1);
        assert forall|i: int| 0 <= i < e.drop_last().len() implies {
            let x = (#[trigger] e.drop_last()[i]).1;
            &&& 1 <= x < inodes.len()
            &&& inodes[x as int] matches Some(m) && m.kind == InodeKind::File
        } by {
            assert(e.drop_last()[i] == e[i]);
        }
        lemma_link_count_absent(e.drop_last(), id, inodes);
        assert(e.last() == e[e.len() - 1]);
    }
}

proof fn lemma_link_count_positive(e: Seq<(Seq<u8>, u32)>, i: int, id: u32)
    requires
        0 <= i < e.len(),
        e[i].1 == id,
    ensures
        link_count(e, id) >= 1,
    decreases e.len(),
{
    lemma_link_count_nonneg(e.drop_last(), id);
    if i < e.len() - 1 {
        assert(e.drop_last()[i] == e[i]);
        lemma_link_count_positive(e.drop_last(), i, id);
    }
}

proof fn lemma_link_count_nonneg(e: Seq<(Seq<u8>, u32)>, id: u32)
    ensures
        link_count(e, id) >= 0,
    decreases e.len(),
{
    if e.len() > 0 {
        lemma_link_count_nonneg(e.drop_last(), id);
    }
}

proof fn lemma_link_count_bound(e: Seq<(Seq<u8>, u32)>, id: u32)
    ensures
        link_count(e, id) <= e.len(),
    decreases e.len(),
{
    if e.len() > 0 {
        lemma_link_count_bound(e.drop_last(), id);
    }
}

/// A name that was free and is then created is found again, naming the new inode.
pub proof fn lemma_create_then_find(e: Seq<(Seq<u8>, u32)>, name: Seq<u8>, id: u32)
    requires
        first_match(e, name) == -1,
    ensures
        first_match(e.push((name, id)), name) == e.len(),
        e.push((name, id))[e.len() as int].1 == id,
{
    lemma_find_from_none(e, name, 0);
    lemma_find_from_skip(e.push((name, id)), name, 0, e.len() as int);
}

/// Linking a file under a fresh name and then unlinking that name leaves the
/// directory and the inode table as they were.
pub proof fn lemma_link_then_unlink_restores(
    e: Seq<(Seq<u8>, u32)>,
    inodes: Seq<Option<InodeMeta>>,
    oldpath: Seq<u8>,
    newpath: Seq<u8>,
)
    requires
        fs_wf(e, inodes),
        first_match(e, oldpath) != -1,
        first_match(e, newpath) == -1,
        inodes[e[first_match(e, oldpath)].1 as int]->0.nlink < u32::MAX,
    ensures
        ({
            let id = e[first_match(e, oldpath)].1;
            let m = inodes[id as int]->0;
            let linked = inodes.update(id as int, Some(InodeMeta { kind: m.kind, nlink: (m.nlink + 1) as u32 }));
            let e1 = e.push((newpath, id));
            &&& first_match(e1, newpath) == e.len()
            &&& e1.remove(first_match(e1, newpath)) == e
            &&& after_unlink(linked, id as int) == inodes
        }),
{
    let i = first_match(e, oldpath);
    lemma_find_from_found(e, oldpath, 0);
    let id = e[i].1;
    lemma_create_then_find(e, newpath, id);
    let e1 = e.push((newpath, id));
    assert(e1.remove(e.len() as int) =~= e);
    assert(inodes[id as int] is Some);
    lemma_link_count_positive(e, i, id);
    let m = inodes[id as int]->0;
    let linked = inodes.update(id as int, Some(InodeMeta { kind: m.kind, nlink: (m.nlink + 1) as u32 }));
    assert(after_unlink(linked, id as int) =~= inodes);
}

/// Unlinking a file's only name frees its inode, and no entry names it any more.
pub proof fn lemma_unlink_last_name_frees(e: Seq<(Seq<u8>, u32)>, inodes: Seq<Option<InodeMeta>>, path: Seq<u8>)
    requires
        fs_wf(e, inodes),
        first_match(e, path) != -1,
        inodes[e[first_match(e, path)].1 as int]->0.nlink == 1,
    ensures
        ({
            let idx = first_match(e, path);
            let id = e[idx].1;
            &&& after_unlink(inodes, id as int)[id as int] is None
            &&& link_count(e.remove(idx), id) == 0
        }),
{
    let idx = first_match(e, path);
    lemma_find_from_found(e, path, 0);
    let id = e[idx].1;
    lemma_link_count_remove(e, idx, id);
}

/// A read gets every byte from `offset` up to the end of the file that fits
/// in the buffer: the smaller of the buffer's length and what lies past
/// `offset`, and nothing when `offset` is at or past the end.
pub proof fn lemma_read_len_is_what_fits(size: int, offset: int, want: int)
    requires
        0 <= size,
        0 <= offset,
        0 <= want,
    ensures
        offset >= size ==> read_len(size, offset, want) == 0,
        offset < size && want <= size - offset ==> read_len(size, offset, want) == want,
        offset < size && want > size - offset ==> read_len(size, offset, want) == size - offset,
{
}

/// A write never shrinks a file: its length becomes the larger of the old
/// length and the write's end; the written bytes land at `offset`, every old
/// byte outside them keeps its value, and a gap between the old end and
/// `offset` reads as zeros.
pub proof fn lemma_write_keeps_the_rest(old: Seq<u8>, offset: int, buf: Seq<u8>)
    requires
        0 <= offset,
    ensures
        written(old, offset, buf).len() == (if old.len() > offset + buf.len() {
            old.len() as int
        } else {
            offset + buf.len()
        }),
        forall|q: int| 0 <= q < buf.len() ==> #[trigger] written(old, offset, buf)[offset + q] == buf[q],
        forall|k: int|
            0 <= k < old.len() && !(offset <= k < offset + buf.len()) ==> #[trigger] written(
                old,
                offset,
                buf,
            )[k] == old[k],
        forall|k: int|
            old.len() <= k < offset ==> #[trigger] written(old, offset, buf)[k] == 0u8,
{
}

/// A file with no contents, as a newly created or cleared one, reads nothing back.
pub proof fn lemma_empty_file_reads_nothing(offset: int, want: int)
    requires
        0 <= offset,
        0 <= want,
    ensures
        read_len(0, offset, want) == 0,
{
}

/// Reading back what was just written at the same offset gets all of it, byte for byte.
pub proof fn lemma_read_after_write(old: Seq<u8>, offset: int, buf: Seq<u8>)
    requires
        0 <= offset,
    ensures
        read_len(written(old, offset, buf).len() as int, offset, buf.len() as int) == buf.len(),
        forall|q: int| 0 <= q < buf.len() ==> #[trigger] written(old, offset, buf)[offset + q] == buf[q],
{
}

proof fn lemma_find_from_skip(e: Seq<(Seq<u8>, u32)>, name: Seq<u8>, i: int, j: int)
    requires
        0 <= i <= j < e.len(),
        forall|k: int| i <= k < j ==> e[k].0 != name,
        e[j].0 == name,
    ensures
        find_from(e, name, i) == j,
    decreases j - i,
{
    if i < j {
        lemma_find_from_skip(e, name, i + 1, j);
    }
}

} // verus!
