use rcore_kernel::vfs::{blocks_for, FileSystem, FsError, Inode, InodeKind, InodeMeta, INITIAL_NLINK};

fn name(s: &str) -> Vec<u8> {
    s.as_bytes().to_vec()
}

fn root() -> Inode {
    Inode::new(0)
}

#[test]
fn a_new_volume_has_an_empty_root() {
    let fs = FileSystem::new(4, 1000, 28);
    assert_eq!(fs.inode(0), Some(InodeMeta { kind: InodeKind::Directory, nlink: INITIAL_NLINK }));
    assert_eq!(fs.inode(1), None);
    assert_eq!(fs.inode(9), None);
    assert_eq!(fs.entry_count(), 0);
    assert!(fs.has_free_inode());
    assert!(root().ls(&fs).is_empty());
    assert!(!root().is_file(&fs));
    assert_eq!(root().inode_id(), 0);
}

#[test]
fn create_takes_the_lowest_free_inode() {
    let mut fs = FileSystem::new(8, 1000, 28);
    assert_eq!(root().create(&mut fs, name("a")), Some(Inode::new(1)));
    assert_eq!(root().create(&mut fs, name("b")), Some(Inode::new(2)));
    assert_eq!(root().create(&mut fs, name("a")), None);
    assert_eq!(root().find(&fs, &name("b")), Some(Inode::new(2)));
    assert_eq!(root().find(&fs, &name("c")), None);
    assert_eq!(Inode::new(1).nlink(&fs), 1);
    assert!(Inode::new(1).is_file(&fs));
}

#[test]
fn create_fills_the_last_free_inode() {
    let mut fs = FileSystem::new(2, 1000, 28);
    assert_eq!(root().create(&mut fs, name("a")), Some(Inode::new(1)));
    assert!(!fs.has_free_inode());
    // A taken name needs no free inode.
    assert_eq!(root().create(&mut fs, name("a")), None);
}

#[test]
fn link_adds_a_name_and_a_link() {
    let mut fs = FileSystem::new(8, 1000, 28);
    root().create(&mut fs, name("a"));
    assert_eq!(root().linkat(&mut fs, &name("a"), name("b")), Ok(Inode::new(1)));
    assert_eq!(Inode::new(1).nlink(&fs), 2);
    assert_eq!(root().find(&fs, &name("b")), Some(Inode::new(1)));
    assert_eq!(root().ls(&fs), vec![name("a"), name("b")]);
}

#[test]
fn link_refuses_same_path_and_missing_path() {
    let mut fs = FileSystem::new(8, 1000, 28);
    root().create(&mut fs, name("a"));
    assert_eq!(root().linkat(&mut fs, &name("a"), name("a")), Err(FsError::SamePath));
    assert_eq!(root().linkat(&mut fs, &name("x"), name("y")), Err(FsError::OldPathNotFound));
    assert_eq!(root().ls(&fs), vec![name("a")]);
    assert_eq!(Inode::new(1).nlink(&fs), 1);
}

#[test]
fn unlink_drops_a_link_and_frees_at_zero() {
    let mut fs = FileSystem::new(8, 1000, 28);
    root().create(&mut fs, name("a"));
    root().linkat(&mut fs, &name("a"), name("b")).unwrap();
    assert_eq!(root().unlinkat(&mut fs, &name("a")), Ok(()));
    assert_eq!(Inode::new(1).nlink(&fs), 1);
    assert_eq!(root().ls(&fs), vec![name("b")]);
    assert_eq!(root().unlinkat(&mut fs, &name("b")), Ok(()));
    assert!(root().ls(&fs).is_empty());
    assert_eq!(fs.inode(1), None);
    // The freed inode is handed out again.
    assert_eq!(root().create(&mut fs, name("c")), Some(Inode::new(1)));
}

#[test]
fn unlink_refuses_a_missing_path() {
    let mut fs = FileSystem::new(4, 1000, 28);
    assert_eq!(root().unlinkat(&mut fs, &name("a")), Err(FsError::PathNotFound));
}

#[test]
fn link_then_unlink_restores() {
    let mut fs = FileSystem::new(4, 1000, 28);
    root().create(&mut fs, name("a"));
    root().linkat(&mut fs, &name("a"), name("b")).unwrap();
    root().unlinkat(&mut fs, &name("b")).unwrap();
    assert_eq!(root().ls(&fs), vec![name("a")]);
    assert_eq!(Inode::new(1).nlink(&fs), 1);
}

#[test]
fn unlink_removes_the_first_of_equal_names() {
    let mut fs = FileSystem::new(4, 1000, 28);
    root().create(&mut fs, name("a"));
    root().create(&mut fs, name("b"));
    // Linking under a name that exists adds a second entry with that name.
    root().linkat(&mut fs, &name("a"), name("b")).unwrap();
    assert_eq!(root().ls(&fs), vec![name("a"), name("b"), name("b")]);
    root().unlinkat(&mut fs, &name("b")).unwrap();
    assert_eq!(root().find(&fs, &name("b")), Some(Inode::new(1)));
    assert_eq!(Inode::new(1).nlink(&fs), 2);
    assert_eq!(fs.inode(2), None);
}

#[test]
fn error_messages() {
    assert_eq!(FsError::SamePath.message(), "linkat oldpath and newpath are the same");
    assert_eq!(FsError::OldPathNotFound.message(), "linkat oldpath not found");
    assert_eq!(FsError::PathNotFound.message(), "unlinkat path not found");
}

#[test]
fn a_freed_inode_reads_as_a_file_without_links() {
    let mut fs = FileSystem::new(4, 1000, 28);
    root().create(&mut fs, name("a"));
    root().unlinkat(&mut fs, &name("a")).unwrap();
    assert_eq!(Inode::new(1).nlink(&fs), 0);
    assert!(Inode::new(1).is_file(&fs));
    // Never used inodes read the same way.
    assert_eq!(Inode::new(3).nlink(&fs), 0);
    assert_eq!(fs.inode_capacity(), 4);
}

#[test]
fn linking_a_path_to_itself_is_refused_on_any_handle() {
    let mut fs = FileSystem::new(4, 1000, 28);
    root().create(&mut fs, name("a"));
    assert_eq!(Inode::new(1).linkat(&mut fs, &name("a"), name("a")), Err(FsError::SamePath));
}

#[test]
fn a_new_file_reads_back_empty() {
    let mut fs = FileSystem::new(4, 1000, 28);
    let f = root().create(&mut fs, name("a")).unwrap();
    let mut buf = [7u8; 4];
    assert_eq!(f.read_at(&fs, 0, &mut buf), 0);
    assert_eq!(buf, [7u8; 4]);
}

#[test]
fn write_then_read_gets_the_bytes_back() {
    let mut fs = FileSystem::new(4, 1000, 28);
    let f = root().create(&mut fs, name("a")).unwrap();
    assert_eq!(f.write_at(&mut fs, 0, b"hello"), 5);
    let mut buf = [0u8; 8];
    assert_eq!(f.read_at(&fs, 0, &mut buf), 5);
    assert_eq!(&buf[..5], b"hello");
    assert_eq!(f.read_at(&fs, 3, &mut buf[..1]), 1);
    assert_eq!(buf[0], b'l');
    assert_eq!(f.read_at(&fs, 9, &mut buf), 0);
}

#[test]
fn writing_past_the_end_fills_the_gap_with_zeros() {
    let mut fs = FileSystem::new(4, 1000, 28);
    let f = root().create(&mut fs, name("a")).unwrap();
    f.write_at(&mut fs, 0, b"ab");
    assert_eq!(f.write_at(&mut fs, 4, b"cd"), 2);
    let mut buf = [9u8; 6];
    assert_eq!(f.read_at(&fs, 0, &mut buf), 6);
    assert_eq!(buf, [b'a', b'b', 0, 0, b'c', b'd']);
    // Overwriting inside keeps the length.
    f.write_at(&mut fs, 1, b"X");
    assert_eq!(f.read_at(&fs, 0, &mut buf), 6);
    assert_eq!(buf, [b'a', b'X', 0, 0, b'c', b'd']);
}

#[test]
fn clear_empties_a_file() {
    let mut fs = FileSystem::new(4, 1000, 28);
    let f = root().create(&mut fs, name("a")).unwrap();
    f.write_at(&mut fs, 0, b"data");
    f.clear(&mut fs);
    let mut buf = [0u8; 4];
    assert_eq!(f.read_at(&fs, 0, &mut buf), 0);
}

#[test]
fn a_recreated_inode_starts_empty() {
    let mut fs = FileSystem::new(4, 1000, 28);
    let f = root().create(&mut fs, name("a")).unwrap();
    f.write_at(&mut fs, 0, b"old");
    root().unlinkat(&mut fs, &name("a")).unwrap();
    let g = root().create(&mut fs, name("b")).unwrap();
    assert_eq!(g, f);
    let mut buf = [0u8; 4];
    assert_eq!(g.read_at(&fs, 0, &mut buf), 0);
}

#[test]
fn block_counts_follow_the_index_layout() {
    assert_eq!(blocks_for(0, 28), 0);
    assert_eq!(blocks_for(1, 28), 1);
    assert_eq!(blocks_for(512, 28), 1);
    assert_eq!(blocks_for(513, 28), 2);
    // Past the direct pointers one index block is added.
    assert_eq!(blocks_for(28 * 512 + 1, 28), 30);
    // Past the first index block the second level starts.
    assert_eq!(blocks_for((28 + 128) * 512 + 1, 28), 157 + 1 + 2);
}

#[test]
fn the_root_takes_a_block_per_sixteen_names() {
    let mut fs = FileSystem::new(40, 1000, 28);
    root().create(&mut fs, name("f0"));
    assert_eq!(fs.free_block_count(), 999);
    for i in 1..16 {
        root().create(&mut fs, name(&format!("f{}", i)));
    }
    assert_eq!(fs.free_block_count(), 999);
    root().linkat(&mut fs, &name("f0"), name("g")).unwrap();
    assert_eq!(fs.free_block_count(), 998);
    // A taken name takes nothing.
    root().create(&mut fs, name("g"));
    assert_eq!(fs.free_block_count(), 998);
}

#[test]
fn writes_take_blocks_and_clear_gives_them_back() {
    let mut fs = FileSystem::new(4, 100, 28);
    let f = root().create(&mut fs, name("a")).unwrap();
    assert_eq!(fs.free_block_count(), 99);
    f.write_at(&mut fs, 0, &[1u8; 600]);
    assert_eq!(fs.free_block_count(), 97);
    // Overwriting inside the file takes nothing.
    f.write_at(&mut fs, 10, &[2u8; 100]);
    assert_eq!(fs.free_block_count(), 97);
    f.clear(&mut fs);
    assert_eq!(fs.free_block_count(), 99);
    assert_eq!(fs.direct_pointer_count(), 28);
}

#[test]
fn size_follows_writes() {
    let mut fs = FileSystem::new(4, 100, 28);
    let f = root().create(&mut fs, name("a")).unwrap();
    assert_eq!(f.size(&fs), 0);
    f.write_at(&mut fs, 3, b"xy");
    assert_eq!(f.size(&fs), 5);
    f.clear(&mut fs);
    assert_eq!(f.size(&fs), 0);
}
