use rcore_os::fs::{
    open_file, sys_fstat, DiskInodeType, EasyFileSystem, Inode, StatMode, O_CREATE, O_RDONLY,
    O_RDWR, O_TRUNC, O_WRONLY, ROOT_INODE,
};

fn fresh() -> EasyFileSystem {
    EasyFileSystem::create(16, 64)
}

fn used_blocks(fs: &EasyFileSystem) -> usize {
    fs.data_bitmap.iter().filter(|b| **b).count()
}

#[test]
fn link_unlink_then_read_through_new_name() {
    let mut fs = fresh();
    let root = Inode::new(ROOT_INODE);
    let a = root.create(&mut fs, b"a").unwrap();
    assert_eq!(a.write_at(&mut fs, 0, &[0xAA; 1000]), 1000);
    assert!(root.insert_link_entry(&mut fs, b"a", b"b").is_some());
    assert_eq!(root.remove_link_entry(&mut fs, b"a"), 0);
    let b = root.find(&fs, b"b").unwrap();
    let mut buf = vec![0u8; 1000];
    assert_eq!(b.read_at(&fs, 0, &mut buf), 1000);
    assert!(buf.iter().all(|x| *x == 0xAA));
    assert!(root.find(&fs, b"a").is_none());
}

#[test]
fn write_then_read_same_bytes() {
    let mut fs = fresh();
    let root = Inode::new(ROOT_INODE);
    let f = root.create(&mut fs, b"f").unwrap();
    let data: Vec<u8> = (0..700u32).map(|i| (i % 251) as u8).collect();
    assert_eq!(f.write_at(&mut fs, 300, &data), 700);
    let mut back = vec![0u8; 700];
    assert_eq!(f.read_at(&fs, 300, &mut back), 700);
    assert_eq!(back, data);
    // the gap before the write reads as zeros
    let mut gap = vec![7u8; 300];
    assert_eq!(f.read_at(&fs, 0, &mut gap), 300);
    assert!(gap.iter().all(|x| *x == 0));
    // reads stop at the end of the file
    let mut tail = vec![9u8; 10];
    assert_eq!(f.read_at(&fs, 995, &mut tail), 5);
    assert_eq!(&tail[5..], &[9u8; 5]);
    assert_eq!(f.read_at(&fs, 2000, &mut tail), 0);
}

#[test]
fn one_block_per_boundary_crossed() {
    let mut fs = fresh();
    let root = Inode::new(ROOT_INODE);
    let f = root.create(&mut fs, b"f").unwrap();
    let base = used_blocks(&fs);
    f.write_at(&mut fs, 0, &[1; 512]);
    assert_eq!(used_blocks(&fs), base + 1);
    f.write_at(&mut fs, 500, &[2; 30]);
    assert_eq!(used_blocks(&fs), base + 2);
    f.write_at(&mut fs, 530, &[3; 1100]);
    assert_eq!(used_blocks(&fs), base + 4);
    assert_eq!(fs.inodes[f.get_inode_id() as usize].blocks.len(), 4);
    f.write_at(&mut fs, 0, &[4; 100]);
    assert_eq!(used_blocks(&fs), base + 4);
}

#[test]
fn link_then_unlink_leaves_directory_unchanged() {
    let mut fs = EasyFileSystem::create(20, 64);
    let root = Inode::new(ROOT_INODE);
    for i in 0..16u8 {
        root.create(&mut fs, &[b'x', b'a' + i]).unwrap();
    }
    let names = root.ls(&fs);
    let dir_blocks = fs.inodes[0].blocks.clone();
    let data_bm = fs.data_bitmap.clone();
    let inode_bm = fs.inode_bitmap.clone();
    // sixteen entries fill the directory's first block; the link starts a second one
    assert!(root.insert_link_entry(&mut fs, b"xa", b"y").is_some());
    assert_eq!(fs.inodes[0].blocks.len(), dir_blocks.len() + 1);
    assert_eq!(root.remove_link_entry(&mut fs, b"y"), 0);
    assert_eq!(root.ls(&fs), names);
    assert_eq!(fs.inodes[0].blocks, dir_blocks);
    assert_eq!(fs.data_bitmap, data_bm);
    assert_eq!(fs.inode_bitmap, inode_bm);
}

#[test]
fn create_refuses_existing_names_and_ls_lists() {
    let mut fs = fresh();
    let root = Inode::new(ROOT_INODE);
    let a = root.create(&mut fs, b"alpha").unwrap();
    assert_eq!(a.get_inode_id(), 1);
    assert!(root.create(&mut fs, b"alpha").is_none());
    let b = root.create(&mut fs, b"beta").unwrap();
    assert_eq!(b.get_inode_id(), 2);
    assert_eq!(root.ls(&fs), vec![b"alpha".to_vec(), b"beta".to_vec()]);
    assert_eq!(fs.inodes[0].size, 64);
    assert!(root.get_inode_is_dir(&fs));
    assert!(!a.get_inode_is_dir(&fs));
}

#[test]
fn unlink_moves_last_entry_into_the_hole() {
    let mut fs = fresh();
    let root = Inode::new(ROOT_INODE);
    root.create(&mut fs, b"a").unwrap();
    root.create(&mut fs, b"b").unwrap();
    root.create(&mut fs, b"c").unwrap();
    assert_eq!(root.remove_link_entry(&mut fs, b"a"), 0);
    assert_eq!(root.ls(&fs), vec![b"c".to_vec(), b"b".to_vec()]);
    assert_eq!(root.remove_link_entry(&mut fs, b"zz"), -1);
    assert_eq!(fs.inodes[0].size, 64);
}

#[test]
fn link_counts_and_fstat() {
    let mut fs = fresh();
    let root = Inode::new(ROOT_INODE);
    let a = root.create(&mut fs, b"a").unwrap();
    root.insert_link_entry(&mut fs, b"a", b"b");
    root.insert_link_entry(&mut fs, b"b", b"c");
    assert!(root.insert_link_entry(&mut fs, b"nope", b"d").is_none());
    assert_eq!(root.get_link_count_from_root(&fs, a.get_inode_id()), 3);
    let st = sys_fstat(&fs, &a);
    assert_eq!(st.dev, 0);
    assert_eq!(st.ino, 1);
    assert_eq!(st.mode, StatMode::File);
    assert_eq!(st.nlink, 3);
    assert_eq!(sys_fstat(&fs, &root).mode, StatMode::Dir);
}

#[test]
fn clear_gives_back_all_blocks() {
    let mut fs = fresh();
    let root = Inode::new(ROOT_INODE);
    let f = root.create(&mut fs, b"f").unwrap();
    let base = used_blocks(&fs);
    f.write_at(&mut fs, 0, &[5; 2000]);
    assert_eq!(used_blocks(&fs), base + 4);
    f.clear(&mut fs);
    assert_eq!(used_blocks(&fs), base);
    assert_eq!(fs.inodes[1].size, 0);
    assert_eq!(fs.inodes[1].kind, DiskInodeType::File);
}

#[test]
fn open_flags() {
    let mut fs = fresh();
    assert!(open_file(&mut fs, b"f", O_RDONLY).is_none());
    let o = open_file(&mut fs, b"f", O_CREATE | O_WRONLY).unwrap();
    assert!(!o.readable && o.writable);
    o.inode.write_at(&mut fs, 0, b"hello");
    let r = open_file(&mut fs, b"f", O_RDONLY).unwrap();
    assert!(r.readable && !r.writable);
    assert_eq!(r.inode, o.inode);
    assert_eq!(fs.inodes[o.inode.inode_id as usize].size, 5);
    let t = open_file(&mut fs, b"f", O_RDWR | O_TRUNC).unwrap();
    assert!(t.readable && t.writable);
    assert_eq!(fs.inodes[o.inode.inode_id as usize].size, 0);
    o.inode.write_at(&mut fs, 0, b"again");
    open_file(&mut fs, b"f", O_CREATE).unwrap();
    assert_eq!(fs.inodes[o.inode.inode_id as usize].size, 0);
}

#[test]
fn directory_sizes_are_whole_entries() {
    let mut fs = fresh();
    let root = Inode::new(ROOT_INODE);
    for i in 0..5u8 {
        root.create(&mut fs, &[b'n', b'0' + i]).unwrap();
    }
    root.remove_link_entry(&mut fs, b"n2");
    assert_eq!(fs.inodes[0].size % 32, 0);
    for e in &fs.inodes[0].entries {
        assert!(fs.inode_bitmap[e.inode_id as usize]);
    }
}
