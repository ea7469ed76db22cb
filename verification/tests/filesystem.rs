use mos_rust::fs::{ceil_div, FileSystem, FsError, MemBlockDevice};
use mos_rust::block_device::BlockDevice;

#[test]
fn create_write_read_roundtrip() {
    let dev = MemBlockDevice::new(256);
    let mut fs = FileSystem::format(dev).expect("format failed");

    fs.create_file("hello.txt").expect("create failed");
    fs.write_file("hello.txt", b"Hello, MasterOS!").expect("write failed");

    let data = fs.read_file("hello.txt").expect("read failed");
    assert_eq!(&data, b"Hello, MasterOS!");
}

#[test]
fn list_files_reports_created_files() {
    let dev = MemBlockDevice::new(256);
    let mut fs = FileSystem::format(dev).expect("format failed");

    fs.create_file("a.txt").unwrap();
    fs.create_file("b.txt").unwrap();

    let mut names = fs.list_files().unwrap();
    names.sort();
    assert_eq!(names, vec![String::from("a.txt"), String::from("b.txt")]);
}

#[test]
fn overwrite_replaces_contents_and_size() {
    let dev = MemBlockDevice::new(256);
    let mut fs = FileSystem::format(dev).expect("format failed");

    fs.create_file("note.txt").unwrap();
    fs.write_file("note.txt", b"first version, quite a bit longer than the second").unwrap();
    fs.write_file("note.txt", b"short").unwrap();

    assert_eq!(fs.read_file("note.txt").unwrap(), b"short");
}

#[test]
fn delete_frees_space_for_reuse() {
    let dev = MemBlockDevice::new(64);
    let mut fs = FileSystem::format(dev).expect("format failed");

    fs.create_file("big.bin").unwrap();
    let payload = vec![0xABu8; 4096];
    fs.write_file("big.bin", &payload).expect("write failed");
    fs.delete_file("big.bin").expect("delete failed");

    fs.create_file("big2.bin").unwrap();
    fs.write_file("big2.bin", &payload)
        .expect("second write should reuse freed blocks");
}

#[test]
fn duplicate_create_fails() {
    let dev = MemBlockDevice::new(64);
    let mut fs = FileSystem::format(dev).expect("format failed");
    fs.create_file("dup.txt").unwrap();
    assert!(fs.create_file("dup.txt").is_err());
}

#[test]
fn read_missing_file_fails() {
    let dev = MemBlockDevice::new(64);
    let mut fs = FileSystem::format(dev).expect("format failed");
    assert!(fs.read_file("nope.txt").is_err());
}

#[test]
fn mount_after_format_round_trips_data() {
    let dev = MemBlockDevice::new(256);
    let dev = {
        let mut fs = FileSystem::format(dev).expect("format failed");
        fs.create_file("persisted.txt").unwrap();
        fs.write_file("persisted.txt", b"still here").unwrap();
        fs.into_device()
    };

    let mut remounted = FileSystem::mount(dev).expect("mount failed");
    assert_eq!(remounted.read_file("persisted.txt").unwrap(), b"still here");
}

#[test]
fn format_needs_room_for_a_data_block() {
    // 1 superblock + 16 inode blocks + 1 bitmap block leave no data block on 18 blocks.
    assert!(matches!(FileSystem::format(MemBlockDevice::new(18)), Err(FsError::NoSpace)));
    assert!(FileSystem::format(MemBlockDevice::new(19)).is_ok());
}

#[test]
fn mount_rejects_unformatted_device() {
    assert!(matches!(FileSystem::mount(MemBlockDevice::new(64)), Err(FsError::NotFormatted)));
}

#[test]
fn new_volume_is_empty() {
    let mut fs = FileSystem::format(MemBlockDevice::new(64)).unwrap();
    assert!(fs.list_files().unwrap().is_empty());
}

#[test]
fn created_file_is_empty() {
    let mut fs = FileSystem::format(MemBlockDevice::new(64)).unwrap();
    fs.create_file("empty").unwrap();
    assert_eq!(fs.read_file("empty").unwrap(), Vec::<u8>::new());
}

#[test]
fn create_rejects_long_names() {
    let mut fs = FileSystem::format(MemBlockDevice::new(64)).unwrap();
    let ok = "a".repeat(28);
    let long = "a".repeat(29);
    assert!(fs.create_file(&ok).is_ok());
    assert!(matches!(fs.create_file(&long), Err(FsError::NameTooLong)));
}

#[test]
fn duplicate_create_reports_already_exists() {
    let mut fs = FileSystem::format(MemBlockDevice::new(64)).unwrap();
    fs.create_file("x").unwrap();
    assert!(matches!(fs.create_file("x"), Err(FsError::AlreadyExists)));
}

#[test]
fn inode_table_holds_128_files() {
    let mut fs = FileSystem::format(MemBlockDevice::new(64)).unwrap();
    for i in 0..128 {
        fs.create_file(&format!("f{}", i)).unwrap();
    }
    assert!(matches!(fs.create_file("one-more"), Err(FsError::NoFreeInode)));
    assert_eq!(fs.list_files().unwrap().len(), 128);
}

#[test]
fn listing_follows_slot_order() {
    let mut fs = FileSystem::format(MemBlockDevice::new(64)).unwrap();
    fs.create_file("c").unwrap();
    fs.create_file("a").unwrap();
    fs.create_file("b").unwrap();
    fs.delete_file("a").unwrap();
    fs.create_file("d").unwrap();
    assert_eq!(fs.list_files().unwrap(), vec![String::from("c"), String::from("d"), String::from("b")]);
}

#[test]
fn delete_removes_file() {
    let mut fs = FileSystem::format(MemBlockDevice::new(64)).unwrap();
    fs.create_file("gone").unwrap();
    fs.write_file("gone", b"data").unwrap();
    fs.delete_file("gone").unwrap();
    assert!(matches!(fs.read_file("gone"), Err(FsError::NotFound)));
    assert!(matches!(fs.delete_file("gone"), Err(FsError::NotFound)));
    assert!(fs.list_files().unwrap().is_empty());
}

#[test]
fn write_to_missing_file_fails() {
    let mut fs = FileSystem::format(MemBlockDevice::new(64)).unwrap();
    assert!(matches!(fs.write_file("nope", b"x"), Err(FsError::NotFound)));
}

#[test]
fn large_file_uses_indirect_block() {
    let mut fs = FileSystem::format(MemBlockDevice::new(512)).unwrap();
    fs.create_file("large").unwrap();
    let data: Vec<u8> = (0..20_000u32).map(|i| (i % 251) as u8).collect();
    fs.write_file("large", &data).unwrap();
    assert_eq!(fs.read_file("large").unwrap(), data);
    fs.write_file("large", b"tiny").unwrap();
    assert_eq!(fs.read_file("large").unwrap(), b"tiny");
}

#[test]
fn largest_file_fits_exactly() {
    let mut fs = FileSystem::format(MemBlockDevice::new(256)).unwrap();
    fs.create_file("max").unwrap();
    let data = vec![7u8; 134 * 512];
    fs.write_file("max", &data).unwrap();
    assert_eq!(fs.read_file("max").unwrap(), data);
}

#[test]
fn too_large_file_is_rejected_and_old_contents_stay_readable() {
    let mut fs = FileSystem::format(MemBlockDevice::new(256)).unwrap();
    fs.create_file("f").unwrap();
    fs.write_file("f", b"kept").unwrap();
    let data = vec![1u8; 134 * 512 + 1];
    assert!(matches!(fs.write_file("f", &data), Err(FsError::FileTooLarge)));
    assert_eq!(fs.read_file("f").unwrap(), b"kept");
}

#[test]
fn write_fails_when_blocks_run_out() {
    // 24 blocks: data starts at block 18, so 6 data blocks are free.
    let mut fs = FileSystem::format(MemBlockDevice::new(24)).unwrap();
    fs.create_file("a").unwrap();
    assert!(fs.write_file("a", &vec![2u8; 6 * 512]).is_ok());
    fs.create_file("b").unwrap();
    assert!(matches!(fs.write_file("b", b"x"), Err(FsError::NoSpace)));
}

#[test]
fn other_files_survive_writes_and_deletes() {
    let mut fs = FileSystem::format(MemBlockDevice::new(128)).unwrap();
    fs.create_file("one").unwrap();
    fs.create_file("two").unwrap();
    fs.write_file("one", &vec![1u8; 3000]).unwrap();
    fs.write_file("two", &vec![2u8; 5000]).unwrap();
    fs.write_file("one", &vec![3u8; 700]).unwrap();
    assert_eq!(fs.read_file("two").unwrap(), vec![2u8; 5000]);
    fs.delete_file("one").unwrap();
    assert_eq!(fs.read_file("two").unwrap(), vec![2u8; 5000]);
}

#[test]
fn ceil_div_rounds_up() {
    assert_eq!(ceil_div(0, 512), 0);
    assert_eq!(ceil_div(1, 512), 1);
    assert_eq!(ceil_div(512, 512), 1);
    assert_eq!(ceil_div(513, 512), 2);
    assert_eq!(ceil_div(8192, 512), 16);
}

#[test]
fn mem_device_reads_back_writes() {
    let mut dev = MemBlockDevice::new(4);
    assert_eq!(dev.total_blocks(), 4);
    let mut block = [0u8; 512];
    block[0] = 9;
    block[511] = 7;
    dev.write_block(2, &block).unwrap();
    let mut out = [1u8; 512];
    dev.read_block(2, &mut out).unwrap();
    assert_eq!(out, block);
    dev.read_block(1, &mut out).unwrap();
    assert_eq!(out, [0u8; 512]);
}

#[test]
fn write_then_delete_returns_every_block() {
    // 24 blocks leave 6 data blocks: a 6-block file takes them all.
    let mut fs = FileSystem::format(MemBlockDevice::new(24)).unwrap();
    fs.create_file("a").unwrap();
    fs.write_file("a", &vec![5u8; 6 * 512]).unwrap();
    fs.delete_file("a").unwrap();
    fs.create_file("b").unwrap();
    fs.write_file("b", &vec![6u8; 6 * 512]).unwrap();
    assert_eq!(fs.read_file("b").unwrap(), vec![6u8; 6 * 512]);
}

#[test]
fn file_using_every_indirect_slot_reads_back() {
    let mut fs = FileSystem::format(MemBlockDevice::new(256)).unwrap();
    fs.create_file("f").unwrap();
    let data: Vec<u8> = (0..68607usize).map(|i| (i % 251) as u8).collect();
    fs.write_file("f", &data).unwrap();
    assert_eq!(fs.read_file("f").unwrap(), data);
}

#[test]
fn too_large_write_to_empty_file_leaves_it_empty() {
    let mut fs = FileSystem::format(MemBlockDevice::new(256)).unwrap();
    fs.create_file("big").unwrap();
    let data = [0u8; 68609];
    assert!(matches!(fs.write_file("big", &data), Err(FsError::FileTooLarge)));
    assert_eq!(fs.read_file("big").unwrap(), Vec::<u8>::new());
    fs.write_file("big", b"fits").unwrap();
    assert_eq!(fs.read_file("big").unwrap(), b"fits");
}

#[test]
fn long_name_is_refused_before_anything_else() {
    let mut fs = FileSystem::format(MemBlockDevice::new(64)).unwrap();
    let long = "b".repeat(40);
    assert!(matches!(fs.create_file(&long), Err(FsError::NameTooLong)));
    assert!(fs.list_files().unwrap().is_empty());
}

#[test]
fn any_write_to_a_missing_file_is_not_found() {
    let mut fs = FileSystem::format(MemBlockDevice::new(64)).unwrap();
    let huge = vec![0u8; 200_000];
    assert!(matches!(fs.write_file("absent", &huge), Err(FsError::NotFound)));
}

#[test]
fn write_just_over_the_limit_is_too_large() {
    let mut fs = FileSystem::format(MemBlockDevice::new(512)).unwrap();
    fs.create_file("f").unwrap();
    assert!(matches!(fs.write_file("f", &vec![1u8; 68609]), Err(FsError::FileTooLarge)));
    assert!(matches!(fs.write_file("f", &vec![1u8; 200_000]), Err(FsError::FileTooLarge)));
    assert!(fs.write_file("f", &vec![1u8; 68608]).is_ok());
}

#[test]
fn delete_then_create_reuses_a_clean_slot() {
    let mut fs = FileSystem::format(MemBlockDevice::new(64)).unwrap();
    fs.create_file("a").unwrap();
    fs.write_file("a", &vec![9u8; 1500]).unwrap();
    fs.delete_file("a").unwrap();
    fs.create_file("b").unwrap();
    assert_eq!(fs.list_files().unwrap(), vec![String::from("b")]);
    assert_eq!(fs.read_file("b").unwrap(), Vec::<u8>::new());
}

#[test]
fn format_zeroes_the_metadata_and_leaves_data_blocks() {
    let mut dev = MemBlockDevice::new(32);
    let junk = [0x5Au8; 512];
    for b in 0..32 {
        dev.write_block(b, &junk).unwrap();
    }
    let fs = FileSystem::format(dev).unwrap();
    let mut dev = fs.into_device();
    let mut buf = [0u8; 512];
    for b in 1..18 {
        dev.read_block(b, &mut buf).unwrap();
        assert_eq!(buf, [0u8; 512]);
    }
    for b in 18..32 {
        dev.read_block(b, &mut buf).unwrap();
        assert_eq!(buf, junk);
    }
}
