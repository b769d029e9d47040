use file_system::file_system::get_file_inode_and_blocks;
use file_system::{Block, BlockType, Directory, Disk, DiskDiagnostics, FileSystem, Inode, SuperBlock};

fn sda1_records() -> Vec<String> {
    vec![
        r#"{"number":1,"b_type":"End","data":"{\"magic_number\":\"0x70736575646F4653\",\"total_blocks\":10}"}"#,
        r#"{"number":2,"b_type":"End","data":"[{\"number\":1,\"start_block\":5},{\"number\":2,\"start_block\":null},{\"number\":3,\"start_block\":4}]"}"#,
        r#"{"number":3,"b_type":"Free","data":""}"#,
        r#"{"number":4,"b_type":{"Next":6},"data":"Somebody"}"#,
        r#"{"number":5,"b_type":"End","data":"{\"directory\":{\"secret.txt\":3}}"}"#,
        r#"{"number":6,"b_type":{"Next":8},"data":"Once"}"#,
        r#"{"number":7,"b_type":"Free","data":""}"#,
        r#"{"number":8,"b_type":{"Next":9},"data":"Told"}"#,
        r#"{"number":9,"b_type":"End","data":"Me"}"#,
        r#"{"number":10,"b_type":"Free","data":""}"#,
    ]
    .into_iter()
    .map(|s| s.to_string())
    .collect()
}

fn sda1() -> Disk {
    Disk::with_records("./test-files/sda1", sda1_records())
}

fn line_handler_file() -> Disk {
    let lines = vec!["Yeah", "FP4TheWin", "Nope", "Maybe", "super_awesome"];
    Disk::with_records(
        "./test-files/line_handler_test_file.txt",
        lines.into_iter().map(|s| s.to_string()).collect(),
    )
}

#[test]
fn read_file_should_return_expected() {
    let disk = sda1();
    let (data, _) = FileSystem::read_file("secret.txt".into(), disk);
    assert_eq!(data, Some("SomebodyOnceToldMe".into()));
}

#[test]
fn write_file_should_return_expected() {
    let disk = sda1();
    let file_data: String = "Ten long years have I waited for the day that COBOL will come back to rise from the bits".into();
    let (result, disk) = FileSystem::save_as_file("cobol_rise.txt".into(), file_data.clone(), disk);
    assert_eq!(result, Some(2));
    let (data, _) = FileSystem::read_file("cobol_rise.txt".into(), disk);
    assert_eq!(data, Some(file_data));
}

#[test]
fn format_should_return_expected() {
    let blocks = 50;
    let disk = Disk::with_records("./test-files/format_test", vec![]);
    let (res, disk) = FileSystem::format(disk, blocks);
    assert!(res);
    let (sb, _) = SuperBlock::get_super_block(disk);
    assert_eq!(sb.unwrap().total_blocks, blocks);
}

#[test]
fn create_disk_should_return_expected() {
    // A freshly created medium has no records; formatting fills it.
    let blocks = 50;
    let disk = Disk::with_records("./test-files/create_test", vec![]);
    let (res, disk) = FileSystem::format(disk, blocks);
    assert!(res);
    assert_eq!(disk.records.as_ref().unwrap().len(), 50);
    let (sb, _) = SuperBlock::get_super_block(disk);
    assert_eq!(sb.unwrap().total_blocks, blocks);
}

#[test]
fn format_fails_without_medium() {
    let (res, _) = FileSystem::format(Disk::new("missing"), 10);
    assert!(!res);
}

#[test]
fn mount_should_mount_successfully() {
    let res = FileSystem::mount(sda1());
    assert!(res.is_some());
}

#[test]
fn mount_should_mount_unsuccessfully() {
    let res = FileSystem::mount(line_handler_file());
    assert!(res.is_none());
}

#[test]
fn mount_refuses_wrong_magic() {
    let mut records = sda1_records();
    records[0] = Block {
        number: 1,
        b_type: BlockType::Free,
        data: SuperBlock { magic_number: "0xBAD".into(), total_blocks: 10 }.to_text(),
    }
    .to_text();
    assert!(FileSystem::mount(Disk::with_records("bad", records)).is_none());
}

#[test]
fn remove_file_should_return_expected() {
    let disk = sda1();
    let (result, disk) = FileSystem::remove_file("secret.txt".into(), disk);
    assert_eq!(result, true);
    let (data, _) = FileSystem::read_file("secret.txt".into(), disk);
    assert_eq!(data, None);
}

#[test]
fn remove_file_frees_inode_and_blocks() {
    let (result, disk) = FileSystem::remove_file("secret.txt".into(), sda1());
    assert!(result);
    let (i, disk) = Inode::get_inode(3, disk);
    assert_eq!(i, Some(Inode { number: 3, start_block: None }));
    let (b, _) = Block::get_block(4, disk);
    assert_eq!(b.unwrap().b_type, BlockType::Free);
}

#[test]
fn get_diagnostics_should_return_expected() {
    let expected = DiskDiagnostics {
        valid_magic_number: true,
        total_reads: 12,
        total_writes: 0,
        total_blocks: 10,
        total_inodes: 10,
        total_free_inodes: 1,
        total_free_blocks: 3,
    };
    let disk = sda1();
    let (res, _) = DiskDiagnostics::get_diagnostics(disk);
    assert_eq!(res, Some(expected));
    let (res, _) = FileSystem::get_diagnostic(sda1());
    assert_eq!(res, Some(expected));
}

#[test]
fn diagnostics_need_a_superblock() {
    let (res, disk) = DiskDiagnostics::get_diagnostics(line_handler_file());
    assert_eq!(res, None);
    assert_eq!(disk.reads, 3);
}

#[test]
fn format_gives_the_default_directory() {
    let (ok, disk) = FileSystem::format(Disk::with_records("fresh", vec![]), 10);
    assert!(ok);
    let (d, _) = FileSystem::get_directory(disk);
    assert_eq!(d.unwrap().entries(), Directory::default().entries());
}

#[test]
fn format_then_save_read_remove() {
    let (ok, disk) = FileSystem::format(Disk::with_records("path", vec![]), 50);
    assert!(ok);
    let (n, disk) = FileSystem::save_as_file("a.txt".into(), "hello world".into(), disk);
    assert!(n.is_some());
    let (data, disk) = FileSystem::read_file("a.txt".into(), disk);
    assert_eq!(data, Some("hello world".to_string()));
    let (removed, disk) = FileSystem::remove_file("a.txt".into(), disk);
    assert!(removed);
    let (data, disk) = FileSystem::read_file("a.txt".into(), disk);
    assert_eq!(data, None);
    let (refused, disk) = FileSystem::remove_file("/".into(), disk);
    assert!(!refused);
    let (d, _) = FileSystem::get_directory(disk);
    assert_eq!(d.unwrap().find("/"), Some(1));
}

#[test]
fn removing_roots_is_refused_without_writes() {
    let (r, disk) = FileSystem::remove_file(".".into(), sda1());
    assert!(!r);
    assert_eq!(disk.writes, 0);
    assert_eq!(disk.reads, 0);
}

#[test]
fn reading_twice_gives_the_same() {
    let (a, d1) = FileSystem::read_file("secret.txt".into(), sda1());
    let first = d1.reads;
    let (b, d2) = FileSystem::read_file("secret.txt".into(), d1);
    assert_eq!(a, b);
    assert_eq!(d2.reads - first, first);
    assert_eq!(d2.writes, 0);
    assert_eq!(d2.records, sda1().records);
}

#[test]
fn saving_with_no_free_inode_writes_nothing() {
    // Take the one free inode with a first file, then try a second.
    let (n, disk) = FileSystem::save_as_file("first.txt".into(), "abc".into(), sda1());
    assert_eq!(n, Some(2));
    let (free, disk) = Inode::get_free_inode(disk);
    assert_eq!(free, None);
    let before = disk.records.clone();
    let writes = disk.writes;
    let (n, disk) = FileSystem::save_as_file("late.txt".into(), "data".into(), disk);
    assert_eq!(n, None);
    assert_eq!(disk.records, before);
    assert_eq!(disk.writes, writes);
    let (a, disk) = FileSystem::read_file("first.txt".into(), disk);
    assert_eq!(a, Some("abc".to_string()));
    let (b, _) = FileSystem::read_file("secret.txt".into(), disk);
    assert_eq!(b, Some("SomebodyOnceToldMe".to_string()));
}

#[test]
fn save_as_file_of_empty_data_fails() {
    let (n, _) = FileSystem::save_as_file("empty".into(), "".into(), sda1());
    assert_eq!(n, None);
}

#[test]
fn get_file_inode_and_blocks_finds_chain() {
    let (f, _) = get_file_inode_and_blocks("secret.txt".into(), sda1());
    let (i, blocks) = f.unwrap();
    assert_eq!(i, Inode { number: 3, start_block: Some(4) });
    assert_eq!(blocks.len(), 4);
    let (none, _) = get_file_inode_and_blocks("nothing".into(), sda1());
    assert!(none.is_none());
}

#[test]
fn saving_with_too_few_free_blocks_writes_nothing() {
    // The medium has three free blocks; this text needs eight.
    let disk = sda1();
    let before = disk.records.clone();
    let (n, disk) = FileSystem::save_as_file("big.txt".into(), "x".repeat(400), disk);
    assert_eq!(n, None);
    assert_eq!(disk.records, before);
    assert_eq!(disk.writes, 0);
    let (data, _) = FileSystem::read_file("big.txt".into(), disk);
    assert_eq!(data, None);
}

#[test]
fn saving_too_much_on_a_fresh_medium_fails() {
    let (ok, disk) = FileSystem::format(Disk::with_records("fresh10", vec![]), 10);
    assert!(ok);
    let before = disk.records.clone();
    let (n, disk) = FileSystem::save_as_file("big.txt".into(), "y".repeat(400), disk);
    assert_eq!(n, None);
    assert_eq!(disk.records, before);
    let (d, _) = FileSystem::get_directory(disk);
    assert_eq!(d.unwrap().entries(), Directory::default().entries());
}

#[test]
fn saving_exactly_the_free_blocks_succeeds() {
    let (n, disk) = FileSystem::save_as_file("fits.txt".into(), "z".repeat(100), sda1());
    assert_eq!(n, Some(2));
    let (data, _) = FileSystem::read_file("fits.txt".into(), disk);
    assert_eq!(data, Some("z".repeat(100)));
}
