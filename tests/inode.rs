use file_system::{Block, BlockType, Disk, FileSystem, Inode, SuperBlock};

fn sda1_records() -> Vec<String> {
    vec![
        r#"{"number":1,"b_type":"End","data":"{\"magic_number\":\"0x70736575646F4653\",\"total_blocks\":10}"}"#,
        r#"{"number":2,"b_type":"End","data":"[{\"number\":1,\"start_block\":5},{\"number\":2,\"start_block\":null},{\"number\":3,\"start_block\":4}]"}"#,
        r#"{"number":3,"b_type":"Free","data":""}"#,
        r#"{"number":4,"b_type":{"Next":6},"data":"Somebody"}"#,
        r#"{"number":5,"b_type":"End","data":"{\"directory\":{\"secret.txt\":3}}"}"#,
        r#"{"number":6,"b_type":{"Next":8},"data":"Once"}"#,
        r#"{"number":7,"b_type":"Free","data":""}"#,
        r#"{"number":8,"b_type":{"Next":9},"data":"Told"}"#,
        r#"{"number":9,"b_type":"End","data":"Me"}"#,
        r#"{"number":10,"b_type":"Free","data":""}"#,
    ]
    .into_iter()
    .map(|s| s.to_string())
    .collect()
}

fn sda1() -> Disk {
    Disk::with_records("./test-files/sda1", sda1_records())
}

#[test]
fn get_inode_should_return_expected() {
    let expected_data = Inode { number: 1, start_block: Some(5) };
    let disk = sda1();
    let (data, _) = Inode::get_inode(1, disk);
    assert_eq!(data, Some(expected_data));
}

#[test]
fn get_free_inode_should_return_expected() {
    let expected_data = Inode { number: 2, start_block: None };
    let disk = sda1();
    let (data, _) = Inode::get_free_inode(disk);
    assert_eq!(data, Some(expected_data));
}

#[test]
fn get_inode_blocks_should_return_expected() {
    let expected_data = vec![
        Block { number: 4, b_type: BlockType::Next(6), data: "Somebody".into() },
        Block { number: 6, b_type: BlockType::Next(8), data: "Once".into() },
        Block { number: 8, b_type: BlockType::Next(9), data: "Told".into() },
        Block { number: 9, b_type: BlockType::End, data: "Me".into() },
    ];
    let disk = sda1();
    let inode = Inode { number: 3, start_block: Some(4) };
    let (data, disk) = Inode::get_inode_blocks(inode, &SuperBlock::new(10), disk);
    assert_eq!(data, Some((inode, expected_data)));
    assert_eq!(disk.reads, 4);
}

#[test]
fn set_inodes_blocks_should_return_expected() {
    let i = Inode { number: 1, start_block: None };
    let blocks = vec![
        Block { number: 4, b_type: BlockType::Free, data: "Somebody".into() },
        Block { number: 6, b_type: BlockType::Free, data: "Once".into() },
    ];
    let expected_inode = Inode { number: 1, start_block: Some(4) };
    let expected_blocks = vec![
        Block { number: 4, b_type: BlockType::Next(6), data: "Somebody".into() },
        Block { number: 6, b_type: BlockType::End, data: "Once".into() },
    ];
    let (i, b) = Inode::set_inode_blocks(Some(i), blocks).unwrap();
    assert_eq!(i, expected_inode);
    assert_eq!(b, expected_blocks);
}

#[test]
fn set_inode_blocks_needs_inode_and_blocks() {
    let b = vec![Block { number: 4, b_type: BlockType::Free, data: "x".into() }];
    assert_eq!(Inode::set_inode_blocks(None, b), None);
    let i = Inode { number: 1, start_block: None };
    assert_eq!(Inode::set_inode_blocks(Some(i), vec![]), None);
}

#[test]
fn replace_all_inodes_should_return_expected() {
    let inodes = vec![
        Inode { number: 1, start_block: Some(5) },
        Inode { number: 2, start_block: None },
        Inode { number: 3, start_block: Some(4) },
        Inode { number: 4, start_block: None },
        Inode { number: 5, start_block: None },
        Inode { number: 6, start_block: None },
        Inode { number: 7, start_block: None },
        Inode { number: 8, start_block: None },
    ];
    // A medium of 20 blocks has two inode-table blocks, room for both groups.
    let (ok, disk) = FileSystem::format(Disk::with_records("./test-files/inode_replace_all_test", vec![]), 20);
    assert!(ok);
    let (data, _) = Inode::replace_all_inodes(inodes.clone(), disk);
    assert_eq!(data, Some(inodes));
}

#[test]
fn write_inode_should_return_expected() {
    let inode = Inode { number: 3, start_block: Some(42) };
    let disk = sda1();
    let (data, disk) = Inode::write_inode(inode, disk);
    assert_eq!(data, Some(inode));
    let (again, _) = Inode::get_inode(3, disk);
    assert_eq!(again, Some(inode));
}

#[test]
fn free_inode_clears_start_block() {
    let (data, disk) = Inode::free_inode(Inode { number: 3, start_block: Some(4) }, sda1());
    assert_eq!(data, Some(Inode { number: 3, start_block: None }));
    let (free, _) = Inode::get_free_inodes(disk);
    assert_eq!(free.len(), 2);
}

#[test]
fn generate_inodes_numbers_from_one() {
    let v = Inode::generate_inodes(10);
    assert_eq!(v.len(), 10);
    assert_eq!(v[0], Inode { number: 1, start_block: None });
    assert_eq!(v[9], Inode { number: 10, start_block: None });
    assert_eq!(Inode::generate_inodes(11).len(), 22);
    assert!(Inode::generate_inodes(0).is_empty());
}

#[test]
fn inode_list_text_round_trips() {
    let v = vec![
        Inode { number: 1, start_block: Some(5) },
        Inode { number: 2, start_block: None },
    ];
    let t = file_system::inode::inodes_to_text(&v);
    assert_eq!(t, r#"[{"number":1,"start_block":5},{"number":2,"start_block":null}]"#);
    assert_eq!(Inode::parse_inodes(&t), Some(v));
    assert_eq!(file_system::inode::inodes_to_text(&[]), "[]");
    assert_eq!(Inode::parse_inodes("[]"), Some(vec![]));
    assert_eq!(Inode::parse_inodes("[,]"), None);
    let arr: serde_json::Value = serde_json::from_str(&t).unwrap();
    assert_eq!(arr[1]["start_block"], serde_json::Value::Null);
    assert_eq!(arr[0]["start_block"].as_u64(), Some(5));
}

#[test]
fn blocks_to_inodes_skips_unreadable() {
    let good = Block { number: 2, b_type: BlockType::End, data: r#"[{"number":7,"start_block":null}]"#.into() };
    let bad = Block { number: 3, b_type: BlockType::End, data: "nope".into() };
    let v = Inode::blocks_to_inodes(vec![None, Some(bad), Some(good)]);
    assert_eq!(v, vec![Inode { number: 7, start_block: None }]);
}

#[test]
fn walking_a_looping_chain_gives_nothing() {
    // Block 9 links back to block 4: the walk follows at most as many links
    // as the storage range (3 .. 11) has blocks, then gives up.
    let mut records = sda1_records();
    records[8] = r#"{"number":9,"b_type":{"Next":4},"data":"Me"}"#.to_string();
    let disk = Disk::with_records("loop", records);
    let inode = Inode { number: 3, start_block: Some(4) };
    let (data, disk) = Inode::get_inode_blocks(inode, &SuperBlock::new(10), disk);
    assert_eq!(data, None);
    assert_eq!(disk.reads, 9);
}

#[test]
fn walking_out_of_the_storage_range_gives_nothing() {
    // Block 3 links to block 2, an inode-table block tagged End.
    let mut records = sda1_records();
    records[2] = r#"{"number":3,"b_type":{"Next":2},"data":"x"}"#.to_string();
    let disk = Disk::with_records("escape", records);
    let inode = Inode { number: 2, start_block: Some(3) };
    let (data, disk) = Inode::get_inode_blocks(inode, &SuperBlock::new(10), disk);
    assert_eq!(data, None);
    assert_eq!(disk.reads, 1);
    let outside = Inode { number: 2, start_block: Some(1) };
    let (data, disk) = Inode::get_inode_blocks(outside, &SuperBlock::new(10), disk);
    assert_eq!(data, None);
    assert_eq!(disk.reads, 1);
}

#[test]
fn walking_into_a_free_or_missing_block_gives_nothing() {
    let mut records = sda1_records();
    records[3] = r#"{"number":4,"b_type":{"Next":7},"data":"Somebody"}"#.to_string();
    let (data, _) = Inode::get_inode_blocks(
        Inode { number: 3, start_block: Some(4) },
        &SuperBlock::new(10),
        Disk::with_records("free", records),
    );
    assert_eq!(data, None);
    let short: Vec<String> = sda1_records().into_iter().take(6).collect();
    let (data, _) = Inode::get_inode_blocks(
        Inode { number: 3, start_block: Some(4) },
        &SuperBlock::new(10),
        Disk::with_records("short", short),
    );
    assert_eq!(data, None);
}

#[test]
fn chain_written_by_set_inode_blocks_walks_back() {
    let blocks = vec![
        Block { number: 7, b_type: BlockType::Free, data: "x".into() },
        Block { number: 3, b_type: BlockType::Free, data: "y".into() },
        Block { number: 10, b_type: BlockType::Free, data: "z".into() },
    ];
    let (i, linked) = Inode::set_inode_blocks(Some(Inode { number: 2, start_block: None }), blocks).unwrap();
    let (written, disk) = Block::write_blocks(linked.clone(), sda1());
    assert_eq!(written.len(), 3);
    let (walk, _) = Inode::get_inode_blocks(i, &SuperBlock::new(10), disk);
    assert_eq!(walk, Some((i, linked)));
}
