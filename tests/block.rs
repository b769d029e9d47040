use file_system::block::MAGIC_NUMBER;
use file_system::{Block, BlockType, Disk, SuperBlock};

fn sda1_records() -> Vec<String> {
    vec![
        r#"{"number":1,"b_type":"End","data":"{\"magic_number\":\"0x70736575646F4653\",\"total_blocks\":10}"}"#,
        r#"{"number":2,"b_type":"End","data":"[{\"number\":1,\"start_block\":5},{\"number\":2,\"start_block\":null},{\"number\":3,\"start_block\":4}]"}"#,
        r#"{"number":3,"b_type":"Free","data":""}"#,
        r#"{"number":4,"b_type":{"Next":6},"data":"Somebody"}"#,
        r#"{"number":5,"b_type":"End","data":"{\"directory\":{\"secret.txt\":3}}"}"#,
        r#"{"number":6,"b_type":{"Next":8},"data":"Once"}"#,
        r#"{"number":7,"b_type":"Free","data":""}"#,
        r#"{"number":8,"b_type":{"Next":9},"data":"Told"}"#,
        r#"{"number":9,"b_type":"End","data":"Me"}"#,
        r#"{"number":10,"b_type":"Free","data":""}"#,
    ]
    .into_iter()
    .map(|s| s.to_string())
    .collect()
}

fn sda1() -> Disk {
    Disk::with_records("./test-files/sda1", sda1_records())
}

#[test]
fn block_get_block_should_return_expected() {
    let expected_block = Block {
        number: 1,
        data: "{\"magic_number\":\"0x70736575646F4653\",\"total_blocks\":10}".into(),
        b_type: BlockType::End,
    };
    let disk = sda1();
    let (data, disk) = Block::get_block(1, disk);
    assert_eq!(data, Some(expected_block));
    assert_eq!(disk.reads, 1);
}

#[test]
fn block_get_superblock_should_return_expected() {
    let expected_superblock = SuperBlock {
        magic_number: "0x70736575646F4653".into(),
        total_blocks: 10,
    };
    let disk = sda1();
    let (data, _) = SuperBlock::get_super_block(disk);
    assert_eq!(data, Some(expected_superblock));
}

#[test]
fn get_inode_table_range_should_return_expected() {
    // 10 total blocks should give range 1-1
    let expected = 2..3;
    let s = SuperBlock {
        magic_number: "".into(),
        total_blocks: 10,
    };
    assert_eq!(s.get_inode_table_block_range(), expected);
}

#[test]
fn block_get_inode_table_range_should_return_expected() {
    let expected = 2..3;
    let s = SuperBlock {
        magic_number: "".into(),
        total_blocks: 10,
    };
    assert_eq!(s.get_inode_table_block_range(), expected);
}

#[test]
fn get_free_data_blocks_should_return_amount_expected_and_be_free() {
    let expected_count = 2;
    let disk = sda1();
    let (data, _) = Block::get_free_data_blocks(expected_count, disk);
    assert_eq!(data.len(), expected_count);
    let all_free = data.into_iter().all(|x| x.b_type == BlockType::Free);
    assert_eq!(all_free, true);
}

#[test]
fn get_storage_block_range() {
    let expected = 3..11;
    let sb = SuperBlock {
        magic_number: "asdfas".into(),
        total_blocks: 10,
    };
    assert_eq!(sb.get_storage_block_range(), expected);
}

#[test]
fn set_data_block_data_should_return_expected() {
    let expected_blocks = vec![
        Block { number: 1, data: "Somebody".into(), b_type: BlockType::Free },
        Block { number: 2, data: "Once".into(), b_type: BlockType::Free },
        Block { number: 3, data: "Told".into(), b_type: BlockType::Free },
    ];
    let blocks = vec![
        Block { number: 1, data: "".into(), b_type: BlockType::Free },
        Block { number: 2, data: "".into(), b_type: BlockType::Free },
        Block { number: 3, data: "".into(), b_type: BlockType::Free },
    ];
    let data = vec!["Somebody".into(), "Once".into(), "Told".into()];
    let res = Block::set_data_blocks_data((blocks, data));
    assert_eq!(expected_blocks, res);
}

#[test]
fn set_data_blocks_data_drops_unpaired() {
    let blocks = vec![
        Block { number: 4, data: "".into(), b_type: BlockType::Free },
        Block { number: 6, data: "".into(), b_type: BlockType::End },
    ];
    let res = Block::set_data_blocks_data((blocks, vec!["only".into()]));
    assert_eq!(res, vec![Block { number: 4, data: "only".into(), b_type: BlockType::Free }]);
}

#[test]
fn capacity_for_ten_blocks() {
    let sb = SuperBlock::new(10);
    assert_eq!(sb.get_inode_table_block_range(), 2..3);
    assert_eq!(sb.get_storage_block_range(), 3..11);
    assert_eq!(sb.get_inode_count(), 10);
}

#[test]
fn capacity_rounds_the_table_up() {
    let sb = SuperBlock::new(11);
    assert_eq!(sb.get_inode_table_block_range(), 2..4);
    assert_eq!(sb.get_storage_block_range(), 4..12);
    assert_eq!(sb.get_inode_count(), 22);
    let sb = SuperBlock::new(50);
    assert_eq!(sb.get_inode_table_block_range(), 2..7);
    assert_eq!(sb.get_inode_count(), 250);
}

#[test]
fn capacity_of_the_largest_medium() {
    let sb = SuperBlock::new(u32::MAX);
    assert_eq!(sb.get_inode_table_block_range(), 2..429496732);
    assert_eq!(sb.get_inode_count(), 429496730u64 * 4294967295u64);
}

#[test]
fn new_super_block_is_valid() {
    assert!(SuperBlock::new(7).valid_super_block());
    assert_eq!(SuperBlock::new(7).magic_number, MAGIC_NUMBER);
    let bad = SuperBlock { magic_number: "0x70736575646F4654".into(), total_blocks: 7 };
    assert!(!bad.valid_super_block());
}

#[test]
fn free_resets_tag_and_payload() {
    let b = Block { number: 9, b_type: BlockType::Next(3), data: "abc".into() };
    assert_eq!(b.free(), Block { number: 9, b_type: BlockType::Free, data: "".into() });
}

#[test]
fn blocks_to_data_joins_in_list_order() {
    let bs = vec![
        Block { number: 8, b_type: BlockType::Next(2), data: "Some".into() },
        Block { number: 2, b_type: BlockType::End, data: "body".into() },
    ];
    assert_eq!(Block::blocks_to_data(bs), "Somebody");
    assert_eq!(Block::blocks_to_data(vec![]), "");
}

#[test]
fn block_text_round_trips() {
    let cases = vec![
        Block { number: 1, b_type: BlockType::Free, data: "".into() },
        Block { number: 4294967295, b_type: BlockType::Next(0), data: "quote \" back \\ nl \n tab \t".into() },
        Block { number: 12, b_type: BlockType::End, data: "ctl \u{1} \u{1f} \u{8} \u{c} \r é ✓".into() },
    ];
    for b in cases {
        let t = b.to_text();
        assert!(!t.contains('\n'));
        assert_eq!(Block::from_text(&t), Some(b));
    }
}

#[test]
fn block_text_matches_the_json_form() {
    let b = Block { number: 4, b_type: BlockType::Next(6), data: "a\"b\n\u{1}".into() };
    let t = b.to_text();
    assert_eq!(t, r#"{"number":4,"b_type":{"Next":6},"data":"a\"b\n\u0001"}"#);
    let v: serde_json::Value = serde_json::from_str(&t).unwrap();
    assert_eq!(v["number"].as_u64(), Some(4));
    assert_eq!(v["b_type"]["Next"].as_u64(), Some(6));
    assert_eq!(v["data"].as_str(), Some("a\"b\n\u{1}"));
    let free = Block { number: 3, b_type: BlockType::Free, data: "".into() }.to_text();
    let v: serde_json::Value = serde_json::from_str(&free).unwrap();
    assert_eq!(v["b_type"].as_str(), Some("Free"));
}

#[test]
fn block_text_rejects_other_text() {
    assert_eq!(Block::from_text(""), None);
    assert_eq!(Block::from_text("Yeah"), None);
    assert_eq!(Block::from_text(r#"{"number":1,"b_type":"End","data":"x"} "#), None);
    assert_eq!(Block::from_text(r#"{"number":01,"b_type":"End","data":"x"}"#), None);
    assert_eq!(Block::from_text(r#"{"number":4294967296,"b_type":"End","data":"x"}"#), None);
    assert_eq!(Block::from_text(r#"{"number":1,"b_type":"Gone","data":"x"}"#), None);
}

#[test]
fn super_block_text_round_trips() {
    let s = SuperBlock::new(10);
    let t = s.to_text();
    assert_eq!(t, r#"{"magic_number":"0x70736575646F4653","total_blocks":10}"#);
    assert_eq!(SuperBlock::from_text(&t), Some(s));
    let odd = SuperBlock { magic_number: "\"\\\u{0}".into(), total_blocks: 0 };
    assert_eq!(SuperBlock::from_text(&odd.to_text()), Some(odd));
}

#[test]
fn get_all_blocks_reads_the_storage_range() {
    let (all, disk) = Block::get_all_blocks(sda1());
    let numbers: Vec<u32> = all.iter().map(|b| b.number).collect();
    assert_eq!(numbers, vec![3, 4, 5, 6, 7, 8, 9, 10]);
    assert_eq!(disk.reads, 9);
    let (free, _) = Block::get_all_free_data_blocks(sda1());
    let numbers: Vec<u32> = free.iter().map(|b| b.number).collect();
    assert_eq!(numbers, vec![3, 7, 10]);
}

#[test]
fn get_all_blocks_without_superblock_is_empty() {
    let (all, disk) = Block::get_all_blocks(Disk::new("missing"));
    assert!(all.is_empty());
    assert_eq!(disk.reads, 1);
}

#[test]
fn write_block_then_get_block() {
    let b = Block { number: 12, b_type: BlockType::End, data: "tail".into() };
    let (w, disk) = Block::write_block(b.clone(), sda1());
    assert_eq!(w, Some(b.clone()));
    assert_eq!(disk.writes, 1);
    assert_eq!(disk.records.as_ref().unwrap().len(), 12);
    assert_eq!(disk.records.as_ref().unwrap()[10], "");
    let (r, _) = Block::get_block(12, disk);
    assert_eq!(r, Some(b));
}

#[test]
fn write_block_fails_without_medium() {
    let b = Block { number: 2, b_type: BlockType::End, data: "x".into() };
    let (w, disk) = Block::write_block(b, Disk::new("missing"));
    assert_eq!(w, None);
    assert_eq!(disk.writes, 1);
    let b0 = Block { number: 0, b_type: BlockType::End, data: "x".into() };
    let (w, _) = Block::write_block(b0, sda1());
    assert_eq!(w, None);
}

#[test]
fn free_blocks_frees_and_reports() {
    let chain = vec![
        Block { number: 4, b_type: BlockType::Next(6), data: "Somebody".into() },
        Block { number: 6, b_type: BlockType::End, data: "Once".into() },
    ];
    let (freed, disk) = Block::free_blocks(chain, sda1());
    assert_eq!(freed.len(), 2);
    assert!(freed.iter().all(|b| b.b_type == BlockType::Free && b.data.is_empty()));
    let (b4, disk) = Block::get_block(4, disk);
    assert_eq!(b4.unwrap().b_type, BlockType::Free);
    assert_eq!(disk.writes, 2);
}
