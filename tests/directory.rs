use file_system::{Directory, Disk};

fn sda1_records() -> Vec<String> {
    vec![
        r#"{"number":1,"b_type":"End","data":"{\"magic_number\":\"0x70736575646F4653\",\"total_blocks\":10}"}"#,
        r#"{"number":2,"b_type":"End","data":"[{\"number\":1,\"start_block\":5},{\"number\":2,\"start_block\":null},{\"number\":3,\"start_block\":4}]"}"#,
        r#"{"number":3,"b_type":"Free","data":""}"#,
        r#"{"number":4,"b_type":{"Next":6},"data":"Somebody"}"#,
        r#"{"number":5,"b_type":"End","data":"{\"directory\":{\"secret.txt\":3}}"}"#,
        r#"{"number":6,"b_type":{"Next":8},"data":"Once"}"#,
        r#"{"number":7,"b_type":"Free","data":""}"#,
        r#"{"number":8,"b_type":{"Next":9},"data":"Told"}"#,
        r#"{"number":9,"b_type":"End","data":"Me"}"#,
        r#"{"number":10,"b_type":"Free","data":""}"#,
    ]
    .into_iter()
    .map(|s| s.to_string())
    .collect()
}

fn sda1() -> Disk {
    Disk::with_records("./test-files/sda1", sda1_records())
}

#[test]
fn get_directory_should_return_expected() {
    let disk = sda1();
    let (directory, _) = Directory::get_directory(disk);
    let d = directory.unwrap();
    assert_eq!(d.entries(), vec![("secret.txt".to_string(), 3)]);
    assert_eq!(d.find("secret.txt"), Some(3));
}

#[test]
fn save_file_should_return_expected() {
    let disk = sda1();
    let file_name: String = "plz_work.md".into();
    let (data, disk) = Directory::write_file_name(5, file_name.clone(), disk);
    assert_eq!(data, Some(5));
    let (data, _) = Directory::get_directory(disk);
    assert_eq!(data.unwrap().find(&file_name), Some(5));
}

#[test]
fn default_directory_has_both_roots() {
    let d = Directory::default();
    assert_eq!(d.entries(), vec![(".".to_string(), 1), ("/".to_string(), 1)]);
    assert_eq!(d.find("."), Some(1));
    assert_eq!(d.find("/"), Some(1));
    assert_eq!(d.find("x"), None);
}

#[test]
fn insert_replaces_in_place_and_remove_drops() {
    let mut d = Directory::default();
    d.insert("a.txt".into(), 4);
    d.insert(".".into(), 9);
    assert_eq!(
        d.entries(),
        vec![(".".to_string(), 9), ("/".to_string(), 1), ("a.txt".to_string(), 4)]
    );
    d.remove("/");
    d.remove("missing");
    assert_eq!(d.entries(), vec![(".".to_string(), 9), ("a.txt".to_string(), 4)]);
}

#[test]
fn directory_text_round_trips() {
    let mut d = Directory::default();
    d.insert("we\"ird,name:\n".into(), 42);
    let t = d.to_text();
    let back = Directory::parse_directory(&t).unwrap();
    assert_eq!(back.entries(), d.entries());
    assert_eq!(Directory::default().to_text(), r#"{"directory":{".":1,"/":1}}"#);
    let v: serde_json::Value = serde_json::from_str(&t).unwrap();
    assert_eq!(v["directory"]["we\"ird,name:\n"].as_u64(), Some(42));
}

#[test]
fn directory_text_rejects_repeated_names() {
    assert!(Directory::parse_directory(r#"{"directory":{"a":1,"a":2}}"#).is_none());
    assert!(Directory::parse_directory(r#"{"directory":{}}"#).unwrap().entries().is_empty());
    assert!(Directory::parse_directory(r#"{"directory":{"a":1,}}"#).is_none());
}

#[test]
fn remove_file_name_drops_entry() {
    let (r, disk) = Directory::remove_file_name("secret.txt".into(), sda1());
    assert_eq!(r, Some(true));
    let (d, _) = Directory::get_directory(disk);
    assert_eq!(d.unwrap().find("secret.txt"), None);
}

#[test]
fn write_file_name_needs_a_directory() {
    let (r, _) = Directory::write_file_name(5, "x".into(), Disk::new("missing"));
    assert_eq!(r, None);
}

#[test]
fn wipe_directory_blocks_frees_the_chain() {
    let (w, disk) = Directory::wipe_directory_blocks(sda1());
    assert_eq!(w.map(|v| v.len()), Some(1));
    let (d, _) = Directory::get_directory(disk);
    assert!(d.is_none());
}

#[test]
fn remove_file_name_refuses_roots() {
    let (r, disk) = Directory::remove_file_name(".".into(), sda1());
    assert_eq!(r, None);
    let (r, disk) = Directory::remove_file_name("/".into(), disk);
    assert_eq!(r, None);
    assert_eq!(disk.reads, 0);
    assert_eq!(disk.writes, 0);
}

#[test]
fn unreadable_directory_is_left_alone() {
    // Inode 1's chain holds no directory text: nothing is freed or written.
    let mut records = sda1_records();
    records[4] = r#"{"number":5,"b_type":"End","data":"not a directory"}"#.to_string();
    let before = records.clone();
    let (r, disk) = Directory::write_file_name(5, "x".into(), Disk::with_records("bad", records));
    assert_eq!(r, None);
    assert_eq!(disk.writes, 0);
    assert_eq!(disk.records, Some(before.clone()));
    let (r, disk) = Directory::remove_file_name("secret.txt".into(), disk);
    assert_eq!(r, None);
    assert_eq!(disk.records, Some(before));
}
