use file_system::action::{flat_map, map2, sequence, unit};
use file_system::disk::read;
use file_system::Disk;

fn test_file() -> Disk {
    let lines = vec!["Yeah", "FP4TheWin", "Nope", "Maybe", "super_awesome"];
    Disk::with_records(
        "./test-files/line_handler_test_file.txt",
        lines.into_iter().map(|s| s.to_string()).collect(),
    )
}

fn read_at(line: u32) -> impl Fn(Disk) -> (Option<String>, Disk) {
    move |d| read(line, d)
}

#[test]
fn read_should_return_file_line() {
    let disk = test_file();
    let (data, updated_disk) = read(2, disk);
    assert_eq!(data, Some("FP4TheWin".into()));
    assert_eq!(updated_disk.reads, 1);
}

#[test]
fn read_line_does_not_exist_should_return_none() {
    let disk = test_file();
    let (data, updated_disk) = read(10, disk);
    assert_eq!(data, None);
    assert_eq!(updated_disk.reads, 1);
}

#[test]
fn read_file_does_not_exist_should_return_none() {
    let disk = Disk::new("rust_ownership_makes_me_cry_sometimes.rs");
    let (data, updated_disk) = read(10, disk);
    assert_eq!(data, None);
    assert_eq!(updated_disk.reads, 1);
}

#[test]
fn multiple_reads_should_return_expected() {
    let expected_data = vec![
        Some("Nope".into()),
        Some("super_awesome".into()),
        Some("Yeah".into()),
        Some("FP4TheWin".into()),
    ];
    let disk = test_file();
    let reads = vec![read_at(3), read_at(5), read_at(1), read_at(2)];
    let mega_read = sequence(reads);
    let (data, updated_disk) = mega_read(disk);
    assert_eq!(updated_disk.reads, 4);
    assert_eq!(data, expected_data);
}

#[test]
fn write_should_return_expected() {
    let expected_data = Some("super_awesome".into());
    let disk = test_file();
    let (data, updated_disk) = file_system::disk::write(5, "super_awesome".into(), disk);
    assert_eq!(data, expected_data);
    assert_eq!(updated_disk.writes, 1);
    assert_eq!(updated_disk.reads, 0);
    let (data, updated_disk) = read(5, updated_disk);
    assert_eq!(data, expected_data);
    assert_eq!(updated_disk.writes, 1);
    assert_eq!(updated_disk.reads, 1);
}

#[test]
fn write_line_exists_should_return_expected() {
    let disk = Disk::with_records("./test-files/line_handler_write_test.txt", vec!["Nope".into()]);
    let (_, updated_disk) = file_system::disk::write(1, "Yeah".into(), disk);
    assert_eq!(updated_disk.writes, 1);
    assert_eq!(updated_disk.records, Some(vec!["Yeah".to_string()]));
}

#[test]
fn write_pads_with_empty_records() {
    let (data, disk) = file_system::disk::write(4, "four".into(), Disk::with_records("f", vec!["one".into()]));
    assert_eq!(data, Some("four".to_string()));
    assert_eq!(
        disk.records,
        Some(vec!["one".to_string(), "".to_string(), "".to_string(), "four".to_string()])
    );
}

#[test]
fn write_fails_on_missing_medium_or_line_zero() {
    let (data, disk) = file_system::disk::write(1, "x".into(), Disk::new("missing"));
    assert_eq!(data, None);
    assert_eq!(disk.writes, 1);
    let (data, disk) = file_system::disk::write(0, "x".into(), test_file());
    assert_eq!(data, None);
    assert_eq!(disk.records, test_file().records);
    let (data, _) = read(0, test_file());
    assert_eq!(data, None);
}

#[test]
fn counters_stop_at_the_largest_value() {
    let mut disk = test_file();
    disk.reads = u32::MAX;
    let (_, disk) = read(1, disk);
    assert_eq!(disk.reads, u32::MAX);
}

#[test]
fn combinators_thread_the_state() {
    let u = unit(7u32);
    let (x, d) = u(test_file());
    assert_eq!(x, 7);
    assert_eq!(d.reads, 0);
    let lengths = file_system::action::map(read_at(2), |o: Option<String>| o.map(|s| s.len()));
    let (n, d) = lengths(test_file());
    assert_eq!(n, Some(9));
    assert_eq!(d.reads, 1);
    let both = map2(read_at(1), read_at(3), |a: Option<String>, b: Option<String>| (a, b));
    let ((a, b), d) = both(test_file());
    assert_eq!(a, Some("Yeah".to_string()));
    assert_eq!(b, Some("Nope".to_string()));
    assert_eq!(d.reads, 2);
    let dependent = flat_map(unit(5u32), |line: u32| read_at(line));
    let (e, d) = dependent(test_file());
    assert_eq!(e, Some("super_awesome".to_string()));
    assert_eq!(d.reads, 1);
}
