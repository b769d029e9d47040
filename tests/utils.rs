use file_system::action::{flatten_option, lift_disk_action};
use file_system::disk::read;
use file_system::utils::{lift, remove_carriage_return, remove_options, string_to_block_data_chunks};
use file_system::Disk;

#[test]
fn string_to_block_data_chunks_return_expected() {
    let r = string_to_block_data_chunks(" This is my stirn go fahst ea;lsf jasjfadklsjfal;sdfjads f".into());
    assert_eq!(r.len(), 2);
}

#[test]
fn chunks_are_fifty_characters() {
    let s: String = "é".repeat(120);
    let r = string_to_block_data_chunks(s.clone());
    assert_eq!(r.len(), 3);
    assert_eq!(r[0].chars().count(), 50);
    assert_eq!(r[2].chars().count(), 20);
    assert_eq!(r.concat(), s);
    assert!(string_to_block_data_chunks(String::new()).is_empty());
    assert_eq!(string_to_block_data_chunks("a".repeat(50)).len(), 1);
}

#[test]
fn remove_carriage_return_drops_last_character() {
    assert_eq!(remove_carriage_return("3\n".into()), "3");
    assert_eq!(remove_carriage_return("".into()), "");
    assert_eq!(remove_carriage_return("ab✓".into()), "ab");
}

#[test]
fn remove_options_keeps_order() {
    assert_eq!(remove_options(vec![Some(3), None, Some(1), None]), vec![3, 1]);
    assert!(remove_options::<u8>(vec![None, None]).is_empty());
}

#[test]
fn lift_applies_under_some() {
    let f = lift(|x: u32| x + 1);
    assert_eq!(f(Some(1)), Some(2));
    assert_eq!(f(None), None);
}

#[test]
fn lift_disk_action_skips_on_none() {
    let disk = Disk::with_records("f", vec!["a".into(), "b".into()]);
    let act = lift_disk_action(|line: u32| move |d: Disk| read(line, d), Some(2u32));
    let (r, disk) = act(disk);
    assert_eq!(r, Some(Some("b".to_string())));
    assert_eq!(disk.reads, 1);
    let skip = lift_disk_action(|line: u32| move |d: Disk| read(line, d), None);
    let (r, disk) = skip(disk);
    assert_eq!(r, None);
    assert_eq!(disk.reads, 1);
    let flat = flatten_option(lift_disk_action(|line: u32| move |d: Disk| read(line, d), Some(9u32)));
    let (r, _) = flat(disk);
    assert_eq!(r, None);
}

#[test]
fn chunks_join_back_to_the_text() {
    let s: String = "0123456789".repeat(11);
    let r = string_to_block_data_chunks(s.clone());
    assert_eq!(r.len(), 3);
    assert_eq!(r.concat(), s);
    assert!(r.iter().all(|c| !c.is_empty() && c.chars().count() <= 50));
}
