use badge_store::message::{Animation, Message, Speed};
use badge_store::store::{build_storage, Storage, StoreError};

fn give_example_message() -> Message {
    let file_name = String::from("");
    let texts = vec![String::from("test"), String::from("abc"), String::from("123")];
    let inverted = vec![false, true, true];
    let flash = vec![false, true, true];
    let marquee = vec![false, true, true];
    let speed = vec![Speed::One, Speed::Eight, Speed::Four];
    let mode = vec![Animation::Left, Animation::Laser, Animation::Curtain];

    Message { file_name, texts, inverted, flash, marquee, speed, mode }
}

fn initialize_empty_storage_for_test() -> Storage {
    let mut storage = build_storage();
    delete_all_message(&mut storage);
    storage
}

fn initialize_storage_for_test() -> Storage {
    let mut storage = build_storage();
    delete_all_message(&mut storage);
    let mut message = give_example_message();
    storage.save_message(&mut message);
    storage
}

fn delete_all_message(storage: &mut Storage) {
    let names: Vec<String> = storage
        .get_all_messages()
        .unwrap()
        .into_iter()
        .map(|m| m.file_name)
        .collect();
    for name in names {
        println!("{}", &name);
        storage.delete_badge(&name).unwrap();
    }
}

#[test]
fn save_message_test() {
    let mut storage = initialize_empty_storage_for_test();
    let mut message = give_example_message();
    storage.save_message(&mut message);
    let result = storage.get_all_messages().unwrap();
    let message_result = storage.load_badge(&result[0].file_name).unwrap();

    assert_eq!("test", message_result.texts[0]);
    assert_eq!("abc", message_result.texts[1]);
    assert_eq!("123", message_result.texts[2]);

    assert_eq!(false, message_result.inverted[0]);
    assert_eq!(true, message_result.inverted[1]);
    assert_eq!(true, message_result.inverted[2]);

    assert_eq!(false, message_result.flash[0]);
    assert_eq!(true, message_result.flash[1]);
    assert_eq!(true, message_result.flash[2]);

    assert_eq!(false, message_result.marquee[0]);
    assert_eq!(true, message_result.marquee[1]);
    assert_eq!(true, message_result.marquee[2]);

    assert_eq!(Speed::One, message_result.speed[0]);
    assert_eq!(Speed::Eight, message_result.speed[1]);
    assert_eq!(Speed::Four, message_result.speed[2]);

    assert_eq!(Animation::Left, message_result.mode[0]);
    assert_eq!(Animation::Laser, message_result.mode[1]);
    assert_eq!(Animation::Curtain, message_result.mode[2]);
}

#[test]
fn delete_badge_test() {
    let mut storage = initialize_storage_for_test();
    let v1 = storage.get_all_messages().unwrap();
    let name_of_deleted_file = v1[0].file_name.clone();

    storage.delete_badge(&v1[0].file_name).unwrap();
    let v2 = storage.get_all_messages().unwrap();

    assert_eq!(v1.len() - 1, v2.len());
    if v2.len() > 0 {
        assert_ne!(&name_of_deleted_file, &v2[0].file_name);
    }
}

#[test]
fn get_all_messages_test() {
    let storage = initialize_storage_for_test();
    let result = storage.get_all_messages().unwrap();

    assert_eq!(1, result.len());
}

#[test]
fn identity_assignment_after_save() {
    let mut storage = build_storage();
    let mut m1 = give_example_message();
    let mut m2 = give_example_message();
    storage.save_message(&mut m1);
    storage.save_message(&mut m2);

    assert!(!m1.file_name.is_empty());
    assert!(m1.file_name.ends_with(".txt"));
    assert!(!m2.file_name.is_empty());
    assert!(m2.file_name.ends_with(".txt"));
    let stem = &m1.file_name[..m1.file_name.len() - 4];
    assert!(stem.chars().all(|c| c.is_ascii_digit() || c == '-' || c == '+'));
    assert_ne!(m1.file_name, m2.file_name);
}

#[test]
fn enumeration_completeness_after_n_saves() {
    let mut storage = build_storage();
    let mut names: Vec<String> = Vec::new();
    for i in 0..3 {
        let mut m = give_example_message();
        m.texts = vec![format!("message-{}", i)];
        m.inverted = vec![false];
        m.flash = vec![false];
        m.marquee = vec![false];
        m.speed = vec![Speed::One];
        m.mode = vec![Animation::Left];
        storage.save_message(&mut m);
        names.push(m.file_name.clone());
    }
    let all = storage.get_all_messages().unwrap();
    assert_eq!(3, all.len());
    for name in &names {
        let loaded = storage.load_badge(name).unwrap();
        assert_eq!(name, &loaded.file_name);
    }
}

#[test]
fn deletion_effect_on_listing() {
    let mut storage = build_storage();
    for _ in 0..2 {
        let mut m = give_example_message();
        storage.save_message(&mut m);
    }
    let before = storage.get_all_messages().unwrap();
    let victim = before[0].file_name.clone();
    storage.delete_badge(&victim).unwrap();
    let after = storage.get_all_messages().unwrap();
    assert_eq!(before.len() - 1, after.len());
    assert!(after.iter().all(|m| m.file_name != victim));
}

#[test]
fn load_missing_record_is_not_found() {
    let storage = build_storage();
    let r = storage.load_badge(&String::from("nothing-here.txt"));
    assert_eq!(Err(StoreError::NotFound), r.map(|m| m.file_name));
}

#[test]
fn delete_missing_record_is_not_found() {
    let mut storage = build_storage();
    let r = storage.delete_badge(&String::from("nothing-here.txt"));
    assert_eq!(Err(StoreError::NotFound), r);
}

#[test]
fn malformed_record_is_reported() {
    let mut storage = build_storage();
    storage.insert_record(String::from("broken.txt"), String::from("not a record"));
    let r = storage.load_badge(&String::from("broken.txt"));
    assert_eq!(Err(StoreError::Malformed), r.map(|m| m.file_name));
    let all = storage.get_all_messages();
    assert_eq!(Err(StoreError::Malformed), all.map(|v| v.len()));
}

#[test]
fn legacy_field_record_loads_like_current() {
    let mut storage = build_storage();
    let legacy = "file_name 10 legacy.txt\nhex_strings 3 4 test 3 abc 3 123\n\
                  inverted 3 0 1 1\nflash 3 0 1 1\nmarquee 3 0 1 1\n\
                  speed 3 1 8 4\nmode 3 0 8 7\n";
    let current = "file_name 11 current.txt\ntexts 3 4 test 3 abc 3 123\n\
                   inverted 3 0 1 1\nflash 3 0 1 1\nmarquee 3 0 1 1\n\
                   speed 3 1 8 4\nmode 3 0 8 7\n";
    storage.insert_record(String::from("legacy.txt"), String::from(legacy));
    storage.insert_record(String::from("current.txt"), String::from(current));
    let l = storage.load_badge(&String::from("legacy.txt")).unwrap();
    let c = storage.load_badge(&String::from("current.txt")).unwrap();
    assert_eq!(c.texts, l.texts);
    assert_eq!(vec!["test", "abc", "123"], l.texts);
    assert_eq!(c.inverted, l.inverted);
    assert_eq!(c.flash, l.flash);
    assert_eq!(c.marquee, l.marquee);
    assert_eq!(c.speed, l.speed);
    assert_eq!(c.mode, l.mode);
}

#[test]
fn full_badge_filename_is_dir_plus_name() {
    let storage = build_storage();
    let full = storage.get_full_badge_filename(&String::from("a.txt"));
    assert_eq!("bitBlinkData/a.txt", full);
}

#[test]
fn same_name_overwrites_earlier_record() {
    let mut storage = build_storage();
    let first = "file_name 5 a.txt\ntexts 1 3 one\ninverted 1 0\nflash 1 0\n\
                 marquee 1 0\nspeed 1 1\nmode 1 0\n";
    let second = "file_name 5 a.txt\ntexts 1 3 two\ninverted 1 1\nflash 1 0\n\
                  marquee 1 0\nspeed 1 1\nmode 1 0\n";
    storage.insert_record(String::from("a.txt"), String::from(first));
    storage.insert_record(String::from("a.txt"), String::from(second));
    let all = storage.get_all_messages().unwrap();
    assert_eq!(1, all.len());
    assert_eq!(vec![String::from("two")], all[0].texts);
    assert_eq!(vec![true], all[0].inverted);
}

#[test]
fn unresolved_codes_are_observable_through_load() {
    let mut storage = build_storage();
    // first group is the built-in glyph for 'A', second group resolves to
    // nothing and is dropped
    let hex = "00007c828282fe82828200zzzzzzzzzzzzzzzzzzzzzz";
    let record = format!(
        "file_name 5 a.txt\ntexts 2 44 {} 5 plain\ninverted 2 0 0\nflash 2 0 0\n\
         marquee 2 0 0\nspeed 2 1 1\nmode 2 0 0\n",
        hex
    );
    storage.insert_record(String::from("a.txt"), record);
    let (m, flags) = storage
        .load_badge_with_flags(&String::from("a.txt"))
        .unwrap();
    assert_eq!(vec![String::from("A"), String::from("plain")], m.texts);
    assert_eq!(vec![true, false], flags);
}
