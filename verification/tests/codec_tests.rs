use badge_store::codec::{parse_record, render_record};
use badge_store::message::{Animation, Message, Speed};

fn small_message() -> Message {
    Message {
        file_name: String::from("a.txt"),
        texts: vec![String::from("hi"), String::from("")],
        inverted: vec![true, false],
        flash: vec![false, false],
        marquee: vec![true, true],
        speed: vec![Speed::Two, Speed::Seven],
        mode: vec![Animation::Up, Animation::DropDown],
    }
}

#[test]
fn render_has_exact_expected_text() {
    let m = small_message();
    let text = render_record(&m);
    assert_eq!(
        "file_name 5 a.txt\ntexts 2 2 hi 0 \ninverted 2 1 0\nflash 2 0 0\n\
         marquee 2 1 1\nspeed 2 2 7\nmode 2 2 6\n",
        text
    );
}

#[test]
fn parse_of_render_gives_back_the_message() {
    let m = small_message();
    let text = render_record(&m);
    let back = parse_record(&text).unwrap();
    assert_eq!(m.file_name, back.file_name);
    assert_eq!(m.texts, back.texts);
    assert_eq!(m.inverted, back.inverted);
    assert_eq!(m.flash, back.flash);
    assert_eq!(m.marquee, back.marquee);
    assert_eq!(m.speed, back.speed);
    assert_eq!(m.mode, back.mode);
}

#[test]
fn segment_text_with_spaces_and_newlines_round_trips() {
    let mut m = small_message();
    m.texts = vec![String::from("a b\nc 12 "), String::from("texts 1")];
    let text = render_record(&m);
    let back = parse_record(&text).unwrap();
    assert_eq!(m.texts, back.texts);
}

#[test]
fn parse_rejects_malformed_records() {
    assert!(parse_record("").is_none());
    assert!(parse_record("file_name 5 a.txt").is_none());
    assert!(parse_record("file_name 99 a.txt\n").is_none());
    assert!(parse_record("texts 0\n").is_none());
    // mismatched list lengths do not conform to the schema
    let uneven = "file_name 5 a.txt\ntexts 1 2 hi\ninverted 2 1 0\nflash 1 0\n\
                  marquee 1 1\nspeed 1 2\nmode 1 2\n";
    assert!(parse_record(uneven).is_none());
    // trailing garbage after the last line does not conform
    let m = small_message();
    let mut text = render_record(&m);
    text.push_str("x");
    assert!(parse_record(&text).is_none());
}

#[test]
fn parse_accepts_legacy_text_field_name() {
    let legacy = "file_name 5 a.txt\nhex_strings 1 2 hi\ninverted 1 1\nflash 1 0\n\
                  marquee 1 1\nspeed 1 2\nmode 1 2\n";
    let m = parse_record(legacy).unwrap();
    assert_eq!(vec![String::from("hi")], m.texts);
    assert_eq!(vec![true], m.inverted);
    assert_eq!(vec![Speed::Two], m.speed);
    assert_eq!(vec![Animation::Up], m.mode);
}
