use badge_store::decoder::{default_decoder, Decoder};
use badge_store::tables::{GlyphTable, KeywordTable};

const G1: &str = "aaaaaaaaaaaaaaaaaaaaaa";
const G2: &str = "bbbbbbbbbbbbbbbbbbbbbb";
const G3: &str = "cccccccccccccccccccccc";

fn two_groups() -> String {
    format!("{}{}", G1, G2)
}

fn three_groups() -> String {
    format!("{}{}{}", G1, G2, G3)
}

#[test]
fn plain_text_decodes_to_itself() {
    let d = default_decoder();
    let (text, unresolved) = d.decode_segment("test");
    assert_eq!("test", text);
    assert!(!unresolved);
    let (text, unresolved) = d.decode_segment("abc");
    assert_eq!("abc", text);
    assert!(!unresolved);
    let (text, unresolved) = d.decode_segment("");
    assert_eq!("", text);
    assert!(!unresolved);
}

#[test]
fn builtin_glyphs_decode() {
    let d = default_decoder();
    let a = "00007c828282fe82828200";
    let b = "0000fc8282fc8282fc0000";
    let (text, unresolved) = d.decode_segment(&format!("{}{}", a, b));
    assert_eq!("AB", text);
    assert!(!unresolved);
}

#[test]
fn builtin_keyword_decodes() {
    let d = default_decoder();
    let (text, unresolved) = d.decode_segment("006c92824428100000000a");
    assert_eq!("heart", text);
    assert!(!unresolved);
}

#[test]
fn glyph_match_wins_over_longer_keyword() {
    // The first group is a glyph, and the same two leading groups also
    // form a keyword code: shortest match first, the glyph wins.
    let mut glyphs = GlyphTable::new();
    glyphs.insert(String::from(G1), String::from("A"));
    let mut keywords = KeywordTable::new();
    keywords.insert(two_groups(), String::from("smile"));
    keywords.insert(String::from(G2), String::from("wink"));
    let d = Decoder::new(glyphs, keywords);
    let (text, unresolved) = d.decode_segment(&two_groups());
    assert_eq!("Awink", text);
    assert!(!unresolved);
}

#[test]
fn two_group_keyword_at_end_of_input() {
    // A 2-group keyword code standing at the very end: no third group
    // exists, and the 2-group path resolves it.
    let glyphs = GlyphTable::new();
    let mut keywords = KeywordTable::new();
    keywords.insert(two_groups(), String::from("smile"));
    let d = Decoder::new(glyphs, keywords);
    let (text, unresolved) = d.decode_segment(&two_groups());
    assert_eq!("smile", text);
    assert!(!unresolved);
}

#[test]
fn three_group_keyword_decodes() {
    let glyphs = GlyphTable::new();
    let mut keywords = KeywordTable::new();
    keywords.insert(three_groups(), String::from("rainbow"));
    let d = Decoder::new(glyphs, keywords);
    let (text, unresolved) = d.decode_segment(&three_groups());
    assert_eq!("rainbow", text);
    assert!(!unresolved);
}

#[test]
fn unresolved_group_is_dropped_and_flagged() {
    let mut glyphs = GlyphTable::new();
    glyphs.insert(String::from(G1), String::from("A"));
    let keywords = KeywordTable::new();
    let d = Decoder::new(glyphs, keywords);
    // First group resolves, second does not: the second contributes
    // nothing and the outcome says so.
    let (text, unresolved) = d.decode_segment(&two_groups());
    assert_eq!("A", text);
    assert!(unresolved);
}

#[test]
fn short_final_group_is_attempted() {
    let mut glyphs = GlyphTable::new();
    glyphs.insert(String::from(G1), String::from("A"));
    glyphs.insert(String::from("zz"), String::from("!"));
    let keywords = KeywordTable::new();
    let d = Decoder::new(glyphs, keywords);
    let (text, unresolved) = d.decode_segment(&format!("{}zz", G1));
    assert_eq!("A!", text);
    assert!(!unresolved);
}

#[test]
fn builtin_three_group_keyword_decodes() {
    let d = default_decoder();
    let code = "003844828282824428000000ff00ff00ff00ff00ff00ff00ff00ff00ff00ff00ff";
    assert_eq!(66, code.len());
    let (text, unresolved) = d.decode_segment(code);
    assert_eq!("rainbow", text);
    assert!(!unresolved);
}
