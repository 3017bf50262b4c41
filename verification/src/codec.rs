//! The on-disk record format: a field-named, length-prefixed text
//! serialization of a `Message`, and its parser.
//!
//! Every field line is `name count items... \n`; strings are written as
//! `length text`, so any segment content round-trips without escaping. For
//! legacy records the text-segment field may appear under the older field
//! name `hex_strings` instead of `texts`; current writers always use
//! `texts`.
//!
//! The format is this crate's own: only texts of exactly this shape
//! conform, and a record serialized in any other way — a JSON object,
//! say — does not parse and is reported as malformed.

use vstd::prelude::*;

use crate::message::{Animation, Message, MessageView, Speed};
use crate::text::{
    dec_digits, is_dec_digit, lemma_parse_nat_of_dec, parse_nat, parse_nat_spec, usize_to_dec,
};

verus! {

// ---------------------------------------------------------------------
// Per-item character codes
// ---------------------------------------------------------------------

pub open spec fn bool_char(b: bool) -> char {
    if b {
        '1'
    } else {
        '0'
    }
}

pub open spec fn char_bool(c: char) -> Option<bool> {
    if c == '0' {
        Some(false)
    } else if c == '1' {
        Some(true)
    } else {
        None
    }
}

pub open spec fn speed_char(s: Speed) -> char {
    match s {
        Speed::One => '1',
        Speed::Two => '2',
        Speed::Three => '3',
        Speed::Four => '4',
        Speed::Five => '5',
        Speed::Six => '6',
        Speed::Seven => '7',
        Speed::Eight => '8',
    }
}

pub open spec fn char_speed(c: char) -> Option<Speed> {
    if c == '1' {
        Some(Speed::One)
    } else if c == '2' {
        Some(Speed::Two)
    } else if c == '3' {
        Some(Speed::Three)
    } else if c == '4' {
        Some(Speed::Four)
    } else if c == '5' {
        Some(Speed::Five)
    } else if c == '6' {
        Some(Speed::Six)
    } else if c == '7' {
        Some(Speed::Seven)
    } else if c == '8' {
        Some(Speed::Eight)
    } else {
        None
    }
}

pub open spec fn mode_char(m: Animation) -> char {
    match m {
        Animation::Left => '0',
        Animation::Right => '1',
        Animation::Up => '2',
        Animation::Down => '3',
        Animation::StillCentered => '4',
        Animation::Animation => '5',
        Animation::DropDown => '6',
        Animation::Curtain => '7',
        Animation::Laser => '8',
    }
}

pub open spec fn char_mode(c: char) -> Option<Animation> {
    if c == '0' {
        Some(Animation::Left)
    } else if c == '1' {
        Some(Animation::Right)
    } else if c == '2' {
        Some(Animation::Up)
    } else if c == '3' {
        Some(Animation::Down)
    } else if c == '4' {
        Some(Animation::StillCentered)
    } else if c == '5' {
        Some(Animation::Animation)
    } else if c == '6' {
        Some(Animation::DropDown)
    } else if c == '7' {
        Some(Animation::Curtain)
    } else if c == '8' {
        Some(Animation::Laser)
    } else {
        None
    }
}

// ---------------------------------------------------------------------
// Rendering (the mathematical form of the record text)
// ---------------------------------------------------------------------

/// One text item: ` length text`.
pub open spec fn render_text_item(t: Seq<char>) -> Seq<char> {
    seq![' '] + dec_digits(t.len()) + seq![' '] + t
}

pub open spec fn render_texts(ts: Seq<Seq<char>>) -> Seq<char>
    decreases ts.len(),
{
    if ts.len() == 0 {
        Seq::empty()
    } else {
        render_text_item(ts[0]) + render_texts(ts.drop_first())
    }
}

pub open spec fn render_bools(bs: Seq<bool>) -> Seq<char>
    decreases bs.len(),
{
    if bs.len() == 0 {
        Seq::empty()
    } else {
        seq![' ', bool_char(bs[0])] + render_bools(bs.drop_first())
    }
}

pub open spec fn render_speeds(ss: Seq<Speed>) -> Seq<char>
    decreases ss.len(),
{
    if ss.len() == 0 {
        Seq::empty()
    } else {
        seq![' ', speed_char(ss[0])] + render_speeds(ss.drop_first())
    }
}

pub open spec fn render_modes(ms: Seq<Animation>) -> Seq<char>
    decreases ms.len(),
{
    if ms.len() == 0 {
        Seq::empty()
    } else {
        seq![' ', mode_char(ms[0])] + render_modes(ms.drop_first())
    }
}

/// The whole record text for `m`. With `legacy` the text-segment field
/// carries the older field name; current writers never set it.
pub open spec fn render_message(m: MessageView, legacy: bool) -> Seq<char> {
    "file_name "@ + dec_digits(m.file_name.len()) + seq![' '] + m.file_name + seq!['\n'] + (
    if legacy {
        "hex_strings "@
    } else {
        "texts "@
    }) + dec_digits(m.texts.len()) + render_texts(m.texts) + seq!['\n'] + "inverted "@
        + dec_digits(m.inverted.len()) + render_bools(m.inverted) + seq!['\n'] + "flash "@
        + dec_digits(m.flash.len()) + render_bools(m.flash) + seq!['\n'] + "marquee "@
        + dec_digits(m.marquee.len()) + render_bools(m.marquee) + seq!['\n'] + "speed "@
        + dec_digits(m.speed.len()) + render_speeds(m.speed) + seq!['\n'] + "mode "@
        + dec_digits(m.mode.len()) + render_modes(m.mode) + seq!['\n']
}

/// The lengths a record can carry: each count and each string length must
/// fit the machine word that the renderer prints.
pub open spec fn sizes_fit(m: MessageView) -> bool {
    &&& m.file_name.len() <= usize::MAX
    &&& m.texts.len() <= usize::MAX
    &&& m.inverted.len() <= usize::MAX
    &&& m.flash.len() <= usize::MAX
    &&& m.marquee.len() <= usize::MAX
    &&& m.speed.len() <= usize::MAX
    &&& m.mode.len() <= usize::MAX
    &&& forall|i: int| 0 <= i < m.texts.len() ==> (#[trigger] m.texts[i]).len() <= usize::MAX
}

// ---------------------------------------------------------------------
// Parsing (on suffixes of the record text)
// ---------------------------------------------------------------------

/// Expect `lit` at the front of `s`; the rest follows it.
pub open spec fn spec_lit(s: Seq<char>, lit: Seq<char>) -> Option<Seq<char>> {
    if lit.len() <= s.len() && s.subrange(0, lit.len() as int) == lit {
        Some(s.skip(lit.len() as int))
    } else {
        None
    }
}

/// Expect a decimal number at the front of `s`.
pub open spec fn spec_num(s: Seq<char>) -> Option<(nat, Seq<char>)> {
    match parse_nat_spec(s, 0, usize::MAX as nat) {
        Some((v, j)) => Some((v, s.skip(j))),
        None => None,
    }
}

/// Take exactly `n` characters from the front of `s`.
pub open spec fn spec_chunk(s: Seq<char>, n: nat) -> Option<(Seq<char>, Seq<char>)> {
    if n <= s.len() {
        Some((s.take(n as int), s.skip(n as int)))
    } else {
        None
    }
}

/// A length-prefixed string: `length text`.
pub open spec fn parse_sized_str(s: Seq<char>) -> Option<(Seq<char>, Seq<char>)> {
    match spec_num(s) {
        None => None,
        Some((l, s1)) => match spec_lit(s1, seq![' ']) {
            None => None,
            Some(s2) => spec_chunk(s2, l),
        },
    }
}

pub open spec fn parse_texts_spec(s: Seq<char>, cnt: nat) -> Option<(Seq<Seq<char>>, Seq<char>)>
    decreases cnt,
{
    if cnt == 0 {
        Some((Seq::empty(), s))
    } else {
        match spec_lit(s, seq![' ']) {
            None => None,
            Some(s1) => match parse_sized_str(s1) {
                None => None,
                Some((t, s2)) => match parse_texts_spec(s2, (cnt - 1) as nat) {
                    None => None,
                    Some((ts, s3)) => Some((seq![t] + ts, s3)),
                },
            },
        }
    }
}

pub open spec fn parse_bools_spec(s: Seq<char>, cnt: nat) -> Option<(Seq<bool>, Seq<char>)>
    decreases cnt,
{
    if cnt == 0 {
        Some((Seq::empty(), s))
    } else if s.len() < 2 || s[0] != ' ' || char_bool(s[1]) is None {
        None
    } else {
        match parse_bools_spec(s.skip(2), (cnt - 1) as nat) {
            None => None,
            Some((bs, s1)) => Some((seq![char_bool(s[1])->0] + bs, s1)),
        }
    }
}

pub open spec fn parse_speeds_spec(s: Seq<char>, cnt: nat) -> Option<(Seq<Speed>, Seq<char>)>
    decreases cnt,
{
    if cnt == 0 {
        Some((Seq::empty(), s))
    } else if s.len() < 2 || s[0] != ' ' || char_speed(s[1]) is None {
        None
    } else {
        match parse_speeds_spec(s.skip(2), (cnt - 1) as nat) {
            None => None,
            Some((ss, s1)) => Some((seq![char_speed(s[1])->0] + ss, s1)),
        }
    }
}

pub open spec fn parse_modes_spec(s: Seq<char>, cnt: nat) -> Option<(Seq<Animation>, Seq<char>)>
    decreases cnt,
{
    if cnt == 0 {
        Some((Seq::empty(), s))
    } else if s.len() < 2 || s[0] != ' ' || char_mode(s[1]) is None {
        None
    } else {
        match parse_modes_spec(s.skip(2), (cnt - 1) as nat) {
            None => None,
            Some((ms, s1)) => Some((seq![char_mode(s[1])->0] + ms, s1)),
        }
    }
}

pub open spec fn parse_bool_field(s: Seq<char>, name: Seq<char>) -> Option<(Seq<bool>, Seq<char>)> {
    match spec_lit(s, name) {
        None => None,
        Some(s1) => match spec_num(s1) {
            None => None,
            Some((cnt, s2)) => match parse_bools_spec(s2, cnt) {
                None => None,
                Some((bs, s3)) => match spec_lit(s3, seq!['\n']) {
                    None => None,
                    Some(s4) => Some((bs, s4)),
                },
            },
        },
    }
}

pub open spec fn parse_speed_field(s: Seq<char>) -> Option<(Seq<Speed>, Seq<char>)> {
    match spec_lit(s, "speed "@) {
        None => None,
        Some(s1) => match spec_num(s1) {
            None => None,
            Some((cnt, s2)) => match parse_speeds_spec(s2, cnt) {
                None => None,
                Some((ss, s3)) => match spec_lit(s3, seq!['\n']) {
                    None => None,
                    Some(s4) => Some((ss, s4)),
                },
            },
        },
    }
}

pub open spec fn parse_mode_field(s: Seq<char>) -> Option<(Seq<Animation>, Seq<char>)> {
    match spec_lit(s, "mode "@) {
        None => None,
        Some(s1) => match spec_num(s1) {
            None => None,
            Some((cnt, s2)) => match parse_modes_spec(s2, cnt) {
                None => None,
                Some((ms, s3)) => match spec_lit(s3, seq!['\n']) {
                    None => None,
                    Some(s4) => Some((ms, s4)),
                },
            },
        },
    }
}

/// The record schema. A text conforms exactly when this returns a value:
/// all seven fields in order, the text-segment field under its current or
/// its legacy name, nothing after the last line, and all six lists of one
/// length.
pub open spec fn parse_message(s: Seq<char>) -> Option<MessageView> {
    match spec_lit(s, "file_name "@) {
        None => None,
        Some(s1) => match parse_sized_str(s1) {
            None => None,
            Some((fname, s2)) => match spec_lit(s2, seq!['\n']) {
                None => None,
                Some(s3) => {
                    let named = if spec_lit(s3, "texts "@) is Some {
                        spec_lit(s3, "texts "@)
                    } else {
                        spec_lit(s3, "hex_strings "@)
                    };
                    match named {
                        None => None,
                        Some(s4) => match spec_num(s4) {
                            None => None,
                            Some((cnt, s5)) => match parse_texts_spec(s5, cnt) {
                                None => None,
                                Some((texts, s6)) => match spec_lit(s6, seq!['\n']) {
                                    None => None,
                                    Some(s7) => match parse_bool_field(s7, "inverted "@) {
                                        None => None,
                                        Some((inverted, s8)) => match parse_bool_field(
                                            s8,
                                            "flash "@,
                                        ) {
                                            None => None,
                                            Some((flash, s9)) => match parse_bool_field(
                                                s9,
                                                "marquee "@,
                                            ) {
                                                None => None,
                                                Some((marquee, s10)) => match parse_speed_field(
                                                    s10,
                                                ) {
                                                    None => None,
                                                    Some((speed, s11)) => match parse_mode_field(
                                                        s11,
                                                    ) {
                                                        None => None,
                                                        Some((mode, s12)) => {
                                                            let m = MessageView {
                                                                file_name: fname,
                                                                texts,
                                                                inverted,
                                                                flash,
                                                                marquee,
                                                                speed,
                                                                mode,
                                                            };
                                                            if s12.len() == 0 && m.wf() {
                                                                Some(m)
                                                            } else {
                                                                None
                                                            }
                                                        },
                                                    },
                                                },
                                            },
                                        },
                                    },
                                },
                            },
                        },
                    }
                },
            },
        },
    }
}

// ---------------------------------------------------------------------
// The executable renderer
// ---------------------------------------------------------------------

proof fn lemma_render_texts_snoc(ts: Seq<Seq<char>>, t: Seq<char>)
    ensures
        render_texts(ts.push(t)) == render_texts(ts) + render_text_item(t),
    decreases ts.len(),
{
    if ts.len() == 0 {
        assert(ts.push(t)[0] == t);
        assert(ts.push(t).drop_first() =~= Seq::<Seq<char>>::empty());
        assert(render_texts(Seq::<Seq<char>>::empty()) == Seq::<char>::empty());
        assert(render_texts(ts.push(t)) == render_text_item(t) + Seq::<char>::empty());
        assert(render_texts(ts) == Seq::<char>::empty());
        assert(render_texts(ts.push(t)) =~= render_texts(ts) + render_text_item(t));
    } else {
        assert(ts.push(t)[0] == ts[0]);
        assert(ts.push(t).drop_first() =~= ts.drop_first().push(t));
        lemma_render_texts_snoc(ts.drop_first(), t);
        assert(render_texts(ts.push(t)) == render_text_item(ts[0]) + render_texts(
            ts.drop_first().push(t),
        ));
        assert(render_texts(ts) == render_text_item(ts[0]) + render_texts(ts.drop_first()));
        assert(render_texts(ts.push(t)) =~= render_texts(ts) + render_text_item(t));
    }
}

proof fn lemma_render_bools_snoc(bs: Seq<bool>, b: bool)
    ensures
        render_bools(bs.push(b)) == render_bools(bs) + seq![' ', bool_char(b)],
    decreases bs.len(),
{
    if bs.len() == 0 {
        assert(bs.push(b)[0] == b);
        assert(bs.push(b).drop_first() =~= Seq::<bool>::empty());
        assert(render_bools(Seq::<bool>::empty()) == Seq::<char>::empty());
        assert(render_bools(bs.push(b)) == seq![' ', bool_char(b)] + Seq::<char>::empty());
        assert(render_bools(bs) == Seq::<char>::empty());
        assert(render_bools(bs.push(b)) =~= render_bools(bs) + seq![' ', bool_char(b)]);
    } else {
        assert(bs.push(b)[0] == bs[0]);
        assert(bs.push(b).drop_first() =~= bs.drop_first().push(b));
        lemma_render_bools_snoc(bs.drop_first(), b);
        assert(render_bools(bs.push(b)) == seq![' ', bool_char(bs[0])] + render_bools(bs.drop_first().push(b)));
        assert(render_bools(bs) == seq![' ', bool_char(bs[0])] + render_bools(bs.drop_first()));
        assert(render_bools(bs.push(b)) =~= render_bools(bs) + seq![' ', bool_char(b)]);
    }
}

proof fn lemma_render_speeds_snoc(ss: Seq<Speed>, x: Speed)
    ensures
        render_speeds(ss.push(x)) == render_speeds(ss) + seq![' ', speed_char(x)],
    decreases ss.len(),
{
    if ss.len() == 0 {
        assert(ss.push(x)[0] == x);
        assert(ss.push(x).drop_first() =~= Seq::<Speed>::empty());
        assert(render_speeds(Seq::<Speed>::empty()) == Seq::<char>::empty());
        assert(render_speeds(ss.push(x)) == seq![' ', speed_char(x)] + Seq::<char>::empty());
        assert(render_speeds(ss) == Seq::<char>::empty());
        assert(render_speeds(ss.push(x)) =~= render_speeds(ss) + seq![' ', speed_char(x)]);
    } else {
        assert(ss.push(x)[0] == ss[0]);
        assert(ss.push(x).drop_first() =~= ss.drop_first().push(x));
        lemma_render_speeds_snoc(ss.drop_first(), x);
        assert(render_speeds(ss.push(x)) == seq![' ', speed_char(ss[0])] + render_speeds(ss.drop_first().push(x)));
        assert(render_speeds(ss) == seq![' ', speed_char(ss[0])] + render_speeds(ss.drop_first()));
        assert(render_speeds(ss.push(x)) =~= render_speeds(ss) + seq![' ', speed_char(x)]);
    }
}

proof fn lemma_render_modes_snoc(ms: Seq<Animation>, x: Animation)
    ensures
        render_modes(ms.push(x)) == render_modes(ms) + seq![' ', mode_char(x)],
    decreases ms.len(),
{
    if ms.len() == 0 {
        assert(ms.push(x)[0] == x);
        assert(ms.push(x).drop_first() =~= Seq::<Animation>::empty());
        assert(render_modes(Seq::<Animation>::empty()) == Seq::<char>::empty());
        assert(render_modes(ms.push(x)) == seq![' ', mode_char(x)] + Seq::<char>::empty());
        assert(render_modes(ms) == Seq::<char>::empty());
        assert(render_modes(ms.push(x)) =~= render_modes(ms) + seq![' ', mode_char(x)]);
    } else {
        assert(ms.push(x)[0] == ms[0]);
        assert(ms.push(x).drop_first() =~= ms.drop_first().push(x));
        lemma_render_modes_snoc(ms.drop_first(), x);
        assert(render_modes(ms.push(x)) == seq![' ', mode_char(ms[0])] + render_modes(ms.drop_first().push(x)));
        assert(render_modes(ms) == seq![' ', mode_char(ms[0])] + render_modes(ms.drop_first()));
        assert(render_modes(ms.push(x)) =~= render_modes(ms) + seq![' ', mode_char(x)]);
    }
}

/// The digit character a speed is written as.
fn speed_str(x: &Speed) -> (r: &'static str)
    ensures
        r@ =~= seq![speed_char(*x)],
{
    proof {
        reveal_strlit("1");
        reveal_strlit("2");
        reveal_strlit("3");
        reveal_strlit("4");
        reveal_strlit("5");
        reveal_strlit("6");
        reveal_strlit("7");
        reveal_strlit("8");
    }
    match x {
        Speed::One => "1",
        Speed::Two => "2",
        Speed::Three => "3",
        Speed::Four => "4",
        Speed::Five => "5",
        Speed::Six => "6",
        Speed::Seven => "7",
        Speed::Eight => "8",
    }
}

/// The digit character an animation mode is written as.
fn mode_str(x: &Animation) -> (r: &'static str)
    ensures
        r@ =~= seq![mode_char(*x)],
{
    proof {
        reveal_strlit("0");
        reveal_strlit("1");
        reveal_strlit("2");
        reveal_strlit("3");
        reveal_strlit("4");
        reveal_strlit("5");
        reveal_strlit("6");
        reveal_strlit("7");
        reveal_strlit("8");
    }
    match x {
        Animation::Left => "0",
        Animation::Right => "1",
        Animation::Up => "2",
        Animation::Down => "3",
        Animation::StillCentered => "4",
        Animation::Animation => "5",
        Animation::DropDown => "6",
        Animation::Curtain => "7",
        Animation::Laser => "8",
    }
}

fn append_bools(out: &mut String, bs: &Vec<bool>)
    ensures
        final(out)@ == old(out)@ + render_bools(bs@),
{
    proof {
        reveal_strlit(" 0");
        reveal_strlit(" 1");
        assert(old(out)@ + render_bools(bs@.take(0)) =~= old(out)@);
    }
    let ghost base = out@;
    let mut i: usize = 0;
    while i < bs.len()
        invariant
            0 <= i <= bs.len(),
            out@ == base + render_bools(bs@.take(i as int)),
        decreases bs.len() - i,
    {
        if bs[i] {
            out.append(" 1");
        } else {
            out.append(" 0");
        }
        proof {
            reveal_strlit(" 0");
            reveal_strlit(" 1");
            assert(bs@.take(i + 1) =~= bs@.take(i as int).push(bs@[i as int]));
            lemma_render_bools_snoc(bs@.take(i as int), bs@[i as int]);
            if bs@[i as int] {
                assert(" 1"@ =~= seq![' ', bool_char(bs@[i as int])]);
            } else {
                assert(" 0"@ =~= seq![' ', bool_char(bs@[i as int])]);
            }
            assert((base + render_bools(bs@.take(i as int))) + seq![' ', bool_char(bs@[i as int])]
                =~= base + render_bools(bs@.take(i + 1)));
        }
        i = i + 1;
    }
    proof {
        assert(bs@.take(bs@.len() as int) =~= bs@);
    }
}

fn append_speeds(out: &mut String, ss: &Vec<Speed>)
    ensures
        final(out)@ == old(out)@ + render_speeds(ss@),
{
    proof {
        reveal_strlit(" ");
        assert(old(out)@ + render_speeds(ss@.take(0)) =~= old(out)@);
    }
    let ghost base = out@;
    let mut i: usize = 0;
    while i < ss.len()
        invariant
            0 <= i <= ss.len(),
            out@ == base + render_speeds(ss@.take(i as int)),
        decreases ss.len() - i,
    {
        out.append(" ");
        out.append(speed_str(&ss[i]));
        proof {
            reveal_strlit(" ");
            assert(ss@.take(i + 1) =~= ss@.take(i as int).push(ss@[i as int]));
            lemma_render_speeds_snoc(ss@.take(i as int), ss@[i as int]);
            assert(" "@ + seq![speed_char(ss@[i as int])] =~= seq![' ', speed_char(ss@[i as int])]);
            assert(((base + render_speeds(ss@.take(i as int))) + " "@) + seq![
                speed_char(ss@[i as int]),
            ] =~= base + render_speeds(ss@.take(i + 1)));
        }
        i = i + 1;
    }
    proof {
        assert(ss@.take(ss@.len() as int) =~= ss@);
    }
}

fn append_modes(out: &mut String, ms: &Vec<Animation>)
    ensures
        final(out)@ == old(out)@ + render_modes(ms@),
{
    proof {
        reveal_strlit(" ");
        assert(old(out)@ + render_modes(ms@.take(0)) =~= old(out)@);
    }
    let ghost base = out@;
    let mut i: usize = 0;
    while i < ms.len()
        invariant
            0 <= i <= ms.len(),
            out@ == base + render_modes(ms@.take(i as int)),
        decreases ms.len() - i,
    {
        out.append(" ");
        out.append(mode_str(&ms[i]));
        proof {
            reveal_strlit(" ");
            assert(ms@.take(i + 1) =~= ms@.take(i as int).push(ms@[i as int]));
            lemma_render_modes_snoc(ms@.take(i as int), ms@[i as int]);
            assert(" "@ + seq![mode_char(ms@[i as int])] =~= seq![' ', mode_char(ms@[i as int])]);
            assert(((base + render_modes(ms@.take(i as int))) + " "@) + seq![
                mode_char(ms@[i as int]),
            ] =~= base + render_modes(ms@.take(i + 1)));
        }
        i = i + 1;
    }
    proof {
        assert(ms@.take(ms@.len() as int) =~= ms@);
    }
}

fn append_texts(out: &mut String, ts: &Vec<String>)
    ensures
        final(out)@ == old(out)@ + render_texts(crate::message::strings_view(ts@)),
{
    let ghost tv = crate::message::strings_view(ts@);
    proof {
        reveal_strlit(" ");
        assert(old(out)@ + render_texts(tv.take(0)) =~= old(out)@);
    }
    let ghost base = out@;
    let mut i: usize = 0;
    while i < ts.len()
        invariant
            0 <= i <= ts.len(),
            tv == crate::message::strings_view(ts@),
            out@ == base + render_texts(tv.take(i as int)),
        decreases ts.len() - i,
    {
        proof {
            assert(tv[i as int] == ts@[i as int]@);
        }
        let l = ts[i].as_str().unicode_len();
        let dec = usize_to_dec(l);
        out.append(" ");
        out.append(dec.as_str());
        out.append(" ");
        out.append(ts[i].as_str());
        proof {
            reveal_strlit(" ");
            assert(tv.take(i + 1) =~= tv.take(i as int).push(tv[i as int]));
            lemma_render_texts_snoc(tv.take(i as int), tv[i as int]);
            assert(" "@ =~= seq![' ']);
            assert((((base + render_texts(tv.take(i as int))) + " "@) + dec_digits(l as nat) + " "@)
                + tv[i as int] =~= base + render_texts(tv.take(i + 1)));
        }
        i = i + 1;
    }
    proof {
        assert(tv.take(tv.len() as int) =~= tv);
    }
}

/// Serialize `m` as the current record format. The message is written
/// as-is: no re-encoding of segment texts takes place.
pub fn render_record(m: &Message) -> (r: String)
    ensures
        r@ == render_message(m@, false),
{
    proof {
        reveal_strlit(" ");
        reveal_strlit("\n");
        reveal_strlit("file_name ");
        reveal_strlit("texts ");
        reveal_strlit("inverted ");
        reveal_strlit("flash ");
        reveal_strlit("marquee ");
        reveal_strlit("speed ");
        reveal_strlit("mode ");
    }
    let mut out = String::new();
    out.append("file_name ");
    let fl = m.file_name.as_str().unicode_len();
    let fdec = usize_to_dec(fl);
    out.append(fdec.as_str());
    out.append(" ");
    out.append(m.file_name.as_str());
    out.append("\n");
    out.append("texts ");
    let tdec = usize_to_dec(m.texts.len());
    proof {
        assert(crate::message::strings_view(m.texts@).len() == m.texts@.len());
    }
    out.append(tdec.as_str());
    append_texts(&mut out, &m.texts);
    out.append("\n");
    out.append("inverted ");
    let idec = usize_to_dec(m.inverted.len());
    out.append(idec.as_str());
    append_bools(&mut out, &m.inverted);
    out.append("\n");
    out.append("flash ");
    let ldec = usize_to_dec(m.flash.len());
    out.append(ldec.as_str());
    append_bools(&mut out, &m.flash);
    out.append("\n");
    out.append("marquee ");
    let qdec = usize_to_dec(m.marquee.len());
    out.append(qdec.as_str());
    append_bools(&mut out, &m.marquee);
    out.append("\n");
    out.append("speed ");
    let sdec = usize_to_dec(m.speed.len());
    out.append(sdec.as_str());
    append_speeds(&mut out, &m.speed);
    out.append("\n");
    out.append("mode ");
    let mdec = usize_to_dec(m.mode.len());
    out.append(mdec.as_str());
    append_modes(&mut out, &m.mode);
    out.append("\n");
    proof {
        assert(" "@ =~= seq![' ']);
        assert("\n"@ =~= seq!['\n']);
        assert(out@ =~= render_message(m@, false));
    }
    out
}

// ---------------------------------------------------------------------
// The executable parser
// ---------------------------------------------------------------------

fn eat_lit<'a>(s: &'a str, lit: &str) -> (r: Option<&'a str>)
    ensures
        match r {
            Some(rest) => spec_lit(s@, lit@) == Some(rest@),
            None => spec_lit(s@, lit@) is None,
        },
{
    let n = s.unicode_len();
    let m = lit.unicode_len();
    if crate::text::lit_at(s, 0, lit) {
        let rest = s.substring_char(m, n);
        proof {
            assert(rest@ =~= s@.skip(m as int));
        }
        Some(rest)
    } else {
        None
    }
}

fn eat_num<'a>(s: &'a str) -> (r: Option<(usize, &'a str)>)
    ensures
        match r {
            Some((v, rest)) => spec_num(s@) == Some((v as nat, rest@)),
            None => spec_num(s@) is None,
        },
{
    match parse_nat(s, 0) {
        None => None,
        Some((v, j)) => {
            let rest = s.substring_char(j, s.unicode_len());
            proof {
                assert(rest@ =~= s@.skip(j as int));
            }
            Some((v, rest))
        },
    }
}

fn eat_sized<'a>(s: &'a str) -> (r: Option<(String, &'a str)>)
    ensures
        match r {
            Some((t, rest)) => parse_sized_str(s@) == Some((t@, rest@)),
            None => parse_sized_str(s@) is None,
        },
{
    proof {
        reveal_strlit(" ");
        assert(" "@ =~= seq![' ']);
    }
    let (l, s1) = match eat_num(s) {
        None => {
            return None;
        },
        Some(x) => x,
    };
    let s2 = match eat_lit(s1, " ") {
        None => {
            return None;
        },
        Some(x) => x,
    };
    let n2 = s2.unicode_len();
    if l > n2 {
        return None;
    }
    let t = s2.substring_char(0, l).to_owned();
    let rest = s2.substring_char(l, n2);
    proof {
        assert(t@ =~= s2@.take(l as int));
        assert(rest@ =~= s2@.skip(l as int));
    }
    Some((t, rest))
}

fn eat_texts<'a>(s: &'a str, cnt: usize) -> (r: Option<(Vec<String>, &'a str)>)
    ensures
        match r {
            Some((ts, rest)) => parse_texts_spec(s@, cnt as nat) == Some(
                (crate::message::strings_view(ts@), rest@),
            ),
            None => parse_texts_spec(s@, cnt as nat) is None,
        },
    decreases cnt,
{
    proof {
        reveal_strlit(" ");
        assert(" "@ =~= seq![' ']);
    }
    if cnt == 0 {
        let empty: Vec<String> = Vec::new();
        proof {
            assert(crate::message::strings_view(empty@) =~= Seq::<Seq<char>>::empty());
        }
        return Some((empty, s));
    }
    let s1 = match eat_lit(s, " ") {
        None => {
            return None;
        },
        Some(x) => x,
    };
    let (t, s2) = match eat_sized(s1) {
        None => {
            return None;
        },
        Some(x) => x,
    };
    match eat_texts(s2, cnt - 1) {
        None => None,
        Some((mut ts, rest)) => {
            let ghost prev = ts@;
            ts.insert(0, t);
            proof {
                assert(crate::message::strings_view(ts@) =~= seq![t@]
                    + crate::message::strings_view(prev));
            }
            Some((ts, rest))
        },
    }
}

fn char_to_bool(c: char) -> (r: Option<bool>)
    ensures
        r == char_bool(c),
{
    if c == '0' {
        Some(false)
    } else if c == '1' {
        Some(true)
    } else {
        None
    }
}

fn char_to_speed(c: char) -> (r: Option<Speed>)
    ensures
        r == char_speed(c),
{
    if c == '1' {
        Some(Speed::One)
    } else if c == '2' {
        Some(Speed::Two)
    } else if c == '3' {
        Some(Speed::Three)
    } else if c == '4' {
        Some(Speed::Four)
    } else if c == '5' {
        Some(Speed::Five)
    } else if c == '6' {
        Some(Speed::Six)
    } else if c == '7' {
        Some(Speed::Seven)
    } else if c == '8' {
        Some(Speed::Eight)
    } else {
        None
    }
}

fn char_to_mode(c: char) -> (r: Option<Animation>)
    ensures
        r == char_mode(c),
{
    if c == '0' {
        Some(Animation::Left)
    } else if c == '1' {
        Some(Animation::Right)
    } else if c == '2' {
        Some(Animation::Up)
    } else if c == '3' {
        Some(Animation::Down)
    } else if c == '4' {
        Some(Animation::StillCentered)
    } else if c == '5' {
        Some(Animation::Animation)
    } else if c == '6' {
        Some(Animation::DropDown)
    } else if c == '7' {
        Some(Animation::Curtain)
    } else if c == '8' {
        Some(Animation::Laser)
    } else {
        None
    }
}

fn eat_bools<'a>(s: &'a str, cnt: usize) -> (r: Option<(Vec<bool>, &'a str)>)
    ensures
        match r {
            Some((bs, rest)) => parse_bools_spec(s@, cnt as nat) == Some((bs@, rest@)),
            None => parse_bools_spec(s@, cnt as nat) is None,
        },
    decreases cnt,
{
    if cnt == 0 {
        let empty: Vec<bool> = Vec::new();
        proof {
            assert(empty@ =~= Seq::<bool>::empty());
        }
        return Some((empty, s));
    }
    let n = s.unicode_len();
    if n < 2 || s.get_char(0) != ' ' {
        return None;
    }
    let b = match char_to_bool(s.get_char(1)) {
        None => {
            return None;
        },
        Some(b) => b,
    };
    let tail = s.substring_char(2, n);
    proof {
        assert(tail@ =~= s@.skip(2));
    }
    match eat_bools(tail, cnt - 1) {
        None => None,
        Some((mut bs, rest)) => {
            let ghost prev = bs@;
            bs.insert(0, b);
            proof {
                assert(bs@ =~= seq![b] + prev);
            }
            Some((bs, rest))
        },
    }
}

fn eat_speeds<'a>(s: &'a str, cnt: usize) -> (r: Option<(Vec<Speed>, &'a str)>)
    ensures
        match r {
            Some((ss, rest)) => parse_speeds_spec(s@, cnt as nat) == Some((ss@, rest@)),
            None => parse_speeds_spec(s@, cnt as nat) is None,
        },
    decreases cnt,
{
    if cnt == 0 {
        let empty: Vec<Speed> = Vec::new();
        proof {
            assert(empty@ =~= Seq::<Speed>::empty());
        }
        return Some((empty, s));
    }
    let n = s.unicode_len();
    if n < 2 || s.get_char(0) != ' ' {
        return None;
    }
    let x = match char_to_speed(s.get_char(1)) {
        None => {
            return None;
        },
        Some(x) => x,
    };
    let tail = s.substring_char(2, n);
    proof {
        assert(tail@ =~= s@.skip(2));
    }
    match eat_speeds(tail, cnt - 1) {
        None => None,
        Some((mut ss, rest)) => {
            let ghost prev = ss@;
            ss.insert(0, x);
            proof {
                assert(ss@ =~= seq![x] + prev);
            }
            Some((ss, rest))
        },
    }
}

fn eat_modes<'a>(s: &'a str, cnt: usize) -> (r: Option<(Vec<Animation>, &'a str)>)
    ensures
        match r {
            Some((ms, rest)) => parse_modes_spec(s@, cnt as nat) == Some((ms@, rest@)),
            None => parse_modes_spec(s@, cnt as nat) is None,
        },
    decreases cnt,
{
    if cnt == 0 {
        let empty: Vec<Animation> = Vec::new();
        proof {
            assert(empty@ =~= Seq::<Animation>::empty());
        }
        return Some((empty, s));
    }
    let n = s.unicode_len();
    if n < 2 || s.get_char(0) != ' ' {
        return None;
    }
    let x = match char_to_mode(s.get_char(1)) {
        None => {
            return None;
        },
        Some(x) => x,
    };
    let tail = s.substring_char(2, n);
    proof {
        assert(tail@ =~= s@.skip(2));
    }
    match eat_modes(tail, cnt - 1) {
        None => None,
        Some((mut ms, rest)) => {
            let ghost prev = ms@;
            ms.insert(0, x);
            proof {
                assert(ms@ =~= seq![x] + prev);
            }
            Some((ms, rest))
        },
    }
}

fn eat_bool_field<'a>(s: &'a str, name: &str) -> (r: Option<(Vec<bool>, &'a str)>)
    ensures
        match r {
            Some((bs, rest)) => parse_bool_field(s@, name@) == Some((bs@, rest@)),
            None => parse_bool_field(s@, name@) is None,
        },
{
    proof {
        reveal_strlit("\n");
        assert("\n"@ =~= seq!['\n']);
    }
    let s1 = match eat_lit(s, name) {
        None => {
            return None;
        },
        Some(x) => x,
    };
    let (cnt, s2) = match eat_num(s1) {
        None => {
            return None;
        },
        Some(x) => x,
    };
    let (bs, s3) = match eat_bools(s2, cnt) {
        None => {
            return None;
        },
        Some(x) => x,
    };
    match eat_lit(s3, "\n") {
        None => None,
        Some(rest) => Some((bs, rest)),
    }
}

/// Parse one record text into a `Message`. Succeeds exactly on texts that
/// conform to the record schema (`parse_message`), the legacy text-field
/// name included.
pub fn parse_record(s: &str) -> (r: Option<Message>)
    ensures
        match r {
            Some(m) => parse_message(s@) == Some(m@) && m@.wf(),
            None => parse_message(s@) is None,
        },
{
    proof {
        reveal_strlit("\n");
        assert("\n"@ =~= seq!['\n']);
    }
    let s1 = match eat_lit(s, "file_name ") {
        None => {
            return None;
        },
        Some(x) => x,
    };
    let (fname, s2) = match eat_sized(s1) {
        None => {
            return None;
        },
        Some(x) => x,
    };
    let s3 = match eat_lit(s2, "\n") {
        None => {
            return None;
        },
        Some(x) => x,
    };
    let s4 = match eat_lit(s3, "texts ") {
        Some(x) => x,
        None => match eat_lit(s3, "hex_strings ") {
            None => {
                return None;
            },
            Some(x) => x,
        },
    };
    let (cnt, s5) = match eat_num(s4) {
        None => {
            return None;
        },
        Some(x) => x,
    };
    let (texts, s6) = match eat_texts(s5, cnt) {
        None => {
            return None;
        },
        Some(x) => x,
    };
    let s7 = match eat_lit(s6, "\n") {
        None => {
            return None;
        },
        Some(x) => x,
    };
    let (inverted, s8) = match eat_bool_field(s7, "inverted ") {
        None => {
            return None;
        },
        Some(x) => x,
    };
    let (flash, s9) = match eat_bool_field(s8, "flash ") {
        None => {
            return None;
        },
        Some(x) => x,
    };
    let (marquee, s10) = match eat_bool_field(s9, "marquee ") {
        None => {
            return None;
        },
        Some(x) => x,
    };
    let s10b = match eat_lit(s10, "speed ") {
        None => {
            return None;
        },
        Some(x) => x,
    };
    let (scnt, s10c) = match eat_num(s10b) {
        None => {
            return None;
        },
        Some(x) => x,
    };
    let (speed, s10d) = match eat_speeds(s10c, scnt) {
        None => {
            return None;
        },
        Some(x) => x,
    };
    let s11 = match eat_lit(s10d, "\n") {
        None => {
            return None;
        },
        Some(x) => x,
    };
    let s11b = match eat_lit(s11, "mode ") {
        None => {
            return None;
        },
        Some(x) => x,
    };
    let (mcnt, s11c) = match eat_num(s11b) {
        None => {
            return None;
        },
        Some(x) => x,
    };
    let (mode, s11d) = match eat_modes(s11c, mcnt) {
        None => {
            return None;
        },
        Some(x) => x,
    };
    let s12 = match eat_lit(s11d, "\n") {
        None => {
            return None;
        },
        Some(x) => x,
    };
    if s12.unicode_len() == 0 && texts.len() == inverted.len() && texts.len() == flash.len()
        && texts.len() == marquee.len() && texts.len() == speed.len() && texts.len()
        == mode.len() {
        let m = Message { file_name: fname, texts, inverted, flash, marquee, speed, mode };
        proof {
            assert(crate::message::strings_view(m.texts@).len() == m.texts@.len());
            assert(m@.wf());
        }
        Some(m)
    } else {
        proof {
            assert(crate::message::strings_view(texts@).len() == texts@.len());
        }
        None
    }
}

// ---------------------------------------------------------------------
// Round trip: parsing a rendered record gives back the message
// ---------------------------------------------------------------------

proof fn lemma_spec_lit_prefix(lit: Seq<char>, rest: Seq<char>)
    ensures
        spec_lit(lit + rest, lit) == Some(rest),
{
    let s = lit + rest;
    assert(s.subrange(0, lit.len() as int) =~= lit);
    assert(s.skip(lit.len() as int) =~= rest);
}

proof fn lemma_spec_num_dec(n: nat, rest: Seq<char>)
    requires
        n <= usize::MAX,
        rest.len() == 0 || !is_dec_digit(rest[0]),
    ensures
        spec_num(dec_digits(n) + rest) == Some((n, rest)),
{
    let s = dec_digits(n) + rest;
    let l = dec_digits(n).len() as int;
    assert(s.subrange(0, l) =~= dec_digits(n));
    if rest.len() > 0 {
        assert(s[l] == rest[0]);
    }
    lemma_parse_nat_of_dec(s, 0, n, usize::MAX as nat);
    assert(s.skip(l) =~= rest);
}

proof fn lemma_parse_sized_of_render(t: Seq<char>, rest: Seq<char>)
    requires
        t.len() <= usize::MAX,
    ensures
        parse_sized_str(dec_digits(t.len()) + seq![' '] + t + rest) == Some((t, rest)),
{
    let s = dec_digits(t.len()) + seq![' '] + t + rest;
    let tail = seq![' '] + t + rest;
    assert(s =~= dec_digits(t.len()) + tail);
    assert(tail[0] == ' ');
    assert(!is_dec_digit(' '));
    lemma_spec_num_dec(t.len(), tail);
    assert(tail =~= seq![' '] + (t + rest));
    lemma_spec_lit_prefix(seq![' '], t + rest);
    let after = t + rest;
    assert(after.take(t.len() as int) =~= t);
    assert(after.skip(t.len() as int) =~= rest);
}

proof fn lemma_parse_texts_of_render(ts: Seq<Seq<char>>, rest: Seq<char>)
    requires
        forall|i: int| 0 <= i < ts.len() ==> (#[trigger] ts[i]).len() <= usize::MAX,
    ensures
        parse_texts_spec(render_texts(ts) + rest, ts.len()) == Some((ts, rest)),
    decreases ts.len(),
{
    let s = render_texts(ts) + rest;
    if ts.len() == 0 {
        assert(s =~= rest);
        assert(parse_texts_spec(s, 0) == Some((Seq::<Seq<char>>::empty(), s)));
        assert(ts =~= Seq::<Seq<char>>::empty());
    } else {
        let t0 = ts[0];
        let tail = render_texts(ts.drop_first()) + rest;
        let sized = dec_digits(t0.len()) + seq![' '] + t0 + tail;
        assert(s =~= seq![' '] + sized);
        lemma_spec_lit_prefix(seq![' '], sized);
        lemma_parse_sized_of_render(t0, tail);
        lemma_parse_texts_of_render(ts.drop_first(), rest);
        assert(seq![t0] + ts.drop_first() =~= ts);
    }
}

proof fn lemma_parse_bools_of_render(bs: Seq<bool>, rest: Seq<char>)
    ensures
        parse_bools_spec(render_bools(bs) + rest, bs.len()) == Some((bs, rest)),
    decreases bs.len(),
{
    let s = render_bools(bs) + rest;
    if bs.len() == 0 {
        assert(s =~= rest);
        assert(bs =~= Seq::<bool>::empty());
    } else {
        assert(s[0] == ' ');
        assert(s[1] == bool_char(bs[0]));
        assert(char_bool(bool_char(bs[0])) == Some(bs[0]));
        assert(s.skip(2) =~= render_bools(bs.drop_first()) + rest);
        lemma_parse_bools_of_render(bs.drop_first(), rest);
        assert(seq![bs[0]] + bs.drop_first() =~= bs);
    }
}

proof fn lemma_parse_speeds_of_render(ss: Seq<Speed>, rest: Seq<char>)
    ensures
        parse_speeds_spec(render_speeds(ss) + rest, ss.len()) == Some((ss, rest)),
    decreases ss.len(),
{
    let s = render_speeds(ss) + rest;
    if ss.len() == 0 {
        assert(s =~= rest);
        assert(ss =~= Seq::<Speed>::empty());
    } else {
        assert(s[0] == ' ');
        assert(s[1] == speed_char(ss[0]));
        assert(char_speed(speed_char(ss[0])) == Some(ss[0]));
        assert(s.skip(2) =~= render_speeds(ss.drop_first()) + rest);
        lemma_parse_speeds_of_render(ss.drop_first(), rest);
        assert(seq![ss[0]] + ss.drop_first() =~= ss);
    }
}

proof fn lemma_parse_modes_of_render(ms: Seq<Animation>, rest: Seq<char>)
    ensures
        parse_modes_spec(render_modes(ms) + rest, ms.len()) == Some((ms, rest)),
    decreases ms.len(),
{
    let s = render_modes(ms) + rest;
    if ms.len() == 0 {
        assert(s =~= rest);
        assert(ms =~= Seq::<Animation>::empty());
    } else {
        assert(s[0] == ' ');
        assert(s[1] == mode_char(ms[0]));
        assert(char_mode(mode_char(ms[0])) == Some(ms[0]));
        assert(s.skip(2) =~= render_modes(ms.drop_first()) + rest);
        lemma_parse_modes_of_render(ms.drop_first(), rest);
        assert(seq![ms[0]] + ms.drop_first() =~= ms);
    }
}

proof fn lemma_parse_bool_field_of_render(name: Seq<char>, bs: Seq<bool>, rest: Seq<char>)
    requires
        bs.len() <= usize::MAX,
    ensures
        parse_bool_field(name + dec_digits(bs.len()) + render_bools(bs) + seq!['\n'] + rest, name)
            == Some((bs, rest)),
{
    let s = name + dec_digits(bs.len()) + render_bools(bs) + seq!['\n'] + rest;
    let after_name = dec_digits(bs.len()) + render_bools(bs) + seq!['\n'] + rest;
    assert(s =~= name + after_name);
    lemma_spec_lit_prefix(name, after_name);
    let after_num = render_bools(bs) + (seq!['\n'] + rest);
    assert(after_name =~= dec_digits(bs.len()) + after_num);
    if bs.len() > 0 {
        assert(after_num[0] == ' ');
        assert(!is_dec_digit(' '));
    } else {
        assert(after_num =~= seq!['\n'] + rest);
        assert(after_num[0] == '\n');
        assert(!is_dec_digit('\n'));
    }
    lemma_spec_num_dec(bs.len(), after_num);
    lemma_parse_bools_of_render(bs, seq!['\n'] + rest);
    lemma_spec_lit_prefix(seq!['\n'], rest);
}

proof fn lemma_parse_speed_field_of_render(ss: Seq<Speed>, rest: Seq<char>)
    requires
        ss.len() <= usize::MAX,
    ensures
        parse_speed_field("speed "@ + dec_digits(ss.len()) + render_speeds(ss) + seq!['\n'] + rest)
            == Some((ss, rest)),
{
    let s = "speed "@ + dec_digits(ss.len()) + render_speeds(ss) + seq!['\n'] + rest;
    let after_name = dec_digits(ss.len()) + render_speeds(ss) + seq!['\n'] + rest;
    assert(s =~= "speed "@ + after_name);
    lemma_spec_lit_prefix("speed "@, after_name);
    let after_num = render_speeds(ss) + (seq!['\n'] + rest);
    assert(after_name =~= dec_digits(ss.len()) + after_num);
    if ss.len() > 0 {
        assert(after_num[0] == ' ');
        assert(!is_dec_digit(' '));
    } else {
        assert(after_num =~= seq!['\n'] + rest);
        assert(after_num[0] == '\n');
        assert(!is_dec_digit('\n'));
    }
    lemma_spec_num_dec(ss.len(), after_num);
    lemma_parse_speeds_of_render(ss, seq!['\n'] + rest);
    lemma_spec_lit_prefix(seq!['\n'], rest);
}

proof fn lemma_parse_mode_field_of_render(ms: Seq<Animation>, rest: Seq<char>)
    requires
        ms.len() <= usize::MAX,
    ensures
        parse_mode_field("mode "@ + dec_digits(ms.len()) + render_modes(ms) + seq!['\n'] + rest)
            == Some((ms, rest)),
{
    let s = "mode "@ + dec_digits(ms.len()) + render_modes(ms) + seq!['\n'] + rest;
    let after_name = dec_digits(ms.len()) + render_modes(ms) + seq!['\n'] + rest;
    assert(s =~= "mode "@ + after_name);
    lemma_spec_lit_prefix("mode "@, after_name);
    let after_num = render_modes(ms) + (seq!['\n'] + rest);
    assert(after_name =~= dec_digits(ms.len()) + after_num);
    if ms.len() > 0 {
        assert(after_num[0] == ' ');
        assert(!is_dec_digit(' '));
    } else {
        assert(after_num =~= seq!['\n'] + rest);
        assert(after_num[0] == '\n');
        assert(!is_dec_digit('\n'));
    }
    lemma_spec_num_dec(ms.len(), after_num);
    lemma_parse_modes_of_render(ms, seq!['\n'] + rest);
    lemma_spec_lit_prefix(seq!['\n'], rest);
}

/// The record codec round trip: a rendered record, under the current or
/// the legacy text-field name, parses back to exactly the message it was
/// rendered from.
#[verifier::rlimit(100)]
#[verifier::spinoff_prover]
pub proof fn lemma_parse_of_render(m: MessageView, legacy: bool)
    requires
        m.wf(),
        sizes_fit(m),
    ensures
        parse_message(render_message(m, legacy)) == Some(m),
{
    reveal_strlit("file_name ");
    reveal_strlit("texts ");
    reveal_strlit("hex_strings ");
    reveal_strlit("inverted ");
    reveal_strlit("flash ");
    reveal_strlit("marquee ");
    reveal_strlit("speed ");
    reveal_strlit("mode ");
    let s = render_message(m, legacy);
    let tex_name = if legacy {
        "hex_strings "@
    } else {
        "texts "@
    };
    let f7 = "mode "@ + dec_digits(m.mode.len()) + render_modes(m.mode) + seq!['\n'];
    let r6 = f7;
    let r5 = "speed "@ + dec_digits(m.speed.len()) + render_speeds(m.speed) + seq!['\n'] + r6;
    let r4 = "marquee "@ + dec_digits(m.marquee.len()) + render_bools(m.marquee) + seq!['\n'] + r5;
    let r3 = "flash "@ + dec_digits(m.flash.len()) + render_bools(m.flash) + seq!['\n'] + r4;
    let r2 = "inverted "@ + dec_digits(m.inverted.len()) + render_bools(m.inverted) + seq!['\n']
        + r3;
    let r1 = tex_name + dec_digits(m.texts.len()) + render_texts(m.texts) + seq!['\n'] + r2;
    // field_name line
    let rest0 = dec_digits(m.file_name.len()) + seq![' '] + m.file_name + (seq!['\n'] + r1);
    assert(s =~= "file_name "@ + rest0);
    lemma_spec_lit_prefix("file_name "@, rest0);
    lemma_parse_sized_of_render(m.file_name, seq!['\n'] + r1);
    lemma_spec_lit_prefix(seq!['\n'], r1);
    // texts line
    let rest_t = dec_digits(m.texts.len()) + (render_texts(m.texts) + (seq!['\n'] + r2));
    assert(r1 =~= tex_name + rest_t);
    lemma_spec_lit_prefix(tex_name, rest_t);
    if legacy {
        // the current name is not a prefix of the legacy line
        assert(r1[0] == 'h');
        if "texts "@.len() <= r1.len() {
            assert(r1.subrange(0, "texts "@.len() as int)[0] == 'h');
            assert("texts "@[0] == 't');
            assert(r1.subrange(0, "texts "@.len() as int) != "texts "@);
        }
        assert(spec_lit(r1, "texts "@) is None);
    }
    let after_tnum = render_texts(m.texts) + (seq!['\n'] + r2);
    if m.texts.len() > 0 {
        assert(render_texts(m.texts)[0] == ' ');
        assert(after_tnum[0] == ' ');
        assert(!is_dec_digit(' '));
    } else {
        assert(after_tnum =~= seq!['\n'] + r2);
        assert(after_tnum[0] == '\n');
        assert(!is_dec_digit('\n'));
    }
    lemma_spec_num_dec(m.texts.len(), after_tnum);
    lemma_parse_texts_of_render(m.texts, seq!['\n'] + r2);
    lemma_spec_lit_prefix(seq!['\n'], r2);
    // the four attribute fields
    assert(r2 =~= "inverted "@ + dec_digits(m.inverted.len()) + render_bools(m.inverted)
        + seq!['\n'] + r3);
    lemma_parse_bool_field_of_render("inverted "@, m.inverted, r3);
    assert(r3 =~= "flash "@ + dec_digits(m.flash.len()) + render_bools(m.flash) + seq!['\n'] + r4);
    lemma_parse_bool_field_of_render("flash "@, m.flash, r4);
    assert(r4 =~= "marquee "@ + dec_digits(m.marquee.len()) + render_bools(m.marquee) + seq!['\n']
        + r5);
    lemma_parse_bool_field_of_render("marquee "@, m.marquee, r5);
    assert(r5 =~= "speed "@ + dec_digits(m.speed.len()) + render_speeds(m.speed) + seq!['\n'] + r6);
    lemma_parse_speed_field_of_render(m.speed, r6);
    assert(r6 =~= "mode "@ + dec_digits(m.mode.len()) + render_modes(m.mode) + seq!['\n']
        + Seq::<char>::empty());
    lemma_parse_mode_field_of_render(m.mode, Seq::<char>::empty());
    assert(parse_message(s) == Some(m));
}

/// Legacy compatibility: a record written under the old text-field name
/// parses to exactly the same message as one written under the current
/// name with the same content.
pub proof fn lemma_legacy_field_same_message(m: MessageView)
    requires
        m.wf(),
        sizes_fit(m),
    ensures
        parse_message(render_message(m, true)) == parse_message(render_message(m, false)),
{
    lemma_parse_of_render(m, true);
    lemma_parse_of_render(m, false);
}

} // verus!
