//! The wire-code decoder: splits a raw hex string into fixed-width groups
//! and resolves each group, or run of groups, to displayed text.
//!
//! Resolution order for the group at position `i` is a deliberate
//! shortest-match-first precedence: a single-group glyph, then a
//! single-group keyword, then a two-group keyword, then a three-group
//! keyword; a group that resolves to nothing is dropped and decoding moves
//! on to the next group.

use vstd::prelude::*;

use crate::tables::{table_lookup, entries_view, CodeEntryView, GlyphTable, KeywordTable};

verus! {

/// Width in hex digits of one wire-code group.
pub const GROUP_WIDTH: usize = 22;

/// Split `s` into consecutive, non-overlapping groups of `GROUP_WIDTH`
/// characters; the final group is kept even if it is shorter.
pub open spec fn groups_of(s: Seq<char>) -> Seq<Seq<char>>
    decreases s.len(),
{
    if s.len() == 0 {
        Seq::empty()
    } else if s.len() <= GROUP_WIDTH {
        seq![s]
    } else {
        seq![s.take(GROUP_WIDTH as int)] + groups_of(s.skip(GROUP_WIDTH as int))
    }
}

/// One pass of the decoder over `gs` starting at group `i`: the decoded
/// text, the number of groups resolved, and the number of groups dropped
/// as unresolved.
pub open spec fn decode_from(
    g: Seq<CodeEntryView>,
    k: Seq<CodeEntryView>,
    gs: Seq<Seq<char>>,
    i: int,
) -> (Seq<char>, nat, nat)
    decreases gs.len() - i,
    when 0 <= i <= gs.len()
{
    if i >= gs.len() {
        (Seq::empty(), 0nat, 0nat)
    } else if table_lookup(g, gs[i]) is Some {
        let r = decode_from(g, k, gs, i + 1);
        (table_lookup(g, gs[i])->0 + r.0, r.1 + 1, r.2)
    } else if table_lookup(k, gs[i]) is Some {
        let r = decode_from(g, k, gs, i + 1);
        (table_lookup(k, gs[i])->0 + r.0, r.1 + 1, r.2)
    } else if i + 1 < gs.len() && table_lookup(k, gs[i] + gs[i + 1]) is Some {
        let r = decode_from(g, k, gs, i + 2);
        (table_lookup(k, gs[i] + gs[i + 1])->0 + r.0, r.1 + 1, r.2)
    } else if i + 2 < gs.len() && table_lookup(k, gs[i] + gs[i + 1] + gs[i + 2]) is Some {
        let r = decode_from(g, k, gs, i + 3);
        (table_lookup(k, gs[i] + gs[i + 1] + gs[i + 2])->0 + r.0, r.1 + 1, r.2)
    } else {
        let r = decode_from(g, k, gs, i + 1);
        (r.0, r.1, (r.2 + 1) as nat)
    }
}

/// What decoding one segment yields: the decoded text and whether any
/// group was dropped as unresolved. A segment in which no group resolves
/// at all is left exactly as it came in, so text that never was a wire
/// code survives a round trip unchanged.
pub open spec fn decode_segment_spec(
    g: Seq<CodeEntryView>,
    k: Seq<CodeEntryView>,
    s: Seq<char>,
) -> (Seq<char>, bool) {
    let gs = groups_of(s);
    let r = decode_from(g, k, gs, 0);
    if r.1 == 0 {
        (s, false)
    } else {
        (r.0, r.2 > 0)
    }
}

/// Split a raw hex string into its wire-code groups.
pub fn split_groups(s: &str) -> (r: Vec<String>)
    ensures
        crate::message::strings_view(r@) == groups_of(s@),
{
    let n = s.unicode_len();
    let mut out: Vec<String> = Vec::new();
    let mut i: usize = 0;
    proof {
        assert(s@.skip(0) =~= s@);
        assert(crate::message::strings_view(out@) =~= Seq::<Seq<char>>::empty());
        assert(groups_of(s@) =~= crate::message::strings_view(out@) + groups_of(s@.skip(0)));
    }
    while i < n
        invariant
            0 <= i <= n,
            n == s@.len(),
            groups_of(s@) =~= crate::message::strings_view(out@) + groups_of(s@.skip(i as int)),
        decreases n - i,
    {
        let end = if n - i <= GROUP_WIDTH {
            n
        } else {
            i + GROUP_WIDTH
        };
        let piece = s.substring_char(i, end).to_owned();
        let ghost before = out@;
        out.push(piece);
        proof {
            let tail = s@.skip(i as int);
            assert(crate::message::strings_view(out@) =~= crate::message::strings_view(before)
                .push(s@.subrange(i as int, end as int)));
            if n - i <= GROUP_WIDTH {
                assert(tail =~= s@.subrange(i as int, end as int));
                assert(groups_of(tail) =~= seq![s@.subrange(i as int, end as int)]);
                assert(groups_of(s@.skip(end as int)) =~= Seq::<Seq<char>>::empty());
            } else {
                assert(tail.take(GROUP_WIDTH as int) =~= s@.subrange(i as int, end as int));
                assert(tail.skip(GROUP_WIDTH as int) =~= s@.skip(end as int));
                assert(groups_of(tail) =~= seq![s@.subrange(i as int, end as int)] + groups_of(
                    s@.skip(end as int),
                ));
            }
            assert(groups_of(s@) =~= crate::message::strings_view(out@) + groups_of(
                s@.skip(end as int),
            ));
        }
        i = end;
    }
    proof {
        assert(s@.skip(n as int) =~= Seq::<char>::empty());
        assert(groups_of(s@.skip(n as int)) =~= Seq::<Seq<char>>::empty());
        assert(groups_of(s@) =~= crate::message::strings_view(out@));
    }
    out
}

/// The decoder: a glyph table and a keyword table, consulted in
/// shortest-match-first order.
#[derive(Debug)]
pub struct Decoder {
    pub glyphs: GlyphTable,
    pub keywords: KeywordTable,
}

impl Decoder {
    /// The glyph table's model.
    pub open spec fn gv(self) -> Seq<CodeEntryView> {
        entries_view(self.glyphs.entries@)
    }

    /// The keyword table's model.
    pub open spec fn kv(self) -> Seq<CodeEntryView> {
        entries_view(self.keywords.entries@)
    }

    pub fn new(glyphs: GlyphTable, keywords: KeywordTable) -> (d: Decoder)
        ensures
            d.gv() == entries_view(glyphs.entries@),
            d.kv() == entries_view(keywords.entries@),
    {
        Decoder { glyphs, keywords }
    }

    /// Decode one raw segment. Returns the decoded text and whether any
    /// group was silently dropped as unresolved.
    pub fn decode_segment(&self, s: &str) -> (r: (String, bool))
        ensures
            r.0@ == decode_segment_spec(self.gv(), self.kv(), s@).0,
            r.1 == decode_segment_spec(self.gv(), self.kv(), s@).1,
    {
        let groups = split_groups(s);
        let ghost gs = groups_of(s@);
        let ghost g = self.gv();
        let ghost k = self.kv();
        let mut out = String::new();
        let mut resolved: usize = 0;
        let mut dropped: usize = 0;
        let mut i: usize = 0;
        proof {
            assert(decode_from(g, k, gs, 0).0 =~= out@ + decode_from(g, k, gs, 0).0);
        }
        while i < groups.len()
            invariant
                0 <= i <= groups.len(),
                gs == groups_of(s@),
                gs == crate::message::strings_view(groups@),
                g == self.gv(),
                k == self.kv(),
                resolved <= i,
                dropped <= i,
                decode_from(g, k, gs, 0).0 == out@ + decode_from(g, k, gs, i as int).0,
                decode_from(g, k, gs, 0).1 == resolved + decode_from(g, k, gs, i as int).1,
                decode_from(g, k, gs, 0).2 == dropped + decode_from(g, k, gs, i as int).2,
            decreases groups.len() - i,
        {
            proof {
                assert(gs[i as int] == groups@[i as int]@);
            }
            let step: usize;
            match self.glyphs.lookup(&groups[i]) {
                Some(t) => {
                    proof {
                        let rest = decode_from(g, k, gs, i + 1);
                        assert(out@ + (t@ + rest.0) =~= (out@ + t@) + rest.0);
                    }
                    out.append(t.as_str());
                    resolved = resolved + 1;
                    step = 1;
                },
                None => {
                    match self.keywords.lookup(&groups[i]) {
                        Some(t) => {
                            proof {
                                let rest = decode_from(g, k, gs, i + 1);
                                assert(out@ + (t@ + rest.0) =~= (out@ + t@) + rest.0);
                            }
                            out.append(t.as_str());
                            resolved = resolved + 1;
                            step = 1;
                        },
                        None => {
                            let mut taken: usize = 0;
                            if i + 1 < groups.len() {
                                let two = groups[i].clone().concat(groups[i + 1].as_str());
                                proof {
                                    assert(gs[i as int + 1] == groups@[i as int + 1]@);
                                    assert(two@ == gs[i as int] + gs[i as int + 1]);
                                }
                                match self.keywords.lookup(&two) {
                                    Some(t) => {
                                        proof {
                                            let rest = decode_from(g, k, gs, i + 2);
                                            assert(out@ + (t@ + rest.0) =~= (out@ + t@) + rest.0);
                                        }
                                        out.append(t.as_str());
                                        resolved = resolved + 1;
                                        taken = 2;
                                    },
                                    None => {
                                        if i + 2 < groups.len() {
                                            let three = two.concat(groups[i + 2].as_str());
                                            proof {
                                                assert(gs[i as int + 2] == groups@[i as int + 2]@);
                                                assert(three@ == gs[i as int] + gs[i as int + 1]
                                                    + gs[i as int + 2]);
                                            }
                                            match self.keywords.lookup(&three) {
                                                Some(t) => {
                                                    proof {
                                                        let rest = decode_from(g, k, gs, i + 3);
                                                        assert(out@ + (t@ + rest.0) =~= (out@ + t@)
                                                            + rest.0);
                                                    }
                                                    out.append(t.as_str());
                                                    resolved = resolved + 1;
                                                    taken = 3;
                                                },
                                                None => {
                                                    dropped = dropped + 1;
                                                    taken = 1;
                                                },
                                            }
                                        } else {
                                            dropped = dropped + 1;
                                            taken = 1;
                                        }
                                    },
                                }
                            } else {
                                dropped = dropped + 1;
                                taken = 1;
                            }
                            step = taken;
                        },
                    }
                },
            }
            i = i + step;
        }
        proof {
            assert(decode_from(g, k, gs, gs.len() as int).0 =~= Seq::<char>::empty());
            assert(out@ =~= out@ + Seq::<char>::empty());
            assert(out@ == decode_from(g, k, gs, 0).0);
        }
        if resolved == 0 {
            let original = s.to_owned();
            (original, false)
        } else {
            (out, dropped > 0)
        }
    }
}

/// The built-in glyph code page: one fixed-width hex group per displayed
/// character.
pub open spec fn default_glyph_entries() -> Seq<CodeEntryView> {
    seq![
        CodeEntryView { code: "00007c828282fe82828200"@, text: "A"@ },
        CodeEntryView { code: "0000fc8282fc8282fc0000"@, text: "B"@ },
        CodeEntryView { code: "00007c8280808080827c00"@, text: "C"@ },
        CodeEntryView { code: "000010305010101010fe00"@, text: "1"@ },
    ]
}

/// The built-in keyword code page: symbols written as one, two or three
/// concatenated groups.
pub open spec fn default_keyword_entries() -> Seq<CodeEntryView> {
    seq![
        CodeEntryView { code: "006c92824428100000000a"@, text: "heart"@ },
        CodeEntryView {
            code: "0000384482a2828282a2443800000000000000000000"@,
            text: "smile"@,
        },
        CodeEntryView {
            code: "003844828282824428000000ff00ff00ff00ff00ff00ff00ff00ff00ff00ff00ff"@,
            text: "rainbow"@,
        },
    ]
}

/// The decoder with the built-in code page.
pub fn default_decoder() -> (d: Decoder)
    ensures
        d.gv() == default_glyph_entries(),
        d.kv() == default_keyword_entries(),
{
    proof {
        reveal_strlit("A");
        reveal_strlit("B");
        reveal_strlit("C");
        reveal_strlit("1");
    }
    let mut g = GlyphTable::new();
    g.insert(
        String::from_str("00007c828282fe82828200"),
        String::from_str("A"),
    );
    g.insert(
        String::from_str("0000fc8282fc8282fc0000"),
        String::from_str("B"),
    );
    g.insert(
        String::from_str("00007c8280808080827c00"),
        String::from_str("C"),
    );
    g.insert(
        String::from_str("000010305010101010fe00"),
        String::from_str("1"),
    );
    let mut k = KeywordTable::new();
    k.insert(
        String::from_str("006c92824428100000000a"),
        String::from_str("heart"),
    );
    k.insert(
        String::from_str("0000384482a2828282a2443800000000000000000000"),
        String::from_str("smile"),
    );
    k.insert(
        String::from_str("003844828282824428000000ff00ff00ff00ff00ff00ff00ff00ff00ff00ff00ff"),
        String::from_str("rainbow"),
    );
    proof {
        assert(entries_view(g.entries@) =~= default_glyph_entries());
        assert(entries_view(k.entries@) =~= default_keyword_entries());
    }
    Decoder::new(g, k)
}

/// Shortest match first: when the glyph table knows the first group, the
/// decoded text begins with that glyph, whatever longer keyword codes might
/// also start there.
pub proof fn lemma_glyph_precedence(
    g: Seq<CodeEntryView>,
    k: Seq<CodeEntryView>,
    s: Seq<char>,
)
    requires
        groups_of(s).len() > 0,
        table_lookup(g, groups_of(s)[0]) is Some,
    ensures
        decode_segment_spec(g, k, s).0 == table_lookup(g, groups_of(s)[0])->0 + decode_from(
            g,
            k,
            groups_of(s),
            1,
        ).0,
{
    let gs = groups_of(s);
    assert(decode_from(g, k, gs, 0).1 > 0);
}

/// A two-group keyword code standing at the very end of the input resolves
/// through the two-group path: no third group is consulted.
pub proof fn lemma_two_group_keyword_at_end(
    g: Seq<CodeEntryView>,
    k: Seq<CodeEntryView>,
    gs: Seq<Seq<char>>,
    i: int,
)
    requires
        0 <= i,
        i + 2 == gs.len(),
        table_lookup(g, gs[i]) is None,
        table_lookup(k, gs[i]) is None,
        table_lookup(k, gs[i] + gs[i + 1]) is Some,
    ensures
        decode_from(g, k, gs, i).0 == table_lookup(k, gs[i] + gs[i + 1])->0,
        decode_from(g, k, gs, i).1 == 1,
        decode_from(g, k, gs, i).2 == 0,
{
    let t = table_lookup(k, gs[i] + gs[i + 1])->0;
    assert(decode_from(g, k, gs, i + 2).0 =~= Seq::<char>::empty());
    assert(decode_from(g, k, gs, i).0 =~= t + Seq::<char>::empty());
    assert(t + Seq::<char>::empty() =~= t);
}

/// The same boundary stated of a whole input: an input of exactly two
/// groups that form a keyword code decodes to that keyword alone, with
/// nothing dropped.
pub proof fn lemma_two_group_keyword_input(
    g: Seq<CodeEntryView>,
    k: Seq<CodeEntryView>,
    s: Seq<char>,
)
    requires
        groups_of(s).len() == 2,
        table_lookup(g, groups_of(s)[0]) is None,
        table_lookup(k, groups_of(s)[0]) is None,
        table_lookup(k, groups_of(s)[0] + groups_of(s)[1]) is Some,
    ensures
        decode_segment_spec(g, k, s).0 == table_lookup(
            k,
            groups_of(s)[0] + groups_of(s)[1],
        )->0,
        decode_segment_spec(g, k, s).1 == false,
{
    lemma_two_group_keyword_at_end(g, k, groups_of(s), 0);
}

} // verus!
