//! The message store: a model of the application's record directory, with
//! timestamp-based identity, extension-filtered enumeration and
//! single-record delete. The caller that owns the real directory mirrors
//! these operations onto disk; the store itself decides names, contents
//! and what each raw record means.

use vstd::prelude::*;

use crate::codec::{parse_message, render_message, render_record, parse_record, sizes_fit};
use crate::decoder::{decode_segment_spec, default_decoder, Decoder};
use crate::message::{Message, MessageView};
use crate::tables::CodeEntryView;
use crate::text::{contains_sub, is_dec_digit, str_contains};

verus! {

/// One record as it stands in the store: its file name and its raw text.
#[derive(Debug)]
pub struct StoredFile {
    pub name: String,
    pub content: String,
}

pub struct StoredFileView {
    pub name: Seq<char>,
    pub content: Seq<char>,
}

impl View for StoredFile {
    type V = StoredFileView;

    open spec fn view(&self) -> StoredFileView {
        StoredFileView { name: self.name@, content: self.content@ }
    }
}

pub open spec fn files_view(files: Seq<StoredFile>) -> Seq<StoredFileView> {
    files.map_values(|f: StoredFile| f@)
}

/// Why a store operation failed.
#[derive(Debug, Clone, Copy, PartialEq, Eq, Structural)]
pub enum StoreError {
    /// No record with the given file name is in the store.
    NotFound,
    /// The record's raw text does not conform to the record schema.
    Malformed,
}

/// What loading a raw record yields: parse it, then replace every text
/// segment with the decoder's output for it.
pub open spec fn load_spec(
    g: Seq<CodeEntryView>,
    k: Seq<CodeEntryView>,
    content: Seq<char>,
) -> Option<MessageView> {
    match parse_message(content) {
        None => None,
        Some(m) => Some(
            MessageView {
                texts: m.texts.map_values(|t: Seq<char>| decode_segment_spec(g, k, t).0),
                ..m
            },
        ),
    }
}

/// The per-segment outcome that loading also yields: for each text
/// segment, whether the decoder dropped any unresolved wire code in it.
/// Spec-wise one flag per segment, in segment order.
pub open spec fn load_flags_spec(
    g: Seq<CodeEntryView>,
    k: Seq<CodeEntryView>,
    content: Seq<char>,
) -> Option<Seq<bool>> {
    match parse_message(content) {
        None => None,
        Some(m) => Some(m.texts.map_values(|t: Seq<char>| decode_segment_spec(g, k, t).1)),
    }
}

/// The records whose names carry the extension, in enumeration order.
pub open spec fn matching_files(files: Seq<StoredFileView>, ext: Seq<char>) -> Seq<StoredFileView>
    decreases files.len(),
{
    if files.len() == 0 {
        Seq::empty()
    } else {
        (if contains_sub(files[0].name, ext) {
            seq![files[0]]
        } else {
            Seq::empty()
        }) + matching_files(files.drop_first(), ext)
    }
}

proof fn lemma_matching_snoc(files: Seq<StoredFileView>, ext: Seq<char>, f: StoredFileView)
    ensures
        matching_files(files.push(f), ext) == matching_files(files, ext) + (
        if contains_sub(f.name, ext) {
            seq![f]
        } else {
            Seq::<StoredFileView>::empty()
        }),
    decreases files.len(),
{
    let tail = if contains_sub(f.name, ext) {
        seq![f]
    } else {
        Seq::<StoredFileView>::empty()
    };
    if files.len() == 0 {
        assert(files.push(f)[0] == f);
        assert(files.push(f).drop_first() =~= Seq::<StoredFileView>::empty());
        assert(matching_files(Seq::<StoredFileView>::empty(), ext)
            == Seq::<StoredFileView>::empty());
        assert(matching_files(files.push(f), ext) =~= matching_files(files, ext) + tail);
    } else {
        assert(files.push(f)[0] == files[0]);
        assert(files.push(f).drop_first() =~= files.drop_first().push(f));
        lemma_matching_snoc(files.drop_first(), ext, f);
        assert(matching_files(files.push(f), ext) =~= matching_files(files, ext) + tail);
    }
}

proof fn lemma_matching_contains(files: Seq<StoredFileView>, ext: Seq<char>, i: int)
    requires
        0 <= i < files.len(),
        contains_sub(files[i].name, ext),
    ensures
        exists|j: int|
            0 <= j < matching_files(files, ext).len() && matching_files(files, ext)[j]
                == files[i],
    decreases files.len(),
{
    if i == 0 {
        assert(matching_files(files, ext)[0] == files[0]);
    } else {
        lemma_matching_contains(files.drop_first(), ext, i - 1);
        let m_tail = matching_files(files.drop_first(), ext);
        let j = choose|j: int| 0 <= j < m_tail.len() && m_tail[j] == files.drop_first()[i - 1];
        let head = if contains_sub(files[0].name, ext) {
            seq![files[0]]
        } else {
            Seq::<StoredFileView>::empty()
        };
        assert(matching_files(files, ext)[head.len() + j] == m_tail[j]);
    }
}

/// The store. `files` is the model of the owned directory: each entry one
/// record, names unique, in enumeration order.
#[derive(Debug)]
pub struct Storage {
    pub badge_storage_dir: String,
    pub badge_ext: String,
    pub decoder: Decoder,
    pub files: Vec<StoredFile>,
}

impl Storage {
    /// The model of the owned directory.
    pub open spec fn fv(self) -> Seq<StoredFileView> {
        files_view(self.files@)
    }

    /// Well-formed store: no two records share a name.
    pub open spec fn wf(self) -> bool {
        forall|i: int, j: int|
            0 <= i < j < self.fv().len() ==> self.fv()[i].name != self.fv()[j].name
    }

    /// The store's configuration: what never changes across operations.
    pub open spec fn same_config(self, other: Storage) -> bool {
        &&& self.badge_storage_dir == other.badge_storage_dir
        &&& self.badge_ext == other.badge_ext
        &&& self.decoder == other.decoder
    }

    /// The full path of a record: the owned directory followed by the file
    /// name.
    pub fn get_full_badge_filename(&self, f_name: &String) -> (r: String)
        ensures
            r@ == self.badge_storage_dir@ + f_name@,
    {
        self.badge_storage_dir.clone().concat(f_name.as_str())
    }

    fn find_index(&self, name: &String) -> (r: Option<usize>)
        ensures
            match r {
                Some(i) => 0 <= i < self.fv().len() && self.fv()[i as int].name == name@,
                None => forall|t: int|
                    0 <= t < self.fv().len() ==> self.fv()[t].name != name@,
            },
    {
        let mut i: usize = 0;
        while i < self.files.len()
            invariant
                0 <= i <= self.files@.len(),
                forall|t: int| 0 <= t < i ==> files_view(self.files@)[t].name != name@,
            decreases self.files@.len() - i,
        {
            if self.files[i].name == *name {
                proof {
                    assert(self.fv()[i as int].name == name@);
                }
                return Some(i);
            }
            i = i + 1;
        }
        None
    }

    /// Put a raw record into the store under `name`: a record already
    /// under that name is overwritten, otherwise the record is appended.
    pub fn insert_record(&mut self, name: String, content: String)
        requires
            old(self).wf(),
        ensures
            final(self).wf(),
            old(self).same_config(*final(self)),
            ({
                let fv = old(self).fv();
                let nf = StoredFileView { name: name@, content: content@ };
                if exists|i: int| 0 <= i < fv.len() && fv[i].name == name@ {
                    exists|i: int|
                        0 <= i < fv.len() && fv[i].name == name@ && final(self).fv() == fv.update(
                            i,
                            nf,
                        )
                } else {
                    final(self).fv() == fv.push(nf)
                }
            }),
    {
        let ghost fv = self.fv();
        let nf = StoredFile { name, content };
        match self.find_index(&nf.name) {
            Some(i) => {
                let ghost idx = i as int;
                self.files.set(i, nf);
                proof {
                    assert(self.fv() =~= fv.update(idx, StoredFileView { name: fv[idx].name, content: self.files@[idx]@.content }));
                    assert forall|a: int, b: int| 0 <= a < b < self.fv().len() implies self.fv()[a].name
                        != self.fv()[b].name by {
                        assert(fv[a].name != fv[b].name);
                    }
                }
            },
            None => {
                self.files.push(nf);
                proof {
                    assert(self.fv() =~= fv.push(self.files@[fv.len() as int]@));
                    assert forall|a: int, b: int| 0 <= a < b < self.fv().len() implies self.fv()[a].name
                        != self.fv()[b].name by {
                        if b < fv.len() {
                            assert(fv[a].name != fv[b].name);
                        } else {
                            assert(fv[a].name != self.fv()[b].name);
                        }
                    }
                }
            },
        }
    }

    /// Save `message` under a file name built from `timestamp` plus the
    /// store's extension, and assign that name to the message.
    pub fn save_message_with_timestamp(&mut self, message: &mut Message, timestamp: &String)
        requires
            old(self).wf(),
        ensures
            final(self).wf(),
            old(self).same_config(*final(self)),
            final(message).file_name@ == timestamp@ + old(self).badge_ext@,
            final(message)@ == (MessageView {
                file_name: timestamp@ + old(self).badge_ext@,
                ..old(message)@
            }),
            ({
                let fv = old(self).fv();
                let nm = timestamp@ + old(self).badge_ext@;
                let nf = StoredFileView {
                    name: nm,
                    content: render_message(final(message)@, false),
                };
                if exists|i: int| 0 <= i < fv.len() && fv[i].name == nm {
                    exists|i: int|
                        0 <= i < fv.len() && fv[i].name == nm && final(self).fv() == fv.update(
                            i,
                            nf,
                        )
                } else {
                    final(self).fv() == fv.push(nf)
                }
            }),
    {
        let name = timestamp.clone().concat(self.badge_ext.as_str());
        message.file_name = name.clone();
        let content = render_record(message);
        self.insert_record(name, content);
    }

    /// Save `message` under a fresh timestamp-derived name. The name ends
    /// with the store's extension, and before the extension it consists of
    /// decimal digits, `-` and (for a save moment whose year needs an
    /// initial sign) `+`.
    pub fn save_message(&mut self, message: &mut Message)
        requires
            old(self).wf(),
        ensures
            final(self).wf(),
            old(self).same_config(*final(self)),
            ({
                let nm = final(message).file_name@;
                let ext = old(self).badge_ext@;
                &&& nm.len() > ext.len()
                &&& nm.skip(nm.len() - ext.len()) == ext
                &&& forall|i: int|
                    0 <= i < nm.len() - ext.len() ==> is_dec_digit(#[trigger] nm[i]) || nm[i]
                        == '-' || nm[i] == '+'
                &&& final(message)@ == (MessageView { file_name: nm, ..old(message)@ })
                &&& ({
                    let fv = old(self).fv();
                    let nf = StoredFileView {
                        name: nm,
                        content: render_message(final(message)@, false),
                    };
                    if exists|i: int| 0 <= i < fv.len() && fv[i].name == nm {
                        exists|i: int|
                            0 <= i < fv.len() && fv[i].name == nm && final(self).fv()
                                == fv.update(i, nf)
                    } else {
                        final(self).fv() == fv.push(nf)
                    }
                })
            }),
    {
        let timestamp = current_timestamp();
        self.save_message_with_timestamp(message, &timestamp);
        proof {
            let nm = timestamp@ + old(self).badge_ext@;
            assert(nm.skip(nm.len() - old(self).badge_ext@.len()) =~= old(self).badge_ext@);
            assert(forall|i: int|
                0 <= i < timestamp@.len() ==> is_dec_digit(#[trigger] nm[i]) || nm[i] == '-'
                    || nm[i] == '+');
        }
    }

    /// Load the record named `f_name`: parse its raw text, then decode
    /// every text segment. `NotFound` exactly when no record has that
    /// name; `Malformed` exactly when the record's text does not conform
    /// to the schema.
    pub fn load_badge(&self, f_name: &String) -> (r: Result<Message, StoreError>)
        ensures
            match r {
                Ok(m) => exists|i: int|
                    0 <= i < self.fv().len() && self.fv()[i].name == f_name@ && load_spec(
                        self.decoder.gv(),
                        self.decoder.kv(),
                        #[trigger] self.fv()[i].content,
                    ) == Some(m@),
                Err(StoreError::NotFound) => forall|i: int|
                    0 <= i < self.fv().len() ==> self.fv()[i].name != f_name@,
                Err(StoreError::Malformed) => exists|i: int|
                    0 <= i < self.fv().len() && self.fv()[i].name == f_name@ && load_spec(
                        self.decoder.gv(),
                        self.decoder.kv(),
                        #[trigger] self.fv()[i].content,
                    ) is None,
            },
    {
        match self.find_index(f_name) {
            None => Err(StoreError::NotFound),
            Some(i) => {
                proof {
                    assert(self.fv()[i as int].content == self.files@[i as int]@.content);
                }
                match load_record(&self.decoder, self.files[i].content.as_str()) {
                    None => {
                        proof {
                            assert(load_spec(
                                self.decoder.gv(),
                                self.decoder.kv(),
                                self.fv()[i as int].content,
                            ) is None);
                        }
                        Err(StoreError::Malformed)
                    },
                    Some(m) => {
                        proof {
                            assert(load_spec(
                                self.decoder.gv(),
                                self.decoder.kv(),
                                self.fv()[i as int].content,
                            ) == Some(m@));
                        }
                        Ok(m)
                    },
                }
            },
        }
    }

    /// Like `load_badge`, and additionally reports, for each text
    /// segment of the loaded message, whether the decoder dropped any
    /// unresolved wire code in it — the observable outcome of the
    /// decoder's silent-drop step, so callers can decide what to do with
    /// such a segment.
    pub fn load_badge_with_flags(&self, f_name: &String) -> (r: Result<
        (Message, Vec<bool>),
        StoreError,
    >)
        ensures
            match r {
                Ok(p) => exists|i: int|
                    0 <= i < self.fv().len() && self.fv()[i].name == f_name@ && load_spec(
                        self.decoder.gv(),
                        self.decoder.kv(),
                        #[trigger] self.fv()[i].content,
                    ) == Some(p.0@) && load_flags_spec(
                        self.decoder.gv(),
                        self.decoder.kv(),
                        self.fv()[i].content,
                    ) == Some(p.1@),
                Err(StoreError::NotFound) => forall|i: int|
                    0 <= i < self.fv().len() ==> self.fv()[i].name != f_name@,
                Err(StoreError::Malformed) => exists|i: int|
                    0 <= i < self.fv().len() && self.fv()[i].name == f_name@ && load_spec(
                        self.decoder.gv(),
                        self.decoder.kv(),
                        #[trigger] self.fv()[i].content,
                    ) is None,
            },
    {
        match self.find_index(f_name) {
            None => Err(StoreError::NotFound),
            Some(i) => {
                proof {
                    assert(self.fv()[i as int].content == self.files@[i as int]@.content);
                }
                match load_record_with_flags(&self.decoder, self.files[i].content.as_str()) {
                    None => {
                        proof {
                            assert(load_spec(
                                self.decoder.gv(),
                                self.decoder.kv(),
                                self.fv()[i as int].content,
                            ) is None);
                        }
                        Err(StoreError::Malformed)
                    },
                    Some(p) => {
                        proof {
                            assert(load_spec(
                                self.decoder.gv(),
                                self.decoder.kv(),
                                self.fv()[i as int].content,
                            ) == Some(p.0@));
                        }
                        Ok(p)
                    },
                }
            },
        }
    }

    /// Remove the record named `f_name`. `NotFound` exactly when no
    /// record has that name; on success the store holds every other
    /// record, in its old order.
    pub fn delete_badge(&mut self, f_name: &String) -> (r: Result<(), StoreError>)
        requires
            old(self).wf(),
        ensures
            final(self).wf(),
            old(self).same_config(*final(self)),
            match r {
                Ok(()) => exists|i: int|
                    0 <= i < old(self).fv().len() && old(self).fv()[i].name == f_name@
                        && final(self).fv() == old(self).fv().remove(i),
                Err(e) => {
                    &&& e == StoreError::NotFound
                    &&& final(self).fv() == old(self).fv()
                    &&& forall|i: int|
                        0 <= i < old(self).fv().len() ==> old(self).fv()[i].name != f_name@
                },
            },
    {
        let ghost fv = self.fv();
        match self.find_index(f_name) {
            None => Err(StoreError::NotFound),
            Some(i) => {
                let ghost idx = i as int;
                self.files.remove(i);
                proof {
                    assert(self.fv() =~= fv.remove(idx));
                    assert forall|a: int, b: int| 0 <= a < b < self.fv().len() implies self.fv()[a].name
                        != self.fv()[b].name by {
                        let a0 = if a < idx {
                            a
                        } else {
                            a + 1
                        };
                        let b0 = if b < idx {
                            b
                        } else {
                            b + 1
                        };
                        assert(self.fv()[a] == fv[a0]);
                        assert(self.fv()[b] == fv[b0]);
                        assert(fv[a0].name != fv[b0].name);
                    }
                }
                Ok(())
            },
        }
    }

    /// Load every record whose name carries the store's extension, in
    /// enumeration order. Fails with `Malformed` exactly when one of them
    /// does not conform to the schema.
    pub fn get_all_messages(&self) -> (r: Result<Vec<Message>, StoreError>)
        ensures
            ({
                let m = matching_files(self.fv(), self.badge_ext@);
                let g = self.decoder.gv();
                let k = self.decoder.kv();
                match r {
                    Ok(v) => {
                        &&& v@.len() == m.len()
                        &&& forall|j: int|
                            0 <= j < m.len() ==> load_spec(g, k, #[trigger] m[j].content) == Some(
                                v@[j]@,
                            )
                    },
                    Err(e) => {
                        &&& e == StoreError::Malformed
                        &&& exists|j: int|
                            0 <= j < m.len() && load_spec(g, k, #[trigger] m[j].content) is None
                    },
                }
            }),
    {
        let ghost g = self.decoder.gv();
        let ghost k = self.decoder.kv();
        let ghost fv = self.fv();
        let ghost ext = self.badge_ext@;
        let mut out: Vec<Message> = Vec::new();
        let mut i: usize = 0;
        proof {
            assert(fv.take(0) =~= Seq::<StoredFileView>::empty());
        }
        while i < self.files.len()
            invariant
                0 <= i <= self.files@.len(),
                fv == self.fv(),
                ext == self.badge_ext@,
                g == self.decoder.gv(),
                k == self.decoder.kv(),
                out@.len() == matching_files(fv.take(i as int), ext).len(),
                forall|j: int|
                    0 <= j < out@.len() ==> load_spec(
                        g,
                        k,
                        #[trigger] matching_files(fv.take(i as int), ext)[j].content,
                    ) == Some(out@[j]@),
            decreases self.files@.len() - i,
        {
            let ghost prefix = matching_files(fv.take(i as int), ext);
            proof {
                assert(fv.take(i + 1) =~= fv.take(i as int).push(fv[i as int]));
                lemma_matching_snoc(fv.take(i as int), ext, fv[i as int]);
            }
            if str_contains(self.files[i].name.as_str(), self.badge_ext.as_str()) {
                match load_record(&self.decoder, self.files[i].content.as_str()) {
                    None => {
                        proof {
                            assert(fv[i as int].content == self.files@[i as int]@.content);
                            lemma_matching_contains(fv, ext, i as int);
                            let m_all = matching_files(fv, ext);
                            let j = choose|j: int|
                                0 <= j < m_all.len() && m_all[j] == fv[i as int];
                            assert(load_spec(g, k, m_all[j].content) is None);
                        }
                        return Err(StoreError::Malformed);
                    },
                    Some(m) => {
                        out.push(m);
                        proof {
                            let now = matching_files(fv.take(i + 1), ext);
                            assert(now =~= prefix.push(fv[i as int]));
                            assert forall|j: int| 0 <= j < out@.len() implies load_spec(
                                g,
                                k,
                                #[trigger] now[j].content,
                            ) == Some(out@[j]@) by {
                                if j < out@.len() - 1 {
                                    assert(now[j] == prefix[j]);
                                } else {
                                    assert(now[j] == fv[i as int]);
                                }
                            }
                        }
                    },
                }
            } else {
                proof {
                    assert(matching_files(fv.take(i + 1), ext) =~= prefix);
                }
            }
            i = i + 1;
        }
        proof {
            assert(fv.take(fv.len() as int) =~= fv);
        }
        Ok(out)
    }
}

/// Parse one raw record, decode each of its text segments, and report
/// for each segment whether the decoder dropped any unresolved wire code
/// in it.
pub fn load_record_with_flags(decoder: &Decoder, content: &str) -> (r: Option<
    (Message, Vec<bool>),
>)
    ensures
        match r {
            Some(p) => {
                &&& load_spec(decoder.gv(), decoder.kv(), content@) == Some(p.0@)
                &&& load_flags_spec(decoder.gv(), decoder.kv(), content@) == Some(p.1@)
            },
            None => load_spec(decoder.gv(), decoder.kv(), content@) is None,
        },
{
    let mut m = match parse_record(content) {
        None => {
            return None;
        },
        Some(m) => m,
    };
    let ghost parsed = m@;
    let ghost g = decoder.gv();
    let ghost k = decoder.kv();
    let mut flags: Vec<bool> = Vec::new();
    let mut i: usize = 0;
    while i < m.texts.len()
        invariant
            0 <= i <= m.texts@.len(),
            m.texts@.len() == parsed.texts.len(),
            flags@.len() == i,
            g == decoder.gv(),
            k == decoder.kv(),
            m.file_name@ == parsed.file_name,
            m.inverted@ == parsed.inverted,
            m.flash@ == parsed.flash,
            m.marquee@ == parsed.marquee,
            m.speed@ == parsed.speed,
            m.mode@ == parsed.mode,
            forall|j: int|
                0 <= j < i ==> m.texts@[j]@ == decode_segment_spec(
                    g,
                    k,
                    #[trigger] parsed.texts[j],
                ).0,
            forall|j: int|
                0 <= j < i ==> flags@[j] == decode_segment_spec(g, k, #[trigger] parsed.texts[j]).1,
            forall|j: int| i <= j < m.texts@.len() ==> (#[trigger] m.texts@[j])@ == parsed.texts[j],
        decreases m.texts@.len() - i,
    {
        let decoded = decoder.decode_segment(m.texts[i].as_str());
        m.texts.set(i, decoded.0);
        flags.push(decoded.1);
        i = i + 1;
    }
    proof {
        assert(crate::message::strings_view(m.texts@) =~~= parsed.texts.map_values(
            |t: Seq<char>| decode_segment_spec(g, k, t).0,
        ));
        assert(m@ == (MessageView {
            texts: parsed.texts.map_values(|t: Seq<char>| decode_segment_spec(g, k, t).0),
            ..parsed
        }));
        assert(flags@ =~= parsed.texts.map_values(|t: Seq<char>| decode_segment_spec(g, k, t).1));
    }
    Some((m, flags))
}

/// Parse one raw record and decode each of its text segments.
pub fn load_record(decoder: &Decoder, content: &str) -> (r: Option<Message>)
    ensures
        match r {
            Some(m) => load_spec(decoder.gv(), decoder.kv(), content@) == Some(m@),
            None => load_spec(decoder.gv(), decoder.kv(), content@) is None,
        },
{
    match load_record_with_flags(decoder, content) {
        None => None,
        Some((m, _)) => Some(m),
    }
}

/// Relies on chrono's `Utc::now` and `DateTime::format` with the pattern
/// `%d-%m-%Y-%M-%S-%f`: the save moment in UTC, written as zero-padded
/// decimal numbers (day, month, year, minute, second, nanoseconds)
/// separated by `-`; for a year outside 0..=9999 chrono writes the year
/// with an initial `+` or `-` sign. Which moment comes back depends on
/// the clock, so the contract states only what holds of every outcome: a
/// non-empty string of decimal digits, `-` and `+`. `Utc::now` itself
/// panics when the system clock is before the Unix epoch or beyond
/// chrono's representable range; no argument can exclude that state.
#[verifier::external_body]
fn current_timestamp() -> (r: String)
    ensures
        r@.len() > 0,
        forall|i: int|
            0 <= i < r@.len() ==> is_dec_digit(#[trigger] r@[i]) || r@[i] == '-' || r@[i] == '+',
{
    chrono::Utc::now().format("%d-%m-%Y-%M-%S-%f").to_string()
}

/// Build the store over the application's record directory. The model
/// starts empty; the caller that owns the real directory fills it with
/// `insert_record`, one call per record already on disk.
pub fn build_storage() -> (s: Storage)
    ensures
        s.wf(),
        s.fv().len() == 0,
        s.badge_storage_dir@ == "bitBlinkData/"@,
        s.badge_ext@ == ".txt"@,
        s.decoder.gv() == crate::decoder::default_glyph_entries(),
        s.decoder.kv() == crate::decoder::default_keyword_entries(),
{
    Storage {
        badge_storage_dir: String::from_str("bitBlinkData/"),
        badge_ext: String::from_str(".txt"),
        decoder: default_decoder(),
        files: Vec::new(),
    }
}

// ---------------------------------------------------------------------
// Laws of the store
// ---------------------------------------------------------------------

/// Round-trip identity: a message none of whose segments contains a
/// resolvable wire-code group comes back from its saved record exactly as
/// it was saved — the decoder is a no-op on such segments, not a
/// data-dropping pass.
pub proof fn lemma_save_load_round_trip(
    g: Seq<CodeEntryView>,
    k: Seq<CodeEntryView>,
    m: MessageView,
)
    requires
        m.wf(),
        sizes_fit(m),
        forall|i: int|
            0 <= i < m.texts.len() ==> crate::decoder::decode_from(
                g,
                k,
                crate::decoder::groups_of(#[trigger] m.texts[i]),
                0,
            ).1 == 0,
    ensures
        load_spec(g, k, render_message(m, false)) == Some(m),
{
    crate::codec::lemma_parse_of_render(m, false);
    let mapped = m.texts.map_values(|t: Seq<char>| decode_segment_spec(g, k, t).0);
    assert forall|i: int| 0 <= i < m.texts.len() implies mapped[i] == m.texts[i] by {
        assert(decode_segment_spec(g, k, m.texts[i]).0 == m.texts[i]);
    }
    assert(mapped =~~= m.texts);
    assert(MessageView { texts: mapped, ..m } == m);
}

/// Identity assignment: distinct timestamps give distinct file names, so
/// saves at distinct moments never collide.
pub proof fn lemma_distinct_timestamps_distinct_names(
    t1: Seq<char>,
    t2: Seq<char>,
    ext: Seq<char>,
)
    requires
        t1 != t2,
    ensures
        t1 + ext != t2 + ext,
{
    if t1 + ext == t2 + ext {
        assert((t1 + ext).len() == (t2 + ext).len());
        assert(t1.len() == t2.len());
        assert forall|i: int| 0 <= i < t1.len() implies t1[i] == t2[i] by {
            assert((t1 + ext)[i] == t1[i]);
            assert((t2 + ext)[i] == t2[i]);
        }
        assert(t1 =~= t2);
    }
}

proof fn lemma_matching_all(files: Seq<StoredFileView>, ext: Seq<char>)
    requires
        forall|i: int| 0 <= i < files.len() ==> contains_sub(#[trigger] files[i].name, ext),
    ensures
        matching_files(files, ext) == files,
    decreases files.len(),
{
    if files.len() > 0 {
        lemma_matching_all(files.drop_first(), ext);
        assert(matching_files(files, ext) =~= files);
    }
}

/// Enumeration completeness: a directory of records that all carry the
/// extension and all were rendered from well-formed messages lists in
/// full, and every listed record loads.
pub proof fn lemma_saved_records_enumerable(
    files: Seq<StoredFileView>,
    ext: Seq<char>,
    g: Seq<CodeEntryView>,
    k: Seq<CodeEntryView>,
)
    requires
        forall|i: int| 0 <= i < files.len() ==> contains_sub(#[trigger] files[i].name, ext),
        forall|i: int|
            0 <= i < files.len() ==> exists|mv: MessageView|
                mv.wf() && sizes_fit(mv) && (#[trigger] files[i].content) == render_message(
                    mv,
                    false,
                ),
    ensures
        matching_files(files, ext) == files,
        forall|i: int|
            0 <= i < files.len() ==> load_spec(g, k, #[trigger] files[i].content) is Some,
{
    lemma_matching_all(files, ext);
    assert forall|i: int| 0 <= i < files.len() implies load_spec(
        g,
        k,
        #[trigger] files[i].content,
    ) is Some by {
        let mv = choose|mv: MessageView|
            mv.wf() && sizes_fit(mv) && files[i].content == render_message(mv, false);
        crate::codec::lemma_parse_of_render(mv, false);
    }
}

proof fn lemma_matching_from(files: Seq<StoredFileView>, ext: Seq<char>)
    ensures
        forall|j: int|
            0 <= j < matching_files(files, ext).len() ==> exists|t: int|
                0 <= t < files.len() && #[trigger] matching_files(files, ext)[j] == files[t],
    decreases files.len(),
{
    if files.len() > 0 {
        lemma_matching_from(files.drop_first(), ext);
        let m = matching_files(files, ext);
        let mt = matching_files(files.drop_first(), ext);
        let head: Seq<StoredFileView> = if contains_sub(files[0].name, ext) {
            seq![files[0]]
        } else {
            Seq::empty()
        };
        assert forall|j: int| 0 <= j < m.len() implies exists|t: int|
            0 <= t < files.len() && #[trigger] m[j] == files[t] by {
            if j < head.len() {
                assert(m[j] == files[0]);
            } else {
                assert(m[j] == mt[j - head.len()]);
                let t0 = choose|t0: int|
                    0 <= t0 < files.drop_first().len() && mt[j - head.len()]
                        == files.drop_first()[t0];
                assert(files.drop_first()[t0] == files[t0 + 1]);
                assert(m[j] == files[t0 + 1]);
            }
        }
    }
}

/// Deletion effect: removing a listed record shrinks the listing by
/// exactly one, and no listed record carries the removed name any more.
pub proof fn lemma_delete_shrinks_listing(files: Seq<StoredFileView>, ext: Seq<char>, i: int)
    requires
        forall|a: int, b: int| 0 <= a < b < files.len() ==> files[a].name != files[b].name,
        0 <= i < files.len(),
        contains_sub(files[i].name, ext),
    ensures
        matching_files(files.remove(i), ext).len() + 1 == matching_files(files, ext).len(),
        forall|j: int|
            0 <= j < matching_files(files.remove(i), ext).len() ==> matching_files(
                files.remove(i),
                ext,
            )[j].name != files[i].name,
    decreases files.len(),
{
    let rem = files.remove(i);
    let m = matching_files(files, ext);
    let mr = matching_files(rem, ext);
    if i == 0 {
        assert(rem =~= files.drop_first());
        assert(m =~= seq![files[0]] + matching_files(files.drop_first(), ext));
        lemma_matching_from(files.drop_first(), ext);
        assert forall|j: int| 0 <= j < mr.len() implies mr[j].name != files[0].name by {
            let t0 = choose|t0: int|
                0 <= t0 < files.drop_first().len() && mr[j] == files.drop_first()[t0];
            assert(files.drop_first()[t0] == files[t0 + 1]);
            assert(files[0].name != files[t0 + 1].name);
        }
    } else {
        let dropped = files.drop_first();
        assert(rem.len() > 0);
        assert(rem[0] == files[0]);
        assert(rem.drop_first() =~= dropped.remove(i - 1));
        assert(forall|a: int, b: int|
            0 <= a < b < dropped.len() ==> dropped[a].name != dropped[b].name);
        assert(dropped[i - 1] == files[i]);
        lemma_delete_shrinks_listing(dropped, ext, i - 1);
        let head: Seq<StoredFileView> = if contains_sub(files[0].name, ext) {
            seq![files[0]]
        } else {
            Seq::empty()
        };
        assert(m =~= head + matching_files(dropped, ext));
        assert(mr =~= head + matching_files(dropped.remove(i - 1), ext));
        assert forall|j: int| 0 <= j < mr.len() implies mr[j].name != files[i].name by {
            if j < head.len() {
                assert(mr[j] == files[0]);
                assert(files[0].name != files[i].name);
            } else {
                assert(mr[j] == matching_files(dropped.remove(i - 1), ext)[j - head.len()]);
                assert(matching_files(dropped.remove(i - 1), ext)[j - head.len()].name
                    != dropped[i - 1].name);
            }
        }
    }
}

} // verus!

