//! Decoding output chunks into lines and feeding accepted lines to the store.
use vstd::prelude::*;

use crate::record::{line_record, parse_line, LogView};
use crate::store::{upsert, LogStore};
use crate::text::{split_on, split_seq, views};

verus! {

/// One unit of bytes from a container's output stream, tagged by channel.
pub enum Chunk {
    StdOut(Vec<u8>),
    StdErr(Vec<u8>),
}

/// Why a chunk could not be taken in.
#[derive(Debug, Clone, Copy, PartialEq, Eq, Structural)]
pub enum IngestError {
    /// Removing terminal escape sequences failed.
    Escapes,
    /// The text left is not UTF-8.
    Utf8,
    /// The store cannot count more records than `usize` holds.
    Full,
}

/// What `strip_ansi_escapes::strip` leaves of some bytes: `None` where it fails.
pub uninterp spec fn ansi_stripped(b: Seq<u8>) -> Option<Seq<u8>>;

/// The text that some bytes encode in UTF-8: `None` where they are not UTF-8.
pub uninterp spec fn utf8_text(b: Seq<u8>) -> Option<Seq<char>>;

/// The contents of optional bytes.
pub open spec fn bytes_of(r: Option<Vec<u8>>) -> Option<Seq<u8>> {
    match r {
        Some(v) => Some(v@),
        None => None,
    }
}

/// The contents of an optional string.
pub open spec fn chars_of(r: Option<String>) -> Option<Seq<char>> {
    match r {
        Some(v) => Some(v@),
        None => None,
    }
}

/// Relies on `strip_ansi_escapes::strip`: the bytes without terminal escape
/// sequences; its I/O error becomes `None`.
#[verifier::external_body]
fn strip_escapes(b: &Vec<u8>) -> (r: Option<Vec<u8>>)
    ensures
        bytes_of(r) == ansi_stripped(b@),
{
    strip_ansi_escapes::strip(b).ok()
}

/// Relies on `String::from_utf8`: the text, or `None` where the bytes are not UTF-8.
#[verifier::external_body]
fn decode_utf8(b: Vec<u8>) -> (r: Option<String>)
    ensures
        chars_of(r) == utf8_text(b@),
{
    String::from_utf8(b).ok()
}

/// The text of a standard-output chunk, or why there is none.
pub open spec fn decoded(b: Seq<u8>) -> Result<Seq<char>, IngestError> {
    match ansi_stripped(b) {
        None => Err(IngestError::Escapes),
        Some(c) => match utf8_text(c) {
            None => Err(IngestError::Utf8),
            Some(t) => Ok(t),
        },
    }
}

/// Strips escape sequences from a chunk's bytes and decodes the rest as UTF-8.
pub fn decode_chunk(bytes: &Vec<u8>) -> (r: Result<String, IngestError>)
    ensures
        match r {
            Ok(t) => decoded(bytes@) == Ok::<Seq<char>, IngestError>(t@),
            Err(e) => decoded(bytes@) == Err::<Seq<char>, IngestError>(e),
        },
{
    match strip_escapes(bytes) {
        None => Err(IngestError::Escapes),
        Some(clean) => match decode_utf8(clean) {
            None => Err(IngestError::Utf8),
            Some(t) => Ok(t),
        },
    }
}

/// The newline separator.
pub open spec fn newline() -> Seq<char> {
    "\n"@
}

/// The lines of a decoded text.
pub open spec fn lines_of(t: Seq<char>) -> Seq<Seq<char>> {
    split_seq(t, newline())
}

/// The store after one line: its record inserted, if it yields one.
pub open spec fn take_line(s: Seq<LogView>, line: Seq<char>) -> Seq<LogView> {
    match line_record(line) {
        Some(r) => upsert(s, r),
        None => s,
    }
}

/// The store after each line in turn.
pub open spec fn take_lines(s: Seq<LogView>, lines: Seq<Seq<char>>) -> Seq<LogView>
    decreases lines.len(),
{
    if lines.len() == 0 {
        s
    } else {
        take_line(take_lines(s, lines.drop_last()), lines.last())
    }
}

/// The store after a chunk: standard error is passed over, and standard
/// output is decoded and taken line by line.
pub open spec fn take_chunk(s: Seq<LogView>, c: Chunk) -> Result<Seq<LogView>, IngestError> {
    match c {
        Chunk::StdErr(_) => Ok(s),
        Chunk::StdOut(b) => match decoded(b@) {
            Err(e) => Err(e),
            Ok(t) => if s.len() + lines_of(t).len() >= usize::MAX {
                Err(IngestError::Full)
            } else {
                Ok(take_lines(s, lines_of(t)))
            },
        },
    }
}

/// Parses one line and inserts its record, if it yields one.
pub fn ingest_line(store: &mut LogStore, line: &str)
    requires
        old(store).wf(),
        old(store)@.len() < usize::MAX,
    ensures
        final(store).wf(),
        final(store)@ == take_line(old(store)@, line@),
{
    match parse_line(line) {
        Some(log) => store.insert(log),
        None => {},
    }
}

/// Parses each line in turn and inserts the records they yield.
pub fn ingest_lines(store: &mut LogStore, lines: &Vec<String>)
    requires
        old(store).wf(),
        old(store)@.len() + lines@.len() < usize::MAX,
    ensures
        final(store).wf(),
        final(store)@ == take_lines(old(store)@, views(lines@)),
{
    let ghost s0 = store@;
    let mut i: usize = 0;
    while i < lines.len()
        invariant
            store.wf(),
            i <= lines@.len(),
            s0.len() + lines@.len() < usize::MAX,
            store@.len() <= s0.len() + i,
            store@ == take_lines(s0, views(lines@).subrange(0, i as int)),
        decreases lines@.len() - i,
    {
        proof {
            let ls = views(lines@).subrange(0, i + 1);
            assert(ls.drop_last() =~= views(lines@).subrange(0, i as int));
            assert(ls.last() == lines@[i as int]@);
            lemma_upsert_len(store@, line_record(lines@[i as int]@));
        }
        ingest_line(store, lines[i].as_str());
        i = i + 1;
    }
    assert(views(lines@).subrange(0, lines@.len() as int) =~= views(lines@));
}

proof fn lemma_upsert_len(s: Seq<LogView>, r: Option<LogView>)
    ensures
        r is Some ==> upsert(s, r->0).len() <= s.len() + 1,
{
}

/// Takes one chunk: standard error is passed over; standard output is
/// decoded, cut into lines, and each line's record inserted. On an error
/// the store is left as it was.
pub fn ingest_chunk(store: &mut LogStore, chunk: &Chunk) -> (r: Result<(), IngestError>)
    requires
        old(store).wf(),
    ensures
        final(store).wf(),
        match take_chunk(old(store)@, *chunk) {
            Ok(s) => r is Ok && final(store)@ == s,
            Err(e) => r == Err::<(), IngestError>(e) && final(store)@ == old(store)@,
        },
{
    match chunk {
        Chunk::StdErr(_) => Ok(()),
        Chunk::StdOut(bytes) => match decode_chunk(bytes) {
            Err(e) => Err(e),
            Ok(text) => {
                proof {
                    reveal_strlit("\n");
                }
                let lines = split_on(text.as_str(), "\n");
                if store.len() >= usize::MAX - lines.len() {
                    Err(IngestError::Full)
                } else {
                    ingest_lines(store, &lines);
                    Ok(())
                }
            },
        },
    }
}

} // verus!
