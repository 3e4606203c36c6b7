//! What is read for a build: the text of the metadata file, line by line.

use crate::boundaries::{lemma_boundaries_around_ascii, slice, slice_of};
use crate::error::JustTextError;
use crate::meta::{has_two_parts, malformed_metadatum_message, metadatum_of, Metadatum};
use crate::runs::{lemma_run_len, lemma_run_len_unique, run_len};
use crate::text::other_than;
use vstd::prelude::*;
use vstd::utf8::{
    encode_utf8, encode_utf8_valid_utf8, is_char_boundary, is_char_boundary_start_end_of_seq,
    valid_utf8,
};

verus! {

/// The byte of the line feed.
pub const LINE_FEED: u8 = 0x0a;

/// The byte of the carriage return.
pub const CARRIAGE_RETURN: u8 = 0x0d;

/// The offset of the first line feed of `bytes` at or behind `from`, or
/// the length of `bytes` where there is none.
pub open spec fn line_break(bytes: Seq<u8>, from: int) -> int {
    from + run_len(bytes, from, other_than(LINE_FEED))
}

/// Where the line that starts at `from` ends: at its line feed, or at the
/// carriage return that stands before the line feed, or at the end of
/// `bytes`.
pub open spec fn line_end(bytes: Seq<u8>, from: int) -> int {
    let at = line_break(bytes, from);
    if at < bytes.len() && from < at && bytes[at - 1] == CARRIAGE_RETURN {
        at - 1
    } else {
        at
    }
}

/// The lines of `bytes` from `from` on, without their line endings. A
/// line ends with a line feed or with a carriage return and a line feed;
/// the last line needs no ending.
pub open spec fn lines_from(bytes: Seq<u8>, from: int) -> Seq<Seq<char>>
    decreases bytes.len() - from + 1,
{
    if 0 <= from < bytes.len() {
        proof {
            lemma_run_len(bytes, from, other_than(LINE_FEED));
        }
        seq![slice_of(bytes, (from as usize, line_end(bytes, from) as usize))] + lines_from(
            bytes,
            line_break(bytes, from) + 1,
        )
    } else {
        Seq::empty()
    }
}

/// The lines of a text.
pub open spec fn lines_of(text: Seq<char>) -> Seq<Seq<char>> {
    lines_from(encode_utf8(text), 0)
}

/// The texts of `lines`.
pub open spec fn texts_of(lines: Seq<&str>) -> Seq<Seq<char>> {
    lines.map_values(|line: &str| line@)
}

/// The lines of `text`, without their line endings.
pub fn lines<'a>(text: &'a str) -> (lines: Vec<&'a str>)
    ensures
        texts_of(lines@) == lines_of(text@),
{
    let bytes = text.as_bytes();
    let len = bytes.len();
    let mut lines: Vec<&'a str> = Vec::new();
    let mut from: usize = 0;
    proof {
        encode_utf8_valid_utf8(text@);
        is_char_boundary_start_end_of_seq(bytes@);
        assert(texts_of(lines@) =~= Seq::<Seq<char>>::empty());
    }
    while from < len
        invariant
            bytes@ == encode_utf8(text@),
            valid_utf8(bytes@),
            len == bytes@.len(),
            from <= len,
            is_char_boundary(bytes@, from as int),
            is_char_boundary(bytes@, len as int),
            texts_of(lines@) + lines_from(bytes@, from as int) == lines_of(text@),
        decreases len - from,
    {
        let mut at: usize = from;
        while at < len && bytes[at] != LINE_FEED
            invariant
                from <= at <= len,
                len == bytes@.len(),
                forall|k: int| from <= k < at ==> (#[trigger] bytes@[k]) != LINE_FEED,
            decreases len - at,
        {
            at = at + 1;
        }
        proof {
            lemma_run_len_unique(bytes@, from as int, at as int, other_than(LINE_FEED));
            if at < len {
                lemma_boundaries_around_ascii(bytes@, at as int);
            }
        }
        let end = if at < len && from < at && bytes[at - 1] == CARRIAGE_RETURN {
            proof {
                lemma_boundaries_around_ascii(bytes@, at - 1);
            }
            at - 1
        } else {
            at
        };
        let line = slice(text, (from, end));
        proof {
            assert(texts_of(lines@.push(line)) =~= texts_of(lines@).push(line@));
            assert(texts_of(lines@).push(line@) + lines_from(bytes@, at + 1) =~= texts_of(lines@)
                + lines_from(bytes@, from as int));
        }
        lines.push(line);
        if at == len {
            proof {
                assert(lines_from(bytes@, at + 1) =~= Seq::<Seq<char>>::empty());
            }
            return lines;
        }
        from = at + 1;
    }
    lines
}

/// The class of the lines that say what a metadatum is.
pub open spec fn well_formed() -> spec_fn(Seq<char>) -> bool {
    |line: Seq<char>| metadatum_of(line) is Some
}

/// Reads the text of the metadata file: one metadatum from each line.
/// The first line that cannot be read fails the whole.
pub fn parse_metadata(contents: &str) -> (result: Result<Vec<Metadatum>, JustTextError<'static>>)
    ensures
        match result {
            Ok(metadata) => {
                &&& metadata@.len() == lines_of(contents@).len()
                &&& forall|i: int|
                    0 <= i < metadata@.len() ==> metadatum_of(lines_of(contents@)[i]) == Some(
                        ((#[trigger] metadata@[i]).filename@, metadata@[i].created@),
                    )
            },
            Err(error) => {
                let bad = run_len(lines_of(contents@), 0, well_formed()) as int;
                &&& bad < lines_of(contents@).len()
                &&& !has_two_parts(encode_utf8(lines_of(contents@)[bad])) ==> error@
                    == malformed_metadatum_message()
            },
        },
{
    let lines = lines(contents);
    let mut metadata: Vec<Metadatum> = Vec::new();
    let mut i: usize = 0;
    while i < lines.len()
        invariant
            i <= lines.len(),
            texts_of(lines@) == lines_of(contents@),
            metadata@.len() == i,
            forall|k: int|
                0 <= k < i ==> metadatum_of(lines_of(contents@)[k]) == Some(
                    ((#[trigger] metadata@[k]).filename@, metadata@[k].created@),
                ),
        decreases lines.len() - i,
    {
        assert(texts_of(lines@)[i as int] == lines@[i as int]@);
        match Metadatum::from_str(lines[i]) {
            Ok(metadatum) => {
                metadata.push(metadatum);
            },
            Err(error) => {
                proof {
                    let all = lines_of(contents@);
                    assert forall|k: int| 0 <= k < i implies well_formed()(#[trigger] all[k]) by {
                        assert(metadatum_of(all[k]) == Some(
                            (metadata@[k].filename@, metadata@[k].created@),
                        ));
                    }
                    assert(!well_formed()(all[i as int]));
                    lemma_run_len_unique(all, 0, i as int, well_formed());
                }
                return Err(error);
            },
        }
        i = i + 1;
    }
    Ok(metadata)
}

} // verus!
