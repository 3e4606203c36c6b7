//! Small operations on text that the rest of the library is written with.

use crate::boundaries::{lemma_boundaries_around_ascii, slice, slice_of};
use crate::characters::{
    lemma_char_bytes, lemma_char_in_bytes, lemma_encode_concat, lemma_offset_of_all,
    lemma_run_in_bytes, offset_of, same_class,
};
use crate::runs::{lemma_run_len, lemma_run_len_unique, run_len};
use vstd::prelude::*;
use vstd::string::StringExecFns;
use vstd::utf8::{
    char_u32_cast, encode_scalar, encode_utf8, encode_utf8_decode_utf8, encode_utf8_valid_utf8,
    is_char_boundary_start_end_of_seq,
};

verus! {

/// The class of the bytes that are not `byte`.
pub open spec fn other_than(byte: u8) -> spec_fn(u8) -> bool {
    |b: u8| b != byte
}

/// The class of the characters that are not `c`.
pub open spec fn other_char(c: char) -> spec_fn(char) -> bool {
    |d: char| d != c
}

/// The offset of the first byte of `bytes` that is `byte`, or the length of
/// `bytes` where there is none.
pub open spec fn first_index(bytes: Seq<u8>, byte: u8) -> nat {
    run_len(bytes, 0, other_than(byte))
}

/// The offset of the first byte of `text` that is `byte`.
pub fn find(text: &str, byte: u8) -> (index: Option<usize>)
    ensures
        index == if first_index(encode_utf8(text@), byte) < encode_utf8(text@).len() {
            Some(first_index(encode_utf8(text@), byte) as usize)
        } else {
            None
        },
{
    let bytes = text.as_bytes();
    let mut i: usize = 0;
    while i < bytes.len()
        invariant
            i <= bytes@.len(),
            bytes@ == encode_utf8(text@),
            forall|j: int| 0 <= j < i ==> (#[trigger] bytes@[j]) != byte,
        decreases bytes@.len() - i,
    {
        if bytes[i] == byte {
            proof {
                lemma_run_len_unique(bytes@, 0, i as int, other_than(byte));
            }
            return Some(i);
        }
        i = i + 1;
    }
    proof {
        lemma_run_len_unique(bytes@, 0, i as int, other_than(byte));
    }
    None
}

/// `text` with `to` in the place of each `from`: what stands before the
/// first `from`, then `to`, then what stands behind that `from` with `to`
/// in the place of each `from`.
pub open spec fn replaced(text: Seq<char>, from: char, to: Seq<char>) -> Seq<char>
    decreases text.len(),
{
    let first = run_len(text, 0, other_char(from)) as int;
    if 0 <= first < text.len() {
        text.take(first) + to + replaced(text.skip(first + 1), from, to)
    } else {
        text
    }
}

/// Where the first `from` stands in the bytes of `text`, for a `from`
/// below 128: at the bytes of the characters before it. What stands
/// before it and behind it in the bytes is what stands before it and
/// behind it in `text`.
pub proof fn lemma_first_in_bytes(text: Seq<char>, from: u8)
    requires
        from < 0x80,
    ensures
        first_index(encode_utf8(text), from) == offset_of(
            text,
            run_len(text, 0, other_char(from as char)) as int,
        ),
        run_len(text, 0, other_char(from as char)) <= text.len(),
        run_len(text, 0, other_char(from as char)) < text.len() ==> {
            let first = run_len(text, 0, other_char(from as char)) as int;
            let at = offset_of(text, first) as int;
            &&& at < encode_utf8(text).len()
            &&& encode_utf8(text)[at] == from
            &&& encode_utf8(text).subrange(0, at) == encode_utf8(text.take(first))
            &&& encode_utf8(text).subrange(at + 1, encode_utf8(text).len() as int) == encode_utf8(
                text.skip(first + 1),
            )
        },
{
    let chars = other_char(from as char);
    let bytes = encode_utf8(text);
    assert forall|c: char| #![trigger chars(c)] {
        &&& chars(c) ==> forall|j: int|
            0 <= j < encode_scalar(c as u32).len() ==> other_than(from)(
                #[trigger] encode_scalar(c as u32)[j],
            )
        &&& !chars(c) ==> !other_than(from)(encode_scalar(c as u32)[0])
    } by {
        lemma_char_bytes(c);
        let f = from as char;
        assert(f as u32 == from);
        assert(chars(c) <==> c != f);
        if c == f {
            assert(encode_scalar(c as u32)[0] == from);
        } else {
            char_u32_cast(c, c as u32);
            char_u32_cast(f, f as u32);
            assert(c as u32 != from);
            if (c as u32) < 0x80 {
                assert(encode_scalar(c as u32)[0] == c as u32);
                assert(encode_scalar(c as u32).len() == 1);
            }
        }
    }
    assert(same_class(chars, other_than(from)));
    lemma_run_len(text, 0, chars);
    lemma_run_in_bytes(text, 0, chars, other_than(from));
    lemma_offset_of_all(text);
    let first = run_len(text, 0, chars) as int;
    if first < text.len() {
        let at = offset_of(text, first) as int;
        lemma_char_in_bytes(text, first);
        lemma_char_bytes(text[first]);
        assert(text[first] == from as char);
        assert((from as char) as u32 == from);
        assert(bytes[at + 0] == encode_scalar(text[first] as u32)[0]);
        assert(text =~= text.take(first) + text.skip(first));
        lemma_encode_concat(text.take(first), text.skip(first));
        assert(text =~= text.take(first + 1) + text.skip(first + 1));
        lemma_encode_concat(text.take(first + 1), text.skip(first + 1));
        assert(bytes.subrange(0, at) =~= encode_utf8(text.take(first)));
        assert(bytes.subrange(at + 1, bytes.len() as int) =~= encode_utf8(text.skip(first + 1)));
    }
}

/// `text` with `to` in the place of each character `from`, which is given
/// as its byte and is below 128.
pub fn replace(text: &str, from: u8, to: &str) -> (result: String)
    requires
        from < 0x80,
    ensures
        result@ == replaced(text@, from as char, to@),
{
    let mut result = String::new();
    let mut rest = text;
    assert(result@ + replaced(rest@, from as char, to@) =~= replaced(text@, from as char, to@));
    loop
        invariant
            from < 0x80,
            result@ + replaced(rest@, from as char, to@) == replaced(text@, from as char, to@),
        decreases rest@.len(),
    {
        let len = rest.as_bytes().len();
        proof {
            lemma_first_in_bytes(rest@, from);
            lemma_offset_of_all(rest@);
            encode_utf8_valid_utf8(rest@);
            is_char_boundary_start_end_of_seq(encode_utf8(rest@));
        }
        match find(rest, from) {
            None => {
                result.append(rest);
                return result;
            },
            Some(at) => {
                let ghost first = run_len(rest@, 0, other_char(from as char)) as int;
                proof {
                    lemma_boundaries_around_ascii(encode_utf8(rest@), at as int);
                    encode_utf8_decode_utf8(rest@.take(first));
                    encode_utf8_decode_utf8(rest@.skip(first + 1));
                }
                let head = slice(rest, (0, at));
                let tail = slice(rest, (at + 1, len));
                result.append(head);
                result.append(to);
                proof {
                    assert(head@ == rest@.take(first));
                    assert(tail@ == rest@.skip(first + 1));
                    assert(result@ + replaced(tail@, from as char, to@) =~= replaced(
                        text@,
                        from as char,
                        to@,
                    ));
                }
                rest = tail;
            },
        }
    }
}

} // verus!
