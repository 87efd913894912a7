//! Questions about the source text, asked by byte offset.

use vstd::prelude::*;
use vstd::slice::slice_index_get;
use vstd::string::StringSliceAdditionalSpecFns;
use vstd::utf8::{
    decode_utf8, encode_utf8_decode_utf8, encode_utf8_valid_utf8, is_char_boundary,
    is_char_boundary_iff_not_is_continuation_byte, is_char_boundary_start_end_of_seq,
};

verus! {

/// Whether the second character after byte `end` is a line feed: the test
/// that tells a blank line after an element that ends at `end`. It looks at
/// that one character and at nothing else.
pub open spec fn next_line_empty(bytes: Seq<u8>, end: int) -> bool {
    let tail = decode_utf8(bytes.subrange(end, bytes.len() as int));
    tail.len() > 1 && tail[1] == '\n'
}

/// Executable form of [`next_line_empty`].
pub fn is_next_line_empty(source: &str, end: u32) -> (b: bool)
    requires
        is_char_boundary(source.spec_bytes(), end as int),
    ensures
        b == next_line_empty(source.spec_bytes(), end as int),
{
    broadcast use vstd::string::group_string_axioms;
    broadcast use vstd::utf8::group_utf8_lib;

    let (_, tail) = source.split_at(end as usize);
    assert(tail@ == decode_utf8(tail.spec_bytes()));
    let mut it = tail.chars();
    let first = it.next();
    let second = it.next();
    match second {
        Some(c) => c == '\n',
        None => false,
    }
}

/// The text of the source from byte `start` up to byte `end`.
pub fn text_between<'a>(source: &'a str, start: u32, end: u32) -> (text: &'a str)
    requires
        start <= end,
        is_char_boundary(source.spec_bytes(), start as int),
        is_char_boundary(source.spec_bytes(), end as int),
    ensures
        text@ == decode_utf8(source.spec_bytes().subrange(start as int, end as int)),
{
    let (head, _) = source.split_at(end as usize);
    proof {
        let all = source.spec_bytes();
        let first = head.spec_bytes();
        encode_utf8_valid_utf8(source@);
        encode_utf8_valid_utf8(head@);
        if start < end {
            is_char_boundary_iff_not_is_continuation_byte(all, start as int);
            is_char_boundary_iff_not_is_continuation_byte(first, start as int);
        } else {
            is_char_boundary_start_end_of_seq(first);
        }
    }
    let (_, text) = head.split_at(start as usize);
    proof {
        encode_utf8_decode_utf8(text@);
        assert(text.spec_bytes() =~= source.spec_bytes().subrange(start as int, end as int));
    }
    text
}

/// The text of the source from byte `start` up to byte `end`, where these
/// are offsets of the text in order and cut no character.
pub fn text_at<'a>(source: &'a str, start: u32, end: u32) -> (text: Option<&'a str>)
    ensures
        text is Some <==> start <= end && is_char_boundary(source.spec_bytes(), start as int)
            && is_char_boundary(source.spec_bytes(), end as int),
        text matches Some(t) ==> t@ == decode_utf8(
            source.spec_bytes().subrange(start as int, end as int),
        ),
{
    if start <= end && source.is_char_boundary(start as usize) && source.is_char_boundary(
        end as usize,
    ) {
        Some(text_between(source, start, end))
    } else {
        None
    }
}

/// Whether only spaces and tabs stand from byte `from` up to byte `to`.
pub open spec fn only_blanks(bytes: Seq<u8>, from: int, to: int) -> bool {
    forall|i: int| from <= i < to ==> (#[trigger] bytes[i] == 32 || bytes[i] == 9)
}

/// Executable form of [`only_blanks`].
pub fn only_blanks_between(source: &str, from: u32, to: u32) -> (b: bool)
    requires
        from <= to <= source.spec_bytes().len(),
    ensures
        b == only_blanks(source.spec_bytes(), from as int, to as int),
{
    let bytes = source.as_bytes();
    let mut i: usize = from as usize;
    while i < to as usize
        invariant
            from <= i <= to <= bytes@.len(),
            bytes@ == source.spec_bytes(),
            only_blanks(bytes@, from as int, i as int),
        decreases to - i,
    {
        let b = *slice_index_get(bytes, i);
        if !(b == 32 || b == 9) {
            return false;
        }
        i = i + 1;
    }
    true
}

/// Whether byte `at` is a line feed.
pub open spec fn newline_at(bytes: Seq<u8>, at: int) -> bool {
    0 <= at < bytes.len() && bytes[at] == 10
}

/// Executable form of [`newline_at`].
pub fn is_newline_at(source: &str, at: u32) -> (b: bool)
    ensures
        b == newline_at(source.spec_bytes(), at as int),
{
    let bytes = source.as_bytes();
    (at as usize) < bytes.len() && *slice_index_get(bytes, at as usize) == 10
}

} // verus!
