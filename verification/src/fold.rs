//! Folding a content line into physical lines.
use vstd::prelude::*;
use vstd::string::StringExecFns;
use vstd::string::StringSliceAdditionalSpecFns;
use vstd::string::is_ascii;
use vstd::utf8::decode_utf8;
use vstd::utf8::encode_utf8;
use vstd::utf8::is_char_boundary;
use crate::boundary::{boundary, is_char_start, lemma_boundary_range, next_boundary, LIMIT};
use crate::laws::lemma_folded_text_is_text;

verus! {

/// The failure of a sink to take a write. A `String` takes every write, so
/// `fold` never answers with it; the answer of `fold` has this shape so that a
/// caller may treat every sink alike.
#[derive(Clone, Copy, Debug, PartialEq, Eq)]
pub struct SinkError;

/// What is written between two physical lines: carriage return, line feed
/// and the one space that marks the next line as a continuation.
pub const LINE_BREAK: &'static str = "\r\n ";

/// The bytes of `LINE_BREAK`.
pub open spec fn line_break() -> Seq<u8> {
    seq![13u8, 10u8, 32u8]
}

/// The segments into which `rest` is cut when its first physical line may hold
/// `limit` bytes of it. Every later line begins with a space and so holds one
/// byte less than `LIMIT`.
pub open spec fn segments_from(rest: Seq<u8>, limit: int) -> Seq<Seq<u8>>
    decreases rest.len(),
{
    let b = boundary(rest, limit);
    if 0 < b < rest.len() {
        seq![rest.subrange(0, b)] + segments_from(rest.subrange(b, rest.len() as int), LIMIT - 1)
    } else {
        seq![rest]
    }
}

/// The segments of a whole content line.
pub open spec fn segments(content: Seq<u8>) -> Seq<Seq<u8>> {
    segments_from(content, LIMIT as int)
}

/// Each of `segs` in turn, with a line break before it.
pub open spec fn continuation(segs: Seq<Seq<u8>>) -> Seq<u8>
    decreases segs.len(),
{
    if segs.len() == 0 {
        Seq::empty()
    } else {
        line_break() + segs[0] + continuation(segs.drop_first())
    }
}

/// The segments with a line break between each two neighbours.
pub open spec fn join(segs: Seq<Seq<u8>>) -> Seq<u8> {
    if segs.len() == 0 {
        Seq::empty()
    } else {
        segs[0] + continuation(segs.drop_first())
    }
}

/// The folded form of a content line.
pub open spec fn folded(content: Seq<u8>) -> Seq<u8> {
    join(segments(content))
}

/// What is still to be written once everything before `rest` has been.
pub open spec fn pending(rest: Seq<u8>) -> Seq<u8> {
    if rest.len() == 0 {
        Seq::empty()
    } else {
        continuation(segments_from(rest, LIMIT - 1))
    }
}

/// The folded form is the first segment followed by what is pending after it.
pub proof fn lemma_folded_step(content: Seq<u8>)
    ensures
        folded(content) == content.subrange(0, boundary(content, LIMIT as int)) + pending(
            content.subrange(boundary(content, LIMIT as int), content.len() as int),
        ),
{
    lemma_boundary_range(content, LIMIT as int);
    let b = boundary(content, LIMIT as int);
    let tail = content.subrange(b, content.len() as int);
    if 0 < b < content.len() {
        let later = segments_from(tail, LIMIT - 1);
        assert(segments(content).drop_first() =~= later);
    } else {
        assert(content.subrange(0, b) =~= content);
        assert(segments(content).drop_first() =~= Seq::<Seq<u8>>::empty());
        assert(folded(content) =~= content);
    }
}

/// What is pending for a non-empty `rest` is a line break, its first segment,
/// and what is pending after that.
pub proof fn lemma_pending_step(rest: Seq<u8>)
    requires
        rest.len() > 0,
    ensures
        pending(rest) == line_break() + rest.subrange(0, boundary(rest, LIMIT - 1)) + pending(
            rest.subrange(boundary(rest, LIMIT - 1), rest.len() as int),
        ),
{
    lemma_boundary_range(rest, LIMIT - 1);
    let b = boundary(rest, LIMIT - 1);
    let tail = rest.subrange(b, rest.len() as int);
    let segs = segments_from(rest, LIMIT - 1);
    if 0 < b < rest.len() {
        let later = segments_from(tail, LIMIT - 1);
        assert(segs.drop_first() =~= later);
    } else {
        assert(rest.subrange(0, b) =~= rest);
        assert(segs.drop_first() =~= Seq::<Seq<u8>>::empty());
        assert(continuation(segs.drop_first()) =~= Seq::<u8>::empty());
        assert(pending(rest) =~= line_break() + rest);
    }
}

/// The encoding of two texts in a row is the two encodings in a row.
pub proof fn lemma_encode_concat(a: Seq<char>, b: Seq<char>)
    ensures
        encode_utf8(a + b) == encode_utf8(a) + encode_utf8(b),
    decreases a.len(),
{
    if a.len() == 0 {
        assert(a + b =~= b);
        assert(encode_utf8(a) + encode_utf8(b) =~= encode_utf8(b));
    } else {
        lemma_encode_concat(a.drop_first(), b);
        assert((a + b).drop_first() =~= a.drop_first() + b);
        assert(encode_utf8(a + b) =~= encode_utf8(a) + encode_utf8(b));
    }
}

/// Two texts with the same encoding are the same text.
pub proof fn lemma_same_encoding(a: Seq<char>, b: Seq<char>)
    requires
        encode_utf8(a) == encode_utf8(b),
    ensures
        a == b,
{
    vstd::utf8::encode_utf8_decode_utf8(a);
    vstd::utf8::encode_utf8_decode_utf8(b);
}

/// A boundary of well-formed text lies between two characters.
pub proof fn lemma_boundary_between_chars(text: Seq<char>, limit: int)
    requires
        0 <= limit,
    ensures
        is_char_boundary(encode_utf8(text), boundary(encode_utf8(text), limit)),
{
    broadcast use vstd::utf8::group_utf8_lib;

    let bytes = encode_utf8(text);
    let b = boundary(bytes, limit);
    lemma_boundary_range(bytes, limit);
    if b < bytes.len() {
        crate::boundary::lemma_last_start(bytes, limit);
        assert(is_char_start(bytes[b]));
        assert(!vstd::utf8::is_continuation_byte(bytes[b]));
    }
}

/// The text of a line break is the three bytes of `line_break`.
pub proof fn lemma_line_break_text()
    ensures
        LINE_BREAK.spec_bytes() == line_break(),
{
    reveal_strlit("\r\n ");
    broadcast use vstd::string::is_ascii_spec_bytes;

    assert(is_ascii(LINE_BREAK));
    assert(LINE_BREAK.spec_bytes() =~= line_break());
}

/// Appends the folded form of `content` to `writer`: its first segment, and
/// then for each further segment a line break and the segment. A `String`
/// takes every write, so the answer is always `Ok`.
pub fn fold(writer: &mut String, content: &str) -> (r: Result<(), SinkError>)
    ensures
        r is Ok,
        encode_utf8(final(writer)@) == encode_utf8(old(writer)@) + folded(content.spec_bytes()),
        final(writer)@ == old(writer)@ + decode_utf8(folded(content.spec_bytes())),
        content.spec_bytes().len() <= LIMIT ==> final(writer)@ == old(writer)@ + content@,
{
    let first: usize = next_boundary(content, LIMIT);
    proof {
        lemma_boundary_between_chars(content@, LIMIT as int);
        lemma_folded_step(content.spec_bytes());
    }
    let (head, tail) = content.split_at(first);
    proof {
        lemma_encode_concat(writer@, head@);
        if content.spec_bytes().len() <= LIMIT {
            lemma_same_encoding(head@, content@);
        }
    }
    writer.append(head);
    let mut rest: &str = tail;
    while rest.as_bytes().len() > 0
        invariant
            content.spec_bytes().len() <= LIMIT ==> rest.spec_bytes().len() == 0 && writer@ == old(
                writer,
            )@ + content@,
            encode_utf8(writer@) + pending(rest.spec_bytes()) == encode_utf8(old(writer)@)
                + folded(content.spec_bytes()),
        decreases rest.spec_bytes().len(),
    {
        let next: usize = next_boundary(rest, LIMIT - 1);
        proof {
            lemma_boundary_between_chars(rest@, LIMIT - 1);
            lemma_boundary_range(rest.spec_bytes(), LIMIT - 1);
            lemma_pending_step(rest.spec_bytes());
        }
        let (head, tail) = rest.split_at(next);
        let ghost before = writer@;
        writer.append(LINE_BREAK);
        writer.append(head);
        proof {
            lemma_line_break_text();
            lemma_encode_concat(before, LINE_BREAK@);
            lemma_encode_concat(before + LINE_BREAK@, head@);
            assert(encode_utf8(writer@) + pending(tail.spec_bytes()) =~= encode_utf8(before)
                + pending(rest.spec_bytes()));
        }
        rest = tail;
    }
    assert(pending(rest.spec_bytes()) =~= Seq::<u8>::empty());
    assert(encode_utf8(writer@) + Seq::<u8>::empty() =~= encode_utf8(writer@));
    proof {
        let out = folded(content.spec_bytes());
        vstd::utf8::encode_utf8_valid_utf8(content@);
        lemma_folded_text_is_text(content.spec_bytes());
        vstd::utf8::decode_utf8_encode_utf8(out);
        lemma_encode_concat(old(writer)@, decode_utf8(out));
        lemma_same_encoding(writer@, old(writer)@ + decode_utf8(out));
    }
    Ok(())
}

} // verus!
