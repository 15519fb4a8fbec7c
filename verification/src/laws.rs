//! What holds of every folded content line.
use vstd::prelude::*;
use vstd::utf8::{
    is_char_boundary, is_continuation_byte, length_of_first_scalar, pop_first_scalar, valid_utf8,
};
use crate::boundary::{
    boundary, is_char_start, lemma_boundary_range, lemma_last_start, no_start_within, LIMIT,
};
use crate::fold::{
    continuation, folded, lemma_line_break_text, line_break, segments, segments_from, LINE_BREAK,
};
use crate::size::{break_count, folded_size, BREAK_LEN};

verus! {

/// The bytes of content that physical line `i` may hold: `LIMIT` on the first
/// line, and one less on every later line, which begins with a space.
pub open spec fn room(i: int) -> int {
    if i == 0 {
        LIMIT as int
    } else {
        LIMIT - 1
    }
}

/// Every offset of `rest` that lies a whole number of continuation lines past
/// `limit` holds a byte that begins a character.
pub open spec fn starts_at_every_limit(rest: Seq<u8>, limit: int) -> bool {
    forall|j: int|
        limit <= j < rest.len() && (j - limit) % (LIMIT - 1) == 0 ==> is_char_start(
            #[trigger] rest[j],
        )
}

/// How `segments_from` goes on from `rest`: either it cuts at a character
/// start within the window and goes on with what follows, or `rest` is the
/// last segment.
proof fn lemma_segments_step(rest: Seq<u8>, limit: int)
    requires
        0 <= limit,
    ensures
        0 <= boundary(rest, limit) <= rest.len(),
        0 < boundary(rest, limit) < rest.len() ==> {
            let b = boundary(rest, limit);
            let segs = segments_from(rest, limit);
            let later = segments_from(rest.subrange(b, rest.len() as int), LIMIT - 1);
            &&& b <= limit
            &&& is_char_start(rest[b])
            &&& segs.len() == 1 + later.len()
            &&& segs[0] == rest.subrange(0, b)
            &&& segs.drop_first() == later
        },
        !(0 < boundary(rest, limit) < rest.len()) ==> {
            &&& segments_from(rest, limit) == seq![rest]
            &&& (rest.len() <= limit || no_start_within(rest, limit))
        },
{
    lemma_boundary_range(rest, limit);
    let b = boundary(rest, limit);
    if limit < rest.len() {
        lemma_last_start(rest, limit);
    }
    if 0 < b < rest.len() {
        let later = segments_from(rest.subrange(b, rest.len() as int), LIMIT - 1);
        assert(segments_from(rest, limit).drop_first() =~= later);
    }
}

/// Of segment `i` of `rest`: it fits its line unless it is the last and no
/// byte in its window begins a character; if it follows a break, it begins
/// with the start of a character; and the first segment begins where `rest`
/// does.
proof fn lemma_segment_at(rest: Seq<u8>, limit: int, i: int)
    requires
        0 <= limit,
        0 <= i < segments_from(rest, limit).len(),
    ensures
        ({
            let segs = segments_from(rest, limit);
            let width = if i == 0 {
                limit
            } else {
                LIMIT - 1
            };
            &&& segs[i].len() <= width || (i == segs.len() - 1 && no_start_within(segs[i], width))
            &&& i > 0 ==> segs[i].len() > 0 && is_char_start(segs[i][0])
            &&& i == 0 && rest.len() > 0 ==> segs[0].len() > 0 && segs[0][0] == rest[0]
        }),
    decreases rest.len(),
{
    lemma_segments_step(rest, limit);
    let b = boundary(rest, limit);
    let segs = segments_from(rest, limit);
    if 0 < b < rest.len() && i > 0 {
        let tail = rest.subrange(b, rest.len() as int);
        let later = segments_from(tail, LIMIT - 1);
        lemma_segment_at(tail, LIMIT - 1, i - 1);
        lemma_segment_at(tail, LIMIT - 1, 0);
        assert(segs[i] == segs.drop_first()[i - 1]);
        assert(tail[0] == rest[b]);
    }
}

/// The segments of `rest`, one after the other, are `rest`.
proof fn lemma_segments_flatten(rest: Seq<u8>, limit: int)
    requires
        0 <= limit,
    ensures
        segments_from(rest, limit).flatten() == rest,
    decreases rest.len(),
{
    lemma_segments_step(rest, limit);
    let b = boundary(rest, limit);
    let segs = segments_from(rest, limit);
    if 0 < b < rest.len() {
        let tail = rest.subrange(b, rest.len() as int);
        lemma_segments_flatten(tail, LIMIT - 1);
        assert(segs.flatten() =~= segs[0] + segs.drop_first().flatten());
        assert(rest.subrange(0, b) + tail =~= rest);
    } else {
        assert(segs.drop_first().flatten() =~= Seq::<u8>::empty());
        assert(segs.flatten() =~= rest);
    }
}

/// A continuation is as long as its segments and one break for each.
proof fn lemma_continuation_len(segs: Seq<Seq<u8>>)
    ensures
        continuation(segs).len() == segs.flatten().len() + BREAK_LEN * segs.len(),
    decreases segs.len(),
{
    if segs.len() > 0 {
        lemma_continuation_len(segs.drop_first());
    }
}

/// With a character start at every limit, each segment but the last fills
/// its line.
proof fn lemma_segment_count(rest: Seq<u8>, limit: int)
    requires
        0 < limit,
        starts_at_every_limit(rest, limit),
    ensures
        segments_from(rest, limit).len() == if rest.len() > limit {
            2 + (rest.len() - limit - 1) / (LIMIT - 1)
        } else {
            1
        },
    decreases rest.len(),
{
    lemma_segments_step(rest, limit);
    if rest.len() > limit {
        assert(is_char_start(rest[limit]));
        assert(boundary(rest, limit) == limit);
        let tail = rest.subrange(limit, rest.len() as int);
        assert forall|j: int|
            LIMIT - 1 <= j < tail.len() && (j - (LIMIT - 1)) % (LIMIT - 1) == 0 implies is_char_start(
            #[trigger] tail[j],
        ) by {
            assert(tail[j] == rest[j + limit]);
        }
        lemma_segment_count(tail, LIMIT - 1);
    }
}

/// A content line of at most `LIMIT` bytes is folded to itself, with no break
/// put in.
pub proof fn lemma_short_line_unchanged(content: Seq<u8>)
    requires
        content.len() <= LIMIT,
    ensures
        segments(content) == seq![content],
        folded(content) == content,
{
    lemma_segments_step(content, LIMIT as int);
    assert(segments(content).drop_first() =~= Seq::<Seq<u8>>::empty());
    assert(continuation(segments(content).drop_first()) =~= Seq::<u8>::empty());
    assert(folded(content) =~= content);
}

/// Every segment fits its physical line, with one exception: a segment in
/// whose window no byte begins a character is not cut. It is then the last
/// one, and runs to the end of the content line.
pub proof fn lemma_segment_within_limit(content: Seq<u8>, i: int)
    requires
        0 <= i < segments(content).len(),
    ensures
        segments(content)[i].len() <= room(i) || (i == segments(content).len() - 1
            && no_start_within(segments(content)[i], room(i))),
{
    lemma_segment_at(content, LIMIT as int, i);
}

/// No break is put inside a character: the segment that follows a break is
/// not empty, and its first byte begins a character.
pub proof fn lemma_break_before_char_start(content: Seq<u8>, i: int)
    requires
        0 < i < segments(content).len(),
    ensures
        segments(content)[i].len() > 0,
        is_char_start(segments(content)[i][0]),
{
    lemma_segment_at(content, LIMIT as int, i);
}

/// Folding loses nothing: the segments, one after the other and without the
/// breaks, are the content line.
pub proof fn lemma_segments_restore_content(content: Seq<u8>)
    ensures
        segments(content).len() >= 1,
        segments(content).flatten() == content,
{
    lemma_segments_step(content, LIMIT as int);
    lemma_segments_flatten(content, LIMIT as int);
}

/// The folded form is as long as the content line and one break for each
/// segment after the first.
pub proof fn lemma_folded_len(content: Seq<u8>)
    ensures
        folded(content).len() == content.len() + BREAK_LEN * (segments(content).len() - 1),
{
    let segs = segments(content);
    lemma_segments_restore_content(content);
    lemma_continuation_len(segs.drop_first());
    assert(segs.flatten() =~= segs[0] + segs.drop_first().flatten());
}

/// `folded_size` is the length of the folded form of exactly those content
/// lines that are cut into one segment more than `break_count` counts breaks.
pub proof fn lemma_size_is_folded_len(content: Seq<u8>)
    ensures
        folded(content).len() == folded_size(content.len()) <==> segments(content).len() == 1
            + break_count(content.len()),
{
    lemma_folded_len(content);
}

/// A content line with a character start at each offset where a full line
/// ends is cut at those offsets, and `folded_size` is the length of its
/// folded form.
pub proof fn lemma_full_lines_size(content: Seq<u8>)
    requires
        starts_at_every_limit(content, LIMIT as int),
    ensures
        segments(content).len() == 1 + break_count(content.len()),
        folded(content).len() == folded_size(content.len()),
{
    lemma_folded_len(content);
    lemma_segment_count(content, LIMIT as int);
}

/// `folded_size` is the length of the folded form of every content line of
/// single-byte characters.
pub proof fn lemma_single_bytes_size(content: Seq<u8>)
    requires
        forall|j: int| 0 <= j < content.len() ==> #[trigger] content[j] < 128,
    ensures
        folded(content).len() == folded_size(content.len()),
{
    lemma_full_lines_size(content);
}

/// The offset in the content line at which segment `i` of `segs` begins: the
/// lengths of the segments before it, added up.
pub open spec fn segment_offset(segs: Seq<Seq<u8>>, i: int) -> int
    decreases i,
{
    if i <= 0 || segs.len() == 0 {
        0
    } else {
        segs[0].len() + segment_offset(segs.drop_first(), i - 1)
    }
}

/// Segment `i` of `rest` is the part of `rest` at its offset, and a segment
/// that follows a break begins at a byte of `rest` that begins a character.
proof fn lemma_segment_place(rest: Seq<u8>, limit: int, i: int)
    requires
        0 <= limit,
        0 <= i < segments_from(rest, limit).len(),
    ensures
        ({
            let segs = segments_from(rest, limit);
            let at = segment_offset(segs, i);
            &&& 0 <= at
            &&& at + segs[i].len() <= rest.len()
            &&& segs[i] == rest.subrange(at, at + segs[i].len())
            &&& i > 0 ==> 0 < at < rest.len() && is_char_start(rest[at])
        }),
    decreases rest.len(),
{
    lemma_segments_step(rest, limit);
    let b = boundary(rest, limit);
    let segs = segments_from(rest, limit);
    if i == 0 {
        assert(segs[0] =~= rest.subrange(0, segs[0].len() as int));
    } else {
        let tail = rest.subrange(b, rest.len() as int);
        let later = segments_from(tail, LIMIT - 1);
        lemma_segment_place(tail, LIMIT - 1, i - 1);
        lemma_segment_at(tail, LIMIT - 1, i - 1);
        let inner = segment_offset(later, i - 1);
        assert(segs[i] == segs.drop_first()[i - 1]);
        assert(segment_offset(segs, i) == b + inner);
        assert(tail.subrange(inner, inner + later[i - 1].len()) =~= rest.subrange(
            b + inner,
            b + inner + later[i - 1].len(),
        ));
        assert(tail[inner] == rest[b + inner]);
    }
}

/// No break falls inside a character: the offset in the content line at
/// which a break is put holds a byte that begins a character, and the segment
/// after the break is the content line from that offset on.
pub proof fn lemma_break_at_char_start(content: Seq<u8>, i: int)
    requires
        0 < i < segments(content).len(),
    ensures
        0 < segment_offset(segments(content), i) < content.len(),
        is_char_start(content[segment_offset(segments(content), i)]),
        segments(content)[i] == content.subrange(
            segment_offset(segments(content), i),
            segment_offset(segments(content), i) + segments(content)[i].len(),
        ),
{
    lemma_segment_place(content, LIMIT as int, i);
}

/// In well-formed text any four bytes in a row hold the start of a character.
pub proof fn lemma_start_within_four(bytes: Seq<u8>, i: int)
    requires
        valid_utf8(bytes),
        0 <= i,
        i + 3 < bytes.len(),
    ensures
        exists|j: int| i <= j <= i + 3 && is_char_start(#[trigger] bytes[j]),
    decreases bytes.len(),
{
    reveal_with_fuel(valid_utf8, 2);
    let n = length_of_first_scalar(bytes);
    let rest = pop_first_scalar(bytes);
    if i == 0 {
        assert(is_char_start(bytes[0]));
    } else if i < n {
        assert(rest[0] == bytes[n]);
        assert(is_char_start(bytes[n]));
    } else {
        lemma_start_within_four(rest, i - n);
        let j = choose|j: int| i - n <= j <= i - n + 3 && is_char_start(#[trigger] rest[j]);
        assert(rest[j] == bytes[j + n]);
        assert(is_char_start(bytes[j + n]));
    }
}

/// Well-formed text that does not fit a line of four bytes or more is cut
/// within the line, between two characters, and what follows the cut is
/// well-formed too.
proof fn lemma_text_step(rest: Seq<u8>, limit: int)
    requires
        valid_utf8(rest),
        4 <= limit < rest.len(),
    ensures
        0 < boundary(rest, limit) <= limit,
        is_char_boundary(rest, boundary(rest, limit)),
        valid_utf8(rest.subrange(0, boundary(rest, limit))),
        valid_utf8(rest.subrange(boundary(rest, limit), rest.len() as int)),
{
    lemma_start_within_four(rest, 1);
    lemma_last_start(rest, limit);
    lemma_boundary_range(rest, limit);
    let b = boundary(rest, limit);
    assert(!is_continuation_byte(rest[b]));
    vstd::utf8::is_char_boundary_iff_not_is_continuation_byte(rest, b);
    vstd::utf8::valid_utf8_split(rest, b);
}

/// Every segment of well-formed text fits its line and is well-formed text.
proof fn lemma_text_segment_at(rest: Seq<u8>, limit: int, i: int)
    requires
        valid_utf8(rest),
        4 <= limit,
        0 <= i < segments_from(rest, limit).len(),
    ensures
        ({
            let segs = segments_from(rest, limit);
            &&& segs[i].len() <= if i == 0 {
                limit
            } else {
                LIMIT - 1
            }
            &&& valid_utf8(segs[i])
        }),
    decreases rest.len(),
{
    lemma_segments_step(rest, limit);
    let segs = segments_from(rest, limit);
    if limit < rest.len() {
        lemma_text_step(rest, limit);
        let b = boundary(rest, limit);
        if i > 0 {
            lemma_text_segment_at(rest.subrange(b, rest.len() as int), LIMIT - 1, i - 1);
            assert(segs[i] == segs.drop_first()[i - 1]);
        }
    } else {
        lemma_boundary_range(rest, limit);
    }
}

/// Well-formed text has at least as many segments as text of its length
/// that fills every line.
proof fn lemma_text_segment_count(rest: Seq<u8>, limit: int)
    requires
        valid_utf8(rest),
        4 <= limit,
    ensures
        segments_from(rest, limit).len() >= if rest.len() > limit {
            2 + (rest.len() - limit - 1) / (LIMIT - 1)
        } else {
            1
        },
    decreases rest.len(),
{
    lemma_segments_step(rest, limit);
    if limit < rest.len() {
        lemma_text_step(rest, limit);
        let b = boundary(rest, limit);
        lemma_text_segment_count(rest.subrange(b, rest.len() as int), LIMIT - 1);
    }
}

/// A content line that is well-formed text always offers a place to cut:
/// every segment fits its physical line, and is well-formed text itself.
pub proof fn lemma_text_segment_within_limit(content: Seq<u8>, i: int)
    requires
        valid_utf8(content),
        0 <= i < segments(content).len(),
    ensures
        segments(content)[i].len() <= room(i),
        valid_utf8(segments(content)[i]),
{
    lemma_text_segment_at(content, LIMIT as int, i);
}

/// The folded form of well-formed text is never shorter than `folded_size`
/// says. It is longer where a cut had to move left of a full line and the
/// text so came to need one line more.
pub proof fn lemma_text_folded_len_at_least_size(content: Seq<u8>)
    requires
        valid_utf8(content),
    ensures
        folded(content).len() >= folded_size(content.len()),
{
    lemma_folded_len(content);
    lemma_text_segment_count(content, LIMIT as int);
}

/// A continuation of well-formed segments is well-formed text.
proof fn lemma_continuation_is_text(segs: Seq<Seq<u8>>)
    requires
        forall|i: int| 0 <= i < segs.len() ==> valid_utf8(#[trigger] segs[i]),
    ensures
        valid_utf8(continuation(segs)),
    decreases segs.len(),
{
    if segs.len() > 0 {
        let later = segs.drop_first();
        assert forall|i: int| 0 <= i < later.len() implies valid_utf8(#[trigger] later[i]) by {
            assert(later[i] == segs[i + 1]);
        }
        lemma_continuation_is_text(later);
        lemma_line_break_text();
        vstd::utf8::encode_utf8_valid_utf8(LINE_BREAK@);
        vstd::utf8::valid_utf8_concat(line_break(), segs[0]);
        vstd::utf8::valid_utf8_concat(line_break() + segs[0], continuation(later));
    }
}

/// The folded form of well-formed text is well-formed text.
pub proof fn lemma_folded_text_is_text(content: Seq<u8>)
    requires
        valid_utf8(content),
    ensures
        valid_utf8(folded(content)),
{
    let segs = segments(content);
    lemma_segments_step(content, LIMIT as int);
    assert forall|i: int| 0 <= i < segs.len() implies valid_utf8(#[trigger] segs[i]) by {
        lemma_text_segment_at(content, LIMIT as int, i);
    }
    let later = segs.drop_first();
    assert forall|i: int| 0 <= i < later.len() implies valid_utf8(#[trigger] later[i]) by {
        assert(later[i] == segs[i + 1]);
    }
    lemma_continuation_is_text(later);
    vstd::utf8::valid_utf8_concat(segs[0], continuation(later));
}

} // verus!
