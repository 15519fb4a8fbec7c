//! Where a content line may be cut.
use vstd::prelude::*;
use vstd::string::StringSliceAdditionalSpecFns;

verus! {

/// The greatest number of bytes that one physical line may hold.
pub const LIMIT: usize = 75;

/// A byte that begins a character: a single-byte character or the leading
/// byte of a multi-byte one. Every other byte continues a character.
pub open spec fn is_char_start(b: u8) -> bool {
    b < 128 || b >= 192
}

/// `r` is the rightmost offset in `1..=limit` whose byte begins a character.
pub open spec fn is_rightmost_start(input: Seq<u8>, limit: int, r: int) -> bool {
    &&& 0 < r <= limit < input.len()
    &&& is_char_start(input[r])
    &&& forall|j: int| r < j <= limit ==> !is_char_start(#[trigger] input[j])
}

/// No offset in `1..=limit` holds a byte that begins a character.
pub open spec fn no_start_within(input: Seq<u8>, limit: int) -> bool {
    forall|j: int| 0 < j <= limit ==> !is_char_start(#[trigger] input[j])
}

/// What it means for `r` to be the end of the segment that starts `input`
/// under the given `limit`: the whole input where it fits or where the window
/// offers no place to cut, and the rightmost character start in the window
/// otherwise.
pub open spec fn is_boundary(input: Seq<u8>, limit: int, r: int) -> bool {
    if limit >= input.len() {
        r == input.len()
    } else if no_start_within(input, limit) {
        r == input.len()
    } else {
        is_rightmost_start(input, limit, r)
    }
}

/// The greatest offset in `1..=at` whose byte begins a character, or 0 when
/// there is none.
pub open spec fn last_start(input: Seq<u8>, at: int) -> int
    decreases at,
{
    if at <= 0 {
        0
    } else if is_char_start(input[at]) {
        at
    } else {
        last_start(input, at - 1)
    }
}

/// The end of the segment that starts `input` under the given `limit`.
pub open spec fn boundary(input: Seq<u8>, limit: int) -> int {
    if limit >= input.len() || last_start(input, limit) == 0 {
        input.len() as int
    } else {
        last_start(input, limit)
    }
}

/// `last_start` answers with the rightmost character start of the window, and
/// with 0 exactly when the window holds none.
pub proof fn lemma_last_start(input: Seq<u8>, at: int)
    requires
        0 <= at < input.len(),
    ensures
        0 <= last_start(input, at) <= at,
        last_start(input, at) == 0 <==> no_start_within(input, at),
        last_start(input, at) > 0 ==> is_rightmost_start(input, at, last_start(input, at)),
    decreases at,
{
    if at > 0 && !is_char_start(input[at]) {
        lemma_last_start(input, at - 1);
    }
}

/// `boundary` is the one offset that `is_boundary` admits.
pub proof fn lemma_boundary_unique(input: Seq<u8>, limit: int, r: int)
    requires
        0 <= limit,
    ensures
        is_boundary(input, limit, r) <==> r == boundary(input, limit),
{
    if limit < input.len() {
        lemma_last_start(input, limit);
        let b = last_start(input, limit);
        if b > 0 && is_rightmost_start(input, limit, r) && r != b {
            if r < b {
                assert(!is_char_start(input[b]));
            } else {
                assert(!is_char_start(input[r]));
            }
        }
    }
}

/// A segment of a non-empty input is not empty and does not pass its end.
pub proof fn lemma_boundary_range(input: Seq<u8>, limit: int)
    requires
        0 <= limit,
    ensures
        0 <= boundary(input, limit) <= input.len(),
        input.len() > 0 ==> boundary(input, limit) > 0,
        boundary(input, limit) < input.len() ==> boundary(input, limit) <= limit,
        input.len() <= limit ==> boundary(input, limit) == input.len(),
{
    if limit < input.len() {
        lemma_last_start(input, limit);
    }
}

/// What the window of a limit offers for cutting an input.
#[derive(Clone, Copy, Debug, PartialEq, Eq)]
pub enum Cut {
    /// The input is no longer than the limit: nothing is to be cut.
    Fits,
    /// The rightmost offset, past 0 and at or before the limit, whose byte
    /// begins a character.
    At(usize),
    /// The input is longer than the limit, and no byte past the first and at
    /// or before the limit begins a character.
    NoSafeCut,
}

/// What `find_cut` answers for `input` under `limit`.
pub open spec fn cut_of(input: Seq<u8>, limit: int) -> Cut {
    if limit >= input.len() {
        Cut::Fits
    } else if last_start(input, limit) == 0 {
        Cut::NoSafeCut
    } else {
        Cut::At(last_start(input, limit) as usize)
    }
}

/// Looks for the place to cut `input` when a physical line may hold `limit`
/// bytes of it, scanning back from the byte at `limit` for one that begins a
/// character. The byte at offset 0 is no place to cut.
pub fn find_cut(input: &str, limit: usize) -> (r: Cut)
    ensures
        r == cut_of(input.spec_bytes(), limit as int),
        r is Fits <==> limit >= input.spec_bytes().len(),
        r is NoSafeCut <==> limit < input.spec_bytes().len() && no_start_within(
            input.spec_bytes(),
            limit as int,
        ),
        r matches Cut::At(i) ==> is_rightmost_start(input.spec_bytes(), limit as int, i as int),
{
    let bytes = input.as_bytes();
    if limit >= bytes.len() {
        return Cut::Fits;
    }
    let mut i: usize = limit;
    while i > 0
        invariant
            i <= limit < bytes@.len(),
            bytes@ == input.spec_bytes(),
            last_start(bytes@, limit as int) == last_start(bytes@, i as int),
        decreases i,
    {
        let b: u8 = bytes[i];
        if b < 128 || b >= 192 {
            proof {
                lemma_last_start(bytes@, limit as int);
            }
            return Cut::At(i);
        }
        i -= 1;
    }
    proof {
        lemma_last_start(bytes@, limit as int);
    }
    Cut::NoSafeCut
}

/// Finds where the first segment of `input` ends when a physical line may
/// hold `limit` bytes: the rightmost offset at or before `limit` that begins
/// a character. An input that fits, or whose window holds no such offset
/// past 0, is not cut: the answer is then its full length.
pub fn next_boundary(input: &str, limit: usize) -> (r: usize)
    ensures
        r == boundary(input.spec_bytes(), limit as int),
        is_boundary(input.spec_bytes(), limit as int, r as int),
{
    proof {
        lemma_boundary_unique(
            input.spec_bytes(),
            limit as int,
            boundary(input.spec_bytes(), limit as int),
        );
    }
    match find_cut(input, limit) {
        Cut::At(i) => i,
        Cut::Fits | Cut::NoSafeCut => input.as_bytes().len(),
    }
}

} // verus!
