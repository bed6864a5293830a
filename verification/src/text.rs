use vstd::prelude::*;
use vstd::string::StringExecFns;
use vstd::string::StringSliceAdditionalSpecFns;
use vstd::utf8::*;

verus! {

/// The offsets at which a text may be cut in two: the character boundaries of
/// its UTF-8 bytes, both ends included.
pub open spec fn is_cut(bytes: Seq<u8>, i: int) -> bool {
    0 <= i <= bytes.len() && is_char_boundary(bytes, i)
}

/// The characters that the bytes from `start` up to `end` encode.
pub open spec fn span_text(bytes: Seq<u8>, start: int, end: int) -> Seq<char> {
    decode_utf8(bytes.subrange(start, end))
}

/// Both ends of a text are cuts.
pub proof fn lemma_cut_ends(bytes: Seq<u8>)
    requires
        valid_utf8(bytes),
    ensures
        is_cut(bytes, 0),
        is_cut(bytes, bytes.len() as int),
{
    is_char_boundary_start_end_of_seq(bytes);
}

/// The offset behind a one-byte character is a cut.
proof fn lemma_boundary_after_ascii(bytes: Seq<u8>, i: int)
    requires
        valid_utf8(bytes),
        0 <= i < bytes.len(),
        bytes[i] < 0x80,
    ensures
        is_char_boundary(bytes, i + 1),
    decreases bytes.len(),
{
    let width = length_of_first_scalar(bytes);
    let rest = pop_first_scalar(bytes);
    if i == 0 {
        assert(width == 1);
        assert(is_char_boundary(rest, 0));
    } else {
        is_char_boundary_iff_not_is_continuation_byte(bytes, i);
        reveal_with_fuel(is_char_boundary, 2);
        assert(i >= width);
        assert(rest[i - width] == bytes[i]);
        lemma_boundary_after_ascii(rest, i - width);
    }
}

/// A one-byte character has a cut on either side.
pub proof fn lemma_cut_at_ascii(bytes: Seq<u8>, i: int)
    requires
        valid_utf8(bytes),
        0 <= i < bytes.len(),
        bytes[i] < 0x80,
    ensures
        is_cut(bytes, i),
        is_cut(bytes, i + 1),
{
    is_char_boundary_iff_not_is_continuation_byte(bytes, i);
    lemma_boundary_after_ascii(bytes, i);
}

/// A cut inside a prefix that itself ends at a cut is a cut of that prefix.
pub proof fn lemma_cut_of_prefix(bytes: Seq<u8>, start: int, end: int)
    requires
        valid_utf8(bytes),
        is_cut(bytes, start),
        is_cut(bytes, end),
        start <= end,
    ensures
        valid_utf8(bytes.subrange(0, end)),
        is_cut(bytes.subrange(0, end), start),
{
    let prefix = bytes.subrange(0, end);
    valid_utf8_split(bytes, end);
    if start < end {
        is_char_boundary_iff_not_is_continuation_byte(bytes, start);
        is_char_boundary_iff_not_is_continuation_byte(prefix, start);
    } else {
        is_char_boundary_start_end_of_seq(prefix);
    }
}

/// Encoding distributes over concatenation.
pub proof fn lemma_encode_concat(a: Seq<char>, b: Seq<char>)
    ensures
        encode_utf8(a + b) == encode_utf8(a) + encode_utf8(b),
    decreases a.len(),
{
    if a.len() == 0 {
        assert(a + b =~= b);
        assert(encode_utf8(a) + encode_utf8(b) =~= encode_utf8(b));
    } else {
        lemma_encode_concat(a.drop_first(), b);
        assert((a + b).drop_first() =~= a.drop_first() + b);
        assert(encode_utf8(a + b) =~= encode_utf8(a) + encode_utf8(b));
    }
}

/// The part of `source` between two cuts.
pub fn slice<'a>(source: &'a str, start: usize, end: usize) -> (part: &'a str)
    requires
        start <= end,
        is_cut(source.spec_bytes(), start as int),
        is_cut(source.spec_bytes(), end as int),
    ensures
        part.spec_bytes() == source.spec_bytes().subrange(start as int, end as int),
        part@ == span_text(source.spec_bytes(), start as int, end as int),
{
    proof {
        encode_utf8_valid_utf8(source@);
        lemma_cut_of_prefix(source.spec_bytes(), start as int, end as int);
    }
    let (prefix, _) = source.split_at(end);
    let (_, part) = prefix.split_at(start);
    proof {
        assert(part.spec_bytes() =~= source.spec_bytes().subrange(start as int, end as int));
        encode_utf8_decode_utf8(part@);
    }
    part
}

/// Appends the part of `source` between two cuts to `buffer`.
pub fn append_span(buffer: &mut String, source: &str, start: usize, end: usize)
    requires
        start <= end,
        is_cut(source.spec_bytes(), start as int),
        is_cut(source.spec_bytes(), end as int),
    ensures
        final(buffer)@ == old(buffer)@ + span_text(source.spec_bytes(), start as int, end as int),
        encode_utf8(final(buffer)@) == encode_utf8(old(buffer)@) + source.spec_bytes().subrange(
            start as int,
            end as int,
        ),
{
    let part = slice(source, start, end);
    proof {
        lemma_encode_concat(buffer@, part@);
    }
    buffer.append(part);
}

} // verus!
