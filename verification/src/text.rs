//! Facts about byte offsets inside UTF-8 text.

use vstd::prelude::*;
use vstd::string::StringSliceAdditionalSpecFns;
use vstd::utf8::*;

verus! {

/// The number of bytes that a UTF-8 sequence occupies, judged from its first byte alone.
pub open spec fn scalar_width(first: u8) -> int {
    if first < 0x80 {
        1
    } else if first < 0xE0 {
        2
    } else if first < 0xF0 {
        3
    } else {
        4
    }
}

/// `i` is an offset of `bytes` at which a character starts, or the end of `bytes`.
pub open spec fn on_boundary(bytes: Seq<u8>, i: int) -> bool {
    0 <= i <= bytes.len() && (i < bytes.len() ==> !is_continuation_byte(bytes[i]))
}

/// On well-formed text, `on_boundary` is vstd's `is_char_boundary`.
pub proof fn lemma_boundary_is_char_boundary(bytes: Seq<u8>, i: int)
    requires
        valid_utf8(bytes),
    ensures
        on_boundary(bytes, i) <==> is_char_boundary(bytes, i),
{
    if 0 <= i < bytes.len() {
        is_char_boundary_iff_not_is_continuation_byte(bytes, i);
    } else if i == bytes.len() {
        is_char_boundary_start_end_of_seq(bytes);
    } else {
        if i != 0 {
            reveal_with_fuel(is_char_boundary, 1);
        }
    }
}

/// The text after a boundary is well-formed.
pub proof fn lemma_suffix_valid(bytes: Seq<u8>, i: int)
    requires
        valid_utf8(bytes),
        on_boundary(bytes, i),
    ensures
        valid_utf8(bytes.subrange(i, bytes.len() as int)),
        valid_utf8(bytes.subrange(0, i)),
{
    lemma_boundary_is_char_boundary(bytes, i);
    valid_utf8_split(bytes, i);
}

/// The character that starts at a boundary ends inside the text, at the next boundary.
pub proof fn lemma_boundary_step(bytes: Seq<u8>, i: int)
    requires
        valid_utf8(bytes),
        on_boundary(bytes, i),
        i < bytes.len(),
    ensures
        on_boundary(bytes, i + scalar_width(bytes[i])),
{
    lemma_suffix_valid(bytes, i);
    let rest = bytes.subrange(i, bytes.len() as int);
    assert(rest[0] == bytes[i]);
    assert(valid_first_scalar(rest));
    let w = length_of_first_scalar(rest);
    assert(w == scalar_width(bytes[i]));
    assert(w <= rest.len());
    let after = pop_first_scalar(rest);
    assert(valid_utf8(after));
    assert(after =~= bytes.subrange(i + w, bytes.len() as int));
    if i + w < bytes.len() {
        assert(after[0] == bytes[i + w]);
        assert(valid_first_scalar(after));
    }
}

/// The offset after an ASCII byte is a boundary.
pub proof fn lemma_boundary_after_ascii(bytes: Seq<u8>, i: int)
    requires
        valid_utf8(bytes),
        0 < i <= bytes.len(),
        bytes[i - 1] < 0x80,
    ensures
        on_boundary(bytes, i),
{
    lemma_boundary_step(bytes, i - 1);
}

/// The bytes of a string slice are well-formed UTF-8.
pub proof fn lemma_str_bytes_valid(s: &str)
    ensures
        valid_utf8(s.spec_bytes()),
{
    encode_utf8_valid_utf8(s@);
}

/// A boundary of a text is a boundary of each stretch of the text that holds it.
pub proof fn lemma_boundary_within(bytes: Seq<u8>, from: int, to: int, i: int)
    requires
        0 <= from <= i <= to <= bytes.len(),
        on_boundary(bytes, i),
        on_boundary(bytes, to),
    ensures
        on_boundary(bytes.subrange(from, to), i - from),
{
}

/// A boundary of what follows a boundary is a boundary of the whole.
pub proof fn lemma_boundary_of_suffix(bytes: Seq<u8>, from: int, n: int)
    requires
        0 <= from <= bytes.len(),
        on_boundary(bytes.skip(from), n),
    ensures
        on_boundary(bytes, from + n),
{
    if from + n < bytes.len() {
        assert(bytes.skip(from)[n] == bytes[from + n]);
    }
}

/// The stretch of `s` between two boundaries, as a string slice.
pub fn str_slice<'a>(s: &'a str, start: usize, end: usize) -> (r: &'a str)
    requires
        start <= end,
        on_boundary(s.spec_bytes(), start as int),
        on_boundary(s.spec_bytes(), end as int),
    ensures
        r.spec_bytes() == s.spec_bytes().subrange(start as int, end as int),
{
    proof {
        lemma_str_bytes_valid(s);
        lemma_boundary_is_char_boundary(s.spec_bytes(), end as int);
    }
    let (head, _) = s.split_at(end);
    proof {
        lemma_str_bytes_valid(head);
        lemma_boundary_within(s.spec_bytes(), 0, end as int, start as int);
        lemma_boundary_is_char_boundary(head.spec_bytes(), start as int);
    }
    let (_, body) = head.split_at(start);
    assert(body.spec_bytes() =~= s.spec_bytes().subrange(start as int, end as int));
    body
}

/// The number of bytes of `s`.
pub fn byte_len(s: &str) -> (n: usize)
    ensures
        n == s.spec_bytes().len(),
{
    s.as_bytes().len()
}

/// Whether every byte of `s` is ASCII.
pub open spec fn is_ascii_bytes(s: Seq<u8>) -> bool {
    forall|i: int| 0 <= i < s.len() ==> (#[trigger] s[i]) < 0x80
}

/// Well-formed text followed by ASCII is well-formed.
pub proof fn lemma_valid_then_ascii(a: Seq<u8>, b: Seq<u8>)
    requires
        valid_utf8(a),
        is_ascii_bytes(b),
    ensures
        valid_utf8(a + b),
{
    let all = a + b;
    assert(all.subrange(0, a.len() as int) =~= a);
    assert forall|i: int| a.len() <= i < all.len() implies #[trigger] is_leading_byte_width_1(
        all[i],
    ) by {
        assert(all[i] == b[i - a.len()]);
    }
    partial_valid_utf8_extend_ascii_block(all, a.len() as int, all.len() as int);
    assert(all.subrange(0, all.len() as int) =~= all);
}

/// The text between two boundaries of well-formed text is well-formed.
pub proof fn lemma_between_boundaries_valid(bytes: Seq<u8>, start: int, end: int)
    requires
        valid_utf8(bytes),
        start <= end,
        on_boundary(bytes, start),
        on_boundary(bytes, end),
    ensures
        valid_utf8(bytes.subrange(start, end)),
{
    lemma_suffix_valid(bytes, end);
    let head = bytes.subrange(0, end);
    lemma_boundary_within(bytes, 0, end, start);
    lemma_suffix_valid(head, start);
    assert(head.subrange(start, head.len() as int) =~= bytes.subrange(start, end));
}

/// Calls `String::from_utf8` of std, which gives the string that the bytes encode, and
/// fails exactly where they are not well-formed UTF-8. The failure is turned into `None`.
#[verifier::external_body]
pub(crate) fn string_from_utf8(bytes: Vec<u8>) -> (r: Option<String>)
    ensures
        r is Some <==> valid_utf8(bytes@),
        r matches Some(s) ==> encode_utf8(s@) == bytes@,
{
    String::from_utf8(bytes).ok()
}

} // verus!
