//! Decoding of raw field bytes into text: an ASCII fast path behind an
//! explicit scan, and a Windows-1252 fallback for legacy 8-bit data.

use vstd::prelude::*;
use bstr::ByteSlice;

verus! {

use vstd::utf8::*;

/// What the Windows-1252 decoder of `encoding_rs` yields for a byte sequence.
pub uninterp spec fn windows_1252_of(b: Seq<u8>) -> Seq<char>;

/// True when every byte is in the ASCII range.
pub open spec fn all_ascii(b: Seq<u8>) -> bool {
    forall|i: int| 0 <= i < b.len() ==> #[trigger] b[i] < 0x80
}

/// The characters whose code points are the given bytes, one for one.
pub open spec fn ascii_chars(b: Seq<u8>) -> Seq<char> {
    Seq::new(b.len(), |i: int| b[i] as char)
}

/// The text of a field: its bytes read one for one when they are all ASCII,
/// else their Windows-1252 decoding.
pub open spec fn field_text(b: Seq<u8>) -> Seq<char> {
    if all_ascii(b) {
        ascii_chars(b)
    } else {
        windows_1252_of(b)
    }
}

/// The text has one character per byte, and every byte below 0x80 or from
/// 0xA0 on stands for the character of the same code.
pub open spec fn text_agrees(b: Seq<u8>, t: Seq<char>) -> bool {
    &&& t.len() == b.len()
    &&& forall|i: int| 0 <= i < b.len() && (b[i] < 0x80 || b[i] >= 0xA0) ==> #[trigger] t[i] as u32 == b[i] as u32
}

/// Relies on `bstr::ByteSlice::to_str`: it succeeds exactly on valid UTF-8
/// and then reads the bytes as UTF-8.
#[verifier::external_body]
pub(crate) fn utf8_text(b: &[u8]) -> (r: Option<String>)
    ensures
        r is Some <==> valid_utf8(b@),
        r is Some ==> r->0@ == decode_utf8(b@),
{
    match b.to_str() {
        Ok(s) => Some(s.to_owned()),
        Err(_) => None,
    }
}

/// Relies on `encoding_rs::WINDOWS_1252.decode_without_bom_handling`: its
/// table maps every byte to one character (none to an error), and bytes below
/// 0x80 and from 0xA0 on map to the code point of the same value.
#[verifier::external_body]
fn windows_1252_decode(b: &[u8]) -> (r: (String, bool))
    ensures
        r.0@ == windows_1252_of(b@),
        r.0@.len() == b@.len(),
        forall|i: int|
            0 <= i < b@.len() && (b@[i] < 0x80 || b@[i] >= 0xA0) ==> #[trigger] r.0@[i] as u32
                == b@[i] as u32,
        !r.1,
{
    let (text, had_errors) = encoding_rs::WINDOWS_1252.decode_without_bom_handling(b);
    (text.into_owned(), had_errors)
}

/// ASCII bytes are valid UTF-8, and a field of them decodes to exactly what
/// reading them as UTF-8 gives: each byte the character of the same code.
pub proof fn lemma_decode_ascii(b: Seq<u8>)
    requires
        all_ascii(b),
    ensures
        valid_utf8(b),
        decode_utf8(b) == ascii_chars(b),
        field_text(b) == decode_utf8(b),
    decreases b.len(),
{
    if b.len() > 0 {
        let b0 = b[0];
        assert(b0 & 0x7F == b0) by (bit_vector)
            requires
                b0 < 0x80,
        ;
        let rest = b.subrange(1, b.len() as int);
        assert(pop_first_scalar(b) == rest);
        lemma_decode_ascii(rest);
        assert(decode_utf8(b) =~= ascii_chars(b));
    } else {
        assert(decode_utf8(b) =~= ascii_chars(b));
    }
}

/// Whether every byte is ASCII.
pub fn is_all_ascii(b: &[u8]) -> (r: bool)
    ensures
        r == all_ascii(b@),
{
    let mut i: usize = 0;
    while i < b.len()
        invariant
            i <= b@.len(),
            all_ascii(b@.subrange(0, i as int)),
        decreases b@.len() - i,
    {
        if b[i] >= 0x80 {
            assert(!all_ascii(b@)) by {
                assert(b@[i as int] >= 0x80);
            }
            return false;
        }
        assert forall|k: int| 0 <= k < i + 1 implies #[trigger] b@.subrange(0, i + 1)[k] < 0x80 by {
            if k < i {
                assert(b@.subrange(0, i + 1)[k] == b@.subrange(0, i as int)[k]);
            }
        }
        i = i + 1;
    }
    assert(b@.subrange(0, i as int) =~= b@);
    true
}

/// Decodes a field's bytes: directly when they are all ASCII, through
/// Windows-1252 otherwise. `None` when the decoder reports an error.
pub fn decode_field(b: &[u8]) -> (r: Option<String>)
    ensures
        r is Some,
        r->0@ == field_text(b@),
        text_agrees(b@, r->0@),
{
    if is_all_ascii(b) {
        proof {
            lemma_decode_ascii(b@);
            assert forall|i: int| 0 <= i < b@.len() && (b@[i] < 0x80 || b@[i] >= 0xA0) implies #[trigger] ascii_chars(b@)[i] as u32 == b@[i] as u32 by {
                let x = b@[i];
                assert((x as char) as u32 == x as u32);
            }
        }
        utf8_text(b)
    } else {
        let (text, had_errors) = windows_1252_decode(b);
        if had_errors {
            None
        } else {
            Some(text)
        }
    }
}

} // verus!
