//! Small byte-string helpers shared by the parsers.
use vstd::prelude::*;

verus! {

/// Whether the bytes are UTF-8 text, as `std::str::from_utf8` decides.
///
/// Trusted: `std::str::from_utf8` returns `Ok` exactly when the slice is
/// well-formed UTF-8, which `vstd::utf8::valid_utf8` defines.
#[verifier::external_body]
pub(crate) fn is_text(bytes: &[u8]) -> (r: bool)
    ensures
        r == vstd::utf8::valid_utf8(bytes@),
{
    std::str::from_utf8(bytes).is_ok()
}

/// Byte-for-byte equality of two slices.
pub(crate) fn same(a: &[u8], b: &[u8]) -> (r: bool)
    ensures
        r == (a@ == b@),
{
    if a.len() != b.len() {
        return false;
    }
    let mut i: usize = 0;
    while i < a.len()
        invariant
            a@.len() == b@.len(),
            i <= a@.len(),
            forall|j: int| 0 <= j < i ==> a@[j] == b@[j],
        decreases a.len() - i,
    {
        if a[i] != b[i] {
            return false;
        }
        i += 1;
    }
    assert(a@ =~= b@);
    true
}

/// An owned copy of `s[start..end]`.
pub(crate) fn copy_range(s: &[u8], start: usize, end: usize) -> (r: Vec<u8>)
    requires
        start <= end <= s@.len(),
    ensures
        r@ == s@.subrange(start as int, end as int),
{
    let mut r: Vec<u8> = Vec::new();
    let mut i = start;
    while i < end
        invariant
            start <= i <= end <= s@.len(),
            r@ == s@.subrange(start as int, i as int),
        decreases end - i,
    {
        r.push(s[i]);
        i += 1;
        assert(r@ =~= s@.subrange(start as int, i as int));
    }
    r
}

/// Bytes below 128 are ASCII characters, and ASCII text is UTF-8 text.
pub proof fn lemma_ascii_is_text(bytes: Seq<u8>)
    requires
        forall|i: int| 0 <= i < bytes.len() ==> #[trigger] bytes[i] < 128,
    ensures
        vstd::utf8::valid_utf8(bytes),
    decreases bytes.len(),
{
    if bytes.len() > 0 {
        let rest = bytes.subrange(1, bytes.len() as int);
        assert(vstd::utf8::pop_first_scalar(bytes) =~= rest);
        assert forall|i: int| 0 <= i < rest.len() implies #[trigger] rest[i] < 128 by {
            assert(rest[i] == bytes[i + 1]);
        }
        lemma_ascii_is_text(rest);
    }
}

/// Removing an ASCII prefix from UTF-8 text leaves UTF-8 text.
pub proof fn lemma_text_after_ascii(prefix: Seq<u8>, tail: Seq<u8>)
    requires
        forall|i: int| 0 <= i < prefix.len() ==> #[trigger] prefix[i] < 128,
        vstd::utf8::valid_utf8(prefix + tail),
    ensures
        vstd::utf8::valid_utf8(tail),
    decreases prefix.len(),
{
    if prefix.len() > 0 {
        let whole = prefix + tail;
        let shorter = prefix.subrange(1, prefix.len() as int);
        assert(whole[0] == prefix[0]);
        assert(vstd::utf8::pop_first_scalar(whole) =~= shorter + tail);
        assert forall|i: int| 0 <= i < shorter.len() implies #[trigger] shorter[i] < 128 by {
            assert(shorter[i] == prefix[i + 1]);
        }
        lemma_text_after_ascii(shorter, tail);
    } else {
        assert(prefix + tail =~= tail);
    }
}

} // verus!
