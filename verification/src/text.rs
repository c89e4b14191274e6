//! Byte-level text utilities: substring search, character boundaries and
//! UTF-8 decoding, all over vstd's model of UTF-8 (`encode_utf8`,
//! `decode_utf8`, `valid_utf8`, `is_char_boundary`).
use vstd::prelude::*;
use vstd::utf8::*;

verus! {

broadcast use vstd::utf8::encode_utf8_valid_utf8, vstd::utf8::encode_utf8_decode_utf8;

/// True when `needle` occurs in `hay` starting at byte `at`.
pub open spec fn occurs_at(hay: Seq<u8>, needle: Seq<u8>, at: int) -> bool {
    0 <= at && at + needle.len() <= hay.len() && hay.subrange(at, at + needle.len()) == needle
}

/// The first byte offset, at or after `from`, where `needle` occurs in `hay`.
pub open spec fn find_from(hay: Seq<u8>, needle: Seq<u8>, from: int) -> Option<int>
    decreases hay.len() - from,
{
    if from < 0 || from + needle.len() > hay.len() {
        None
    } else if occurs_at(hay, needle, from) {
        Some(from)
    } else {
        proof {
            if needle.len() == 0 {
                assert(hay.subrange(from, from) =~= needle);
            }
        }
        find_from(hay, needle, from + 1)
    }
}

/// What `find_from` returns is the first occurrence at or after `from`.
pub proof fn lemma_find_from_first(hay: Seq<u8>, needle: Seq<u8>, from: int)
    requires
        from >= 0,
    ensures
        find_from(hay, needle, from) matches Some(k) ==> from <= k && occurs_at(hay, needle, k)
            && forall|j: int| from <= j < k ==> !occurs_at(hay, needle, j),
        find_from(hay, needle, from) is None ==> forall|j: int|
            from <= j ==> !occurs_at(hay, needle, j),
    decreases hay.len() - from,
{
    if from + needle.len() > hay.len() {
    } else if occurs_at(hay, needle, from) {
    } else {
        if needle.len() == 0 {
            assert(hay.subrange(from, from) =~= needle);
        }
        lemma_find_from_first(hay, needle, from + 1);
    }
}

/// Whether `needle` occurs in `hay` at byte `at` (which must leave room for it).
fn occurs_at_exec(hay: &[u8], needle: &[u8], at: usize) -> (b: bool)
    requires
        at + needle@.len() <= hay@.len(),
    ensures
        b == occurs_at(hay@, needle@, at as int),
{
    let n = needle.len();
    let hl = hay.len();
    let mut j: usize = 0;
    while j < n
        invariant
            j <= n,
            n == needle@.len(),
            hl == hay@.len(),
            at + n <= hay@.len(),
            forall|k: int| 0 <= k < j ==> hay@[at + k] == needle@[k],
        decreases n - j,
    {
        if hay[at + j] != needle[j] {
            assert(hay@.subrange(at as int, at + n)[j as int] != needle@[j as int]);
            return false;
        }
        j = j + 1;
    }
    assert(hay@.subrange(at as int, at + n) =~= needle@);
    true
}

/// The byte offset of the first occurrence of `needle` in `hay`.
pub fn find_bytes(hay: &[u8], needle: &[u8]) -> (r: Option<usize>)
    ensures
        r is Some <==> find_from(hay@, needle@, 0) is Some,
        r matches Some(k) ==> find_from(hay@, needle@, 0) == Some(k as int),
{
    let n = needle.len();
    let len = hay.len();
    if n > len {
        return None;
    }
    let mut i: usize = 0;
    loop
        invariant
            n == needle@.len(),
            len == hay@.len(),
            n <= len,
            i <= len - n,
            find_from(hay@, needle@, 0) == find_from(hay@, needle@, i as int),
        decreases len - n - i,
    {
        if occurs_at_exec(hay, needle, i) {
            return Some(i);
        }
        if i == len - n {
            assert(find_from(hay@, needle@, i + 1) is None);
            return None;
        }
        i = i + 1;
    }
}

/// Whether two byte sequences are equal.
pub fn bytes_eq(a: &[u8], b: &[u8]) -> (r: bool)
    ensures
        r == (a@ == b@),
{
    if a.len() != b.len() {
        return false;
    }
    let mut i: usize = 0;
    while i < a.len()
        invariant
            a@.len() == b@.len(),
            i <= a@.len(),
            forall|k: int| 0 <= k < i ==> a@[k] == b@[k],
        decreases a@.len() - i,
    {
        if a[i] != b[i] {
            return false;
        }
        i = i + 1;
    }
    assert(a@ =~= b@);
    true
}

/// Whether two strings hold the same characters.
pub fn str_eq(a: &str, b: &str) -> (r: bool)
    ensures
        r == (a@ == b@),
{
    let same = bytes_eq(a.as_bytes(), b.as_bytes());
    proof {
        if same {
            assert(decode_utf8(encode_utf8(a@)) == a@);
            assert(decode_utf8(encode_utf8(b@)) == b@);
        }
    }
    same
}

/// Whether byte `index` of `bytes` is a character boundary; the exec
/// counterpart of `is_char_boundary` on a valid UTF-8 sequence.
pub fn byte_is_char_boundary(bytes: &[u8], index: usize) -> (b: bool)
    requires
        valid_utf8(bytes@),
    ensures
        b == is_char_boundary(bytes@, index as int),
{
    proof {
        is_char_boundary_start_end_of_seq(bytes@);
    }
    if index == 0 {
        true
    } else if index > bytes.len() {
        false
    } else if index == bytes.len() {
        true
    } else {
        proof {
            is_char_boundary_iff_not_is_continuation_byte(bytes@, index as int);
        }
        let b = bytes[index];
        !(0x80 <= b && b <= 0xbf)
    }
}

/// The bytes between two character boundaries of valid UTF-8 are valid UTF-8.
pub proof fn lemma_valid_utf8_between_boundaries(bytes: Seq<u8>, start: int, end: int)
    requires
        valid_utf8(bytes),
        start <= end,
        is_char_boundary(bytes, start),
        is_char_boundary(bytes, end),
    ensures
        0 <= start <= end <= bytes.len(),
        valid_utf8(bytes.subrange(start, end)),
{
    reveal_with_fuel(is_char_boundary, 1);
    valid_utf8_split(bytes, start);
    let rest = bytes.subrange(start, bytes.len() as int);
    is_char_boundary_start_end_of_seq(rest);
    if end < bytes.len() {
        is_char_boundary_iff_not_is_continuation_byte(bytes, end);
        is_char_boundary_iff_not_is_continuation_byte(rest, end - start);
    }
    assert(is_char_boundary(rest, end - start));
    valid_utf8_split(rest, end - start);
    assert(rest.subrange(0, end - start) =~= bytes.subrange(start, end));
}

/// `std::str::from_utf8`: the bytes read as a string slice, when they are
/// valid UTF-8. The contract restates std's documentation over vstd's UTF-8
/// model: success exactly on valid UTF-8, and then the characters it decodes to.
#[verifier::external_body]
pub(crate) fn utf8_str(bytes: &[u8]) -> (r: Option<&str>)
    ensures
        r is Some <==> valid_utf8(bytes@),
        r matches Some(s) ==> s@ == decode_utf8(bytes@),
{
    std::str::from_utf8(bytes).ok()
}

/// A string of `n` asterisks.
pub open spec fn asterisks(n: nat) -> Seq<char> {
    Seq::new(n, |_i: int| '*')
}

/// The UTF-8 bytes of `n` asterisks: `n` copies of byte 42.
pub proof fn lemma_asterisks_bytes(n: nat)
    ensures
        encode_utf8(asterisks(n)) =~= Seq::new(n, |_i: int| 42u8),
{
    let s = asterisks(n);
    assert(is_ascii_chars(s));
    is_ascii_chars_encode_utf8(s);
    assert forall|i: int| 0 <= i < n implies encode_utf8(s)[i] == 42u8 by {
        assert(s[i] == '*');
        assert(('*' as u8) == 42u8);
    }
}

} // verus!
