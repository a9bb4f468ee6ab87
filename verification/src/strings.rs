//! Strings seen as sequences of characters: where each character starts in
//! the UTF-8 bytes, which characters are whitespace, and the `std` string
//! operations the buffer relies on, each with its contract.
use vstd::prelude::*;
use vstd::utf8::{encode_scalar, encode_utf8, char_is_scalar, is_char_boundary};
use vstd::string::StringSliceAdditionalSpecFns;
use vstd::std_specs::iter::IteratorSpec;

verus! {

broadcast use vstd::string::group_string_axioms;

/// The byte offset at which character `k` of `s` starts, i.e. the length of
/// the UTF-8 encoding of the first `k` characters.
pub open spec fn byte_offset(s: Seq<char>, k: int) -> int {
    encode_utf8(s.take(k)).len() as int
}

/// Number of bytes in the UTF-8 encoding of `c`.
pub open spec fn utf8_width(c: char) -> int {
    encode_scalar(c as u32).len() as int
}

/// Unicode's `White_Space` property: the characters U+0009..=U+000D, U+0020,
/// U+0085, U+00A0, U+1680, U+2000..=U+200A, U+2028, U+2029, U+202F, U+205F and
/// U+3000.
pub open spec fn is_white_space(c: char) -> bool {
    let v = c as u32;
    ||| 0x9 <= v <= 0xD
    ||| v == 0x20
    ||| v == 0x85
    ||| v == 0xA0
    ||| v == 0x1680
    ||| 0x2000 <= v <= 0x200A
    ||| v == 0x2028
    ||| v == 0x2029
    ||| v == 0x202F
    ||| v == 0x205F
    ||| v == 0x3000
}

/// Encoding distributes over concatenation.
pub proof fn lemma_encode_concat(a: Seq<char>, b: Seq<char>)
    ensures
        encode_utf8(a + b) == encode_utf8(a) + encode_utf8(b),
    decreases a.len(),
{
    if a.len() == 0 {
        assert(a + b =~= b);
        assert(encode_utf8(a) =~= Seq::<u8>::empty());
        assert(encode_utf8(a) + encode_utf8(b) =~= encode_utf8(b));
    } else {
        assert((a + b)[0] == a[0]);
        assert((a + b).drop_first() =~= a.drop_first() + b);
        lemma_encode_concat(a.drop_first(), b);
        assert(encode_utf8(a + b) =~= encode_utf8(a) + encode_utf8(b));
    }
}

/// Every character takes between one and four bytes.
pub proof fn lemma_width_bounds(c: char)
    ensures
        1 <= utf8_width(c) <= 4,
{
    char_is_scalar(c);
}

/// The encoding of a single character is its scalar encoding.
pub proof fn lemma_encode_single(c: char)
    ensures
        encode_utf8(seq![c]) == encode_scalar(c as u32),
{
    assert(seq![c].drop_first() =~= Seq::<char>::empty());
    assert(encode_utf8(seq![c]) =~= encode_scalar(c as u32) + encode_utf8(Seq::<char>::empty()));
}

/// Moving one character forward moves the byte offset by that character's width.
pub proof fn lemma_byte_offset_step(s: Seq<char>, k: int)
    requires
        0 <= k < s.len(),
    ensures
        byte_offset(s, k + 1) == byte_offset(s, k) + utf8_width(s[k]),
{
    assert(s.take(k + 1) =~= s.take(k) + seq![s[k]]);
    lemma_encode_concat(s.take(k), seq![s[k]]);
    lemma_encode_single(s[k]);
}

/// The byte offset grows with the character index and ends at the full length.
pub proof fn lemma_byte_offset_bounds(s: Seq<char>, k: int)
    requires
        0 <= k <= s.len(),
    ensures
        byte_offset(s, k) <= byte_offset(s, s.len() as int),
        byte_offset(s, s.len() as int) == encode_utf8(s).len(),
        k <= byte_offset(s, k),
    decreases s.len() - k,
{
    assert(s.take(s.len() as int) =~= s);
    if k < s.len() {
        lemma_byte_offset_step(s, k);
        lemma_width_bounds(s[k]);
        lemma_byte_offset_bounds(s, k + 1);
    } else {
        assert(s.take(0) =~= Seq::<char>::empty());
    }
    if k == 0 {
        assert(s.take(0) =~= Seq::<char>::empty());
    } else {
        lemma_byte_offset_lower(s, k);
    }
}

proof fn lemma_byte_offset_lower(s: Seq<char>, k: int)
    requires
        0 <= k <= s.len(),
    ensures
        k <= byte_offset(s, k),
    decreases k,
{
    if k == 0 {
        assert(s.take(0) =~= Seq::<char>::empty());
    } else {
        lemma_byte_offset_lower(s, k - 1);
        lemma_byte_offset_step(s, k - 1);
        lemma_width_bounds(s[k - 1]);
    }
}

/// The number of bytes `c` takes in UTF-8 (what `char::len_utf8` returns).
pub(crate) fn char_len_utf8(c: char) -> (n: usize)
    ensures
        n == utf8_width(c),
{
    proof {
        char_is_scalar(c);
    }
    let v = c as u32;
    if v <= 0x7F {
        1
    } else if v <= 0x7FF {
        2
    } else if v <= 0xFFFF {
        3
    } else {
        4
    }
}

/// Whether `c` has Unicode's `White_Space` property (what
/// `char::is_whitespace` answers).
pub(crate) fn char_is_whitespace(c: char) -> (b: bool)
    ensures
        b == is_white_space(c),
{
    let v = c as u32;
    (0x9 <= v && v <= 0xD) || v == 0x20 || v == 0x85 || v == 0xA0 || v == 0x1680 || (0x2000 <= v
        && v <= 0x200A) || v == 0x2028 || v == 0x2029 || v == 0x202F || v == 0x205F || v == 0x3000
}

/// `String::push`: appends `ch` to the end of the string.
#[verifier::external_body]
pub(crate) fn string_push(s: &mut String, ch: char)
    ensures
        final(s)@ == old(s)@.push(ch),
{
    s.push(ch);
}

/// `String::pop`: removes the last character and returns it, or returns
/// `None` and leaves the string as it was when it is empty.
#[verifier::external_body]
pub(crate) fn string_pop(s: &mut String) -> (r: Option<char>)
    ensures
        old(s)@.len() == 0 ==> r == None::<char> && final(s)@ == old(s)@,
        old(s)@.len() > 0 ==> r == Some(old(s)@.last()) && final(s)@ == old(s)@.drop_last(),
{
    s.pop()
}

/// `String::insert`: inserts `ch` at byte position `idx`, which must lie on a
/// character boundary. When `idx` is where character `k` starts (or the end,
/// for `k` equal to the length), `ch` becomes character `k`.
#[verifier::external_body]
pub(crate) fn string_insert(s: &mut String, idx: usize, ch: char)
    requires
        exists|k: int| 0 <= k <= old(s)@.len() && idx == byte_offset(old(s)@, k),
    ensures
        forall|k: int|
            0 <= k <= old(s)@.len() && idx == byte_offset(old(s)@, k) ==> final(s)@ == old(
                s,
            )@.insert(k, ch),
{
    s.insert(idx, ch);
}

/// `String::remove`: removes and returns the character that starts at byte
/// position `idx`.
#[verifier::external_body]
pub(crate) fn string_remove(s: &mut String, idx: usize) -> (r: char)
    requires
        exists|k: int| 0 <= k < old(s)@.len() && idx == byte_offset(old(s)@, k),
    ensures
        forall|k: int|
            0 <= k < old(s)@.len() && idx == byte_offset(old(s)@, k) ==> r == old(s)@[k]
                && final(s)@ == old(s)@.remove(k),
{
    s.remove(idx)
}

/// `String::split_off`: splits the string at byte position `at`, which must
/// lie on a character boundary; the string keeps the characters before it and
/// the rest is returned.
#[verifier::external_body]
pub(crate) fn string_split_off(s: &mut String, at: usize) -> (r: String)
    requires
        exists|k: int| 0 <= k <= old(s)@.len() && at == byte_offset(old(s)@, k),
    ensures
        forall|k: int|
            0 <= k <= old(s)@.len() && at == byte_offset(old(s)@, k) ==> final(s)@ == old(
                s,
            )@.take(k) && r@ == old(s)@.skip(k),
{
    s.split_off(at)
}

/// `String::push_str`: appends `t` to the end of the string.
#[verifier::external_body]
pub(crate) fn string_push_str(s: &mut String, t: &str)
    ensures
        final(s)@ == old(s)@ + t@,
{
    s.push_str(t);
}

/// `str` indexing by a byte range, `&s[start..end]`: the text between two
/// character boundaries.
#[verifier::external_body]
pub(crate) fn str_slice(s: &str, start: usize, end: usize) -> (r: &str)
    requires
        start <= end,
        is_char_boundary(s.spec_bytes(), start as int),
        is_char_boundary(s.spec_bytes(), end as int),
    ensures
        r.spec_bytes() == s.spec_bytes().subrange(start as int, end as int),
{
    &s[start..end]
}

/// The characters of `s`, in order.
pub(crate) fn str_chars(s: &str) -> (v: Vec<char>)
    ensures
        v@ == s@,
{
    let mut it = s.chars();
    let mut v: Vec<char> = Vec::new();
    let ghost full = s@;
    assert(it.remaining() == full);
    loop
        invariant
            it.obeys_prophetic_iter_laws(),
            full == s@,
            v@ + it.remaining() == full,
        decreases full.len() - v@.len(),
    {
        match it.next() {
            Some(c) => {
                v.push(c);
                assert(v@ + it.remaining() =~= full);
            },
            None => {
                assert(v@ =~= full);
                return v;
            },
        }
    }
}

} // verus!
