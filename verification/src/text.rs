//! Strings seen as their UTF-8 bytes: building, comparing and cutting them.
use vstd::prelude::*;
use vstd::string::*;
use vstd::utf8::{
    encode_utf8, encode_utf8_decode_utf8, encode_utf8_valid_utf8, is_char_boundary,
    is_char_boundary_iff_not_is_continuation_byte, is_char_boundary_start_end_of_seq, valid_utf8,
    valid_utf8_split,
};

use crate::order::{after, same};

verus! {

/// The bytes of a string.
#[verifier::inline]
pub open spec fn utf8(s: Seq<char>) -> Seq<u8> {
    encode_utf8(s)
}

pub const SLASH: u8 = 0x2f;

/// Two strings with the same bytes are the same string.
pub proof fn utf8_injective(a: Seq<char>, b: Seq<char>)
    ensures
        (encode_utf8(a) == encode_utf8(b)) == (a == b),
{
    encode_utf8_decode_utf8(a);
    encode_utf8_decode_utf8(b);
}

/// The bytes of a concatenation are the concatenated bytes.
pub proof fn utf8_concat(a: Seq<char>, b: Seq<char>)
    ensures
        encode_utf8(a + b) == encode_utf8(a) + encode_utf8(b),
    decreases a.len(),
{
    if a.len() == 0 {
        assert(a + b =~= b);
        assert(encode_utf8(a) + encode_utf8(b) =~= encode_utf8(b));
    } else {
        utf8_concat(a.drop_first(), b);
        assert((a + b).drop_first() =~= a.drop_first() + b);
        assert(encode_utf8(a + b) =~= encode_utf8(a) + encode_utf8(b));
    }
}

/// Next to a `/` a string can be cut on either side.
proof fn slash_boundary(b: Seq<u8>, i: int)
    requires
        valid_utf8(b),
        0 <= i < b.len(),
        b[i] == SLASH,
    ensures
        is_char_boundary(b, i),
        is_char_boundary(b, i + 1),
{
    is_char_boundary_iff_not_is_continuation_byte(b, i);
    if i + 1 == b.len() {
        is_char_boundary_start_end_of_seq(b);
    } else {
        valid_utf8_split(b, i);
        let t = b.subrange(i, b.len() as int);
        assert(valid_utf8(t));
        assert(t[0] == SLASH);
        let u = vstd::utf8::pop_first_scalar(t);
        assert(u =~= b.subrange(i + 1, b.len() as int));
        assert(valid_utf8(u));
        assert(u[0] == b[i + 1]);
        is_char_boundary_start_end_of_seq(u);
        is_char_boundary_iff_not_is_continuation_byte(u, 0);
        is_char_boundary_iff_not_is_continuation_byte(b, i + 1);
    }
}

/// What the debug format gives for a string: quotes around it, and escapes in
/// it.
pub uninterp spec fn debug_text(s: Seq<char>) -> Seq<char>;

/// `format!` with the debug form of `str`.
#[verifier::external_body]
pub(crate) fn quoted(s: &str) -> (r: String)
    ensures
        r@ == debug_text(s@),
{
    format!("{s:?}")
}

/// What stands before the `/` at byte `i`.
pub fn before_slash(s: &str, i: usize) -> (r: String)
    requires
        i < utf8(s@).len(),
        utf8(s@)[i as int] == SLASH,
    ensures
        utf8(r@) == utf8(s@).subrange(0, i as int),
{
    proof {
        encode_utf8_valid_utf8(s@);
        slash_boundary(utf8(s@), i as int);
    }
    let (head, _) = s.split_at(i);
    head.to_owned()
}

/// What stands after the `/` at byte `i`.
pub fn after_slash(s: &str, i: usize) -> (r: String)
    requires
        i < utf8(s@).len(),
        utf8(s@)[i as int] == SLASH,
    ensures
        utf8(r@) == after(utf8(s@), i + 1),
{
    proof {
        encode_utf8_valid_utf8(s@);
        slash_boundary(utf8(s@), i as int);
    }
    let bytes = s.as_bytes();
    assert(bytes.len() <= usize::MAX);
    let (_, tail) = s.split_at(i + 1);
    tail.to_owned()
}

pub fn same_text(a: &str, b: &str) -> (r: bool)
    ensures
        r == (a@ == b@),
        r == (utf8(a@) == utf8(b@)),
{
    proof {
        utf8_injective(a@, b@);
    }
    same(a.as_bytes(), b.as_bytes())
}

/// `a` followed by `b`.
pub fn joined(a: &str, b: &str) -> (r: String)
    ensures
        r@ == a@ + b@,
        utf8(r@) == utf8(a@) + utf8(b@),
{
    proof {
        utf8_concat(a@, b@);
    }
    let mut r = a.to_owned();
    r.append(b);
    r
}

/// `String::from_utf8`: the string that the bytes encode, if they are UTF-8.
#[verifier::external_body]
pub(crate) fn from_utf8(bytes: Vec<u8>) -> (r: Option<String>)
    ensures
        r is Some == valid_utf8(bytes@),
        r is Some ==> utf8(r->0@) == bytes@,
{
    String::from_utf8(bytes).ok()
}

/// The bytes of the one-character string `/`.
pub proof fn slash_bytes()
    ensures
        encode_utf8("/"@) == seq![SLASH],
{
    reveal_strlit("/");
    vstd::utf8::is_ascii_chars_encode_utf8("/"@);
    assert(encode_utf8("/"@) =~= seq![SLASH]);
}

/// `a/b`.
pub fn joined_by_slash(a: &str, b: &str) -> (r: String)
    ensures
        r@ == a@ + "/"@ + b@,
        utf8(r@) == utf8(a@) + seq![SLASH] + utf8(b@),
{
    proof {
        slash_bytes();
    }
    let head = joined(a, "/");
    joined(head.as_str(), b)
}

pub fn is_slash(s: &str) -> (r: bool)
    ensures
        r == (s@ == "/"@),
        r == (utf8(s@) == seq![SLASH]),
{
    proof {
        slash_bytes();
    }
    same_text(s, "/")
}

} // verus!
