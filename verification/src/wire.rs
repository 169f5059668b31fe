//! Byte fields on the wire: base64 text in a human-readable format, raw bytes
//! in a binary one.
use base64::engine::general_purpose::STANDARD;
use base64::Engine;
use vstd::prelude::*;

use crate::error::Error;
use crate::order::copy_of;

verus! {

#[verifier::external_type_specification]
#[verifier::external_body]
pub struct ExDecodeError(base64::DecodeError);

/// The text that the standard base64 engine gives for bytes.
pub uninterp spec fn base64_text(bytes: Seq<u8>) -> Seq<char>;

/// The bytes that the standard base64 engine finds in a text, if it is base64.
pub uninterp spec fn base64_bytes(text: Seq<char>) -> Option<Seq<u8>>;

/// Whether the base64 text of this many bytes fits in memory: four characters
/// for every three bytes begun.
pub open spec fn encodable(len: nat) -> bool {
    (len + 2) / 3 * 4 <= isize::MAX
}

/// `base64::Engine::encode` of the standard engine. Its text decodes to the
/// bytes again.
#[verifier::external_body]
fn base64_encode(bytes: &Vec<u8>) -> (r: String)
    requires
        encodable(bytes@.len()),
    ensures
        r@ == base64_text(bytes@),
        base64_bytes(r@) == Some(bytes@),
{
    STANDARD.encode(bytes)
}

/// `base64::Engine::decode` of the standard engine.
#[verifier::external_body]
fn base64_decode(text: &String) -> (r: Result<Vec<u8>, base64::DecodeError>)
    ensures
        match r {
            Ok(b) => base64_bytes(text@) == Some(b@),
            Err(_) => base64_bytes(text@) is None,
        },
{
    STANDARD.decode(text)
}

/// The text that `base64::DecodeError` displays. Nothing is stated of it.
#[verifier::external_body]
fn decode_error_text(e: &base64::DecodeError) -> String {
    e.to_string()
}

/// A byte field as it stands on the wire.
#[derive(Debug)]
pub enum Wire {
    Text(String),
    Raw(Vec<u8>),
}

/// Whether `w` is how a format writes the bytes.
pub open spec fn writes(human_readable: bool, bytes: Seq<u8>, w: Wire) -> bool {
    match w {
        Wire::Text(text) => human_readable && text@ == base64_text(bytes),
        Wire::Raw(raw) => !human_readable && raw@ == bytes,
    }
}

/// The bytes that a field holds, if it holds any.
pub open spec fn held(w: Wire) -> Option<Seq<u8>> {
    match w {
        Wire::Text(text) => base64_bytes(text@),
        Wire::Raw(raw) => Some(raw@),
    }
}

/// A byte field for a format. What is written is read back.
pub fn to_wire(bytes: &Vec<u8>, human_readable: bool) -> (w: Wire)
    requires
        human_readable ==> encodable(bytes@.len()),
    ensures
        writes(human_readable, bytes@, w),
        held(w) == Some(bytes@),
{
    if human_readable {
        Wire::Text(base64_encode(bytes))
    } else {
        Wire::Raw(copy_of(bytes.as_slice()))
    }
}

/// The bytes of a field.
pub fn from_wire(w: Wire) -> (r: Result<Vec<u8>, Error>)
    ensures
        match r {
            Ok(b) => held(w) == Some(b@),
            Err(e) => held(w) is None && e is Encoding,
        },
{
    match w {
        Wire::Text(text) => match base64_decode(&text) {
            Ok(b) => Ok(b),
            Err(e) => Err(Error::Encoding(decode_error_text(&e))),
        },
        Wire::Raw(raw) => Ok(raw),
    }
}

/// The header fields for a format: the names as they are, the values as byte
/// fields.
pub fn headers_to_wire(headers: &Vec<(String, Vec<u8>)>, human_readable: bool) -> (r: Vec<
    (String, Wire),
>)
    requires
        human_readable ==> forall|i: int|
            0 <= i < headers@.len() ==> encodable((#[trigger] headers@[i]).1@.len()),
    ensures
        r@.len() == headers@.len(),
        forall|i: int| #![trigger r@[i]]
            0 <= i < r@.len() ==> r@[i].0@ == headers@[i].0@ && writes(
                human_readable,
                headers@[i].1@,
                r@[i].1,
            ) && held(r@[i].1) == Some(headers@[i].1@),
{
    let mut r: Vec<(String, Wire)> = Vec::new();
    let mut i: usize = 0;
    while i < headers.len()
        invariant
            i <= headers.len(),
            r@.len() == i,
            human_readable ==> forall|j: int|
                0 <= j < headers@.len() ==> encodable((#[trigger] headers@[j]).1@.len()),
            forall|j: int| #![trigger r@[j]]
                0 <= j < i ==> r@[j].0@ == headers@[j].0@ && writes(
                    human_readable,
                    headers@[j].1@,
                    r@[j].1,
                ) && held(r@[j].1) == Some(headers@[j].1@),
        decreases headers.len() - i,
    {
        let w = to_wire(&headers[i].1, human_readable);
        r.push((headers[i].0.clone(), w));
        i += 1;
    }
    r
}

/// The headers that header fields hold: each name with its bytes. The first
/// field that holds none is an error.
pub fn headers_from_wire(fields: Vec<(String, Wire)>) -> (r: Result<Vec<(String, Vec<u8>)>, Error>)
    ensures
        match r {
            Ok(h) => h@.len() == fields@.len() && forall|i: int| #![trigger h@[i]]
                0 <= i < h@.len() ==> h@[i].0@ == fields@[i].0@ && held(fields@[i].1) == Some(
                    h@[i].1@,
                ),
            Err(e) => e is Encoding && exists|i: int|
                0 <= i < fields@.len() && held((#[trigger] fields@[i]).1) is None,
        },
{
    let ghost all = fields@;
    let mut rest = fields;
    let mut h: Vec<(String, Vec<u8>)> = Vec::new();
    assert(all.skip(0) =~= all);
    while rest.len() > 0
        invariant
            h@.len() <= all.len(),
            all == fields@,
            rest@ == all.skip(h@.len() as int),
            forall|j: int| #![trigger h@[j]]
                0 <= j < h@.len() ==> h@[j].0@ == all[j].0@ && held(all[j].1) == Some(h@[j].1@),
        decreases rest.len(),
    {
        let ghost k = h@.len() as int;
        assert(rest@[0] == all[k]);
        let (name, field) = rest.remove(0);
        match from_wire(field) {
            Ok(b) => h.push((name, b)),
            Err(e) => {
                assert(held(all[k].1) is None);
                return Err(e);
            },
        }
        assert(rest@ =~= all.skip(k + 1));
    }
    Ok(h)
}

/// A field that may be missing, for a format that is human-readable.
pub fn opt_to_wire(bytes: &Option<Vec<u8>>) -> (r: Option<Wire>)
    requires
        bytes is Some ==> encodable(bytes->0@.len()),
    ensures
        match (bytes, r) {
            (Some(b), Some(w)) => writes(true, b@, w) && held(w) == Some(b@),
            (None, None) => true,
            _ => false,
        },
{
    match bytes {
        Some(b) => Some(to_wire(b, true)),
        None => None,
    }
}

/// The bytes of a field that may be missing.
pub fn opt_from_wire(field: Option<Wire>) -> (r: Result<Option<Vec<u8>>, Error>)
    ensures
        match field {
            Some(w) => match r {
                Ok(b) => b is Some && held(w) == Some(b->0@),
                Err(e) => held(w) is None && e is Encoding,
            },
            None => r == Ok::<Option<Vec<u8>>, Error>(None),
        },
{
    match field {
        Some(w) => match from_wire(w) {
            Ok(b) => Ok(Some(b)),
            Err(e) => Err(e),
        },
        None => Ok(None),
    }
}

} // verus!
