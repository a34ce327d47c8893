//! The first frame of a connection and the authentication envelope that it
//! is expected to carry.

use vstd::prelude::*;
use vstd::string::StringSliceAdditionalSpecFns;
use vstd::utf8::{encode_utf8, encode_utf8_decode_utf8};
use crate::json::{json_member, json_parse, json_text, member, parse_document};

verus! {

/// The member of the envelope that carries the presented token.
pub const TOKEN_FIELD: &'static str = "token";

/// The token that a text presents: the text must be a JSON object whose
/// `token` member is a string. Other members are of no concern here.
pub open spec fn envelope_token(text: Seq<char>) -> Option<Seq<char>> {
    match json_parse(text) {
        Some(document) => match json_member(document, TOKEN_FIELD@) {
            Some(field) => json_text(field),
            None => None,
        },
        None => None,
    }
}

/// One message unit received over an upgraded connection, as far as the
/// handshake reads it.
#[derive(Debug, PartialEq, Eq)]
pub enum Frame {
    /// A text frame with its payload.
    Text(String),
    /// A frame without text: binary data or a control frame.
    NonText,
}

impl Frame {
    /// The token that this frame presents, if it is a text frame that
    /// decodes as an envelope.
    pub open spec fn presented_token(self) -> Option<Seq<char>> {
        match self {
            Frame::Text(text) => envelope_token(text@),
            Frame::NonText => None,
        }
    }
}

/// A decoded first frame. Only the token is kept.
#[derive(Debug, PartialEq, Eq)]
pub struct AuthEnvelope {
    token: String,
}

impl View for AuthEnvelope {
    type V = Seq<char>;

    /// The token that the peer presented.
    closed spec fn view(&self) -> Seq<char> {
        self.token@
    }
}

/// The token of an envelope, or `None` where decoding gave none.
pub open spec fn presented(envelope: Option<AuthEnvelope>) -> Option<Seq<char>> {
    match envelope {
        Some(envelope) => Some(envelope@),
        None => None,
    }
}

impl AuthEnvelope {
    /// An envelope that presents `token`.
    pub fn new(token: String) -> (envelope: AuthEnvelope)
        ensures
            envelope@ == token@,
    {
        AuthEnvelope { token }
    }

    /// Decodes the text payload of a frame. Succeeds exactly on a JSON
    /// object with a string member `token`.
    pub fn decode(text: &str) -> (decoded: Option<AuthEnvelope>)
        ensures
            presented(decoded) == envelope_token(text@),
    {
        match parse_document(text) {
            None => None,
            Some(document) => match member(&document, TOKEN_FIELD) {
                None => None,
                Some(field) => match field.as_str() {
                    None => None,
                    Some(token) => Some(AuthEnvelope { token: token.to_owned() }),
                },
            },
        }
    }

    /// Decodes a frame: only a text frame can carry an envelope.
    pub fn from_frame(frame: &Frame) -> (decoded: Option<AuthEnvelope>)
        ensures
            presented(decoded) == frame.presented_token(),
    {
        match frame {
            Frame::Text(text) => AuthEnvelope::decode(text.as_str()),
            Frame::NonText => None,
        }
    }

    /// The presented token.
    pub fn token(&self) -> (token: &str)
        ensures
            token@ == self@,
    {
        self.token.as_str()
    }

    /// Gives up the envelope for its token.
    pub fn into_token(self) -> (token: String)
        ensures
            token@ == self@,
    {
        self.token
    }
}

/// Compares a presented token with the secret: they match only when they
/// are the same text, character for character.
pub fn token_matches(presented: &str, secret: &str) -> (same: bool)
    ensures
        same == (presented@ == secret@),
{
    let left = presented.as_bytes();
    let right = secret.as_bytes();
    if left.len() != right.len() {
        return false;
    }
    let mut index: usize = 0;
    while index < left.len()
        invariant
            left@ == presented.spec_bytes(),
            right@ == secret.spec_bytes(),
            left@.len() == right@.len(),
            index <= left@.len(),
            forall|i: int| 0 <= i < index ==> left@[i] == right@[i],
        decreases left@.len() - index,
    {
        if left[index] != right[index] {
            return false;
        }
        index += 1;
    }
    proof {
        assert(left@ =~= right@);
        lemma_same_bytes_same_text(presented@, secret@);
    }
    true
}

/// Texts with equal UTF-8 encodings are equal.
proof fn lemma_same_bytes_same_text(a: Seq<char>, b: Seq<char>)
    requires
        encode_utf8(a) == encode_utf8(b),
    ensures
        a == b,
{
    encode_utf8_decode_utf8(a);
    encode_utf8_decode_utf8(b);
}

} // verus!
