//! Optional bearer-token authorization.
//!
//! When a key is configured, every request must carry
//! `Authorization: Bearer <key>`.

use vstd::prelude::*;
use vstd::utf8::{encode_utf8, encode_utf8_decode_utf8};

use crate::text::{chars_of, stands_at, starts_with, text_of};

verus! {

/// What requests are checked against.
#[derive(Clone)]
pub struct AuthState {
    /// The expected key; nothing where authorization is off.
    expected: Option<String>,
}

/// The `Authorization` header that carries a key.
pub open spec fn bearer(key: Seq<char>) -> Seq<char> {
    "Bearer "@ + key
}

/// The token that an `Authorization` header carries: what stands behind `Bearer `.
/// A header that is missing or of another kind carries none.
pub open spec fn token_of(header: Option<Seq<char>>) -> Option<Seq<char>> {
    match header {
        Some(h) => if starts_with(h, "Bearer "@) {
            Some(h.skip(7))
        } else {
            None
        },
        None => None,
    }
}

impl AuthState {
    /// The key that is asked for.
    pub closed spec fn key(&self) -> Option<Seq<char>> {
        match self.expected {
            Some(k) => Some(k@),
            None => None,
        }
    }

    pub fn new(api_key: Option<&str>) -> (a: AuthState)
        ensures
            a.key() == (match api_key {
                Some(k) => Some(k@),
                None => None,
            }),
    {
        match api_key {
            None => AuthState { expected: None },
            Some(k) => AuthState { expected: Some(k.to_owned()) },
        }
    }

    /// Whether a key is asked for.
    pub fn enabled(&self) -> (r: bool)
        ensures
            r == (self.key() is Some),
    {
        self.expected.is_some()
    }

    /// Whether a request with the given `Authorization` header is let through: no
    /// key is asked for, or the header carries it.
    pub fn authorize(&self, header: Option<&str>) -> (r: bool)
        ensures
            r == (match self.key() {
                None => true,
                Some(k) => header matches Some(h) && h@ == bearer(k),
            }),
    {
        match &self.expected {
            None => true,
            Some(expected) => {
                proof {
                    let given = match header {
                        Some(h) => Some(h@),
                        None => None,
                    };
                    only_the_key_is_accepted(expected@, given);
                }
                match bearer_token(header) {
                    Some(provided) => constant_time_eq(
                        provided.as_str().as_bytes(),
                        expected.as_str().as_bytes(),
                    ),
                    None => false,
                }
            },
        }
    }
}

fn bearer_token(header: Option<&str>) -> (r: Option<String>)
    ensures
        match token_of(
            match header {
                Some(h) => Some(h@),
                None => None,
            },
        ) {
            Some(t) => r matches Some(s) && s@ == t,
            None => r is None,
        },
{
    match header {
        None => None,
        Some(h) => {
            let v = chars_of(h);
            let scheme = chars_of("Bearer ");
            proof {
                reveal_strlit("Bearer ");
                assert(h@.subrange(0, 7) =~= h@.take(7));
            }
            if v.len() >= scheme.len() && stands_at(&v, &scheme, 0) {
                let r = text_of(&v, 7, v.len());
                assert(r@ =~= h@.skip(7));
                Some(r)
            } else {
                None
            }
        },
    }
}

/// Byte comparison whose running time depends on the lengths alone.
pub fn constant_time_eq(a: &[u8], b: &[u8]) -> (r: bool)
    ensures
        r == (a@ == b@),
{
    if a.len() != b.len() {
        return false;
    }
    let mut acc: u8 = 0;
    let mut i: usize = 0;
    while i < a.len()
        invariant
            i <= a.len(),
            a.len() == b.len(),
            (acc == 0) == (forall|k: int| 0 <= k < i ==> a@[k] == b@[k]),
        decreases a.len() - i,
    {
        let x: u8 = a[i];
        let y: u8 = b[i];
        assert(((acc | (x ^ y)) == 0) == (acc == 0 && x == y)) by (bit_vector);
        acc = acc | (x ^ y);
        i = i + 1;
    }
    proof {
        if acc == 0 {
            assert(a@ =~= b@);
        }
    }
    acc == 0
}

/// The bytes of the token are those of the key just if the header is the one that
/// carries the key.
pub proof fn only_the_key_is_accepted(key: Seq<char>, header: Option<Seq<char>>)
    ensures
        (token_of(header) matches Some(t) && encode_utf8(t) == encode_utf8(key)) <==> header
            == Some(bearer(key)),
{
    reveal_strlit("Bearer ");
    if header == Some(bearer(key)) {
        let h = header->0;
        assert(h.take(7) =~= "Bearer "@);
        assert(h.skip(7) =~= key);
    }
    if let Some(t) = token_of(header) {
        let h = header->0;
        assert(h =~= h.take(7) + h.skip(7));
        encode_utf8_decode_utf8(key);
        encode_utf8_decode_utf8(t);
    }
}

/// The header that carries a key is the word `Bearer`, a blank and the key.
pub proof fn keys_stand_behind_the_scheme(key: Seq<char>)
    ensures
        bearer(key) == seq!['B', 'e', 'a', 'r', 'e', 'r', ' '] + key,
        token_of(Some(bearer(key))) == Some(key),
        token_of(None) is None,
{
    reveal_strlit("Bearer ");
    assert("Bearer "@ =~= seq!['B', 'e', 'a', 'r', 'e', 'r', ' ']);
    assert(bearer(key).take(7) =~= "Bearer "@);
    assert(bearer(key).skip(7) =~= key);
}

} // verus!
