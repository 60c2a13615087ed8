//! Owned, immutable byte blobs with a canonical `binary!(<base64>)` text form.

use vstd::prelude::*;
use vstd::string::StringExecFns;
use crate::b64::{b64_decode, b64_decode_of, b64_encode, b64_encode_of};

verus! {

/// Malformed base64 text was handed to a blob constructor.
#[derive(Debug, Clone, Copy, PartialEq, Eq)]
pub struct DecodeError;

/// An owned byte sequence.
#[derive(Debug, Clone, PartialEq, Eq)]
pub struct Binary {
    data: Vec<u8>,
}

impl View for Binary {
    type V = Seq<u8>;

    closed spec fn view(&self) -> Seq<u8> {
        self.data@
    }
}

/// The canonical text form of a blob: `binary!(` + base64 + `)`.
pub open spec fn bin_text(bytes: Seq<u8>) -> Seq<char> {
    seq!['b', 'i', 'n', 'a', 'r', 'y', '!', '('] + b64_encode_of(bytes) + seq![')']
}

/// Standard base64 is padded, so a well-formed text has a length that is a
/// multiple of four.
pub open spec fn b64_ok(text: Seq<char>) -> bool {
    &&& text.len() % 4 == 0
    &&& b64_decode_of(text) is Some
}

impl Binary {
    /// Wraps a byte sequence unchanged.
    pub fn build(data: Vec<u8>) -> (r: Self)
        ensures
            r@ == data@,
    {
        Binary { data }
    }

    /// Decodes standard padded base64 text; rejects text whose length is not
    /// a multiple of four, and text the decoder itself rejects.
    pub fn from_b64(value: String) -> (r: Result<Self, DecodeError>)
        ensures
            match r {
                Ok(b) => b64_ok(value@) && b64_decode_of(value@) == Some(b@),
                Err(_) => !b64_ok(value@),
            },
    {
        let cs = crate::text::chars_vec(value.as_str());
        if cs.len() % 4 != 0 {
            return Err(DecodeError);
        }
        match b64_decode(value.as_str()) {
            Some(data) => Ok(Binary { data }),
            None => Err(DecodeError),
        }
    }

    /// A blob holding the same bytes.
    pub fn duplicate(&self) -> (r: Binary)
        ensures
            r@ == self@,
    {
        let mut data: Vec<u8> = Vec::new();
        let mut i: usize = 0;
        while i < self.data.len()
            invariant
                i <= self.data.len(),
                data@ == self.data@.take(i as int),
            decreases self.data.len() - i,
        {
            data.push(self.data[i]);
            i = i + 1;
            proof {
                assert(data@ =~= self.data@.take(i as int));
            }
        }
        proof {
            assert(self.data@.take(self.data@.len() as int) =~= self.data@);
        }
        Binary { data }
    }

    /// A view of the raw bytes.
    pub fn raw(&self) -> (r: &Vec<u8>)
        ensures
            r@ == self@,
    {
        &self.data
    }

    /// The byte count.
    pub fn size(&self) -> (r: usize)
        ensures
            r == self@.len(),
    {
        self.data.len()
    }

    /// The canonical text form, `binary!(<base64>)`.
    pub fn to_string(&self) -> (r: String)
        ensures
            r@ == bin_text(self@),
    {
        let mut out = String::from_str("binary!(");
        let enc = b64_encode(&self.data);
        out.append(enc.as_str());
        out.append(")");
        proof {
            reveal_strlit("binary!(");
            reveal_strlit(")");
            assert(out@ =~= bin_text(self@));
        }
        out
    }
}

} // verus!
