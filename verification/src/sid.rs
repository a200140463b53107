//! The identifier value type: an owned revision-1 byte buffer.

use std::str::FromStr;

use vstd::prelude::*;
use vstd::string::*;

use crate::codec::{format_sid, parse_sid};
use crate::layout::structurally_valid;
use crate::text::{
    is_canonical_text, lemma_parse_none_not_canonical, lemma_parse_sound, sid_chars,
};

verus! {

/// Failure to render an identifier as text: the byte buffer is not laid
/// out as a revision-1 identifier.
#[derive(Clone, Copy, Debug, PartialEq, Eq, Structural)]
pub struct SidFormatError;

/// A raw identifier byte sequence carries revision 1 and is non-empty.
///
/// The first byte of the binary encoding is the revision; only revision 1
/// is supported, and every constructed [`Sid`] upholds this, which is what
/// licenses byte-wise equality, ordering and hashing.
pub open spec fn revision_ok(b: Seq<u8>) -> bool {
    b.len() > 0 && b[0] == 1
}

/// A security identifier, held as its raw byte encoding.
///
/// Immutable after construction; two identifiers are equal exactly when
/// their byte sequences are equal.
#[derive(Debug, Hash)]
pub struct Sid {
    bytes: Vec<u8>,
}

impl Clone for Sid {
    /// The copy carries the same bytes, hence compares and hashes alike.
    fn clone(&self) -> (r: Sid)
        ensures
            r@ == self@,
    {
        proof {
            use_type_invariant(self);
        }
        Sid { bytes: self.bytes.clone() }
    }
}

impl View for Sid {
    type V = Seq<u8>;

    closed spec fn view(&self) -> Seq<u8> {
        self.bytes@
    }
}

impl Sid {
    /// Every identifier value is a non-empty revision-1 byte sequence.
    #[verifier::type_invariant]
    pub closed spec fn inv(self) -> bool {
        revision_ok(self@)
    }

    /// Builds an identifier from a raw byte sequence, if the sequence is a
    /// plausible revision-1 encoding; absence otherwise, never a panic.
    pub fn from_raw_bytes(bytes: Vec<u8>) -> (r: Option<Sid>)
        ensures
            r is Some <==> revision_ok(bytes@),
            r is Some ==> r.unwrap()@ == bytes@,
    {
        if bytes.len() > 0 && bytes[0] == 1 {
            Some(Sid { bytes })
        } else {
            None
        }
    }

    /// Builds an identifier from a byte sequence already known to be a
    /// well-formed revision-1 encoding, e.g. one copied out of a structure
    /// the platform has validated. The caller checks the revision first and
    /// treats a violation as fatal, not as a recoverable error.
    pub fn from_validated_bytes(bytes: Vec<u8>) -> (r: Sid)
        requires
            revision_ok(bytes@),
        ensures
            r@ == bytes@,
    {
        Sid { bytes }
    }

    /// Renders the identifier in its canonical text form, `S-1-` followed
    /// by the authority and the dash-separated sub-authorities; fails
    /// exactly when the bytes are not laid out as a revision-1 identifier.
    pub fn to_string_sid(&self) -> (r: Result<String, SidFormatError>)
        ensures
            r is Ok <==> structurally_valid(self@),
            r is Ok ==> r.unwrap()@ == sid_chars(self@),
    {
        match format_sid(&self.bytes) {
            Some(text) => Ok(text),
            None => Err(SidFormatError),
        }
    }

    /// Parses canonical text into an identifier. Succeeds on exactly the
    /// canonical strings; the result is the identifier whose canonical
    /// text is the input, character for character.
    pub fn parse_text(s: &str) -> (r: Result<Sid, String>)
        ensures
            r is Ok ==> structurally_valid(r.unwrap()@) && sid_chars(r.unwrap()@) == s@,
            r is Err ==> !is_canonical_text(s@),
    {
        match parse_sid(s) {
            Some(bytes) => {
                proof {
                    lemma_parse_sound(s@);
                }
                Ok(Sid { bytes })
            },
            None => {
                proof {
                    lemma_parse_none_not_canonical(s@);
                }
                Err(<String as StringExecFns>::from_str("the string is not a canonical identifier"))
            },
        }
    }

    /// Decision after the probe call of the two-phase account lookup: the
    /// lookup goes on exactly when the probe succeeded or failed only for
    /// want of buffer space; any other failure means absence.
    pub fn lookup_proceeds(probe_failed: bool, insufficient_buffer: bool) -> (r: bool)
        ensures
            r == (!probe_failed || insufficient_buffer),
    {
        !probe_failed || insufficient_buffer
    }

    /// Assembles the outcome of an account lookup on this identifier: a
    /// failed lookup is absence, not an error; a domain whose reported
    /// wide length is at most one, or which decodes to the empty string,
    /// counts as no domain.
    pub fn account_name_and_domain(&self, lookup: Option<(String, usize, String)>) -> (r: Option<
        (String, Option<String>),
    >)
        ensures
            r is Some <==> lookup is Some,
            lookup is Some ==> r == Some(
                (
                    lookup.unwrap().0,
                    if lookup.unwrap().1 > 1 && lookup.unwrap().2@.len() > 0 {
                        Some(lookup.unwrap().2)
                    } else {
                        None
                    },
                ),
            ),
    {
        match lookup {
            None => None,
            Some((name, domain_len, domain)) => {
                if domain_len > 1 && !domain.as_str().is_empty() {
                    Some((name, Some(domain)))
                } else {
                    Some((name, None))
                }
            },
        }
    }

    /// The account name this identifier resolves to, from the same lookup
    /// outcome; absence exactly when the lookup found nothing.
    pub fn account_name(&self, lookup: Option<(String, usize, String)>) -> (r: Option<String>)
        ensures
            r is Some <==> lookup is Some,
            lookup is Some ==> r == Some(lookup.unwrap().0),
    {
        match self.account_name_and_domain(lookup) {
            Some((name, _)) => Some(name),
            None => None,
        }
    }

    /// The raw byte encoding, exactly as it was constructed.
    pub fn as_bytes(&self) -> (r: &[u8])
        ensures
            r@ == self@,
            revision_ok(self@),
    {
        proof {
            use_type_invariant(self);
        }
        self.bytes.as_slice()
    }
}

impl FromStr for Sid {
    type Err = String;

    fn from_str(s: &str) -> Result<Sid, String> {
        Sid::parse_text(s)
    }
}

} // verus!
