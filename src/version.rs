//! Structured semantic versions: parsing through the `semver` crate and
//! ordering by precedence.

use crate::precedence::{cmp_int, cmp_prerelease, compare_prerelease, flip, lemma_prerelease_preorder, preorder_at};
use std::cmp::Ordering;
use vstd::prelude::*;
use vstd::string::StringSliceAdditionalSpecFns;
use vstd::utf8::{decode_utf8, encode_utf8_decode_utf8, valid_utf8};

verus! {

/// A parsed version: three numbers, then the pre-release and build-metadata
/// texts after `-` and `+` (empty when absent), as ASCII bytes.
pub struct Version {
    pub major: u64,
    pub minor: u64,
    pub patch: u64,
    pub pre: Vec<u8>,
    pub build: Vec<u8>,
}

/// What a version holds, as plain values.
pub type VersionModel = (u64, u64, u64, Seq<u8>, Seq<u8>);

impl View for Version {
    type V = VersionModel;

    open spec fn view(&self) -> VersionModel {
        (self.major, self.minor, self.patch, self.pre@, self.build@)
    }
}

/// What `semver::Version::parse` makes of a text, when it accepts it.
pub uninterp spec fn semver_parse(text: Seq<char>) -> Option<VersionModel>;

/// Relies on `semver::Version::parse` for the grammar of a version; the
/// fields are copied out, the pre-release and build texts as their bytes.
#[verifier::external_body]
fn parse_semver(text: &str) -> (r: Option<Version>)
    ensures
        match r {
            Some(v) => semver_parse(text@) == Some(v@),
            None => semver_parse(text@) is None,
        },
{
    match semver::Version::parse(text) {
        Ok(v) => Some(Version {
            major: v.major,
            minor: v.minor,
            patch: v.patch,
            pre: v.pre.as_str().as_bytes().to_vec(),
            build: v.build.as_str().as_bytes().to_vec(),
        }),
        Err(_) => None,
    }
}

/// Why a text is not a version.
#[derive(Debug, Clone, Copy, PartialEq, Eq, Structural)]
pub enum ParseError {
    /// The bytes are not well-formed UTF-8.
    InvalidEncoding,
    /// The text does not follow the grammar of a semantic version, or a
    /// number in it does not fit in 64 bits.
    Malformed,
}

/// The text with one leading `v` taken off, if it starts with one.
pub open spec fn strip_v(text: Seq<u8>) -> Seq<u8> {
    if text.len() > 0 && text[0] == 118 {
        text.drop_first()
    } else {
        text
    }
}

/// What a raw version text stands for: its bytes, less one leading `v`, are
/// decoded as UTF-8 and then parsed.
pub open spec fn parse_model(text: Seq<u8>) -> Result<VersionModel, ParseError> {
    let s = strip_v(text);
    if !valid_utf8(s) {
        Err(ParseError::InvalidEncoding)
    } else {
        match semver_parse(decode_utf8(s)) {
            Some(m) => Ok(m),
            None => Err(ParseError::Malformed),
        }
    }
}

/// Relies on `std::str::from_utf8`: it accepts exactly the well-formed UTF-8
/// byte sequences, and the text it returns is made of those bytes.
#[verifier::external_body]
fn decode_text(bytes: &[u8]) -> (r: Option<&str>)
    ensures
        r is Some <==> valid_utf8(bytes@),
        r matches Some(s) ==> s.spec_bytes() == bytes@,
{
    std::str::from_utf8(bytes).ok()
}

/// Takes one leading `v` off a text.
pub fn strip_v_prefix(text: &[u8]) -> (r: &[u8])
    ensures
        r@ == strip_v(text@),
{
    if text.len() > 0 && text[0] == 118 {
        let rest = &text[1..text.len()];
        assert(rest@ =~= text@.drop_first());
        rest
    } else {
        text
    }
}

/// Parses a raw version text: one leading `v` is dropped, the rest must be
/// UTF-8 and a semantic version.
pub fn parse_version(text: &[u8]) -> (r: Result<Version, ParseError>)
    ensures
        match r {
            Ok(v) => parse_model(text@) == Ok::<VersionModel, ParseError>(v@),
            Err(e) => parse_model(text@) == Err::<VersionModel, ParseError>(e),
        },
{
    let clean = strip_v_prefix(text);
    match decode_text(clean) {
        None => Err(ParseError::InvalidEncoding),
        Some(s) => {
            proof {
                encode_utf8_decode_utf8(s@);
            }
            match parse_semver(s) {
                Some(v) => Ok(v),
                None => Err(ParseError::Malformed),
            }
        },
    }
}

/// Precedence: major, minor and patch by value, then the pre-release; the
/// build metadata is never looked at.
pub open spec fn precedence(a: VersionModel, b: VersionModel) -> Ordering {
    if a.0 != b.0 {
        cmp_int(a.0 as int, b.0 as int)
    } else if a.1 != b.1 {
        cmp_int(a.1 as int, b.1 as int)
    } else if a.2 != b.2 {
        cmp_int(a.2 as int, b.2 as int)
    } else {
        cmp_prerelease(a.3, b.3)
    }
}

fn compare_u64(a: u64, b: u64) -> (r: Ordering)
    ensures
        r == cmp_int(a as int, b as int),
{
    if a < b {
        Ordering::Less
    } else if a == b {
        Ordering::Equal
    } else {
        Ordering::Greater
    }
}

impl Version {
    /// Orders two versions by precedence.
    pub fn compare_precedence(&self, other: &Version) -> (r: Ordering)
        ensures
            r == precedence(self@, other@),
    {
        if self.major != other.major {
            compare_u64(self.major, other.major)
        } else if self.minor != other.minor {
            compare_u64(self.minor, other.minor)
        } else if self.patch != other.patch {
            compare_u64(self.patch, other.patch)
        } else {
            compare_prerelease(self.pre.as_slice(), other.pre.as_slice())
        }
    }
}

/// Precedence is a total preorder on versions: swapping the arguments flips
/// the outcome, every version equals itself, and it is transitive. Versions
/// that differ in build metadata alone are equal.
pub proof fn lemma_precedence_preorder(a: VersionModel, b: VersionModel, c: VersionModel)
    ensures
        preorder_at(|x: VersionModel, y: VersionModel| precedence(x, y), a, b, c),
        (a.0 == b.0 && a.1 == b.1 && a.2 == b.2 && a.3 == b.3) ==> precedence(a, b) == Ordering::Equal,
{
    lemma_prerelease_preorder(a.3, b.3, c.3);
    lemma_prerelease_preorder(a.3, a.3, a.3);
    lemma_prerelease_preorder(b.3, b.3, b.3);
    assert(flip(Ordering::Equal) == Ordering::Equal);
}

} // verus!
