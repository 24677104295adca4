//! The two entry points for callers across a process boundary: a three-way
//! comparison code, and whether a newer version is available.

use crate::version::{lemma_precedence_preorder, parse_model, parse_version, precedence, ParseError};
use std::cmp::Ordering;
use vstd::prelude::*;

verus! {

/// The code that `version_compare` returns when no ordering can be given.
pub const PARSE_ERROR_CODE: i32 = -999;

/// Why two version texts could not be compared.
#[derive(Debug, Clone, Copy, PartialEq, Eq, Structural)]
pub enum CompareError {
    /// A text handle is absent.
    NullInput,
    /// A text is not well-formed UTF-8.
    InvalidEncoding,
    /// A text is not a semantic version.
    MalformedVersion,
}

/// The bytes behind a handle, if there is one.
pub open spec fn handle_view(h: Option<&[u8]>) -> Option<Seq<u8>> {
    match h {
        Some(t) => Some(t@),
        None => None,
    }
}

pub open spec fn compare_error_of(e: ParseError) -> CompareError {
    match e {
        ParseError::InvalidEncoding => CompareError::InvalidEncoding,
        ParseError::Malformed => CompareError::MalformedVersion,
    }
}

/// The outcome of comparing two raw texts: both must be present, then the
/// first and the second must parse, and then they are ordered by precedence.
pub open spec fn compare_outcome(a: Option<Seq<u8>>, b: Option<Seq<u8>>) -> Result<
    Ordering,
    CompareError,
> {
    match (a, b) {
        (Some(x), Some(y)) => match (parse_model(x), parse_model(y)) {
            (Ok(p), Ok(q)) => Ok(precedence(p, q)),
            (Err(e), _) => Err(compare_error_of(e)),
            (_, Err(e)) => Err(compare_error_of(e)),
        },
        _ => Err(CompareError::NullInput),
    }
}

/// An ordering as -1, 0 or 1; every failure as the error code.
pub open spec fn outcome_code(r: Result<Ordering, CompareError>) -> i32 {
    match r {
        Ok(Ordering::Less) => -1i32,
        Ok(Ordering::Equal) => 0i32,
        Ok(Ordering::Greater) => 1i32,
        Err(_) => PARSE_ERROR_CODE,
    }
}

/// The code that `version_compare` gives for two handles.
pub open spec fn compare_code(a: Option<Seq<u8>>, b: Option<Seq<u8>>) -> i32 {
    outcome_code(compare_outcome(a, b))
}

/// A text that parses as a semantic version.
pub open spec fn is_version_text(t: Seq<u8>) -> bool {
    parse_model(t) is Ok
}

/// Compares two raw version texts, keeping the reason of a failure.
pub fn compare_texts(a: Option<&[u8]>, b: Option<&[u8]>) -> (r: Result<Ordering, CompareError>)
    ensures
        r == compare_outcome(handle_view(a), handle_view(b)),
{
    match (a, b) {
        (Some(x), Some(y)) => {
            let p = match parse_version(x) {
                Ok(v) => v,
                Err(e) => {
                    return Err(to_compare_error(e));
                },
            };
            let q = match parse_version(y) {
                Ok(v) => v,
                Err(e) => {
                    return Err(to_compare_error(e));
                },
            };
            Ok(p.compare_precedence(&q))
        },
        _ => Err(CompareError::NullInput),
    }
}

fn to_compare_error(e: ParseError) -> (r: CompareError)
    ensures
        r == compare_error_of(e),
{
    match e {
        ParseError::InvalidEncoding => CompareError::InvalidEncoding,
        ParseError::Malformed => CompareError::MalformedVersion,
    }
}

/// Compares two version texts: -1 if the first is lower, 0 if they are
/// equal, 1 if it is higher, and `PARSE_ERROR_CODE` if a handle is absent or
/// a text is not a semantic version.
pub fn version_compare(v1: Option<&[u8]>, v2: Option<&[u8]>) -> (r: i32)
    ensures
        r == compare_code(handle_view(v1), handle_view(v2)),
        r == PARSE_ERROR_CODE <==> compare_outcome(handle_view(v1), handle_view(v2)) is Err,
{
    match compare_texts(v1, v2) {
        Ok(Ordering::Less) => -1,
        Ok(Ordering::Equal) => 0,
        Ok(Ordering::Greater) => 1,
        Err(_) => PARSE_ERROR_CODE,
    }
}

/// Whether `latest` is a newer version than `current`; false as well when
/// either cannot be compared.
pub fn version_has_update(current: Option<&[u8]>, latest: Option<&[u8]>) -> (r: bool)
    ensures
        r == (compare_code(handle_view(current), handle_view(latest)) == -1),
        r == (compare_outcome(handle_view(current), handle_view(latest)) == Ok::<
            Ordering,
            CompareError,
        >(Ordering::Less)),
{
    version_compare(current, latest) == -1
}

/// Swapping two version texts negates their comparison code.
pub proof fn lemma_compare_antisymmetric(a: Seq<u8>, b: Seq<u8>)
    requires
        is_version_text(a),
        is_version_text(b),
    ensures
        compare_code(Some(a), Some(b)) == -compare_code(Some(b), Some(a)),
{
    let p = parse_model(a)->Ok_0;
    let q = parse_model(b)->Ok_0;
    lemma_precedence_preorder(p, q, q);
}

/// If `a` is lower than `b` and `b` lower than `c`, then `a` is lower than `c`.
pub proof fn lemma_compare_transitive(a: Seq<u8>, b: Seq<u8>, c: Seq<u8>)
    ensures
        (compare_code(Some(a), Some(b)) == -1 && compare_code(Some(b), Some(c)) == -1)
            ==> compare_code(Some(a), Some(c)) == -1,
{
    if is_version_text(a) && is_version_text(b) && is_version_text(c) {
        lemma_precedence_preorder(parse_model(a)->Ok_0, parse_model(b)->Ok_0, parse_model(c)->Ok_0);
    }
}

/// Every version text compares equal to itself.
pub proof fn lemma_compare_reflexive(x: Seq<u8>)
    requires
        is_version_text(x),
    ensures
        compare_code(Some(x), Some(x)) == 0,
{
    let p = parse_model(x)->Ok_0;
    lemma_precedence_preorder(p, p, p);
}

/// A leading `v` on either text does not change the comparison, for a text
/// that does not already start with `v`.
pub proof fn lemma_v_prefix_ignored(x: Seq<u8>, y: Seq<u8>)
    requires
        x.len() == 0 || x[0] != 118,
    ensures
        compare_code(Some(seq![118u8] + x), Some(y)) == compare_code(Some(x), Some(y)),
        compare_code(Some(y), Some(seq![118u8] + x)) == compare_code(Some(y), Some(x)),
{
    let vx = seq![118u8] + x;
    assert(vx.drop_first() =~= x);
    assert(parse_model(vx) == parse_model(x));
}

/// The code is -1, 0 or 1 exactly when both handles are present and both texts
/// are versions; otherwise it is the error code, which is none of those.
pub proof fn lemma_error_code_apart(a: Option<Seq<u8>>, b: Option<Seq<u8>>)
    ensures
        PARSE_ERROR_CODE != -1 && PARSE_ERROR_CODE != 0 && PARSE_ERROR_CODE != 1,
        (compare_code(a, b) == -1 || compare_code(a, b) == 0 || compare_code(a, b) == 1) <==> (a
            is Some && b is Some && is_version_text(a->0) && is_version_text(b->0)),
        compare_code(a, b) != PARSE_ERROR_CODE <==> (a is Some && b is Some && is_version_text(a->0)
            && is_version_text(b->0)),
{
}

/// An update is reported exactly when the latest version compares higher
/// than the current one.
pub proof fn lemma_update_means_newer(current: Seq<u8>, latest: Seq<u8>)
    ensures
        compare_code(Some(current), Some(latest)) == -1 <==> compare_code(Some(latest), Some(current)) == 1,
{
    if is_version_text(current) && is_version_text(latest) {
        lemma_compare_antisymmetric(current, latest);
    }
}

} // verus!
