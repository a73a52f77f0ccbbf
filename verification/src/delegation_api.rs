//! What the delegation requests need besides the forest itself: identity
//! parsing, purpose normalization, and the error codes and messages that
//! answer a refused request.

use vstd::prelude::*;
use crate::ids::{
    DelegationId, DelegationIdAllocationError, ParseDelegationIdError, PaneId, parse_delegation_spec,
};
use crate::delegation::{DelegationError, DelegationValidationError, Delegations};
use crate::schema::{ErrorBody, ErrorResponse};
use crate::text::{decimal, opt_view, u64_to_decimal};

verus! {

/// The public form of a delegation identity, `d<n>`.
pub open spec fn id_text(id: DelegationId) -> Seq<char> {
    seq!['d'] + decimal(id.value() as nat)
}

/// The number of a pane, in decimal.
pub open spec fn pane_text(pane: PaneId) -> Seq<char> {
    decimal(pane.value() as nat)
}

pub open spec fn parse_error_text() -> Seq<char> {
    "delegation ID must be 'd' followed by a positive integer"@
}

impl ParseDelegationIdError {
    pub fn to_string(&self) -> (r: String)
        ensures
            r@ == parse_error_text(),
    {
        String::from_str("delegation ID must be 'd' followed by a positive integer")
    }
}

impl DelegationIdAllocationError {
    pub fn to_string(&self) -> (r: String)
        ensures
            r@ == "delegation ID space is exhausted"@,
    {
        String::from_str("delegation ID space is exhausted")
    }
}

/// The message of a refused delegation mutation or query.
pub open spec fn error_text(e: DelegationError) -> Seq<char> {
    match e {
        DelegationError::NotFound(id) => "delegation "@ + id_text(id) + " was not found"@,
        DelegationError::ParentNotFound(id) => "parent delegation "@ + id_text(id) + " was not found"@,
        DelegationError::PaneAlreadyAssociated(p) => "pane "@ + pane_text(p) + " already has a delegation"@,
        DelegationError::PaneNotAssociated(p) => "pane "@ + pane_text(p) + " has no delegation"@,
        DelegationError::PaneMismatch { expected, actual } => "delegation is associated with pane "@
            + pane_text(actual) + ", not "@ + pane_text(expected),
        DelegationError::SelfParent => "a delegation cannot parent itself"@,
        DelegationError::Cycle => "delegation parent would create a cycle"@,
        DelegationError::CorruptCycle => "delegation data contains a cycle"@,
        DelegationError::NotSibling(id) => "delegation "@ + id_text(id) + " is not a sibling"@,
        DelegationError::IdAllocationExhausted => "delegation ID space is exhausted"@,
    }
}

/// The message of a rejected persisted forest.
pub open spec fn validation_text(e: DelegationValidationError) -> Seq<char> {
    match e {
        DelegationValidationError::ZeroId => "delegation ID zero is invalid"@,
        DelegationValidationError::KeyIdMismatch { key, record } => "delegation key "@ + id_text(key)
            + " does not match record ID "@ + id_text(record),
        DelegationValidationError::DuplicateId(id) => "duplicate delegation ID "@ + id_text(id),
        DelegationValidationError::DuplicatePane(p) => "pane "@ + pane_text(p) + " has duplicate delegations"@,
        DelegationValidationError::DanglingParent { id, parent } => "delegation "@ + id_text(id)
            + " has missing parent "@ + id_text(parent),
        DelegationValidationError::Cycle(id) => "delegation cycle includes "@ + id_text(id),
    }
}

/// `a` followed by `b` and `c`.
fn text3(a: &str, b: &str, c: &str) -> (r: String)
    ensures
        r@ == a@ + b@ + c@,
{
    let mut s = String::from_str(a);
    s.append(b);
    s.append(c);
    s
}

fn pane_string(p: PaneId) -> (r: String)
    ensures
        r@ == pane_text(p),
{
    u64_to_decimal(p.raw() as u64)
}

impl DelegationError {
    pub fn to_string(&self) -> (r: String)
        ensures
            r@ == error_text(*self),
    {
        match self {
            DelegationError::NotFound(id) => text3("delegation ", id.to_string().as_str(), " was not found"),
            DelegationError::ParentNotFound(id) => text3(
                "parent delegation ",
                id.to_string().as_str(),
                " was not found",
            ),
            DelegationError::PaneAlreadyAssociated(p) => text3(
                "pane ",
                pane_string(*p).as_str(),
                " already has a delegation",
            ),
            DelegationError::PaneNotAssociated(p) => text3("pane ", pane_string(*p).as_str(), " has no delegation"),
            DelegationError::PaneMismatch { expected, actual } => {
                let mut s = text3(
                    "delegation is associated with pane ",
                    pane_string(*actual).as_str(),
                    ", not ",
                );
                s.append(pane_string(*expected).as_str());
                s
            },
            DelegationError::SelfParent => String::from_str("a delegation cannot parent itself"),
            DelegationError::Cycle => String::from_str("delegation parent would create a cycle"),
            DelegationError::CorruptCycle => String::from_str("delegation data contains a cycle"),
            DelegationError::NotSibling(id) => text3("delegation ", id.to_string().as_str(), " is not a sibling"),
            DelegationError::IdAllocationExhausted => String::from_str("delegation ID space is exhausted"),
        }
    }
}

impl DelegationValidationError {
    pub fn to_string(&self) -> (r: String)
        ensures
            r@ == validation_text(*self),
    {
        match self {
            DelegationValidationError::ZeroId => String::from_str("delegation ID zero is invalid"),
            DelegationValidationError::KeyIdMismatch { key, record } => {
                let mut s = text3(
                    "delegation key ",
                    key.to_string().as_str(),
                    " does not match record ID ",
                );
                s.append(record.to_string().as_str());
                s
            },
            DelegationValidationError::DuplicateId(id) => {
                let mut s = String::from_str("duplicate delegation ID ");
                s.append(id.to_string().as_str());
                s
            },
            DelegationValidationError::DuplicatePane(p) => text3(
                "pane ",
                pane_string(*p).as_str(),
                " has duplicate delegations",
            ),
            DelegationValidationError::DanglingParent { id, parent } => {
                let mut s = text3("delegation ", id.to_string().as_str(), " has missing parent ");
                s.append(parent.to_string().as_str());
                s
            },
            DelegationValidationError::Cycle(id) => {
                let mut s = String::from_str("delegation cycle includes ");
                s.append(id.to_string().as_str());
                s
            },
        }
    }
}

/// The code a refused delegation request answers with.
pub open spec fn error_code(e: DelegationError) -> Seq<char> {
    match e {
        DelegationError::NotFound(_) | DelegationError::ParentNotFound(_) => "delegation_not_found"@,
        DelegationError::SelfParent | DelegationError::Cycle | DelegationError::CorruptCycle => "delegation_cycle"@,
        DelegationError::PaneAlreadyAssociated(_) => "pane_already_delegated"@,
        DelegationError::NotSibling(_) => "delegation_not_sibling"@,
        _ => "delegation_mutation_failed"@,
    }
}

/// The answer to request `id` refused with `err`.
pub fn delegation_error(id: String, err: DelegationError) -> (r: ErrorResponse)
    ensures
        r.id@ == id@,
        r.error.code@ == error_code(err),
        r.error.message@ == error_text(err),
{
    let code = match err {
        DelegationError::NotFound(_) | DelegationError::ParentNotFound(_) => "delegation_not_found",
        DelegationError::SelfParent | DelegationError::Cycle | DelegationError::CorruptCycle => "delegation_cycle",
        DelegationError::PaneAlreadyAssociated(_) => "pane_already_delegated",
        DelegationError::NotSibling(_) => "delegation_not_sibling",
        _ => "delegation_mutation_failed",
    };
    ErrorResponse { id, error: ErrorBody { code: String::from_str(code), message: err.to_string() } }
}

/// A public delegation identity (`d<n>`, `n > 0`), or the parse error's message.
pub fn parse_id(raw: &str) -> (r: Result<DelegationId, String>)
    ensures
        match parse_delegation_spec(raw@) {
            Some(n) => r matches Ok(id) && id.value() == n,
            None => r matches Err(e) && e@ == parse_error_text(),
        },
{
    match DelegationId::parse(raw) {
        Ok(id) => Ok(id),
        Err(e) => Err(e.to_string()),
    }
}

/// An optional public delegation identity.
pub fn parse_optional_id(raw: Option<&str>) -> (r: Result<Option<DelegationId>, String>)
    ensures
        match raw {
            None => r == Ok::<Option<DelegationId>, String>(None),
            Some(text) => match parse_delegation_spec(text@) {
                Some(n) => r matches Ok(Some(id)) && id.value() == n,
                None => r matches Err(e) && e@ == parse_error_text(),
            },
        },
{
    match raw {
        None => Ok(None),
        Some(text) => match parse_id(text) {
            Ok(id) => Ok(Some(id)),
            Err(e) => Err(e),
        },
    }
}

// ------------------------------------------------------------------ purpose

/// The longest purpose kept, in characters.
pub const MAX_PURPOSE_CHARS: usize = 200;

/// Unicode white space, as `char::is_whitespace` defines it.
pub open spec fn is_white(c: char) -> bool {
    ||| ('\u{9}' <= c && c <= '\u{d}')
    ||| c == ' '
    ||| c == '\u{85}'
    ||| c == '\u{a0}'
    ||| c == '\u{1680}'
    ||| ('\u{2000}' <= c && c <= '\u{200a}')
    ||| c == '\u{2028}'
    ||| c == '\u{2029}'
    ||| c == '\u{202f}'
    ||| c == '\u{205f}'
    ||| c == '\u{3000}'
}

fn is_white_exec(c: char) -> (r: bool)
    ensures
        r == is_white(c),
{
    ('\u{9}' <= c && c <= '\u{d}') || c == ' ' || c == '\u{85}' || c == '\u{a0}' || c == '\u{1680}'
        || ('\u{2000}' <= c && c <= '\u{200a}') || c == '\u{2028}' || c == '\u{2029}' || c
        == '\u{202f}' || c == '\u{205f}' || c == '\u{3000}'
}

/// `s` without white space at either end: the characters from the first to
/// the last that is not white space.
pub open spec fn trimmed(s: Seq<char>) -> Seq<char> {
    if forall|i: int| 0 <= i < s.len() ==> is_white(#[trigger] s[i]) {
        Seq::empty()
    } else {
        let first = choose|i: int| 0 <= i < s.len() && !is_white(s[i]) && forall|j: int| 0 <= j < i ==> is_white(s[j]);
        let last = choose|i: int|
            0 <= i < s.len() && !is_white(s[i]) && forall|j: int| i < j < s.len() ==> is_white(s[j]);
        s.subrange(first, last + 1)
    }
}

/// What a stored purpose becomes: trimmed, cut to its first 200
/// characters, and dropped when nothing is left.
pub open spec fn normalized_purpose(value: Option<Seq<char>>) -> Option<Seq<char>> {
    match value {
        Some(v) => {
            let t = trimmed(v);
            let kept = if t.len() > MAX_PURPOSE_CHARS { t.take(MAX_PURPOSE_CHARS as int) } else { t };
            if kept.len() == 0 {
                None
            } else {
                Some(kept)
            }
        },
        None => None,
    }
}

/// Trim a purpose, keep at most its first 200 characters, and drop it when empty.
pub fn normalize_purpose(value: Option<String>) -> (r: Option<String>)
    ensures
        opt_view(r) == normalized_purpose(opt_view(value)),
{
    let value = match value {
        Some(v) => v,
        None => return None,
    };
    let s = value.as_str();
    let ghost sv = s@;
    let n = s.unicode_len();
    let mut first: usize = 0;
    while first < n && is_white_exec(s.get_char(first))
        invariant
            n == sv.len(),
            sv == s@,
            0 <= first <= n,
            forall|j: int| 0 <= j < first ==> is_white(sv[j]),
        decreases n - first,
    {
        first = first + 1;
    }
    if first == n {
        proof {
            assert(forall|i: int| 0 <= i < sv.len() ==> is_white(#[trigger] sv[i]));
        }
        return None;
    }
    let mut last: usize = n - 1;
    while is_white_exec(s.get_char(last))
        invariant
            n == sv.len(),
            sv == s@,
            first < n,
            !is_white(sv[first as int]),
            first <= last < n,
            forall|j: int| last < j < n ==> is_white(sv[j]),
        decreases last,
    {
        last = last - 1;
    }
    proof {
        let f = choose|i: int| 0 <= i < sv.len() && !is_white(sv[i]) && forall|j: int| 0 <= j < i ==> is_white(sv[j]);
        assert(!is_white(sv[first as int]) && forall|j: int| 0 <= j < first ==> is_white(sv[j]));
        assert(f == first) by {
            if f < first {
                assert(is_white(sv[f]));
            } else if f > first {
                assert(is_white(sv[first as int]));
            }
        }
        let l = choose|i: int| 0 <= i < sv.len() && !is_white(sv[i]) && forall|j: int| i < j < sv.len() ==> is_white(sv[j]);
        assert(!is_white(sv[last as int]) && forall|j: int| last < j < sv.len() ==> is_white(sv[j]));
        assert(l == last) by {
            if l < last {
                assert(is_white(sv[last as int]));
            } else if l > last {
                assert(is_white(sv[l]));
            }
        }
        assert(!(forall|i: int| 0 <= i < sv.len() ==> is_white(#[trigger] sv[i])));
    }
    let end = if last + 1 - first > MAX_PURPOSE_CHARS {
        first + MAX_PURPOSE_CHARS
    } else {
        last + 1
    };
    let kept = s.substring_char(first, end);
    proof {
        let t = sv.subrange(first as int, last + 1);
        assert(t == trimmed(sv));
        if t.len() > MAX_PURPOSE_CHARS {
            assert(kept@ =~= t.take(MAX_PURPOSE_CHARS as int));
        } else {
            assert(kept@ =~= t);
        }
    }
    Some(String::from_str(kept))
}

// ---------------------------------------------------- member creation

/// What creating a collection member asks of the delegation forest once
/// its input has been checked: a delegation under `parent_id` (a root when
/// `None`) with the normalized `purpose`.
#[derive(Debug, Clone, PartialEq, Eq)]
pub struct MemberDelegationRequest {
    pub parent_id: Option<DelegationId>,
    pub purpose: Option<String>,
}

/// The delegation that creating a member with the given parent and purpose
/// asks for, or the refusal, decided before anything is allocated.
pub open spec fn member_delegation_outcome(
    m: crate::forest::Forest,
    request_id: Seq<char>,
    parent: Option<Seq<char>>,
    purpose: Option<Seq<char>>,
    r: Result<Option<MemberDelegationRequest>, ErrorResponse>,
) -> bool {
    match parent {
        Some(text) => match parse_delegation_spec(text) {
            None => r matches Err(e) && e.id@ == request_id && e.error.code@ == "invalid_delegation_id"@
                && e.error.message@ == parse_error_text(),
            Some(n) => if !m.contains_key(n) {
                r matches Err(e) && e.id@ == request_id && e.error.code@ == "delegation_create_failed"@
                    && e.error.message@ == "parent delegation d"@ + decimal(n as nat) + " was not found"@
            } else {
                r matches Ok(Some(req)) && req.parent_id matches Some(id) && id.value() == n && opt_view(req.purpose)
                    == normalized_purpose(purpose)
            },
        },
        None => if normalized_purpose(purpose) is None {
            r == Ok::<Option<MemberDelegationRequest>, ErrorResponse>(None)
        } else {
            r matches Ok(Some(req)) && req.parent_id is None && opt_view(req.purpose) == normalized_purpose(purpose)
        },
    }
}

/// Check the delegation input of a member creation for request
/// `request_id`: the parent, if given, must be a well formed identity of an
/// existing delegation; the purpose is normalized; a member asked for
/// neither gets no delegation.
pub fn member_delegation_request(
    delegations: &Delegations,
    request_id: String,
    parent: Option<&str>,
    purpose: Option<String>,
) -> (r: Result<Option<MemberDelegationRequest>, ErrorResponse>)
    ensures
        member_delegation_outcome(
            delegations@,
            request_id@,
            match parent {
                Some(text) => Some(text@),
                None => None,
            },
            opt_view(purpose),
            r,
        ),
{
    let parent_id = match parse_optional_id(parent) {
        Ok(value) => value,
        Err(message) => {
            return Err(
                ErrorResponse {
                    id: request_id,
                    error: ErrorBody { code: String::from_str("invalid_delegation_id"), message },
                },
            );
        },
    };
    if let Some(id) = parent_id {
        if delegations.get(id).is_none() {
            let digits = u64_to_decimal(id.raw());
            let message = text3("parent delegation d", digits.as_str(), " was not found");
            return Err(
                ErrorResponse {
                    id: request_id,
                    error: ErrorBody { code: String::from_str("delegation_create_failed"), message },
                },
            );
        }
    }
    let purpose = normalize_purpose(purpose);
    if parent_id.is_none() && purpose.is_none() {
        return Ok(None);
    }
    Ok(Some(MemberDelegationRequest { parent_id, purpose }))
}

} // verus!
