//! Validation of the choices document that a plugin action's choices
//! provider prints: size, version, count, identity, label and payload limits.

use vstd::prelude::*;
use unicode_width::UnicodeWidthStr;
use crate::text::{concat, decimal, str_eq, u64_to_decimal};

verus! {

pub const MAX_CHOICES: usize = 64;
pub const MAX_CHOICE_ID_CHARS: usize = 120;
pub const MAX_CHOICE_LABEL_CHARS: usize = 256;
pub const MAX_CHOICE_PAYLOAD_BYTES: usize = 8192;
pub const MAX_CHOICE_JSON_DEPTH: usize = 16;
pub const MAX_CHOICES_OUTPUT_BYTES: usize = 65536;

/// Why a choices document was rejected.
#[derive(Debug, Clone, PartialEq, Eq)]
pub enum PluginActionChoicesParseError {
    OutputTooLarge,
    InvalidUtf8,
    InvalidJson(String),
    UnsupportedVersion(u32),
    TooManyChoices,
    EmptyId,
    IdTooLong,
    DuplicateId(String),
    EmptyOrZeroWidthLabel,
    LabelTooLong,
    UnsafeLabel,
    PayloadTooLarge,
    PayloadTooDeep,
}

/// The nesting structure of a JSON payload: arrays and objects hold their
/// values, everything else is a scalar.
pub enum PayloadShape {
    Scalar,
    Array(Vec<PayloadShape>),
    Object(Vec<PayloadShape>),
}

/// One choice as the provider printed it.
pub struct RawChoice {
    pub id: String,
    pub label: String,
    pub payload: PayloadShape,
    /// The payload's serialized length in bytes, or why it could not be serialized.
    pub payload_bytes: Result<usize, String>,
}

/// Why the output could not be read as a choices document at all.
#[derive(Debug, Clone, PartialEq, Eq)]
pub enum DocumentFailure {
    InvalidUtf8,
    InvalidJson(String),
}

/// The displayed width in terminal columns of a text.
pub uninterp spec fn display_width(s: Seq<char>) -> usize;

/// The displayed width of `s`, as `unicode_width::UnicodeWidthStr::width`
/// computes it: a function of the text alone.
#[verifier::external_body]
fn str_width(s: &str) -> (r: usize)
    ensures
        r == display_width(s@),
{
    UnicodeWidthStr::width(s)
}

/// Control characters (general category Cc) and the bidirectional
/// formatting characters a label must not contain.
pub open spec fn unsafe_label_char(c: char) -> bool {
    ||| c <= '\u{1f}'
    ||| ('\u{7f}' <= c && c <= '\u{9f}')
    ||| c == '\u{61c}'
    ||| c == '\u{200e}'
    ||| c == '\u{200f}'
    ||| ('\u{202a}' <= c && c <= '\u{202e}')
    ||| ('\u{2066}' <= c && c <= '\u{2069}')
}

/// Whether a label must not contain `character`.
pub fn is_unsafe_label_character(character: char) -> (r: bool)
    ensures
        r == unsafe_label_char(character),
{
    character <= '\u{1f}' || ('\u{7f}' <= character && character <= '\u{9f}') || character == '\u{61c}'
        || character == '\u{200e}' || character == '\u{200f}' || ('\u{202a}' <= character && character
        <= '\u{202e}') || ('\u{2066}' <= character && character <= '\u{2069}')
}

/// An identity passes: nonempty, at most 120 characters, not seen before.
pub open spec fn id_ok(id: Seq<char>, seen: Seq<Seq<char>>) -> bool {
    0 < id.len() <= MAX_CHOICE_ID_CHARS && !seen.contains(id)
}

/// `e` is the error a failing identity check reports.
pub open spec fn id_error(e: PluginActionChoicesParseError, id: Seq<char>, seen: Seq<Seq<char>>) -> bool {
    if id.len() == 0 {
        e == PluginActionChoicesParseError::EmptyId
    } else if id.len() > MAX_CHOICE_ID_CHARS {
        e == PluginActionChoicesParseError::IdTooLong
    } else {
        e matches PluginActionChoicesParseError::DuplicateId(text) && text@ == id
    }
}

/// Check a choice identity and remember it.
pub fn validate_id(id: &str, ids: &mut Vec<String>) -> (r: Result<(), PluginActionChoicesParseError>)
    ensures
        r is Ok <==> id_ok(id@, old(ids)@.map_values(|s: String| s@)),
        r is Ok ==> final(ids)@.map_values(|s: String| s@) == old(ids)@.map_values(|s: String| s@).push(id@),
        r matches Err(e) ==> id_error(e, id@, old(ids)@.map_values(|s: String| s@)) && final(ids)@ == old(ids)@,
{
    let ghost seen = ids@.map_values(|s: String| s@);
    let n = id.unicode_len();
    if n == 0 {
        return Err(PluginActionChoicesParseError::EmptyId);
    }
    if n > MAX_CHOICE_ID_CHARS {
        return Err(PluginActionChoicesParseError::IdTooLong);
    }
    let mut i: usize = 0;
    while i < ids.len()
        invariant
            seen == ids@.map_values(|s: String| s@),
            seen == old(ids)@.map_values(|s: String| s@),
            ids@ == old(ids)@,
            0 < id@.len() <= MAX_CHOICE_ID_CHARS,
            0 <= i <= ids@.len(),
            forall|j: int| 0 <= j < i ==> seen[j] != id@,
        decreases ids@.len() - i,
    {
        if str_eq(ids[i].as_str(), id) {
            assert(seen[i as int] == id@);
            return Err(PluginActionChoicesParseError::DuplicateId(String::from_str(id)));
        }
        i = i + 1;
    }
    ids.push(String::from_str(id));
    assert(ids@.map_values(|s: String| s@) =~= seen.push(id@));
    Ok(())
}

/// The label check: at most 256 characters, no unsafe character, and not
/// empty or of zero displayed width.
pub open spec fn label_problem(label: Seq<char>) -> Option<PluginActionChoicesParseError> {
    if label.len() > MAX_CHOICE_LABEL_CHARS {
        Some(PluginActionChoicesParseError::LabelTooLong)
    } else if exists|i: int| 0 <= i < label.len() && unsafe_label_char(label[i]) {
        Some(PluginActionChoicesParseError::UnsafeLabel)
    } else if label.len() == 0 || display_width(label) == 0 {
        Some(PluginActionChoicesParseError::EmptyOrZeroWidthLabel)
    } else {
        None
    }
}

/// Check a choice label.
pub fn validate_label(label: &str) -> (r: Result<(), PluginActionChoicesParseError>)
    ensures
        match label_problem(label@) {
            None => r is Ok,
            Some(e) => r == Err::<(), PluginActionChoicesParseError>(e),
        },
{
    let n = label.unicode_len();
    if n > MAX_CHOICE_LABEL_CHARS {
        return Err(PluginActionChoicesParseError::LabelTooLong);
    }
    let mut i: usize = 0;
    while i < n
        invariant
            n == label@.len(),
            n <= MAX_CHOICE_LABEL_CHARS,
            0 <= i <= n,
            forall|j: int| 0 <= j < i ==> !unsafe_label_char(label@[j]),
        decreases n - i,
    {
        if is_unsafe_label_character(label.get_char(i)) {
            assert(unsafe_label_char(label@[i as int]));
            return Err(PluginActionChoicesParseError::UnsafeLabel);
        }
        i = i + 1;
    }
    if n == 0 || str_width(label) == 0 {
        return Err(PluginActionChoicesParseError::EmptyOrZeroWidthLabel);
    }
    Ok(())
}

/// Whether the payload, sitting at `depth`, nests arrays and objects more
/// than 16 levels deep.
pub open spec fn exceeds_depth(value: PayloadShape, depth: nat) -> bool
    decreases value, 0nat,
{
    match value {
        PayloadShape::Scalar => false,
        PayloadShape::Array(values) => depth + 1 > MAX_CHOICE_JSON_DEPTH || some_exceeds(
            values@,
            values@.len() as int,
            depth + 1,
        ),
        PayloadShape::Object(values) => depth + 1 > MAX_CHOICE_JSON_DEPTH || some_exceeds(
            values@,
            values@.len() as int,
            depth + 1,
        ),
    }
}

/// Whether one of the first `n` of `values`, sitting at `depth`, nests too deep.
pub open spec fn some_exceeds(values: Seq<PayloadShape>, n: int, depth: nat) -> bool
    decreases values, n,
{
    if n <= 0 || n > values.len() {
        false
    } else {
        some_exceeds(values, n - 1, depth) || exceeds_depth(values[n - 1], depth)
    }
}

/// Whether any of `values`, the children of a value at `depth`, nests too deep.
fn any_exceeds(values: &Vec<PayloadShape>, depth: usize) -> (r: bool)
    requires
        depth + 1 <= MAX_CHOICE_JSON_DEPTH,
    ensures
        r == some_exceeds(values@, values@.len() as int, depth as nat + 1),
    decreases values@, 0nat,
{
    let mut i: usize = 0;
    while i < values.len()
        invariant
            depth + 1 <= MAX_CHOICE_JSON_DEPTH,
            0 <= i <= values@.len(),
            !some_exceeds(values@, i as int, depth as nat + 1),
        decreases values@.len() - i,
    {
        assert(decreases_to!(values@ => values@[i as int]));
        if payload_exceeds_depth(&values[i], depth + 1) {
            proof {
                lemma_some_exceeds_grows(values@, i + 1, values@.len() as int, depth as nat + 1);
            }
            return true;
        }
        i = i + 1;
    }
    false
}

/// Once one of the first `n` nests too deep, so does one of the first `m >= n`.
proof fn lemma_some_exceeds_grows(values: Seq<PayloadShape>, n: int, m: int, depth: nat)
    requires
        some_exceeds(values, n, depth),
        n <= m <= values.len(),
    ensures
        some_exceeds(values, m, depth),
    decreases m - n,
{
    if n < m {
        lemma_some_exceeds_grows(values, n, m - 1, depth);
    }
}

/// Whether a payload, sitting at `depth`, nests arrays and objects more
/// than 16 levels deep.
pub fn payload_exceeds_depth(value: &PayloadShape, depth: usize) -> (r: bool)
    requires
        depth <= MAX_CHOICE_JSON_DEPTH,
    ensures
        r == exceeds_depth(*value, depth as nat),
    decreases *value, 1nat,
{
    match value {
        PayloadShape::Scalar => false,
        PayloadShape::Array(values) => {
            if depth + 1 > MAX_CHOICE_JSON_DEPTH {
                return true;
            }
            any_exceeds(values, depth)
        },
        PayloadShape::Object(values) => {
            if depth + 1 > MAX_CHOICE_JSON_DEPTH {
                return true;
            }
            any_exceeds(values, depth)
        },
    }
}

/// The payload check: not nested too deep, and its serialized form within 8 KiB.
pub fn validate_payload(payload: &PayloadShape, payload_bytes: &Result<usize, String>) -> (r: Result<(), PluginActionChoicesParseError>)
    ensures
        exceeds_depth(*payload, 0) ==> r == Err::<(), PluginActionChoicesParseError>(
            PluginActionChoicesParseError::PayloadTooDeep,
        ),
        !exceeds_depth(*payload, 0) ==> match payload_bytes {
            Err(m) => r matches Err(PluginActionChoicesParseError::InvalidJson(e)) && e@ == m@,
            Ok(n) => if *n > MAX_CHOICE_PAYLOAD_BYTES {
                r == Err::<(), PluginActionChoicesParseError>(PluginActionChoicesParseError::PayloadTooLarge)
            } else {
                r is Ok
            },
        },
{
    if payload_exceeds_depth(payload, 0) {
        return Err(PluginActionChoicesParseError::PayloadTooDeep);
    }
    match payload_bytes {
        Err(m) => Err(PluginActionChoicesParseError::InvalidJson(m.clone())),
        Ok(n) => if *n > MAX_CHOICE_PAYLOAD_BYTES {
            Err(PluginActionChoicesParseError::PayloadTooLarge)
        } else {
            Ok(())
        },
    }
}

/// Check a whole choices document: the output size, then whether it could
/// be read, then the version (only 1), the number of choices (at most 64),
/// and each choice in order (identity, label, payload); the first problem
/// found is reported.
pub fn validate_choices_document(
    output_len: usize,
    parsed: &Result<(u32, Vec<RawChoice>), DocumentFailure>,
) -> (r: Result<(), PluginActionChoicesParseError>)
    ensures
        output_len > MAX_CHOICES_OUTPUT_BYTES ==> r == Err::<(), PluginActionChoicesParseError>(
            PluginActionChoicesParseError::OutputTooLarge,
        ),
        output_len <= MAX_CHOICES_OUTPUT_BYTES ==> match parsed {
            Err(DocumentFailure::InvalidUtf8) => r == Err::<(), PluginActionChoicesParseError>(
                PluginActionChoicesParseError::InvalidUtf8,
            ),
            Err(DocumentFailure::InvalidJson(m)) => r matches Err(PluginActionChoicesParseError::InvalidJson(e)) && e@ == m@,
            Ok((version, choices)) => if *version != 1 {
                r == Err::<(), PluginActionChoicesParseError>(
                    PluginActionChoicesParseError::UnsupportedVersion(*version),
                )
            } else if choices@.len() > MAX_CHOICES {
                r == Err::<(), PluginActionChoicesParseError>(PluginActionChoicesParseError::TooManyChoices)
            } else {
                &&& r is Ok <==> choices_ok(choices@)
                &&& r matches Err(e) ==> exists|i: int|
                    0 <= i < choices@.len() && (forall|j: int| 0 <= j < i ==> #[trigger] choice_ok(choices@, j))
                        && !choice_ok(choices@, i) && reports(e, choices@, i)
            },
        },
{
    if output_len > MAX_CHOICES_OUTPUT_BYTES {
        return Err(PluginActionChoicesParseError::OutputTooLarge);
    }
    let (version, choices) = match parsed {
        Err(DocumentFailure::InvalidUtf8) => return Err(PluginActionChoicesParseError::InvalidUtf8),
        Err(DocumentFailure::InvalidJson(m)) => return Err(PluginActionChoicesParseError::InvalidJson(m.clone())),
        Ok(p) => (p.0, &p.1),
    };
    if version != 1 {
        return Err(PluginActionChoicesParseError::UnsupportedVersion(version));
    }
    if choices.len() > MAX_CHOICES {
        return Err(PluginActionChoicesParseError::TooManyChoices);
    }
    let mut ids: Vec<String> = Vec::new();
    let mut i: usize = 0;
    while i < choices.len()
        invariant
            output_len <= MAX_CHOICES_OUTPUT_BYTES,
            parsed matches Ok(p) && p.0 == 1 && p.1@ == choices@,
            choices@.len() <= MAX_CHOICES,
            0 <= i <= choices@.len(),
            ids@.map_values(|s: String| s@) == ids_before(choices@, i as int),
            forall|j: int| 0 <= j < i ==> #[trigger] choice_ok(choices@, j),
        decreases choices@.len() - i,
    {
        let c = &choices[i];
        let ghost seen = ids@.map_values(|s: String| s@);
        proof {
            assert(ids_before(choices@, i as int) == seen);
        }
        match validate_id(c.id.as_str(), &mut ids) {
            Ok(()) => {},
            Err(e) => {
                proof {
                    assert(!choice_ok(choices@, i as int));
                    assert(reports(e, choices@, i as int));
                }
                return Err(e);
            },
        }
        match validate_label(c.label.as_str()) {
            Ok(()) => {},
            Err(e) => {
                proof {
                    assert(!choice_ok(choices@, i as int));
                    assert(reports(e, choices@, i as int));
                }
                return Err(e);
            },
        }
        match validate_payload(&c.payload, &c.payload_bytes) {
            Ok(()) => {},
            Err(e) => {
                proof {
                    assert(!choice_ok(choices@, i as int));
                    assert(reports(e, choices@, i as int));
                }
                return Err(e);
            },
        }
        proof {
            assert(choice_ok(choices@, i as int));
            assert(ids_before(choices@, i + 1) =~= seen.push(c.id@));
        }
        i = i + 1;
    }
    assert(choices_ok(choices@));
    Ok(())
}

/// The identities of the choices before `i`.
pub open spec fn ids_before(choices: Seq<RawChoice>, i: int) -> Seq<Seq<char>> {
    choices.take(i).map_values(|x: RawChoice| x.id@)
}

/// `e` is the error that failing choice `i` reports: that of its first
/// failing check (identity, label, payload depth, payload size).
pub open spec fn reports(e: PluginActionChoicesParseError, choices: Seq<RawChoice>, i: int) -> bool {
    let c = choices[i];
    if !id_ok(c.id@, ids_before(choices, i)) {
        id_error(e, c.id@, ids_before(choices, i))
    } else if label_problem(c.label@) is Some {
        label_problem(c.label@) == Some(e)
    } else if exceeds_depth(c.payload, 0) {
        e == PluginActionChoicesParseError::PayloadTooDeep
    } else {
        match c.payload_bytes {
            Err(m) => e matches PluginActionChoicesParseError::InvalidJson(t) && t@ == m@,
            Ok(_) => e == PluginActionChoicesParseError::PayloadTooLarge,
        }
    }
}

/// Choice `i` passes its checks, given the identities before it.
pub open spec fn choice_ok(choices: Seq<RawChoice>, i: int) -> bool {
    let c = choices[i];
    &&& id_ok(c.id@, ids_before(choices, i))
    &&& label_problem(c.label@) is None
    &&& !exceeds_depth(c.payload, 0)
    &&& c.payload_bytes matches Ok(n) && n <= MAX_CHOICE_PAYLOAD_BYTES
}

/// Every choice from `i` on passes its checks.
pub open spec fn choices_ok_from(choices: Seq<RawChoice>, i: int) -> bool {
    forall|j: int| i <= j < choices.len() ==> #[trigger] choice_ok(choices, j)
}

/// Every choice passes its checks.
pub open spec fn choices_ok(choices: Seq<RawChoice>) -> bool {
    choices_ok_from(choices, 0)
}

/// The message of a rejected choices document.
pub open spec fn parse_error_text(e: PluginActionChoicesParseError) -> Seq<char> {
    match e {
        PluginActionChoicesParseError::OutputTooLarge => "choices output exceeds 64 KiB"@,
        PluginActionChoicesParseError::InvalidUtf8 => "choices output is not valid UTF-8"@,
        PluginActionChoicesParseError::InvalidJson(m) => "invalid choices JSON: "@ + m@,
        PluginActionChoicesParseError::UnsupportedVersion(v) => "unsupported choices output version "@ + decimal(
            v as nat,
        ),
        PluginActionChoicesParseError::TooManyChoices => "choices output contains more than 64 choices"@,
        PluginActionChoicesParseError::EmptyId => "choice id must not be empty"@,
        PluginActionChoicesParseError::IdTooLong => "choice id exceeds 120 characters"@,
        PluginActionChoicesParseError::DuplicateId(id) => "duplicate choice id '"@ + id@ + "'"@,
        PluginActionChoicesParseError::EmptyOrZeroWidthLabel => "choice label must not be empty or zero-width-only"@,
        PluginActionChoicesParseError::LabelTooLong => "choice label exceeds 256 characters"@,
        PluginActionChoicesParseError::UnsafeLabel => "choice label contains unsafe characters"@,
        PluginActionChoicesParseError::PayloadTooLarge => "choice payload exceeds 8 KiB"@,
        PluginActionChoicesParseError::PayloadTooDeep => "choice payload exceeds JSON depth 16"@,
    }
}

impl PluginActionChoicesParseError {
    pub fn to_string(&self) -> (r: String)
        ensures
            r@ == parse_error_text(*self),
    {
        match self {
            PluginActionChoicesParseError::OutputTooLarge => String::from_str("choices output exceeds 64 KiB"),
            PluginActionChoicesParseError::InvalidUtf8 => String::from_str("choices output is not valid UTF-8"),
            PluginActionChoicesParseError::InvalidJson(m) => concat("invalid choices JSON: ", m.as_str()),
            PluginActionChoicesParseError::UnsupportedVersion(v) => {
                let n = u64_to_decimal(*v as u64);
                concat("unsupported choices output version ", n.as_str())
            },
            PluginActionChoicesParseError::TooManyChoices => String::from_str(
                "choices output contains more than 64 choices",
            ),
            PluginActionChoicesParseError::EmptyId => String::from_str("choice id must not be empty"),
            PluginActionChoicesParseError::IdTooLong => String::from_str("choice id exceeds 120 characters"),
            PluginActionChoicesParseError::DuplicateId(id) => {
                let head = concat("duplicate choice id '", id.as_str());
                concat(head.as_str(), "'")
            },
            PluginActionChoicesParseError::EmptyOrZeroWidthLabel => String::from_str(
                "choice label must not be empty or zero-width-only",
            ),
            PluginActionChoicesParseError::LabelTooLong => String::from_str("choice label exceeds 256 characters"),
            PluginActionChoicesParseError::UnsafeLabel => String::from_str("choice label contains unsafe characters"),
            PluginActionChoicesParseError::PayloadTooLarge => String::from_str("choice payload exceeds 8 KiB"),
            PluginActionChoicesParseError::PayloadTooDeep => String::from_str("choice payload exceeds JSON depth 16"),
        }
    }
}

} // verus!
