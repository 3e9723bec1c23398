//! Decoding the build tool's structured output.
//!
//! Each output line is one self-contained JSON record. serde_json does the
//! decoding; since what it returns is a function of the line's text alone,
//! each query the shape recognition needs — does the line parse, what string
//! stands at a member, what a span's fields hold — has a named result, and
//! the trusted wrappers promise to return exactly that name's value. The
//! verified code assembles the record from those queries, so its contracts
//! fix, line by line, when decoding fails (fatal for the whole run), when a
//! record is dropped as not a compiler message, and which code and spans an
//! accepted message carries.

use vstd::prelude::*;
use vstd::string::StrSliceExecFns;
use vstd::string::StringExecFns;
use vstd::string::StringSliceAdditionalSpecFns;
use vstd::utf8::encode_utf8;
use crate::category::Code;
use crate::span::Span;
use crate::plan::{DiagnosticRecord, Message};

verus! {

/// Whether serde_json::from_str decodes this text as JSON. The result
/// depends on the text alone.
pub uninterp spec fn json_ok(s: Seq<char>) -> bool;

/// The string member at `key` of the line's top-level JSON object; nothing
/// when the line does not decode, is not an object, lacks the member, or
/// holds a non-string there. A function of the text alone.
pub uninterp spec fn member_str_of(s: Seq<char>, key: Seq<char>) -> Option<Seq<char>>;

/// The line's `message.code` member: the inner code string, or none-inside
/// when the member is absent or null; nothing at all when the line, its
/// message object, or the code's shape is wrong. A function of the text
/// alone.
pub uninterp spec fn message_code_of(s: Seq<char>) -> Option<Option<Seq<char>>>;

/// The length of the line's `message.spans` array; nothing when the line,
/// its message object, or the spans member is not of that shape. A function
/// of the text alone.
pub uninterp spec fn span_count_of(s: Seq<char>) -> Option<int>;

/// The unsigned-integer member at `key` of the line's i-th span; nothing
/// when any step of that path is missing or of another shape. A function of
/// the text alone.
pub uninterp spec fn span_u64_of(s: Seq<char>, i: int, key: Seq<char>) -> Option<u64>;

/// The string member at `key` of the line's i-th span; nothing when any
/// step of that path is missing or of another shape. A function of the text
/// alone.
pub uninterp spec fn span_str_of(s: Seq<char>, i: int, key: Seq<char>) -> Option<Seq<char>>;

/// The boolean member at `key` of the line's i-th span; nothing when any
/// step of that path is missing or of another shape. A function of the text
/// alone.
pub uninterp spec fn span_bool_of(s: Seq<char>, i: int, key: Seq<char>) -> Option<bool>;

/// Relies on serde_json::from_str targeting serde_json::Value: whether the
/// line is valid JSON.
#[verifier::external_body]
fn line_json_ok(s: &str) -> (r: bool)
    ensures
        r == json_ok(s@),
{
    serde_json::from_str::<serde_json::Value>(s).is_ok()
}

/// Relies on serde_json::from_str and Value::{get, as_str}: the string
/// member at `key` of the line's top-level object.
#[verifier::external_body]
fn line_member_str(s: &str, key: &str) -> (r: Option<String>)
    ensures
        match r {
            Option::Some(x) => member_str_of(s@, key@) == Some(x@),
            Option::None => member_str_of(s@, key@) is None,
        },
{
    let v: serde_json::Value = serde_json::from_str(s).ok()?;
    Some(v.get(key)?.as_str()?.to_owned())
}

/// Relies on serde_json::from_str and Value::{get, is_null, as_str}: the
/// line's `message.code` member, with an absent or null code inside the
/// outer some, and nothing at all on a shape mismatch.
#[verifier::external_body]
fn line_message_code(s: &str) -> (r: Option<Option<String>>)
    ensures
        match r {
            Option::Some(Option::Some(x)) => message_code_of(s@) == Some(Some(x@)),
            Option::Some(Option::None) => message_code_of(s@) == Some(None::<Seq<char>>),
            Option::None => message_code_of(s@) is None,
        },
{
    let v: serde_json::Value = serde_json::from_str(s).ok()?;
    let c = match v.get("message")?.get("code") {
        None => return Some(None),
        Some(c) => c,
    };
    if c.is_null() {
        return Some(None);
    }
    Some(Some(c.get("code")?.as_str()?.to_owned()))
}

/// Relies on serde_json::from_str and Value::{get, as_array}: how many
/// elements the line's `message.spans` array holds.
#[verifier::external_body]
fn line_span_count(s: &str) -> (r: Option<usize>)
    ensures
        match r {
            Option::Some(n) => span_count_of(s@) == Some(n as int),
            Option::None => span_count_of(s@) is None,
        },
{
    let v: serde_json::Value = serde_json::from_str(s).ok()?;
    Some(v.get("message")?.get("spans")?.as_array()?.len())
}

/// Relies on serde_json::from_str and Value::{get, as_array, as_u64}: the
/// unsigned-integer member at `key` of the line's i-th span.
#[verifier::external_body]
fn line_span_u64(s: &str, i: usize, key: &str) -> (r: Option<u64>)
    ensures
        match r {
            Option::Some(x) => span_u64_of(s@, i as int, key@) == Some(x),
            Option::None => span_u64_of(s@, i as int, key@) is None,
        },
{
    let v: serde_json::Value = serde_json::from_str(s).ok()?;
    v.get("message")?.get("spans")?.as_array()?.get(i)?.get(key)?.as_u64()
}

/// Relies on serde_json::from_str and Value::{get, as_array, as_str}: the
/// string member at `key` of the line's i-th span.
#[verifier::external_body]
fn line_span_str(s: &str, i: usize, key: &str) -> (r: Option<String>)
    ensures
        match r {
            Option::Some(x) => span_str_of(s@, i as int, key@) == Some(x@),
            Option::None => span_str_of(s@, i as int, key@) is None,
        },
{
    let v: serde_json::Value = serde_json::from_str(s).ok()?;
    Some(v.get("message")?.get("spans")?.as_array()?.get(i)?.get(key)?.as_str()?.to_owned())
}

/// Relies on serde_json::from_str and Value::{get, as_array, as_bool}: the
/// boolean member at `key` of the line's i-th span.
#[verifier::external_body]
fn line_span_bool(s: &str, i: usize, key: &str) -> (r: Option<bool>)
    ensures
        match r {
            Option::Some(x) => span_bool_of(s@, i as int, key@) == Some(x),
            Option::None => span_bool_of(s@, i as int, key@) is None,
        },
{
    let v: serde_json::Value = serde_json::from_str(s).ok()?;
    v.get("message")?.get("spans")?.as_array()?.get(i)?.get(key)?.as_bool()
}

/// Why decoding the build tool's output failed. Either way the run aborts:
/// the output contract is assumed stable, so a decode failure signals an
/// unexpected format and must not be silently ignored.
#[derive(Debug, Clone, Copy, PartialEq, Eq, Structural)]
pub enum DecodeError {
    /// A line is not valid JSON.
    Syntax,
    /// A line is valid JSON but does not have the expected record shape.
    Shape,
}

/// Whether the i-th span of the line's message has all four fields, the
/// offsets fitting a usize.
pub open spec fn span_fields_ok(s: Seq<char>, i: int) -> bool {
    &&& (span_u64_of(s, i, "byte_start"@) matches Some(x) && x <= usize::MAX as u64)
    &&& (span_u64_of(s, i, "byte_end"@) matches Some(y) && y <= usize::MAX as u64)
    &&& span_str_of(s, i, "file_name"@) is Some
    &&& span_bool_of(s, i, "is_primary"@) is Some
}

/// Whether the line's compiler message decodes in full: a well-shaped code
/// member, a spans array, and every span with its four fields.
pub open spec fn message_shape_ok(s: Seq<char>) -> bool {
    &&& message_code_of(s) is Some
    &&& span_count_of(s) is Some
    &&& forall|i: int| 0 <= i < span_count_of(s).unwrap() ==> #[trigger] span_fields_ok(s, i)
}

/// Whether the line decodes as a record at all: valid JSON, a string record
/// tag, and — for a compiler message — the full message shape.
pub open spec fn line_decodes(s: Seq<char>) -> bool {
    &&& json_ok(s)
    &&& member_str_of(s, "reason"@) is Some
    &&& (member_str_of(s, "reason"@) == Some("compiler-message"@) ==> message_shape_ok(s))
}

/// Whether `sp` holds exactly what the line's i-th span holds.
pub open spec fn span_matches(s: Seq<char>, i: int, sp: Span) -> bool {
    &&& span_u64_of(s, i, "byte_start"@) == Some(sp.byte_start as u64)
    &&& span_u64_of(s, i, "byte_end"@) == Some(sp.byte_end as u64)
    &&& (span_str_of(s, i, "file_name"@) matches Some(f) && sp.file_name@ == encode_utf8(f))
    &&& span_bool_of(s, i, "is_primary"@) == Some(sp.is_primary)
}

/// Whether `m` holds exactly the line's message: its code member and, span
/// by span, its spans array.
pub open spec fn message_matches(s: Seq<char>, m: Message) -> bool {
    &&& (match message_code_of(s) {
        Option::Some(Option::Some(c)) => m.code matches Some(k) && k.code@ == c,
        Option::Some(Option::None) => m.code is None,
        Option::None => false,
    })
    &&& span_count_of(s) == Some(m.spans@.len() as int)
    &&& forall|i: int| 0 <= i < m.spans@.len() ==> span_matches(s, i, #[trigger] m.spans@[i])
}

/// Whether `rec` is the record the line describes: a compiler message with
/// matching contents under the compiler-message tag, `Other` under any other
/// string tag.
pub open spec fn record_matches(s: Seq<char>, rec: DiagnosticRecord) -> bool {
    match member_str_of(s, "reason"@) {
        Option::Some(x) => {
            if x == "compiler-message"@ {
                rec matches DiagnosticRecord::CompilerMessage(m) && message_matches(s, m)
            } else {
                rec is Other
            }
        },
        Option::None => false,
    }
}

/// Whether two strings hold the same characters.
fn str_eq(a: &str, b: &str) -> (r: bool)
    ensures
        r == (a@ == b@),
{
    let sa: String = String::from_str(a);
    let sb: String = String::from_str(b);
    sa.eq(&sb)
}

/// The number as a usize, unless it does not fit.
fn u64_to_usize(x: u64) -> (r: Option<usize>)
    ensures
        r matches Some(v) ==> v as u64 == x,
        (r is None) == (x > usize::MAX as u64),
{
    if x <= usize::MAX as u64 {
        Some(x as usize)
    } else {
        None
    }
}

/// Decode one line of the build tool's output into a record. An invalid
/// JSON line fails with a syntax error and a malformed record with a shape
/// error — exactly when `line_decodes` does not hold; a line whose record
/// tag is anything but a compiler message yields `Other`; a compiler
/// message yields exactly its optional code and its spans.
pub fn parse_line(s: &str) -> (r: Result<DiagnosticRecord, DecodeError>)
    ensures
        (r is Ok) == line_decodes(s@),
        (r == Err::<DiagnosticRecord, DecodeError>(DecodeError::Syntax)) <==> !json_ok(s@),
        r matches Ok(rec) ==> record_matches(s@, rec),
{
    if !line_json_ok(s) {
        return Err(DecodeError::Syntax);
    }
    let reason = match line_member_str(s, "reason") {
        Option::Some(x) => x,
        Option::None => {
            return Err(DecodeError::Shape);
        },
    };
    if !str_eq(reason.as_str(), "compiler-message") {
        return Ok(DiagnosticRecord::Other);
    }
    let code_val = match line_message_code(s) {
        Option::Some(c) => c,
        Option::None => {
            return Err(DecodeError::Shape);
        },
    };
    let code: Option<Code> = match code_val {
        Option::Some(cs) => Some(Code { code: cs }),
        Option::None => None,
    };
    let n = match line_span_count(s) {
        Option::Some(n) => n,
        Option::None => {
            return Err(DecodeError::Shape);
        },
    };
    let mut spans: Vec<Span> = Vec::new();
    let mut i: usize = 0;
    while i < n
        invariant
            0 <= i <= n,
            json_ok(s@),
            member_str_of(s@, "reason"@) == Some("compiler-message"@),
            span_count_of(s@) == Some(n as int),
            (match message_code_of(s@) {
                Option::Some(Option::Some(c)) => code matches Some(k) && k.code@ == c,
                Option::Some(Option::None) => code is None,
                Option::None => false,
            }),
            spans@.len() == i,
            forall|j: int| 0 <= j < i ==> #[trigger] span_fields_ok(s@, j),
            forall|j: int| 0 <= j < i ==> span_matches(s@, j, #[trigger] spans@[j]),
        decreases n - i,
    {
        let start_u = match line_span_u64(s, i, "byte_start") {
            Option::Some(x) => x,
            Option::None => {
                proof {
                    shape_not_ok(s@, i as int, n as int);
                }
                return Err(DecodeError::Shape);
            },
        };
        let byte_start = match u64_to_usize(start_u) {
            Option::Some(x) => x,
            Option::None => {
                proof {
                    shape_not_ok(s@, i as int, n as int);
                }
                return Err(DecodeError::Shape);
            },
        };
        let end_u = match line_span_u64(s, i, "byte_end") {
            Option::Some(x) => x,
            Option::None => {
                proof {
                    shape_not_ok(s@, i as int, n as int);
                }
                return Err(DecodeError::Shape);
            },
        };
        let byte_end = match u64_to_usize(end_u) {
            Option::Some(x) => x,
            Option::None => {
                proof {
                    shape_not_ok(s@, i as int, n as int);
                }
                return Err(DecodeError::Shape);
            },
        };
        let file = match line_span_str(s, i, "file_name") {
            Option::Some(x) => x,
            Option::None => {
                proof {
                    shape_not_ok(s@, i as int, n as int);
                }
                return Err(DecodeError::Shape);
            },
        };
        let is_primary = match line_span_bool(s, i, "is_primary") {
            Option::Some(x) => x,
            Option::None => {
                proof {
                    shape_not_ok(s@, i as int, n as int);
                }
                return Err(DecodeError::Shape);
            },
        };
        let file_name = file.as_str().as_bytes_vec();
        spans.push(Span { byte_start, byte_end, file_name, is_primary });
        i += 1;
    }
    Ok(DiagnosticRecord::CompilerMessage(Message { code, spans }))
}

/// Helper: a failed field query at span `i` refutes the message shape.
proof fn shape_not_ok(s: Seq<char>, i: int, n: int)
    requires
        span_count_of(s) == Some(n),
        0 <= i < n,
        !span_fields_ok(s, i),
    ensures
        !message_shape_ok(s),
{
}

/// Decode one invocation's output lines. The batch succeeds exactly when
/// every line decodes; one undecodable line fails the whole run, and is
/// never silently ignored. On success each line has its record, in order.
pub fn parse_lines(lines: &Vec<String>) -> (r: Result<Vec<DiagnosticRecord>, DecodeError>)
    ensures
        (r is Ok) == (forall|i: int|
            0 <= i < lines@.len() ==> line_decodes((#[trigger] lines@[i])@)),
        r matches Ok(v) ==> v@.len() == lines@.len() && (forall|i: int|
            0 <= i < lines@.len() ==> record_matches((#[trigger] lines@[i])@, v@[i])),
{
    let mut out: Vec<DiagnosticRecord> = Vec::new();
    let mut i: usize = 0;
    while i < lines.len()
        invariant
            0 <= i <= lines@.len(),
            out@.len() == i,
            forall|j: int|
                0 <= j < i ==> line_decodes((#[trigger] lines@[j])@) && record_matches(
                    (lines@[j])@,
                    out@[j],
                ),
        decreases lines@.len() - i,
    {
        match parse_line(lines[i].as_str()) {
            Ok(rec) => out.push(rec),
            Err(e) => {
                assert(!line_decodes((lines@[i as int])@));
                return Err(e);
            },
        }
        i += 1;
    }
    Ok(out)
}

/// Extract the workspace root path from the build tool's metadata output:
/// the `workspace_root` string member of the top-level object, as bytes;
/// nothing when the output does not parse or lacks that member.
pub fn extract_workspace_root(s: &str) -> (r: Option<Vec<u8>>)
    ensures
        match member_str_of(s@, "workspace_root"@) {
            Option::Some(w) => r matches Some(b) && b@ == encode_utf8(w),
            Option::None => r is None,
        },
{
    match line_member_str(s, "workspace_root") {
        Option::Some(x) => Some(x.as_str().as_bytes_vec()),
        Option::None => None,
    }
}

} // verus!
