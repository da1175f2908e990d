//! The request and response of one scan, and the records a response holds.

use vstd::prelude::*;
use crate::capture_map::CaptureMap;

verus! {

/// One scan request.
pub struct ScanRequest {
    /// Language hint, used only when the rule YAML gives no language.
    pub language: Option<String>,
    /// Inline rule YAML text.
    pub rule_yaml: Option<String>,
    /// Another name for inline rule YAML, used when `rule_yaml` is absent.
    pub inline_rule_yaml: Option<String>,
    /// Path of a rule YAML file.
    pub rule_path: Option<String>,
    /// Source files to scan.
    pub files: Vec<String>,
}

/// A zero-based line and character column.
#[derive(Clone, Copy, Debug, PartialEq, Eq, Structural)]
pub struct PointRecord {
    pub line: usize,
    pub column: usize,
}

/// Start and end byte offsets.
#[derive(Clone, Copy, Debug, PartialEq, Eq, Structural)]
pub struct ByteOffsetRecord {
    pub start: usize,
    pub end_offset: usize,
}

/// A source range: start (inclusive), end (exclusive) and byte offsets.
#[derive(Clone, Copy, Debug, PartialEq, Eq, Structural)]
pub struct RangeRecord {
    pub start: PointRecord,
    pub end_position: PointRecord,
    pub byte_offset: ByteOffsetRecord,
}

/// One captured node.
pub struct CaptureRecord {
    pub text: String,
    pub range: RangeRecord,
}

/// The metavariables captured by one match, by name.
pub struct MetaVariablesRecord {
    pub single: CaptureMap<CaptureRecord>,
    pub multi: CaptureMap<Vec<CaptureRecord>>,
}

impl MetaVariablesRecord {
    /// No captures.
    pub fn new() -> (res: Self)
        ensures
            res.single@ == Map::<Seq<char>, CaptureRecord>::empty(),
            res.multi@ == Map::<Seq<char>, Vec<CaptureRecord>>::empty(),
    {
        MetaVariablesRecord { single: CaptureMap::new(), multi: CaptureMap::new() }
    }
}

/// One match of a rule in a file.
pub struct MatchRecord {
    pub rule_id: String,
    pub file: String,
    pub range: RangeRecord,
    pub text: String,
    /// The matched text again, under a second name that some callers read.
    pub lines: String,
    pub node_kind: String,
    pub message: String,
    pub metadata: serde_json::Map<String, serde_json::Value>,
    pub meta_variables: MetaVariablesRecord,
}

/// The answer to one scan request.
pub struct ScanResponse {
    /// Whether the request completed without a fatal error.
    pub ok: bool,
    pub matches: Vec<MatchRecord>,
    /// Problems with single files that did not stop the scan.
    pub diagnostics: Vec<String>,
    /// The fatal error's code when `ok` is false.
    pub error: Option<String>,
    /// The fatal error's message when `ok` is false.
    pub message: Option<String>,
}

/// A response that reports a fatal error with the given code and message.
pub open spec fn is_fatal(response: ScanResponse, code: Seq<char>, message: Seq<char>) -> bool {
    &&& !response.ok
    &&& response.matches@.len() == 0
    &&& response.diagnostics@.len() == 0
    &&& response.error matches Some(e) && e@ == code
    &&& response.message matches Some(m) && m@ == message
}

/// What every response keeps: a successful one carries no error, a failed
/// one carries an error and a message and nothing else.
pub open spec fn response_consistent(response: ScanResponse) -> bool {
    &&& response.ok <==> response.error is None
    &&& response.ok ==> response.message is None
    &&& !response.ok ==> response.message is Some && response.matches@.len() == 0
        && response.diagnostics@.len() == 0
}

/// A failed response with an error code and a message.
pub fn fatal_response(error: &str, message: &str) -> (res: ScanResponse)
    ensures
        is_fatal(res, error@, message@),
        response_consistent(res),
{
    ScanResponse {
        ok: false,
        matches: Vec::new(),
        diagnostics: Vec::new(),
        error: Some(String::from_str(error)),
        message: Some(String::from_str(message)),
    }
}

} // verus!
