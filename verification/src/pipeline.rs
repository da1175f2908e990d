//! Answering one scan request: where the rule YAML comes from, which
//! language to parse files with, the early answers, and the scan itself.

use vstd::prelude::*;
use ast_grep_language::SupportLang;
use crate::engine::{RuleSet, language_for_name, parse_language, parse_rule_yaml,
    parsed_rule_languages, possible_rule_yaml_error, rule_count, rule_language, rule_languages, rule_set_text};
use crate::records::MatchRecord;
use crate::records::{ScanRequest, ScanResponse, fatal_response, is_fatal, response_consistent};
use crate::scan::{FileOutcome, scan_explained, scan_files, texts};
use crate::text::{blank_text, is_blank, join4};

verus! {

/// Where the rule YAML of a request comes from.
pub enum RuleSource {
    /// The YAML text itself.
    Inline(String),
    /// The path of a file that holds it.
    File(String),
}

/// The inline YAML a request offers: `rule_yaml` if present, else
/// `inline_rule_yaml`.
pub open spec fn offered_inline_yaml(request: ScanRequest) -> Option<String> {
    match request.rule_yaml {
        Some(text) => Some(text),
        None => request.inline_rule_yaml,
    }
}

/// The inline YAML that a request's scan uses: the offered text unless it is
/// blank.
pub open spec fn inline_yaml(request: ScanRequest) -> Option<String> {
    match offered_inline_yaml(request) {
        Some(text) => if blank_text(text@) { None } else { Some(text) },
        None => None,
    }
}

/// The language name a request asks for, unless it is absent or blank.
pub open spec fn language_hint(request: ScanRequest) -> Option<Seq<char>> {
    match request.language {
        Some(name) => if blank_text(name@) { None } else { Some(name@) },
        None => None,
    }
}

/// The message for a language name that no language answers to.
pub open spec fn unsupported_language_message(name: Seq<char>) -> Seq<char> {
    "unsupported ast-grep language `"@ + name + "`: "@ + name + " is not supported!"@
}

/// The message for a rule file that could not be read.
pub open spec fn rule_read_message(path: Seq<char>, error: Seq<char>) -> Seq<char> {
    "failed to read ast-grep rule YAML `"@ + path + "`: "@ + error
}

/// The answer to a request that names no files.
pub open spec fn is_no_files_response(response: ScanResponse) -> bool {
    &&& response.ok
    &&& response.matches@.len() == 0
    &&& texts(response.diagnostics@) == seq!["no_files_requested"@]
    &&& response.error is None
    &&& response.message is None
}

/// Picks the inline YAML, or else the rule file, of a request.
pub fn rule_source(request: &ScanRequest) -> (res: Result<RuleSource, ScanResponse>)
    ensures
        inline_yaml(*request) matches Some(text) ==> (res matches Ok(RuleSource::Inline(s)) && s == text),
        (inline_yaml(*request) is None && request.rule_path is Some) ==>
            (res matches Ok(RuleSource::File(p)) && p == request.rule_path->0),
        (inline_yaml(*request) is None && request.rule_path is None) ==>
            (res matches Err(r) && response_consistent(r) && is_fatal(r, "rule_yaml_missing"@,
                "request must provide ruleYaml, inlineRuleYaml, or rulePath"@)),
{
    let offered = match &request.rule_yaml {
        Some(text) => Some(text),
        None => request.inline_rule_yaml.as_ref(),
    };
    if let Some(text) = offered {
        if !is_blank(text.as_str()) {
            return Ok(RuleSource::Inline(text.clone()));
        }
    }
    match &request.rule_path {
        Some(path) => Ok(RuleSource::File(path.clone())),
        None => Err(fatal_response("rule_yaml_missing", "request must provide ruleYaml, inlineRuleYaml, or rulePath")),
    }
}

/// The answer when the rule file could not be read.
pub fn rule_read_failure(path: &str, error: &str) -> (res: ScanResponse)
    ensures
        response_consistent(res),
        is_fatal(res, "rule_yaml_read_failed"@, rule_read_message(path@, error@)),
{
    let message = join4("failed to read ast-grep rule YAML `", path, "`: ", error);
    fatal_response("rule_yaml_read_failed", message.as_str())
}

/// The language to parse files with: the language of the first rule; the
/// request's language is a hint, used only when the rules give none.
pub fn resolve_language(request: &ScanRequest, rules: &RuleSet) -> (res: Result<SupportLang, ScanResponse>)
    ensures
        rule_languages(*rules).len() > 0 ==> res == Ok::<SupportLang, ScanResponse>(rule_languages(*rules)[0]),
        rule_languages(*rules).len() == 0 ==> match language_hint(*request) {
            Some(name) => match language_for_name(name) {
                Some(language) => res == Ok::<SupportLang, ScanResponse>(language),
                None => (res matches Err(r) && response_consistent(r)
                    && is_fatal(r, "unsupported_language"@, unsupported_language_message(name))),
            },
            None => (res matches Err(r) && response_consistent(r)
                && is_fatal(r, "empty_rule_yaml"@, "rule YAML did not contain any rules"@)),
        },
{
    if rule_count(rules) > 0 {
        return Ok(rule_language(rules, 0));
    }
    if let Some(name) = &request.language {
        if !is_blank(name.as_str()) {
            return match parse_language(name.as_str()) {
                Ok(language) => Ok(language),
                Err(error) => {
                    let message = join4("unsupported ast-grep language `", name.as_str(), "`: ", error.as_str());
                    proof {
                        assert(message@ =~= unsupported_language_message(name@));
                    }
                    Err(fatal_response("unsupported_language", message.as_str()))
                },
            };
        }
    }
    Err(fatal_response("empty_rule_yaml", "rule YAML did not contain any rules"))
}

/// Rules and a language, ready to scan files with.
pub struct ScanPlan {
    pub language: SupportLang,
    pub rules: RuleSet,
}

/// Either the request's answer already, or what scanning its files needs.
pub enum Preparation {
    Finished(ScanResponse),
    Ready(ScanPlan),
}

/// The prefix of the message for rule YAML that does not parse.
pub open spec fn invalid_yaml_prefix() -> Seq<char> {
    "failed to parse ast-grep rule YAML: "@
}

/// The answer to rule YAML that does not parse: a fixed prefix followed by
/// an error text that the parser can report for the YAML.
pub open spec fn is_invalid_yaml_response(response: ScanResponse, yaml: Seq<char>) -> bool {
    exists|error: Seq<char>| #[trigger] possible_rule_yaml_error(yaml, error)
        && is_fatal(response, "invalid_rule_yaml"@, invalid_yaml_prefix() + error)
}

/// The answer when the rule YAML does not parse, with the parser's error.
pub fn rule_parse_failure(error: &str) -> (res: ScanResponse)
    ensures
        response_consistent(res),
        is_fatal(res, "invalid_rule_yaml"@, invalid_yaml_prefix() + error@),
{
    let mut message = String::from_str("failed to parse ast-grep rule YAML: ");
    message.append(error);
    proof {
        reveal_strlit("failed to parse ast-grep rule YAML: ");
    }
    fatal_response("invalid_rule_yaml", message.as_str())
}

/// What preparing a request with a rule YAML text gives.
pub open spec fn prepared(request: ScanRequest, yaml: Seq<char>, preparation: Preparation) -> bool {
    match parsed_rule_languages(yaml) {
        None => preparation matches Preparation::Finished(r) && response_consistent(r)
            && is_invalid_yaml_response(r, yaml),
        Some(languages) => if languages.len() == 0 {
            preparation matches Preparation::Finished(r) && response_consistent(r)
                && is_fatal(r, "empty_rule_yaml"@, "rule YAML did not contain any ast-grep rules"@)
        } else if request.files@.len() == 0 {
            preparation matches Preparation::Finished(r) && response_consistent(r) && is_no_files_response(r)
        } else {
            preparation matches Preparation::Ready(plan)
                && plan.language == languages[0]
                && rule_languages(plan.rules) == languages
                && rule_set_text(plan.rules) == yaml
        },
    }
}

/// The answer to a request that names no files.
pub fn no_files_response() -> (res: ScanResponse)
    ensures
        is_no_files_response(res),
        response_consistent(res),
{
    let mut diagnostics: Vec<String> = Vec::new();
    diagnostics.push(String::from_str("no_files_requested"));
    let res = ScanResponse { ok: true, matches: Vec::new(), diagnostics, error: None, message: None };
    assert(texts(res.diagnostics@) =~= seq!["no_files_requested"@]);
    res
}

/// Parses the rule YAML and settles everything that does not need the files.
pub fn prepare_scan(request: &ScanRequest, rule_yaml: &str) -> (res: Preparation)
    ensures
        prepared(*request, rule_yaml@, res),
{
    let rules = match parse_rule_yaml(rule_yaml) {
        Ok(rules) => rules,
        Err(error) => {
            let response = rule_parse_failure(error.as_str());
            proof {
                assert(possible_rule_yaml_error(rule_yaml@, error@));
            }
            return Preparation::Finished(response);
        },
    };
    if rule_count(&rules) == 0 {
        return Preparation::Finished(fatal_response("empty_rule_yaml", "rule YAML did not contain any ast-grep rules"));
    }
    if request.files.len() == 0 {
        return Preparation::Finished(no_files_response());
    }
    match resolve_language(request, &rules) {
        Ok(language) => Preparation::Ready(ScanPlan { language, rules }),
        Err(response) => Preparation::Finished(response),
    }
}

/// What answering a request whose rule YAML is `yaml` gives, where reading
/// files goes through `read_text`.
pub open spec fn answered<F: Fn(&String) -> Result<String, String>>(
    request: ScanRequest,
    yaml: Seq<char>,
    read_text: F,
    response: ScanResponse,
) -> bool {
    match parsed_rule_languages(yaml) {
        None => is_invalid_yaml_response(response, yaml),
        Some(languages) => if languages.len() == 0 {
            is_fatal(response, "empty_rule_yaml"@, "rule YAML did not contain any ast-grep rules"@)
        } else if request.files@.len() == 0 {
            is_no_files_response(response)
        } else {
            &&& response.ok
            &&& response.error is None
            &&& response.message is None
            &&& exists|outcomes: Seq<FileOutcome>, found: Seq<MatchRecord>|
                scan_explained(read_text, languages[0], yaml, request.files@, outcomes, found, response)
        },
    }
}

/// Answers one scan request: finds the rule YAML (reading the rule file if
/// the request names one), parses it, settles the language and scans the
/// files, reading each through `read_text`.
pub fn execute_request<F: Fn(&String) -> Result<String, String>>(request: &ScanRequest, read_text: &F) -> (res: ScanResponse)
    requires
        forall|path: &String| read_text.requires((path,)),
    ensures
        response_consistent(res),
        inline_yaml(*request) matches Some(text) ==> answered(*request, text@, *read_text, res),
        (inline_yaml(*request) is None && request.rule_path is Some) ==> {
            let path = request.rule_path->0;
            ||| exists|error: String| read_text.ensures((&path,), Err::<String, String>(error))
                && is_fatal(res, "rule_yaml_read_failed"@, rule_read_message(path@, error@))
            ||| exists|text: String| read_text.ensures((&path,), Ok::<String, String>(text))
                && answered(*request, text@, *read_text, res)
        },
        (inline_yaml(*request) is None && request.rule_path is None) ==>
            is_fatal(res, "rule_yaml_missing"@, "request must provide ruleYaml, inlineRuleYaml, or rulePath"@),
{
    let rule_yaml = match rule_source(request) {
        Err(response) => return response,
        Ok(RuleSource::Inline(text)) => text,
        Ok(RuleSource::File(path)) => match read_text(&path) {
            Ok(text) => text,
            Err(error) => return rule_read_failure(path.as_str(), error.as_str()),
        },
    };
    match prepare_scan(request, rule_yaml.as_str()) {
        Preparation::Finished(response) => response,
        Preparation::Ready(plan) => scan_files(plan.language, &plan.rules, &request.files, read_text),
    }
}

} // verus!
