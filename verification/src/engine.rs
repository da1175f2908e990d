//! The ast-grep items that the scanner works with, and the trusted wrappers
//! around the calls into them.

use vstd::prelude::*;
use vstd::multiset::Multiset;
use ast_grep_config::{CombinedScan, GlobalRules, Metadata, RuleConfig};
use ast_grep_core::meta_var::MetaVariable;
use ast_grep_core::tree_sitter::StrDoc;
use ast_grep_core::{AstGrep, Node, NodeMatch, Position};
use ast_grep_language::SupportLang;
use crate::records::RangeRecord;

verus! {

/// A built-in language of ast-grep.
#[verifier::external_type_specification]
#[verifier::external_body]
pub struct ExSupportLang(SupportLang);

/// A position in a parsed source text.
#[verifier::external_type_specification]
#[verifier::external_body]
pub struct ExPosition(Position);

/// The metadata of a rule, as its YAML gave it.
#[verifier::external_type_specification]
#[verifier::external_body]
pub struct ExMetadata(Metadata);

// Each ast-grep type below is generic over a language or document trait; it
// is held, with its type arguments fixed, in a private field of an opaque
// struct.

/// The rules parsed from one rule YAML text, in the order of its documents.
#[verifier::external_body]
pub struct RuleSet {
    rules: Vec<RuleConfig<SupportLang>>,
}

/// A source text parsed with a language's tree-sitter grammar.
#[verifier::external_body]
pub struct SourceDocument {
    document: StrDoc<SupportLang>,
}

/// A parsed source text wrapped as a searchable syntax tree.
#[verifier::external_body]
pub struct SourceTree {
    root: AstGrep<StrDoc<SupportLang>>,
}

/// All rules of a rule set prepared to scan a tree in one pass.
#[verifier::external_body]
pub struct RuleScanner<'r> {
    scanner: CombinedScan<'r, SupportLang>,
}

/// One rule of a rule set.
#[verifier::external_body]
pub struct RuleRef<'r> {
    rule: &'r RuleConfig<SupportLang>,
}

/// One node that a rule matched, with the metavariables it captured.
#[verifier::external_body]
pub struct FoundMatch<'t> {
    found: NodeMatch<'t, StrDoc<SupportLang>>,
}

/// One node of a syntax tree.
#[verifier::external_body]
pub struct TreeNode<'t> {
    node: Node<'t, StrDoc<SupportLang>>,
}

/// The matches of one rule in one tree.
pub struct RuleHits<'r, 't> {
    pub rule: RuleRef<'r>,
    pub matches: Vec<FoundMatch<'t>>,
}

/// A metavariable that a match reports: `$NAME` for one node, `$$$NAME`
/// for a list of nodes.
pub enum ReportedVariable {
    Single(Seq<char>),
    Multiple(Seq<char>),
}

/// A metavariable reported by a match, by what the scanner does with it.
pub enum CapturedVariable {
    /// `$NAME`: one captured node.
    Single(String),
    /// `$$$NAME`: a captured list of nodes.
    Multiple(String),
    /// `$_` or `$$$`: nothing is captured.
    Skipped,
}

/// The name that a reported metavariable goes by, if it captures anything.
pub open spec fn reported_name(variable: CapturedVariable) -> Option<ReportedVariable> {
    match variable {
        CapturedVariable::Single(name) => Some(ReportedVariable::Single(name@)),
        CapturedVariable::Multiple(name) => Some(ReportedVariable::Multiple(name@)),
        CapturedVariable::Skipped => None,
    }
}

/// The language of each rule that `from_yaml_string` makes of a rule YAML
/// text, in order, or `None` where it reports an error.
pub uninterp spec fn parsed_rule_languages(yaml: Seq<char>) -> Option<Seq<SupportLang>>;

/// Whether `from_yaml_string` can report this error text for a rule YAML
/// text: the set of texts it may report, as which of several problems it
/// names depends on the order in which a hash map is walked.
pub uninterp spec fn possible_rule_yaml_error(yaml: Seq<char>, error: Seq<char>) -> bool;

/// The language of each rule of a rule set, in order.
pub uninterp spec fn rule_languages(rules: RuleSet) -> Seq<SupportLang>;

/// The rule YAML text that a rule set was parsed from.
pub uninterp spec fn rule_set_text(rules: RuleSet) -> Seq<char>;

/// The rule YAML text of the rules a scanner was built over.
pub uninterp spec fn scanner_rule_text(scanner: RuleScanner) -> Seq<char>;

/// The language that `SupportLang`'s `FromStr` finds for a name (matched
/// against each language's aliases without regard to ASCII case), if any.
pub uninterp spec fn language_for_name(name: Seq<char>) -> Option<SupportLang>;

/// The message with which tree-sitter fails to parse a source text in a
/// language, if it fails.
pub uninterp spec fn document_parse_error(source: Seq<char>, language: SupportLang) -> Option<Seq<char>>;

/// The source text and language that a document was parsed from.
pub uninterp spec fn document_source(document: SourceDocument) -> (Seq<char>, SupportLang);

/// The source text and language of the document that a tree wraps.
pub uninterp spec fn tree_source(tree: SourceTree) -> (Seq<char>, SupportLang);

/// What `CombinedScan::scan` finds when the rules of a rule YAML text scan
/// a source text parsed in a language: for each rule that matched, the facts
/// of its matches in the order of the depth-first walk of the tree. Which
/// rule's matches come first is not fixed, as the scan groups them in a hash
/// map, so the groups are counted without order.
pub uninterp spec fn scan_result(yaml: Seq<char>, source: Seq<char>, language: SupportLang) -> Multiset<Seq<MatchFacts>>;

/// The `id` field of a rule.
pub uninterp spec fn rule_id_of(rule: RuleRef) -> Seq<char>;

/// The `metadata` field of a rule.
pub uninterp spec fn rule_metadata_of(rule: RuleRef) -> Option<Metadata>;

/// `RuleConfig::get_message` of a rule for a match.
pub uninterp spec fn rule_message_of(rule: RuleRef, found: FoundMatch) -> Seq<char>;

/// `NodeMatch::get_node` of a match.
pub uninterp spec fn matched_node_of(found: FoundMatch) -> TreeNode;

/// The metavariables that `MetaVarEnv::get_matched_variables` reports for a
/// match, without their order.
pub uninterp spec fn reported_variables(found: FoundMatch) -> Set<ReportedVariable>;

/// `MetaVarEnv::get_match` of a match's environment under a name.
pub uninterp spec fn captured_node_of(found: FoundMatch, name: Seq<char>) -> Option<TreeNode>;

/// `MetaVarEnv::get_multiple_matches` of a match's environment under a name.
pub uninterp spec fn captured_nodes_of(found: FoundMatch, name: Seq<char>) -> Seq<TreeNode>;

/// `Node::text` of a node.
pub uninterp spec fn node_text_of(node: TreeNode) -> Seq<char>;

/// `Node::kind` of a node.
pub uninterp spec fn node_kind_of(node: TreeNode) -> Seq<char>;

/// `Node::start_pos` of a node.
pub uninterp spec fn node_start_of(node: TreeNode) -> Position;

/// `Node::end_pos` of a node.
pub uninterp spec fn node_end_of(node: TreeNode) -> Position;

/// `Position::line`: the zero-based line.
pub uninterp spec fn position_line_of(position: Position) -> usize;

/// `Position::column`: the zero-based column in characters, counted in the
/// source text of the node's document.
pub uninterp spec fn position_column_of(position: Position, node: TreeNode) -> usize;

/// `Node::range` of a node: its start and end byte offsets.
pub uninterp spec fn node_bytes_of(node: TreeNode) -> (usize, usize);

/// What a match gives its record, as plain values: the rule's id, the
/// node's range, text and kind, the rendered message, the entries of the
/// rule's metadata, and the captured metavariables.
pub struct MatchFacts {
    pub rule_id: Seq<char>,
    pub range: RangeRecord,
    pub text: Seq<char>,
    pub node_kind: Seq<char>,
    pub message: Seq<char>,
    pub metadata: Map<Seq<char>, serde_json::Value>,
    pub single: Map<Seq<char>, CaptureFacts>,
    pub multi: Map<Seq<char>, Seq<CaptureFacts>>,
}

/// What a captured node gives its record: its text and range.
pub struct CaptureFacts {
    pub text: Seq<char>,
    pub range: RangeRecord,
}

/// `ast_grep_config::from_yaml_string` with default global rules: parses
/// every YAML document of the text into a rule. The error is the
/// `RuleConfigError`'s text; which of several problems it names is not
/// fixed (label checks walk a hash map), so it is only said to be one the
/// parser can report for the text.
#[verifier::external_body]
pub(crate) fn parse_rule_yaml(yaml: &str) -> (res: Result<RuleSet, String>)
    ensures
        match res {
            Ok(rules) => parsed_rule_languages(yaml@) == Some(rule_languages(rules))
                && rule_set_text(rules) == yaml@,
            Err(error) => parsed_rule_languages(yaml@) is None && possible_rule_yaml_error(yaml@, error@),
        },
{
    match ast_grep_config::from_yaml_string::<SupportLang>(yaml, &GlobalRules::default()) {
        Ok(rules) => Ok(RuleSet { rules }),
        Err(error) => Err(error.to_string()),
    }
}

/// `Vec::len` of the rules.
#[verifier::external_body]
pub(crate) fn rule_count(rules: &RuleSet) -> (res: usize)
    ensures
        res == rule_languages(*rules).len(),
{
    rules.rules.len()
}

/// The `language` field of one rule.
#[verifier::external_body]
pub(crate) fn rule_language(rules: &RuleSet, index: usize) -> (res: SupportLang)
    requires
        index < rule_languages(*rules).len(),
    ensures
        res == rule_languages(*rules)[index as int],
{
    rules.rules[index].language
}

/// `SupportLang::from_str`; the error is `SupportLangErr`'s text, the name
/// followed by " is not supported!".
#[verifier::external_body]
pub(crate) fn parse_language(name: &str) -> (res: Result<SupportLang, String>)
    ensures
        match res {
            Ok(language) => language_for_name(name@) == Some(language),
            Err(error) => language_for_name(name@) is None && error@ == name@ + " is not supported!"@,
        },
{
    name.parse::<SupportLang>().map_err(|error| error.to_string())
}

/// `CombinedScan::new` over every rule of a rule set, in order.
#[verifier::external_body]
pub(crate) fn rule_scanner<'r>(rules: &'r RuleSet) -> (res: RuleScanner<'r>)
    ensures
        scanner_rule_text(res) == rule_set_text(*rules),
{
    RuleScanner { scanner: CombinedScan::new(rules.rules.iter().collect()) }
}

/// `StrDoc::try_new`: parses source text; the error is the parser's message.
#[verifier::external_body]
pub(crate) fn parse_document(source: &str, language: SupportLang) -> (res: Result<SourceDocument, String>)
    ensures
        match res {
            Ok(document) => document_parse_error(source@, language) is None
                && document_source(document) == (source@, language),
            Err(error) => document_parse_error(source@, language) == Some(error@),
        },
{
    match StrDoc::try_new(source, language) {
        Ok(document) => Ok(SourceDocument { document }),
        Err(error) => Err(error),
    }
}

/// `AstGrep::doc`: wraps a parsed document as a searchable tree.
#[verifier::external_body]
pub(crate) fn document_root(document: SourceDocument) -> (res: SourceTree)
    ensures
        tree_source(res) == document_source(document),
{
    SourceTree { root: AstGrep::doc(document.document) }
}

/// `CombinedScan::scan` without separating fixes: the matches of each rule
/// that matched, rule by rule, each rule's in the order found; the groups are
/// those the scan finds, in an order that a hash map picks.
#[verifier::external_body]
pub(crate) fn scan_tree<'s, 'r, 't>(scanner: &'s RuleScanner<'r>, tree: &'t SourceTree) -> (res: Vec<RuleHits<'s, 't>>)
    ensures
        crate::scan::hits_groups(res@).to_multiset() == scan_result(scanner_rule_text(*scanner), tree_source(*tree).0, tree_source(*tree).1),
{
    scanner.scanner.scan(&tree.root, false).matches.into_iter().map(|(rule, found)| RuleHits {
        rule: RuleRef { rule },
        matches: found.into_iter().map(|found| FoundMatch { found }).collect(),
    }).collect()
}

/// The `id` field of a rule, copied.
#[verifier::external_body]
pub(crate) fn rule_id(rule: &RuleRef) -> (res: String)
    ensures
        res@ == rule_id_of(*rule),
{
    rule.rule.id.clone()
}

/// The `metadata` field of a rule.
#[verifier::external_body]
pub(crate) fn rule_metadata<'r>(rule: &RuleRef<'r>) -> (res: &'r Option<Metadata>)
    ensures
        *res == rule_metadata_of(*rule),
{
    &rule.rule.metadata
}

/// `RuleConfig::get_message`: the rule's message with the match's
/// metavariables filled in. The crate's code expects the message template,
/// which was accepted when the rule was parsed, to parse again.
#[verifier::external_body]
pub(crate) fn rule_message(rule: &RuleRef, found: &FoundMatch) -> (res: String)
    ensures
        res@ == rule_message_of(*rule, *found),
{
    rule.rule.get_message(&found.found)
}

/// `NodeMatch::get_node`: the matched node.
#[verifier::external_body]
pub(crate) fn matched_node<'t>(found: &FoundMatch<'t>) -> (res: TreeNode<'t>)
    ensures
        res == matched_node_of(*found),
{
    TreeNode { node: found.found.get_node().clone() }
}

/// `MetaVarEnv::get_matched_variables` of a match's environment, each told
/// apart by its variant. The order is that in which the environment's hash
/// maps yield the names, so only which names come is stated.
#[verifier::external_body]
pub(crate) fn matched_variables(found: &FoundMatch) -> (res: Vec<CapturedVariable>)
    ensures
        forall|i: int| 0 <= i < res@.len() && (#[trigger] reported_name(res@[i])) is Some
            ==> reported_variables(*found).contains(reported_name(res@[i])->0),
        forall|v: ReportedVariable| #[trigger] reported_variables(*found).contains(v)
            ==> exists|i: int| 0 <= i < res@.len() && reported_name(res@[i]) == Some(v),
{
    found.found.get_env().get_matched_variables().map(|variable| match variable {
        MetaVariable::Capture(name, _) => CapturedVariable::Single(name),
        MetaVariable::MultiCapture(name) => CapturedVariable::Multiple(name),
        MetaVariable::Dropped(_) => CapturedVariable::Skipped,
        MetaVariable::Multiple => CapturedVariable::Skipped,
    }).collect()
}

/// `MetaVarEnv::get_match`: the node captured under a single name, if any.
#[verifier::external_body]
pub(crate) fn captured_node<'t>(found: &FoundMatch<'t>, name: &str) -> (res: Option<TreeNode<'t>>)
    ensures
        res == captured_node_of(*found, name@),
{
    found.found.get_env().get_match(name).map(|node| TreeNode { node: node.clone() })
}

/// `MetaVarEnv::get_multiple_matches`: the nodes captured under a list name.
#[verifier::external_body]
pub(crate) fn captured_nodes<'t>(found: &FoundMatch<'t>, name: &str) -> (res: Vec<TreeNode<'t>>)
    ensures
        res@ == captured_nodes_of(*found, name@),
{
    found.found.get_env().get_multiple_matches(name).into_iter().map(|node| TreeNode { node }).collect()
}

/// `Node::text`, copied. The document holds valid UTF-8, so the text is
/// always available.
#[verifier::external_body]
pub(crate) fn node_text(node: &TreeNode) -> (res: String)
    ensures
        res@ == node_text_of(*node),
{
    node.node.text().to_string()
}

/// `Node::kind`, copied.
#[verifier::external_body]
pub(crate) fn node_kind(node: &TreeNode) -> (res: String)
    ensures
        res@ == node_kind_of(*node),
{
    node.node.kind().to_string()
}

/// `Node::start_pos`.
#[verifier::external_body]
pub(crate) fn node_start(node: &TreeNode) -> (res: Position)
    ensures
        res == node_start_of(*node),
{
    node.node.start_pos()
}

/// `Node::end_pos`.
#[verifier::external_body]
pub(crate) fn node_end(node: &TreeNode) -> (res: Position)
    ensures
        res == node_end_of(*node),
{
    node.node.end_pos()
}

/// `Position::line`.
#[verifier::external_body]
pub(crate) fn position_line(position: &Position) -> (res: usize)
    ensures
        res == position_line_of(*position),
{
    position.line()
}

/// `Position::column`, counted in the node's document.
#[verifier::external_body]
pub(crate) fn position_column(position: &Position, node: &TreeNode) -> (res: usize)
    ensures
        res == position_column_of(*position, *node),
{
    position.column(&node.node)
}

/// `Node::range`: the start and end byte offsets.
#[verifier::external_body]
pub(crate) fn node_byte_range(node: &TreeNode) -> (res: (usize, usize))
    ensures
        res == node_bytes_of(*node),
{
    let range = node.node.range();
    (range.start, range.end)
}

} // verus!
