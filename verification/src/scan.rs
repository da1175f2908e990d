//! Turning what ast-grep reports for each file into match records, and
//! scanning a list of files.

use vstd::prelude::*;
use vstd::multiset::Multiset;
use ast_grep_config::Metadata;
use ast_grep_language::SupportLang;
use crate::captures::{Capture, record_captures, single_captures, multi_captures};
use crate::engine::{
    CaptureFacts, CapturedVariable, FoundMatch, MatchFacts, ReportedVariable, RuleHits, RuleRef,
    RuleSet, TreeNode, captured_node, captured_node_of, captured_nodes, captured_nodes_of,
    document_parse_error, document_root, matched_node, matched_node_of, matched_variables,
    node_byte_range, node_bytes_of, node_end, node_end_of, node_kind, node_kind_of, node_start,
    node_start_of, node_text, node_text_of, parse_document, position_column, position_column_of,
    position_line, position_line_of, reported_name, reported_variables, rule_id, rule_id_of,
    rule_message, rule_message_of, rule_metadata, rule_metadata_of, rule_scanner, rule_set_text,
    scan_result, scan_tree,
};
use crate::json::{copy_object, empty_object, json_object_entries, metadata_json_entries, metadata_value, value_object};
use crate::records::{
    ByteOffsetRecord, CaptureRecord, MatchRecord, MetaVariablesRecord, PointRecord,
    RangeRecord, ScanResponse, response_consistent,
};
use crate::sorting::{MatchKey, match_key, matches_sorted, same_order_per_key, sort_matches,
    lemma_same_order_same_matches, lemma_sorted_same_keys};
use vstd::utf8::encode_utf8;
use crate::text::{join4, normalize_output_path};

verus! {

/// The range of a node: where it starts (inclusive) and ends (exclusive),
/// as zero-based lines and character columns, and its byte offsets.
pub open spec fn node_range(node: TreeNode) -> RangeRecord {
    RangeRecord {
        start: PointRecord {
            line: position_line_of(node_start_of(node)),
            column: position_column_of(node_start_of(node), node),
        },
        end_position: PointRecord {
            line: position_line_of(node_end_of(node)),
            column: position_column_of(node_end_of(node), node),
        },
        byte_offset: ByteOffsetRecord { start: node_bytes_of(node).0, end_offset: node_bytes_of(node).1 },
    }
}

/// What a captured node gives its record.
pub open spec fn node_capture_facts(node: TreeNode) -> CaptureFacts {
    CaptureFacts { text: node_text_of(node), range: node_range(node) }
}

/// What a capture record holds.
pub open spec fn capture_facts(record: CaptureRecord) -> CaptureFacts {
    CaptureFacts { text: record.text@, range: record.range }
}

/// The single-node captures a match owes its record: each name reported
/// as `$NAME` under which the environment holds a node.
pub open spec fn expected_single(found: FoundMatch) -> Map<Seq<char>, CaptureFacts> {
    Map::new(
        |name: Seq<char>| reported_variables(found).contains(ReportedVariable::Single(name))
            && captured_node_of(found, name) is Some,
        |name: Seq<char>| node_capture_facts(captured_node_of(found, name)->0),
    )
}

/// The list captures a match owes its record: each name reported as
/// `$$$NAME`, with the nodes the environment holds under it, in order.
pub open spec fn expected_multi(found: FoundMatch) -> Map<Seq<char>, Seq<CaptureFacts>> {
    Map::new(
        |name: Seq<char>| reported_variables(found).contains(ReportedVariable::Multiple(name)),
        |name: Seq<char>| captured_nodes_of(found, name).map_values(|node: TreeNode| node_capture_facts(node)),
    )
}

/// What the single-node captures of a record hold.
pub open spec fn single_facts(record: MetaVariablesRecord) -> Map<Seq<char>, CaptureFacts> {
    record.single@.map_values(|c: CaptureRecord| capture_facts(c))
}

/// What the list captures of a record hold.
pub open spec fn multi_facts(record: MetaVariablesRecord) -> Map<Seq<char>, Seq<CaptureFacts>> {
    record.multi@.map_values(|v: Vec<CaptureRecord>| v@.map_values(|c: CaptureRecord| capture_facts(c)))
}

/// The entries that the metadata of a rule gives its records: those of the
/// JSON object it serializes to, or none where it has none or fails to
/// serialize.
pub open spec fn metadata_facts(metadata: Option<Metadata>) -> Map<Seq<char>, serde_json::Value> {
    match metadata {
        Some(m) => match metadata_json_entries(m) {
            Some(entries) => entries,
            None => Map::empty(),
        },
        None => Map::empty(),
    }
}

/// What a match of a rule owes its record.
pub open spec fn match_facts(rule: RuleRef, found: FoundMatch) -> MatchFacts {
    MatchFacts {
        rule_id: rule_id_of(rule),
        range: node_range(matched_node_of(found)),
        text: node_text_of(matched_node_of(found)),
        node_kind: node_kind_of(matched_node_of(found)),
        message: rule_message_of(rule, found),
        metadata: metadata_facts(rule_metadata_of(rule)),
        single: expected_single(found),
        multi: expected_multi(found),
    }
}

/// What a match record holds, its file aside.
pub open spec fn record_facts(record: MatchRecord) -> MatchFacts {
    MatchFacts {
        rule_id: record.rule_id@,
        range: record.range,
        text: record.text@,
        node_kind: record.node_kind@,
        message: record.message@,
        metadata: json_object_entries(record.metadata),
        single: single_facts(record.meta_variables),
        multi: multi_facts(record.meta_variables),
    }
}

/// The facts of the matches of one rule, in order.
pub open spec fn rule_facts(rule: RuleRef, matches: Seq<FoundMatch>) -> Seq<MatchFacts> {
    matches.map_values(|found: FoundMatch| match_facts(rule, found))
}

/// The facts of each rule's matches, rule by rule.
pub open spec fn hits_groups(hits: Seq<RuleHits>) -> Seq<Seq<MatchFacts>> {
    hits.map_values(|hit: RuleHits| rule_facts(hit.rule, hit.matches@))
}

/// Groups of facts one after another.
pub open spec fn concat_groups(groups: Seq<Seq<MatchFacts>>) -> Seq<MatchFacts>
    decreases groups.len(),
{
    if groups.len() == 0 {
        Seq::empty()
    } else {
        concat_groups(groups.drop_last()) + groups.last()
    }
}

/// The facts in a collection of groups, counted: those of the groups one
/// after another in any order (the order does not change the count).
pub open spec fn group_facts(groups: Multiset<Seq<MatchFacts>>) -> Multiset<MatchFacts> {
    concat_groups(choose|g: Seq<Seq<MatchFacts>>| g.to_multiset() == groups).to_multiset()
}

proof fn lemma_concat_groups_remove(groups: Seq<Seq<MatchFacts>>, j: int)
    requires
        0 <= j < groups.len(),
    ensures
        concat_groups(groups).to_multiset() == concat_groups(groups.remove(j)).to_multiset().add(groups[j].to_multiset()),
    decreases groups.len(),
{
    broadcast use vstd::seq_lib::lemma_multiset_commutative;
    broadcast use vstd::multiset::group_multiset_axioms;
    let last: int = groups.len() - 1;
    if j == last {
        assert(groups.remove(j) =~= groups.drop_last());
    } else {
        lemma_concat_groups_remove(groups.drop_last(), j);
        assert(groups.remove(j).drop_last() =~= groups.drop_last().remove(j));
        assert(groups.remove(j).last() == groups.last());
        assert(concat_groups(groups).to_multiset() =~= concat_groups(groups.drop_last()).to_multiset().add(groups.last().to_multiset()));
        assert(concat_groups(groups.remove(j)).to_multiset()
            =~= concat_groups(groups.drop_last().remove(j)).to_multiset().add(groups.last().to_multiset()));
    }
}

proof fn lemma_concat_groups_permutation(a: Seq<Seq<MatchFacts>>, b: Seq<Seq<MatchFacts>>)
    requires
        a.to_multiset() == b.to_multiset(),
    ensures
        concat_groups(a).to_multiset() == concat_groups(b).to_multiset(),
    decreases a.len(),
{
    broadcast use vstd::seq_lib::group_to_multiset_ensures;
    broadcast use vstd::seq_lib::lemma_multiset_commutative;
    if a.len() == 0 {
        assert(a.to_multiset().len() == 0);
        assert(b.to_multiset().len() == b.len());
        assert(concat_groups(b) =~= Seq::<MatchFacts>::empty());
    } else {
        let x = a.last();
        assert(a =~= a.drop_last().push(x));
        assert(a.to_multiset().count(x) > 0);
        assert(b.contains(x));
        let j: int = choose|j: int| 0 <= j < b.len() && b[j] == x;
        assert(b.remove(j).to_multiset() =~= a.drop_last().to_multiset());
        lemma_concat_groups_permutation(a.drop_last(), b.remove(j));
        lemma_concat_groups_remove(b, j);
    }
}

/// Any listing of a collection of groups holds its facts.
proof fn lemma_group_facts(groups: Seq<Seq<MatchFacts>>)
    ensures
        concat_groups(groups).to_multiset() == group_facts(groups.to_multiset()),
{
    let g = choose|g: Seq<Seq<MatchFacts>>| g.to_multiset() == groups.to_multiset();
    assert(g.to_multiset() == groups.to_multiset());
    lemma_concat_groups_permutation(groups, g);
}

/// The range of a node.
fn build_range_record(node: &TreeNode) -> (res: RangeRecord)
    ensures
        res == node_range(*node),
{
    let start = node_start(node);
    let end = node_end(node);
    let (start_byte, end_byte) = node_byte_range(node);
    RangeRecord {
        start: PointRecord { line: position_line(&start), column: position_column(&start, node) },
        end_position: PointRecord { line: position_line(&end), column: position_column(&end, node) },
        byte_offset: ByteOffsetRecord { start: start_byte, end_offset: end_byte },
    }
}

/// The text and range of a captured node.
fn build_capture_record(node: &TreeNode) -> (res: CaptureRecord)
    ensures
        capture_facts(res) == node_capture_facts(*node),
        res.text@ == node_text_of(*node),
        res.range.start.line == position_line_of(node_start_of(*node)),
        res.range.start.column == position_column_of(node_start_of(*node), *node),
        res.range.end_position.line == position_line_of(node_end_of(*node)),
        res.range.end_position.column == position_column_of(node_end_of(*node), *node),
        res.range.byte_offset.start == node_bytes_of(*node).0,
        res.range.byte_offset.end_offset == node_bytes_of(*node).1,
{
    CaptureRecord { text: node_text(node), range: build_range_record(node) }
}

/// What one capture in a list holds for a match.
spec fn capture_owed(found: FoundMatch, capture: Capture) -> bool {
    match capture {
        Capture::Single(name, record) => expected_single(found).contains_key(name@)
            && capture_facts(record) == expected_single(found)[name@],
        Capture::Multiple(name, records) => expected_multi(found).contains_key(name@)
            && records@.map_values(|c: CaptureRecord| capture_facts(c)) == expected_multi(found)[name@],
    }
}

/// A capture of the list goes by a reported name.
spec fn has_capture(captures: Seq<Capture>, name: ReportedVariable) -> bool {
    match name {
        ReportedVariable::Single(n) => exists|k: int| 0 <= k < captures.len()
            && (#[trigger] captures[k]) is Single && captures[k]->Single_0@ == n,
        ReportedVariable::Multiple(n) => exists|k: int| 0 <= k < captures.len()
            && (#[trigger] captures[k]) is Multiple && captures[k]->Multiple_0@ == n,
    }
}

/// Each name that single (list) captures record comes from a capture of
/// that name, whose record it holds.
proof fn lemma_capture_sources(captures: Seq<Capture>)
    ensures
        forall|name: Seq<char>| #[trigger] single_captures(captures).contains_key(name) ==>
            exists|k: int| 0 <= k < captures.len() && (#[trigger] captures[k]) is Single
                && captures[k]->Single_0@ == name && single_captures(captures)[name] == captures[k]->Single_1,
        forall|k: int| 0 <= k < captures.len() && (#[trigger] captures[k]) is Single ==>
            single_captures(captures).contains_key(captures[k]->Single_0@),
        forall|name: Seq<char>| #[trigger] multi_captures(captures).contains_key(name) ==>
            exists|k: int| 0 <= k < captures.len() && (#[trigger] captures[k]) is Multiple
                && captures[k]->Multiple_0@ == name && multi_captures(captures)[name] == captures[k]->Multiple_1,
        forall|k: int| 0 <= k < captures.len() && (#[trigger] captures[k]) is Multiple ==>
            multi_captures(captures).contains_key(captures[k]->Multiple_0@),
    decreases captures.len(),
{
    if captures.len() > 0 {
        let rest = captures.drop_last();
        let last: int = captures.len() - 1;
        lemma_capture_sources(rest);
        assert(captures.last() == captures[last]);
        assert forall|name: Seq<char>| #[trigger] single_captures(captures).contains_key(name) implies
            exists|k: int| 0 <= k < captures.len() && (#[trigger] captures[k]) is Single
                && captures[k]->Single_0@ == name && single_captures(captures)[name] == captures[k]->Single_1 by {
            if !(captures[last] is Single && captures[last]->Single_0@ == name) {
                assert(single_captures(rest).contains_key(name));
                let k: int = choose|k: int| 0 <= k < rest.len() && (#[trigger] rest[k]) is Single
                    && rest[k]->Single_0@ == name && single_captures(rest)[name] == rest[k]->Single_1;
                assert(captures[k] == rest[k]);
            }
        }
        assert forall|k: int| 0 <= k < captures.len() && (#[trigger] captures[k]) is Single implies
            single_captures(captures).contains_key(captures[k]->Single_0@) by {
            if k < last {
                assert(rest[k] == captures[k]);
            }
        }
        assert forall|name: Seq<char>| #[trigger] multi_captures(captures).contains_key(name) implies
            exists|k: int| 0 <= k < captures.len() && (#[trigger] captures[k]) is Multiple
                && captures[k]->Multiple_0@ == name && multi_captures(captures)[name] == captures[k]->Multiple_1 by {
            if !(captures[last] is Multiple && captures[last]->Multiple_0@ == name) {
                assert(multi_captures(rest).contains_key(name));
                let k: int = choose|k: int| 0 <= k < rest.len() && (#[trigger] rest[k]) is Multiple
                    && rest[k]->Multiple_0@ == name && multi_captures(rest)[name] == rest[k]->Multiple_1;
                assert(captures[k] == rest[k]);
            }
        }
        assert forall|k: int| 0 <= k < captures.len() && (#[trigger] captures[k]) is Multiple implies
            multi_captures(captures).contains_key(captures[k]->Multiple_0@) by {
            if k < last {
                assert(rest[k] == captures[k]);
            }
        }
    }
}

/// The metavariables that a match captured: each reported `$NAME` with the
/// node it holds, each reported `$$$NAME` with its nodes in order.
fn build_meta_variables_record(found: &FoundMatch) -> (res: MetaVariablesRecord)
    ensures
        single_facts(res) == expected_single(*found),
        multi_facts(res) == expected_multi(*found),
{
    let variables = matched_variables(found);
    let mut captures: Vec<Capture> = Vec::new();
    for i in 0..variables.len()
        invariant
            forall|k: int| 0 <= k < captures@.len() ==> capture_owed(*found, #[trigger] captures@[k]),
            forall|j: int| 0 <= j < variables@.len() && (#[trigger] reported_name(variables@[j])) is Some ==>
                reported_variables(*found).contains(reported_name(variables@[j])->0),
            forall|j: int| 0 <= j < i && (#[trigger] reported_name(variables@[j])) is Some ==>
                (reported_name(variables@[j]) matches Some(ReportedVariable::Single(n))
                    && captured_node_of(*found, n) is None)
                || has_capture(captures@, reported_name(variables@[j])->0),
    {
        let ghost before = captures@;
        match &variables[i] {
            CapturedVariable::Single(name) => {
                match captured_node(found, name.as_str()) {
                    Some(node) => {
                        let record = build_capture_record(&node);
                        let key = name.clone();
                        proof {
                            assert(reported_name(variables@[i as int]) == Some(ReportedVariable::Single(name@)));
                            assert(reported_variables(*found).contains(ReportedVariable::Single(name@)));
                            assert(expected_single(*found).contains_key(name@));
                            assert(key@ == name@);
                        }
                        captures.push(Capture::Single(key, record));
                        proof {
                            assert(captures@[before.len() as int] is Single);
                            assert(capture_owed(*found, captures@[before.len() as int]));
                        }
                    },
                    None => {},
                }
            },
            CapturedVariable::Multiple(name) => {
                let nodes = captured_nodes(found, name.as_str());
                let mut records: Vec<CaptureRecord> = Vec::new();
                for j in 0..nodes.len()
                    invariant
                        records@.len() == j,
                        forall|m: int| 0 <= m < j ==> capture_facts(#[trigger] records@[m]) == node_capture_facts(nodes@[m]),
                {
                    records.push(build_capture_record(&nodes[j]));
                }
                proof {
                    assert(records@.map_values(|c: CaptureRecord| capture_facts(c))
                        =~= nodes@.map_values(|node: TreeNode| node_capture_facts(node)));
                }
                let key = name.clone();
                proof {
                    assert(reported_name(variables@[i as int]) == Some(ReportedVariable::Multiple(name@)));
                    assert(reported_variables(*found).contains(ReportedVariable::Multiple(name@)));
                    assert(expected_multi(*found).contains_key(name@));
                    assert(key@ == name@);
                }
                captures.push(Capture::Multiple(key, records));
                proof {
                    assert(captures@[before.len() as int] is Multiple);
                    assert(capture_owed(*found, captures@[before.len() as int]));
                }
            },
            CapturedVariable::Skipped => {},
        }
        proof {
            assert forall|k: int| 0 <= k < captures@.len() implies capture_owed(*found, #[trigger] captures@[k]) by {
                if k < before.len() {
                    assert(captures@[k] == before[k]);
                }
            }
            assert forall|j: int| 0 <= j < i + 1 && (#[trigger] reported_name(variables@[j])) is Some implies
                (reported_name(variables@[j]) matches Some(ReportedVariable::Single(n))
                    && captured_node_of(*found, n) is None)
                || has_capture(captures@, reported_name(variables@[j])->0) by {
                if j < i {
                    if has_capture(before, reported_name(variables@[j])->0) {
                        match reported_name(variables@[j])->0 {
                            ReportedVariable::Single(n) => {
                                let k: int = choose|k: int| 0 <= k < before.len()
                                    && (#[trigger] before[k]) is Single && before[k]->Single_0@ == n;
                                assert(captures@[k] == before[k]);
                            },
                            ReportedVariable::Multiple(n) => {
                                let k: int = choose|k: int| 0 <= k < before.len()
                                    && (#[trigger] before[k]) is Multiple && before[k]->Multiple_0@ == n;
                                assert(captures@[k] == before[k]);
                            },
                        }
                    }
                }
            }
        }
    }
    let ghost all = captures@;
    let res = record_captures(captures);
    proof {
        lemma_capture_sources(all);
        assert forall|name: Seq<char>| #[trigger] single_facts(res).contains_key(name)
            == expected_single(*found).contains_key(name) by {
            if expected_single(*found).contains_key(name) {
                let v = ReportedVariable::Single(name);
                assert(reported_variables(*found).contains(v));
                let j: int = choose|j: int| 0 <= j < variables@.len() && reported_name(variables@[j]) == Some(v);
                assert(has_capture(all, v));
                let k: int = choose|k: int| 0 <= k < all.len() && (#[trigger] all[k]) is Single && all[k]->Single_0@ == name;
            }
            if single_facts(res).contains_key(name) {
                let k: int = choose|k: int| 0 <= k < all.len() && (#[trigger] all[k]) is Single
                    && all[k]->Single_0@ == name && single_captures(all)[name] == all[k]->Single_1;
                assert(capture_owed(*found, all[k]));
            }
        }
        assert forall|name: Seq<char>| #[trigger] single_facts(res).contains_key(name) implies
            single_facts(res)[name] == expected_single(*found)[name] by {
            let k: int = choose|k: int| 0 <= k < all.len() && (#[trigger] all[k]) is Single
                && all[k]->Single_0@ == name && single_captures(all)[name] == all[k]->Single_1;
            assert(capture_owed(*found, all[k]));
        }
        assert(single_facts(res) =~= expected_single(*found));
        assert forall|name: Seq<char>| #[trigger] multi_facts(res).contains_key(name)
            == expected_multi(*found).contains_key(name) by {
            if expected_multi(*found).contains_key(name) {
                let v = ReportedVariable::Multiple(name);
                assert(reported_variables(*found).contains(v));
                let j: int = choose|j: int| 0 <= j < variables@.len() && reported_name(variables@[j]) == Some(v);
                assert(has_capture(all, v));
                let k: int = choose|k: int| 0 <= k < all.len() && (#[trigger] all[k]) is Multiple && all[k]->Multiple_0@ == name;
            }
            if multi_facts(res).contains_key(name) {
                let k: int = choose|k: int| 0 <= k < all.len() && (#[trigger] all[k]) is Multiple
                    && all[k]->Multiple_0@ == name && multi_captures(all)[name] == all[k]->Multiple_1;
                assert(capture_owed(*found, all[k]));
            }
        }
        assert forall|name: Seq<char>| #[trigger] multi_facts(res).contains_key(name) implies
            multi_facts(res)[name] == expected_multi(*found)[name] by {
            let k: int = choose|k: int| 0 <= k < all.len() && (#[trigger] all[k]) is Multiple
                && all[k]->Multiple_0@ == name && multi_captures(all)[name] == all[k]->Multiple_1;
            assert(capture_owed(*found, all[k]));
        }
        assert(multi_facts(res) =~= expected_multi(*found));
    }
    res
}

/// Rule metadata as a JSON object: empty where the rule has none or where
/// it does not serialize to an object.
fn serialize_metadata(metadata: &Option<Metadata>) -> (res: serde_json::Map<String, serde_json::Value>)
    ensures
        json_object_entries(res) == metadata_facts(*metadata),
{
    let res = match metadata {
        None => empty_object(),
        Some(metadata) => match metadata_value(metadata) {
            Ok(value) => match value_object(value) {
                Some(object) => object,
                None => empty_object(),
            },
            Err(_) => empty_object(),
        },
    };
    proof {
        if json_object_entries(res).dom() == Set::<Seq<char>>::empty() {
            assert(json_object_entries(res) =~= Map::empty());
        }
    }
    res
}

/// One match record: the rule's id and message, the file, the node's range,
/// text and kind, the rule's metadata and the captured metavariables.
fn build_match_record(
    file_path: &str,
    rule: &RuleRef,
    metadata: &serde_json::Map<String, serde_json::Value>,
    found: &FoundMatch,
) -> (res: MatchRecord)
    requires
        json_object_entries(*metadata) == metadata_facts(rule_metadata_of(*rule)),
    ensures
        res.file@ == file_path@,
        res.lines@ == res.text@,
        res.metadata == *metadata,
        record_facts(res) == match_facts(*rule, *found),
{
    let node = matched_node(found);
    let text = node_text(&node);
    let lines = text.clone();
    MatchRecord {
        rule_id: rule_id(rule),
        file: normalize_output_path(file_path),
        range: build_range_record(&node),
        text,
        lines,
        node_kind: node_kind(&node),
        message: rule_message(rule, found),
        metadata: copy_object(metadata),
        meta_variables: build_meta_variables_record(found),
    }
}

/// Records of one file's matches, under the file path given.
pub open spec fn records_of_file(records: Seq<MatchRecord>, file_path: Seq<char>) -> bool {
    forall|i: int| 0 <= i < records.len() ==> (#[trigger] records[i]).file@ == file_path
        && records[i].lines@ == records[i].text@
}

/// The facts of a sequence of records.
pub open spec fn records_facts(records: Seq<MatchRecord>) -> Multiset<MatchFacts> {
    records.map_values(|r: MatchRecord| record_facts(r)).to_multiset()
}

proof fn lemma_records_facts_push(records: Seq<MatchRecord>, r: MatchRecord)
    ensures
        records_facts(records.push(r)) == records_facts(records).insert(record_facts(r)),
{
    broadcast use vstd::seq_lib::group_to_multiset_ensures;
    assert(records.push(r).map_values(|r: MatchRecord| record_facts(r))
        =~= records.map_values(|r: MatchRecord| record_facts(r)).push(record_facts(r)));
}

/// Appends one record per match, rule by rule, each rule's matches in order.
fn append_scan_matches(file_path: &str, hits: Vec<RuleHits>, output: &mut Vec<MatchRecord>)
    ensures
        final(output)@.len() >= old(output)@.len(),
        final(output)@.take(old(output)@.len() as int) == old(output)@,
        records_of_file(final(output)@.skip(old(output)@.len() as int), file_path@),
        final(output)@.skip(old(output)@.len() as int).map_values(|r: MatchRecord| record_facts(r))
            == concat_groups(hits_groups(hits@)),
{
    let ghost start = output@;
    proof {
        assert(output@.skip(start.len() as int).map_values(|r: MatchRecord| record_facts(r))
            =~= concat_groups(hits_groups(hits@.take(0))));
    }
    for i in 0..hits.len()
        invariant
            output@.take(start.len() as int) == start,
            output@.len() >= start.len(),
            records_of_file(output@.skip(start.len() as int), file_path@),
            output@.skip(start.len() as int).map_values(|r: MatchRecord| record_facts(r))
                == concat_groups(hits_groups(hits@.take(i as int))),
    {
        let hit = &hits[i];
        let metadata = serialize_metadata(rule_metadata(&hit.rule));
        let ghost done = concat_groups(hits_groups(hits@.take(i as int)));
        for j in 0..hit.matches.len()
            invariant
                output@.take(start.len() as int) == start,
                output@.len() >= start.len(),
                json_object_entries(metadata) == metadata_facts(rule_metadata_of(hit.rule)),
                records_of_file(output@.skip(start.len() as int), file_path@),
                output@.skip(start.len() as int).map_values(|r: MatchRecord| record_facts(r))
                    == done + rule_facts(hit.rule, hit.matches@.take(j as int)),
        {
            let ghost prev = output@;
            let record = build_match_record(file_path, &hit.rule, &metadata, &hit.matches[j]);
            output.push(record);
            proof {
                assert(output@.take(start.len() as int) =~= prev.take(start.len() as int));
                assert(output@.skip(start.len() as int) =~= prev.skip(start.len() as int).push(record));
                assert(output@.skip(start.len() as int).map_values(|r: MatchRecord| record_facts(r))
                    =~= prev.skip(start.len() as int).map_values(|r: MatchRecord| record_facts(r)).push(record_facts(record)));
                assert(rule_facts(hit.rule, hit.matches@.take(j + 1))
                    =~= rule_facts(hit.rule, hit.matches@.take(j as int)).push(match_facts(hit.rule, hit.matches@[j as int])));
                assert(done + rule_facts(hit.rule, hit.matches@.take(j + 1))
                    =~= (done + rule_facts(hit.rule, hit.matches@.take(j as int))).push(record_facts(record)));
                assert forall|k: int| 0 <= k < output@.skip(start.len() as int).len() implies
                    (#[trigger] output@.skip(start.len() as int)[k]).file@ == file_path@
                    && output@.skip(start.len() as int)[k].lines@ == output@.skip(start.len() as int)[k].text@ by {
                    if start.len() + k < prev.len() {
                        assert(output@.skip(start.len() as int)[k] == prev.skip(start.len() as int)[k]);
                    }
                }
            }
        }
        proof {
            assert(hit.matches@.take(hit.matches@.len() as int) =~= hit.matches@);
            assert(hits_groups(hits@.take(i + 1)).drop_last() =~= hits_groups(hits@.take(i as int)));
            assert(hits_groups(hits@.take(i + 1)).last() == rule_facts(hit.rule, hit.matches@));
        }
    }
    proof {
        assert(hits@.take(hits@.len() as int) =~= hits@);
    }
}

/// The diagnostic for a file that could not be read.
pub fn read_failure_diagnostic(file_path: &str, error: &str) -> (res: String)
    ensures
        res@ == "file_read_failed:"@ + file_path@ + ":"@ + error@,
{
    join4("file_read_failed:", file_path, ":", error)
}

/// The diagnostic for a file that could not be parsed.
pub fn parse_failure_diagnostic(file_path: &str, error: &str) -> (res: String)
    ensures
        res@ == "file_parse_failed:"@ + file_path@ + ":"@ + error@,
{
    join4("file_parse_failed:", file_path, ":", error)
}

} // verus!

verus! {

/// What became of each file: `0` it could not be read, `1` it could not be
/// parsed, `2` it was scanned; with the error's text for the first two and
/// the source text for the last.
pub type FileOutcome = (u8, Seq<char>);

/// The diagnostics that a sequence of file outcomes produces, in file order.
pub open spec fn file_diagnostics(files: Seq<String>, outcomes: Seq<FileOutcome>) -> Seq<Seq<char>>
    decreases outcomes.len(),
{
    if outcomes.len() == 0 {
        Seq::empty()
    } else {
        let rest = file_diagnostics(files, outcomes.drop_last());
        let path = files[outcomes.len() - 1]@;
        let outcome = outcomes.last();
        if outcome.0 == 0 {
            rest.push("file_read_failed:"@ + path + ":"@ + outcome.1)
        } else if outcome.0 == 1 {
            rest.push("file_parse_failed:"@ + path + ":"@ + outcome.1)
        } else {
            rest
        }
    }
}

/// The texts of a list of strings.
pub open spec fn texts(strings: Seq<String>) -> Seq<Seq<char>> {
    strings.map_values(|s: String| s@)
}

/// A record's file and facts.
pub open spec fn record_model(record: MatchRecord) -> (Seq<char>, MatchFacts) {
    (record.file@, record_facts(record))
}

/// How many records have this file and these facts.
pub open spec fn model_count(records: Seq<MatchRecord>, model: (Seq<char>, MatchFacts)) -> nat {
    records.map_values(|r: MatchRecord| record_model(r)).to_multiset().count(model)
}

/// How many matches with these facts the first `n` files owe under a file
/// path: for each of them that was scanned and goes by that path, as many as
/// the scan of its source text finds.
pub open spec fn owed_count(
    yaml: Seq<char>,
    language: SupportLang,
    files: Seq<String>,
    outcomes: Seq<FileOutcome>,
    n: int,
    model: (Seq<char>, MatchFacts),
) -> nat
    decreases n,
{
    if n <= 0 {
        0
    } else {
        owed_count(yaml, language, files, outcomes, n - 1, model) + if outcomes[n - 1].0 == 2
            && files[n - 1]@ == model.0 {
            group_facts(scan_result(yaml, outcomes[n - 1].1, language)).count(model.1)
        } else {
            0
        }
    }
}

/// How the files' outcomes account for a scan's response: a file is
/// unreadable only where reading it can fail with that error, unparsable
/// only where its text fails to parse with that message, and scanned
/// otherwise; its diagnostics come in file order; the matches found (`found`)
/// are, counted with multiplicity, exactly those that the scans of the
/// scanned files' texts owe, each under its file's path; and the response
/// lists them sorted, matches that tie keeping the order in which they
/// were found.
pub open spec fn scan_explained<F: Fn(&String) -> Result<String, String>>(
    read_text: F,
    language: SupportLang,
    yaml: Seq<char>,
    files: Seq<String>,
    outcomes: Seq<FileOutcome>,
    found: Seq<MatchRecord>,
    response: ScanResponse,
) -> bool {
    &&& outcomes.len() == files.len()
    &&& forall|i: int| 0 <= i < files.len() && (#[trigger] outcomes[i]).0 == 0 ==>
        exists|e: String| e@ == outcomes[i].1 && read_text.ensures((&files[i],), Err::<String, String>(e))
    &&& forall|i: int| 0 <= i < files.len() && (#[trigger] outcomes[i]).0 == 1 ==>
        exists|t: String| read_text.ensures((&files[i],), Ok::<String, String>(t))
            && document_parse_error(t@, language) == Some(outcomes[i].1)
    &&& forall|i: int| 0 <= i < files.len() && (#[trigger] outcomes[i]).0 == 2 ==>
        exists|t: String| read_text.ensures((&files[i],), Ok::<String, String>(t))
            && t@ == outcomes[i].1 && document_parse_error(t@, language) is None
    &&& forall|i: int| 0 <= i < files.len() ==> (#[trigger] outcomes[i]).0 <= 2
    &&& texts(response.diagnostics@) == file_diagnostics(files, outcomes)
    &&& forall|model: (Seq<char>, MatchFacts)| #[trigger] model_count(found, model)
        == owed_count(yaml, language, files, outcomes, files.len() as int, model)
    &&& forall|m: int| 0 <= m < found.len() ==> (#[trigger] found[m]).lines@ == found[m].text@
    &&& matches_sorted(response.matches@)
    &&& same_order_per_key(response.matches@, found)
    &&& exists|groups: Seq<Seq<Seq<MatchFacts>>>| found_by_rule_groups(yaml, language, files, outcomes, found, groups)
}

/// The facts of one listed file's matches, its rule groups one after
/// another, each under the file's path.
pub open spec fn file_segment(files: Seq<String>, groups: Seq<Seq<Seq<MatchFacts>>>, p: int) -> Seq<(Seq<char>, MatchFacts)> {
    concat_groups(groups[p]).map_values(|f: MatchFacts| (files[p]@, f))
}

/// The facts of each listed file's matches, each under its file's path,
/// file after file in list order; `groups` holds each file's rule groups.
pub open spec fn listed_models(files: Seq<String>, groups: Seq<Seq<Seq<MatchFacts>>>, n: int) -> Seq<(Seq<char>, MatchFacts)>
    decreases n,
{
    if n <= 0 {
        Seq::empty()
    } else {
        listed_models(files, groups, n - 1) + file_segment(files, groups, n - 1)
    }
}

/// Each group holds the matches of one rule: its facts share a rule id.
pub open spec fn one_rule_per_group(groups: Seq<Seq<MatchFacts>>) -> bool {
    forall|j: int, a: int, b: int| 0 <= j < groups.len() && 0 <= a < groups[j].len() && 0 <= b < groups[j].len()
        ==> (#[trigger] groups[j][a]).rule_id == (#[trigger] groups[j][b]).rule_id
}

/// The matches were found file by file in list order, each scanned file's
/// rule groups one after another, each group being one of those that the
/// scan of the file's text finds, in its order; an unscanned file adds none.
pub open spec fn found_by_rule_groups(
    yaml: Seq<char>,
    language: SupportLang,
    files: Seq<String>,
    outcomes: Seq<FileOutcome>,
    found: Seq<MatchRecord>,
    groups: Seq<Seq<Seq<MatchFacts>>>,
) -> bool {
    &&& groups.len() == files.len()
    &&& forall|k: int| 0 <= k < files.len() && (#[trigger] outcomes[k]).0 == 2 ==>
        groups[k].to_multiset() == scan_result(yaml, outcomes[k].1, language)
    &&& forall|k: int| 0 <= k < files.len() && (#[trigger] outcomes[k]).0 != 2 ==> groups[k].len() == 0
    &&& forall|k: int| 0 <= k < files.len() ==> #[trigger] one_rule_per_group(groups[k])
    &&& found.map_values(|r: MatchRecord| record_model(r)) == listed_models(files, groups, files.len() as int)
}

proof fn lemma_listed_models_prefix(
    files: Seq<String>,
    a: Seq<Seq<Seq<MatchFacts>>>,
    b: Seq<Seq<Seq<MatchFacts>>>,
    n: int,
)
    requires
        n <= a.len(),
        n <= b.len(),
        forall|k: int| 0 <= k < n ==> a[k] == b[k],
    ensures
        listed_models(files, a, n) == listed_models(files, b, n),
    decreases n,
{
    if n > 0 {
        lemma_listed_models_prefix(files, a, b, n - 1);
    }
}

/// Appending records of one file adds, under that file's path, what their
/// facts count.
proof fn lemma_model_count_append(before: Seq<MatchRecord>, added: Seq<MatchRecord>, path: Seq<char>)
    requires
        records_of_file(added, path),
    ensures
        forall|model: (Seq<char>, MatchFacts)| #[trigger] model_count(before + added, model)
            == model_count(before, model) + if model.0 == path { records_facts(added).count(model.1) } else { 0 },
    decreases added.len(),
{
    broadcast use vstd::seq_lib::group_to_multiset_ensures;
    broadcast use vstd::multiset::group_multiset_axioms;
    if added.len() == 0 {
        assert(before + added =~= before);
        assert(added.map_values(|r: MatchRecord| record_facts(r)) =~= Seq::<MatchFacts>::empty());
    } else {
        let rest = added.drop_last();
        let r = added.last();
        assert(records_of_file(rest, path)) by {
            assert forall|i: int| 0 <= i < rest.len() implies (#[trigger] rest[i]).file@ == path
                && rest[i].lines@ == rest[i].text@ by {
                assert(rest[i] == added[i]);
            }
        }
        lemma_model_count_append(before, rest, path);
        assert(added[added.len() - 1].file@ == path);
        assert(before + added =~= (before + rest).push(r));
        assert((before + rest).push(r).map_values(|r: MatchRecord| record_model(r))
            =~= (before + rest).map_values(|r: MatchRecord| record_model(r)).push(record_model(r)));
        assert(added =~= rest.push(r));
        lemma_records_facts_push(rest, r);
        assert forall|model: (Seq<char>, MatchFacts)| #[trigger] model_count(before + added, model)
            == model_count(before, model) + if model.0 == path { records_facts(added).count(model.1) } else { 0 } by {
            assert(model_count(before + added, model) == model_count(before + rest, model)
                + if record_model(r) == model { 1nat } else { 0nat });
            assert(records_facts(added).count(model.1) == records_facts(rest).count(model.1)
                + if record_facts(r) == model.1 { 1nat } else { 0nat });
            assert(model_count(before + rest, model) == model_count(before, model)
                + if model.0 == path { records_facts(rest).count(model.1) } else { 0 });
        }
    }
}

/// Reads, parses and scans each file in turn with every rule; a file that
/// cannot be read or parsed gets a diagnostic and the scan goes on. The
/// matches are sorted by file, start byte and rule id.
pub fn scan_files<F: Fn(&String) -> Result<String, String>>(
    language: SupportLang,
    rules: &RuleSet,
    files: &Vec<String>,
    read_text: &F,
) -> (res: ScanResponse)
    requires
        forall|path: &String| read_text.requires((path,)),
    ensures
        res.ok,
        res.error is None,
        res.message is None,
        response_consistent(res),
        exists|outcomes: Seq<FileOutcome>, found: Seq<MatchRecord>|
            scan_explained(*read_text, language, rule_set_text(*rules), files@, outcomes, found, res),
{
    let ghost yaml = rule_set_text(*rules);
    let scanner = rule_scanner(rules);
    let mut matches: Vec<MatchRecord> = Vec::new();
    let mut diagnostics: Vec<String> = Vec::new();
    let ghost mut outcomes: Seq<FileOutcome> = Seq::empty();
    let ghost mut groups: Seq<Seq<Seq<MatchFacts>>> = Seq::empty();
    proof {
        broadcast use vstd::seq_lib::group_to_multiset_ensures;
        assert forall|model: (Seq<char>, MatchFacts)| #[trigger] model_count(matches@, model) == 0 by {
            assert(matches@.map_values(|r: MatchRecord| record_model(r)) =~= Seq::<(Seq<char>, MatchFacts)>::empty());
        }
    }
    for i in 0..files.len()
        invariant
            forall|path: &String| read_text.requires((path,)),
            yaml == rule_set_text(*rules),
            crate::engine::scanner_rule_text(scanner) == yaml,
            outcomes.len() == i,
            forall|k: int| 0 <= k < i && (#[trigger] outcomes[k]).0 == 0 ==>
                exists|e: String| e@ == outcomes[k].1 && read_text.ensures((&files@[k],), Err::<String, String>(e)),
            forall|k: int| 0 <= k < i && (#[trigger] outcomes[k]).0 == 1 ==>
                exists|t: String| read_text.ensures((&files@[k],), Ok::<String, String>(t))
                    && document_parse_error(t@, language) == Some(outcomes[k].1),
            forall|k: int| 0 <= k < i && (#[trigger] outcomes[k]).0 == 2 ==>
                exists|t: String| read_text.ensures((&files@[k],), Ok::<String, String>(t))
                    && t@ == outcomes[k].1 && document_parse_error(t@, language) is None,
            forall|k: int| 0 <= k < i ==> (#[trigger] outcomes[k]).0 <= 2,
            texts(diagnostics@) == file_diagnostics(files@, outcomes),
            forall|model: (Seq<char>, MatchFacts)| #[trigger] model_count(matches@, model)
                == owed_count(yaml, language, files@, outcomes, i as int, model),
            forall|m: int| 0 <= m < matches@.len() ==>
                (#[trigger] matches@[m]).lines@ == matches@[m].text@,
            groups.len() == i,
            forall|k: int| 0 <= k < i && (#[trigger] outcomes[k]).0 == 2 ==>
                groups[k].to_multiset() == scan_result(yaml, outcomes[k].1, language),
            forall|k: int| 0 <= k < i && (#[trigger] outcomes[k]).0 != 2 ==> groups[k].len() == 0,
            forall|k: int| 0 <= k < i ==> #[trigger] one_rule_per_group(groups[k]),
            matches@.map_values(|r: MatchRecord| record_model(r)) == listed_models(files@, groups, i as int),
    {
        let ghost start = matches@;
        let file_path = &files[i];
        let read = read_text(file_path);
        let ghost outcome: FileOutcome;
        let ghost new_group: Seq<Seq<MatchFacts>>;
        match read {
            Err(error) => {
                let line = read_failure_diagnostic(file_path.as_str(), error.as_str());
                diagnostics.push(line);
                proof {
                    outcome = (0u8, error@);
                    new_group = Seq::empty();
                }
            },
            Ok(source) => {
                match parse_document(source.as_str(), language) {
                    Err(error) => {
                        let line = parse_failure_diagnostic(file_path.as_str(), error.as_str());
                        diagnostics.push(line);
                        proof {
                            outcome = (1u8, error@);
                            new_group = Seq::empty();
                        }
                    },
                    Ok(document) => {
                        let tree = document_root(document);
                        let hits = scan_tree(&scanner, &tree);
                        let ghost g = hits_groups(hits@);
                        append_scan_matches(file_path.as_str(), hits, &mut matches);
                        proof {
                            outcome = (2u8, source@);
                            new_group = g;
                            assert(one_rule_per_group(g)) by {
                                assert forall|j: int, a: int, b: int| 0 <= j < g.len() && 0 <= a < g[j].len() && 0 <= b < g[j].len()
                                    implies (#[trigger] g[j][a]).rule_id == (#[trigger] g[j][b]).rule_id by {
                                    assert(g[j] == rule_facts(hits@[j].rule, hits@[j].matches@));
                                }
                            }
                            let added = matches@.skip(start.len() as int);
                            let path = files@[i as int]@;
                            assert(matches@ =~= matches@.take(start.len() as int) + added);
                            lemma_group_facts(g);
                            assert(records_facts(added) == group_facts(scan_result(yaml, source@, language)));
                            lemma_model_count_append(start, added, path);
                            assert(added.map_values(|r: MatchRecord| record_model(r))
                                =~= concat_groups(g).map_values(|f: MatchFacts| (path, f))) by {
                                assert forall|k: int| 0 <= k < added.len() implies
                                    #[trigger] record_model(added[k]) == (path, concat_groups(g)[k]) by {
                                    assert(added.map_values(|r: MatchRecord| record_facts(r))[k] == record_facts(added[k]));
                                }
                            }
                            assert(matches@.map_values(|r: MatchRecord| record_model(r))
                                =~= start.map_values(|r: MatchRecord| record_model(r))
                                    + concat_groups(g).map_values(|f: MatchFacts| (path, f)));
                            assert forall|m: int| start.len() <= m < matches@.len() implies
                                (#[trigger] matches@[m]).lines@ == matches@[m].text@ by {
                                assert(matches@[m] == added[m - start.len()]);
                            }
                        }
                    },
                }
            },
        }
        proof {
            let prev = outcomes;
            let prev_groups = groups;
            groups = groups.push(new_group);
            lemma_listed_models_prefix(files@, prev_groups, groups, i as int);
            if outcome.0 != 2 {
                assert(concat_groups(new_group) =~= Seq::<MatchFacts>::empty());
                assert(matches@ =~= start);
                assert(file_segment(files@, groups, i as int) =~= Seq::<(Seq<char>, MatchFacts)>::empty());
                assert(listed_models(files@, groups, i + 1) =~= listed_models(files@, prev_groups, i as int));
            }
            assert(groups[i as int] == new_group);
            assert forall|k: int| 0 <= k < i + 1 implies #[trigger] one_rule_per_group(groups[k]) by {
                if k < i {
                    assert(groups[k] == prev_groups[k]);
                }
            }
            assert forall|k: int| 0 <= k < i + 1 && (#[trigger] outcomes.push(outcome)[k]).0 == 2 implies
                groups[k].to_multiset() == scan_result(yaml, outcomes.push(outcome)[k].1, language) by {
                if k < i {
                    assert(groups[k] == prev_groups[k]);
                    assert(outcomes.push(outcome)[k] == outcomes[k]);
                }
            }
            assert forall|k: int| 0 <= k < i + 1 && (#[trigger] outcomes.push(outcome)[k]).0 != 2 implies
                groups[k].len() == 0 by {
                if k < i {
                    assert(groups[k] == prev_groups[k]);
                    assert(outcomes.push(outcome)[k] == outcomes[k]);
                }
            }
            outcomes = outcomes.push(outcome);
            assert(outcomes.drop_last() =~= prev);
            assert(outcomes[i as int] == outcome);
            if outcome.0 != 2 {
                assert(matches@ =~= start);
            }
            assert forall|model: (Seq<char>, MatchFacts)| #[trigger] model_count(matches@, model)
                == owed_count(yaml, language, files@, outcomes, i + 1, model) by {
                assert forall|n: int| 0 <= n <= i implies owed_count(yaml, language, files@, outcomes, n, model)
                    == owed_count(yaml, language, files@, prev, n, model) by {
                    lemma_owed_count_prefix(yaml, language, files@, prev, outcomes, n, model);
                }
            }
            assert forall|m: int| 0 <= m < matches@.len() implies
                (#[trigger] matches@[m]).lines@ == matches@[m].text@ by {
                if m < start.len() {
                    assert(matches@[m] == matches@.take(start.len() as int)[m]);
                }
            }
            assert forall|k: int| 0 <= k < i + 1 && (#[trigger] outcomes[k]).0 == 0 implies
                exists|e: String| e@ == outcomes[k].1 && read_text.ensures((&files@[k],), Err::<String, String>(e)) by {
                if k < i {
                    assert(outcomes[k] == prev[k]);
                }
            }
            assert forall|k: int| 0 <= k < i + 1 && (#[trigger] outcomes[k]).0 == 1 implies
                exists|t: String| read_text.ensures((&files@[k],), Ok::<String, String>(t))
                    && document_parse_error(t@, language) == Some(outcomes[k].1) by {
                if k < i {
                    assert(outcomes[k] == prev[k]);
                }
            }
            assert forall|k: int| 0 <= k < i + 1 && (#[trigger] outcomes[k]).0 == 2 implies
                exists|t: String| read_text.ensures((&files@[k],), Ok::<String, String>(t))
                    && t@ == outcomes[k].1 && document_parse_error(t@, language) is None by {
                if k < i {
                    assert(outcomes[k] == prev[k]);
                }
            }
            assert forall|k: int| 0 <= k < i + 1 implies (#[trigger] outcomes[k]).0 <= 2 by {
                if k < i {
                    assert(outcomes[k] == prev[k]);
                }
            }
        }
    }
    let ghost found = matches@;
    let sorted = sort_matches(matches);
    let res = ScanResponse { ok: true, matches: sorted, diagnostics, error: None, message: None };
    proof {
        assert(found_by_rule_groups(yaml, language, files@, outcomes, found, groups));
        assert(scan_explained(*read_text, language, yaml, files@, outcomes, found, res));
    }
    res
}

/// Owed counts over the first `n` files do not look past them.
proof fn lemma_owed_count_prefix(
    yaml: Seq<char>,
    language: SupportLang,
    files: Seq<String>,
    a: Seq<FileOutcome>,
    b: Seq<FileOutcome>,
    n: int,
    model: (Seq<char>, MatchFacts),
)
    requires
        n <= a.len(),
        n <= b.len(),
        forall|k: int| 0 <= k < n ==> a[k] == b[k],
    ensures
        owed_count(yaml, language, files, a, n, model) == owed_count(yaml, language, files, b, n, model),
    decreases n,
{
    if n > 0 {
        lemma_owed_count_prefix(yaml, language, files, a, b, n - 1, model);
    }
}

/// What one listed file owes a model: under its path, if it was scanned, as
/// many matches with those facts as the scan of its source text finds.
pub open spec fn file_share(
    yaml: Seq<char>,
    language: SupportLang,
    file: (Seq<char>, FileOutcome),
    model: (Seq<char>, MatchFacts),
) -> nat {
    if file.1.0 == 2 && file.0 == model.0 {
        group_facts(scan_result(yaml, file.1.1, language)).count(model.1)
    } else {
        0
    }
}

/// Each listed file's path with its outcome, in list order.
pub open spec fn file_pairs(files: Seq<String>, outcomes: Seq<FileOutcome>) -> Seq<(Seq<char>, FileOutcome)> {
    Seq::new(files.len(), |i: int| (files[i]@, outcomes[i]))
}

/// What a list of files with outcomes owes a model, summed over the list.
pub open spec fn shares(
    yaml: Seq<char>,
    language: SupportLang,
    pairs: Seq<(Seq<char>, FileOutcome)>,
    model: (Seq<char>, MatchFacts),
) -> nat
    decreases pairs.len(),
{
    if pairs.len() == 0 {
        0
    } else {
        shares(yaml, language, pairs.drop_last(), model) + file_share(yaml, language, pairs.last(), model)
    }
}

proof fn lemma_owed_count_is_shares(
    yaml: Seq<char>,
    language: SupportLang,
    files: Seq<String>,
    outcomes: Seq<FileOutcome>,
    n: int,
    model: (Seq<char>, MatchFacts),
)
    requires
        0 <= n <= files.len(),
        files.len() == outcomes.len(),
    ensures
        owed_count(yaml, language, files, outcomes, n, model)
            == shares(yaml, language, file_pairs(files, outcomes).take(n), model),
    decreases n,
{
    if n > 0 {
        lemma_owed_count_is_shares(yaml, language, files, outcomes, n - 1, model);
        assert(file_pairs(files, outcomes).take(n).drop_last() =~= file_pairs(files, outcomes).take(n - 1));
    }
}

proof fn lemma_shares_remove(
    yaml: Seq<char>,
    language: SupportLang,
    pairs: Seq<(Seq<char>, FileOutcome)>,
    j: int,
    model: (Seq<char>, MatchFacts),
)
    requires
        0 <= j < pairs.len(),
    ensures
        shares(yaml, language, pairs, model)
            == shares(yaml, language, pairs.remove(j), model) + file_share(yaml, language, pairs[j], model),
    decreases pairs.len(),
{
    if j == pairs.len() - 1 {
        assert(pairs.remove(j) =~= pairs.drop_last());
    } else {
        lemma_shares_remove(yaml, language, pairs.drop_last(), j, model);
        assert(pairs.remove(j).drop_last() =~= pairs.drop_last().remove(j));
        assert(pairs.remove(j).last() == pairs.last());
    }
}

proof fn lemma_shares_permutation(
    yaml: Seq<char>,
    language: SupportLang,
    a: Seq<(Seq<char>, FileOutcome)>,
    b: Seq<(Seq<char>, FileOutcome)>,
    model: (Seq<char>, MatchFacts),
)
    requires
        a.to_multiset() == b.to_multiset(),
    ensures
        shares(yaml, language, a, model) == shares(yaml, language, b, model),
    decreases a.len(),
{
    broadcast use vstd::seq_lib::group_to_multiset_ensures;
    if a.len() == 0 {
        assert(a.to_multiset().len() == 0);
        assert(b.to_multiset().len() == b.len());
    } else {
        let x = a.last();
        assert(a =~= a.drop_last().push(x));
        assert(a.to_multiset().count(x) > 0);
        assert(b.contains(x));
        let j: int = choose|j: int| 0 <= j < b.len() && b[j] == x;
        assert(b.remove(j).to_multiset() =~= a.drop_last().to_multiset());
        lemma_shares_permutation(yaml, language, a.drop_last(), b.remove(j), model);
        lemma_shares_remove(yaml, language, b, j, model);
    }
}

/// Listing the same files with the same outcomes in another order owes the
/// same matches: what a scan reports, counted by file and facts, does not
/// depend on the order of the file list.
pub proof fn lemma_owed_independent_of_file_order(
    yaml: Seq<char>,
    language: SupportLang,
    files1: Seq<String>,
    outcomes1: Seq<FileOutcome>,
    files2: Seq<String>,
    outcomes2: Seq<FileOutcome>,
    model: (Seq<char>, MatchFacts),
)
    requires
        files1.len() == outcomes1.len(),
        files2.len() == outcomes2.len(),
        file_pairs(files1, outcomes1).to_multiset() == file_pairs(files2, outcomes2).to_multiset(),
    ensures
        owed_count(yaml, language, files1, outcomes1, files1.len() as int, model)
            == owed_count(yaml, language, files2, outcomes2, files2.len() as int, model),
{
    lemma_owed_count_is_shares(yaml, language, files1, outcomes1, files1.len() as int, model);
    lemma_owed_count_is_shares(yaml, language, files2, outcomes2, files2.len() as int, model);
    assert(file_pairs(files1, outcomes1).take(files1.len() as int) =~= file_pairs(files1, outcomes1));
    assert(file_pairs(files2, outcomes2).take(files2.len() as int) =~= file_pairs(files2, outcomes2));
    lemma_shares_permutation(yaml, language, file_pairs(files1, outcomes1), file_pairs(files2, outcomes2), model);
}

/// Sequences that hold the same elements, counted, still do once a function
/// is applied to each element.
proof fn lemma_map_to_multiset<A, B>(a: Seq<A>, b: Seq<A>, f: spec_fn(A) -> B)
    requires
        a.to_multiset() == b.to_multiset(),
    ensures
        a.map_values(f).to_multiset() == b.map_values(f).to_multiset(),
    decreases a.len(),
{
    broadcast use vstd::seq_lib::group_to_multiset_ensures;
    broadcast use vstd::multiset::group_multiset_axioms;
    if a.len() == 0 {
        assert(a.to_multiset().len() == 0);
        assert(b.to_multiset().len() == b.len());
        assert(a.map_values(f) =~= b.map_values(f));
    } else {
        let x = a.last();
        let rest = a.drop_last();
        assert(a =~= rest.push(x));
        assert(a.to_multiset().count(x) > 0);
        assert(b.contains(x));
        let j: int = choose|j: int| 0 <= j < b.len() && b[j] == x;
        let b2 = b.remove(j);
        assert(b2.to_multiset() =~= rest.to_multiset());
        lemma_map_to_multiset(rest, b2, f);
        let mb = b.map_values(f);
        assert(a.map_values(f) =~= rest.map_values(f).push(f(x)));
        assert(mb.remove(j) =~= b2.map_values(f));
        assert(mb[j] == f(x));
        assert(mb.to_multiset() =~= mb.remove(j).to_multiset().insert(f(x))) by {
            assert(mb.contains(f(x)));
            assert(mb.to_multiset().count(f(x)) > 0);
        }
    }
}

/// Records that are a rearrangement of each other count the same models.
proof fn lemma_model_count_permutation(a: Seq<MatchRecord>, b: Seq<MatchRecord>)
    requires
        a.to_multiset() == b.to_multiset(),
    ensures
        forall|model: (Seq<char>, MatchFacts)| #[trigger] model_count(a, model) == model_count(b, model),
{
    lemma_map_to_multiset(a, b, |r: MatchRecord| record_model(r));
}

/// The sort key of a record's file and facts.
pub open spec fn model_key(model: (Seq<char>, MatchFacts)) -> MatchKey {
    (encode_utf8(model.0), model.1.range.byte_offset.start, encode_utf8(model.1.rule_id))
}

/// Scanning the same files listed in another order, each read and parsed
/// with the same outcome, reports the same matches, counted by file and
/// facts, and lists their sort keys in the same order: only matches that
/// tie on file, start byte and rule id may trade places.
pub proof fn lemma_scan_independent_of_file_order<F: Fn(&String) -> Result<String, String>>(
    read_text: F,
    language: SupportLang,
    yaml: Seq<char>,
    files1: Seq<String>,
    outcomes1: Seq<FileOutcome>,
    found1: Seq<MatchRecord>,
    response1: ScanResponse,
    files2: Seq<String>,
    outcomes2: Seq<FileOutcome>,
    found2: Seq<MatchRecord>,
    response2: ScanResponse,
)
    requires
        scan_explained(read_text, language, yaml, files1, outcomes1, found1, response1),
        scan_explained(read_text, language, yaml, files2, outcomes2, found2, response2),
        file_pairs(files1, outcomes1).to_multiset() == file_pairs(files2, outcomes2).to_multiset(),
    ensures
        forall|model: (Seq<char>, MatchFacts)| #[trigger] model_count(response1.matches@, model)
            == model_count(response2.matches@, model),
        response1.matches@.map_values(|m: MatchRecord| match_key(m))
            == response2.matches@.map_values(|m: MatchRecord| match_key(m)),
{
    lemma_same_order_same_matches(response1.matches@, found1);
    lemma_same_order_same_matches(response2.matches@, found2);
    lemma_model_count_permutation(response1.matches@, found1);
    lemma_model_count_permutation(response2.matches@, found2);
    assert forall|model: (Seq<char>, MatchFacts)| #[trigger] model_count(response1.matches@, model)
        == model_count(response2.matches@, model) by {
        lemma_owed_independent_of_file_order(yaml, language, files1, outcomes1, files2, outcomes2, model);
        assert(model_count(found1, model) == owed_count(yaml, language, files1, outcomes1, files1.len() as int, model));
        assert(model_count(found2, model) == owed_count(yaml, language, files2, outcomes2, files2.len() as int, model));
    }
    let m1 = response1.matches@.map_values(|r: MatchRecord| record_model(r));
    let m2 = response2.matches@.map_values(|r: MatchRecord| record_model(r));
    assert(m1.to_multiset() =~= m2.to_multiset()) by {
        assert forall|model: (Seq<char>, MatchFacts)| m1.to_multiset().count(model) == m2.to_multiset().count(model) by {
            assert(model_count(response1.matches@, model) == model_count(response2.matches@, model));
        }
    }
    lemma_map_to_multiset(m1, m2, |model: (Seq<char>, MatchFacts)| model_key(model));
    assert(m1.map_values(|model: (Seq<char>, MatchFacts)| model_key(model))
        =~= response1.matches@.map_values(|m: MatchRecord| match_key(m)));
    assert(m2.map_values(|model: (Seq<char>, MatchFacts)| model_key(model))
        =~= response2.matches@.map_values(|m: MatchRecord| match_key(m)));
    lemma_sorted_same_keys(response1.matches@, response2.matches@);
}

} // verus!
