//! What the records, the sort order and the diagnostics of a scan owe,
//! stated over ast-grep's named facts, the records' own fields and the
//! bytes of the texts compared.

use vstd::prelude::*;
use vstd::utf8::encode_utf8;
use crate::engine::{
    CaptureFacts, FoundMatch, MatchFacts, ReportedVariable, RuleHits, RuleRef, TreeNode,
    captured_node_of, captured_nodes_of, matched_node_of, node_bytes_of, node_end_of, node_kind_of,
    node_start_of, node_text_of, position_column_of, position_line_of, reported_variables, rule_id_of,
    rule_message_of, rule_metadata_of,
};
use crate::json::{json_object_entries, metadata_json_entries};
use crate::order::bytes_lt;
use crate::records::{ByteOffsetRecord, MatchRecord, MetaVariablesRecord, PointRecord, RangeRecord, ScanResponse};
use crate::scan::{
    FileOutcome, capture_facts, concat_groups, expected_multi, expected_single, file_diagnostics, hits_groups,
    match_facts, multi_facts, node_capture_facts, node_range, record_facts, scan_explained, single_facts, texts,
};
use crate::sorting::{key_lt, match_key, matches_sorted};

verus! {

/// The range of a node is read off the node: its start and end position
/// (zero-based line and character column) and its start and end byte.
pub proof fn lemma_range_is_the_node_range(node: TreeNode)
    ensures
        node_range(node).start.line == position_line_of(node_start_of(node)),
        node_range(node).start.column == position_column_of(node_start_of(node), node),
        node_range(node).end_position.line == position_line_of(node_end_of(node)),
        node_range(node).end_position.column == position_column_of(node_end_of(node), node),
        node_range(node).byte_offset.start == node_bytes_of(node).0,
        node_range(node).byte_offset.end_offset == node_bytes_of(node).1,
{
}

/// A captured node gives its capture the node's own text and whole range,
/// from its start to its end.
pub proof fn lemma_capture_is_the_whole_node(node: TreeNode)
    ensures
        node_capture_facts(node).text == node_text_of(node),
        node_capture_facts(node).range.start == (PointRecord {
            line: position_line_of(node_start_of(node)),
            column: position_column_of(node_start_of(node), node),
        }),
        node_capture_facts(node).range.end_position == (PointRecord {
            line: position_line_of(node_end_of(node)),
            column: position_column_of(node_end_of(node), node),
        }),
        node_capture_facts(node).range.byte_offset == (ByteOffsetRecord {
            start: node_bytes_of(node).0,
            end_offset: node_bytes_of(node).1,
        }),
{
}

/// A match owes its record, under each reported `$NAME` whose node the
/// environment holds, that node's text and whole range; and under each
/// reported `$$$NAME`, one capture per node the environment holds under it,
/// the `k`-th for the `k`-th node, with that node's text and whole range.
pub proof fn lemma_captures_are_the_captured_nodes(found: FoundMatch, name: Seq<char>, k: int)
    ensures
        expected_single(found).contains_key(name) <==> (
            reported_variables(found).contains(ReportedVariable::Single(name))
                && captured_node_of(found, name) is Some),
        expected_single(found).contains_key(name) ==> {
            let node = captured_node_of(found, name)->0;
            &&& expected_single(found)[name].text == node_text_of(node)
            &&& expected_single(found)[name].range.start.line == position_line_of(node_start_of(node))
            &&& expected_single(found)[name].range.start.column == position_column_of(node_start_of(node), node)
            &&& expected_single(found)[name].range.end_position.line == position_line_of(node_end_of(node))
            &&& expected_single(found)[name].range.end_position.column == position_column_of(node_end_of(node), node)
            &&& expected_single(found)[name].range.byte_offset.start == node_bytes_of(node).0
            &&& expected_single(found)[name].range.byte_offset.end_offset == node_bytes_of(node).1
        },
        expected_multi(found).contains_key(name)
            <==> reported_variables(found).contains(ReportedVariable::Multiple(name)),
        expected_multi(found).contains_key(name) ==>
            expected_multi(found)[name].len() == captured_nodes_of(found, name).len(),
        expected_multi(found).contains_key(name) && 0 <= k < captured_nodes_of(found, name).len() ==> {
            let node = captured_nodes_of(found, name)[k];
            &&& expected_multi(found)[name][k].text == node_text_of(node)
            &&& expected_multi(found)[name][k].range.start.line == position_line_of(node_start_of(node))
            &&& expected_multi(found)[name][k].range.start.column == position_column_of(node_start_of(node), node)
            &&& expected_multi(found)[name][k].range.end_position.line == position_line_of(node_end_of(node))
            &&& expected_multi(found)[name][k].range.end_position.column == position_column_of(node_end_of(node), node)
            &&& expected_multi(found)[name][k].range.byte_offset.start == node_bytes_of(node).0
            &&& expected_multi(found)[name][k].range.byte_offset.end_offset == node_bytes_of(node).1
        },
{
}

/// What a record holds is read off its fields: each single capture's text
/// and range under its name, and each list capture's records in order.
pub proof fn lemma_record_facts_are_its_fields(record: MatchRecord, name: Seq<char>, k: int)
    ensures
        record_facts(record).rule_id == record.rule_id@,
        record_facts(record).range == record.range,
        record_facts(record).text == record.text@,
        record_facts(record).node_kind == record.node_kind@,
        record_facts(record).message == record.message@,
        record_facts(record).metadata == json_object_entries(record.metadata),
        record_facts(record).single == single_facts(record.meta_variables),
        record_facts(record).multi == multi_facts(record.meta_variables),
        single_facts(record.meta_variables).contains_key(name) <==> record.meta_variables.single@.contains_key(name),
        record.meta_variables.single@.contains_key(name) ==>
            single_facts(record.meta_variables)[name].text == record.meta_variables.single@[name].text@
            && single_facts(record.meta_variables)[name].range == record.meta_variables.single@[name].range,
        multi_facts(record.meta_variables).contains_key(name) <==> record.meta_variables.multi@.contains_key(name),
        record.meta_variables.multi@.contains_key(name) ==>
            multi_facts(record.meta_variables)[name].len() == record.meta_variables.multi@[name]@.len(),
        record.meta_variables.multi@.contains_key(name) && 0 <= k < record.meta_variables.multi@[name]@.len() ==>
            multi_facts(record.meta_variables)[name][k].text == record.meta_variables.multi@[name]@[k].text@
            && multi_facts(record.meta_variables)[name][k].range == record.meta_variables.multi@[name]@[k].range,
{
}

/// A match owes its record the rule's id, the matched node's range, text and
/// kind, the message the rule renders for this very match, the entries of
/// the rule's metadata as JSON, and the match's own captures.
pub proof fn lemma_match_facts_are_the_match(rule: RuleRef, found: FoundMatch)
    ensures
        match_facts(rule, found).rule_id == rule_id_of(rule),
        match_facts(rule, found).message == rule_message_of(rule, found),
        match_facts(rule, found).text == node_text_of(matched_node_of(found)),
        match_facts(rule, found).node_kind == node_kind_of(matched_node_of(found)),
        match_facts(rule, found).range.start.line == position_line_of(node_start_of(matched_node_of(found))),
        match_facts(rule, found).range.start.column
            == position_column_of(node_start_of(matched_node_of(found)), matched_node_of(found)),
        match_facts(rule, found).range.end_position.line == position_line_of(node_end_of(matched_node_of(found))),
        match_facts(rule, found).range.end_position.column
            == position_column_of(node_end_of(matched_node_of(found)), matched_node_of(found)),
        match_facts(rule, found).range.byte_offset.start == node_bytes_of(matched_node_of(found)).0,
        match_facts(rule, found).range.byte_offset.end_offset == node_bytes_of(matched_node_of(found)).1,
        match_facts(rule, found).metadata == match rule_metadata_of(rule) {
            Some(m) => match metadata_json_entries(m) {
                Some(entries) => entries,
                None => Map::<Seq<char>, serde_json::Value>::empty(),
            },
            None => Map::<Seq<char>, serde_json::Value>::empty(),
        },
        match_facts(rule, found).single == expected_single(found),
        match_facts(rule, found).multi == expected_multi(found),
{
}

/// Each rule's group holds, in order, one entry per match of that rule,
/// the `k`-th being what the `k`-th match owes: its own message among them.
pub proof fn lemma_groups_are_each_rules_matches(hits: Seq<RuleHits>, i: int, k: int)
    ensures
        hits_groups(hits).len() == hits.len(),
        0 <= i < hits.len() ==> hits_groups(hits)[i].len() == hits[i].matches@.len(),
        0 <= i < hits.len() && 0 <= k < hits[i].matches@.len() ==>
            hits_groups(hits)[i][k] == match_facts(hits[i].rule, hits[i].matches@[k]),
        0 <= i < hits.len() && 0 <= k < hits[i].matches@.len() ==>
            hits_groups(hits)[i][k].message == rule_message_of(hits[i].rule, hits[i].matches@[k]),
{
}

/// Groups put one after another: the empty list gives nothing, one group
/// gives itself, and two lists give what each gives, one after the other.
pub proof fn lemma_concat_groups_appends(g: Seq<Seq<MatchFacts>>, h: Seq<Seq<MatchFacts>>, x: Seq<MatchFacts>)
    ensures
        concat_groups(Seq::<Seq<MatchFacts>>::empty()) == Seq::<MatchFacts>::empty(),
        concat_groups(seq![x]) == x,
        concat_groups(g + h) == concat_groups(g) + concat_groups(h),
    decreases h.len(),
{
    assert(seq![x].drop_last() =~= Seq::<Seq<MatchFacts>>::empty());
    assert(seq![x].last() == x);
    assert(concat_groups(seq![x].drop_last()) == Seq::<MatchFacts>::empty());
    assert(Seq::<MatchFacts>::empty() + x =~= x);
    assert(concat_groups(seq![x]) == concat_groups(seq![x].drop_last()) + x);
    if h.len() == 0 {
        assert(g + h =~= g);
        assert(concat_groups(g) + Seq::<MatchFacts>::empty() =~= concat_groups(g));
    } else {
        lemma_concat_groups_appends(g, h.drop_last(), x);
        assert((g + h).drop_last() =~= g + h.drop_last());
        assert((g + h).last() == h.last());
        assert(concat_groups(g) + concat_groups(h.drop_last()) + h.last()
            =~= concat_groups(g) + (concat_groups(h.drop_last()) + h.last()));
    }
}

/// The texts of strings are the strings' texts, one for one.
pub proof fn lemma_texts_one_for_one(strings: Seq<String>, i: int)
    ensures
        texts(strings).len() == strings.len(),
        0 <= i < strings.len() ==> texts(strings)[i] == strings[i]@,
{
}

/// The diagnostics of a scan: one per file that could not be read or parsed,
/// in list order, the one of the `i`-th file coming after those of the
/// failing files before it; a scanned file adds none.
pub proof fn lemma_one_diagnostic_per_failing_file(files: Seq<String>, outcomes: Seq<FileOutcome>, i: int)
    requires
        outcomes.len() <= files.len(),
    ensures
        file_diagnostics(files, outcomes).len() == outcomes.filter(|o: FileOutcome| o.0 == 0 || o.0 == 1).len(),
        0 <= i < outcomes.len() && outcomes[i].0 == 0 ==>
            file_diagnostics(files, outcomes)[outcomes.take(i).filter(|o: FileOutcome| o.0 == 0 || o.0 == 1).len() as int]
                == "file_read_failed:"@ + files[i]@ + ":"@ + outcomes[i].1,
        0 <= i < outcomes.len() && outcomes[i].0 == 1 ==>
            file_diagnostics(files, outcomes)[outcomes.take(i).filter(|o: FileOutcome| o.0 == 0 || o.0 == 1).len() as int]
                == "file_parse_failed:"@ + files[i]@ + ":"@ + outcomes[i].1,
    decreases outcomes.len(),
{
    reveal(Seq::filter);
    if outcomes.len() > 0 {
        let n: int = outcomes.len() - 1;
        let rest = outcomes.drop_last();
        let f = |o: FileOutcome| o.0 == 0 || o.0 == 1;
        let whole = file_diagnostics(files, outcomes);
        let before = file_diagnostics(files, rest);
        assert(outcomes.last() == outcomes[n]);
        assert(rest.len() == n);
        if 0 <= i < n {
            lemma_one_diagnostic_per_failing_file(files, rest, i);
            assert(outcomes.take(i) =~= rest.take(i));
            if outcomes[i].0 == 0 || outcomes[i].0 == 1 {
                lemma_rank_below(rest, i);
                assert(rest[i] == outcomes[i]);
                let r = rest.take(i).filter(f).len() as int;
                assert(r < before.len());
                assert(whole[r] == before[r]);
            }
        } else {
            lemma_one_diagnostic_per_failing_file(files, rest, 0);
            if i == n {
                assert(outcomes.take(i) =~= rest);
            }
        }
        assert(whole.len() == outcomes.filter(f).len());
    }
}

/// What a scan's response says of each listed file: one diagnostic for each
/// file that could not be read (with the reader's error) or parsed, in list
/// order, and nothing else; and its matches in order of file bytes, then
/// start byte, then rule id bytes.
pub proof fn lemma_scan_reports_every_failing_file<F: Fn(&String) -> Result<String, String>>(
    read_text: F,
    language: ast_grep_language::SupportLang,
    yaml: Seq<char>,
    files: Seq<String>,
    outcomes: Seq<FileOutcome>,
    found: Seq<MatchRecord>,
    response: ScanResponse,
    i: int,
)
    requires
        scan_explained(read_text, language, yaml, files, outcomes, found, response),
    ensures
        response.diagnostics@.len() == outcomes.filter(|o: FileOutcome| o.0 == 0 || o.0 == 1).len(),
        0 <= i < files.len() && outcomes[i].0 == 0 ==> {
            &&& response.diagnostics@[outcomes.take(i).filter(|o: FileOutcome| o.0 == 0 || o.0 == 1).len() as int]@
                == "file_read_failed:"@ + files[i]@ + ":"@ + outcomes[i].1
            &&& exists|e: String| e@ == outcomes[i].1 && read_text.ensures((&files[i],), Err::<String, String>(e))
        },
        0 <= i < files.len() && outcomes[i].0 == 1 ==>
            response.diagnostics@[outcomes.take(i).filter(|o: FileOutcome| o.0 == 0 || o.0 == 1).len() as int]@
                == "file_parse_failed:"@ + files[i]@ + ":"@ + outcomes[i].1,
        forall|a: int, b: int| 0 <= a < b < response.matches@.len() ==>
            !key_lt(match_key(#[trigger] response.matches@[b]), match_key(#[trigger] response.matches@[a])),
{
    lemma_one_diagnostic_per_failing_file(files, outcomes, i);
    assert(texts(response.diagnostics@).len() == response.diagnostics@.len());
    if 0 <= i < files.len() && (outcomes[i].0 == 0 || outcomes[i].0 == 1) {
        let r = outcomes.take(i).filter(|o: FileOutcome| o.0 == 0 || o.0 == 1).len() as int;
        assert(outcomes.take(i).filter(|o: FileOutcome| o.0 == 0 || o.0 == 1).len()
            < outcomes.filter(|o: FileOutcome| o.0 == 0 || o.0 == 1).len()) by {
            lemma_rank_below(outcomes, i);
        }
        assert(texts(response.diagnostics@)[r] == response.diagnostics@[r]@);
    }
}

/// A kept element has fewer kept elements before it than are kept in all.
proof fn lemma_rank_below(outcomes: Seq<FileOutcome>, i: int)
    requires
        0 <= i < outcomes.len(),
        outcomes[i].0 == 0 || outcomes[i].0 == 1,
    ensures
        outcomes.take(i).filter(|o: FileOutcome| o.0 == 0 || o.0 == 1).len()
            < outcomes.filter(|o: FileOutcome| o.0 == 0 || o.0 == 1).len(),
{
    reveal(Seq::filter);
    let f = |o: FileOutcome| o.0 == 0 || o.0 == 1;
    assert(outcomes.take(i + 1).drop_last() =~= outcomes.take(i));
    assert(outcomes.take(i + 1).last() == outcomes[i]);
    assert(outcomes =~= outcomes.take(i + 1) + outcomes.skip(i + 1));
    Seq::filter_distributes_over_add(outcomes.take(i + 1), outcomes.skip(i + 1), f);
}

/// The byte order of texts is lexicographic: `a` comes first where the first
/// byte in which they differ is smaller in `a`, or where `a` is a proper
/// prefix of `b`.
pub proof fn lemma_bytes_order_is_lexicographic(a: Seq<u8>, b: Seq<u8>)
    ensures
        bytes_lt(a, b) <==> (
            (exists|i: int| #![trigger a[i], b[i]] 0 <= i < a.len() && i < b.len() && a[i] < b[i]
                && forall|j: int| 0 <= j < i ==> a[j] == b[j])
            || (a.len() < b.len() && forall|j: int| 0 <= j < a.len() ==> a[j] == b[j])),
    decreases a.len(),
{
    if a.len() == 0 || b.len() == 0 {
    } else if a[0] != b[0] {
        if a[0] < b[0] {
            assert(a[0] < b[0] && forall|j: int| 0 <= j < 0 ==> a[j] == b[j]);
        }
        assert(!(a.len() < b.len() && forall|j: int| 0 <= j < a.len() ==> a[j] == b[j])) by {
            if a.len() < b.len() && forall|j: int| 0 <= j < a.len() ==> a[j] == b[j] {
                assert(a[0] == b[0]);
            }
        }
        if exists|i: int| #![trigger a[i], b[i]] 0 <= i < a.len() && i < b.len() && a[i] < b[i]
            && forall|j: int| 0 <= j < i ==> a[j] == b[j] {
            let i = choose|i: int| #![trigger a[i], b[i]] 0 <= i < a.len() && i < b.len() && a[i] < b[i]
                && forall|j: int| 0 <= j < i ==> a[j] == b[j];
            if i > 0 {
                assert(a[0] == b[0]);
            }
        }
    } else {
        let a2 = a.drop_first();
        let b2 = b.drop_first();
        lemma_bytes_order_is_lexicographic(a2, b2);
        let ex = exists|i: int| #![trigger a[i], b[i]] 0 <= i < a.len() && i < b.len() && a[i] < b[i]
            && forall|j: int| 0 <= j < i ==> a[j] == b[j];
        let ex2 = exists|i: int| #![trigger a2[i], b2[i]] 0 <= i < a2.len() && i < b2.len() && a2[i] < b2[i]
            && forall|j: int| 0 <= j < i ==> a2[j] == b2[j];
        assert(ex <==> ex2) by {
            if ex {
                let i = choose|i: int| #![trigger a[i], b[i]] 0 <= i < a.len() && i < b.len() && a[i] < b[i]
                    && forall|j: int| 0 <= j < i ==> a[j] == b[j];
                assert(i > 0);
                assert(a2[i - 1] == a[i] && b2[i - 1] == b[i]);
                assert forall|j: int| 0 <= j < i - 1 implies a2[j] == b2[j] by {
                    assert(a[j + 1] == b[j + 1]);
                }
            }
            if ex2 {
                let i = choose|i: int| #![trigger a2[i], b2[i]] 0 <= i < a2.len() && i < b2.len() && a2[i] < b2[i]
                    && forall|j: int| 0 <= j < i ==> a2[j] == b2[j];
                assert(a[i + 1] == a2[i] && b[i + 1] == b2[i]);
                assert forall|j: int| 0 <= j < i + 1 implies a[j] == b[j] by {
                    if j > 0 {
                        assert(a2[j - 1] == b2[j - 1]);
                    }
                }
            }
        }
        let pre = a.len() < b.len() && forall|j: int| 0 <= j < a.len() ==> a[j] == b[j];
        let pre2 = a2.len() < b2.len() && forall|j: int| 0 <= j < a2.len() ==> a2[j] == b2[j];
        assert(pre <==> pre2) by {
            if pre {
                assert forall|j: int| 0 <= j < a2.len() implies a2[j] == b2[j] by {
                    assert(a[j + 1] == b[j + 1]);
                }
            }
            if pre2 {
                assert forall|j: int| 0 <= j < a.len() implies a[j] == b[j] by {
                    if j > 0 {
                        assert(a2[j - 1] == b2[j - 1]);
                    }
                }
            }
        }
    }
}

/// Matches are ordered by their file's text, then their start byte, then
/// their rule id's text, each text compared as std compares strings: by its
/// UTF-8 bytes.
pub proof fn lemma_sort_key_order(a: MatchRecord, b: MatchRecord)
    ensures
        key_lt(match_key(a), match_key(b)) <==> (
            bytes_lt(encode_utf8(a.file@), encode_utf8(b.file@))
            || (a.file@ == b.file@ && a.range.byte_offset.start < b.range.byte_offset.start)
            || (a.file@ == b.file@ && a.range.byte_offset.start == b.range.byte_offset.start
                && bytes_lt(encode_utf8(a.rule_id@), encode_utf8(b.rule_id@)))),
        matches_sorted(seq![a, b]) <==> !key_lt(match_key(b), match_key(a)),
{
    if encode_utf8(a.file@) == encode_utf8(b.file@) {
        crate::file_order::lemma_encode_injective(a.file@, b.file@);
    }
    let s = seq![a, b];
    if !key_lt(match_key(b), match_key(a)) {
        assert forall|i: int, j: int| 0 <= i < j < s.len() implies
            !key_lt(match_key(#[trigger] s[j]), match_key(#[trigger] s[i])) by {
            assert(i == 0 && j == 1);
        }
    } else {
        assert(s[0] == a && s[1] == b);
    }
}

/// Sorting keeps ties in the order found: two lists that hold the same
/// matches under every key in the same order list the matches with any one
/// file, start byte and rule id in the same order, and hold the same matches.
pub proof fn lemma_ties_keep_their_order(a: Seq<MatchRecord>, b: Seq<MatchRecord>, k: (Seq<u8>, usize, Seq<u8>))
    requires
        crate::sorting::same_order_per_key(a, b),
    ensures
        a.filter(|m: MatchRecord| (encode_utf8(m.file@), m.range.byte_offset.start, encode_utf8(m.rule_id@)) == k)
            == b.filter(|m: MatchRecord| (encode_utf8(m.file@), m.range.byte_offset.start, encode_utf8(m.rule_id@)) == k),
        a.to_multiset() == b.to_multiset(),
{
    assert(crate::sorting::with_key(a, k) == crate::sorting::with_key(b, k));
    assert((|m: MatchRecord| match_key(m) == k)
        =~= (|m: MatchRecord| (encode_utf8(m.file@), m.range.byte_offset.start, encode_utf8(m.rule_id@)) == k));
    crate::sorting::lemma_same_order_same_matches(a, b);
}

/// A record is counted under its own file and what its fields hold, and
/// sorted by its file's bytes, start byte and rule id's bytes.
pub proof fn lemma_record_model_is_its_file_and_facts(record: MatchRecord)
    ensures
        crate::scan::record_model(record) == (record.file@, record_facts(record)),
        crate::scan::model_key(crate::scan::record_model(record))
            == (encode_utf8(record.file@), record.range.byte_offset.start, encode_utf8(record.rule_id@)),
        match_key(record) == (encode_utf8(record.file@), record.range.byte_offset.start, encode_utf8(record.rule_id@)),
{
}

} // verus!
