//! Why the order of the file list does not change a scan's matches, record
//! for record, where no path is listed twice and no two rules that match in
//! one file share an id.

use vstd::prelude::*;
use vstd::multiset::Multiset;
use vstd::utf8::encode_utf8;
use crate::engine::MatchFacts;
use crate::records::MatchRecord;
use crate::sorting::{MatchKey, match_key, with_key};
use ast_grep_language::SupportLang;
use crate::engine::scan_result;
use crate::records::ScanResponse;
use crate::scan::{FileOutcome, concat_groups, file_pairs, file_segment, found_by_rule_groups, listed_models,
    model_key, one_rule_per_group, record_model, scan_explained, lemma_scan_independent_of_file_order};

verus! {

/// A file and facts, as records are compared.
pub type Model = (Seq<char>, MatchFacts);

/// The files and facts that have a sort key, in their order.
pub open spec fn key_filter(models: Seq<Model>, k: MatchKey) -> Seq<Model> {
    models.filter(|m: Model| model_key(m) == k)
}

/// The files and facts of records, in their order.
pub open spec fn models_of(records: Seq<MatchRecord>) -> Seq<Model> {
    records.map_values(|r: MatchRecord| record_model(r))
}

/// Filtering and then applying a function is applying it and then filtering
/// by the matching predicate.
proof fn lemma_filter_map<A, B>(s: Seq<A>, g: spec_fn(A) -> B, p: spec_fn(A) -> bool, q: spec_fn(B) -> bool)
    requires
        forall|x: A| #[trigger] p(x) == q(g(x)),
    ensures
        s.filter(p).map_values(g) == s.map_values(g).filter(q),
    decreases s.len(),
{
    reveal(Seq::filter);
    if s.len() == 0 {
        assert(s.filter(p).map_values(g) =~= Seq::<B>::empty());
        assert(s.map_values(g) =~= Seq::<B>::empty());
    } else {
        lemma_filter_map(s.drop_last(), g, p, q);
        assert(s.map_values(g).drop_last() =~= s.drop_last().map_values(g));
        assert(s.map_values(g).last() == g(s.last()));
        if p(s.last()) {
            assert(s.filter(p).map_values(g) =~= s.drop_last().filter(p).map_values(g).push(g(s.last())));
        }
    }
}

/// An element that a filter keeps sits in the filtered sequence after as
/// many elements as the filter keeps before it.
proof fn lemma_filter_rank<A>(s: Seq<A>, f: spec_fn(A) -> bool, i: int)
    requires
        0 <= i < s.len(),
        f(s[i]),
    ensures
        s.take(i).filter(f).len() < s.filter(f).len(),
        s.filter(f)[s.take(i).filter(f).len() as int] == s[i],
{
    reveal(Seq::filter);
    assert(s.take(i + 1).drop_last() =~= s.take(i));
    assert(s.take(i + 1).last() == s[i]);
    assert(s.take(i + 1).filter(f) == s.take(i).filter(f).push(s[i]));
    assert(s =~= s.take(i + 1) + s.skip(i + 1));
    Seq::filter_distributes_over_add(s.take(i + 1), s.skip(i + 1), f);
}

/// Two lists with the same key at each place and the same entries under each
/// key, in the same order, are the same list.
proof fn lemma_ties_decide(a: Seq<Model>, b: Seq<Model>)
    requires
        a.map_values(|m: Model| model_key(m)) == b.map_values(|m: Model| model_key(m)),
        forall|k: MatchKey| #[trigger] key_filter(a, k) == key_filter(b, k),
    ensures
        a == b,
{
    let ka = a.map_values(|m: Model| model_key(m));
    let kb = b.map_values(|m: Model| model_key(m));
    assert(a.len() == ka.len() && b.len() == kb.len());
    assert forall|i: int| 0 <= i < a.len() implies a[i] == b[i] by {
        let k = model_key(a[i]);
        assert(ka[i] == kb[i]);
        let f = |m: Model| model_key(m) == k;
        lemma_filter_rank(a, f, i);
        lemma_filter_rank(b, f, i);
        lemma_filter_map(a.take(i), |m: Model| model_key(m), f, |x: MatchKey| x == k);
        lemma_filter_map(b.take(i), |m: Model| model_key(m), f, |x: MatchKey| x == k);
        assert(a.take(i).map_values(|m: Model| model_key(m)) =~= ka.take(i));
        assert(b.take(i).map_values(|m: Model| model_key(m)) =~= kb.take(i));
        assert(ka.take(i) == kb.take(i));
        assert(a.take(i).filter(f).len() == a.take(i).filter(f).map_values(|m: Model| model_key(m)).len());
        assert(b.take(i).filter(f).len() == b.take(i).filter(f).map_values(|m: Model| model_key(m)).len());
        assert(a.take(i).filter(f).len() == b.take(i).filter(f).len());
        assert(key_filter(a, k) == a.filter(f));
        assert(key_filter(b, k) == b.filter(f));
        assert(key_filter(a, k) == key_filter(b, k));
    }
    assert(a =~= b);
}

/// The records under a key, as files and facts, are the files and facts
/// under that key.
proof fn lemma_models_with_key(s: Seq<MatchRecord>, k: MatchKey)
    ensures
        models_of(with_key(s, k)) == key_filter(models_of(s), k),
{
    lemma_filter_map(
        s,
        |r: MatchRecord| record_model(r),
        |m: MatchRecord| match_key(m) == k,
        |m: Model| model_key(m) == k,
    );
}

/// Two texts with the same UTF-8 bytes are the same text.
pub(crate) proof fn lemma_encode_injective(a: Seq<char>, b: Seq<char>)
    requires
        encode_utf8(a) == encode_utf8(b),
    ensures
        a == b,
{
    vstd::utf8::encode_utf8_decode_utf8(a);
    vstd::utf8::encode_utf8_decode_utf8(b);
}

/// A filter that keeps nothing of a sequence leaves it empty.
proof fn lemma_filter_nothing<A>(s: Seq<A>, f: spec_fn(A) -> bool)
    requires
        forall|i: int| 0 <= i < s.len() ==> !f(#[trigger] s[i]),
    ensures
        s.filter(f) == Seq::<A>::empty(),
{
    s.lemma_all_neg_filter_empty(f);
    assert(s.filter(f) =~= Seq::<A>::empty());
}

/// Whether facts found under a path have a sort key.
pub open spec fn fact_key_pred(path: Seq<char>, k: MatchKey) -> spec_fn(MatchFacts) -> bool {
    |x: MatchFacts| model_key((path, x)) == k
}

/// No two groups hold facts with the same rule id.
pub open spec fn ids_distinct(groups: Seq<Seq<MatchFacts>>) -> bool {
    forall|j1: int, j2: int, a: int, b: int| 0 <= j1 < groups.len() && 0 <= j2 < groups.len() && j1 != j2
        && 0 <= a < groups[j1].len() && 0 <= b < groups[j2].len()
        ==> (#[trigger] groups[j1][a]).rule_id != (#[trigger] groups[j2][b]).rule_id
}

/// However a collection of rule groups is listed, no two of its groups hold
/// facts with the same rule id: no two rules that match share an id.
pub open spec fn distinct_rule_groups(groups: Multiset<Seq<MatchFacts>>) -> bool {
    forall|g: Seq<Seq<MatchFacts>>| #[trigger] g.to_multiset() == groups ==> ids_distinct(g)
}

/// A file's segment holds only entries under its path.
proof fn lemma_segment_other_path(files: Seq<String>, groups: Seq<Seq<Seq<MatchFacts>>>, p: int, k: MatchKey)
    requires
        0 <= p < files.len(),
        p < groups.len(),
        encode_utf8(files[p]@) != k.0,
    ensures
        key_filter(file_segment(files, groups, p), k) == Seq::<Model>::empty(),
{
    let seg = file_segment(files, groups, p);
    assert forall|i: int| 0 <= i < seg.len() implies !((|m: Model| model_key(m) == k)(#[trigger] seg[i])) by {
        assert(seg[i].0 == files[p]@);
    }
    lemma_filter_nothing(seg, |m: Model| model_key(m) == k);
}

/// No listed file goes by the key's path: nothing is listed under the key.
proof fn lemma_listed_none(files: Seq<String>, groups: Seq<Seq<Seq<MatchFacts>>>, n: int, k: MatchKey)
    requires
        0 <= n <= files.len(),
        n <= groups.len(),
        forall|q: int| 0 <= q < n ==> encode_utf8(#[trigger] files[q]@) != k.0,
    ensures
        key_filter(listed_models(files, groups, n), k) == Seq::<Model>::empty(),
    decreases n,
{
    if n > 0 {
        lemma_listed_none(files, groups, n - 1, k);
        lemma_segment_other_path(files, groups, n - 1, k);
        Seq::filter_distributes_over_add(listed_models(files, groups, n - 1), file_segment(files, groups, n - 1),
            |m: Model| model_key(m) == k);
        assert(Seq::<Model>::empty() + Seq::<Model>::empty() =~= Seq::<Model>::empty());
    }
}

/// One listed file goes by the key's path: what is listed under the key is
/// what its segment holds under it.
proof fn lemma_listed_one(files: Seq<String>, groups: Seq<Seq<Seq<MatchFacts>>>, n: int, k: MatchKey, p0: int)
    requires
        0 <= p0 < n <= files.len(),
        n <= groups.len(),
        encode_utf8(files[p0]@) == k.0,
        forall|q: int| 0 <= q < n && q != p0 ==> encode_utf8(#[trigger] files[q]@) != k.0,
    ensures
        key_filter(listed_models(files, groups, n), k) == key_filter(file_segment(files, groups, p0), k),
    decreases n,
{
    Seq::filter_distributes_over_add(listed_models(files, groups, n - 1), file_segment(files, groups, n - 1),
        |m: Model| model_key(m) == k);
    if p0 == n - 1 {
        lemma_listed_none(files, groups, n - 1, k);
        assert(Seq::<Model>::empty() + key_filter(file_segment(files, groups, p0), k)
            =~= key_filter(file_segment(files, groups, p0), k));
    } else {
        lemma_listed_one(files, groups, n - 1, k, p0);
        lemma_segment_other_path(files, groups, n - 1, k);
        assert(key_filter(file_segment(files, groups, p0), k) + Seq::<Model>::empty()
            =~= key_filter(file_segment(files, groups, p0), k));
    }
}

/// A group whose rule id is not the key's contributes nothing under it.
proof fn lemma_group_other_id(group: Seq<MatchFacts>, path: Seq<char>, k: MatchKey)
    requires
        forall|a: int| 0 <= a < group.len() ==> encode_utf8((#[trigger] group[a]).rule_id) != k.2,
    ensures
        group.filter(fact_key_pred(path, k)) == Seq::<MatchFacts>::empty(),
{
    assert forall|a: int| 0 <= a < group.len() implies !fact_key_pred(path, k)(#[trigger] group[a]) by {}
    lemma_filter_nothing(group, fact_key_pred(path, k));
}

/// Rule groups none of which has the key's rule id contribute nothing.
proof fn lemma_concat_filter_none(g: Seq<Seq<MatchFacts>>, path: Seq<char>, k: MatchKey)
    requires
        one_rule_per_group(g),
        forall|j: int| 0 <= j < g.len() && (#[trigger] g[j]).len() > 0 ==> encode_utf8(g[j][0].rule_id) != k.2,
    ensures
        concat_groups(g).filter(fact_key_pred(path, k)) == Seq::<MatchFacts>::empty(),
    decreases g.len(),
{
    if g.len() > 0 {
        let last: int = g.len() - 1;
        let rest = g.drop_last();
        assert(one_rule_per_group(rest)) by {
            assert forall|j: int, a: int, b: int| 0 <= j < rest.len() && 0 <= a < rest[j].len() && 0 <= b < rest[j].len()
                implies (#[trigger] rest[j][a]).rule_id == (#[trigger] rest[j][b]).rule_id by {
                assert(rest[j] == g[j]);
                assert(g[j][a].rule_id == g[j][b].rule_id);
            }
        }
        assert forall|j: int| 0 <= j < rest.len() && (#[trigger] rest[j]).len() > 0 implies
            encode_utf8(rest[j][0].rule_id) != k.2 by {
            assert(rest[j] == g[j]);
        }
        lemma_concat_filter_none(rest, path, k);
        assert forall|a: int| 0 <= a < g[last].len() implies encode_utf8((#[trigger] g[last][a]).rule_id) != k.2 by {
            assert(g[last][a].rule_id == g[last][0].rule_id);
        }
        lemma_group_other_id(g[last], path, k);
        Seq::filter_distributes_over_add(concat_groups(rest), g.last(), fact_key_pred(path, k));
        assert(Seq::<MatchFacts>::empty() + Seq::<MatchFacts>::empty() =~= Seq::<MatchFacts>::empty());
    }
}

/// Among rule groups with distinct ids, what the key keeps comes from the
/// one group with the key's rule id.
proof fn lemma_concat_filter_one(g: Seq<Seq<MatchFacts>>, path: Seq<char>, k: MatchKey, j: int)
    requires
        one_rule_per_group(g),
        ids_distinct(g),
        0 <= j < g.len(),
        g[j].len() > 0,
        encode_utf8(g[j][0].rule_id) == k.2,
    ensures
        concat_groups(g).filter(fact_key_pred(path, k)) == g[j].filter(fact_key_pred(path, k)),
    decreases g.len(),
{
    let last: int = g.len() - 1;
    let rest = g.drop_last();
    assert(one_rule_per_group(rest)) by {
        assert forall|i: int, a: int, b: int| 0 <= i < rest.len() && 0 <= a < rest[i].len() && 0 <= b < rest[i].len()
            implies (#[trigger] rest[i][a]).rule_id == (#[trigger] rest[i][b]).rule_id by {
            assert(rest[i] == g[i]);
            assert(g[i][a].rule_id == g[i][b].rule_id);
        }
    }
    Seq::filter_distributes_over_add(concat_groups(rest), g.last(), fact_key_pred(path, k));
    if j == last {
        assert forall|i: int| 0 <= i < rest.len() && (#[trigger] rest[i]).len() > 0 implies
            encode_utf8(rest[i][0].rule_id) != k.2 by {
            assert(rest[i] == g[i]);
            assert(g[i][0].rule_id != g[j][0].rule_id);
            if encode_utf8(rest[i][0].rule_id) == k.2 {
                lemma_encode_injective(rest[i][0].rule_id, g[j][0].rule_id);
            }
        }
        lemma_concat_filter_none(rest, path, k);
        assert(Seq::<MatchFacts>::empty() + g[j].filter(fact_key_pred(path, k)) =~= g[j].filter(fact_key_pred(path, k)));
    } else {
        assert(ids_distinct(rest)) by {
            assert forall|j1: int, j2: int, a: int, b: int| 0 <= j1 < rest.len() && 0 <= j2 < rest.len() && j1 != j2
                && 0 <= a < rest[j1].len() && 0 <= b < rest[j2].len()
                implies (#[trigger] rest[j1][a]).rule_id != (#[trigger] rest[j2][b]).rule_id by {
                assert(rest[j1] == g[j1] && rest[j2] == g[j2]);
                assert(g[j1][a].rule_id != g[j2][b].rule_id);
            }
        }
        assert(rest[j] == g[j]);
        lemma_concat_filter_one(rest, path, k, j);
        assert forall|a: int| 0 <= a < g[last].len() implies encode_utf8((#[trigger] g[last][a]).rule_id) != k.2 by {
            assert(g[last][a].rule_id != g[j][0].rule_id);
            if encode_utf8(g[last][a].rule_id) == k.2 {
                lemma_encode_injective(g[last][a].rule_id, g[j][0].rule_id);
            }
        }
        lemma_group_other_id(g[last], path, k);
        assert(g[j].filter(fact_key_pred(path, k)) + Seq::<MatchFacts>::empty() =~= g[j].filter(fact_key_pred(path, k)));
    }
}

/// Two listings of the same rule groups with distinct ids keep the same
/// facts under a key, in the same order.
proof fn lemma_groups_filter_agree(g1: Seq<Seq<MatchFacts>>, g2: Seq<Seq<MatchFacts>>, path: Seq<char>, k: MatchKey)
    requires
        g1.to_multiset() == g2.to_multiset(),
        one_rule_per_group(g1),
        one_rule_per_group(g2),
        ids_distinct(g1),
        ids_distinct(g2),
    ensures
        concat_groups(g1).filter(fact_key_pred(path, k)) == concat_groups(g2).filter(fact_key_pred(path, k)),
{
    broadcast use vstd::seq_lib::group_to_multiset_ensures;
    if exists|j: int| 0 <= j < g1.len() && (#[trigger] g1[j]).len() > 0 && encode_utf8(g1[j][0].rule_id) == k.2 {
        let j1: int = choose|j: int| 0 <= j < g1.len() && (#[trigger] g1[j]).len() > 0 && encode_utf8(g1[j][0].rule_id) == k.2;
        assert(g1.to_multiset().count(g1[j1]) > 0);
        assert(g2.contains(g1[j1]));
        let j2: int = choose|j: int| 0 <= j < g2.len() && g2[j] == g1[j1];
        lemma_concat_filter_one(g1, path, k, j1);
        lemma_concat_filter_one(g2, path, k, j2);
    } else {
        assert forall|j: int| 0 <= j < g2.len() && (#[trigger] g2[j]).len() > 0 implies
            encode_utf8(g2[j][0].rule_id) != k.2 by {
            assert(g2.to_multiset().count(g2[j]) > 0);
            assert(g1.contains(g2[j]));
            let i: int = choose|i: int| 0 <= i < g1.len() && g1[i] == g2[j];
            assert(g1[i].len() > 0);
        }
        lemma_concat_filter_none(g1, path, k);
        lemma_concat_filter_none(g2, path, k);
    }
}

/// What a file's segment holds under a key: what its rule groups hold under
/// it, under the file's path.
proof fn lemma_segment_key_filter(files: Seq<String>, groups: Seq<Seq<Seq<MatchFacts>>>, p: int, k: MatchKey)
    requires
        0 <= p < files.len(),
        p < groups.len(),
    ensures
        key_filter(file_segment(files, groups, p), k)
            == concat_groups(groups[p]).filter(fact_key_pred(files[p]@, k)).map_values(|f: MatchFacts| (files[p]@, f)),
{
    lemma_filter_map(concat_groups(groups[p]), |f: MatchFacts| (files[p]@, f), fact_key_pred(files[p]@, k),
        |m: Model| model_key(m) == k);
}

/// No listed path occurs twice.
pub open spec fn paths_distinct(files: Seq<String>) -> bool {
    forall|i: int, j: int| 0 <= i < files.len() && 0 <= j < files.len() && i != j
        ==> (#[trigger] files[i])@ != (#[trigger] files[j])@
}

/// Two listings of the same files with the same outcomes, no path twice and
/// no two matching rules sharing an id, hold the same entries under every
/// key, in the same order.
proof fn lemma_listed_agree(
    yaml: Seq<char>,
    language: SupportLang,
    files1: Seq<String>,
    outcomes1: Seq<FileOutcome>,
    found1: Seq<MatchRecord>,
    groups1: Seq<Seq<Seq<MatchFacts>>>,
    files2: Seq<String>,
    outcomes2: Seq<FileOutcome>,
    found2: Seq<MatchRecord>,
    groups2: Seq<Seq<Seq<MatchFacts>>>,
    k: MatchKey,
)
    requires
        outcomes1.len() == files1.len(),
        outcomes2.len() == files2.len(),
        found_by_rule_groups(yaml, language, files1, outcomes1, found1, groups1),
        found_by_rule_groups(yaml, language, files2, outcomes2, found2, groups2),
        file_pairs(files1, outcomes1).to_multiset() == file_pairs(files2, outcomes2).to_multiset(),
        paths_distinct(files1),
        paths_distinct(files2),
        forall|i: int| 0 <= i < files1.len() && (#[trigger] outcomes1[i]).0 == 2
            ==> distinct_rule_groups(scan_result(yaml, outcomes1[i].1, language)),
    ensures
        key_filter(listed_models(files1, groups1, files1.len() as int), k)
            == key_filter(listed_models(files2, groups2, files2.len() as int), k),
{
    broadcast use vstd::seq_lib::group_to_multiset_ensures;
    let pairs1 = file_pairs(files1, outcomes1);
    let pairs2 = file_pairs(files2, outcomes2);
    if exists|p: int| 0 <= p < files1.len() && encode_utf8((#[trigger] files1[p])@) == k.0 {
        let p1: int = choose|p: int| 0 <= p < files1.len() && encode_utf8((#[trigger] files1[p])@) == k.0;
        assert(pairs1.to_multiset().count(pairs1[p1]) > 0);
        assert(pairs2.contains(pairs1[p1]));
        let p2: int = choose|p: int| 0 <= p < pairs2.len() && pairs2[p] == pairs1[p1];
        let path = files1[p1]@;
        assert(files2[p2]@ == path && outcomes2[p2] == outcomes1[p1]);
        assert forall|q: int| 0 <= q < files1.len() && q != p1 implies encode_utf8((#[trigger] files1[q])@) != k.0 by {
            if encode_utf8(files1[q]@) == k.0 {
                lemma_encode_injective(files1[q]@, files1[p1]@);
            }
        }
        assert forall|q: int| 0 <= q < files2.len() && q != p2 implies encode_utf8((#[trigger] files2[q])@) != k.0 by {
            if encode_utf8(files2[q]@) == k.0 {
                lemma_encode_injective(files2[q]@, files2[p2]@);
            }
        }
        lemma_listed_one(files1, groups1, files1.len() as int, k, p1);
        lemma_listed_one(files2, groups2, files2.len() as int, k, p2);
        lemma_segment_key_filter(files1, groups1, p1, k);
        lemma_segment_key_filter(files2, groups2, p2, k);
        if outcomes1[p1].0 == 2 {
            let m = scan_result(yaml, outcomes1[p1].1, language);
            assert(groups1[p1].to_multiset() == m);
            assert(groups2[p2].to_multiset() == m);
            assert(distinct_rule_groups(m));
            assert(ids_distinct(groups1[p1]));
            assert(ids_distinct(groups2[p2]));
            assert(one_rule_per_group(groups1[p1]));
            assert(one_rule_per_group(groups2[p2]));
            lemma_groups_filter_agree(groups1[p1], groups2[p2], path, k);
        } else {
            assert(groups1[p1].len() == 0 && groups2[p2].len() == 0);
            assert(groups1[p1] =~= groups2[p2]);
        }
        assert(concat_groups(groups1[p1]).filter(fact_key_pred(path, k)).map_values(|f: MatchFacts| (files1[p1]@, f))
            =~= concat_groups(groups2[p2]).filter(fact_key_pred(path, k)).map_values(|f: MatchFacts| (files2[p2]@, f)));
    } else {
        assert forall|q: int| 0 <= q < files2.len() implies encode_utf8((#[trigger] files2[q])@) != k.0 by {
            if encode_utf8(files2[q]@) == k.0 {
                assert(pairs2.to_multiset().count(pairs2[q]) > 0);
                assert(pairs1.contains(pairs2[q]));
                let i: int = choose|i: int| 0 <= i < pairs1.len() && pairs1[i] == pairs2[q];
                assert(files1[i]@ == files2[q]@);
            }
        }
        lemma_listed_none(files1, groups1, files1.len() as int, k);
        lemma_listed_none(files2, groups2, files2.len() as int, k);
    }
}

/// Scanning the same files listed in another order, each read and parsed
/// with the same outcome, reports the same matches record for record (each
/// record's file and facts), where no path is listed twice and no two rules
/// that match in one file share an id: within one rule, ties keep the order
/// in which the scan finds them.
pub proof fn lemma_scan_records_independent_of_file_order<F: Fn(&String) -> Result<String, String>>(
    read_text: F,
    language: SupportLang,
    yaml: Seq<char>,
    files1: Seq<String>,
    outcomes1: Seq<FileOutcome>,
    found1: Seq<MatchRecord>,
    response1: ScanResponse,
    files2: Seq<String>,
    outcomes2: Seq<FileOutcome>,
    found2: Seq<MatchRecord>,
    response2: ScanResponse,
)
    requires
        scan_explained(read_text, language, yaml, files1, outcomes1, found1, response1),
        scan_explained(read_text, language, yaml, files2, outcomes2, found2, response2),
        file_pairs(files1, outcomes1).to_multiset() == file_pairs(files2, outcomes2).to_multiset(),
        paths_distinct(files1),
        paths_distinct(files2),
        forall|i: int| 0 <= i < files1.len() && (#[trigger] outcomes1[i]).0 == 2
            ==> distinct_rule_groups(scan_result(yaml, outcomes1[i].1, language)),
    ensures
        models_of(response1.matches@) == models_of(response2.matches@),
{
    lemma_scan_independent_of_file_order(read_text, language, yaml, files1, outcomes1, found1, response1,
        files2, outcomes2, found2, response2);
    let r1 = response1.matches@;
    let r2 = response2.matches@;
    assert(models_of(r1).map_values(|m: Model| model_key(m)) =~= r1.map_values(|m: MatchRecord| match_key(m)));
    assert(models_of(r2).map_values(|m: Model| model_key(m)) =~= r2.map_values(|m: MatchRecord| match_key(m)));
    let groups1 = choose|g: Seq<Seq<Seq<MatchFacts>>>| found_by_rule_groups(yaml, language, files1, outcomes1, found1, g);
    let groups2 = choose|g: Seq<Seq<Seq<MatchFacts>>>| found_by_rule_groups(yaml, language, files2, outcomes2, found2, g);
    assert forall|k: MatchKey| #[trigger] key_filter(models_of(r1), k) == key_filter(models_of(r2), k) by {
        lemma_models_with_key(r1, k);
        lemma_models_with_key(r2, k);
        lemma_models_with_key(found1, k);
        lemma_models_with_key(found2, k);
        assert(with_key(r1, k) == with_key(found1, k));
        assert(with_key(r2, k) == with_key(found2, k));
        lemma_listed_agree(yaml, language, files1, outcomes1, found1, groups1, files2, outcomes2, found2, groups2, k);
    }
    lemma_ties_decide(models_of(r1), models_of(r2));
}

} // verus!
