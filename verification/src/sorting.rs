//! The order of reported matches: by file, then start byte, then rule id,
//! with matches that tie on all three kept in the order they were found.

use vstd::prelude::*;
use vstd::utf8::encode_utf8;
use crate::order::{TextOrder, text_order, bytes_lt, lemma_bytes_lt_irreflexive,
    lemma_bytes_lt_transitive, lemma_bytes_lt_total, lemma_bytes_lt_asymmetric};
use crate::records::MatchRecord;

verus! {

/// What matches are ordered by: the file's bytes, the start byte offset and
/// the rule id's bytes.
pub type MatchKey = (Seq<u8>, usize, Seq<u8>);

/// The sort key of a match.
pub open spec fn match_key(m: MatchRecord) -> MatchKey {
    (encode_utf8(m.file@), m.range.byte_offset.start, encode_utf8(m.rule_id@))
}

/// Lexicographic order on sort keys, each text compared as std compares
/// strings.
pub open spec fn key_lt(a: MatchKey, b: MatchKey) -> bool {
    ||| bytes_lt(a.0, b.0)
    ||| a.0 == b.0 && a.1 < b.1
    ||| a.0 == b.0 && a.1 == b.1 && bytes_lt(a.2, b.2)
}

/// No match in the sequence has a key smaller than one before it.
pub open spec fn matches_sorted(s: Seq<MatchRecord>) -> bool {
    forall|i: int, j: int| 0 <= i < j < s.len() ==> !key_lt(match_key(#[trigger] s[j]), match_key(#[trigger] s[i]))
}

/// The matches of a sequence that have a given key, in their order there.
pub open spec fn with_key(s: Seq<MatchRecord>, k: MatchKey) -> Seq<MatchRecord> {
    s.filter(|m: MatchRecord| match_key(m) == k)
}

/// Two sequences hold the same matches under every key, in the same order:
/// one is a stable rearrangement of the other.
pub open spec fn same_order_per_key(a: Seq<MatchRecord>, b: Seq<MatchRecord>) -> bool {
    forall|k: MatchKey| #[trigger] with_key(a, k) == with_key(b, k)
}

proof fn lemma_key_lt_irreflexive(a: MatchKey)
    ensures
        !key_lt(a, a),
{
    lemma_bytes_lt_irreflexive(a.0);
    lemma_bytes_lt_irreflexive(a.2);
}

proof fn lemma_key_lt_transitive(a: MatchKey, b: MatchKey, c: MatchKey)
    requires
        key_lt(a, b),
        key_lt(b, c),
    ensures
        key_lt(a, c),
{
    if bytes_lt(a.0, b.0) && bytes_lt(b.0, c.0) {
        lemma_bytes_lt_transitive(a.0, b.0, c.0);
    } else if bytes_lt(a.2, b.2) && bytes_lt(b.2, c.2) {
        lemma_bytes_lt_transitive(a.2, b.2, c.2);
    }
}

proof fn lemma_key_lt_total(a: MatchKey, b: MatchKey)
    ensures
        a == b || key_lt(a, b) || key_lt(b, a),
{
    lemma_bytes_lt_total(a.0, b.0);
    lemma_bytes_lt_total(a.2, b.2);
    if a.0 =~= b.0 && a.1 == b.1 && a.2 =~= b.2 {
        assert(a == b);
    }
}

proof fn lemma_key_lt_asymmetric(a: MatchKey, b: MatchKey)
    requires
        key_lt(a, b),
    ensures
        !key_lt(b, a),
{
    if key_lt(b, a) {
        lemma_key_lt_transitive(a, b, a);
        lemma_key_lt_irreflexive(a);
    }
}

/// Whether match `a` sorts before match `b`.
fn match_before(a: &MatchRecord, b: &MatchRecord) -> (res: bool)
    ensures
        res == key_lt(match_key(*a), match_key(*b)),
{
    proof {
        lemma_bytes_lt_irreflexive(encode_utf8(a.file@));
        lemma_bytes_lt_irreflexive(encode_utf8(a.rule_id@));
    }
    match text_order(a.file.as_str(), b.file.as_str()) {
        TextOrder::Less => true,
        TextOrder::Greater => {
            proof {
                lemma_bytes_lt_asymmetric(encode_utf8(b.file@), encode_utf8(a.file@));
                if encode_utf8(a.file@) == encode_utf8(b.file@) {
                    lemma_bytes_lt_irreflexive(encode_utf8(a.file@));
                }
            }
            false
        },
        TextOrder::Equal => {
            if a.range.byte_offset.start < b.range.byte_offset.start {
                true
            } else if a.range.byte_offset.start > b.range.byte_offset.start {
                false
            } else {
                match text_order(a.rule_id.as_str(), b.rule_id.as_str()) {
                    TextOrder::Less => true,
                    TextOrder::Equal => false,
                    TextOrder::Greater => {
                        proof {
                            lemma_bytes_lt_asymmetric(encode_utf8(b.rule_id@), encode_utf8(a.rule_id@));
                        }
                        false
                    },
                }
            }
        },
    }
}

/// Inserting an element that the filter drops leaves the filtered sequence as it was;
/// one that it keeps lands right after what the filter keeps before it.
proof fn lemma_filter_insert(s: Seq<MatchRecord>, p: int, x: MatchRecord, f: spec_fn(MatchRecord) -> bool)
    requires
        0 <= p <= s.len(),
    ensures
        s.insert(p, x).filter(f) == s.take(p).filter(f) + seq![x].filter(f) + s.skip(p).filter(f),
        s.filter(f) == s.take(p).filter(f) + s.skip(p).filter(f),
{
    assert(s.insert(p, x) =~= s.take(p) + seq![x] + s.skip(p));
    assert(s =~= s.take(p) + s.skip(p));
    Seq::filter_distributes_over_add(s.take(p) + seq![x], s.skip(p), f);
    Seq::filter_distributes_over_add(s.take(p), seq![x], f);
    Seq::filter_distributes_over_add(s.take(p), s.skip(p), f);
}

proof fn lemma_filter_single(x: MatchRecord, f: spec_fn(MatchRecord) -> bool)
    ensures
        seq![x].filter(f) == (if f(x) { seq![x] } else { Seq::<MatchRecord>::empty() }),
{
    reveal_with_fuel(Seq::filter, 2);
    assert(seq![x].drop_last() =~= Seq::<MatchRecord>::empty());
}

proof fn lemma_filter_none(s: Seq<MatchRecord>, f: spec_fn(MatchRecord) -> bool)
    requires
        forall|i: int| 0 <= i < s.len() ==> !f(#[trigger] s[i]),
    ensures
        s.filter(f) == Seq::<MatchRecord>::empty(),
{
    s.lemma_all_neg_filter_empty(f);
}

/// Filtering keeps every copy of what it keeps and nothing else.
proof fn lemma_filter_count(s: Seq<MatchRecord>, f: spec_fn(MatchRecord) -> bool, x: MatchRecord)
    ensures
        s.filter(f).to_multiset().count(x) == (if f(x) { s.to_multiset().count(x) } else { 0 }),
    decreases s.len(),
{
    broadcast use vstd::seq_lib::group_to_multiset_ensures;
    reveal(Seq::filter);
    if s.len() == 0 {
    } else {
        let rest = s.drop_last();
        lemma_filter_count(rest, f, x);
        assert(s =~= rest.push(s.last()));
    }
}

/// Holding the same matches under every key in the same order, two sequences
/// hold the same matches.
pub proof fn lemma_same_order_same_matches(a: Seq<MatchRecord>, b: Seq<MatchRecord>)
    requires
        same_order_per_key(a, b),
    ensures
        a.to_multiset() == b.to_multiset(),
{
    assert forall|x: MatchRecord| a.to_multiset().count(x) == b.to_multiset().count(x) by {
        let k: MatchKey = match_key(x);
        let f = |m: MatchRecord| match_key(m) == k;
        assert(with_key(a, k) == with_key(b, k));
        lemma_filter_count(a, f, x);
        lemma_filter_count(b, f, x);
    }
    assert(a.to_multiset() =~= b.to_multiset());
}

/// Sorted key lists that hold the same keys, counted, are the same list.
proof fn lemma_sorted_keys_unique(a: Seq<MatchKey>, b: Seq<MatchKey>)
    requires
        forall|i: int, j: int| 0 <= i < j < a.len() ==> !key_lt(#[trigger] a[j], #[trigger] a[i]),
        forall|i: int, j: int| 0 <= i < j < b.len() ==> !key_lt(#[trigger] b[j], #[trigger] b[i]),
        a.to_multiset() == b.to_multiset(),
    ensures
        a == b,
    decreases a.len(),
{
    broadcast use vstd::seq_lib::group_to_multiset_ensures;
    assert(a.to_multiset().len() == a.len());
    assert(b.to_multiset().len() == b.len());
    if a.len() > 0 {
        assert(a.to_multiset().count(a[0]) > 0);
        assert(b.to_multiset().count(b[0]) > 0);
        assert(b.contains(a[0]));
        assert(a.contains(b[0]));
        let i: int = choose|i: int| 0 <= i < a.len() && a[i] == b[0];
        let j: int = choose|j: int| 0 <= j < b.len() && b[j] == a[0];
        if i > 0 {
            assert(!key_lt(a[i], a[0]));
        }
        if j > 0 {
            assert(!key_lt(b[j], b[0]));
        }
        lemma_key_lt_irreflexive(a[0]);
        lemma_key_lt_total(a[0], b[0]);
        assert(a[0] == b[0]);
        assert(a.remove(0) =~= a.drop_first());
        assert(b.remove(0) =~= b.drop_first());
        assert(a.drop_first().to_multiset() =~= b.drop_first().to_multiset());
        lemma_sorted_keys_unique(a.drop_first(), b.drop_first());
        assert(a =~= seq![a[0]] + a.drop_first());
        assert(b =~= seq![b[0]] + b.drop_first());
    }
}

/// Two sorted lists of matches that hold the same keys, counted, list those
/// keys in the same order: sorting leaves freedom only among ties.
pub proof fn lemma_sorted_same_keys(a: Seq<MatchRecord>, b: Seq<MatchRecord>)
    requires
        matches_sorted(a),
        matches_sorted(b),
        a.map_values(|m: MatchRecord| match_key(m)).to_multiset()
            == b.map_values(|m: MatchRecord| match_key(m)).to_multiset(),
    ensures
        a.map_values(|m: MatchRecord| match_key(m)) == b.map_values(|m: MatchRecord| match_key(m)),
{
    let ka = a.map_values(|m: MatchRecord| match_key(m));
    let kb = b.map_values(|m: MatchRecord| match_key(m));
    assert forall|i: int, j: int| 0 <= i < j < ka.len() implies !key_lt(#[trigger] ka[j], #[trigger] ka[i]) by {
        assert(!key_lt(match_key(a[j]), match_key(a[i])));
    }
    assert forall|i: int, j: int| 0 <= i < j < kb.len() implies !key_lt(#[trigger] kb[j], #[trigger] kb[i]) by {
        assert(!key_lt(match_key(b[j]), match_key(b[i])));
    }
    lemma_sorted_keys_unique(ka, kb);
}

/// Sorts matches by file, start byte and rule id; matches that tie keep
/// the order in which they came.
pub fn sort_matches(matches: Vec<MatchRecord>) -> (res: Vec<MatchRecord>)
    ensures
        matches_sorted(res@),
        same_order_per_key(res@, matches@),
        res@.to_multiset() == matches@.to_multiset(),
{
    let ghost input = matches@;
    let mut rest = matches;
    let mut sorted: Vec<MatchRecord> = Vec::new();
    while rest.len() > 0
        invariant
            rest@ == input.take(rest@.len() as int),
            rest@.len() <= input.len(),
            matches_sorted(sorted@),
            forall|k: MatchKey| #[trigger] with_key(sorted@, k) == with_key(input.skip(rest@.len() as int), k),
        decreases rest@.len(),
    {
        let ghost t = rest@.len() - 1;
        let x = rest.pop().unwrap();
        proof {
            assert(x == input[t]);
            assert(rest@ =~= input.take(t));
        }
        // The first position whose match does not sort before `x`.
        let mut lo: usize = 0;
        let mut hi: usize = sorted.len();
        while lo < hi
            invariant
                lo <= hi <= sorted@.len(),
                matches_sorted(sorted@),
                forall|j: int| 0 <= j < lo ==> key_lt(match_key(#[trigger] sorted@[j]), match_key(x)),
                forall|j: int| hi <= j < sorted@.len() ==> !key_lt(match_key(#[trigger] sorted@[j]), match_key(x)),
            decreases hi - lo,
        {
            let mid: usize = lo + (hi - lo) / 2;
            if match_before(&sorted[mid], &x) {
                proof {
                    assert forall|j: int| 0 <= j <= mid implies key_lt(match_key(#[trigger] sorted@[j]), match_key(x)) by {
                        if j < mid {
                            assert(!key_lt(match_key(sorted@[mid as int]), match_key(sorted@[j])));
                            lemma_key_lt_total(match_key(sorted@[j]), match_key(sorted@[mid as int]));
                            if key_lt(match_key(sorted@[j]), match_key(sorted@[mid as int])) {
                                lemma_key_lt_transitive(match_key(sorted@[j]), match_key(sorted@[mid as int]), match_key(x));
                            }
                        }
                    }
                }
                lo = mid + 1;
            } else {
                proof {
                    assert forall|j: int| mid <= j < sorted@.len() implies !key_lt(match_key(#[trigger] sorted@[j]), match_key(x)) by {
                        if j > mid && key_lt(match_key(sorted@[j]), match_key(x)) {
                            assert(!key_lt(match_key(sorted@[j]), match_key(sorted@[mid as int])));
                            lemma_key_lt_total(match_key(sorted@[j]), match_key(sorted@[mid as int]));
                            if key_lt(match_key(sorted@[mid as int]), match_key(sorted@[j])) {
                                lemma_key_lt_transitive(match_key(sorted@[mid as int]), match_key(sorted@[j]), match_key(x));
                            }
                        }
                    }
                }
                hi = mid;
            }
        }
        let ghost before = sorted@;
        let ghost p = lo as int;
        sorted.insert(lo, x);
        proof {
            let after = sorted@;
            assert(after =~= before.insert(p, x));
            assert forall|i: int, j: int| 0 <= i < j < after.len() implies !key_lt(match_key(#[trigger] after[j]), match_key(#[trigger] after[i])) by {
                if i < p && j == p {
                    lemma_key_lt_asymmetric(match_key(before[i]), match_key(x));
                } else if i < p && j > p {
                    assert(after[j] == before[j - 1]);
                } else if i == p && j > p {
                    assert(after[j] == before[j - 1]);
                } else if i > p {
                    assert(after[i] == before[i - 1]);
                    assert(after[j] == before[j - 1]);
                }
            }
            let suffix = input.skip(t);
            assert(suffix =~= seq![x] + input.skip(t + 1));
            assert forall|k: MatchKey| #[trigger] with_key(after, k) == with_key(suffix, k) by {
                let f = |m: MatchRecord| match_key(m) == k;
                lemma_filter_insert(before, p, x, f);
                lemma_filter_single(x, f);
                Seq::filter_distributes_over_add(seq![x], input.skip(t + 1), f);
                assert(with_key(before, k) == with_key(input.skip(t + 1), k));
                if match_key(x) == k {
                    assert forall|i: int| 0 <= i < before.take(p).len() implies !f(#[trigger] before.take(p)[i]) by {
                        lemma_key_lt_irreflexive(k);
                    }
                    lemma_filter_none(before.take(p), f);
                    assert(before.take(p).filter(f) + seq![x] + before.skip(p).filter(f) =~= seq![x] + before.skip(p).filter(f));
                } else {
                    assert(before.take(p).filter(f) + Seq::<MatchRecord>::empty() =~= before.take(p).filter(f));
                    assert(Seq::<MatchRecord>::empty() + input.skip(t + 1).filter(f) =~= input.skip(t + 1).filter(f));
                }
            }
        }
    }
    proof {
        assert(input.skip(0) =~= input);
        lemma_same_order_same_matches(sorted@, input);
    }
    sorted
}

} // verus!
