//! Collecting the metavariables captured by one match into its record.

use vstd::prelude::*;
use crate::records::{CaptureRecord, MetaVariablesRecord};

verus! {

/// One captured metavariable with the records of what it captured.
pub enum Capture {
    /// A name that captured one node.
    Single(String, CaptureRecord),
    /// A name that captured a list of nodes.
    Multiple(String, Vec<CaptureRecord>),
}

/// The single-node captures, by name, the later of two under one name
/// winning.
pub open spec fn single_captures(captures: Seq<Capture>) -> Map<Seq<char>, CaptureRecord>
    decreases captures.len(),
{
    if captures.len() == 0 {
        Map::empty()
    } else {
        let rest = single_captures(captures.drop_last());
        match captures.last() {
            Capture::Single(name, record) => rest.insert(name@, record),
            Capture::Multiple(_, _) => rest,
        }
    }
}

/// The list captures, by name, the later of two under one name winning.
pub open spec fn multi_captures(captures: Seq<Capture>) -> Map<Seq<char>, Vec<CaptureRecord>>
    decreases captures.len(),
{
    if captures.len() == 0 {
        Map::empty()
    } else {
        let rest = multi_captures(captures.drop_last());
        match captures.last() {
            Capture::Single(_, _) => rest,
            Capture::Multiple(name, records) => rest.insert(name@, records),
        }
    }
}

/// Records captures in the order given.
pub fn record_captures(captures: Vec<Capture>) -> (res: MetaVariablesRecord)
    ensures
        res.single@ == single_captures(captures@),
        res.multi@ == multi_captures(captures@),
{
    let ghost all = captures@;
    let mut rest = captures;
    let mut record = MetaVariablesRecord::new();
    let ghost mut done: int = 0;
    proof {
        assert(all.take(0) =~= Seq::<Capture>::empty());
    }
    while rest.len() > 0
        invariant
            0 <= done <= all.len(),
            rest@ == all.skip(done),
            record.single@ == single_captures(all.take(done)),
            record.multi@ == multi_captures(all.take(done)),
        decreases rest@.len(),
    {
        let capture = rest.remove(0);
        proof {
            assert(capture == all[done]);
            assert(all.take(done + 1).drop_last() =~= all.take(done));
            assert(all.take(done + 1).last() == all[done]);
            assert(rest@ =~= all.skip(done + 1));
            done = done + 1;
        }
        match capture {
            Capture::Single(name, value) => {
                record.single.insert(name, value);
            },
            Capture::Multiple(name, values) => {
                record.multi.insert(name, values);
            },
        }
    }
    proof {
        assert(all.take(done) =~= all);
    }
    record
}

/// Captures that never give one name two different records.
pub open spec fn captures_agree(captures: Seq<Capture>) -> bool {
    &&& forall|i: int, j: int| 0 <= i < captures.len() && 0 <= j < captures.len()
        && (#[trigger] captures[i]) is Single && (#[trigger] captures[j]) is Single
        && captures[i]->Single_0@ == captures[j]->Single_0@
        ==> captures[i]->Single_1 == captures[j]->Single_1
    &&& forall|i: int, j: int| 0 <= i < captures.len() && 0 <= j < captures.len()
        && (#[trigger] captures[i]) is Multiple && (#[trigger] captures[j]) is Multiple
        && captures[i]->Multiple_0@ == captures[j]->Multiple_0@
        ==> captures[i]->Multiple_1 == captures[j]->Multiple_1
}

/// Where captures agree, a name is recorded exactly when some capture
/// bears it, with that capture's record.
proof fn lemma_captures_content(captures: Seq<Capture>)
    requires
        captures_agree(captures),
    ensures
        forall|name: Seq<char>| #[trigger] single_captures(captures).contains_key(name) <==>
            exists|i: int| 0 <= i < captures.len() && captures[i] is Single && (#[trigger] captures[i])->Single_0@ == name,
        forall|i: int| 0 <= i < captures.len() && (#[trigger] captures[i]) is Single ==>
            single_captures(captures)[captures[i]->Single_0@] == captures[i]->Single_1,
        forall|name: Seq<char>| #[trigger] multi_captures(captures).contains_key(name) <==>
            exists|i: int| 0 <= i < captures.len() && captures[i] is Multiple && (#[trigger] captures[i])->Multiple_0@ == name,
        forall|i: int| 0 <= i < captures.len() && (#[trigger] captures[i]) is Multiple ==>
            multi_captures(captures)[captures[i]->Multiple_0@] == captures[i]->Multiple_1,
    decreases captures.len(),
{
    if captures.len() > 0 {
        let rest = captures.drop_last();
        assert forall|i: int, j: int| 0 <= i < rest.len() && 0 <= j < rest.len()
            && (#[trigger] rest[i]) is Single && (#[trigger] rest[j]) is Single
            && rest[i]->Single_0@ == rest[j]->Single_0@
            implies rest[i]->Single_1 == rest[j]->Single_1 by {
            assert(rest[i] == captures[i] && rest[j] == captures[j]);
        }
        assert forall|i: int, j: int| 0 <= i < rest.len() && 0 <= j < rest.len()
            && (#[trigger] rest[i]) is Multiple && (#[trigger] rest[j]) is Multiple
            && rest[i]->Multiple_0@ == rest[j]->Multiple_0@
            implies rest[i]->Multiple_1 == rest[j]->Multiple_1 by {
            assert(rest[i] == captures[i] && rest[j] == captures[j]);
        }
        lemma_captures_content(rest);
        let last: int = captures.len() - 1;
        assert(captures.last() == captures[last]);
        assert forall|name: Seq<char>| #[trigger] single_captures(captures).contains_key(name) <==>
            exists|i: int| 0 <= i < captures.len() && captures[i] is Single && (#[trigger] captures[i])->Single_0@ == name by {
            if single_captures(captures).contains_key(name) {
                if captures[last] is Single && captures[last]->Single_0@ == name {
                } else {
                    assert(single_captures(rest).contains_key(name));
                    let i: int = choose|i: int| 0 <= i < rest.len() && rest[i] is Single && (#[trigger] rest[i])->Single_0@ == name;
                    assert(captures[i] == rest[i]);
                }
            }
            if exists|i: int| 0 <= i < captures.len() && captures[i] is Single && (#[trigger] captures[i])->Single_0@ == name {
                let i: int = choose|i: int| 0 <= i < captures.len() && captures[i] is Single && (#[trigger] captures[i])->Single_0@ == name;
                if i < last {
                    assert(rest[i] == captures[i]);
                    assert(single_captures(rest).contains_key(name));
                }
            }
        }
        assert forall|i: int| 0 <= i < captures.len() && (#[trigger] captures[i]) is Single implies
            single_captures(captures)[captures[i]->Single_0@] == captures[i]->Single_1 by {
            if i < last {
                assert(rest[i] == captures[i]);
            }
        }
        assert forall|name: Seq<char>| #[trigger] multi_captures(captures).contains_key(name) <==>
            exists|i: int| 0 <= i < captures.len() && captures[i] is Multiple && (#[trigger] captures[i])->Multiple_0@ == name by {
            if multi_captures(captures).contains_key(name) {
                if captures[last] is Multiple && captures[last]->Multiple_0@ == name {
                } else {
                    assert(multi_captures(rest).contains_key(name));
                    let i: int = choose|i: int| 0 <= i < rest.len() && rest[i] is Multiple && (#[trigger] rest[i])->Multiple_0@ == name;
                    assert(captures[i] == rest[i]);
                }
            }
            if exists|i: int| 0 <= i < captures.len() && captures[i] is Multiple && (#[trigger] captures[i])->Multiple_0@ == name {
                let i: int = choose|i: int| 0 <= i < captures.len() && captures[i] is Multiple && (#[trigger] captures[i])->Multiple_0@ == name;
                if i < last {
                    assert(rest[i] == captures[i]);
                    assert(multi_captures(rest).contains_key(name));
                }
            }
        }
        assert forall|i: int| 0 <= i < captures.len() && (#[trigger] captures[i]) is Multiple implies
            multi_captures(captures)[captures[i]->Multiple_0@] == captures[i]->Multiple_1 by {
            if i < last {
                assert(rest[i] == captures[i]);
            }
        }
    }
}

/// The captures of a match do not depend on the order in which its
/// metavariables are visited, as long as no name is given two different
/// records.
pub proof fn lemma_capture_order_irrelevant(a: Seq<Capture>, b: Seq<Capture>)
    requires
        a.to_multiset() == b.to_multiset(),
        captures_agree(a),
    ensures
        single_captures(a) == single_captures(b),
        multi_captures(a) == multi_captures(b),
{
    broadcast use vstd::seq_lib::group_to_multiset_ensures;
    assert forall|i: int| 0 <= i < b.len() implies a.contains(#[trigger] b[i]) by {
        assert(b.to_multiset().count(b[i]) > 0);
    }
    assert forall|i: int| 0 <= i < a.len() implies b.contains(#[trigger] a[i]) by {
        assert(a.to_multiset().count(a[i]) > 0);
    }
    assert(captures_agree(b)) by {
        assert forall|i: int, j: int| 0 <= i < b.len() && 0 <= j < b.len()
            && (#[trigger] b[i]) is Single && (#[trigger] b[j]) is Single
            && b[i]->Single_0@ == b[j]->Single_0@
            implies b[i]->Single_1 == b[j]->Single_1 by {
            assert(a.contains(b[i]) && a.contains(b[j]));
            let x: int = choose|x: int| 0 <= x < a.len() && a[x] == b[i];
            let y: int = choose|y: int| 0 <= y < a.len() && a[y] == b[j];
        }
        assert forall|i: int, j: int| 0 <= i < b.len() && 0 <= j < b.len()
            && (#[trigger] b[i]) is Multiple && (#[trigger] b[j]) is Multiple
            && b[i]->Multiple_0@ == b[j]->Multiple_0@
            implies b[i]->Multiple_1 == b[j]->Multiple_1 by {
            assert(a.contains(b[i]) && a.contains(b[j]));
            let x: int = choose|x: int| 0 <= x < a.len() && a[x] == b[i];
            let y: int = choose|y: int| 0 <= y < a.len() && a[y] == b[j];
        }
    }
    lemma_captures_content(a);
    lemma_captures_content(b);
    assert forall|name: Seq<char>| single_captures(a).contains_key(name) <==> #[trigger] single_captures(b).contains_key(name) by {
        if single_captures(a).contains_key(name) {
            let i: int = choose|i: int| 0 <= i < a.len() && a[i] is Single && (#[trigger] a[i])->Single_0@ == name;
            assert(b.contains(a[i]));
            let j: int = choose|j: int| 0 <= j < b.len() && b[j] == a[i];
        }
        if single_captures(b).contains_key(name) {
            let j: int = choose|j: int| 0 <= j < b.len() && b[j] is Single && (#[trigger] b[j])->Single_0@ == name;
            assert(a.contains(b[j]));
            let i: int = choose|i: int| 0 <= i < a.len() && a[i] == b[j];
        }
    }
    assert forall|name: Seq<char>| #[trigger] single_captures(a).contains_key(name) implies single_captures(a)[name] == single_captures(b)[name] by {
        let i: int = choose|i: int| 0 <= i < a.len() && a[i] is Single && (#[trigger] a[i])->Single_0@ == name;
        assert(b.contains(a[i]));
        let j: int = choose|j: int| 0 <= j < b.len() && b[j] == a[i];
    }
    assert(single_captures(a) =~= single_captures(b));
    assert forall|name: Seq<char>| multi_captures(a).contains_key(name) <==> #[trigger] multi_captures(b).contains_key(name) by {
        if multi_captures(a).contains_key(name) {
            let i: int = choose|i: int| 0 <= i < a.len() && a[i] is Multiple && (#[trigger] a[i])->Multiple_0@ == name;
            assert(b.contains(a[i]));
            let j: int = choose|j: int| 0 <= j < b.len() && b[j] == a[i];
        }
        if multi_captures(b).contains_key(name) {
            let j: int = choose|j: int| 0 <= j < b.len() && b[j] is Multiple && (#[trigger] b[j])->Multiple_0@ == name;
            assert(a.contains(b[j]));
            let i: int = choose|i: int| 0 <= i < a.len() && a[i] == b[j];
        }
    }
    assert forall|name: Seq<char>| #[trigger] multi_captures(a).contains_key(name) implies multi_captures(a)[name] == multi_captures(b)[name] by {
        let i: int = choose|i: int| 0 <= i < a.len() && a[i] is Multiple && (#[trigger] a[i])->Multiple_0@ == name;
        assert(b.contains(a[i]));
        let j: int = choose|j: int| 0 <= j < b.len() && b[j] == a[i];
    }
    assert(multi_captures(a) =~= multi_captures(b));
}

} // verus!
