//! The order in which std compares strings: byte by byte over their UTF-8
//! encodings, a shorter prefix first.

use vstd::prelude::*;
use vstd::utf8::{encode_utf8, decode_utf8, encode_utf8_decode_utf8};
use vstd::string::StringSliceAdditionalSpecFns;

verus! {

/// The outcome of comparing two texts.
#[derive(PartialEq, Eq, Structural, Clone, Copy, Debug)]
pub enum TextOrder {
    Less,
    Equal,
    Greater,
}

/// Lexicographic order on byte sequences.
pub open spec fn bytes_lt(a: Seq<u8>, b: Seq<u8>) -> bool
    decreases a.len(),
{
    if a.len() == 0 {
        b.len() > 0
    } else if b.len() == 0 {
        false
    } else if a[0] != b[0] {
        a[0] < b[0]
    } else {
        bytes_lt(a.drop_first(), b.drop_first())
    }
}

/// The order of `String` and `str`: that of their UTF-8 bytes.
pub open spec fn text_lt(a: Seq<char>, b: Seq<char>) -> bool {
    bytes_lt(encode_utf8(a), encode_utf8(b))
}

/// No byte sequence precedes itself.
pub proof fn lemma_bytes_lt_irreflexive(a: Seq<u8>)
    ensures
        !bytes_lt(a, a),
    decreases a.len(),
{
    if a.len() > 0 {
        lemma_bytes_lt_irreflexive(a.drop_first());
    }
}

/// The byte order is transitive.
pub proof fn lemma_bytes_lt_transitive(a: Seq<u8>, b: Seq<u8>, c: Seq<u8>)
    requires
        bytes_lt(a, b),
        bytes_lt(b, c),
    ensures
        bytes_lt(a, c),
    decreases a.len(),
{
    if a.len() > 0 && b.len() > 0 && c.len() > 0 && a[0] == b[0] && b[0] == c[0] {
        lemma_bytes_lt_transitive(a.drop_first(), b.drop_first(), c.drop_first());
    }
}

/// Any two distinct byte sequences are ordered one way or the other.
pub proof fn lemma_bytes_lt_total(a: Seq<u8>, b: Seq<u8>)
    ensures
        a =~= b || bytes_lt(a, b) || bytes_lt(b, a),
    decreases a.len(),
{
    if a.len() > 0 && b.len() > 0 && a[0] == b[0] {
        lemma_bytes_lt_total(a.drop_first(), b.drop_first());
        if a.drop_first() =~= b.drop_first() {
            assert(a =~= seq![a[0]] + a.drop_first());
            assert(b =~= seq![b[0]] + b.drop_first());
        }
    }
}

/// The byte order is asymmetric.
pub proof fn lemma_bytes_lt_asymmetric(a: Seq<u8>, b: Seq<u8>)
    requires
        bytes_lt(a, b),
    ensures
        !bytes_lt(b, a),
{
    if bytes_lt(b, a) {
        lemma_bytes_lt_transitive(a, b, a);
        lemma_bytes_lt_irreflexive(a);
    }
}

/// Past a common prefix, the order is decided by what follows it.
proof fn lemma_bytes_lt_skip_common(a: Seq<u8>, b: Seq<u8>, i: int)
    requires
        0 <= i <= a.len(),
        i <= b.len(),
        a.take(i) =~= b.take(i),
    ensures
        bytes_lt(a, b) == bytes_lt(a.skip(i), b.skip(i)),
    decreases i,
{
    if i > 0 {
        assert(a[0] == a.take(i)[0]);
        assert(b[0] == b.take(i)[0]);
        assert(a.drop_first().take(i - 1) =~= a.take(i).drop_first());
        assert(b.drop_first().take(i - 1) =~= b.take(i).drop_first());
        lemma_bytes_lt_skip_common(a.drop_first(), b.drop_first(), i - 1);
        assert(a.drop_first().skip(i - 1) =~= a.skip(i));
        assert(b.drop_first().skip(i - 1) =~= b.skip(i));
    } else {
        assert(a.skip(0) =~= a);
        assert(b.skip(0) =~= b);
    }
}

/// Compares two texts as std's `Ord` for `str` does.
pub fn text_order(a: &str, b: &str) -> (res: TextOrder)
    ensures
        res == TextOrder::Less <==> text_lt(a@, b@),
        res == TextOrder::Equal <==> a@ == b@,
        res == TextOrder::Greater <==> text_lt(b@, a@),
{
    let x = a.as_bytes();
    let y = b.as_bytes();
    let ghost ea = encode_utf8(a@);
    let ghost eb = encode_utf8(b@);
    proof {
        broadcast use encode_utf8_decode_utf8;
        assert(x@ == ea);
        assert(y@ == eb);
    }
    let mut i: usize = 0;
    while i < x.len() && i < y.len()
        invariant
            x@ == ea,
            y@ == eb,
            ea == encode_utf8(a@),
            eb == encode_utf8(b@),
            i <= x@.len(),
            i <= y@.len(),
            ea.take(i as int) =~= eb.take(i as int),
        decreases x@.len() - i,
    {
        if x[i] != y[i] {
            proof {
                lemma_bytes_lt_skip_common(ea, eb, i as int);
                lemma_bytes_lt_skip_common(eb, ea, i as int);
                assert(ea.skip(i as int)[0] == ea[i as int]);
                assert(eb.skip(i as int)[0] == eb[i as int]);
                if a@ == b@ {
                    assert(ea == eb);
                }
            }
            if x[i] < y[i] {
                return TextOrder::Less;
            } else {
                return TextOrder::Greater;
            }
        }
        proof {
            assert(ea.take(i + 1) =~= ea.take(i as int).push(ea[i as int]));
            assert(eb.take(i + 1) =~= eb.take(i as int).push(eb[i as int]));
        }
        i = i + 1;
    }
    proof {
        lemma_bytes_lt_skip_common(ea, eb, i as int);
        lemma_bytes_lt_skip_common(eb, ea, i as int);
        broadcast use encode_utf8_decode_utf8;
    }
    if x.len() == y.len() {
        proof {
            assert(ea =~= ea.take(i as int));
            assert(eb =~= eb.take(i as int));
            assert(decode_utf8(ea) == a@);
            assert(decode_utf8(eb) == b@);
            lemma_bytes_lt_irreflexive(ea);
        }
        TextOrder::Equal
    } else if x.len() < y.len() {
        proof {
            if a@ == b@ {
                assert(ea == eb);
            }
        }
        TextOrder::Less
    } else {
        proof {
            if a@ == b@ {
                assert(ea == eb);
            }
        }
        TextOrder::Greater
    }
}

} // verus!
