//! The order of texts.

use vstd::prelude::*;
use vstd::string::*;
use vstd::utf8::*;

verus! {

/// How one item stands to another in an order.
#[derive(Clone, Copy, Debug, PartialEq, Eq, Structural)]
pub enum Relation {
    Less,
    Same,
    Greater,
}

/// The lexicographic order of byte sequences.
pub open spec fn byte_order(x: Seq<u8>, y: Seq<u8>) -> Relation
    decreases x.len(),
{
    if x.len() == 0 && y.len() == 0 {
        Relation::Same
    } else if x.len() == 0 {
        Relation::Less
    } else if y.len() == 0 {
        Relation::Greater
    } else if x[0] < y[0] {
        Relation::Less
    } else if x[0] > y[0] {
        Relation::Greater
    } else {
        byte_order(x.drop_first(), y.drop_first())
    }
}

/// The order of texts: lexicographic over their UTF-8 bytes.
pub open spec fn text_order(a: Seq<char>, b: Seq<char>) -> Relation {
    byte_order(encode_utf8(a), encode_utf8(b))
}

/// Whether text `a` comes strictly before text `b`.
pub open spec fn text_before(a: Seq<char>, b: Seq<char>) -> bool {
    text_order(a, b) == Relation::Less
}

/// How the other item stands to the one.
pub open spec fn reversed(r: Relation) -> Relation {
    match r {
        Relation::Less => Relation::Greater,
        Relation::Same => Relation::Same,
        Relation::Greater => Relation::Less,
    }
}

/// Only equal bytes are the same in order.
pub proof fn byte_order_equal(x: Seq<u8>, y: Seq<u8>)
    ensures
        byte_order(x, y) == Relation::Same <==> x == y,
    decreases x.len(),
{
    if x.len() > 0 && y.len() > 0 && x[0] == y[0] {
        byte_order_equal(x.drop_first(), y.drop_first());
        assert(x =~= seq![x[0]] + x.drop_first());
        assert(y =~= seq![y[0]] + y.drop_first());
    } else if x.len() == 0 && y.len() == 0 {
        assert(x =~= y);
    }
}

/// Bytes that are compared the other way round stand the other way round.
pub proof fn byte_order_reversed(x: Seq<u8>, y: Seq<u8>)
    ensures
        byte_order(y, x) == reversed(byte_order(x, y)),
    decreases x.len(),
{
    if x.len() > 0 && y.len() > 0 && x[0] == y[0] {
        byte_order_reversed(x.drop_first(), y.drop_first());
    }
}

/// What comes before what comes before others comes before them.
pub proof fn byte_order_transitive(x: Seq<u8>, y: Seq<u8>, z: Seq<u8>)
    requires
        byte_order(x, y) == Relation::Less,
        byte_order(y, z) == Relation::Less,
    ensures
        byte_order(x, z) == Relation::Less,
    decreases x.len(),
{
    if x.len() > 0 && y.len() > 0 && z.len() > 0 && x[0] == y[0] && y[0] == z[0] {
        byte_order_transitive(x.drop_first(), y.drop_first(), z.drop_first());
    }
}

/// Texts compare as equal exactly when they are equal.
pub proof fn text_order_equal(a: Seq<char>, b: Seq<char>)
    ensures
        text_order(a, b) == Relation::Same <==> a == b,
{
    byte_order_equal(encode_utf8(a), encode_utf8(b));
    encode_utf8_decode_utf8(a);
    encode_utf8_decode_utf8(b);
}

/// Exchanging the two texts reverses their order.
pub proof fn text_order_reversed(a: Seq<char>, b: Seq<char>)
    ensures
        text_order(b, a) == reversed(text_order(a, b)),
{
    byte_order_reversed(encode_utf8(a), encode_utf8(b));
}

/// The order of texts is transitive.
pub proof fn text_order_transitive(a: Seq<char>, b: Seq<char>, c: Seq<char>)
    requires
        text_before(a, b),
        text_before(b, c),
    ensures
        text_before(a, c),
{
    byte_order_transitive(encode_utf8(a), encode_utf8(b), encode_utf8(c));
}

/// Compares two byte sequences lexicographically.
pub fn compare_bytes(x: &[u8], y: &[u8]) -> (r: Relation)
    ensures
        r == byte_order(x@, y@),
{
    let mut i: usize = 0;
    assert(x@.skip(0) =~= x@);
    assert(y@.skip(0) =~= y@);
    while i < x.len() && i < y.len()
        invariant
            i <= x.len(),
            i <= y.len(),
            byte_order(x@, y@) == byte_order(x@.skip(i as int), y@.skip(i as int)),
        decreases x.len() - i,
    {
        if x[i] < y[i] {
            return Relation::Less;
        }
        if x[i] > y[i] {
            return Relation::Greater;
        }
        assert(x@.skip(i as int).drop_first() =~= x@.skip(i + 1));
        assert(y@.skip(i as int).drop_first() =~= y@.skip(i + 1));
        i = i + 1;
    }
    if i < y.len() {
        Relation::Less
    } else if i < x.len() {
        Relation::Greater
    } else {
        Relation::Same
    }
}

/// Compares two texts.
pub fn compare_texts(a: &str, b: &str) -> (r: Relation)
    ensures
        r == text_order(a@, b@),
{
    compare_bytes(a.as_bytes(), b.as_bytes())
}

} // verus!
