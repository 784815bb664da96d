//! Decoding bytes that follow other bytes: values are read the same
//! wherever they stand, so encoded values followed by more bytes decode to
//! those values followed by what the rest decodes to.

use crate::bcodec::bdecoder::{
    find_byte, int_stop, spec_byte_str, spec_decode, spec_int, spec_item, spec_values, DecodeFault, ItemRes,
    lemma_values_bounds,
};
use crate::bcodec::bencoder::{encode, encode_list};
use crate::bcodec::bvalue::SValue;
use crate::bcodec::roundtrip::{lemma_encode_list_front, lemma_item_encode, lemma_encode_nonempty, matches_at, wf_value};
use vstd::prelude::*;

verus! {

/// Two element results alike but for the positions in error messages.
pub open spec fn same_item(a: ItemRes, b: ItemRes) -> bool {
    match (a, b) {
        (ItemRes::Val(x), ItemRes::Val(y)) => x == y,
        (ItemRes::Close, ItemRes::Close) => true,
        (ItemRes::Fail(_), ItemRes::Fail(_)) => true,
        _ => false,
    }
}

/// Two decoding results alike but for the positions in error messages.
pub open spec fn same_values(a: Result<Seq<SValue>, DecodeFault>, b: Result<Seq<SValue>, DecodeFault>) -> bool {
    match (a, b) {
        (Ok(x), Ok(y)) => x == y,
        (Err(_), Err(_)) => true,
        _ => false,
    }
}

proof fn lemma_shift_find_byte(p: Seq<u8>, b: Seq<u8>, i: int, c: u8)
    requires
        0 <= i,
    ensures
        find_byte(p + b, p.len() + i, c) == p.len() + find_byte(b, i, c),
    decreases b.len() - i,
{
    if i < b.len() {
        assert((p + b)[p.len() + i] == b[i]);
        lemma_shift_find_byte(p, b, i + 1, c);
    }
}

proof fn lemma_shift_int_stop(p: Seq<u8>, b: Seq<u8>, i: int)
    requires
        0 <= i,
    ensures
        int_stop(p + b, p.len() + i) == p.len() + int_stop(b, i),
    decreases b.len() - i,
{
    if i < b.len() {
        assert((p + b)[p.len() + i] == b[i]);
        lemma_shift_int_stop(p, b, i + 1);
    }
}

proof fn lemma_shift_byte_str(p: Seq<u8>, b: Seq<u8>, i: int)
    requires
        0 <= i < b.len(),
    ensures
        ({
            let (r1, j1) = spec_byte_str(p + b, p.len() + i);
            let (r2, j2) = spec_byte_str(b, i);
            &&& j1 == p.len() + j2
            &&& r1 is Ok <==> r2 is Ok
            &&& r1 is Ok ==> r1->Ok_0 == r2->Ok_0
        }),
{
    let s = p + b;
    let o = p.len() as int;
    lemma_shift_find_byte(p, b, i + 1, 58);
    crate::bcodec::bdecoder::lemma_byte_str_bounds(b, i);
    let colon = find_byte(b, i + 1, 58);
    crate::bcodec::bdecoder::lemma_find_byte_bounds(b, i + 1, 58);
    assert(s.subrange(o + i, o + colon) =~= b.subrange(i, colon));
    let after = if colon < b.len() {
        colon + 1
    } else {
        b.len() as int
    };
    let n = crate::bcodec::bdecoder::digits_value(b.subrange(i, colon)) as int;
    if after + n <= b.len() {
        assert(s.subrange(o + after, o + after + n) =~= b.subrange(after, after + n));
    }
}

proof fn lemma_shift_int(p: Seq<u8>, b: Seq<u8>, i: int)
    requires
        0 <= i < b.len(),
    ensures
        ({
            let (r1, j1) = spec_int(p + b, p.len() + i);
            let (r2, j2) = spec_int(b, i);
            &&& j1 == p.len() + j2
            &&& r1 is Ok <==> r2 is Ok
            &&& r1 is Ok ==> r1->Ok_0 == r2->Ok_0
        }),
{
    let s = p + b;
    let o = p.len() as int;
    lemma_shift_int_stop(p, b, i + 1);
    crate::bcodec::bdecoder::lemma_int_stop_bounds(b, i + 1);
    let k = int_stop(b, i + 1);
    assert(s.subrange(o + i + 1, o + k) =~= b.subrange(i + 1, k));
    if k < b.len() {
        assert(s[o + k] == b[k]);
    }
}

/// An element is decoded the same after any bytes, its position moved by
/// their number.
pub proof fn lemma_shift_item(p: Seq<u8>, b: Seq<u8>, i: int, nested: bool)
    requires
        0 <= i < b.len(),
    ensures
        same_item(spec_item(p + b, p.len() + i, nested).0, spec_item(b, i, nested).0),
        spec_item(p + b, p.len() + i, nested).1 == p.len() + spec_item(b, i, nested).1,
    decreases b.len() - i, 0int,
{
    let s = p + b;
    let o = p.len() as int;
    assert(s[o + i] == b[i]);
    let c = b[i];
    if crate::bcodec::bvalue::is_digit(c) {
        lemma_shift_byte_str(p, b, i);
    } else if c == 105 {
        lemma_shift_int(p, b, i);
    } else if c == 108 || c == 100 {
        lemma_shift_values(p, b, i + 1, true);
    }
}

/// A run of elements is decoded the same after any bytes, its positions
/// moved by their number.
pub proof fn lemma_shift_values(p: Seq<u8>, b: Seq<u8>, i: int, nested: bool)
    requires
        0 <= i <= b.len(),
    ensures
        same_values(spec_values(p + b, p.len() + i, nested).0, spec_values(b, i, nested).0),
        spec_values(p + b, p.len() + i, nested).1 == p.len() + spec_values(b, i, nested).1,
    decreases b.len() - i, 1int,
{
    if i < b.len() {
        lemma_shift_item(p, b, i, nested);
        crate::bcodec::bdecoder::lemma_item_bounds(b, i, nested);
        let (r, j) = spec_item(b, i, nested);
        if r is Val {
            lemma_shift_values(p, b, j, nested);
        }
    }
}

/// The encodings of values, at the top level and followed by `rest`,
/// decode to those values and then to what `rest` decodes to.
proof fn lemma_top_encoded(s: Seq<u8>, i: int, l: Seq<SValue>)
    requires
        forall|k: int| 0 <= k < l.len() ==> wf_value(#[trigger] l[k]),
        matches_at(s, i, encode_list(l)),
    ensures
        ({
            let (r1, j1) = spec_values(s, i, false);
            let (r2, j2) = spec_values(s, i + encode_list(l).len(), false);
            &&& j1 == j2
            &&& match r2 {
                Ok(vs) => r1 == Ok::<Seq<SValue>, DecodeFault>(l + vs),
                Err(m) => r1 == Err::<Seq<SValue>, DecodeFault>(m),
            }
        }),
    decreases l.len(),
{
    if l.len() == 0 {
        assert(encode_list(l) == Seq::<u8>::empty());
        assert(l + spec_values(s, i, false).0->Ok_0 =~= spec_values(s, i, false).0->Ok_0);
    } else {
        lemma_encode_list_front(l);
        crate::bcodec::roundtrip::lemma_matches_split(s, i, encode(l[0]), encode_list(l.drop_first()));
        lemma_item_encode(s, i, l[0], false);
        lemma_encode_nonempty(l[0]);
        let j = i + encode(l[0]).len();
        assert(forall|k: int| 0 <= k < l.drop_first().len() ==> #[trigger] l.drop_first()[k] == l[k + 1]);
        lemma_top_encoded(s, j, l.drop_first());
        assert(j + encode_list(l.drop_first()).len() == i + encode_list(l).len());
        let (r2, j2) = spec_values(s, i + encode_list(l).len(), false);
        if r2 is Ok {
            assert(seq![l[0]] + (l.drop_first() + r2->Ok_0) =~= l + r2->Ok_0);
        }
    }
}

/// Bytes that are the encodings of values, followed by any bytes `rest`,
/// decode to those values followed by what `rest` decodes to; where `rest`
/// does not decode, neither does the whole.
pub proof fn lemma_decode_concat(l: Seq<SValue>, rest: Seq<u8>)
    requires
        forall|k: int| 0 <= k < l.len() ==> wf_value(#[trigger] l[k]),
    ensures
        spec_decode(rest) is Ok ==> spec_decode(encode_list(l) + rest) == Ok::<Seq<SValue>, DecodeFault>(
            l + spec_decode(rest)->Ok_0,
        ),
        spec_decode(rest) is Err ==> spec_decode(encode_list(l) + rest) is Err,
{
    let a = encode_list(l);
    let s = a + rest;
    assert(matches_at(s, 0, a)) by {
        assert forall|q: int| 0 <= q < a.len() implies s[0 + q] == #[trigger] a[q] by {}
    }
    lemma_top_encoded(s, 0, l);
    lemma_shift_values(a, rest, 0, false);
}

/// Two runs of encoded values, one after the other, decode to the values of
/// the first followed by those of the second.
pub proof fn lemma_decode_two(l1: Seq<SValue>, l2: Seq<SValue>)
    requires
        forall|k: int| 0 <= k < l1.len() ==> wf_value(#[trigger] l1[k]),
        forall|k: int| 0 <= k < l2.len() ==> wf_value(#[trigger] l2[k]),
    ensures
        spec_decode(encode_list(l1)) == Ok::<Seq<SValue>, DecodeFault>(l1),
        spec_decode(encode_list(l2)) == Ok::<Seq<SValue>, DecodeFault>(l2),
        spec_decode(encode_list(l1) + encode_list(l2)) == Ok::<Seq<SValue>, DecodeFault>(l1 + l2),
{
    lemma_decode_concat(l2, Seq::empty());
    lemma_decode_concat(l1, Seq::empty());
    assert(encode_list(l1) + Seq::<u8>::empty() =~= encode_list(l1));
    assert(encode_list(l2) + Seq::<u8>::empty() =~= encode_list(l2));
    assert(l1 + Seq::<SValue>::empty() =~= l1);
    assert(l2 + Seq::<SValue>::empty() =~= l2);
    lemma_decode_concat(l1, encode_list(l2));
}

} // verus!
