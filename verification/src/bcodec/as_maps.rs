//! Encoding any value and decoding it gives the value read as maps: each
//! dictionary holds one entry per key, the last one written for it, in key
//! order.

use crate::bcodec::bdecoder::{dict_insert, insert_pos, lemma_insert_pos_bounds, spec_decode, DecodeFault};
use crate::bcodec::bencoder::{
    canon_index, dec_bytes, encode, encode_by_index, encode_list, idx_insert, lemma_canon_index_range,
    pick,
};
use crate::bcodec::bvalue::SValue;
use crate::bcodec::canonical::{lemma_dict_insert_sorted, wf_entry};
use crate::bcodec::concat::lemma_decode_concat;
use crate::bcodec::roundtrip::{keys_sorted, lemma_decode_encode, lemma_dict_encode, pairs_enc, wf_value};
use vstd::prelude::*;

verus! {

/// A value within what bencode carries: integers within i64, string and key
/// lengths within usize; dictionaries in any order, keys possibly repeated.
pub open spec fn carriable(v: SValue) -> bool
    decreases v,
{
    match v {
        SValue::Int(n) => i64::MIN <= n <= i64::MAX,
        SValue::Str(b) => b.len() <= usize::MAX,
        SValue::List(l) => forall|k: int| 0 <= k < l.len() ==> carriable(#[trigger] l[k]),
        SValue::Dict(d) => forall|k: int|
            0 <= k < d.len() ==> (#[trigger] d[k]).0.len() <= usize::MAX && carriable(d[k].1),
    }
}

/// A value read as maps: every dictionary, at any depth, built by putting
/// its entries in order into a dictionary kept in key order, a later entry
/// replacing an earlier one with the same key.
pub open spec fn canon(v: SValue) -> SValue
    decreases v, 1int,
{
    match v {
        SValue::List(l) => SValue::List(canon_list(l, l.len() as int)),
        SValue::Dict(d) => SValue::Dict(canon_pairs(d, d.len() as int)),
        _ => v,
    }
}

/// The first `n` elements of a list, each read as maps.
pub open spec fn canon_list(l: Seq<SValue>, n: int) -> Seq<SValue>
    decreases l, n,
{
    if n <= 0 || n > l.len() {
        seq![]
    } else {
        canon_list(l, n - 1).push(canon(l[n - 1]))
    }
}

/// The first `n` entries of a dictionary put in order into a dictionary kept
/// in key order, their values read as maps.
pub open spec fn canon_pairs(d: Seq<(Seq<u8>, SValue)>, n: int) -> Seq<(Seq<u8>, SValue)>
    decreases d, n,
{
    if n <= 0 || n > d.len() {
        seq![]
    } else {
        dict_insert(canon_pairs(d, n - 1), d[n - 1].0, canon(d[n - 1].1))
    }
}

/// The entries of `d` at the indices `idx`, their values read as maps.
pub open spec fn canon_pick(d: Seq<(Seq<u8>, SValue)>, idx: Seq<int>) -> Seq<(Seq<u8>, SValue)> {
    Seq::new(idx.len(), |q: int| (d[idx[q]].0, canon(d[idx[q]].1)))
}

/// The insertion position depends only on the keys.
proof fn lemma_insert_pos_keys(
    a: Seq<(Seq<u8>, SValue)>,
    b: Seq<(Seq<u8>, SValue)>,
    k: Seq<u8>,
    j: int,
)
    requires
        0 <= j <= a.len(),
        a.len() == b.len(),
        forall|q: int| 0 <= q < a.len() ==> (#[trigger] a[q]).0 == b[q].0,
    ensures
        insert_pos(a, k, j) == insert_pos(b, k, j),
    decreases a.len() - j,
{
    if j < a.len() {
        assert(a[j].0 == b[j].0);
        lemma_insert_pos_keys(a, b, k, j + 1);
    }
}

/// The dictionary read as maps is the encoder's choice of entries, in key
/// order, with values read as maps; it is in key order and within limits.
proof fn lemma_canon_pairs(d: Seq<(Seq<u8>, SValue)>, n: int)
    requires
        0 <= n <= d.len(),
        forall|k: int| 0 <= k < d.len() ==> (#[trigger] d[k]).0.len() <= usize::MAX && carriable(d[k].1),
    ensures
        canon_pairs(d, n) == canon_pick(d, canon_index(d, n)),
        keys_sorted(canon_pairs(d, n)),
        forall|q: int| 0 <= q < canon_pairs(d, n).len() ==> wf_entry(#[trigger] canon_pairs(d, n)[q]),
    decreases d, n,
{
    if n == 0 {
        assert(canon_pick(d, canon_index(d, 0)) =~= Seq::<(Seq<u8>, SValue)>::empty());
    } else {
        lemma_canon_pairs(d, n - 1);
        lemma_canon_index_range(d, n - 1);
        let prev = canon_index(d, n - 1);
        let c = canon_pairs(d, n - 1);
        let k = d[n - 1].0;
        let v = canon(d[n - 1].1);
        lemma_canon_encode(d[n - 1].1);
        assert(wf_entry((k, v)));
        lemma_dict_insert_sorted(c, k, v);
        let pk = pick(d, prev);
        assert(forall|q: int| 0 <= q < c.len() ==> (#[trigger] c[q]).0 == pk[q].0);
        assert(c.len() == prev.len());
        lemma_insert_pos_keys(c, pk, k, 0);
        let p = insert_pos(c, k, 0);
        lemma_insert_pos_bounds(c, k, 0);
        assert(canon_index(d, n) == idx_insert(d, prev, n - 1));
        if p < c.len() && c[p].0 == k {
            assert(d[prev[p]].0 == k);
            assert(canon_pick(d, prev.update(p, n - 1)) =~= c.update(p, (k, v)));
        } else {
            if p < prev.len() {
                assert(d[prev[p]].0 == c[p].0);
            }
            assert(canon_pick(d, prev.insert(p, n - 1)) =~= c.insert(p, (k, v)));
        }
    }
}

/// The encodings of the entries at `idx` are those of the same entries with
/// values read as maps.
proof fn lemma_by_index_canon(d: Seq<(Seq<u8>, SValue)>, idx: Seq<int>)
    requires
        forall|q: int| 0 <= q < idx.len() ==> 0 <= #[trigger] idx[q] < d.len(),
        forall|k: int| 0 <= k < d.len() ==> encode(canon((#[trigger] d[k]).1)) == encode(d[k].1),
    ensures
        encode_by_index(d, idx) == pairs_enc(canon_pick(d, idx), 0),
    decreases idx.len(),
{
    if idx.len() == 0 {
        assert(canon_pick(d, idx) =~= Seq::<(Seq<u8>, SValue)>::empty());
    } else {
        let pre = idx.drop_last();
        let j = idx.last();
        assert(forall|q: int| 0 <= q < pre.len() ==> #[trigger] pre[q] == idx[q]);
        lemma_by_index_canon(d, pre);
        let cp = canon_pick(d, idx);
        assert(canon_pick(d, pre) =~= cp.drop_last());
        assert(cp =~= cp.drop_last().push(cp.last()));
        lemma_pairs_enc_push(cp.drop_last(), cp.last(), 0);
        assert(encode(canon(d[j].1)) == encode(d[j].1));
        assert(encode_by_index(d, idx) =~= pairs_enc(canon_pick(d, pre), 0) + (encode(
            SValue::Str(d[j].0),
        ) + encode(canon(d[j].1))));
    }
}

/// Encoding the entries of a dictionary with one more entry at the end.
proof fn lemma_pairs_enc_push(x: Seq<(Seq<u8>, SValue)>, e: (Seq<u8>, SValue), k: int)
    requires
        0 <= k <= x.len(),
    ensures
        pairs_enc(x.push(e), k) == pairs_enc(x, k) + (encode(SValue::Str(e.0)) + encode(e.1)),
    decreases x.len() - k,
{
    if k == x.len() {
        assert(pairs_enc(x.push(e), k + 1) =~= Seq::<u8>::empty());
        assert(pairs_enc(x, k) =~= Seq::<u8>::empty());
        assert(pairs_enc(x.push(e), k) =~= encode(SValue::Str(e.0)) + encode(e.1));
    } else {
        lemma_pairs_enc_push(x, e, k + 1);
        assert(x.push(e)[k] == x[k]);
        assert(pairs_enc(x.push(e), k) =~= pairs_enc(x, k) + (encode(SValue::Str(e.0)) + encode(
            e.1,
        )));
    }
}

/// The first `n` elements of a list read as maps encode as the elements do,
/// and are within the limits.
proof fn lemma_canon_list(l: Seq<SValue>, n: int)
    requires
        0 <= n <= l.len(),
        forall|k: int| 0 <= k < l.len() ==> carriable(#[trigger] l[k]),
    ensures
        canon_list(l, n).len() == n,
        encode_list(canon_list(l, n)) == encode_list(l.subrange(0, n)),
        forall|q: int| 0 <= q < n ==> wf_value(#[trigger] canon_list(l, n)[q]),
    decreases l, n,
{
    if n == 0 {
        assert(l.subrange(0, 0) =~= Seq::<SValue>::empty());
    } else {
        lemma_canon_list(l, n - 1);
        lemma_canon_encode(l[n - 1]);
        let c = canon_list(l, n);
        assert(c.drop_last() =~= canon_list(l, n - 1));
        assert(l.subrange(0, n).drop_last() =~= l.subrange(0, n - 1));
        assert(forall|q: int| 0 <= q < n - 1 ==> #[trigger] c[q] == canon_list(l, n - 1)[q]);
    }
}

/// A value read as maps encodes as the value does, and is a value that
/// bencode carries exactly.
pub proof fn lemma_canon_encode(v: SValue)
    requires
        carriable(v),
    ensures
        encode(canon(v)) == encode(v),
        wf_value(canon(v)),
    decreases v, 0int,
{
    match v {
        SValue::List(l) => {
            lemma_canon_list(l, l.len() as int);
            assert(l.subrange(0, l.len() as int) =~= l);
        },
        SValue::Dict(d) => {
            let n = d.len() as int;
            lemma_canon_pairs(d, n);
            lemma_canon_index_range(d, n);
            assert forall|k: int| 0 <= k < d.len() implies encode(canon((#[trigger] d[k]).1)) == encode(
                d[k].1,
            ) by {
                lemma_canon_encode(d[k].1);
            }
            lemma_by_index_canon(d, canon_index(d, n));
            lemma_dict_encode(canon_pairs(d, n));
        },
        _ => {},
    }
}

/// Decoding the encoding of any value that bencode carries gives back the
/// value read as maps: each dictionary with one entry per key, the last one
/// written for it, in key order.
pub proof fn lemma_decode_encode_any(v: SValue)
    requires
        carriable(v),
    ensures
        spec_decode(encode(v)) == Ok::<Seq<SValue>, DecodeFault>(seq![canon(v)]),
{
    lemma_canon_encode(v);
    lemma_decode_encode(canon(v));
}

/// The encodings of any values that bencode carries, followed by any bytes
/// `rest`, decode to those values read as maps followed by what `rest`
/// decodes to; where `rest` does not decode, neither does the whole.
pub proof fn lemma_decode_concat_any(l: Seq<SValue>, rest: Seq<u8>)
    requires
        forall|k: int| 0 <= k < l.len() ==> carriable(#[trigger] l[k]),
    ensures
        spec_decode(rest) is Ok ==> spec_decode(encode_list(l) + rest) == Ok::<Seq<SValue>, DecodeFault>(
            canon_list(l, l.len() as int) + spec_decode(rest)->Ok_0,
        ),
        spec_decode(rest) is Err ==> spec_decode(encode_list(l) + rest) is Err,
{
    lemma_canon_list(l, l.len() as int);
    assert(l.subrange(0, l.len() as int) =~= l);
    lemma_decode_concat(canon_list(l, l.len() as int), rest);
}

} // verus!
