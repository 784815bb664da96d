//! What the decoder gives back is a value that bencode carries exactly:
//! dictionaries come out with strictly increasing keys (a later entry
//! replacing an earlier one with the same key), integers within i64 and
//! strings within usize. Encoding it again therefore decodes to it.

use crate::bcodec::bdecoder::{
    dict_insert, dict_of, insert_pos, keys_are_strs, lex_lt, spec_decode, spec_item, spec_values,
    DecodeFault, ItemRes, lemma_insert_pos_bounds, lemma_item_bounds,
};
use crate::bcodec::bencoder::encode_list;
use crate::bcodec::bvalue::SValue;
use crate::bcodec::concat::lemma_decode_concat;
use crate::bcodec::roundtrip::{keys_sorted, wf_value};
use vstd::prelude::*;

verus! {

proof fn lemma_lex_asym(a: Seq<u8>, b: Seq<u8>)
    ensures
        lex_lt(a, b) ==> !lex_lt(b, a),
    decreases a.len(),
{
    if a.len() > 0 && b.len() > 0 && a[0] == b[0] {
        lemma_lex_asym(a.drop_first(), b.drop_first());
    }
}

proof fn lemma_lex_total(a: Seq<u8>, b: Seq<u8>)
    ensures
        a != b ==> lex_lt(a, b) || lex_lt(b, a),
    decreases a.len(),
{
    if a.len() > 0 && b.len() > 0 && a[0] == b[0] {
        lemma_lex_total(a.drop_first(), b.drop_first());
        if a.drop_first() == b.drop_first() {
            assert(a =~= seq![a[0]] + a.drop_first());
            assert(b =~= seq![b[0]] + b.drop_first());
        }
    } else if a.len() == 0 && b.len() == 0 {
        assert(a =~= b);
    }
}

proof fn lemma_lex_trans(a: Seq<u8>, b: Seq<u8>, c: Seq<u8>)
    requires
        lex_lt(a, b),
        lex_lt(b, c),
    ensures
        lex_lt(a, c),
    decreases a.len(),
{
    if a.len() > 0 && b.len() > 0 && c.len() > 0 && a[0] == b[0] && b[0] == c[0] {
        lemma_lex_trans(a.drop_first(), b.drop_first(), c.drop_first());
    }
}

/// An entry that bencode carries exactly: a key within usize, a value
/// within the limits.
pub open spec fn wf_entry(e: (Seq<u8>, SValue)) -> bool {
    e.0.len() <= usize::MAX && wf_value(e.1)
}

/// Putting an entry into a dictionary kept in key order keeps it in key
/// order and keeps every entry within the limits.
pub(crate) proof fn lemma_dict_insert_sorted(d: Seq<(Seq<u8>, SValue)>, k: Seq<u8>, v: SValue)
    requires
        keys_sorted(d),
        forall|q: int| 0 <= q < d.len() ==> wf_entry(#[trigger] d[q]),
        wf_entry((k, v)),
    ensures
        keys_sorted(dict_insert(d, k, v)),
        forall|q: int| 0 <= q < dict_insert(d, k, v).len() ==> wf_entry(#[trigger] dict_insert(d, k, v)[q]),
{
    let p = insert_pos(d, k, 0);
    lemma_insert_pos_bounds(d, k, 0);
    lemma_insert_pos_facts(d, k, 0);
    let r = dict_insert(d, k, v);
    if p < d.len() && d[p].0 == k {
        assert forall|a: int, b: int| 0 <= a < b < r.len() implies lex_lt(#[trigger] r[a].0, #[trigger] r[b].0) by {
            assert(r[a].0 == d[a].0);
            assert(r[b].0 == d[b].0);
        }
    } else {
        if p < d.len() {
            lemma_lex_total(d[p].0, k);
        }
        assert forall|a: int, b: int| 0 <= a < b < r.len() implies lex_lt(#[trigger] r[a].0, #[trigger] r[b].0) by {
            if b < p {
                assert(r[a] == d[a] && r[b] == d[b]);
            } else if b == p {
                assert(r[a] == d[a]);
            } else if a == p {
                assert(r[b] == d[b - 1]);
                if b - 1 > p {
                    lemma_lex_trans(k, d[p].0, d[b - 1].0);
                }
            } else if a < p {
                assert(r[a] == d[a] && r[b] == d[b - 1]);
            } else {
                assert(r[a] == d[a - 1] && r[b] == d[b - 1]);
            }
        }
    }
    assert forall|q: int| 0 <= q < r.len() implies wf_entry(#[trigger] r[q]) by {
        if p < d.len() && d[p].0 == k {
            if q != p {
                assert(r[q] == d[q]);
            }
        } else if q < p {
            assert(r[q] == d[q]);
        } else if q > p {
            assert(r[q] == d[q - 1]);
        }
    }
}

/// The keys before the insertion position are below the key; the one there,
/// if any, is not.
proof fn lemma_insert_pos_facts(d: Seq<(Seq<u8>, SValue)>, k: Seq<u8>, j: int)
    requires
        0 <= j <= d.len(),
    ensures
        forall|q: int| j <= q < insert_pos(d, k, j) ==> lex_lt(#[trigger] d[q].0, k),
        insert_pos(d, k, j) < d.len() ==> !lex_lt(d[insert_pos(d, k, j)].0, k),
    decreases d.len() - j,
{
    if j < d.len() && lex_lt(d[j].0, k) {
        lemma_insert_pos_facts(d, k, j + 1);
    }
}

/// The dictionary built from decoded keys and values is in key order, its
/// entries within the limits.
proof fn lemma_dict_of_sorted(vs: Seq<SValue>)
    requires
        vs.len() % 2 == 0,
        keys_are_strs(vs),
        forall|q: int| 0 <= q < vs.len() ==> wf_value(#[trigger] vs[q]),
    ensures
        keys_sorted(dict_of(vs)),
        forall|q: int| 0 <= q < dict_of(vs).len() ==> wf_entry(#[trigger] dict_of(vs)[q]),
    decreases vs.len(),
{
    if vs.len() >= 2 {
        let n = vs.len() as int;
        let pre = vs.subrange(0, n - 2);
        assert forall|q: int| 0 <= q < pre.len() && q % 2 == 0 implies #[trigger] pre[q] is Str by {
            assert(pre[q] == vs[q]);
        }
        assert forall|q: int| 0 <= q < pre.len() implies wf_value(#[trigger] pre[q]) by {
            assert(pre[q] == vs[q]);
        }
        lemma_dict_of_sorted(pre);
        assert(vs[n - 2] is Str);
        assert(wf_value(vs[n - 2]));
        assert(wf_value(vs[n - 1]));
        lemma_dict_insert_sorted(dict_of(pre), vs[n - 2]->Str_0, vs[n - 1]);
    } else {
        assert(dict_of(vs) =~= Seq::<(Seq<u8>, SValue)>::empty());
    }
}

/// Every run of values the decoder reads is within the limits.
proof fn lemma_values_wf(s: Seq<u8>, i: int, nested: bool)
    requires
        0 <= i <= s.len(),
    ensures
        spec_values(s, i, nested).0 matches Ok(vs) ==> forall|q: int| 0 <= q < vs.len() ==> wf_value(#[trigger] vs[q]),
    decreases s.len() - i, 1int,
{
    if i < s.len() {
        lemma_item_wf(s, i, nested);
        lemma_item_bounds(s, i, nested);
        let (r, j) = spec_item(s, i, nested);
        if r is Val {
            lemma_values_wf(s, j, nested);
            let (rest, k) = spec_values(s, j, nested);
            if rest is Ok {
                let vs = seq![r->Val_0] + rest->Ok_0;
                assert forall|q: int| 0 <= q < vs.len() implies wf_value(#[trigger] vs[q]) by {
                    if q > 0 {
                        assert(vs[q] == rest->Ok_0[q - 1]);
                    }
                }
            }
        }
    }
}

/// Every element the decoder reads is within the limits.
proof fn lemma_item_wf(s: Seq<u8>, i: int, nested: bool)
    requires
        0 <= i < s.len(),
    ensures
        spec_item(s, i, nested).0 matches ItemRes::Val(v) ==> wf_value(v),
    decreases s.len() - i, 0int,
{
    let b = s[i];
    if crate::bcodec::bvalue::is_digit(b) {
        crate::bcodec::bdecoder::lemma_find_byte_bounds(s, i + 1, 58);
    } else if b == 108 || b == 100 {
        lemma_values_wf(s, i + 1, true);
        if b == 100 {
            let (r, j) = spec_values(s, i + 1, true);
            if r is Ok {
                let vs = r->Ok_0;
                if vs.len() % 2 == 0 && keys_are_strs(vs) {
                    lemma_dict_of_sorted(vs);
                    let d = dict_of(vs);
                    assert forall|q: int| 0 <= q < d.len() implies (#[trigger] d[q]).0.len()
                        <= usize::MAX && wf_value(d[q].1) by {
                        assert(wf_entry(d[q]));
                    }
                }
            }
        }
    }
}

/// What the decoder gives back is within the limits, its dictionaries in
/// key order with one entry per key; encoding it again decodes to it.
pub proof fn lemma_decoded_canonical(s: Seq<u8>)
    ensures
        spec_decode(s) is Ok ==> {
            let vs = spec_decode(s)->Ok_0;
            &&& forall|q: int| 0 <= q < vs.len() ==> wf_value(#[trigger] vs[q])
            &&& spec_decode(encode_list(vs)) == Ok::<Seq<SValue>, DecodeFault>(vs)
        },
{
    lemma_values_wf(s, 0, false);
    if let Ok(vs) = spec_decode(s) {
        lemma_decode_concat(vs, Seq::empty());
        assert(encode_list(vs) + Seq::<u8>::empty() =~= encode_list(vs));
        assert(vs + Seq::<SValue>::empty() =~= vs);
    }
}

/// Decoding a concatenation: bytes `a` that decode, written the way the
/// encoder writes what they decode to, followed by any bytes `b`, decode to
/// the values of `a` followed by those of `b`; where `b` does not decode,
/// neither does the whole.
pub proof fn lemma_decode_append(a: Seq<u8>, b: Seq<u8>)
    requires
        spec_decode(a) is Ok,
        a == encode_list(spec_decode(a)->Ok_0),
    ensures
        spec_decode(b) is Ok ==> spec_decode(a + b) == Ok::<Seq<SValue>, DecodeFault>(
            spec_decode(a)->Ok_0 + spec_decode(b)->Ok_0,
        ),
        spec_decode(b) is Err ==> spec_decode(a + b) is Err,
{
    lemma_decoded_canonical(a);
    lemma_decode_concat(spec_decode(a)->Ok_0, b);
}

} // verus!
