//! What the deep search finds, read on the value that the bytes encode: the
//! raw value of the first matching key in document order, the dictionaries
//! met as values being searched where they stand.

use crate::bcodec::bdecoder::spec_decode;
use crate::bcodec::bencoder::{dec_bytes, encode, encode_list};
use crate::bcodec::canonical::lemma_decoded_canonical;
use crate::bcodec::bvalue::{is_digit, SValue};
use crate::bcodec::deep_finder::{raw_elem, raw_scan, search, spec_find_first, traverse};
use crate::bcodec::roundtrip::{
    lemma_dec_bytes, lemma_dict_encode, lemma_encode_list_front, lemma_encode_nonempty,
    lemma_int_raw, lemma_matches_byte, lemma_matches_split, lemma_str_raw, matches_at, pairs_enc,
    wf_value,
};
use vstd::prelude::*;

verus! {

/// The raw value (its encoding) of the first key, in document order, whose
/// encoding is `key`, among the pairs of `d` from `q` on; a dictionary met
/// as a value is searched before the pairs that follow it.
pub open spec fn first_in_dict(d: Seq<(Seq<u8>, SValue)>, key: Seq<u8>, q: int) -> Option<Seq<u8>>
    decreases d, d.len() - q,
{
    if q < 0 || q >= d.len() {
        None
    } else if encode(SValue::Str(d[q].0)) == key {
        Some(encode(d[q].1))
    } else {
        match d[q].1 {
            SValue::Dict(inner) => match first_in_dict(inner, key, 0) {
                Some(v) => Some(v),
                None => first_in_dict(d, key, q + 1),
            },
            _ => first_in_dict(d, key, q + 1),
        }
    }
}

/// The first byte of an encoding tells its kind.
pub(crate) proof fn lemma_first_byte(v: SValue)
    ensures
        encode(v).len() > 0,
        v is Str ==> is_digit(encode(v)[0]),
        v is Int ==> encode(v)[0] == 105,
        v is List ==> encode(v)[0] == 108,
        v is Dict ==> encode(v)[0] == 100,
{
    lemma_encode_nonempty(v);
    if let SValue::Str(b) = v {
        lemma_dec_bytes(b.len());
        assert(encode(v)[0] == dec_bytes(b.len())[0]);
    }
}

/// The raw bytes of an encoded element are its encoding.
#[verifier::spinoff_prover]
pub(crate) proof fn lemma_raw_elem_encode(s: Seq<u8>, i: int, v: SValue)
    requires
        wf_value(v),
        matches_at(s, i, encode(v)),
    ensures
        raw_elem(s, i) == (Some(encode(v)), i + encode(v).len()),
    decreases v, 0int,
{
    lemma_first_byte(v);
    assert(s[i + 0] == encode(v)[0]);
    match v {
        SValue::Str(b) => {
            lemma_str_raw(s, i, b);
        },
        SValue::Int(n) => {
            lemma_int_raw(s, i, n);
        },
        SValue::List(l) => {
            let el = encode_list(l);
            assert(encode(v) == seq![108u8] + el + seq![101u8]);
            lemma_matches_split(s, i, seq![108u8] + el, seq![101u8]);
            lemma_matches_split(s, i, seq![108u8], el);
            lemma_matches_byte(s, i + 1 + el.len(), 101);
            lemma_raw_scan_list(s, i + 1, l);
        },
        SValue::Dict(d) => {
            lemma_dict_encode(d);
            let pe = pairs_enc(d, 0);
            lemma_matches_split(s, i, seq![100u8] + pe, seq![101u8]);
            lemma_matches_split(s, i, seq![100u8], pe);
            lemma_matches_byte(s, i + 1 + pe.len(), 101);
            lemma_raw_scan_pairs(s, i + 1, d, 0);
        },
    }
}

/// The raw scan of encoded elements followed by `e` gives back their
/// encodings.
#[verifier::spinoff_prover]
proof fn lemma_raw_scan_list(s: Seq<u8>, i: int, l: Seq<SValue>)
    requires
        forall|k: int| 0 <= k < l.len() ==> wf_value(#[trigger] l[k]),
        matches_at(s, i, encode_list(l)),
        i + encode_list(l).len() < s.len(),
        s[i + encode_list(l).len()] == 101,
    ensures
        raw_scan(s, i) == (Some(encode_list(l)), i + encode_list(l).len() + 1),
    decreases l, l.len(),
{
    if l.len() == 0 {
        assert(encode_list(l) == Seq::<u8>::empty());
    } else {
        lemma_encode_list_front(l);
        let e0 = encode(l[0]);
        let rest = encode_list(l.drop_first());
        lemma_matches_split(s, i, e0, rest);
        lemma_raw_elem_encode(s, i, l[0]);
        lemma_first_byte(l[0]);
        assert(s[i + 0] == e0[0]);
        let j = i + e0.len();
        assert(forall|k: int| 0 <= k < l.drop_first().len() ==> #[trigger] l.drop_first()[k] == l[k + 1]);
        lemma_raw_scan_list(s, j, l.drop_first());
        assert(j + rest.len() == i + encode_list(l).len());
    }
}

/// The raw scan of the encoded pairs of a dictionary, from pair `k` on,
/// followed by `e`, gives back their encodings.
#[verifier::spinoff_prover]
pub(crate) proof fn lemma_raw_scan_pairs(s: Seq<u8>, i: int, d: Seq<(Seq<u8>, SValue)>, k: int)
    requires
        0 <= k <= d.len(),
        forall|q: int| 0 <= q < d.len() ==> (#[trigger] d[q]).0.len() <= usize::MAX && wf_value(d[q].1),
        matches_at(s, i, pairs_enc(d, k)),
        i + pairs_enc(d, k).len() < s.len(),
        s[i + pairs_enc(d, k).len()] == 101,
    ensures
        raw_scan(s, i) == (Some(pairs_enc(d, k)), i + pairs_enc(d, k).len() + 1),
    decreases d, d.len() - k,
{
    if k >= d.len() {
        assert(pairs_enc(d, k) =~= Seq::<u8>::empty());
    } else {
        let ks = SValue::Str(d[k].0);
        let ke = encode(ks);
        let ve = encode(d[k].1);
        let rest = pairs_enc(d, k + 1);
        assert(pairs_enc(d, k) == ke + ve + rest);
        lemma_matches_split(s, i, ke + ve, rest);
        lemma_matches_split(s, i, ke, ve);
        let j = i + ke.len();
        let j2 = j + ve.len();
        lemma_str_raw(s, i, d[k].0);
        lemma_first_byte(ks);
        assert(s[i + 0] == ke[0]);
        lemma_raw_elem_encode(s, j, d[k].1);
        lemma_first_byte(d[k].1);
        assert(s[j + 0] == ve[0]);
        lemma_raw_scan_pairs(s, j2, d, k + 1);
        assert(raw_scan(s, j) == (Some(ve + rest), j2 + rest.len() + 1));
        assert(ke + (ve + rest) =~= pairs_enc(d, k));
    }
}

/// The dictionary walk over the encoded pairs of a dictionary, from pair
/// `k` on, finds what `first_in_dict` names, or nothing, and then stops past
/// the closing `e`.
#[verifier::spinoff_prover]
#[verifier::rlimit(40)]
proof fn lemma_traverse_pairs(s: Seq<u8>, i: int, d: Seq<(Seq<u8>, SValue)>, k: int, key: Seq<u8>)
    requires
        0 <= k <= d.len(),
        forall|q: int| 0 <= q < d.len() ==> (#[trigger] d[q]).0.len() <= usize::MAX && wf_value(d[q].1),
        matches_at(s, i, pairs_enc(d, k)),
        i + pairs_enc(d, k).len() < s.len(),
        s[i + pairs_enc(d, k).len()] == 101,
    ensures
        traverse(s, i, key, true, false).0 == Some(
            match first_in_dict(d, key, k) {
                Some(v) => v,
                None => Seq::<u8>::empty(),
            },
        ),
        first_in_dict(d, key, k) is None ==> traverse(s, i, key, true, false).1 == i + pairs_enc(
            d,
            k,
        ).len() + 1,
        first_in_dict(d, key, k) matches Some(v) ==> v.len() > 0,
    decreases d, d.len() - k,
{
    if k >= d.len() {
        assert(pairs_enc(d, k) =~= Seq::<u8>::empty());
    } else {
        let ks = SValue::Str(d[k].0);
        let ke = encode(ks);
        let ve = encode(d[k].1);
        let rest = pairs_enc(d, k + 1);
        assert(pairs_enc(d, k) == ke + ve + rest);
        lemma_matches_split(s, i, ke + ve, rest);
        lemma_matches_split(s, i, ke, ve);
        let j = i + ke.len();
        let j2 = j + ve.len();
        assert(wf_value(ks));
        lemma_raw_elem_encode(s, i, ks);
        lemma_first_byte(ks);
        assert(s[i + 0] == ke[0]);
        lemma_raw_elem_encode(s, j, d[k].1);
        lemma_first_byte(d[k].1);
        assert(s[j + 0] == ve[0]);
        lemma_traverse_pairs(s, j2, d, k + 1, key);
        if ke == key {
            assert(traverse(s, i, key, true, false) == traverse(s, j, key, false, true));
        } else {
            assert(traverse(s, i, key, true, false) == traverse(s, j, key, false, false));
            if let SValue::Dict(inner) = d[k].1 {
                lemma_dict_encode(inner);
                let pe = pairs_enc(inner, 0);
                lemma_matches_split(s, j, seq![100u8] + pe, seq![101u8]);
                lemma_matches_split(s, j, seq![100u8], pe);
                lemma_matches_byte(s, j + 1 + pe.len(), 101);
                lemma_traverse_pairs(s, j + 1, inner, 0, key);
            }
        }
    }
}

/// The deep search of the encoding of a dictionary finds the raw value of
/// the first key, in document order, whose encoding is `key`; a dictionary
/// met as a value is searched before the pairs that follow it.
pub proof fn lemma_find_first_dict(d: Seq<(Seq<u8>, SValue)>, key: Seq<u8>)
    requires
        wf_value(SValue::Dict(d)),
    ensures
        spec_find_first(key, encode(SValue::Dict(d))) == first_in_dict(d, key, 0),
{
    let s = encode(SValue::Dict(d));
    lemma_dict_encode(d);
    let pe = pairs_enc(d, 0);
    assert(matches_at(s, 0, s)) by {
        assert forall|q: int| 0 <= q < s.len() implies s[0 + q] == #[trigger] s[q] by {}
    }
    lemma_matches_split(s, 0, seq![100u8] + pe, seq![101u8]);
    lemma_matches_split(s, 0, seq![100u8], pe);
    lemma_matches_byte(s, 0, 100);
    lemma_matches_byte(s, 1int + pe.len(), 101);
    lemma_traverse_pairs(s, 1, d, 0, key);
    assert(s.len() == pe.len() + 2);
    assert(s[0] == 100);
    assert(search(s, s.len() as int, key) == (Some(Seq::<u8>::empty()), s.len() as int));
    let (r, j) = traverse(s, 1, key, true, false);
    if first_in_dict(d, key, 0) is None {
        assert(j == s.len());
        assert(search(s, 0, key).0 == Some(Seq::<u8>::empty()));
    } else {
        assert(search(s, 0, key).0 == r);
    }
}

/// Bytes that decode to one dictionary, written as the encoder writes it:
/// the deep search finds the raw value of the first key, in document order,
/// whose encoding is `key`, searching the dictionaries met as values where
/// they stand.
pub proof fn lemma_find_first_decoded(s: Seq<u8>, key: Seq<u8>)
    requires
        spec_decode(s) is Ok,
        spec_decode(s)->Ok_0.len() == 1,
        spec_decode(s)->Ok_0[0] is Dict,
        s == encode(spec_decode(s)->Ok_0[0]),
    ensures
        spec_find_first(key, s) == first_in_dict(spec_decode(s)->Ok_0[0]->Dict_0, key, 0),
{
    lemma_decoded_canonical(s);
    lemma_find_first_dict(spec_decode(s)->Ok_0[0]->Dict_0, key);
}

} // verus!
