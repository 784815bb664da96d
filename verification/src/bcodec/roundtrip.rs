//! Decoding what the encoder wrote gives back the value.

use crate::bcodec::bdecoder::{
    all_digits, dict_insert, dict_of, digits_value, find_byte, has_leading_zero, insert_pos,
    int_stop, int_text_value, is_int_char, keys_are_strs, lex_lt, spec_byte_str, spec_decode,
    lemma_digits_value_push,
    spec_int, spec_item, spec_values, DecodeFault, ItemRes,
};
use crate::bcodec::bencoder::{
    canon_index, dec_bytes, encode, encode_by_index, encode_list, idx_insert, int_text, pick,
};
use crate::bcodec::bvalue::{is_digit, SValue};
use vstd::prelude::*;

verus! {

/// Keys strictly increasing in byte order.
pub open spec fn keys_sorted(d: Seq<(Seq<u8>, SValue)>) -> bool {
    forall|a: int, b: int| 0 <= a < b < d.len() ==> lex_lt(#[trigger] d[a].0, #[trigger] d[b].0)
}

/// A value that bencode can carry exactly: integers within i64, string
/// lengths within usize, and dictionaries with strictly increasing keys.
pub open spec fn wf_value(v: SValue) -> bool
    decreases v,
{
    match v {
        SValue::Int(n) => i64::MIN <= n <= i64::MAX,
        SValue::Str(b) => b.len() <= usize::MAX,
        SValue::List(l) => forall|k: int| 0 <= k < l.len() ==> wf_value(#[trigger] l[k]),
        SValue::Dict(d) => keys_sorted(d) && forall|k: int|
            0 <= k < d.len() ==> (#[trigger] d[k]).0.len() <= usize::MAX && wf_value(d[k].1),
    }
}

/// `e` occurs in `s` at position `i`.
pub open spec fn matches_at(s: Seq<u8>, i: int, e: Seq<u8>) -> bool {
    &&& 0 <= i
    &&& i + e.len() <= s.len()
    &&& forall|q: int| 0 <= q < e.len() ==> s[i + q] == #[trigger] e[q]
}

/// The keys and values of a dictionary, alternating.
pub open spec fn flat(d: Seq<(Seq<u8>, SValue)>) -> Seq<SValue> {
    Seq::new(
        2 * d.len(),
        |q: int|
            if q % 2 == 0 {
                SValue::Str(d[q / 2].0)
            } else {
                d[q / 2].1
            },
    )
}

/// Encoding of the pair at `k`.
pub open spec fn enc_pair(d: Seq<(Seq<u8>, SValue)>, k: int) -> Seq<u8> {
    encode(SValue::Str(d[k].0)) + encode(d[k].1)
}

/// Encodings of the pairs from `k` on, in order.
pub open spec fn pairs_enc(d: Seq<(Seq<u8>, SValue)>, k: int) -> Seq<u8>
    decreases d.len() - k,
{
    if k >= d.len() {
        seq![]
    } else {
        enc_pair(d, k) + pairs_enc(d, k + 1)
    }
}

/// The indices `0..n`.
pub open spec fn range(n: int) -> Seq<int> {
    Seq::new(n as nat, |q: int| q)
}

pub(crate) proof fn lemma_matches_split(s: Seq<u8>, i: int, a: Seq<u8>, b: Seq<u8>)
    requires
        matches_at(s, i, a + b),
    ensures
        matches_at(s, i, a),
        matches_at(s, i + a.len(), b),
{
    assert forall|q: int| 0 <= q < a.len() implies s[i + q] == #[trigger] a[q] by {
        assert((a + b)[q] == a[q]);
    }
    assert forall|q: int| 0 <= q < b.len() implies s[i + a.len() + q] == #[trigger] b[q] by {
        assert((a + b)[a.len() + q] == b[q]);
    }
}

pub(crate) proof fn lemma_matches_byte(s: Seq<u8>, i: int, b: u8)
    requires
        matches_at(s, i, seq![b]),
    ensures
        s[i] == b,
{
    assert(seq![b][0] == b);
    assert(s[i + 0] == seq![b][0]);
}

pub(crate) proof fn lemma_encode_nonempty(v: SValue)
    ensures
        encode(v).len() > 0,
{
    match v {
        SValue::Int(_) => {},
        SValue::Str(b) => {
            lemma_dec_bytes(b.len());
        },
        _ => {},
    }
}

pub(crate) proof fn lemma_dec_bytes(n: nat)
    ensures
        dec_bytes(n).len() >= 1,
        all_digits(dec_bytes(n)),
        digits_value(dec_bytes(n)) == n,
        n > 0 ==> dec_bytes(n)[0] != 48,
        n == 0 ==> dec_bytes(n) == seq![48u8],
    decreases n,
{
    if n >= 10 {
        lemma_dec_bytes(n / 10);
        let t = dec_bytes(n / 10);
        let d = (48 + n % 10) as u8;
        assert(dec_bytes(n) == t.push(d));
        lemma_digits_value_push(t, d);
        assert(n == (n / 10) * 10 + n % 10);
        assert forall|k: int| 0 <= k < dec_bytes(n).len() implies is_digit(
            #[trigger] dec_bytes(n)[k],
        ) by {
            if k < t.len() {
                assert(dec_bytes(n)[k] == t[k]);
            }
        }
        assert(dec_bytes(n)[0] == t[0]);
    } else {
        assert(dec_bytes(n) == Seq::<u8>::empty().push((48 + n) as u8));
        lemma_digits_value_push(Seq::<u8>::empty(), (48 + n) as u8);
    }
}

proof fn lemma_find_byte_at(s: Seq<u8>, i: int, j: int, c: u8)
    requires
        0 <= i <= j < s.len(),
        s[j] == c,
        forall|k: int| i <= k < j ==> s[k] != c,
    ensures
        find_byte(s, i, c) == j,
    decreases j - i,
{
    if i < j {
        lemma_find_byte_at(s, i + 1, j, c);
    }
}

proof fn lemma_int_stop_at(s: Seq<u8>, i: int, j: int)
    requires
        0 <= i <= j < s.len(),
        s[j] == 101,
        forall|k: int| i <= k < j ==> s[k] != 101 && is_int_char(#[trigger] s[k]),
    ensures
        int_stop(s, i) == j,
    decreases j - i,
{
    if i < j {
        lemma_int_stop_at(s, i + 1, j);
    }
}

proof fn lemma_subrange_matches(s: Seq<u8>, i: int, e: Seq<u8>)
    requires
        matches_at(s, i, e),
    ensures
        s.subrange(i, i + e.len()) == e,
{
    assert(s.subrange(i, i + e.len()) =~= e);
}

/// A byte string encoding decodes to the string.
#[verifier::spinoff_prover]
#[verifier::rlimit(40)]
proof fn lemma_str_item(s: Seq<u8>, i: int, b: Seq<u8>, nested: bool)
    requires
        b.len() <= usize::MAX,
        matches_at(s, i, encode(SValue::Str(b))),
    ensures
        spec_item(s, i, nested) == (ItemRes::Val(SValue::Str(b)), i + encode(SValue::Str(b)).len()),
{
    lemma_str_raw(s, i, b);
    lemma_dec_bytes(b.len());
    assert(s[i + 0] == encode(SValue::Str(b))[0]);
    assert(encode(SValue::Str(b))[0] == dec_bytes(b.len())[0]);
}

/// A byte string encoding is read as the string, its raw bytes being the
/// encoding.
#[verifier::spinoff_prover]
#[verifier::rlimit(40)]
pub(crate) proof fn lemma_str_raw(s: Seq<u8>, i: int, b: Seq<u8>)
    requires
        b.len() <= usize::MAX,
        matches_at(s, i, encode(SValue::Str(b))),
    ensures
        spec_byte_str(s, i) == (
            Ok::<(Seq<u8>, Seq<u8>), DecodeFault>((b, encode(SValue::Str(b)))),
            i + encode(SValue::Str(b)).len(),
        ),
{
    let db = dec_bytes(b.len());
    lemma_dec_bytes(b.len());
    lemma_matches_split(s, i, db + seq![58u8], b);
    lemma_matches_split(s, i, db, seq![58u8]);
    let colon = i + db.len();
    lemma_matches_byte(s, colon, 58);
    assert forall|k: int| i + 1 <= k < colon implies s[k] != 58 by {
        assert(s[i + (k - i)] == db[k - i]);
        assert(is_digit(db[k - i]));
    }
    lemma_find_byte_at(s, i + 1, colon, 58);
    lemma_subrange_matches(s, i, db);
    lemma_subrange_matches(s, colon + 1, b);
    assert(s[i] == db[0]);
    assert(db.push(58) + b =~= encode(SValue::Str(b)));
}

/// An integer encoding decodes to the integer.
#[verifier::spinoff_prover]
#[verifier::rlimit(40)]
proof fn lemma_int_item(s: Seq<u8>, i: int, n: int, nested: bool)
    requires
        i64::MIN <= n <= i64::MAX,
        matches_at(s, i, encode(SValue::Int(n))),
    ensures
        spec_item(s, i, nested) == (ItemRes::Val(SValue::Int(n)), i + encode(SValue::Int(n)).len()),
{
    lemma_int_raw(s, i, n);
    assert(s[i + 0] == encode(SValue::Int(n))[0]);
}

/// An integer encoding is read as the integer, its raw bytes being the
/// encoding.
#[verifier::spinoff_prover]
#[verifier::rlimit(40)]
pub(crate) proof fn lemma_int_raw(s: Seq<u8>, i: int, n: int)
    requires
        i64::MIN <= n <= i64::MAX,
        matches_at(s, i, encode(SValue::Int(n))),
    ensures
        spec_int(s, i) == (
            Ok::<(int, Seq<u8>), DecodeFault>((n, encode(SValue::Int(n)))),
            i + encode(SValue::Int(n)).len(),
        ),
{
    let t = int_text(n);
    lemma_matches_split(s, i, seq![105u8] + t, seq![101u8]);
    lemma_matches_split(s, i, seq![105u8], t);
    let m: nat = if n < 0 {
        (-n) as nat
    } else {
        n as nat
    };
    lemma_dec_bytes(m);
    let e = i + 1 + t.len();
    lemma_matches_byte(s, e, 101);
    lemma_matches_byte(s, i, 105);
    assert forall|k: int| i + 1 <= k < e implies s[k] != 101 && is_int_char(#[trigger] s[k]) by {
        assert(s[i + 1 + (k - i - 1)] == t[k - i - 1]);
        if n < 0 {
            if k - i - 1 > 0 {
                assert(t[k - i - 1] == dec_bytes(m)[k - i - 2]);
            }
        }
    }
    lemma_int_stop_at(s, i + 1, e);
    lemma_subrange_matches(s, i + 1, t);
    if n < 0 {
        assert(t.drop_first() =~= dec_bytes(m));
        assert(t[1] == dec_bytes(m)[0]);
        assert(!all_digits(t)) by {
            assert(!is_digit(t[0]));
        }
    }
    assert(!has_leading_zero(t));
    assert(int_text_value(t) == Some(n));
    assert(seq![105u8] + t + seq![101u8] =~= encode(SValue::Int(n)));
}

pub(crate) proof fn lemma_encode_list_front(l: Seq<SValue>)
    requires
        l.len() >= 1,
    ensures
        encode_list(l) == encode(l[0]) + encode_list(l.drop_first()),
    decreases l.len(),
{
    if l.len() == 1 {
        assert(l.drop_last() =~= Seq::<SValue>::empty());
        assert(l.drop_first() =~= Seq::<SValue>::empty());
        assert(encode_list(l) =~= encode(l[0]) + encode_list(l.drop_first()));
    } else {
        lemma_encode_list_front(l.drop_last());
        assert(l.drop_last().drop_first() =~= l.drop_first().drop_last());
        assert(l.drop_first().last() == l.last());
        assert(l.drop_last()[0] == l[0]);
        assert(encode_list(l) =~= encode(l[0]) + encode_list(l.drop_first()));
    }
}

/// An element encoding decodes to the element.
#[verifier::spinoff_prover]
#[verifier::rlimit(40)]
pub(crate) proof fn lemma_item_encode(s: Seq<u8>, i: int, v: SValue, nested: bool)
    requires
        wf_value(v),
        matches_at(s, i, encode(v)),
    ensures
        spec_item(s, i, nested) == (ItemRes::Val(v), i + encode(v).len()),
    decreases v, 0int,
{
    match v {
        SValue::Int(n) => lemma_int_item(s, i, n, nested),
        SValue::Str(b) => lemma_str_item(s, i, b, nested),
        SValue::List(l) => lemma_list_item(s, i, l, nested),
        SValue::Dict(d) => lemma_dict_item(s, i, d, nested),
    }
}

#[verifier::spinoff_prover]
#[verifier::rlimit(40)]
proof fn lemma_list_item(s: Seq<u8>, i: int, l: Seq<SValue>, nested: bool)
    requires
        wf_value(SValue::List(l)),
        matches_at(s, i, encode(SValue::List(l))),
    ensures
        spec_item(s, i, nested) == (ItemRes::Val(SValue::List(l)), i + encode(SValue::List(l)).len()),
    decreases l, l.len() + 1,
{
    lemma_matches_split(s, i, seq![108u8] + encode_list(l), seq![101u8]);
    lemma_matches_split(s, i, seq![108u8], encode_list(l));
    lemma_matches_byte(s, i, 108);
    lemma_matches_byte(s, i + 1 + encode_list(l).len(), 101);
    lemma_values_encode(s, i + 1, l);
}

#[verifier::spinoff_prover]
#[verifier::rlimit(40)]
proof fn lemma_dict_item(s: Seq<u8>, i: int, d: Seq<(Seq<u8>, SValue)>, nested: bool)
    requires
        wf_value(SValue::Dict(d)),
        matches_at(s, i, encode(SValue::Dict(d))),
    ensures
        spec_item(s, i, nested) == (ItemRes::Val(SValue::Dict(d)), i + encode(SValue::Dict(d)).len()),
    decreases d, d.len() + 1,
{
    let body = encode_by_index(d, canon_index(d, d.len() as int));
    lemma_matches_split(s, i, seq![100u8] + body, seq![101u8]);
    lemma_matches_split(s, i, seq![100u8], body);
    lemma_matches_byte(s, i, 100);
    lemma_canon_sorted(d, d.len() as int);
    assert(d.subrange(0, d.len() as int) =~= d);
    lemma_by_index_pairs(d, d.len() as int);
    assert(body == pairs_enc(d, 0));
    lemma_matches_byte(s, i + 1 + body.len(), 101);
    lemma_pairs_encode(s, i + 1, d, 0);
    assert(d.subrange(0, d.len() as int) =~= d);
    lemma_dict_of_flat(d, d.len() as int);
    assert(flat(d).len() % 2 == 0);
    assert(keys_are_strs(flat(d)));
}

/// A dictionary with sorted keys is encoded with its pairs in the stored
/// order.
pub(crate) proof fn lemma_dict_encode(d: Seq<(Seq<u8>, SValue)>)
    requires
        keys_sorted(d),
    ensures
        encode(SValue::Dict(d)) == seq![100u8] + pairs_enc(d, 0) + seq![101u8],
{
    lemma_canon_sorted(d, d.len() as int);
    lemma_by_index_pairs(d, d.len() as int);
    assert(pairs_enc(d, d.len() as int) =~= Seq::<u8>::empty());
    assert(encode_by_index(d, range(d.len() as int)) + Seq::<u8>::empty() =~= encode_by_index(
        d,
        range(d.len() as int),
    ));
}

/// Encodings of the elements of a list, followed by `e`, decode to the list.
#[verifier::spinoff_prover]
#[verifier::rlimit(40)]
proof fn lemma_values_encode(s: Seq<u8>, i: int, l: Seq<SValue>)
    requires
        forall|k: int| 0 <= k < l.len() ==> wf_value(#[trigger] l[k]),
        matches_at(s, i, encode_list(l)),
        i + encode_list(l).len() < s.len(),
        s[i + encode_list(l).len()] == 101,
    ensures
        spec_values(s, i, true) == (Ok::<Seq<SValue>, DecodeFault>(l), i + encode_list(l).len() + 1),
    decreases l, l.len(),
{
    if l.len() == 0 {
        assert(encode_list(l) == Seq::<u8>::empty());
        assert(spec_item(s, i, true) == (ItemRes::Close, i + 1));
        assert(l =~= Seq::<SValue>::empty());
    } else {
        lemma_encode_list_front(l);
        lemma_matches_split(s, i, encode(l[0]), encode_list(l.drop_first()));
        lemma_item_encode(s, i, l[0], true);
        lemma_encode_nonempty(l[0]);
        let j = i + encode(l[0]).len();
        assert(forall|k: int| 0 <= k < l.drop_first().len() ==> #[trigger] l.drop_first()[k] == l[k + 1]);
        lemma_values_encode(s, j, l.drop_first());
        assert(seq![l[0]] + l.drop_first() =~= l);
        assert(j + encode_list(l.drop_first()).len() == i + encode_list(l).len());
    }
}

/// Encodings of the pairs from `k` on, followed by `e`, decode to the keys
/// and values alternating.
#[verifier::spinoff_prover]
#[verifier::rlimit(40)]
proof fn lemma_pairs_encode(s: Seq<u8>, i: int, d: Seq<(Seq<u8>, SValue)>, k: int)
    requires
        0 <= k <= d.len(),
        forall|q: int|
            0 <= q < d.len() ==> (#[trigger] d[q]).0.len() <= usize::MAX && wf_value(d[q].1),
        matches_at(s, i, pairs_enc(d, k)),
        i + pairs_enc(d, k).len() < s.len(),
        s[i + pairs_enc(d, k).len()] == 101,
    ensures
        spec_values(s, i, true) == (
            Ok::<Seq<SValue>, DecodeFault>(flat(d.subrange(k, d.len() as int))),
            i + pairs_enc(d, k).len() + 1,
        ),
    decreases d, d.len() - k,
{
    if k >= d.len() {
        assert(flat(d.subrange(k, d.len() as int)) =~= Seq::<SValue>::empty());
    } else {
        let ke = encode(SValue::Str(d[k].0));
        let ve = encode(d[k].1);
        assert(pairs_enc(d, k) == ke + ve + pairs_enc(d, k + 1));
        lemma_matches_split(s, i, ke + ve, pairs_enc(d, k + 1));
        lemma_matches_split(s, i, ke, ve);
        lemma_str_item(s, i, d[k].0, true);
        lemma_encode_nonempty(SValue::Str(d[k].0));
        lemma_encode_nonempty(d[k].1);
        let j = i + ke.len();
        lemma_item_encode(s, j, d[k].1, true);
        let j2 = j + ve.len();
        lemma_pairs_encode(s, j2, d, k + 1);
        let rest = flat(d.subrange(k + 1, d.len() as int));
        assert(spec_values(s, j, true) == (
            Ok::<Seq<SValue>, DecodeFault>(seq![d[k].1] + rest),
            i + pairs_enc(d, k).len() + 1,
        ));
        lemma_flat_cons(d, k);
        assert(seq![SValue::Str(d[k].0)] + (seq![d[k].1] + rest) =~= seq![SValue::Str(d[k].0), d[k].1] + rest);
        assert(spec_item(s, i, true) == (ItemRes::Val(SValue::Str(d[k].0)), j));
        assert(i < j <= s.len());
        assert(spec_values(s, i, true) == (
            Ok::<Seq<SValue>, DecodeFault>(seq![SValue::Str(d[k].0)] + (seq![d[k].1] + rest)),
            i + pairs_enc(d, k).len() + 1,
        ));
    }
}

/// The keys and values from `k` on: the pair at `k`, then those after it.
proof fn lemma_flat_cons(d: Seq<(Seq<u8>, SValue)>, k: int)
    requires
        0 <= k < d.len(),
    ensures
        flat(d.subrange(k, d.len() as int)) == seq![SValue::Str(d[k].0), d[k].1] + flat(
            d.subrange(k + 1, d.len() as int),
        ),
{
    let a = flat(d.subrange(k, d.len() as int));
    let b = seq![SValue::Str(d[k].0), d[k].1] + flat(d.subrange(k + 1, d.len() as int));
    assert forall|q: int| 0 <= q < a.len() implies a[q] == b[q] by {
        if q >= 2 {
            assert((q - 2) / 2 == q / 2 - 1 && (q - 2) % 2 == q % 2) by (nonlinear_arith)
                requires
                    q >= 2,
            ;
        } else if q == 1 {
            assert(1int / 2 == 0 && 1int % 2 == 1) by (nonlinear_arith);
        } else {
            assert(0int / 2 == 0 && 0int % 2 == 0) by (nonlinear_arith);
        }
    }
    assert(a =~= b);
}

proof fn lemma_insert_pos_end(d: Seq<(Seq<u8>, SValue)>, key: Seq<u8>, j: int)
    requires
        0 <= j <= d.len(),
        forall|q: int| 0 <= q < d.len() ==> lex_lt(#[trigger] d[q].0, key),
    ensures
        insert_pos(d, key, j) == d.len(),
    decreases d.len() - j,
{
    if j < d.len() {
        lemma_insert_pos_end(d, key, j + 1);
    }
}

proof fn lemma_lex_irrefl(a: Seq<u8>)
    ensures
        !lex_lt(a, a),
    decreases a.len(),
{
    if a.len() > 0 {
        lemma_lex_irrefl(a.drop_first());
    }
}

/// With sorted keys, the encoding order is the stored order.
#[verifier::spinoff_prover]
#[verifier::rlimit(40)]
proof fn lemma_canon_sorted(d: Seq<(Seq<u8>, SValue)>, n: int)
    requires
        0 <= n <= d.len(),
        keys_sorted(d),
    ensures
        canon_index(d, n) == range(n),
    decreases n,
{
    if n > 0 {
        lemma_canon_sorted(d, n - 1);
        let prev = range(n - 1);
        assert(pick(d, prev) =~= d.subrange(0, n - 1));
        assert forall|q: int| 0 <= q < pick(d, prev).len() implies lex_lt(
            #[trigger] pick(d, prev)[q].0,
            d[n - 1].0,
        ) by {
            assert(pick(d, prev)[q] == d[q]);
        }
        lemma_insert_pos_end(pick(d, prev), d[n - 1].0, 0);
        assert(canon_index(d, n) == idx_insert(d, prev, n - 1));
        assert(prev.insert(n - 1, n - 1) =~= range(n));
    }
}

#[verifier::spinoff_prover]
#[verifier::rlimit(40)]
proof fn lemma_by_index_pairs(d: Seq<(Seq<u8>, SValue)>, m: int)
    requires
        0 <= m <= d.len(),
    ensures
        encode_by_index(d, range(m)) + pairs_enc(d, m) == pairs_enc(d, 0),
    decreases m,
{
    if m == 0 {
        assert(range(0) =~= Seq::<int>::empty());
        assert(Seq::<u8>::empty() + pairs_enc(d, 0) =~= pairs_enc(d, 0));
    } else {
        lemma_by_index_pairs(d, m - 1);
        assert(range(m).drop_last() =~= range(m - 1));
        assert(range(m).last() == m - 1);
        let a = encode_by_index(d, range(m - 1));
        assert(encode_by_index(d, range(m)) == a + dec_bytes(d[m - 1].0.len()) + seq![58u8]
            + d[m - 1].0 + encode(d[m - 1].1));
        assert(pairs_enc(d, m - 1) == enc_pair(d, m - 1) + pairs_enc(d, m));
        assert(encode_by_index(d, range(m)) + pairs_enc(d, m) =~= a + pairs_enc(d, m - 1));
    }
}

/// With sorted keys, rebuilding the dictionary from its pairs gives it back.
#[verifier::spinoff_prover]
#[verifier::rlimit(40)]
proof fn lemma_dict_of_flat(d: Seq<(Seq<u8>, SValue)>, m: int)
    requires
        0 <= m <= d.len(),
        keys_sorted(d),
    ensures
        dict_of(flat(d.subrange(0, m))) == d.subrange(0, m),
    decreases m,
{
    if m > 0 {
        lemma_dict_of_flat(d, m - 1);
        let f = flat(d.subrange(0, m));
        assert(f.subrange(0, 2 * m - 2) =~= flat(d.subrange(0, m - 1)));
        assert(f[2 * m - 2] == SValue::Str(d[m - 1].0));
        assert(f[2 * m - 1] == d[m - 1].1);
        let pre = d.subrange(0, m - 1);
        assert forall|q: int| 0 <= q < pre.len() implies lex_lt(#[trigger] pre[q].0, d[m - 1].0) by {
            assert(pre[q] == d[q]);
        }
        lemma_insert_pos_end(pre, d[m - 1].0, 0);
        assert(dict_of(f) == dict_insert(pre, d[m - 1].0, d[m - 1].1));
        assert(pre.insert(m - 1, (d[m - 1].0, d[m - 1].1)) =~= d.subrange(0, m));
    } else {
        assert(flat(d.subrange(0, 0)) =~= Seq::<SValue>::empty());
        assert(d.subrange(0, 0) =~= Seq::<(Seq<u8>, SValue)>::empty());
    }
}

/// Decoding the encoding of a value gives back exactly that value, for every
/// value that bencode can carry (integers within i64, string lengths within
/// usize, dictionary keys strictly increasing).
pub proof fn lemma_decode_encode(v: SValue)
    requires
        wf_value(v),
    ensures
        spec_decode(encode(v)) == Ok::<Seq<SValue>, DecodeFault>(seq![v]),
{
    let s = encode(v);
    assert(matches_at(s, 0, s));
    lemma_item_encode(s, 0, v, false);
    lemma_encode_nonempty(v);
    assert(spec_values(s, s.len() as int, false) == (Ok::<Seq<SValue>, DecodeFault>(seq![]), s.len() as int));
    assert(seq![v] + Seq::<SValue>::empty() =~= seq![v]);
}

} // verus!
