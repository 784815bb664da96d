//! Bencode encoder.

use crate::bcodec::bdecoder::{dict_insert, insert_pos, lex_less, bytes_equal, lemma_insert_pos_bounds};
use crate::bcodec::bvalue::{lemma_sv_unfold, sdict, svs, BValue, SValue};
use vstd::prelude::*;

verus! {

// ---------------------------------------------------------------------------
// Specification
// ---------------------------------------------------------------------------

/// Decimal digits of a natural number as ASCII bytes.
pub open spec fn dec_bytes(n: nat) -> Seq<u8>
    decreases n,
{
    if n < 10 {
        seq![(48 + n) as u8]
    } else {
        dec_bytes(n / 10).push((48 + n % 10) as u8)
    }
}

/// Decimal text of an integer, with a leading `-` when negative.
pub open spec fn int_text(n: int) -> Seq<u8> {
    if n < 0 {
        seq![45u8] + dec_bytes((-n) as nat)
    } else {
        dec_bytes(n as nat)
    }
}

/// The pairs of a dictionary selected by a sequence of indices.
pub open spec fn pick(d: Seq<(Seq<u8>, SValue)>, idx: Seq<int>) -> Seq<(Seq<u8>, SValue)> {
    Seq::new(idx.len(), |q: int| d[idx[q]])
}

/// Puts index `j` into an index sequence kept in key order, replacing the
/// index of an equal key.
pub open spec fn idx_insert(d: Seq<(Seq<u8>, SValue)>, idx: Seq<int>, j: int) -> Seq<int> {
    let p = insert_pos(pick(d, idx), d[j].0, 0);
    if p < idx.len() && d[idx[p]].0 == d[j].0 {
        idx.update(p, j)
    } else {
        idx.insert(p, j)
    }
}

/// Indices of the pairs `0..n` in key order, one per key, the later pair
/// winning: the order in which a dictionary is encoded.
pub open spec fn canon_index(d: Seq<(Seq<u8>, SValue)>, n: int) -> Seq<int>
    decreases n,
{
    if n <= 0 {
        seq![]
    } else {
        idx_insert(d, canon_index(d, n - 1), n - 1)
    }
}

/// Bencoding of a value. Dictionary entries are written in key order, one per
/// key.
pub open spec fn encode(v: SValue) -> Seq<u8>
    decreases v, 0int,
{
    match v {
        SValue::Int(n) => seq![105u8] + int_text(n) + seq![101u8],
        SValue::Str(b) => dec_bytes(b.len()) + seq![58u8] + b,
        SValue::List(l) => seq![108u8] + encode_list(l) + seq![101u8],
        SValue::Dict(d) => seq![100u8] + encode_by_index(d, canon_index(d, d.len() as int))
            + seq![101u8],
    }
}

/// Concatenated bencodings of the values of a list.
pub open spec fn encode_list(l: Seq<SValue>) -> Seq<u8>
    decreases l, l.len(),
{
    if l.len() == 0 {
        seq![]
    } else {
        encode_list(l.drop_last()) + encode(l.last())
    }
}

/// Concatenated bencodings of the pairs of a dictionary selected by `idx`.
pub open spec fn encode_by_index(d: Seq<(Seq<u8>, SValue)>, idx: Seq<int>) -> Seq<u8>
    decreases d, idx.len(),
{
    if idx.len() == 0 {
        seq![]
    } else {
        let j = idx.last();
        if 0 <= j < d.len() {
            encode_by_index(d, idx.drop_last()) + dec_bytes(d[j].0.len()) + seq![58u8] + d[j].0
                + encode(d[j].1)
        } else {
            encode_by_index(d, idx.drop_last())
        }
    }
}

/// The encoding order only selects existing pairs.
pub proof fn lemma_canon_index_range(d: Seq<(Seq<u8>, SValue)>, n: int)
    requires
        0 <= n <= d.len(),
    ensures
        forall|q: int|
            0 <= q < canon_index(d, n).len() ==> 0 <= #[trigger] canon_index(d, n)[q] < n,
    decreases n,
{
    if n > 0 {
        lemma_canon_index_range(d, n - 1);
        let prev = canon_index(d, n - 1);
        let p = insert_pos(pick(d, prev), d[n - 1].0, 0);
        assert(canon_index(d, n) == idx_insert(d, prev, n - 1));
        lemma_insert_pos_bounds(pick(d, prev), d[n - 1].0, 0);
        assert forall|q: int|
            0 <= q < canon_index(d, n).len() implies 0 <= #[trigger] canon_index(d, n)[q] < n by {
            if p < prev.len() && d[prev[p]].0 == d[n - 1].0 {
                if q != p {
                    assert(canon_index(d, n)[q] == prev[q]);
                }
            } else {
                if q < p {
                    assert(canon_index(d, n)[q] == prev[q]);
                } else if q > p {
                    assert(canon_index(d, n)[q] == prev[q - 1]);
                }
            }
        }
    }
}

// ---------------------------------------------------------------------------
// Executable encoder
// ---------------------------------------------------------------------------

/// Appends the decimal digits of `n`.
fn push_dec(out: &mut Vec<u8>, n: u64)
    ensures
        final(out)@ == old(out)@ + dec_bytes(n as nat),
    decreases n,
{
    if n >= 10 {
        push_dec(out, n / 10);
    }
    let ghost mid = out@;
    out.push((48 + n % 10) as u8);
    proof {
        if n >= 10 {
            assert(old(out)@ + dec_bytes(n as nat) =~= mid.push((48 + n % 10) as u8));
        } else {
            assert(old(out)@ + dec_bytes(n as nat) =~= old(out)@.push((48 + n % 10) as u8));
        }
    }
}

/// Appends the bencoding of an integer.
fn push_int(out: &mut Vec<u8>, value: i64)
    ensures
        final(out)@ == old(out)@ + encode(SValue::Int(value as int)),
{
    out.push(105);
    if value < 0 {
        out.push(45);
        let m: u64 = if value == i64::MIN {
            9223372036854775808
        } else {
            (-value) as u64
        };
        push_dec(out, m);
    } else {
        push_dec(out, value as u64);
    }
    out.push(101);
    assert(final(out)@ =~= old(out)@ + encode(SValue::Int(value as int)));
}

/// Appends the bencoding of a byte string.
fn push_byte_str(out: &mut Vec<u8>, value: &[u8])
    ensures
        final(out)@ == old(out)@ + encode(SValue::Str(value@)),
{
    push_dec(out, value.len() as u64);
    out.push(58);
    let mut k: usize = 0;
    let ghost base = out@;
    while k < value.len()
        invariant
            k <= value@.len(),
            out@ == base + value@.subrange(0, k as int),
        decreases value@.len() - k,
    {
        out.push(value[k]);
        assert(out@ =~= base + value@.subrange(0, k + 1));
        k = k + 1;
    }
    assert(value@.subrange(0, value@.len() as int) =~= value@);
    assert(final(out)@ =~= old(out)@ + encode(SValue::Str(value@)));
}

/// Indices of the pairs of `d` in key order, one per key, the later pair
/// winning.
fn canonical_order(d: &Vec<(Vec<u8>, BValue)>) -> (r: Vec<usize>)
    ensures
        r@.len() == canon_index(sdict(d@), d@.len() as int).len(),
        forall|q: int|
            0 <= q < r@.len() ==> #[trigger] r@[q] as int == canon_index(
                sdict(d@),
                d@.len() as int,
            )[q],
{
    let ghost sd = sdict(d@);
    let mut idx: Vec<usize> = Vec::new();
    let mut j: usize = 0;
    while j < d.len()
        invariant
            j <= d@.len(),
            sd == sdict(d@),
            idx@.len() == canon_index(sd, j as int).len(),
            forall|q: int|
                0 <= q < idx@.len() ==> #[trigger] idx@[q] as int == canon_index(sd, j as int)[q],
            forall|q: int| 0 <= q < idx@.len() ==> 0 <= #[trigger] idx@[q] < j,
        decreases d@.len() - j,
    {
        let ghost cur = canon_index(sd, j as int);
        let ghost picked = pick(sd, cur);
        let mut p: usize = 0;
        while p < idx.len() && lex_less(&d[idx[p]].0, &d[j].0)
            invariant
                p <= idx@.len(),
                j < d@.len(),
                sd == sdict(d@),
                idx@.len() == cur.len(),
                forall|q: int| 0 <= q < idx@.len() ==> #[trigger] idx@[q] as int == cur[q],
                forall|q: int| 0 <= q < idx@.len() ==> 0 <= #[trigger] idx@[q] < j,
                picked == pick(sd, cur),
                insert_pos(picked, sd[j as int].0, 0) == insert_pos(picked, sd[j as int].0, p as int),
            decreases idx@.len() - p,
        {
            assert(picked[p as int] == sd[cur[p as int]]);
            p = p + 1;
        }
        proof {
            if p < idx@.len() {
                assert(picked[p as int] == sd[cur[p as int]]);
            }
        }
        if p < idx.len() && bytes_equal(d[idx[p]].0.as_slice(), d[j].0.as_slice()) {
            idx[p] = j;
            proof {
                assert(canon_index(sd, j + 1) == cur.update(p as int, j as int));
            }
        } else {
            idx.insert(p, j);
            proof {
                assert(canon_index(sd, j + 1) == cur.insert(p as int, j as int));
            }
        }
        j = j + 1;
    }
    idx
}

/// Appends the bencoding of a value.
fn push_value(out: &mut Vec<u8>, v: &BValue)
    ensures
        final(out)@ == old(out)@ + encode(v.sv()),
    decreases v,
{
    proof {
        lemma_sv_unfold(*v);
    }
    match v {
        BValue::Int(i) => push_int(out, *i),
        BValue::ByteStr(b) => push_byte_str(out, b.as_slice()),
        BValue::List(l) => {
            out.push(108);
            push_list(out, l);
            out.push(101);
            assert(final(out)@ =~= old(out)@ + encode(v.sv()));
        },
        BValue::Dict(d) => {
            out.push(100);
            push_dict(out, d);
            out.push(101);
            assert(final(out)@ =~= old(out)@ + encode(v.sv()));
        },
    }
}

/// Appends the bencodings of the values of a list.
fn push_list(out: &mut Vec<u8>, l: &Vec<BValue>)
    ensures
        final(out)@ == old(out)@ + encode_list(svs(l@)),
    decreases l,
{
    let ghost base = out@;
    let mut k: usize = 0;
    assert(svs(l@).subrange(0, 0) =~= seq![]);
    while k < l.len()
        invariant
            k <= l@.len(),
            out@ == base + encode_list(svs(l@).subrange(0, k as int)),
        decreases l@.len() - k,
    {
        push_value(out, &l[k]);
        proof {
            let pre = svs(l@).subrange(0, k + 1);
            assert(pre.drop_last() =~= svs(l@).subrange(0, k as int));
            assert(pre.last() == l@[k as int].sv());
            assert(out@ =~= base + encode_list(pre));
        }
        k = k + 1;
    }
    assert(svs(l@).subrange(0, l@.len() as int) =~= svs(l@));
}

/// Appends the bencodings of the entries of a dictionary in key order.
fn push_dict(out: &mut Vec<u8>, d: &Vec<(Vec<u8>, BValue)>)
    ensures
        final(out)@ == old(out)@ + encode_by_index(
            sdict(d@),
            canon_index(sdict(d@), d@.len() as int),
        ),
    decreases d,
{
    let ghost sd = sdict(d@);
    let ghost ci = canon_index(sd, d@.len() as int);
    let idx = canonical_order(d);
    let ghost base = out@;
    let mut q: usize = 0;
    assert(ci.subrange(0, 0) =~= seq![]);
    while q < idx.len()
        invariant
            q <= idx@.len(),
            idx@.len() == ci.len(),
            forall|t: int| 0 <= t < idx@.len() ==> #[trigger] idx@[t] as int == ci[t],
            sd == sdict(d@),
            ci == canon_index(sd, d@.len() as int),
            out@ == base + encode_by_index(sd, ci.subrange(0, q as int)),
        decreases idx@.len() - q,
    {
        let j = idx[q];
        proof {
            lemma_canon_index_range(sd, d@.len() as int);
            assert(idx@[q as int] as int == ci[q as int]);
            assert(0 <= ci[q as int] < d@.len());
        }
        push_byte_str(out, d[j].0.as_slice());
        push_value(out, &d[j].1);
        proof {
            let pre = ci.subrange(0, q + 1);
            assert(pre.drop_last() =~= ci.subrange(0, q as int));
            assert(pre.last() == j as int);
            assert(out@ =~= base + encode_by_index(sd, pre));
        }
        q = q + 1;
    }
    assert(ci.subrange(0, ci.len() as int) =~= ci);
}

/// Bencode encoder accumulating encoded values.
#[derive(PartialEq, Debug)]
pub struct BEncoder {
    data: Vec<u8>,
}

impl View for BEncoder {
    type V = Seq<u8>;

    closed spec fn view(&self) -> Seq<u8> {
        self.data@
    }
}

impl BEncoder {
    /// Creates an encoder with no data.
    pub fn new() -> (r: BEncoder)
        ensures
            r@ == Seq::<u8>::empty(),
    {
        BEncoder { data: Vec::new() }
    }

    /// Encoded data so far.
    pub fn encode(&self) -> (r: &Vec<u8>)
        ensures
            r@ == self@,
    {
        &self.data
    }

    /// Appends an integer.
    pub fn add_int(&mut self, value: i64) -> (r: &mut Self)
        ensures
            r@ == old(self)@ + encode(SValue::Int(value as int)),
            *final(self) == *final(r),
    {
        push_int(&mut self.data, value);
        self
    }

    /// Appends a byte string.
    pub fn add_byte_str(&mut self, value: &[u8]) -> (r: &mut Self)
        ensures
            r@ == old(self)@ + encode(SValue::Str(value@)),
            *final(self) == *final(r),
    {
        push_byte_str(&mut self.data, value);
        self
    }

    /// Appends a list of values.
    pub fn add_list(&mut self, values: &Vec<BValue>) -> (r: &mut Self)
        ensures
            r@ == old(self)@ + encode(SValue::List(svs(values@))),
            *final(self) == *final(r),
    {
        self.data.push(108);
        push_list(&mut self.data, values);
        self.data.push(101);
        assert(self@ =~= old(self)@ + encode(SValue::List(svs(values@))));
        self
    }

    /// Appends a dictionary; its entries are written in key order, one per
    /// key, a later pair replacing an earlier one with the same key.
    pub fn add_dict(&mut self, values: &Vec<(Vec<u8>, BValue)>) -> (r: &mut Self)
        ensures
            r@ == old(self)@ + encode(SValue::Dict(sdict(values@))),
            *final(self) == *final(r),
    {
        self.data.push(100);
        push_dict(&mut self.data, values);
        self.data.push(101);
        assert(self@ =~= old(self)@ + encode(SValue::Dict(sdict(values@))));
        self
    }
}

} // verus!
