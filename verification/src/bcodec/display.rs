//! The text of a bencode value, for logs.

use vstd::prelude::*;
use vstd::utf8::*;

use crate::bcodec::bvalue::{lemma_sv_unfold, sdict, svs, BValue, SValue};
use crate::text::{append_dec, dec_chars, utf8_string};

verus! {

/// Decimal text of an integer, with a minus sign when negative.
pub open spec fn signed_text(n: int) -> Seq<char> {
    if n < 0 {
        "-"@ + dec_chars((-n) as nat)
    } else {
        dec_chars(n as nat)
    }
}

/// The bytes written as a list of decimal numbers: `[1, 2, 3]`.
pub open spec fn bytes_debug(b: Seq<u8>) -> Seq<char> {
    "["@ + bytes_items(b) + "]"@
}

/// The bytes as decimal numbers separated by `, `.
pub open spec fn bytes_items(b: Seq<u8>) -> Seq<char>
    decreases b.len(),
{
    if b.len() == 0 {
        Seq::empty()
    } else if b.len() == 1 {
        dec_chars(b[0] as nat)
    } else {
        bytes_items(b.drop_last()) + ", "@ + dec_chars(b.last() as nat)
    }
}

/// The text of a byte string: as text where it is UTF-8, else its bytes.
pub open spec fn str_text(b: Seq<u8>) -> Seq<char> {
    if valid_utf8(b) {
        "Str: "@ + decode_utf8(b)
    } else {
        "Str="@ + bytes_debug(b)
    }
}

/// The text of a value: its kind and contents, the elements of lists and
/// dictionaries each followed by `, `.
pub open spec fn value_text(v: SValue) -> Seq<char>
    decreases v,
{
    match v {
        SValue::Int(n) => "Int: "@ + signed_text(n),
        SValue::Str(b) => str_text(b),
        SValue::List(l) => "List: ["@ + list_text(l) + "]"@,
        SValue::Dict(d) => "Dict: ["@ + dict_text(d) + "]"@,
    }
}

/// The texts of the elements of a list, each followed by `, `.
pub open spec fn list_text(l: Seq<SValue>) -> Seq<char>
    decreases l,
{
    if l.len() == 0 {
        Seq::empty()
    } else {
        list_text(l.drop_last()) + value_text(l.last()) + ", "@
    }
}

/// The texts of the entries of a dictionary: `key => value, ` each.
pub open spec fn dict_text(d: Seq<(Seq<u8>, SValue)>) -> Seq<char>
    decreases d,
{
    if d.len() == 0 {
        Seq::empty()
    } else {
        dict_text(d.drop_last()) + str_text(d.last().0) + " => "@ + value_text(d.last().1) + ", "@
    }
}

/// Appends the decimal text of an integer.
fn append_signed(s: &mut String, n: i64)
    ensures
        final(s)@ == old(s)@ + signed_text(n as int),
{
    if n < 0 {
        s.append("-");
        let m: u64 = if n == i64::MIN {
            9223372036854775808u64
        } else {
            (-n) as u64
        };
        append_dec(s, m);
    } else {
        append_dec(s, n as u64);
    }
}

/// Appends the bytes as a list of decimal numbers.
fn append_bytes_debug(s: &mut String, b: &Vec<u8>)
    ensures
        final(s)@ == old(s)@ + bytes_debug(b@),
{
    s.append("[");
    let ghost start = s@;
    let mut i: usize = 0;
    while i < b.len()
        invariant
            i <= b@.len(),
            s@ == start + bytes_items(b@.subrange(0, i as int)),
        decreases b@.len() - i,
    {
        assert(b@.subrange(0, i + 1).drop_last() =~= b@.subrange(0, i as int));
        if i > 0 {
            s.append(", ");
        }
        append_dec(s, b[i] as u64);
        i = i + 1;
        proof {
            if i == 1 {
                assert(b@.subrange(0, 1).len() == 1);
            }
        }
    }
    assert(b@.subrange(0, b@.len() as int) =~= b@);
    s.append("]");
}

/// Appends the text of a byte string.
fn append_str(s: &mut String, b: &Vec<u8>)
    ensures
        final(s)@ == old(s)@ + str_text(b@),
{
    match utf8_string(b.as_slice()) {
        Some(t) => {
            s.append("Str: ");
            s.append(t.as_str());
        },
        None => {
            s.append("Str=");
            append_bytes_debug(s, b);
        },
    }
}

/// Appends the text of a value.
fn append_value(s: &mut String, v: &BValue)
    ensures
        final(s)@ == old(s)@ + value_text(v.sv()),
    decreases v,
{
    proof {
        lemma_sv_unfold(*v);
    }
    match v {
        BValue::Int(n) => {
            s.append("Int: ");
            append_signed(s, *n);
        },
        BValue::ByteStr(b) => {
            append_str(s, b);
        },
        BValue::List(l) => {
            s.append("List: [");
            append_list(s, l);
            s.append("]");
        },
        BValue::Dict(d) => {
            s.append("Dict: [");
            append_dict(s, d);
            s.append("]");
        },
    }
}

/// Appends the texts of the elements of a list.
fn append_list(s: &mut String, l: &Vec<BValue>)
    ensures
        final(s)@ == old(s)@ + list_text(svs(l@)),
    decreases l,
{
    let ghost start = s@;
    let mut i: usize = 0;
    while i < l.len()
        invariant
            i <= l@.len(),
            s@ == start + list_text(svs(l@).subrange(0, i as int)),
        decreases l@.len() - i,
    {
        let ghost pre = svs(l@).subrange(0, i + 1);
        assert(pre.drop_last() =~= svs(l@).subrange(0, i as int));
        append_value(s, &l[i]);
        s.append(", ");
        i = i + 1;
    }
    assert(svs(l@).subrange(0, l@.len() as int) =~= svs(l@));
}

/// Appends the texts of the entries of a dictionary.
fn append_dict(s: &mut String, d: &Vec<(Vec<u8>, BValue)>)
    ensures
        final(s)@ == old(s)@ + dict_text(sdict(d@)),
    decreases d,
{
    let ghost start = s@;
    let mut i: usize = 0;
    while i < d.len()
        invariant
            i <= d@.len(),
            s@ == start + dict_text(sdict(d@).subrange(0, i as int)),
        decreases d@.len() - i,
    {
        let ghost pre = sdict(d@).subrange(0, i + 1);
        assert(pre.drop_last() =~= sdict(d@).subrange(0, i as int));
        append_str(s, &d[i].0);
        s.append(" => ");
        append_value(s, &d[i].1);
        s.append(", ");
        i = i + 1;
    }
    assert(sdict(d@).subrange(0, d@.len() as int) =~= sdict(d@));
}

impl BValue {
    /// The text of the value: `Int: 5`, `Str: text` (or `Str=[1, 2]` for
    /// bytes that are not UTF-8), `List: [v, v, ]`, `Dict: [k => v, ]`.
    pub fn to_text(&self) -> (r: String)
        ensures
            r@ == value_text(self.sv()),
    {
        let mut s = String::new();
        append_value(&mut s, self);
        s
    }
}

} // verus!
