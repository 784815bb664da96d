//! The bencode value and its mathematical model.

use vstd::prelude::*;

verus! {

/// Kind of a bencoded element, told by its first byte.
#[derive(PartialEq, Eq, Debug, Clone, Copy)]
pub enum Delimiter {
    Num,
    Int,
    List,
    Dict,
    End,
    Unknown,
}

/// Whether a byte is an ASCII decimal digit.
pub open spec fn is_digit(b: u8) -> bool {
    48 <= b <= 57
}

/// The kind that a byte announces.
pub open spec fn delimiter_of(b: u8) -> Delimiter {
    if is_digit(b) {
        Delimiter::Num
    } else if b == 105 {
        Delimiter::Int
    } else if b == 108 {
        Delimiter::List
    } else if b == 100 {
        Delimiter::Dict
    } else if b == 101 {
        Delimiter::End
    } else {
        Delimiter::Unknown
    }
}

impl Delimiter {
    /// Classifies a byte: digits start byte strings, `i` integers, `l` lists,
    /// `d` dictionaries and `e` ends a list or dictionary.
    pub fn from_byte(b: u8) -> (r: Delimiter)
        ensures
            r == delimiter_of(b),
    {
        if b >= 48 && b <= 57 {
            Delimiter::Num
        } else if b == 105 {
            Delimiter::Int
        } else if b == 108 {
            Delimiter::List
        } else if b == 100 {
            Delimiter::Dict
        } else if b == 101 {
            Delimiter::End
        } else {
            Delimiter::Unknown
        }
    }
}

/// Mathematical model of a bencode value. A dictionary is a sequence of
/// (key, value) pairs.
pub enum SValue {
    Int(int),
    Str(Seq<u8>),
    List(Seq<SValue>),
    Dict(Seq<(Seq<u8>, SValue)>),
}

/// [Bencode](https://en.wikipedia.org/wiki/Bencode) representation. BEP3 specifies four
/// basic types: integer, string (any byte array), list and dictionary.
///
/// A dictionary is held as a vector of (key, value) pairs. The decoder produces
/// dictionaries whose keys are strictly increasing in byte order, one entry per
/// key, the last occurrence in the input winning. Lookups read a dictionary as
/// a map in which a later pair overrides an earlier one with the same key.
#[derive(PartialEq, Debug)]
pub enum BValue {
    /// Integer representation (i64).
    Int(i64),
    /// String representation, more precisely any byte array.
    ByteStr(Vec<u8>),
    /// List of values.
    List(Vec<BValue>),
    /// Dictionary from byte-string keys to values.
    Dict(Vec<(Vec<u8>, BValue)>),
}

impl BValue {
    /// The model of the value.
    pub open spec fn sv(&self) -> SValue
        decreases self,
    {
        match self {
            BValue::Int(n) => SValue::Int(*n as int),
            BValue::ByteStr(b) => SValue::Str(b@),
            BValue::List(l) => SValue::List(
                Seq::new(
                    l@.len(),
                    |i: int|
                        if 0 <= i < l@.len() {
                            l@[i].sv()
                        } else {
                            SValue::Int(0)
                        },
                ),
            ),
            BValue::Dict(d) => SValue::Dict(
                Seq::new(
                    d@.len(),
                    |i: int|
                        if 0 <= i < d@.len() {
                            (d@[i].0@, d@[i].1.sv())
                        } else {
                            (Seq::empty(), SValue::Int(0))
                        },
                ),
            ),
        }
    }
}

/// Model of a sequence of values.
pub open spec fn svs(s: Seq<BValue>) -> Seq<SValue> {
    Seq::new(s.len(), |i: int| s[i].sv())
}

/// Model of a sequence of dictionary pairs.
pub open spec fn sdict(s: Seq<(Vec<u8>, BValue)>) -> Seq<(Seq<u8>, SValue)> {
    Seq::new(s.len(), |i: int| (s[i].0@, s[i].1.sv()))
}

/// Unfolds the model of a list and of a dictionary.
pub proof fn lemma_sv_unfold(v: BValue)
    ensures
        v matches BValue::List(l) ==> v.sv() == SValue::List(svs(l@)),
        v matches BValue::Dict(d) ==> v.sv() == SValue::Dict(sdict(d@)),
{
    match v {
        BValue::List(l) => {
            assert(v.sv()->List_0 =~= svs(l@));
        },
        BValue::Dict(d) => {
            assert(v.sv()->Dict_0 =~= sdict(d@));
        },
        _ => {},
    }
}

/// Value of the last pair with the given key: the dictionary read as a map.
pub open spec fn dict_get(d: Seq<(Seq<u8>, SValue)>, key: Seq<u8>) -> Option<SValue>
    decreases d.len(),
{
    if d.len() == 0 {
        None
    } else if d.last().0 == key {
        Some(d.last().1)
    } else {
        dict_get(d.drop_last(), key)
    }
}

/// Looks a key up in a dictionary read as a map: the value of the last pair
/// with that key.
pub fn dict_lookup<'a>(d: &'a Vec<(Vec<u8>, BValue)>, key: &[u8]) -> (r: Option<&'a BValue>)
    ensures
        r matches Some(v) ==> dict_get(sdict(d@), key@) == Some(v.sv()),
        r is None ==> dict_get(sdict(d@), key@) is None,
{
    let mut k = d.len();
    assert(sdict(d@).subrange(0, k as int) =~= sdict(d@));
    while k > 0
        invariant
            k <= d@.len(),
            dict_get(sdict(d@), key@) == dict_get(sdict(d@).subrange(0, k as int), key@),
        decreases k,
    {
        let ghost pre = sdict(d@).subrange(0, k as int);
        assert(pre.last() == (d@[k - 1].0@, d@[k - 1].1.sv()));
        assert(pre.drop_last() =~= sdict(d@).subrange(0, k - 1));
        if crate::bcodec::bdecoder::bytes_equal(d[k - 1].0.as_slice(), key) {
            return Some(&d[k - 1].1);
        }
        k = k - 1;
    }
    assert(sdict(d@).subrange(0, 0) =~= Seq::<(Seq<u8>, SValue)>::empty());
    None
}

} // verus!
