//! Bencode decoder: the grammar as spec functions over bytes, and the
//! executable decoder proved against it.

use crate::bcodec::bvalue::{is_digit, lemma_sv_unfold, sdict, svs, BValue, Delimiter, SValue};
use crate::error::Error;
use crate::text::{pos_message, pos_msg, text};
use vstd::prelude::*;
use vstd::slice::*;
use vstd::string::*;

verus! {

/// What went wrong while decoding.
#[derive(PartialEq, Eq, Structural, Clone, Copy, Debug)]
pub enum FaultKind {
    /// A byte string's length holds a byte that is not a digit.
    ByteStrIncorrectChar,
    /// A byte string's length does not fit in a `usize`.
    ByteStrUnableConvert,
    /// A byte string is longer than what is left of the input.
    ByteStrNotEnoughChars,
    /// An integer holds a byte that is neither a digit nor `-`.
    IntIncorrectChar,
    /// An integer lacks its closing `e`.
    IntMissingTerminal,
    /// An integer has a superfluous leading zero.
    IntLeadingZero,
    /// An integer's text is not an `i64`.
    IntUnableConvert,
    /// A dictionary holds an odd number of elements.
    DictOddNumOfElements,
    /// A dictionary key is not a byte string.
    DictKeyNotString,
    /// A byte that starts no element.
    LoopIncorrectChar,
}

/// A decoding error: what went wrong, and the position of the element
/// that could not be decoded.
#[derive(PartialEq, Eq, Structural, Clone, Copy, Debug)]
pub struct DecodeFault {
    pub kind: FaultKind,
    pub pos: usize,
}

// ---------------------------------------------------------------------------
// Specification
// ---------------------------------------------------------------------------

/// The fault of kind `kind` at `pos`.
pub open spec fn fault(kind: FaultKind, pos: int) -> DecodeFault {
    DecodeFault { kind, pos: pos as usize }
}

/// The message of a fault, in the form `element [pos]: what`.
pub open spec fn fault_text(f: DecodeFault) -> Seq<char> {
    let p = f.pos as nat;
    match f.kind {
        FaultKind::ByteStrIncorrectChar => pos_msg("ByteStr"@, p, "Incorrect character"@),
        FaultKind::ByteStrUnableConvert => pos_msg("ByteStr"@, p, "Unable convert to int"@),
        FaultKind::ByteStrNotEnoughChars => pos_msg("ByteStr"@, p, "Not enough characters"@),
        FaultKind::IntIncorrectChar => pos_msg("Int"@, p, "Incorrect character"@),
        FaultKind::IntMissingTerminal => pos_msg("Int"@, p, "Missing terminate character 'e'"@),
        FaultKind::IntLeadingZero => pos_msg("Int"@, p, "Leading zero"@),
        FaultKind::IntUnableConvert => pos_msg("Int"@, p, "Unable convert to int"@),
        FaultKind::DictOddNumOfElements => pos_msg("Dict"@, p, "Odd number of elements"@),
        FaultKind::DictKeyNotString => pos_msg("Dict"@, p, "Key not string"@),
        FaultKind::LoopIncorrectChar => pos_msg("Loop"@, p, "Incorrect character"@),
    }
}

/// The library error that stands for a fault: the decoding step that met
/// it, and the position.
pub open spec fn fault_error_is(e: Error, f: DecodeFault) -> bool {
    match f.kind {
        FaultKind::ByteStrIncorrectChar => e matches Error::DecodeIncorrectChar(w, p) && w@
            == "parse_byte_str"@ && p == f.pos,
        FaultKind::ByteStrUnableConvert => e matches Error::DecodeUnableConvert(w, n, p) && w@
            == "parse_byte_str"@ && n@ == "int"@ && p == f.pos,
        FaultKind::ByteStrNotEnoughChars => e matches Error::DecodeNotEnoughChars(w, p) && w@
            == "parse_byte_str"@ && p == f.pos,
        FaultKind::IntIncorrectChar => e matches Error::DecodeIncorrectChar(w, p) && w@
            == "parse_int"@ && p == f.pos,
        FaultKind::IntMissingTerminal => e matches Error::DecodeMissingTerminalChars(w, p) && w@
            == "parse_int"@ && p == f.pos,
        FaultKind::IntLeadingZero => e matches Error::DecodeLeadingZero(w, p) && w@
            == "parse_int"@ && p == f.pos,
        FaultKind::IntUnableConvert => e matches Error::DecodeUnableConvert(w, n, p) && w@
            == "parse_int"@ && n@ == "int"@ && p == f.pos,
        FaultKind::DictOddNumOfElements => e matches Error::DecodeOddNumOfElements(w, p) && w@
            == "parse_dict"@ && p == f.pos,
        FaultKind::DictKeyNotString => e matches Error::DecodeKeyNotString(w, p) && w@
            == "parse_dict"@ && p == f.pos,
        FaultKind::LoopIncorrectChar => e matches Error::DecodeIncorrectChar(w, p) && w@
            == "values_vector"@ && p == f.pos,
    }
}

/// All bytes are decimal digits.
pub open spec fn all_digits(t: Seq<u8>) -> bool {
    forall|k: int| 0 <= k < t.len() ==> is_digit(#[trigger] t[k])
}

/// Value of a decimal digit string (leading zeros allowed).
pub open spec fn digits_value(t: Seq<u8>) -> nat
    decreases t.len(),
{
    if t.len() == 0 {
        0
    } else {
        digits_value(t.drop_last()) * 10 + (t.last() - 48) as nat
    }
}

/// First index at or after `i` that holds `c`, or the length when there is none.
pub open spec fn find_byte(s: Seq<u8>, i: int, c: u8) -> int
    decreases s.len() - i,
{
    if i >= s.len() {
        s.len() as int
    } else if s[i] == c {
        i
    } else {
        find_byte(s, i + 1, c)
    }
}

/// Bytes allowed in the text of an integer: digits and the minus sign.
pub open spec fn is_int_char(b: u8) -> bool {
    is_digit(b) || b == 45
}

/// First index at or after `i` that holds `e` or a byte not allowed in an
/// integer, or the length when there is none.
pub open spec fn int_stop(s: Seq<u8>, i: int) -> int
    decreases s.len() - i,
{
    if i >= s.len() {
        s.len() as int
    } else if s[i] == 101 || !is_int_char(s[i]) {
        i
    } else {
        int_stop(s, i + 1)
    }
}

/// An integer text with a superfluous leading zero (`01`, `-0`, `-01`).
pub open spec fn has_leading_zero(t: Seq<u8>) -> bool {
    (t.len() >= 2 && t[0] == 48) || (t.len() >= 2 && t[0] == 45 && t[1] == 48)
}

/// The i64 denoted by a text of digits with an optional leading minus sign,
/// if it is one.
pub open spec fn int_text_value(t: Seq<u8>) -> Option<int> {
    if t.len() >= 1 && all_digits(t) && digits_value(t) <= i64::MAX {
        Some(digits_value(t) as int)
    } else if t.len() >= 2 && t[0] == 45 && all_digits(t.drop_first()) && digits_value(
        t.drop_first(),
    ) <= i64::MAX + 1 {
        Some(-(digits_value(t.drop_first()) as int))
    } else {
        None
    }
}

/// Decodes the byte string whose first length digit is at `pos`: the string
/// itself and its raw encoding, or the error; and the position reached.
pub open spec fn spec_byte_str(s: Seq<u8>, pos: int) -> (
    Result<(Seq<u8>, Seq<u8>), DecodeFault>,
    int,
) {
    let colon = find_byte(s, pos + 1, 58);
    let len_bytes = s.subrange(pos, colon);
    let after = if colon < s.len() {
        colon + 1
    } else {
        s.len() as int
    };
    if !all_digits(len_bytes) {
        (Err(fault(FaultKind::ByteStrIncorrectChar, pos)), after)
    } else if digits_value(len_bytes) > usize::MAX {
        (Err(fault(FaultKind::ByteStrUnableConvert, pos)), after)
    } else if after + digits_value(len_bytes) > s.len() {
        (Err(fault(FaultKind::ByteStrNotEnoughChars, pos)), s.len() as int)
    } else {
        let n = digits_value(len_bytes) as int;
        let v = s.subrange(after, after + n);
        (Ok((v, len_bytes.push(58) + v)), after + n)
    }
}

/// Decodes the integer whose `i` is at `pos`: the value and its raw encoding,
/// or the error; and the position reached.
pub open spec fn spec_int(s: Seq<u8>, pos: int) -> (Result<(int, Seq<u8>), DecodeFault>, int) {
    let k = int_stop(s, pos + 1);
    let body = s.subrange(pos + 1, k);
    if k < s.len() && s[k] != 101 {
        (Err(fault(FaultKind::IntIncorrectChar, pos)), k + 1)
    } else if k >= s.len() {
        (Err(fault(FaultKind::IntMissingTerminal, pos)), s.len() as int)
    } else if has_leading_zero(body) {
        (Err(fault(FaultKind::IntLeadingZero, pos)), k + 1)
    } else if int_text_value(body) is None {
        (Err(fault(FaultKind::IntUnableConvert, pos)), k + 1)
    } else {
        (Ok((int_text_value(body).unwrap(), seq![105u8] + body + seq![101u8])), k + 1)
    }
}

/// Byte order of keys: lexicographic, a proper prefix first.
pub open spec fn lex_lt(a: Seq<u8>, b: Seq<u8>) -> bool
    decreases a.len(),
{
    if a.len() == 0 {
        b.len() > 0
    } else if b.len() == 0 {
        false
    } else if a[0] < b[0] {
        true
    } else if a[0] > b[0] {
        false
    } else {
        lex_lt(a.drop_first(), b.drop_first())
    }
}

/// First index at or after `j` whose key is not below `k`.
pub open spec fn insert_pos(d: Seq<(Seq<u8>, SValue)>, k: Seq<u8>, j: int) -> int
    decreases d.len() - j,
{
    if j >= d.len() {
        d.len() as int
    } else if lex_lt(d[j].0, k) {
        insert_pos(d, k, j + 1)
    } else {
        j
    }
}

/// Puts `(k, v)` into a dictionary kept in key order, replacing the entry
/// with key `k` if there is one.
pub open spec fn dict_insert(d: Seq<(Seq<u8>, SValue)>, k: Seq<u8>, v: SValue) -> Seq<
    (Seq<u8>, SValue),
> {
    let p = insert_pos(d, k, 0);
    if p < d.len() && d[p].0 == k {
        d.update(p, (k, v))
    } else {
        d.insert(p, (k, v))
    }
}

/// Keys (at even positions) are byte strings.
pub open spec fn keys_are_strs(vs: Seq<SValue>) -> bool {
    forall|k: int| 0 <= k < vs.len() && k % 2 == 0 ==> #[trigger] vs[k] is Str
}

/// The dictionary made of the (key, value) pairs of a list, in order, a later
/// pair replacing an earlier one with the same key.
pub open spec fn dict_of(vs: Seq<SValue>) -> Seq<(Seq<u8>, SValue)>
    decreases vs.len(),
{
    if vs.len() < 2 {
        seq![]
    } else {
        let n = vs.len() as int;
        dict_insert(dict_of(vs.subrange(0, n - 2)), vs[n - 2]->Str_0, vs[n - 1])
    }
}

/// Outcome of decoding one element.
pub enum ItemRes {
    Val(SValue),
    Close,
    Fail(DecodeFault),
}

/// Decodes a run of elements starting at `i`; inside a list or dictionary
/// (`nested`) an `e` closes the run. Returns the values or the first error,
/// and the position reached.
pub open spec fn spec_values(s: Seq<u8>, i: int, nested: bool) -> (
    Result<Seq<SValue>, DecodeFault>,
    int,
)
    decreases s.len() - i, 1int,
{
    if i < 0 || i >= s.len() {
        (Ok(seq![]), i)
    } else {
        let (r, j) = spec_item(s, i, nested);
        match r {
            ItemRes::Close => (Ok(seq![]), j),
            ItemRes::Fail(m) => (Err(m), j),
            ItemRes::Val(v) => if i < j <= s.len() {
                let (rest, k) = spec_values(s, j, nested);
                match rest {
                    Ok(vs) => (Ok(seq![v] + vs), k),
                    Err(m) => (Err(m), k),
                }
            } else {
                (Err(fault(FaultKind::LoopIncorrectChar, i)), j)
            },
        }
    }
}

/// Decodes the element at `i`.
pub open spec fn spec_item(s: Seq<u8>, i: int, nested: bool) -> (ItemRes, int)
    decreases s.len() - i, 0int,
{
    if i < 0 || i >= s.len() {
        (ItemRes::Close, i + 1)
    } else {
        let b = s[i];
        if is_digit(b) {
            let (r, j) = spec_byte_str(s, i);
            match r {
                Ok((v, _)) => (ItemRes::Val(SValue::Str(v)), j),
                Err(m) => (ItemRes::Fail(m), j),
            }
        } else if b == 105 {
            let (r, j) = spec_int(s, i);
            match r {
                Ok((n, _)) => (ItemRes::Val(SValue::Int(n)), j),
                Err(m) => (ItemRes::Fail(m), j),
            }
        } else if b == 108 {
            let (r, j) = spec_values(s, i + 1, true);
            match r {
                Ok(vs) => (ItemRes::Val(SValue::List(vs)), j),
                Err(m) => (ItemRes::Fail(m), j),
            }
        } else if b == 100 {
            let (r, j) = spec_values(s, i + 1, true);
            match r {
                Ok(vs) => if vs.len() % 2 != 0 {
                    (ItemRes::Fail(fault(FaultKind::DictOddNumOfElements, i)), j)
                } else if !keys_are_strs(vs) {
                    (ItemRes::Fail(fault(FaultKind::DictKeyNotString, i)), j)
                } else {
                    (ItemRes::Val(SValue::Dict(dict_of(vs))), j)
                },
                Err(m) => (ItemRes::Fail(m), j),
            }
        } else if nested && b == 101 {
            (ItemRes::Close, i + 1)
        } else {
            (ItemRes::Fail(fault(FaultKind::LoopIncorrectChar, i)), i + 1)
        }
    }
}

/// Result of decoding a whole input: the sequence of top-level values, or the
/// first fault.
pub open spec fn spec_decode(s: Seq<u8>) -> Result<Seq<SValue>, DecodeFault> {
    spec_values(s, 0, false).0
}

/// An executable result of values matches a result of the model.
pub open spec fn vals_match(r: Result<Vec<BValue>, DecodeFault>, sr: Result<Seq<SValue>, DecodeFault>) -> bool {
    match r {
        Ok(v) => sr == Ok::<Seq<SValue>, DecodeFault>(svs(v@)),
        Err(f) => sr == Err::<Seq<SValue>, DecodeFault>(f),
    }
}

/// An executable result with a message matches a result of the model.
pub open spec fn text_match(r: Result<Vec<BValue>, String>, sr: Result<Seq<SValue>, DecodeFault>) -> bool {
    match r {
        Ok(v) => sr == Ok::<Seq<SValue>, DecodeFault>(svs(v@)),
        Err(m) => sr is Err && m@ == fault_text(sr->Err_0),
    }
}

// ---------------------------------------------------------------------------
// Lemmas
// ---------------------------------------------------------------------------

pub(crate) proof fn lemma_find_byte_bounds(s: Seq<u8>, i: int, c: u8)
    requires
        0 <= i,
    ensures
        i <= s.len() ==> i <= find_byte(s, i, c) <= s.len(),
        i > s.len() ==> find_byte(s, i, c) == s.len(),
        find_byte(s, i, c) < s.len() ==> s[find_byte(s, i, c)] == c,
        forall|k: int| i <= k < find_byte(s, i, c) ==> s[k] != c,
    decreases s.len() - i,
{
    if i < s.len() && s[i] != c {
        lemma_find_byte_bounds(s, i + 1, c);
    }
}

pub(crate) proof fn lemma_int_stop_bounds(s: Seq<u8>, i: int)
    requires
        0 <= i <= s.len(),
    ensures
        i <= int_stop(s, i) <= s.len(),
        int_stop(s, i) < s.len() ==> (s[int_stop(s, i)] == 101 || !is_int_char(
            s[int_stop(s, i)],
        )),
        forall|k: int| i <= k < int_stop(s, i) ==> s[k] != 101 && is_int_char(#[trigger] s[k]),
    decreases s.len() - i,
{
    if i < s.len() && s[i] != 101 && is_int_char(s[i]) {
        lemma_int_stop_bounds(s, i + 1);
    }
}

pub proof fn lemma_byte_str_bounds(s: Seq<u8>, pos: int)
    requires
        0 <= pos < s.len(),
    ensures
        pos < spec_byte_str(s, pos).1 <= s.len(),
{
    lemma_find_byte_bounds(s, pos + 1, 58);
}

pub proof fn lemma_int_bounds(s: Seq<u8>, pos: int)
    requires
        0 <= pos < s.len(),
    ensures
        pos < spec_int(s, pos).1 <= s.len(),
{
    lemma_int_stop_bounds(s, pos + 1);
}

/// Decoding never moves backwards nor past the end.
pub proof fn lemma_values_bounds(s: Seq<u8>, i: int, nested: bool)
    requires
        0 <= i <= s.len(),
    ensures
        i <= spec_values(s, i, nested).1 <= s.len(),
    decreases s.len() - i, 1int,
{
    if i < s.len() {
        lemma_item_bounds(s, i, nested);
        let (r, j) = spec_item(s, i, nested);
        if r is Val {
            lemma_values_bounds(s, j, nested);
        }
    }
}

/// Decoding an element consumes at least its first byte.
pub proof fn lemma_item_bounds(s: Seq<u8>, i: int, nested: bool)
    requires
        0 <= i < s.len(),
    ensures
        i < spec_item(s, i, nested).1 <= s.len(),
    decreases s.len() - i, 0int,
{
    let b = s[i];
    if is_digit(b) {
        lemma_byte_str_bounds(s, i);
    } else if b == 105 {
        lemma_int_bounds(s, i);
    } else if b == 108 || b == 100 {
        lemma_values_bounds(s, i + 1, true);
    }
}

/// Insertion positions lie within the dictionary.
pub proof fn lemma_insert_pos_bounds(d: Seq<(Seq<u8>, SValue)>, k: Seq<u8>, j: int)
    requires
        0 <= j <= d.len(),
    ensures
        j <= insert_pos(d, k, j) <= d.len(),
    decreases d.len() - j,
{
    if j < d.len() && lex_lt(d[j].0, k) {
        lemma_insert_pos_bounds(d, k, j + 1);
    }
}

pub proof fn lemma_digits_value_push(t: Seq<u8>, d: u8)
    ensures
        digits_value(t.push(d)) == digits_value(t) * 10 + (d - 48) as nat,
{
    assert(t.push(d).drop_last() =~= t);
}

proof fn lemma_digits_value_mono(t: Seq<u8>, k: int)
    requires
        0 <= k <= t.len(),
        all_digits(t),
    ensures
        digits_value(t.subrange(0, k)) <= digits_value(t),
    decreases t.len() - k,
{
    if k < t.len() {
        lemma_digits_value_mono(t, k + 1);
        assert(t.subrange(0, k + 1) =~= t.subrange(0, k).push(t[k]));
        lemma_digits_value_push(t.subrange(0, k), t[k]);
    } else {
        assert(t.subrange(0, k) =~= t);
    }
}

// ---------------------------------------------------------------------------
// Executable decoder
// ---------------------------------------------------------------------------

/// Outcome of decoding one element.
enum Item {
    Val(BValue),
    Close,
    Fail(DecodeFault),
}

spec fn item_match(it: Item, sr: ItemRes) -> bool {
    match it {
        Item::Val(v) => sr == ItemRes::Val(v.sv()),
        Item::Close => sr == ItemRes::Close,
        Item::Fail(f) => sr == ItemRes::Fail(f),
    }
}

fn find_byte_exec(s: &[u8], i: usize, c: u8) -> (r: usize)
    requires
        i <= s@.len(),
    ensures
        r == find_byte(s@, i as int, c),
{
    let mut k = i;
    while k < s.len() && s[k] != c
        invariant
            i <= k <= s@.len(),
            find_byte(s@, i as int, c) == find_byte(s@, k as int, c),
        decreases s@.len() - k,
    {
        k = k + 1;
    }
    k
}

fn int_stop_exec(s: &[u8], i: usize) -> (r: usize)
    requires
        i <= s@.len(),
    ensures
        r == int_stop(s@, i as int),
{
    let mut k = i;
    while k < s.len() && s[k] != 101 && ((s[k] >= 48 && s[k] <= 57) || s[k] == 45)
        invariant
            i <= k <= s@.len(),
            int_stop(s@, i as int) == int_stop(s@, k as int),
        decreases s@.len() - k,
    {
        k = k + 1;
    }
    k
}

/// Copies `s[a..b]`.
pub fn sub_vec(s: &[u8], a: usize, b: usize) -> (r: Vec<u8>)
    requires
        a <= b <= s@.len(),
    ensures
        r@ == s@.subrange(a as int, b as int),
{
    slice_to_vec(slice_subrange(s, a, b))
}

/// Value of the digit string `s[a..b]` if it fits in a u64.
fn digits_u64(s: &[u8], a: usize, b: usize) -> (r: Option<u64>)
    requires
        a <= b <= s@.len(),
        all_digits(s@.subrange(a as int, b as int)),
    ensures
        r matches Some(v) ==> v == digits_value(s@.subrange(a as int, b as int)),
        r is None ==> digits_value(s@.subrange(a as int, b as int)) > u64::MAX,
{
    let ghost t = s@.subrange(a as int, b as int);
    let mut v: u64 = 0;
    let mut k = a;
    while k < b
        invariant
            a <= k <= b <= s@.len(),
            t == s@.subrange(a as int, b as int),
            all_digits(t),
            v == digits_value(t.subrange(0, k - a)),
        decreases b - k,
    {
        assert(t[k - a] == s@[k as int]);
        assert(is_digit(t[k - a]));
        let d = (s[k] - 48) as u64;
        proof {
            assert(t.subrange(0, k - a + 1) =~= t.subrange(0, k - a).push(s@[k as int]));
            lemma_digits_value_push(t.subrange(0, k - a), s@[k as int]);
        }
        if v > (u64::MAX - d) / 10 {
            proof {
                lemma_digits_value_mono(t, k - a + 1);
                assert(v * 10 + d > u64::MAX) by (nonlinear_arith)
                    requires
                        v > (u64::MAX - d) / 10,
                        d <= 9,
                ;
            }
            return None;
        }
        proof {
            assert(v * 10 + d <= u64::MAX) by (nonlinear_arith)
                requires
                    v <= (u64::MAX - d) / 10,
                    d <= 9,
            ;
        }
        v = v * 10 + d;
        k = k + 1;
    }
    proof {
        assert(t.subrange(0, b - a) =~= t);
    }
    Some(v)
}

fn all_digits_exec(s: &[u8], a: usize, b: usize) -> (r: bool)
    requires
        a <= b <= s@.len(),
    ensures
        r == all_digits(s@.subrange(a as int, b as int)),
{
    let mut k = a;
    while k < b
        invariant
            a <= k <= b <= s@.len(),
            forall|j: int| a <= j < k ==> is_digit(#[trigger] s@[j]),
        decreases b - k,
    {
        if !(s[k] >= 48 && s[k] <= 57) {
            proof {
                assert(s@.subrange(a as int, b as int)[k - a] == s@[k as int]);
            }
            return false;
        }
        k = k + 1;
    }
    proof {
        assert forall|j: int| 0 <= j < b - a implies is_digit(
            #[trigger] s@.subrange(a as int, b as int)[j],
        ) by {
            assert(s@.subrange(a as int, b as int)[j] == s@[a + j]);
        }
    }
    true
}

/// Decodes the byte string whose first length digit is at `pos`.
pub fn parse_byte_str(s: &[u8], pos: usize) -> (r: (Result<(Vec<u8>, Vec<u8>), DecodeFault>, usize))
    requires
        pos < s@.len(),
    ensures
        r.1 == spec_byte_str(s@, pos as int).1,
        match (r.0, spec_byte_str(s@, pos as int).0) {
            (Ok((v, raw)), Ok((sv, sraw))) => v@ == sv && raw@ == sraw,
            (Err(f), Err(sf)) => f == sf,
            _ => false,
        },
{
    let slen = s.len();
    let colon = find_byte_exec(s, pos + 1, 58);
    proof {
        lemma_find_byte_bounds(s@, pos + 1, 58);
    }
    let after = if colon < s.len() {
        colon + 1
    } else {
        s.len()
    };
    if !all_digits_exec(s, pos, colon) {
        return (Err(DecodeFault { kind: FaultKind::ByteStrIncorrectChar, pos }), after);
    }
    let n = match digits_u64(s, pos, colon) {
        Some(n) => {
            if n > usize::MAX as u64 {
                return (Err(DecodeFault { kind: FaultKind::ByteStrUnableConvert, pos }), after);
            }
            n as usize
        },
        None => {
            return (Err(DecodeFault { kind: FaultKind::ByteStrUnableConvert, pos }), after);
        },
    };
    if n > s.len() - after {
        return (Err(DecodeFault { kind: FaultKind::ByteStrNotEnoughChars, pos }), s.len());
    }
    let value = sub_vec(s, after, after + n);
    let mut raw = sub_vec(s, pos, colon);
    raw.push(58);
    let mut tail = sub_vec(s, after, after + n);
    raw.append(&mut tail);
    (Ok((value, raw)), after + n)
}

/// Value of a text of digits with an optional leading minus, if it is an i64.
fn int_text_value_exec(s: &[u8], a: usize, b: usize) -> (r: Option<i64>)
    requires
        a <= b <= s@.len(),
    ensures
        r matches Some(v) ==> int_text_value(s@.subrange(a as int, b as int)) == Some(v as int),
        r is None ==> int_text_value(s@.subrange(a as int, b as int)) is None,
{
    let ghost t = s@.subrange(a as int, b as int);
    if b - a >= 1 && all_digits_exec(s, a, b) {
        match digits_u64(s, a, b) {
            Some(v) => {
                if v <= 9223372036854775807 {
                    return Some(v as i64);
                }
                return None;
            },
            None => {
                return None;
            },
        }
    }
    if b - a >= 2 && s[a] == 45 && all_digits_exec(s, a + 1, b) {
        proof {
            assert(t.drop_first() =~= s@.subrange(a + 1, b as int));
        }
        match digits_u64(s, a + 1, b) {
            Some(v) => {
                if v <= 9223372036854775807 {
                    return Some(-(v as i64));
                } else if v == 9223372036854775808 {
                    return Some(-9223372036854775807i64 - 1);
                }
                return None;
            },
            None => {
                return None;
            },
        }
    }
    proof {
        if b - a >= 2 && s@[a as int] == 45 {
            assert(t.drop_first() =~= s@.subrange(a + 1, b as int));
        }
    }
    None
}

/// Decodes the integer whose `i` is at `pos`.
pub fn parse_int(s: &[u8], pos: usize) -> (r: (Result<(i64, Vec<u8>), DecodeFault>, usize))
    requires
        pos < s@.len(),
    ensures
        r.1 == spec_int(s@, pos as int).1,
        match (r.0, spec_int(s@, pos as int).0) {
            (Ok((v, raw)), Ok((sv, sraw))) => v as int == sv && raw@ == sraw,
            (Err(f), Err(sf)) => f == sf,
            _ => false,
        },
{
    let slen = s.len();
    let k = int_stop_exec(s, pos + 1);
    proof {
        lemma_int_stop_bounds(s@, pos + 1);
    }
    if k < s.len() && s[k] != 101 {
        return (Err(DecodeFault { kind: FaultKind::IntIncorrectChar, pos }), k + 1);
    }
    if k >= s.len() {
        return (Err(DecodeFault { kind: FaultKind::IntMissingTerminal, pos }), s.len());
    }
    let ghost body = s@.subrange(pos + 1, k as int);
    let blen = k - (pos + 1);
    if (blen >= 2 && s[pos + 1] == 48) || (blen >= 2 && s[pos + 1] == 45 && s[pos + 2] == 48) {
        return (Err(DecodeFault { kind: FaultKind::IntLeadingZero, pos }), k + 1);
    }
    match int_text_value_exec(s, pos + 1, k) {
        Some(v) => {
            let mut raw: Vec<u8> = Vec::new();
            raw.push(105);
            let mut mid = sub_vec(s, pos + 1, k);
            raw.append(&mut mid);
            raw.push(101);
            proof {
                assert(raw@ =~= seq![105u8] + body + seq![101u8]);
            }
            (Ok((v, raw)), k + 1)
        },
        None => (Err(DecodeFault { kind: FaultKind::IntUnableConvert, pos }), k + 1),
    }
}

/// Byte order of two keys.
pub fn lex_less(a: &Vec<u8>, b: &Vec<u8>) -> (r: bool)
    ensures
        r == lex_lt(a@, b@),
{
    let mut k: usize = 0;
    assert(a@.subrange(0, a@.len() as int) =~= a@);
    assert(b@.subrange(0, b@.len() as int) =~= b@);
    while k < a.len() && k < b.len() && a[k] == b[k]
        invariant
            k <= a@.len(),
            k <= b@.len(),
            lex_lt(a@, b@) == lex_lt(a@.subrange(k as int, a@.len() as int), b@.subrange(k as int, b@.len() as int)),
        decreases a@.len() - k,
    {
        proof {
            let sa = a@.subrange(k as int, a@.len() as int);
            let sb = b@.subrange(k as int, b@.len() as int);
            assert(sa.drop_first() =~= a@.subrange(k + 1, a@.len() as int));
            assert(sb.drop_first() =~= b@.subrange(k + 1, b@.len() as int));
        }
        k = k + 1;
    }
    let ghost sa = a@.subrange(k as int, a@.len() as int);
    let ghost sb = b@.subrange(k as int, b@.len() as int);
    if k == a.len() {
        k < b.len()
    } else if k == b.len() {
        false
    } else {
        assert(sa[0] == a@[k as int]);
        assert(sb[0] == b@[k as int]);
        a[k] < b[k]
    }
}

/// Byte-wise equality of two keys.
pub fn bytes_equal(a: &[u8], b: &[u8]) -> (r: bool)
    ensures
        r == (a@ == b@),
{
    if a.len() != b.len() {
        return false;
    }
    let mut k: usize = 0;
    while k < a.len()
        invariant
            k <= a@.len(),
            a@.len() == b@.len(),
            forall|j: int| 0 <= j < k ==> a@[j] == b@[j],
        decreases a@.len() - k,
    {
        if a[k] != b[k] {
            return false;
        }
        k = k + 1;
    }
    assert(a@ =~= b@);
    true
}

/// Puts `(k, v)` into a dictionary kept in key order, replacing the entry with
/// key `k` if there is one.
pub fn dict_insert_exec(d: &mut Vec<(Vec<u8>, BValue)>, k: Vec<u8>, v: BValue)
    ensures
        sdict(final(d)@) == dict_insert(sdict(old(d)@), k@, v.sv()),
{
    let ghost sd = sdict(d@);
    let mut p: usize = 0;
    while p < d.len() && lex_less(&d[p].0, &k)
        invariant
            p <= d@.len(),
            sd == sdict(d@),
            insert_pos(sd, k@, 0) == insert_pos(sd, k@, p as int),
        decreases d@.len() - p,
    {
        p = p + 1;
    }
    assert(insert_pos(sd, k@, 0) == p);
    if p < d.len() && bytes_equal(d[p].0.as_slice(), k.as_slice()) {
        d[p] = (k, v);
        assert(sdict(d@) =~= sd.update(p as int, (k@, v.sv())));
    } else {
        d.insert(p, (k, v));
        assert(sdict(d@) =~= sd.insert(p as int, (k@, v.sv())));
    }
}

fn keys_are_strs_exec(list: &Vec<BValue>) -> (r: bool)
    ensures
        r == keys_are_strs(svs(list@)),
{
    let mut k: usize = 0;
    while k < list.len()
        invariant
            forall|j: int| 0 <= j < k && j % 2 == 0 ==> #[trigger] svs(list@)[j] is Str,
        decreases list@.len() - k,
    {
        if k % 2 == 0 {
            match &list[k] {
                BValue::ByteStr(_) => {},
                _ => {
                    assert(!(svs(list@)[k as int] is Str));
                    return false;
                },
            }
        }
        k = k + 1;
    }
    true
}

/// Builds the dictionary of the (key, value) pairs of a list.
fn build_dict(list: Vec<BValue>) -> (r: Vec<(Vec<u8>, BValue)>)
    requires
        list@.len() % 2 == 0,
        keys_are_strs(svs(list@)),
    ensures
        sdict(r@) == dict_of(svs(list@)),
{
    let ghost orig = list@;
    let mut cur = list;
    let mut d: Vec<(Vec<u8>, BValue)> = Vec::new();
    let mut p: usize = 0;
    let n = cur.len();
    assert(svs(orig.subrange(0, 0)) =~= seq![]);
    while cur.len() > 0
        invariant
            n == orig.len(),
            n % 2 == 0,
            keys_are_strs(svs(orig)),
            2 * p <= n,
            cur@ == orig.subrange(2 * p, n as int),
            sdict(d@) == dict_of(svs(orig.subrange(0, 2 * p))),
        decreases cur@.len(),
    {
        let key = cur.remove(0);
        let val = cur.remove(0);
        proof {
            assert(svs(orig)[2 * p as int] is Str);
            assert(orig[2 * p as int] == key);
            assert(orig[2 * p + 1] == val);
            let pre = svs(orig.subrange(0, 2 * p + 2));
            assert(pre.subrange(0, 2 * p as int) =~= svs(orig.subrange(0, 2 * p)));
            assert(cur@ =~= orig.subrange(2 * p + 2, n as int));
        }
        match key {
            BValue::ByteStr(k) => {
                dict_insert_exec(&mut d, k, val);
            },
            _ => {},
        }
        p = p + 1;
    }
    assert(orig.subrange(0, n as int) =~= orig);
    d
}

spec fn prepend(pre: Seq<SValue>, r: (Result<Seq<SValue>, DecodeFault>, int)) -> (
    Result<Seq<SValue>, DecodeFault>,
    int,
) {
    match r.0 {
        Ok(vs) => (Ok(pre + vs), r.1),
        Err(m) => (Err(m), r.1),
    }
}

/// Decodes a run of elements starting at `i`.
fn parse_values(s: &[u8], i: usize, nested: bool) -> (r: (Result<Vec<BValue>, DecodeFault>, usize))
    requires
        i <= s@.len(),
    ensures
        r.1 == spec_values(s@, i as int, nested).1,
        vals_match(r.0, spec_values(s@, i as int, nested).0),
    decreases s@.len() - i, 1int,
{
    let mut acc: Vec<BValue> = Vec::new();
    let mut j = i;
    assert(svs(acc@) =~= seq![]);
    assert(seq![] + spec_values(s@, i as int, nested).0->Ok_0 =~= spec_values(s@, i as int, nested).0->Ok_0);
    loop
        invariant
            i <= j <= s@.len(),
            spec_values(s@, i as int, nested) == prepend(svs(acc@), spec_values(s@, j as int, nested)),
        decreases s@.len() - j,
    {
        if j >= s.len() {
            assert(svs(acc@) + seq![] =~= svs(acc@));
            return (Ok(acc), j);
        }
        let (item, k) = parse_item(s, j, nested);
        proof {
            lemma_item_bounds(s@, j as int, nested);
        }
        match item {
            Item::Close => {
                assert(svs(acc@) + seq![] =~= svs(acc@));
                return (Ok(acc), k);
            },
            Item::Fail(m) => {
                return (Err(m), k);
            },
            Item::Val(v) => {
                let ghost old_acc = svs(acc@);
                let ghost sv = v.sv();
                acc.push(v);
                proof {
                    assert(svs(acc@) =~= old_acc.push(sv));
                    let rest = spec_values(s@, k as int, nested);
                    if rest.0 is Ok {
                        assert(old_acc + (seq![sv] + rest.0->Ok_0) =~= old_acc.push(sv)
                            + rest.0->Ok_0);
                    }
                }
                j = k;
            },
        }
    }
}

/// Decodes the element at `i`.
fn parse_item(s: &[u8], i: usize, nested: bool) -> (r: (Item, usize))
    requires
        i < s@.len(),
    ensures
        r.1 == spec_item(s@, i as int, nested).1,
        item_match(r.0, spec_item(s@, i as int, nested).0),
    decreases s@.len() - i, 0int,
{
    match Delimiter::from_byte(s[i]) {
        Delimiter::Num => {
            let (r, j) = parse_byte_str(s, i);
            match r {
                Ok((v, _)) => (Item::Val(BValue::ByteStr(v)), j),
                Err(m) => (Item::Fail(m), j),
            }
        },
        Delimiter::Int => {
            let (r, j) = parse_int(s, i);
            match r {
                Ok((n, _)) => (Item::Val(BValue::Int(n)), j),
                Err(m) => (Item::Fail(m), j),
            }
        },
        Delimiter::List => {
            let (r, j) = parse_values(s, i + 1, true);
            match r {
                Ok(vs) => {
                    let v = BValue::List(vs);
                    proof {
                        lemma_sv_unfold(v);
                    }
                    (Item::Val(v), j)
                },
                Err(m) => (Item::Fail(m), j),
            }
        },
        Delimiter::Dict => {
            let (r, j) = parse_values(s, i + 1, true);
            match r {
                Ok(vs) => {
                    if vs.len() % 2 != 0 {
                        (Item::Fail(DecodeFault { kind: FaultKind::DictOddNumOfElements, pos: i }), j)
                    } else if !keys_are_strs_exec(&vs) {
                        (Item::Fail(DecodeFault { kind: FaultKind::DictKeyNotString, pos: i }), j)
                    } else {
                        let d = build_dict(vs);
                        let v = BValue::Dict(d);
                        proof {
                            lemma_sv_unfold(v);
                        }
                        (Item::Val(v), j)
                    }
                },
                Err(m) => (Item::Fail(m), j),
            }
        },
        Delimiter::End => {
            if nested {
                (Item::Close, i + 1)
            } else {
                (Item::Fail(DecodeFault { kind: FaultKind::LoopIncorrectChar, pos: i }), i + 1)
            }
        },
        Delimiter::Unknown => (Item::Fail(DecodeFault { kind: FaultKind::LoopIncorrectChar, pos: i }), i + 1),
    }
}

/// The message of a fault, in the form `element [pos]: what`.
pub fn fault_message(f: DecodeFault) -> (r: String)
    ensures
        r@ == fault_text(f),
{
    let p = f.pos;
    match f.kind {
        FaultKind::ByteStrIncorrectChar => pos_message("ByteStr", p, "Incorrect character"),
        FaultKind::ByteStrUnableConvert => pos_message("ByteStr", p, "Unable convert to int"),
        FaultKind::ByteStrNotEnoughChars => pos_message("ByteStr", p, "Not enough characters"),
        FaultKind::IntIncorrectChar => pos_message("Int", p, "Incorrect character"),
        FaultKind::IntMissingTerminal => pos_message("Int", p, "Missing terminate character 'e'"),
        FaultKind::IntLeadingZero => pos_message("Int", p, "Leading zero"),
        FaultKind::IntUnableConvert => pos_message("Int", p, "Unable convert to int"),
        FaultKind::DictOddNumOfElements => pos_message("Dict", p, "Odd number of elements"),
        FaultKind::DictKeyNotString => pos_message("Dict", p, "Key not string"),
        FaultKind::LoopIncorrectChar => pos_message("Loop", p, "Incorrect character"),
    }
}

/// The library error that stands for a fault: the decoding step that met it
/// (`parse_byte_str`, `parse_int`, `parse_dict` or `values_vector`) and the
/// position.
pub fn fault_error(f: DecodeFault) -> (r: Error)
    ensures
        fault_error_is(r, f),
{
    let p = f.pos;
    match f.kind {
        FaultKind::ByteStrIncorrectChar => Error::DecodeIncorrectChar(text("parse_byte_str"), p),
        FaultKind::ByteStrUnableConvert => Error::DecodeUnableConvert(
            text("parse_byte_str"),
            text("int"),
            p,
        ),
        FaultKind::ByteStrNotEnoughChars => Error::DecodeNotEnoughChars(text("parse_byte_str"), p),
        FaultKind::IntIncorrectChar => Error::DecodeIncorrectChar(text("parse_int"), p),
        FaultKind::IntMissingTerminal => Error::DecodeMissingTerminalChars(text("parse_int"), p),
        FaultKind::IntLeadingZero => Error::DecodeLeadingZero(text("parse_int"), p),
        FaultKind::IntUnableConvert => Error::DecodeUnableConvert(text("parse_int"), text("int"), p),
        FaultKind::DictOddNumOfElements => Error::DecodeOddNumOfElements(text("parse_dict"), p),
        FaultKind::DictKeyNotString => Error::DecodeKeyNotString(text("parse_dict"), p),
        FaultKind::LoopIncorrectChar => Error::DecodeIncorrectChar(text("values_vector"), p),
    }
}

/// Decodes [bencoded](https://en.wikipedia.org/wiki/Bencode) values: all the
/// top-level values in order, or the first fault.
pub fn decode_values(arg: &[u8]) -> (r: Result<Vec<BValue>, DecodeFault>)
    ensures
        vals_match(r, spec_decode(arg@)),
{
    parse_values(arg, 0, false).0
}

impl BValue {
    /// Decodes [bencoded](https://en.wikipedia.org/wiki/Bencode) values: all the
    /// top-level values in order, or the message of the first error.
    pub fn parse(arg: &[u8]) -> (r: Result<Vec<BValue>, String>)
        ensures
            text_match(r, spec_decode(arg@)),
    {
        match decode_values(arg) {
            Ok(v) => Ok(v),
            Err(f) => Err(fault_message(f)),
        }
    }
}

/// [Bencode](https://en.wikipedia.org/wiki/Bencode) decoder used by metainfo
/// files and the BitTorrent protocol.
#[derive(PartialEq, Clone, Debug)]
pub struct BDecoder {}

impl BDecoder {
    /// Decodes [bencoded](https://en.wikipedia.org/wiki/Bencode) values; a
    /// decoding error comes as `Error::Decode` with its message.
    pub fn from_array(arg: &[u8]) -> (r: Result<Vec<BValue>, Error>)
        ensures
            match (r, spec_decode(arg@)) {
                (Ok(v), Ok(sv)) => svs(v@) == sv,
                (Err(Error::Decode(m)), Err(sf)) => m@ == fault_text(sf),
                _ => false,
            },
    {
        match decode_values(arg) {
            Ok(v) => Ok(v),
            Err(f) => Err(Error::Decode(fault_message(f))),
        }
    }
}

} // verus!
