//! Deep search for the raw value of a dictionary key in bencoded bytes.

use crate::bcodec::bdecoder::{parse_byte_str, parse_int, spec_byte_str, spec_int, bytes_equal, lemma_byte_str_bounds, lemma_int_bounds};
use crate::bcodec::bvalue::{is_digit, BValue, Delimiter};
use crate::bcodec::raw_finder::RawFinder;
use vstd::prelude::*;
use vstd::string::*;

verus! {

// ---------------------------------------------------------------------------
// Specification
// ---------------------------------------------------------------------------

/// Whether a byte opens an element (a digit, `i`, `l` or `d`).
pub open spec fn opens_elem(b: u8) -> bool {
    is_digit(b) || b == 105 || b == 108 || b == 100
}

/// Raw bytes of the elements of a list or dictionary body that starts at `i`,
/// up to its closing `e` (or the end of input); `None` on a decoding error.
/// Returns the position reached.
pub open spec fn raw_scan(s: Seq<u8>, i: int) -> (Option<Seq<u8>>, int)
    decreases s.len() - i,
{
    if i < 0 || i >= s.len() {
        (Some(seq![]), i)
    } else {
        let b = s[i];
        if b == 101 {
            (Some(seq![]), i + 1)
        } else if !opens_elem(b) {
            (None, i + 1)
        } else {
            let (r, j) = if is_digit(b) {
                match spec_byte_str(s, i) {
                    (Ok((_, raw)), j) => (Some(raw), j),
                    (Err(_), j) => (None, j),
                }
            } else if b == 105 {
                match spec_int(s, i) {
                    (Ok((_, raw)), j) => (Some(raw), j),
                    (Err(_), j) => (None, j),
                }
            } else {
                match raw_scan(s, i + 1) {
                    (Some(x), j) => (Some(seq![b] + x + seq![101u8]), j),
                    (None, j) => (None, j),
                }
            };
            match r {
                None => (None, j),
                Some(x) => if i < j <= s.len() {
                    match raw_scan(s, j) {
                        (Some(y), k) => (Some(x + y), k),
                        (None, k) => (None, k),
                    }
                } else {
                    (None, j)
                },
            }
        }
    }
}

/// Raw bytes of the element at `i` (a dictionary value), or `None` on an error
/// or when no element starts there; and the position reached.
pub open spec fn raw_elem(s: Seq<u8>, i: int) -> (Option<Seq<u8>>, int) {
    let b = s[i];
    if is_digit(b) {
        match spec_byte_str(s, i) {
            (Ok((_, raw)), j) => (Some(raw), j),
            (Err(_), j) => (None, j),
        }
    } else if b == 105 {
        match spec_int(s, i) {
            (Ok((_, raw)), j) => (Some(raw), j),
            (Err(_), j) => (None, j),
        }
    } else if b == 108 || b == 100 {
        match raw_scan(s, i + 1) {
            (Some(x), j) => (Some(seq![b] + x + seq![101u8]), j),
            (None, j) => (None, j),
        }
    } else {
        (None, i + 1)
    }
}

/// Walks the body of a dictionary from `i`, alternating keys and values
/// (`key_turn`); `extract` says that the previous key matched. Returns the raw
/// value of the first key equal to `key` (searching dictionaries met as keys
/// and as values too), an empty sequence when the dictionary holds none, or
/// `None` on an error; and the position reached.
pub open spec fn traverse(s: Seq<u8>, i: int, key: Seq<u8>, key_turn: bool, extract: bool) -> (
    Option<Seq<u8>>,
    int,
)
    decreases s.len() - i,
{
    if i < 0 || i >= s.len() {
        (Some(seq![]), i)
    } else {
        let b = s[i];
        if key_turn {
            if b == 101 {
                (Some(seq![]), i + 1)
            } else if !opens_elem(b) {
                (None, i + 1)
            } else {
                let (r, j) = raw_elem(s, i);
                match r {
                    None => (None, j),
                    Some(x) => if b == 100 && x != key {
                        match traverse(s, i + 1, key, true, false).0 {
                            None => (None, j),
                            Some(v) => if v.len() > 0 {
                                (Some(v), j)
                            } else if i < j <= s.len() {
                                traverse(s, j, key, false, false)
                            } else {
                                (None, j)
                            },
                        }
                    } else if i < j <= s.len() {
                        traverse(s, j, key, false, x == key)
                    } else {
                        (None, j)
                    },
                }
            }
        } else {
            let (r, j) = raw_elem(s, i);
            if extract {
                (r, j)
            } else if b == 100 {
                match traverse(s, i + 1, key, true, false).0 {
                    None => (None, j),
                    Some(v) => if v.len() > 0 {
                        (Some(v), j)
                    } else if i < j <= s.len() {
                        traverse(s, j, key, true, false)
                    } else {
                        (None, j)
                    },
                }
            } else if i < j <= s.len() {
                traverse(s, j, key, true, false)
            } else {
                (None, j)
            }
        }
    }
}

/// Scans top-level elements from `i`, searching every dictionary met; returns
/// the first non-empty raw value found, an empty sequence when none is found,
/// or `None` on an error; and the position reached.
pub open spec fn search(s: Seq<u8>, i: int, key: Seq<u8>) -> (Option<Seq<u8>>, int)
    decreases s.len() - i,
{
    if i < 0 || i >= s.len() {
        (Some(seq![]), i)
    } else {
        let b = s[i];
        let (r, j) = if is_digit(b) {
            match spec_byte_str(s, i) {
                (Ok(_), j) => (Some(seq![]), j),
                (Err(_), j) => (None, j),
            }
        } else if b == 105 {
            match spec_int(s, i) {
                (Ok(_), j) => (Some(seq![]), j),
                (Err(_), j) => (None, j),
            }
        } else if b == 108 {
            (Some(seq![]), i + 1)
        } else if b == 100 {
            traverse(s, i + 1, key, true, false)
        } else {
            (None, i + 1)
        };
        match r {
            None => (None, j),
            Some(v) => if v.len() > 0 {
                (Some(v), j)
            } else if i < j <= s.len() {
                search(s, j, key)
            } else {
                (None, j)
            },
        }
    }
}

/// The first raw value of `key` in `s`, if a non-empty one is found before any
/// decoding error.
pub open spec fn spec_find_first(key: Seq<u8>, s: Seq<u8>) -> Option<Seq<u8>> {
    match search(s, 0, key).0 {
        Some(v) => if v.len() > 0 {
            Some(v)
        } else {
            None
        },
        None => None,
    }
}

// ---------------------------------------------------------------------------
// Lemmas
// ---------------------------------------------------------------------------

proof fn lemma_raw_scan_bounds(s: Seq<u8>, i: int)
    requires
        0 <= i <= s.len(),
    ensures
        i <= raw_scan(s, i).1 <= s.len(),
    decreases s.len() - i,
{
    if i < s.len() {
        let b = s[i];
        if b != 101 && opens_elem(b) {
            if is_digit(b) {
                lemma_byte_str_bounds(s, i);
            } else if b == 105 {
                lemma_int_bounds(s, i);
            } else {
                lemma_raw_scan_bounds(s, i + 1);
            }
            let j = raw_elem(s, i).1;
            if i < j <= s.len() {
                lemma_raw_scan_bounds(s, j);
            }
        }
    }
}

proof fn lemma_raw_elem_bounds(s: Seq<u8>, i: int)
    requires
        0 <= i < s.len(),
    ensures
        i < raw_elem(s, i).1 <= s.len(),
{
    let b = s[i];
    if is_digit(b) {
        lemma_byte_str_bounds(s, i);
    } else if b == 105 {
        lemma_int_bounds(s, i);
    } else if b == 108 || b == 100 {
        lemma_raw_scan_bounds(s, i + 1);
    }
}

proof fn lemma_traverse_bounds(s: Seq<u8>, i: int, key: Seq<u8>, kt: bool, ex: bool)
    requires
        0 <= i <= s.len(),
    ensures
        i <= traverse(s, i, key, kt, ex).1 <= s.len(),
    decreases s.len() - i,
{
    if i < s.len() {
        let b = s[i];
        if kt && (b == 101 || !opens_elem(b)) {
        } else {
            lemma_raw_elem_bounds(s, i);
            let j = raw_elem(s, i).1;
            if i < j <= s.len() {
                lemma_traverse_bounds(s, j, key, !kt, false);
                lemma_traverse_bounds(s, j, key, false, true);
                lemma_traverse_bounds(s, j, key, false, false);
                let x = raw_elem(s, i).0;
                if x is Some {
                    lemma_traverse_bounds(s, j, key, false, x.unwrap() == key);
                }
            }
        }
    }
}

// ---------------------------------------------------------------------------
// Executable search
// ---------------------------------------------------------------------------

spec fn scan_prepend(pre: Seq<u8>, r: (Option<Seq<u8>>, int)) -> (Option<Seq<u8>>, int) {
    match r.0 {
        Some(y) => (Some(pre + y), r.1),
        None => (None, r.1),
    }
}

pub open spec fn opt_match(r: Option<Vec<u8>>, sr: Option<Seq<u8>>) -> bool {
    match r {
        Some(v) => sr == Some(v@),
        None => sr is None,
    }
}

/// Raw bytes of a list or dictionary body starting at `i`.
fn raw_values_vector(s: &[u8], i: usize) -> (r: (Option<Vec<u8>>, usize))
    requires
        i <= s@.len(),
    ensures
        r.1 == raw_scan(s@, i as int).1,
        opt_match(r.0, raw_scan(s@, i as int).0),
    decreases s@.len() - i, 2int,
{
    let mut acc: Vec<u8> = Vec::new();
    let mut j = i;
    proof {
        let r0 = raw_scan(s@, i as int);
        if r0.0 is Some {
            assert(seq![] + r0.0.unwrap() =~= r0.0.unwrap());
        }
    }
    loop
        invariant
            i <= j <= s@.len(),
            raw_scan(s@, i as int) == scan_prepend(acc@, raw_scan(s@, j as int)),
        decreases s@.len() - j,
    {
        if j >= s.len() {
            assert(acc@ + seq![] =~= acc@);
            return (Some(acc), j);
        }
        let b = s[j];
        if b == 101 {
            assert(acc@ + seq![] =~= acc@);
            return (Some(acc), j + 1);
        }
        let (r, k) = match Delimiter::from_byte(b) {
            Delimiter::Num => raw_byte_str(s, j),
            Delimiter::Int => raw_int(s, j),
            Delimiter::List => raw_list(s, j),
            Delimiter::Dict => raw_dict(s, j),
            _ => {
                return (None, j + 1);
            },
        };
        proof {
            lemma_raw_elem_bounds(s@, j as int);
        }
        match r {
            None => {
                return (None, k);
            },
            Some(x) => {
                let ghost old_acc = acc@;
                let mut x = x;
                acc.append(&mut x);
                proof {
                    let rest = raw_scan(s@, k as int);
                    if rest.0 is Some {
                        assert(old_acc + (raw_elem(s@, j as int).0.unwrap() + rest.0.unwrap())
                            =~= acc@ + rest.0.unwrap());
                    }
                }
                j = k;
            },
        }
    }
}

/// Raw bytes of the byte string at `pos`.
fn raw_byte_str(s: &[u8], pos: usize) -> (r: (Option<Vec<u8>>, usize))
    requires
        pos < s@.len(),
        is_digit(s@[pos as int]),
    ensures
        r.1 == raw_elem(s@, pos as int).1,
        opt_match(r.0, raw_elem(s@, pos as int).0),
{
    match parse_byte_str(s, pos) {
        (Ok((_, raw)), j) => (Some(raw), j),
        (Err(_), j) => (None, j),
    }
}

/// Raw bytes of the integer at `pos`.
fn raw_int(s: &[u8], pos: usize) -> (r: (Option<Vec<u8>>, usize))
    requires
        pos < s@.len(),
        s@[pos as int] == 105,
    ensures
        r.1 == raw_elem(s@, pos as int).1,
        opt_match(r.0, raw_elem(s@, pos as int).0),
{
    match parse_int(s, pos) {
        (Ok((_, raw)), j) => (Some(raw), j),
        (Err(_), j) => (None, j),
    }
}

/// Raw bytes of the list at `pos`.
fn raw_list(s: &[u8], pos: usize) -> (r: (Option<Vec<u8>>, usize))
    requires
        pos < s@.len(),
        s@[pos as int] == 108,
    ensures
        r.1 == raw_elem(s@, pos as int).1,
        opt_match(r.0, raw_elem(s@, pos as int).0),
    decreases s@.len() - pos, 1int,
{
    wrap_raw(s, pos, 108)
}

/// Raw bytes of the dictionary at `pos`.
fn raw_dict(s: &[u8], pos: usize) -> (r: (Option<Vec<u8>>, usize))
    requires
        pos < s@.len(),
        s@[pos as int] == 100,
    ensures
        r.1 == raw_elem(s@, pos as int).1,
        opt_match(r.0, raw_elem(s@, pos as int).0),
    decreases s@.len() - pos, 1int,
{
    wrap_raw(s, pos, 100)
}

fn wrap_raw(s: &[u8], pos: usize, b: u8) -> (r: (Option<Vec<u8>>, usize))
    requires
        pos < s@.len(),
        s@[pos as int] == b,
        b == 108 || b == 100,
    ensures
        r.1 == raw_elem(s@, pos as int).1,
        opt_match(r.0, raw_elem(s@, pos as int).0),
    decreases s@.len() - pos, 0int,
{
    let slen = s.len();
    match raw_values_vector(s, pos + 1) {
        (Some(x), j) => {
            let mut out: Vec<u8> = Vec::new();
            out.push(b);
            let mut x = x;
            out.append(&mut x);
            out.push(101);
            assert(out@ =~= seq![b] + raw_scan(s@, pos + 1).0.unwrap() + seq![101u8]);
            (Some(out), j)
        },
        (None, j) => (None, j),
    }
}

/// Raw bytes of the dictionary value at `pos`.
fn extract_dict_raw_value(s: &[u8], pos: usize) -> (r: (Option<Vec<u8>>, usize))
    requires
        pos < s@.len(),
    ensures
        r.1 == raw_elem(s@, pos as int).1,
        opt_match(r.0, raw_elem(s@, pos as int).0),
{
    let slen = s.len();
    match Delimiter::from_byte(s[pos]) {
        Delimiter::Num => raw_byte_str(s, pos),
        Delimiter::Int => raw_int(s, pos),
        Delimiter::List => raw_list(s, pos),
        Delimiter::Dict => raw_dict(s, pos),
        _ => (None, pos + 1),
    }
}

/// Walks a dictionary body from `i` searching for `key`.
fn traverse_dict(s: &[u8], i: usize, key: &[u8]) -> (r: (Option<Vec<u8>>, usize))
    requires
        i <= s@.len(),
    ensures
        r.1 == traverse(s@, i as int, key@, true, false).1,
        opt_match(r.0, traverse(s@, i as int, key@, true, false).0),
    decreases s@.len() - i,
{
    let mut j = i;
    let mut key_turn = true;
    let mut extract = false;
    loop
        invariant
            i <= j <= s@.len(),
            traverse(s@, i as int, key@, true, false) == traverse(
                s@,
                j as int,
                key@,
                key_turn,
                extract,
            ),
        decreases s@.len() - j,
    {
        if j >= s.len() {
            return (Some(Vec::new()), j);
        }
        let b = s[j];
        proof {
            lemma_raw_elem_bounds(s@, j as int);
        }
        if key_turn {
            if b == 101 {
                return (Some(Vec::new()), j + 1);
            }
            match Delimiter::from_byte(b) {
                Delimiter::Unknown => {
                    return (None, j + 1);
                },
                _ => {},
            }
            let (r, k) = extract_dict_raw_value(s, j);
            match r {
                None => {
                    return (None, k);
                },
                Some(x) => {
                    let same = bytes_equal(x.as_slice(), key);
                    if b == 100 && !same {
                        let (t, _) = traverse_dict(s, j + 1, key);
                        match t {
                            None => {
                                return (None, k);
                            },
                            Some(v) => {
                                if v.len() > 0 {
                                    return (Some(v), k);
                                }
                            },
                        }
                        extract = false;
                    } else {
                        extract = same;
                    }
                    key_turn = false;
                    j = k;
                },
            }
        } else {
            let (r, k) = extract_dict_raw_value(s, j);
            if extract {
                return (r, k);
            }
            if b == 100 {
                let (t, _) = traverse_dict(s, j + 1, key);
                match t {
                    None => {
                        return (None, k);
                    },
                    Some(v) => {
                        if v.len() > 0 {
                            return (Some(v), k);
                        }
                    },
                }
            }
            key_turn = true;
            j = k;
        }
    }
}

/// Scans top-level elements from the start searching every dictionary met.
fn search_values(s: &[u8], key: &[u8]) -> (r: (Option<Vec<u8>>, usize))
    ensures
        r.1 == search(s@, 0, key@).1,
        opt_match(r.0, search(s@, 0, key@).0),
{
    let mut j: usize = 0;
    loop
        invariant
            j <= s@.len(),
            search(s@, 0, key@) == search(s@, j as int, key@),
        decreases s@.len() - j,
    {
        if j >= s.len() {
            return (Some(Vec::new()), j);
        }
        let b = s[j];
        let (r, k) = match Delimiter::from_byte(b) {
            Delimiter::Num => {
                proof {
                    lemma_byte_str_bounds(s@, j as int);
                }
                match parse_byte_str(s, j) {
                    (Ok(_), k) => (Some(Vec::new()), k),
                    (Err(_), k) => (None, k),
                }
            },
            Delimiter::Int => {
                proof {
                    lemma_int_bounds(s@, j as int);
                }
                match parse_int(s, j) {
                    (Ok(_), k) => (Some(Vec::new()), k),
                    (Err(_), k) => (None, k),
                }
            },
            Delimiter::List => (Some(Vec::new()), j + 1),
            Delimiter::Dict => {
                proof {
                    lemma_traverse_bounds(s@, j + 1, key@, true, false);
                }
                traverse_dict(s, j + 1, key)
            },
            _ => (None, j + 1),
        };
        match r {
            None => {
                return (None, k);
            },
            Some(v) => {
                if v.len() > 0 {
                    return (Some(v), k);
                }
                j = k;
            },
        }
    }
}

/// Finds the first value of a dictionary key in
/// [bencoded](https://en.wikipedia.org/wiki/Bencode) bytes, looking also in
/// dictionaries that are keys or values themselves. The key is given in its
/// bencoded form (`"4:info"`) and the value is returned in raw form.
pub fn find_raw(key: &[u8], arg: &[u8]) -> (r: Option<Vec<u8>>)
    ensures
        opt_match(r, spec_find_first(key@, arg@)),
{
    match search_values(arg, key).0 {
        Some(v) => {
            if v.len() > 0 {
                Some(v)
            } else {
                None
            }
        },
        None => None,
    }
}

/// Deep finder looking for a dictionary key in a
/// [bencoded](https://en.wikipedia.org/wiki/Bencode) string.
///
/// Performs a deep search, looking for keys in dictionary values (that can be
/// dictionaries themselves).
pub struct DeepFinder {}

impl RawFinder for DeepFinder {
    /// Finds the first value for a key (given in bencoded form) in a
    /// [bencoded](https://en.wikipedia.org/wiki/Bencode) string, also in
    /// dictionaries nested as keys or values. The value is returned in raw form.
    fn find_first(key: &str, arg: &[u8]) -> (r: Option<Vec<u8>>)
        ensures
            opt_match(r, spec_find_first(key.spec_bytes(), arg@)),
    {
        find_raw(key.as_bytes(), arg)
    }
}

impl BValue {
    /// Finds the first raw value of a key (given in bencoded form) in
    /// [bencoded](https://en.wikipedia.org/wiki/Bencode) bytes; the same search
    /// as `DeepFinder::find_first`.
    pub fn find_raw_value(key: &str, arg: &[u8]) -> (r: Option<Vec<u8>>)
        ensures
            opt_match(r, spec_find_first(key.spec_bytes(), arg@)),
    {
        find_raw(key.as_bytes(), arg)
    }
}

} // verus!
