//! Decimal rendering and the positional error messages of the decoder.

use vstd::prelude::*;
use vstd::string::*;
use vstd::utf8::*;

verus! {

/// The character of a decimal digit.
pub open spec fn digit_char(d: int) -> char {
    if d == 0 {
        '0'
    } else if d == 1 {
        '1'
    } else if d == 2 {
        '2'
    } else if d == 3 {
        '3'
    } else if d == 4 {
        '4'
    } else if d == 5 {
        '5'
    } else if d == 6 {
        '6'
    } else if d == 7 {
        '7'
    } else if d == 8 {
        '8'
    } else {
        '9'
    }
}

/// Decimal representation of a natural number, most significant digit first.
pub open spec fn dec_chars(n: nat) -> Seq<char>
    decreases n,
{
    if n < 10 {
        seq![digit_char(n as int)]
    } else {
        dec_chars(n / 10).push(digit_char((n % 10) as int))
    }
}

/// Whether a character is a decimal digit.
pub open spec fn is_dec_digit(c: char) -> bool {
    '0' <= c && c <= '9'
}

/// The number that a text of decimal digits denotes, read base 10.
pub open spec fn dec_value(t: Seq<char>) -> int
    decreases t.len(),
{
    if t.len() == 0 {
        0
    } else {
        dec_value(t.drop_last()) * 10 + (t.last() as int - '0' as int)
    }
}

/// The decimal text of a number is its standard base-10 rendering: at least
/// one character, all of them digits, no leading zero, and reading it back
/// base 10 gives the number.
pub proof fn lemma_dec_chars_reads_back(n: nat)
    ensures
        dec_chars(n).len() >= 1,
        forall|k: int| 0 <= k < dec_chars(n).len() ==> is_dec_digit(#[trigger] dec_chars(n)[k]),
        dec_value(dec_chars(n)) == n,
        n > 0 ==> dec_chars(n)[0] != '0',
    decreases n,
{
    if n >= 10 {
        lemma_dec_chars_reads_back(n / 10);
        let t = dec_chars(n / 10);
        let c = digit_char((n % 10) as int);
        assert(dec_chars(n) == t.push(c));
        assert(dec_chars(n).drop_last() =~= t);
        assert(c as int - '0' as int == n % 10);
        assert(n == (n / 10) * 10 + n % 10);
        assert forall|k: int| 0 <= k < dec_chars(n).len() implies is_dec_digit(#[trigger] dec_chars(n)[k]) by {
            if k < t.len() {
                assert(dec_chars(n)[k] == t[k]);
            }
        }
        assert(dec_chars(n)[0] == t[0]);
        assert(dec_value(dec_chars(n)) == dec_value(t) * 10 + (c as int - '0' as int));
    } else {
        let c = digit_char(n as int);
        assert(c as int - '0' as int == n);
        assert(dec_chars(n) == seq![c]);
        assert(dec_chars(n).drop_last() =~= Seq::<char>::empty());
        assert(dec_chars(n).last() == c);
        assert(dec_value(dec_chars(n)) == dec_value(Seq::<char>::empty()) * 10 + (c as int - '0' as int));
    }
}

/// Message of the form `kind [pos]: what`.
pub open spec fn pos_msg(kind: Seq<char>, pos: nat, what: Seq<char>) -> Seq<char> {
    kind + " ["@ + dec_chars(pos) + "]: "@ + what
}

fn digit_str(d: usize) -> (r: &'static str)
    requires
        d < 10,
    ensures
        r@ == seq![digit_char(d as int)],
{
    proof {
        reveal_strlit("0");
        reveal_strlit("1");
        reveal_strlit("2");
        reveal_strlit("3");
        reveal_strlit("4");
        reveal_strlit("5");
        reveal_strlit("6");
        reveal_strlit("7");
        reveal_strlit("8");
        reveal_strlit("9");
    }
    if d == 0 {
        "0"
    } else if d == 1 {
        "1"
    } else if d == 2 {
        "2"
    } else if d == 3 {
        "3"
    } else if d == 4 {
        "4"
    } else if d == 5 {
        "5"
    } else if d == 6 {
        "6"
    } else if d == 7 {
        "7"
    } else if d == 8 {
        "8"
    } else {
        "9"
    }
}

/// Appends the decimal representation of `n`.
pub fn append_dec(s: &mut String, n: u64)
    ensures
        final(s)@ == old(s)@ + dec_chars(n as nat),
        final(s)@.subrange(0, old(s)@.len() as int) == old(s)@,
        final(s)@.len() > old(s)@.len(),
        forall|k: int|
            old(s)@.len() <= k < final(s)@.len() ==> is_dec_digit(#[trigger] final(s)@[k]),
        dec_value(final(s)@.subrange(old(s)@.len() as int, final(s)@.len() as int)) == n,
        n > 0 ==> final(s)@[old(s)@.len() as int] != '0',
    decreases n,
{
    let ghost start = s@;
    if n >= 10 {
        append_dec(s, n / 10);
    }
    s.append(digit_str((n % 10) as usize));
    proof {
        lemma_dec_chars_reads_back(n as nat);
        let d = dec_chars(n as nat);
        assert(s@ == start + d);
        assert(s@.subrange(start.len() as int, s@.len() as int) =~= d);
        assert(s@.subrange(0, start.len() as int) =~= start);
        assert forall|k: int| start.len() <= k < s@.len() implies is_dec_digit(#[trigger] s@[k]) by {
            assert(s@[k] == d[k - start.len()]);
        }
        assert(s@[start.len() as int] == d[0]);
    }
}

/// Builds the message `kind [pos]: what`.
pub fn pos_message(kind: &str, pos: usize, what: &str) -> (r: String)
    ensures
        r@ == pos_msg(kind@, pos as nat, what@),
{
    let mut s = String::from_str(kind);
    s.append(" [");
    append_dec(&mut s, pos as u64);
    s.append("]: ");
    s.append(what);
    s
}

/// Decodes UTF-8 bytes into a `String`, if they are valid UTF-8.
///
/// Trusted: calls `String::from_utf8`, whose documentation states that it
/// fails exactly on bytes that are not valid UTF-8 and otherwise yields the
/// string that those bytes encode.
#[verifier::external_body]
pub(crate) fn utf8_string(bytes: &[u8]) -> (r: Option<String>)
    ensures
        r is Some <==> valid_utf8(bytes@),
        r matches Some(s) ==> s@ == decode_utf8(bytes@),
{
    match String::from_utf8(bytes.to_vec()) {
        Ok(s) => Some(s),
        Err(_) => None,
    }
}

/// The UTF-8 bytes of a text, in a vector.
pub fn bytes_of(s: &str) -> (r: Vec<u8>)
    ensures
        r@ == s.spec_bytes(),
{
    let b = s.as_bytes();
    vstd::slice::slice_to_vec(b)
}

/// A `String` holding the text of a literal.
pub fn text(s: &str) -> (r: String)
    ensures
        r@ == s@,
{
    String::from_str(s)
}

} // verus!
