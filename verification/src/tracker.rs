//! The announce request to the tracker: its URL and query parameters.

use vstd::prelude::*;
use vstd::utf8::*;

use crate::constants::{PEER_ID_SIZE, PORT};
use crate::metainfo::{total_of, Metainfo};
use crate::text::{append_dec, dec_chars, text, utf8_string};
use crate::utils::hex_digit;

verus! {

/// Whether a byte stays as it is in a form-urlencoded string: ASCII
/// letters and digits, `*`, `-`, `.` and `_`.
pub open spec fn unchanged_byte(b: u8) -> bool {
    b == 42 || b == 45 || b == 46 || (48 <= b <= 57) || (65 <= b <= 90) || b == 95 || (97 <= b
        <= 122)
}

/// The form-urlencoding of a byte: itself, `+` for a space, else `%` and
/// two upper-case hexadecimal digits.
pub open spec fn form_byte(b: u8) -> Seq<char> {
    if unchanged_byte(b) {
        seq![b as char]
    } else if b == 32 {
        seq!['+']
    } else {
        seq!['%', hex_digit((b / 16) as int), hex_digit((b % 16) as int)]
    }
}

/// The form-urlencoding of bytes.
pub open spec fn form_encoded(s: Seq<u8>) -> Seq<char>
    decreases s.len(),
{
    if s.len() == 0 {
        Seq::empty()
    } else {
        form_encoded(s.drop_last()) + form_byte(s.last())
    }
}

/// Form-urlencodes bytes.
///
/// Trusted: calls `url::form_urlencoded::byte_serialize` of the `url` crate
/// and collects its pieces; the contract restates what its source does to
/// each byte.
#[verifier::external_body]
fn form_urlencode(bytes: &[u8]) -> (r: String)
    ensures
        r@ == form_encoded(bytes@),
{
    url::form_urlencoded::byte_serialize(bytes).collect()
}

/// The URL of the announce request: the tracker's URL with the info hash,
/// form-urlencoded, as `info_hash` parameter.
pub fn create_url(metainfo: &Metainfo) -> (r: String)
    ensures
        r@ == metainfo.announce@ + "?info_hash="@ + form_encoded(metainfo.info_hash@),
{
    let mut url = metainfo.tracker_url().clone();
    url.append("?info_hash=");
    let info_hash = form_urlencode(metainfo.info_hash().as_slice());
    url.append(info_hash.as_str());
    url
}

/// The query parameters of the announce request: our ID and port, nothing
/// transferred yet, everything left, the start event and 20 peers wanted.
pub fn announce_params(own_id: &[u8; PEER_ID_SIZE], metainfo: &Metainfo) -> (r: Option<
    Vec<(String, String)>,
>)
    requires
        total_of(metainfo.files@) <= u64::MAX,
    ensures
        r is None <==> !valid_utf8(own_id@),
        r matches Some(v) ==> {
            &&& v@.len() == 7
            &&& v@[0].0@ == "peer_id"@ && v@[0].1@ == decode_utf8(own_id@)
            &&& v@[1].0@ == "port"@ && v@[1].1@ == dec_chars(PORT as nat)
            &&& v@[2].0@ == "uploaded"@ && v@[2].1@ == "0"@
            &&& v@[3].0@ == "downloaded"@ && v@[3].1@ == "0"@
            &&& v@[4].0@ == "left"@ && v@[4].1@ == dec_chars(total_of(metainfo.files@) as nat)
            &&& v@[5].0@ == "event"@ && v@[5].1@ == "started"@
            &&& v@[6].0@ == "numwant"@ && v@[6].1@ == "20"@
        },
{
    let peer_id = match utf8_string(own_id.as_slice()) {
        Some(s) => s,
        None => return None,
    };
    let mut port = text("");
    proof {
        reveal_strlit("");
    }
    append_dec(&mut port, PORT as u64);
    let mut left = text("");
    append_dec(&mut left, metainfo.total_length());
    let mut v: Vec<(String, String)> = Vec::new();
    v.push((text("peer_id"), peer_id));
    v.push((text("port"), port));
    v.push((text("uploaded"), text("0")));
    v.push((text("downloaded"), text("0")));
    v.push((text("left"), left));
    v.push((text("event"), text("started")));
    v.push((text("numwant"), text("20")));
    Some(v)
}

} // verus!
